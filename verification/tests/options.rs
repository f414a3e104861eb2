use texreflow::config::{Args, ReflowMode, TabChar};
use texreflow::options::{
    find_close, format_options, is_optional_argument_open, protected_ranges, split_items,
};
use texreflow::scan::{LineScan, Pattern, Scan};

fn chars(s: &str) -> Vec<char> {
    s.chars().collect()
}

fn args(tabchar: TabChar, tabsize: u8) -> Args {
    Args {
        wraplen: 80,
        wrapmin: 70,
        wrap_chars: vec![' '],
        tabsize,
        tabchar,
        reflow: ReflowMode::Off,
    }
}

const PLAIN: LineScan = LineScan {
    pattern: Pattern { contains_env_begin: false, contains_env_end: false, contains_verb: false },
    ignore: false,
    verbatim: false,
    table: false,
    splitting: false,
    forced_break: false,
    comment: None,
};

fn report(text: &str) -> Scan {
    let n = text.split_inclusive('\n').count();
    Scan { lines: vec![PLAIN; n], verbs: vec![], joined_comments: vec![] }
}

fn formatted(text: &str) -> String {
    format_options(text, &args(TabChar::Space, 2), &report(text), "\n")
}

fn unchanged(text: &str) {
    assert_eq!(formatted(text), text);
}

#[test]
fn items_are_put_on_lines_of_their_own() {
    assert_eq!(
        formatted("\\usepackage[\n  a, b=c,\n d]{x}\nmore\n"),
        "\\usepackage[\n  a,\n  b=c,\n  d\n]{x}\nmore\n"
    );
}

#[test]
fn trailing_comma_is_kept() {
    assert_eq!(formatted("\\x[\na, b,\n]"), "\\x[\n  a,\n  b,\n]");
    assert_eq!(formatted("\\x[\na,\n]"), "\\x[\n  a,\n]");
}

#[test]
fn arguments_are_indented_further_than_their_line() {
    assert_eq!(formatted(" \t\\x[a,\nb]"), " \t\\x[\n \t  a,\n \t  b\n \t]");
    let text = "  \\x[a,\nb]";
    let tabs = format_options(text, &args(TabChar::Tab, 2), &report(text), "\r\n");
    assert_eq!(tabs, "  \\x[\r\n  \ta,\r\n  \tb\r\n  ]");
    let none = format_options(text, &args(TabChar::Space, 0), &report(text), "\n");
    assert_eq!(none, "  \\x[\n  a,\n  b\n  ]");
}

#[test]
fn nested_items_stay_together() {
    assert_eq!(
        formatted("\\x[a={b, c}, d=[e, f],\n g\\,h]"),
        "\\x[\n  a={b, c},\n  d=[e, f],\n  g\\,h\n]"
    );
}

#[test]
fn arguments_on_one_line_are_left_alone() {
    unchanged("\\x[a, b, c]{d}\n");
}

#[test]
fn single_items_are_left_alone() {
    unchanged("\\x[\n  a\n]\n");
    unchanged("\\x[\n]\n");
}

#[test]
fn arguments_with_comments_are_left_alone() {
    unchanged("\\x[a, % note\n b]\n");
    assert_eq!(formatted("\\x[a\\%, \n b]"), "\\x[\n  a\\%,\n  b\n]");
}

#[test]
fn arguments_with_odd_items_are_left_alone() {
    unchanged("\\x[a,, \n b]\n");
    unchanged("\\x[,a,\n b]\n");
    unchanged("\\x[a\nb, c]\n");
    unchanged("\\x[a={b,\nc}, d]\n");
    unchanged("\\x[a\rb,\nc]\n");
}

#[test]
fn unclosed_brackets_are_passed_over() {
    unchanged("\\x[a,\nb % ]\n");
    unchanged("\\x[a,\nb \\]\n");
    assert_eq!(
        formatted("\\[ x \\]\n\\foo[a,\nb]\n"),
        "\\[ x \\]\n\\foo[\n  a,\n  b\n]\n"
    );
    assert_eq!(formatted("\\x[a,\nb\n\\y[c,\nd]"), "\\x[a,\nb\n\\y[\n  c,\n  d\n]");
}

#[test]
fn brackets_in_braces_do_not_close() {
    assert_eq!(formatted("\\x[a={]},\nb]"), "\\x[\n  a={]},\n  b\n]");
}

#[test]
fn only_optional_arguments_are_formatted() {
    unchanged("text [a,\nb]\n");
    unchanged("text \\x[a,\nb]\n");
    unchanged("\\x{[a,\nb]}\n");
    unchanged("\\\\[a,\nb]\n\\y\\[a,\nb]\n");
    assert_eq!(formatted("\\x[a][b,\nc]"), "\\x[a][\n  b,\n  c\n]");
    assert_eq!(formatted("\\x{y}[b,\nc]"), "\\x{y}[\n  b,\n  c\n]");
    assert_eq!(formatted("\\x\\}[b,\nc]"), "\\x\\}[\n  b,\n  c\n]");
}

#[test]
fn brackets_within_an_argument_are_looked_at_too() {
    // The outer bracket holds an item that spans lines; the inner one opens on
    // a line that starts with a command.
    assert_eq!(
        formatted("\\x[a={\n\\y[b,\nc]}, d]"),
        "\\x[a={\n\\y[\n  b,\n  c\n]}, d]"
    );
}

#[test]
fn fixed_lines_are_left_alone() {
    let text = "\\x[a,\nb]\n\\y[c,\nd]\n\\z[e,\nf]\n";
    let expected = "\\x[\n  a,\n  b\n]\n\\y[c,\nd]\n\\z[\n  e,\n  f\n]\n";
    for line in 2..4 {
        for which in 0..3 {
            let mut scan = report(text);
            scan.lines[line].ignore = which == 0;
            scan.lines[line].verbatim = which == 1;
            scan.lines[line].table = which == 2;
            assert_eq!(format_options(text, &args(TabChar::Space, 2), &scan, "\n"), expected);
        }
    }
}

#[test]
fn formatting_changes_only_whitespace() {
    let text = "\\x[ \u{e9}a ,b,\n c ]{y}\n[d,\ne] \\z[f, g ,\n]\n";
    let ink = |s: &str| s.chars().filter(|c| !c.is_whitespace()).collect::<String>();
    assert_eq!(ink(&formatted(text)), ink(text));
    assert_ne!(formatted(text), text);
}

#[test]
fn ranges_of_fixed_lines_take_in_terminators() {
    let text = chars("a\nb\r\nc");
    let mut lines = vec![PLAIN; 3];
    assert_eq!(protected_ranges(&text, &lines), []);
    lines[1].table = true;
    lines[2].ignore = true;
    assert_eq!(protected_ranges(&text, &lines), [(2, 5), (5, 6)]);
}

#[test]
fn arguments_open_at_command_level() {
    let opens = |s: &str| is_optional_argument_open(&chars(s), s.chars().count() - 1);
    assert!(opens("\\x["));
    assert!(opens("y\n  \\x{a}["));
    assert!(opens("\\x{a\\{}["));
    assert!(!opens("["));
    assert!(!opens("a\\x["));
    assert!(!opens("\\x\\["));
    assert!(!opens("\\x{["));
    assert!(!opens("\\x[a["));
    assert!(!opens("\\x\n["));
}

#[test]
fn closing_brackets_are_matched() {
    assert_eq!(find_close(&chars("[a]"), 0), Some(2));
    assert_eq!(find_close(&chars("[[a]]"), 0), Some(4));
    assert_eq!(find_close(&chars("[[a]]"), 1), Some(3));
    assert_eq!(find_close(&chars("[\\]]"), 0), Some(3));
    assert_eq!(find_close(&chars("[%]\n]"), 0), Some(4));
    assert_eq!(find_close(&chars("[\\%]"), 0), Some(3));
    assert_eq!(find_close(&chars("[{]}"), 0), None);
    assert_eq!(find_close(&chars("[{]}]"), 0), Some(4));
    assert_eq!(find_close(&chars("[{[}]"), 0), Some(4));
    assert_eq!(find_close(&chars("[}]"), 0), Some(2));
    assert_eq!(find_close(&chars("[\\{]}]"), 0), Some(3));
    assert_eq!(find_close(&chars("[%{\n]"), 0), Some(4));
    assert_eq!(find_close(&chars("\u{e9}[\u{e9}]"), 1), Some(3));
    assert_eq!(find_close(&chars("[[a]"), 0), None);
    assert_eq!(find_close(&chars("["), 0), None);
}

#[test]
fn arguments_are_split_at_commas() {
    let split = |s: &str| split_items(&chars(s));
    assert_eq!(split(" a , b\n"), Some((vec![chars("a"), chars("b")], false)));
    assert_eq!(split("a,b, "), Some((vec![chars("a"), chars("b")], true)));
    assert_eq!(split("a}, b]"), Some((vec![chars("a}"), chars("b]")], false)));
    assert_eq!(split("a\\{, b"), Some((vec![chars("a\\{"), chars("b")], false)));
    assert_eq!(split("a"), None);
    assert_eq!(split(""), None);
    assert_eq!(split("{a, b}"), None);
    assert_eq!(split("a, % b"), None);
    assert_eq!(split("a,,b"), None);
    assert_eq!(split(","), None);
}

#[test]
fn formatted_arguments_are_left_alone() {
    let texts = [
        "\\usepackage[\n  a, b=c,\n d]{x}\nmore\n",
        "  \\x[ {a,b} , [c,d],\n e, ]\n",
        "\\x[a={\n\\y[b,\nc]}, d]",
        "\\x[a,\nb\n\\y[c,\nd]",
        "\\x[a={]},\nb]\n\\y{z}[c,\n\\z[d]]\n",
        "\\x[a,\n\\b][c,\n\\d[e, f]]\n",
        "\\x[a,\n\\b][\\c[,{]},\n d]]\n",
        "text [a,\nb]\n\\x[a,\n\nb]\n",
    ];
    for text in texts {
        let once = formatted(text);
        assert_eq!(formatted(&once), once);
    }
    assert_eq!(
        formatted("\\x[a,\n\\b][c,\n\\d[e, f]]\n"),
        "\\x[\n  a,\n  \\b\n][\n  c,\n  \\d[e, f]\n]\n"
    );
}
