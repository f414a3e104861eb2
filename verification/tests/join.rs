use texreflow::join::join_lines;
use texreflow::paragraphs::is_scan_of;
use texreflow::scan::{LineScan, Pattern, Scan};

fn comment_of(line: &str) -> Option<usize> {
    let chars: Vec<char> = line.chars().collect();
    (0..chars.len()).find(|&i| chars[i] == '%' && (i == 0 || chars[i - 1] != '\\'))
}

fn report(text: &str) -> Scan {
    let lines = text
        .lines()
        .map(|line| LineScan {
            pattern: Pattern {
                contains_env_begin: line.contains("\\begin{"),
                contains_env_end: line.contains("\\end{"),
                contains_verb: line.contains("\\verb"),
            },
            ignore: false,
            verbatim: false,
            table: false,
            splitting: line.contains("\\section") || line.contains("\\item"),
            forced_break: line.trim_end().ends_with("\\\\"),
            comment: comment_of(line),
        })
        .collect();
    Scan { lines, verbs: vec!["\\verb|".to_string(), "\\verb+".to_string()], joined_comments: vec![] }
}

fn joined(text: &str) -> String {
    let scan = report(text);
    assert!(is_scan_of(text, &scan));
    join_lines(text, Some("tex"), &scan, "\n")
}

#[test]
fn lines_of_a_paragraph_are_joined() {
    assert_eq!(joined("one\ntwo\nthree\n"), "one two three\n");
    assert_eq!(joined("one\ntwo\n\nthree\nfour"), "one two\n\nthree four\n");
    assert_eq!(joined(""), "");
    assert_eq!(joined("\n\n"), "\n\n");
}

#[test]
fn outer_whitespace_of_a_paragraph_is_kept() {
    assert_eq!(joined("  one  \n\t two \t\n three  \n"), "  one two three  \n");
}

#[test]
fn terminators_are_replaced() {
    let text = "one\r\ntwo\r\n\r\nx";
    let scan = report(text);
    assert_eq!(join_lines(text, None, &scan, "\r\n"), "one two\r\n\r\nx\r\n");
}

#[test]
fn files_without_prose_are_returned_unchanged() {
    for extension in ["bib", "sty", "cls"] {
        let scan = report("");
        assert_eq!(join_lines("one\ntwo", Some(extension), &scan, "\n"), "one\ntwo");
    }
    for extension in ["tex", "BIB", "bibs", ""] {
        let scan = report("one\ntwo");
        assert_eq!(join_lines("one\ntwo", Some(extension), &scan, "\n"), "one two\n");
    }
}

#[test]
fn commands_do_not_begin_a_paragraph() {
    assert_eq!(joined("\\foo{x}\nmore\ntext\n"), "\\foo{x}\nmore\ntext\n");
    assert_eq!(joined("{\\bf x}\nmore\ntext\n"), "{\\bf x}\nmore\ntext\n");
    assert_eq!(joined("\\paragraph{Title} text\nmore\n"), "\\paragraph{Title} text more\n");
    assert_eq!(joined("\\subparagraph{T} text\nmore\n"), "\\subparagraph{T} text more\n");
    assert_eq!(joined("text\n\\foo{x}\nmore\n"), "text \\foo{x} more\n");
}

#[test]
fn group_opened_by_a_command_holds_a_paragraph() {
    let text = "\\mycommand{\none\ntwo\n}\n";
    assert_eq!(joined(text), "\\mycommand{\none two\n}\n");
}

#[test]
fn boundaries_stand_alone() {
    let text = "a\nb\n% note\nc\nd\n\\section{x}\ne\nf\n$$\ng\nh\n}\ni\nj\n";
    let expected = "a b\n% note\nc d\n\\section{x}\ne f\n$$\ng h\n}\ni j\n";
    assert_eq!(joined(text), expected);
}

#[test]
fn display_math_stands_alone() {
    let text = "a\n\\[\nx\ny\n\\]\nb\nc\n";
    assert_eq!(joined(text), "a\n\\[\nx\ny\n\\]\nb c\n");
    let text = "a\n\\[ x \\]\nb\nc\n";
    assert_eq!(joined(text), "a\n\\[ x \\]\nb c\n");
    let text = "a\n\\[ x\ny \\]\nb\nc\n";
    assert_eq!(joined(text), "a\n\\[ x\ny \\]\nb c\n");
}

#[test]
fn math_environments_stand_alone() {
    let text = "a\n\\begin{align*}\nx\ny\n\\end{align*}\nb\nc\n";
    assert_eq!(joined(text), "a\n\\begin{align*}\nx\ny\n\\end{align*}\nb c\n");
    let text = "\\begin{align*} x\ny \\end{align*}\nb\nc\n";
    assert_eq!(joined(text), "\\begin{align*} x\ny \\end{align*}\nb c\n");
    let text = "a\n\\begin{align*}\nx\ny\n\\end{align*}\n\nb\nc\n";
    assert_eq!(joined(text), "a\n\\begin{align*}\nx\ny\n\\end{align*}\n\nb c\n");
}

#[test]
fn environments_nest() {
    let text = "\\begin{equation}\n\\begin{align}\n\\end{align}\nx\ny\n\\end{equation}\n\na\nb\n";
    let expected =
        "\\begin{equation}\n\\begin{align}\n\\end{align}\nx\ny\n\\end{equation}\n\na b\n";
    assert_eq!(joined(text), expected);
}

#[test]
fn surplus_ends_do_not_unprotect() {
    let text = "\\end{align}\n\n\\begin{align}\n\nx\ny\n";
    assert_eq!(joined(text), text);
    let text = "\\begin{equation}\\begin{align}\nx\ny\n\\end{align}\nz\nw\n\\end{equation}\n\na\nb\n";
    assert_eq!(joined(text), text.replace("a\nb", "a b"));
}

#[test]
fn environments_end_on_their_line() {
    let text = "a\nb\n\\begin{equation}x\\end{equation}\nc\nd\n";
    assert_eq!(joined(text), "a b\n\\begin{equation}x\\end{equation}\nc d\n");
}

#[test]
fn other_environments_do_not_protect() {
    let text = "\\begin{quote}\n\nx\ny\n";
    assert_eq!(joined(text), "\\begin{quote}\n\nx y\n");
}

#[test]
fn assignments_stand_alone() {
    assert_eq!(joined("a = b\nc\nd\n"), "a = b\nc d\n");
    assert_eq!(joined("x\n$a = b$ holds\ny\n"), "x $a = b$ holds y\n");
    assert_eq!(joined("x\n\\(a = b\\) holds\ny\n"), "x \\(a = b\\) holds y\n");
    assert_eq!(joined("x\n\\$a = b\ny\n"), "x\n\\$a = b\ny\n");
}

#[test]
fn inline_math_crosses_lines() {
    assert_eq!(joined("so $a\n= b$ and\nc\n"), "so $a = b$ and c\n");
    // A blank line ends inline math.
    assert_eq!(joined("so $a\n\nx = b\nc\nd\n"), "so $a\n\nx = b\nc d\n");
}

#[test]
fn equals_sign_in_a_comment_does_not_count() {
    assert_eq!(joined("one\ntwo % a = b\nthree\n"), "one two % a = b\nthree\n");
}

#[test]
fn some_lines_absorb_nothing() {
    assert_eq!(joined("one\ntwo-\nthree\n"), "one two-\nthree\n");
    assert_eq!(joined("one\ntwo \\\\\nthree\n"), "one two \\\\\nthree\n");
    assert_eq!(joined("one % c\ntwo\nthree\n"), "one % c\ntwo\nthree\n");
    assert_eq!(joined("one-\ntwo\nthree\n"), "one-\ntwo\nthree\n");
}

#[test]
fn inline_verbatim_text_stands_alone() {
    assert_eq!(joined("one\n\\verb|x| y\nthree\nfour\n"), "one\n\\verb|x| y\nthree four\n");
    assert_eq!(joined("one\n\\verb!x! y\nthree\n"), "one \\verb!x! y three\n");
    let text = "one\n\\verb|x| y\nthree\n";
    let mut scan = report(text);
    scan.lines[1].pattern.contains_verb = false;
    assert_eq!(join_lines(text, None, &scan, "\n"), "one \\verb|x| y three\n");
}

#[test]
fn fixed_regions_stand_alone() {
    let text = "a\nb\nc\nd\ne\n";
    for which in 0..3 {
        let mut scan = report(text);
        scan.lines[2].ignore = which == 0;
        scan.lines[2].verbatim = which == 1;
        scan.lines[2].table = which == 2;
        assert_eq!(join_lines(text, None, &scan, "\n"), "a b\nc\nd e\n");
    }
}

#[test]
fn joining_keeps_words_and_ink() {
    let text = " Caf\u{e9}  one\n\ttwo\u{3000}three \n\n% x\n\\foo\nfour\u{a0}\nfive\n";
    let out = joined(text);
    let words: Vec<&str> = text.split_whitespace().collect();
    assert_eq!(out.split_whitespace().collect::<Vec<&str>>(), words);
    assert!(out.contains("\n% x\n"));
}

#[test]
fn joined_documents_are_left_alone() {
    let texts = [
        "one\ntwo\nthree\n",
        "  one  \n\t two \t\n three  \n\nfour",
        "\\section{One}\ntwo\nthree \\\\\nfour\n% five\nsix\nseven % eight\nnine\n",
        "\\[\nx\ny\n\\]\n$a\n= b$ so\nx = y\nthen\n",
        "\\begin{align}\nx\n\\end{align}\n\\foo\n} one\ntwo\n",
        "",
    ];
    for text in texts {
        let once = joined(text);
        assert_eq!(joined(&once), once);
    }
}
