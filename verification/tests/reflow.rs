use texreflow::config::{Args, ReflowMode, TabChar};
use texreflow::join::join_lines;
use texreflow::paragraphs::is_scan_of;
use texreflow::reflow::{canonical_reflow, joined_paragraphs, reflow_lines};
use texreflow::scan::{LineScan, Pattern, Scan};

const MODES: [ReflowMode; 3] = [ReflowMode::Minimal, ReflowMode::Canonical, ReflowMode::Semantic];

fn chars(s: &str) -> Vec<char> {
    s.chars().collect()
}

fn args(reflow: ReflowMode, wraplen: usize, wrapmin: usize) -> Args {
    Args {
        wraplen,
        wrapmin,
        wrap_chars: vec![' '],
        tabsize: 2,
        tabchar: TabChar::Space,
        reflow,
    }
}

fn comment_of(line: &str) -> Option<usize> {
    let chars: Vec<char> = line.chars().collect();
    (0..chars.len()).find(|&i| chars[i] == '%' && (i == 0 || chars[i - 1] != '\\'))
}

fn report(text: &str) -> Scan {
    let lines = text
        .lines()
        .map(|line| LineScan {
            pattern: Pattern {
                contains_env_begin: line.contains("\\begin{"),
                contains_env_end: line.contains("\\end{"),
                contains_verb: line.contains("\\verb"),
            },
            ignore: false,
            verbatim: false,
            table: false,
            splitting: line.contains("\\section") || line.contains("\\item"),
            forced_break: line.trim_end().ends_with("\\\\"),
            comment: comment_of(line),
        })
        .collect();
    Scan { lines, verbs: vec!["\\verb|".to_string()], joined_comments: vec![] }
}

fn reflowed(text: &str, reflow: ReflowMode, wraplen: usize, wrapmin: usize) -> String {
    let scan = report(text);
    assert!(is_scan_of(text, &scan));
    reflow_lines(text, Some("tex"), &args(reflow, wraplen, wrapmin), &scan, "\n")
}

#[test]
fn canonical_mode_joins_paragraphs() {
    let text = "  One. Two\n three  \n\nfour\nfive % six\nseven\n";
    assert_eq!(
        reflowed(text, ReflowMode::Canonical, 5, 4),
        "One. Two three\n\nfour five % six\nseven\n"
    );
}

#[test]
fn canonical_mode_ignores_authored_breaks() {
    let whole = canonical_reflow(&[chars("one two three four")], "\n");
    assert_eq!(whole, "one two three four\n");
    assert_eq!(canonical_reflow(&[chars("one two"), chars("three four")], "\n"), whole);
    assert_eq!(canonical_reflow(&[chars("one"), chars(" two three "), chars("four")], "\n"), whole);
    assert_eq!(canonical_reflow(&[], "\n"), "\n");
}

#[test]
fn minimal_mode_keeps_fine_lines() {
    let text = "aaaa bbbb\ncccc dddd\nee\n\nxx\n";
    assert_eq!(reflowed(text, ReflowMode::Minimal, 10, 8), text);
}

#[test]
fn minimal_mode_breaks_long_lines() {
    let text = "aaaa bbbb cccc\ndddd\n\\foo{aaaa bbbb cccc}\n";
    assert_eq!(
        reflowed(text, ReflowMode::Minimal, 10, 8),
        "aaaa bbbb\ncccc\ndddd\n\\foo{aaaa\nbbbb cccc}\n"
    );
}

#[test]
fn minimal_mode_leaves_commented_lines_alone() {
    let text = "aaaa bbbb cccc\n dddd eeee ffff % g\nhhhh iiii jjjj\n";
    assert_eq!(
        reflowed(text, ReflowMode::Minimal, 10, 8),
        "aaaa bbbb\ncccc\n dddd eeee ffff % g\nhhhh iiii jjjj\n"
    );
}

#[test]
fn semantic_mode_breaks_sentences() {
    let text = "One. Two\nthree. Four % five. six\n\n\\section{Seven. Eight}\n";
    assert_eq!(
        reflowed(text, ReflowMode::Semantic, 80, 70),
        "One.\nTwo\nthree.\nFour % five. six\n\n\\section{Seven. Eight}\n"
    );
}

#[test]
fn files_without_prose_pass_unchanged() {
    for mode in [ReflowMode::Off, ReflowMode::Minimal, ReflowMode::Canonical, ReflowMode::Semantic]
    {
        for extension in ["bib", "sty", "cls"] {
            let text = "One. Two\nthree";
            let scan = report("");
            let out = reflow_lines(text, Some(extension), &args(mode, 4, 2), &scan, "\n");
            assert_eq!(out, text);
        }
    }
}

#[test]
fn documents_without_paragraphs_may_be_off() {
    let text = "\\foo\n% bar\n";
    let scan = report(text);
    let out = reflow_lines(text, None, &args(ReflowMode::Off, 80, 70), &scan, "\n");
    assert_eq!(out, text);
}

#[test]
fn boundaries_pass_untouched() {
    let boundaries = [
        "  % One. Two three",
        "  \\[ One. Two three",
        "  \\] One. Two three",
        "  $$One. Two three",
        "  } One. Two three",
        "  \\item One. Two three",
        "  One. Two = three",
        "  One. \\verb|Two| three",
        "\t \u{a0}",
        "\\begin{align*} One. Two three",
    ];
    for mode in MODES {
        for line in boundaries {
            let text = format!("aa bb\n{line}\ncc dd\n");
            let out = reflowed(&text, mode, 4, 2);
            assert!(out.contains(&format!("\n{line}\n")), "{mode:?} {out:?}");
        }
    }
}

#[test]
fn fixed_regions_pass_untouched() {
    let text = "One. Two\n  three. four five\nsix. seven\n";
    for mode in MODES {
        for which in 0..3 {
            let mut scan = report(text);
            scan.lines[1].ignore = which == 0;
            scan.lines[1].verbatim = which == 1;
            scan.lines[1].table = which == 2;
            let out = reflow_lines(text, None, &args(mode, 4, 2), &scan, "\r\n");
            assert!(out.contains("\r\n  three. four five\r\n"), "{mode:?} {out:?}");
        }
    }
}

#[test]
fn words_and_ink_are_kept() {
    let text = "\u{a0}Caf\u{e9} one.  Two three\n\tfour, (five; six) seven\n% x y\n\n$a\n= b$ so.\n";
    let ink = |s: &str| s.chars().filter(|c| !c.is_whitespace()).collect::<String>();
    for mode in MODES {
        for wraplen in 1..30 {
            let out = reflowed(text, mode, wraplen, wraplen / 2);
            assert_eq!(ink(&out), ink(text));
            let words: Vec<&str> = text.split_whitespace().collect();
            assert_eq!(out.split_whitespace().collect::<Vec<&str>>(), words);
        }
    }
}

#[test]
fn paragraphs_are_handed_out_joined() {
    let text = "  one\ntwo \n\n\\foo\n\nthree % c\nfour\n\nfive\nsix % c\n";
    let scan = report(text);
    assert_eq!(joined_paragraphs(text, &scan), ["one two", "five"]);
}

#[test]
fn comments_of_joined_paragraphs_are_not_broken() {
    let text = "aaa bbb ccc\n\n\\foo\n\nddd eee fff\n";
    let mut scan = report(text);
    scan.joined_comments = vec![None, Some(4)];
    let minimal = args(ReflowMode::Minimal, 3, 2);
    assert_eq!(
        reflow_lines(text, None, &minimal, &scan, "\n"),
        "aaa\nbbb\nccc\n\n\\foo\n\nddd\neee fff\n"
    );
    scan.joined_comments = vec![Some(4)];
    assert_eq!(
        reflow_lines(text, None, &minimal, &scan, "\n"),
        "aaa\nbbb ccc\n\n\\foo\n\nddd\neee\nfff\n"
    );
}

#[test]
fn wrap_characters_other_than_whitespace_may_split_words() {
    let text = "aa-bb-cc\n";
    let mut settings = args(ReflowMode::Minimal, 3, 2);
    settings.wrap_chars = vec!['-'];
    let out = reflow_lines(text, None, &settings, &report(text), "\n");
    assert_eq!(out, "aa-\nbb-\ncc\n");
}

#[test]
fn headings_begin_paragraphs() {
    let text = "\\paragraph{One.} Two\nthree.\n";
    assert_eq!(
        reflowed(text, ReflowMode::Canonical, 80, 70),
        "\\paragraph{One.} Two three.\n"
    );
}

#[test]
fn lines_that_stand_alone_keep_their_order() {
    let text = "% one\naa bb\n\n  % two\ncc\ndd ee\n\\item three\n\nff\n";
    for mode in MODES {
        let out = reflowed(text, mode, 4, 2);
        let alone: Vec<&str> =
            out.lines().filter(|l| l.contains('%') || l.contains("\\item")).collect();
        assert_eq!(alone, ["% one", "  % two", "\\item three"]);
    }
}

#[test]
fn blank_lines_part_documents() {
    let first = "One. Two\nthree four $a\n= b$\n";
    let second = "\\[\nx\n\\]\nfive. Six\nseven\n";
    for mode in MODES {
        let whole = reflowed(&format!("{first}\n{second}"), mode, 8, 6);
        let parts = [reflowed(first, mode, 8, 6), reflowed(second, mode, 8, 6)];
        assert_eq!(whole, format!("{}\n{}", parts[0], parts[1]));
    }
}

#[test]
fn canonical_lines_are_joined_lines() {
    let text = "  One. Two\n three  \n\n\tfour\nfive % six\nseven\n\\item eight\nnine\n";
    let joined = join_lines(text, Some("tex"), &report(text), "\n");
    let canonical = reflowed(text, ReflowMode::Canonical, 80, 70);
    let trimmed = |s: &str| s.lines().map(|l| l.trim().to_string()).collect::<Vec<String>>();
    assert_eq!(trimmed(&canonical), trimmed(&joined));
    assert_ne!(canonical, joined);
}

#[test]
fn canonical_mode_does_not_depend_on_breaks() {
    let whole = "One. Two three four five.\n\nSix seven.\n";
    let texts = [
        whole,
        "One.\nTwo\nthree\nfour\nfive.\n\nSix\nseven.\n",
        "One. Two three\nfour five.\n\nSix seven.",
    ];
    for text in texts {
        assert_eq!(reflowed(text, ReflowMode::Canonical, 10, 8), whole);
    }
}

#[test]
fn semantic_mode_keeps_authored_lines_apart() {
    let text = "One. Two\nthree.\n\nFour five. Six seven\neight\n";
    let out = reflowed(text, ReflowMode::Semantic, 80, 70);
    assert_eq!(out, "One.\nTwo\nthree.\n\nFour five.\nSix seven\neight\n");
    let groups = ["One.\nTwo\n", "three.\n", "\n", "Four five.\nSix seven\n", "eight\n"];
    assert_eq!(out, groups.concat());
}

#[test]
fn semantic_mode_loses_no_line() {
    let text = "One. Two\n\nthree,\nfour, five; six.\n% seven\n$a\nb. c$ eight\n";
    for wraplen in 1..20 {
        let out = reflowed(text, ReflowMode::Semantic, wraplen, 1);
        assert!(out.lines().count() >= text.lines().count());
    }
    assert_eq!(reflowed("One. Two", ReflowMode::Semantic, 80, 70).lines().count(), 2);
}

#[test]
fn results_end_in_a_terminator() {
    for text in ["a", "a\nb", "a\n\n", "% a", "a % b\nc", "\n"] {
        for mode in MODES {
            let out = reflowed(text, mode, 2, 1);
            assert!(out.ends_with('\n'), "{mode:?} {text:?}");
        }
        assert!(join_lines(text, None, &report(text), "\r\n").ends_with("\r\n"));
    }
}

#[test]
fn minimal_mode_leaves_its_result_alone() {
    let text = "aaaa bbbb cccc dd\ne\nffff gggg\nhh iiiiiiiiiiiiiii jj\n\nkk ll\nmm\n";
    for wraplen in 1..30 {
        for wrapmin in 0..wraplen {
            let once = reflowed(text, ReflowMode::Minimal, wraplen, wrapmin);
            assert_eq!(reflowed(&once, ReflowMode::Minimal, wraplen, wrapmin), once);
        }
        // Costs reach the largest machine word.
        let once = reflowed(text, ReflowMode::Minimal, wraplen, usize::MAX);
        assert_eq!(reflowed(&once, ReflowMode::Minimal, wraplen, usize::MAX), once);
    }
}
