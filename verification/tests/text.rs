use texreflow::text::{
    contains, contains_char, ends_with, push_chars, push_line, split_inclusive, split_lines,
    starts_with, to_chars, trim, trim_end, trim_start, trimmed_width,
};

fn chars(s: &str) -> Vec<char> {
    s.chars().collect()
}

fn string(s: &[char]) -> String {
    s.iter().collect()
}

const SAMPLES: [&str; 9] = [
    "",
    " ",
    "\n",
    "a",
    "  a b\t",
    "one\ntwo",
    "one\r\n\r\ntwo\r",
    "\u{a0}caf\u{e9}\u{2003}\u{200b}",
    "\n\na\n \n",
];

#[test]
fn trimming_is_that_of_std() {
    for s in SAMPLES {
        let c = chars(s);
        assert_eq!(string(trim(&c)), s.trim());
        assert_eq!(string(trim_start(&c)), s.trim_start());
        assert_eq!(string(trim_end(&c)), s.trim_end());
        assert_eq!(trimmed_width(&c, 0, c.len()), s.trim().chars().count());
    }
}

#[test]
fn part_of_a_text_is_measured_trimmed() {
    assert_eq!(trimmed_width(&chars("ab  cd  ef"), 1, 8), 5);
    assert_eq!(trimmed_width(&chars("ab  cd"), 2, 4), 0);
}

#[test]
fn lines_are_those_of_std() {
    for s in SAMPLES {
        let expected: Vec<String> = s.lines().map(|l| l.to_string()).collect();
        let lines: Vec<String> = split_lines(&chars(s)).iter().map(|l| string(l)).collect();
        assert_eq!(lines, expected);
    }
}

#[test]
fn ranges_of_lines_take_in_terminators() {
    for s in SAMPLES {
        let c = chars(s);
        let expected: Vec<String> = s.split_inclusive('\n').map(|l| l.to_string()).collect();
        let parts: Vec<String> =
            split_inclusive(&c).iter().map(|&(a, b)| string(&c[a..b])).collect();
        assert_eq!(parts, expected);
    }
}

#[test]
fn searching_is_that_of_std() {
    for s in SAMPLES {
        let c = chars(s);
        for p in ["", "a", " ", "\n", "one", "ne\nt", "caf\u{e9}", "two\r\n"] {
            assert_eq!(contains(&c, p), s.contains(p), "{s:?} {p:?}");
            assert_eq!(starts_with(&c, p), s.starts_with(p), "{s:?} {p:?}");
        }
        for p in ['a', '\n', '\r', '\u{e9}', '\u{200b}'] {
            assert_eq!(contains_char(&c, p), s.contains(p));
            assert_eq!(ends_with(&c, p), s.ends_with(p));
        }
    }
}

#[test]
fn strings_are_built_from_characters() {
    let mut out = String::from("x");
    push_chars(&mut out, &chars("\u{e9}\u{1f600}"));
    assert_eq!(out, "x\u{e9}\u{1f600}");
    push_line(&mut out, &chars("y"), "\r\n");
    assert_eq!(out, "x\u{e9}\u{1f600}y\r\n");
    assert_eq!(to_chars("a\u{e9}"), vec!['a', '\u{e9}']);
    assert_eq!(to_chars(""), Vec::<char>::new());
}
