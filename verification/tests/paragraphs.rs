use texreflow::paragraphs::{group, is_scan_of, line_roles, Block, LineRole, Track};
use texreflow::prose::{
    can_absorb, can_begin_reflow, is_excluded, is_reflowable, opens_math_env, scan_bare_equals,
    update_math_depth,
};
use texreflow::scan::{LineScan, Pattern, Scan};

fn chars(s: &str) -> Vec<char> {
    s.chars().collect()
}

const PATTERN: Pattern =
    Pattern { contains_env_begin: true, contains_env_end: true, contains_verb: true };

const PLAIN: LineScan = LineScan {
    pattern: PATTERN,
    ignore: false,
    verbatim: false,
    table: false,
    splitting: false,
    forced_break: false,
    comment: None,
};

fn plain(n: usize) -> Scan {
    Scan { lines: vec![PLAIN; n], verbs: vec![], joined_comments: vec![] }
}

#[test]
fn report_needs_an_entry_for_each_line() {
    assert!(is_scan_of("a\nb", &plain(2)));
    assert!(is_scan_of("a\nb\n", &plain(2)));
    assert!(!is_scan_of("a\nb\n", &plain(3)));
    assert!(!is_scan_of("a\nb\n", &plain(1)));
    assert!(is_scan_of("", &plain(0)));
}

#[test]
fn comments_lie_within_their_lines() {
    let mut scan = plain(1);
    scan.lines[0].comment = Some(3);
    assert!(is_scan_of("a\u{e9}b", &scan));
    scan.lines[0].comment = Some(4);
    assert!(!is_scan_of("a\u{e9}b", &scan));
}

#[test]
fn display_math_nests_deeply() {
    let mut depth: usize = 0;
    let line = chars(&"\\begin{align}".repeat(300));
    update_math_depth(&line, &PATTERN, &mut depth);
    assert_eq!(depth, 300);
    let line = chars(&"\\end{align}".repeat(299));
    update_math_depth(&line, &PATTERN, &mut depth);
    assert_eq!(depth, 1);
}

#[test]
fn surplus_ends_count_for_nothing() {
    let mut depth: usize = 0;
    for _ in 0..3 {
        update_math_depth(&chars("\\end{gather}"), &PATTERN, &mut depth);
        assert_eq!(depth, 0);
    }
    update_math_depth(&chars("\\begin{gather}"), &PATTERN, &mut depth);
    assert_eq!(depth, 1);
}

#[test]
fn math_depth_follows_environments() {
    let none = Pattern { contains_env_begin: false, contains_env_end: false, contains_verb: false };
    let mut depth: usize = 1;
    update_math_depth(&chars("x"), &PATTERN, &mut depth);
    assert_eq!(depth, 1);
    update_math_depth(&chars("a \\begin{alignat*}{2} b"), &PATTERN, &mut depth);
    assert_eq!(depth, 2);
    update_math_depth(&chars("\\begin{align}"), &none, &mut depth);
    assert_eq!(depth, 2);
    update_math_depth(&chars("\\end{displaymath}"), &PATTERN, &mut depth);
    assert_eq!(depth, 1);
    update_math_depth(&chars("\\begin{itemize}"), &PATTERN, &mut depth);
    assert_eq!(depth, 1);
}

#[test]
fn environments_of_one_line_are_counted_in_order() {
    for (line, before, after) in [
        ("\\begin{equation}x\\end{equation}", 0, 0),
        ("\\begin{equation}x\\end{equation}", 2, 2),
        ("\\begin{equation}\\begin{alignat}", 0, 2),
        ("\\end{equation}\\end{align} \\begin{align}", 1, 1),
        ("\\end{align}\\begin{align}\\end{align}", 0, 0),
    ] {
        let mut depth: usize = before;
        update_math_depth(&chars(line), &PATTERN, &mut depth);
        assert_eq!(depth, after, "{line}");
    }
    assert!(opens_math_env(&chars("x \\begin{equation}x\\end{equation}"), &PATTERN));
    assert!(!opens_math_env(&chars("\\end{equation}"), &PATTERN));
    let role = Track::new().advance(&chars("x \\begin{align}x\\end{align}"), &PLAIN, &[]);
    assert!(!role.flows);
}

#[test]
fn every_math_environment_is_known() {
    for name in [
        "equation", "align", "gather", "multline", "eqnarray", "alignat", "flalign", "displaymath",
    ] {
        let mut depth: usize = 0;
        update_math_depth(&chars(&format!("\\begin{{{name}")), &PATTERN, &mut depth);
        assert_eq!(depth, 1, "{name}");
        update_math_depth(&chars(&format!("\\end{{{name}")), &PATTERN, &mut depth);
        assert_eq!(depth, 0, "{name}");
    }
}

#[test]
fn equals_signs_outside_math_are_bare() {
    for (line, before, bare, after) in [
        ("a = b", false, true, false),
        ("a = b", true, false, true),
        ("$a = b$", false, false, false),
        ("$a$ = $b", false, true, true),
        ("\\(a = b", false, false, true),
        ("\\) = b", true, true, false),
        ("(a) = b", true, false, true),
        ("\\$ = b", false, true, false),
        ("", true, false, true),
    ] {
        let mut in_math = before;
        assert_eq!(scan_bare_equals(&chars(line), &mut in_math), bare, "{line}");
        assert_eq!(in_math, after, "{line}");
    }
}

#[test]
fn boundaries_take_no_part_in_paragraphs() {
    let verbs = vec!["\\verb|".to_string()];
    let flows = |line: &str| is_reflowable(&chars(line), &PLAIN, &verbs, false, false);
    assert!(flows("text"));
    assert!(flows(" \\foo text"));
    assert!(flows("$ x"));
    for line in ["", "  \t", "% c", "  %", "\\[ x", "\\] x", " $$", "} x", "x \\verb|y|"] {
        assert!(!flows(line), "{line:?}");
    }
    assert!(!is_reflowable(&chars("text"), &PLAIN, &verbs, true, false));
    assert!(!is_reflowable(&chars("text"), &PLAIN, &verbs, false, true));
    let splitting = LineScan { splitting: true, ..PLAIN };
    assert!(!is_reflowable(&chars("text"), &splitting, &verbs, false, false));
}

#[test]
fn open_ended_lines_absorb() {
    assert!(can_absorb(&chars("text"), &PLAIN));
    assert!(can_absorb(&chars("a-b"), &PLAIN));
    assert!(!can_absorb(&chars("text-  "), &PLAIN));
    assert!(!can_absorb(&chars("text"), &LineScan { comment: Some(0), ..PLAIN }));
    assert!(!can_absorb(&chars("text"), &LineScan { forced_break: true, ..PLAIN }));
}

#[test]
fn paragraphs_begin_with_text_behind_a_boundary() {
    for (line, begins) in [
        ("text", true),
        ("  text", true),
        ("\\foo", false),
        ("{x}", false),
        ("\\paragraph{x}", true),
        ("\\subparagraph*{x}", true),
        ("text-", false),
    ] {
        assert_eq!(can_begin_reflow(&chars(line), &PLAIN, true), begins, "{line}");
        assert!(!can_begin_reflow(&chars(line), &PLAIN, false));
    }
}

#[test]
fn extensions_without_prose_are_excluded() {
    assert!(is_excluded(Some("bib")) && is_excluded(Some("sty")) && is_excluded(Some("cls")));
    assert!(!is_excluded(Some("tex")) && !is_excluded(Some("bibx")) && !is_excluded(None));
}

#[test]
fn tracker_follows_the_lines() {
    let mut track = Track::new();
    let role = track.advance(&chars("text {"), &PLAIN, &[]);
    assert_eq!(role, LineRole { flows: true, begins: true, absorbs: true, commented: false });
    assert!(track.after_boundary);
    let role = track.advance(&chars("$x"), &PLAIN, &[]);
    assert!(role.begins);
    assert!(!track.after_boundary && track.in_inline_math);
    let role = track.advance(&chars("\\["), &PLAIN, &[]);
    assert!(!role.flows);
    assert!(track.after_boundary && track.in_display && !track.in_inline_math);
    let role = track.advance(&chars("y \\]"), &LineScan { comment: Some(1), ..PLAIN }, &[]);
    assert_eq!(role, LineRole { flows: false, begins: false, absorbs: false, commented: true });
    assert!(!track.in_display && track.after_boundary);
}

fn role(flows: bool, begins: bool, absorbs: bool, commented: bool) -> LineRole {
    LineRole { flows, begins, absorbs, commented }
}

fn block(start: usize, end: usize, prose: bool) -> Block {
    Block { start, end, prose }
}

#[test]
fn lines_are_grouped() {
    let text = role(true, true, true, false);
    let inner = role(true, false, true, false);
    let last = role(true, false, false, true);
    let alone = role(false, true, true, false);
    let roles = [inner, alone, text, inner, last, inner, alone, text, text];
    let expected = [
        block(0, 1, false),
        block(1, 2, false),
        block(2, 5, true),
        block(5, 6, false),
        block(6, 7, false),
        block(7, 9, true),
    ];
    assert_eq!(group(&roles, false), expected);
    let whole = [
        block(0, 1, false),
        block(1, 2, false),
        block(2, 4, true),
        block(4, 5, false),
        block(5, 6, false),
        block(6, 7, false),
        block(7, 9, true),
    ];
    assert_eq!(group(&roles, true), whole);
    assert_eq!(group(&[], true), []);
}

#[test]
fn blocks_cover_all_lines() {
    let lines: Vec<Vec<char>> =
        ["a", "b", "", "\\foo", "c", "", "d"].iter().map(|l| chars(l)).collect();
    let roles = line_roles(&lines, &plain(7));
    assert_eq!(roles.len(), 7);
    let blocks = group(&roles, false);
    let mut next = 0;
    for b in &blocks {
        assert_eq!(b.start, next);
        assert!(b.start < b.end);
        next = b.end;
    }
    assert_eq!(next, 7);
    assert_eq!(blocks.iter().filter(|b| b.prose).count(), 2);
}
