use std::collections::HashSet;
use texreflow::config::{Args, ReflowMode, TabChar};
use texreflow::cost::LayoutCost;
use texreflow::minimal::{
    indent_width, join_paragraph, legal_breaks, minimally_reflow, nearest_anchor, transition_cost,
    LayoutContext,
};

fn chars(s: &str) -> Vec<char> {
    s.chars().collect()
}

fn args(wraplen: usize, wrapmin: usize) -> Args {
    Args {
        wraplen,
        wrapmin,
        wrap_chars: vec![' '],
        tabsize: 4,
        tabchar: TabChar::Space,
        reflow: ReflowMode::Minimal,
    }
}

fn reflowed(text: &str, wraplen: usize, wrapmin: usize) -> String {
    let lines: Vec<Vec<char>> = text.lines().map(chars).collect();
    minimally_reflow(&lines, None, &args(wraplen, wrapmin), "\n")
}

fn cost(fields: [usize; 6]) -> LayoutCost {
    LayoutCost {
        overflow: fields[0],
        underflow: fields[1],
        changed_breaks: fields[2],
        displacement: fields[3],
        raggedness: fields[4],
        lines: fields[5],
    }
}

/// The cost of a line of a joined text.
fn line_cost(
    text: &str,
    anchors: &[usize],
    limits: (usize, usize),
    line: (usize, usize),
    next: Option<usize>,
    indent: usize,
) -> LayoutCost {
    let text = chars(text);
    let anchor_set: HashSet<usize> = anchors.iter().copied().collect();
    let offset = |p: usize| text[..p].iter().map(|c| c.len_utf8()).sum::<usize>();
    let offsets: Vec<usize> = (0..text.len()).map(offset).collect();
    let anchor_offsets: Vec<usize> = anchors.iter().map(|&a| offset(a)).collect();
    let context = LayoutContext {
        text: &text,
        anchors,
        anchor_set: &anchor_set,
        offsets: &offsets,
        anchor_offsets: &anchor_offsets,
        wraplen: limits.0,
        wrapmin: limits.1,
    };
    transition_cost(&context, line.0, line.1, next, indent)
}

#[test]
fn costs_are_compared_in_order_of_priority() {
    let base = [1; 6];
    for i in 0..6 {
        let mut more = base;
        more[i] += 1;
        for j in i + 1..6 {
            more[j] = 0;
        }
        assert!(cost(base) < cost(more));
        assert!(cost(base) <= cost(more));
        assert!(!(cost(more) < cost(base)));
        assert_eq!(cost(base).cmp(&cost(more)), cost(base).partial_cmp(&cost(more)).unwrap());
    }
    assert!(!(cost(base) < cost(base)));
}

#[test]
fn costs_are_added_field_by_field() {
    let sum = cost([1, 2, 3, 4, 5, 6]).add(cost([10, 20, 30, 40, 50, 60]));
    assert_eq!(sum, cost([11, 22, 33, 44, 55, 66]));
    let full = cost([usize::MAX; 6]);
    assert_eq!(full.add(cost([1, 0, 2, 0, 3, 0])), full);
    assert_eq!(LayoutCost::default(), cost([0; 6]));
    assert_eq!(sum.add(LayoutCost::default()), sum);
}

#[test]
fn sums_keep_the_order() {
    let (a, b, c) = (cost([0, 5, 0, 9, 1, 1]), cost([0, 5, 1, 0, 0, 0]), cost([3, 1, 4, 1, 5, 9]));
    assert!(a < b);
    assert!(a.add(c) < b.add(c));
}

#[test]
fn indentation_is_measured() {
    assert_eq!(indent_width(&chars("a"), 4), 0);
    assert_eq!(indent_width(&chars("  a "), 4), 2);
    assert_eq!(indent_width(&chars(" \t\ta"), 3), 7);
    assert_eq!(indent_width(&chars("\x0c\r a"), 3), 3);
    assert_eq!(indent_width(&chars("\u{a0} a"), 3), 0);
    assert_eq!(indent_width(&chars(""), 3), 0);
    assert_eq!(indent_width(&chars("\ta"), 0), 0);
}

#[test]
fn paragraphs_are_joined_with_their_breaks() {
    let lines = [chars(" one "), chars("tw\u{f6}"), chars("\tthree")];
    assert_eq!(join_paragraph(&lines), (chars("one tw\u{f6} three"), vec![4, 8]));
    assert_eq!(join_paragraph(&[chars("one")]), (chars("one"), vec![]));
    assert_eq!(join_paragraph(&[]), (vec![], vec![]));
}

#[test]
fn breaks_lie_behind_wrap_characters() {
    let text = chars("ab cd\\ ef, gh");
    assert_eq!(legal_breaks(&text, &[], None, &[' ']), [0, 3, 11, 13]);
    assert_eq!(legal_breaks(&text, &[], None, &[' ', ',']), [0, 3, 10, 11, 13]);
    assert_eq!(legal_breaks(&text, &[5, 3], None, &[]), [0, 3, 5, 13]);
    assert_eq!(legal_breaks(&text, &[], Some(3), &[' ']), [0, 3, 13]);
    assert_eq!(legal_breaks(&text, &[], Some(2), &[' ']), [0, 13]);
    assert_eq!(legal_breaks(&text, &[11], Some(2), &[' ']), [0, 11, 13]);
    assert_eq!(legal_breaks(&chars("ab "), &[], None, &[' ']), [0, 3]);
    assert_eq!(legal_breaks(&chars("  b"), &[], None, &[' ']), [0, 1, 2, 3]);
}

#[test]
fn distance_is_that_of_the_nearest_anchor() {
    assert_eq!(nearest_anchor(7, &[]), 0);
    assert_eq!(nearest_anchor(7, &[10]), 3);
    assert_eq!(nearest_anchor(7, &[1, 5, 12]), 2);
    assert_eq!(nearest_anchor(11, &[1, 5, 12]), 1);
    assert_eq!(nearest_anchor(5, &[1, 5, 12]), 0);
}

#[test]
fn lines_cost_what_they_exceed() {
    // "aaaa bbbb " is nine characters wide; with the indentation, eleven.
    let c = line_cost("aaaa bbbb cccc", &[10], (8, 6), (0, 10), Some(14), 2);
    assert_eq!(c, cost([3, 0, 0, 0, 5, 1]));
}

#[test]
fn lines_cost_what_they_fall_short() {
    let c = line_cost("aaaa bbbb cccc", &[5], (20, 12), (0, 5), Some(10), 1);
    assert_eq!(c, cost([0, 7, 0, 0, 7, 1]));
    // With the next chunk the line reaches the target.
    let c = line_cost("aaaa bbbb cccc", &[5], (20, 10), (0, 5), Some(10), 1);
    assert_eq!(c, cost([0, 0, 0, 0, 5, 1]));
    // The last line may be short.
    let c = line_cost("aaaa bbbb cccc", &[10], (20, 12), (10, 14), None, 1);
    assert_eq!(c, cost([0, 0, 0, 0, 0, 1]));
}

#[test]
fn changed_breaks_are_counted() {
    let text = "aa bb cc dd ee";
    // The line swallows two authored breaks and ends at a new one.
    let c = line_cost(text, &[3, 6, 12], (20, 8), (0, 9), Some(12), 0);
    assert_eq!(c, cost([0, 0, 3, 3, 0, 1]));
    // The last line swallows one and introduces none.
    let c = line_cost(text, &[3, 6, 12], (20, 8), (9, 14), None, 0);
    assert_eq!(c, cost([0, 0, 1, 0, 0, 1]));
}

#[test]
fn displacement_is_measured_in_bytes() {
    let c = line_cost("aa \u{e9}\u{e9} bb", &[6], (20, 2), (0, 3), Some(6), 0);
    assert_eq!(c.displacement, 5);
    assert_eq!(c.changed_breaks, 1);
}

#[test]
fn fine_lines_are_kept() {
    assert_eq!(reflowed("aaaa bbbb\ncccc dddd\nee", 10, 8), "aaaa bbbb\ncccc dddd\nee\n");
    assert_eq!(reflowed("  aaaa bbbb \n\tcccc", 11, 8), "aaaa bbbb\ncccc\n");
}

#[test]
fn long_lines_are_broken_and_other_breaks_kept() {
    assert_eq!(reflowed("aaaa bbbb cccc\ndddd", 10, 8), "aaaa bbbb\ncccc\ndddd\n");
}

#[test]
fn short_lines_are_filled() {
    // The authored break cannot stay: even with the next chunk its line falls
    // short of the target. Behind "cc" and behind "dd" no line falls short, and
    // the former is nearer to the authored break.
    assert_eq!(reflowed("aa\nbb cc dd ee", 12, 10), "aa bb cc\ndd ee\n");
}

#[test]
fn words_beyond_the_limit_stand_alone() {
    assert_eq!(reflowed("aaaaaaaa bb", 4, 2), "aaaaaaaa\nbb\n");
    assert_eq!(reflowed("aa bbbbbbbb cc", 4, 2), "aa\nbbbbbbbb\ncc\n");
}

#[test]
fn lines_fit_wherever_they_can() {
    let text = "lorem ipsum dolor\nsit amet consectetur adipiscing elit sed do eiusmod\ntempor";
    for wraplen in 11..40 {
        let out = reflowed(text, wraplen, wraplen - 5);
        assert!(out.lines().all(|l| l.chars().count() <= wraplen), "{wraplen}: {out}");
        let words: Vec<&str> = text.split_whitespace().collect();
        assert_eq!(out.split_whitespace().collect::<Vec<&str>>(), words);
    }
}

#[test]
fn indentation_counts_towards_the_length() {
    // The first line is indented by two, the second by four.
    assert_eq!(reflowed("  aaaa bbbb\n    cccc dddd", 11, 4), "aaaa bbbb\ncccc\ndddd\n");
    assert_eq!(reflowed("\taaaa bbbb", 12, 4), "aaaa\nbbbb\n");
}

#[test]
fn long_first_lines_may_be_best() {
    // Behind the first word the text would be indented further.
    assert_eq!(reflowed("a bbbbbbbb\n      cc", 8, 2), "a bbbbbbbb\ncc\n");
    assert_eq!(reflowed("a bbbbbbbbbb\n          c", 11, 5), "a bbbbbbbbbb\nc\n");
}

#[test]
fn comments_are_not_broken() {
    let lines = [chars("aaa bbb ccc")];
    assert_eq!(minimally_reflow(&lines, Some(4), &args(3, 2), "\n"), "aaa\nbbb ccc\n");
    assert_eq!(minimally_reflow(&lines, None, &args(3, 2), "\r\n"), "aaa\r\nbbb\r\nccc\r\n");
}

#[test]
fn blank_paragraphs_vanish() {
    assert_eq!(reflowed("", 10, 8), "");
    assert_eq!(minimally_reflow(&[chars(" ")], None, &args(3, 2), "\n"), "");
}

/// The total cost of laying out a text with these cuts.
fn layout_cost(text: &str, anchors: &[usize], limits: (usize, usize), cuts: &[usize]) -> LayoutCost {
    let breaks = legal_breaks(&chars(text), anchors, None, &[' ']);
    let mut total = LayoutCost::default();
    for pair in cuts.windows(2) {
        let next = breaks.iter().copied().find(|&b| b > pair[1]);
        total = total.add(line_cost(text, anchors, limits, (pair[0], pair[1]), next, 0));
    }
    total
}

#[test]
fn no_layout_is_cheaper() {
    let source = "aa bbb c\ndddd ee fff\ng hh";
    let lines: Vec<Vec<char>> = source.lines().map(chars).collect();
    let (joined, anchors) = join_paragraph(&lines);
    let text: String = joined.iter().collect();
    let breaks = legal_breaks(&joined, &anchors, None, &[' ']);
    let inner = breaks.len() - 2;
    for wraplen in 4..16 {
        for wrapmin in 1..=wraplen {
            let out = reflowed(source, wraplen, wrapmin);
            let mut cuts = vec![0];
            for line in out.lines() {
                let end = cuts.last().unwrap() + line.chars().count() + 1;
                cuts.push(end.min(joined.len()));
            }
            let chosen = layout_cost(&text, &anchors, (wraplen, wrapmin), &cuts);
            for mask in 0..1_usize << inner {
                let mut other = vec![0];
                for i in 0..inner {
                    if mask >> i & 1 == 1 {
                        other.push(breaks[i + 1]);
                    }
                }
                other.push(joined.len());
                let c = layout_cost(&text, &anchors, (wraplen, wrapmin), &other);
                assert!(chosen <= c, "{wraplen} {wrapmin} {out:?} {other:?}");
            }
        }
    }
}

#[test]
fn cost_counts_removed_and_new_breaks() {
    let text = "aa bb cc dd ee";
    let c = layout_cost(text, &[3, 6, 12], (20, 1), &[0, 6, 9, 14]);
    assert_eq!((c.changed_breaks, c.lines), (3, 3));
    let c = layout_cost(text, &[3, 6, 12], (20, 1), &[0, 3, 6, 12, 14]);
    assert_eq!((c.changed_breaks, c.lines), (0, 4));
}
