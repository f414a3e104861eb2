//! Neither joining nor reflow splits a word, merges two words or moves one.

use vstd::prelude::*;

use crate::authored::lemma_line_in_text;
use crate::chars::white;
use crate::config::{Args, ReflowMode};
use crate::join::{chain, joined, joined_text};
use crate::laws::{law_minimal_breaks_are_legal, law_semantic_cuts_are_safe, lemma_paragraph_length};
use crate::minimal::{
    anchors_of, graph_of, laid_out, layout_of, lemma_anchors, lemma_breaks, lemma_layout, minimal,
    paragraph_text,
};
use crate::paragraphs::{
    blocks, comment_within, fits, lemma_blocks, lemma_tiles_drop_last, roles, tiles, Block,
};
use crate::reflow::{
    blocks_for, canonical, joined_comment, mode_applies, paragraph_count, reflowed_block,
    reflowed_blocks, reflowed_text,
};
use crate::scan::{LineScan, Scan};
use crate::semantic::{
    fragments, lemma_line_cuts, line_cuts, line_group, nesting_before, semantic, sorted,
};
use crate::text::{
    ascending, blank, first_ink, ink_end, lemma_first_ink, lemma_ink_end, lemma_line_count,
    lemma_span, lemma_spans, lemma_trimmed, line_body, line_spans, lines, trimmed, trimmed_end,
    trimmed_start,
};

verus! {

// ---------------------------------------------------------------------------
// Words

/// The words of a text: its longest stretches without whitespace, in order.
pub open spec fn words(s: Seq<char>) -> Seq<Seq<char>>
    decreases s.len(),
{
    if s.len() == 0 {
        seq![]
    } else {
        let head = s.drop_last();
        let ws = words(head);
        if white(s.last()) {
            ws
        } else if head.len() == 0 || white(head.last()) {
            ws.push(seq![s.last()])
        } else {
            ws.drop_last().push(ws.last().push(s.last()))
        }
    }
}

/// Whether cutting a text at `p` cuts no word.
pub open spec fn between_words(s: Seq<char>, p: int) -> bool {
    p <= 0 || p >= s.len() || white(s[p - 1]) || white(s[p])
}

proof fn lemma_some_word(s: Seq<char>)
    requires
        s.len() > 0,
        !white(s.last()),
    ensures
        words(s).len() > 0,
{
}

/// Cutting a text between words parts its words.
proof fn lemma_words_split(s: Seq<char>, p: int)
    requires
        0 <= p <= s.len(),
        between_words(s, p),
    ensures
        words(s) == words(s.subrange(0, p)) + words(s.subrange(p, s.len() as int)),
    decreases s.len(),
{
    let n = s.len() as int;
    let a = s.subrange(0, p);
    let b = s.subrange(p, n);
    if p == n {
        assert(a =~= s);
        assert(words(b) =~= seq![]);
        assert(words(s) =~= words(a) + words(b));
    } else {
        let head = s.drop_last();
        lemma_words_split(head, p);
        assert(head.subrange(0, p) =~= a);
        assert(b.drop_last() =~= head.subrange(p, n - 1));
        assert(b.last() == s.last());
        let wa = words(a);
        let wb = words(b.drop_last());
        assert(words(head) == wa + wb);
        if !white(s.last()) {
            if p < n - 1 {
                assert(b.drop_last().last() == head.last());
                if white(head.last()) {
                    assert((wa + wb).push(seq![s.last()]) =~= wa + wb.push(seq![s.last()]));
                } else {
                    lemma_some_word(b.drop_last());
                    let w = wb.last().push(s.last());
                    assert((wa + wb).last() == wb.last());
                    assert((wa + wb).drop_last().push(w) =~= wa + wb.drop_last().push(w));
                }
            } else {
                assert(wb =~= seq![]);
                assert((wa + wb).push(seq![s.last()]) =~= wa + wb.push(seq![s.last()]));
            }
        }
    }
}

/// A blank text has no words.
proof fn lemma_words_blank(s: Seq<char>)
    requires
        blank(s),
    ensures
        words(s) == Seq::<Seq<char>>::empty(),
    decreases s.len(),
{
    if s.len() > 0 {
        let head = s.drop_last();
        assert forall|i: int| 0 <= i < head.len() implies white(#[trigger] head[i]) by {
            assert(head[i] == s[i]);
        }
        lemma_words_blank(head);
    }
}

/// The words of two texts with whitespace where they meet.
proof fn lemma_words_add(a: Seq<char>, b: Seq<char>)
    requires
        a.len() == 0 || b.len() == 0 || white(a.last()) || white(b[0]),
    ensures
        words(a + b) == words(a) + words(b),
{
    let s = a + b;
    let p = a.len() as int;
    assert(p > 0 ==> s[p - 1] == a.last());
    assert(b.len() > 0 ==> s[p] == b[0]);
    lemma_words_split(s, p);
    assert(s.subrange(0, p) =~= a);
    assert(s.subrange(p, s.len() as int) =~= b);
}

proof fn lemma_no_more_words(ws: Seq<Seq<char>>)
    ensures
        ws + Seq::<Seq<char>>::empty() == ws,
        Seq::<Seq<char>>::empty() + ws == ws,
{
    assert(ws + Seq::<Seq<char>>::empty() =~= ws);
    assert(Seq::<Seq<char>>::empty() + ws =~= ws);
}

/// A text that differs from a part of another by the whitespace around that
/// part has the same words.
proof fn lemma_words_inner(s: Seq<char>, a: int, b: int)
    requires
        0 <= a <= b <= s.len(),
        forall|k: int| 0 <= k < a ==> white(#[trigger] s[k]),
        forall|k: int| b <= k < s.len() ==> white(#[trigger] s[k]),
    ensures
        words(s.subrange(a, b)) == words(s),
{
    let n = s.len() as int;
    let tail = s.subrange(a, n);
    lemma_words_split(s, a);
    lemma_words_blank(s.subrange(0, a));
    assert(b < n ==> tail[b - a] == s[b]);
    lemma_words_split(tail, b - a);
    assert(tail.subrange(0, b - a) =~= s.subrange(a, b));
    let rest = tail.subrange(b - a, tail.len() as int);
    assert forall|k: int| 0 <= k < rest.len() implies white(#[trigger] rest[k]) by {
        assert(rest[k] == s[b + k]);
    }
    lemma_words_blank(rest);
    lemma_no_more_words(words(tail));
    lemma_no_more_words(words(s.subrange(a, b)));
}

pub proof fn lemma_words_trimmed(s: Seq<char>)
    ensures
        words(trimmed(s)) == words(s),
        words(trimmed_start(s)) == words(s),
        words(trimmed_end(s)) == words(s),
{
    let n = s.len() as int;
    lemma_trimmed(s);
    lemma_words_inner(s, first_ink(s, 0), ink_end(s, first_ink(s, 0), n));
    lemma_first_ink(s, 0);
    lemma_words_inner(s, first_ink(s, 0), n);
    lemma_ink_end(s, 0, n);
    lemma_words_inner(s, 0, ink_end(s, 0, n));
}

/// A text with ink has words.
pub proof fn lemma_words_of_ink(s: Seq<char>)
    requires
        trimmed(s).len() > 0,
    ensures
        words(s).len() > 0,
{
    lemma_trimmed(s);
    lemma_words_trimmed(s);
    lemma_some_word(trimmed(s));
}

/// The words of the lines `i..j`.
pub open spec fn line_words(ls: Seq<Seq<char>>, i: int, j: int) -> Seq<Seq<char>>
    decreases j - i,
{
    if i < j {
        line_words(ls, i, j - 1) + words(ls[j - 1])
    } else {
        seq![]
    }
}

proof fn lemma_line_words_split(ls: Seq<Seq<char>>, i: int, j: int, k: int)
    requires
        i <= j <= k,
    ensures
        line_words(ls, i, k) == line_words(ls, i, j) + line_words(ls, j, k),
    decreases k - j,
{
    if j < k {
        lemma_line_words_split(ls, i, j, k - 1);
        let (x, y, z) = (line_words(ls, i, j), line_words(ls, j, k - 1), words(ls[k - 1]));
        assert(x + y + z =~= x + (y + z));
    } else {
        lemma_no_more_words(line_words(ls, i, j));
    }
}

proof fn lemma_line_words_of_part(ls: Seq<Seq<char>>, i: int, j: int, k: int)
    requires
        0 <= i <= k <= j <= ls.len(),
    ensures
        line_words(ls.subrange(i, j), 0, k - i) == line_words(ls, i, k),
    decreases k - i,
{
    if i < k {
        lemma_line_words_of_part(ls, i, j, k - 1);
        assert(ls.subrange(i, j)[k - i - 1] == ls[k - 1]);
    }
}

/// The words of a text are those of its lines.
proof fn lemma_words_lines(s: Seq<char>, k: int)
    requires
        0 <= k <= lines(s).len(),
    ensures
        line_words(lines(s), 0, k) == words(
            s.subrange(
                0,
                if k > 0 {
                    line_spans(s)[k - 1].1
                } else {
                    0
                },
            ),
        ),
    decreases k,
{
    if k > 0 {
        lemma_words_lines(s, k - 1);
        lemma_span(s, k - 1);
        let (a, b) = line_spans(s)[k - 1];
        let head = s.subrange(0, a);
        let raw = s.subrange(a, b);
        if k > 1 {
            lemma_span(s, k - 2);
            assert(head.last() == s[a - 1]);
        }
        lemma_words_add(head, raw);
        assert(head + raw =~= s.subrange(0, b));
        let body = line_body(raw);
        assert(raw.subrange(0, body.len() as int) =~= body);
        assert forall|i: int| body.len() <= i < raw.len() implies white(#[trigger] raw[i]) by {
            assert(raw.last() == raw[raw.len() - 1]);
            if raw.len() > 1 {
                assert(raw.drop_last().last() == raw[raw.len() - 2]);
            }
        }
        lemma_words_inner(raw, 0, body.len() as int);
        if k == 1 {
            assert(head =~= s.subrange(0, 0));
        }
    } else {
        assert(s.subrange(0, 0) =~= seq![]);
    }
}

/// The words of a whole text are those of its lines.
pub proof fn lemma_words_all_lines(s: Seq<char>)
    ensures
        line_words(lines(s), 0, lines(s).len() as int) == words(s),
{
    lemma_words_lines(s, lines(s).len() as int);
    if lines(s).len() > 0 {
        lemma_span(s, lines(s).len() - 1);
        assert(s.subrange(0, s.len() as int) =~= s);
    } else {
        lemma_spans(s, 0);
        assert(s.subrange(0, 0) =~= s);
    }
}

/// A line with its terminator has the words of the line.
pub proof fn lemma_words_line(line: Seq<char>, line_end: Seq<char>)
    requires
        line_end.len() > 0,
        blank(line_end),
    ensures
        words(line + line_end) == words(line),
{
    assert(white(line_end[0]));
    lemma_words_add(line, line_end);
    lemma_words_blank(line_end);
    lemma_no_more_words(words(line));
}

/// A line and its terminator at the end of a text that ends in whitespace.
proof fn lemma_words_push_line(out: Seq<char>, part: Seq<char>, line_end: Seq<char>)
    requires
        out.len() == 0 || white(out.last()),
        line_end.len() > 0,
        blank(line_end),
    ensures
        words(out + part + line_end) == words(out) + words(part),
        white((out + part + line_end).last()),
{
    lemma_words_add(out, part);
    assert(white(line_end[0]));
    lemma_words_add(out + part, line_end);
    lemma_words_blank(line_end);
    lemma_no_more_words(words(out + part));
    assert((out + part + line_end).last() == line_end[line_end.len() - 1]);
}

// ---------------------------------------------------------------------------
// Joining

proof fn lemma_words_chain(ls: Seq<Seq<char>>, start: int, end: int)
    requires
        0 <= start < end <= ls.len(),
    ensures
        words(chain(ls, start, end)) == line_words(ls, start, end),
    decreases end - start,
{
    if end == start + 1 {
        lemma_no_more_words(words(ls[start]));
        assert(line_words(ls, start, start) =~= seq![]);
    } else {
        lemma_words_chain(ls, start, end - 1);
        let head = trimmed_end(chain(ls, start, end - 1));
        let tail = trimmed_start(ls[end - 1]);
        lemma_words_trimmed(chain(ls, start, end - 1));
        lemma_words_trimmed(ls[end - 1]);
        lemma_words_add(head, seq![' ']);
        lemma_words_blank(seq![' ']);
        lemma_no_more_words(words(head));
        assert((head + seq![' ']).last() == ' ');
        lemma_words_add(head + seq![' '], tail);
    }
}

proof fn lemma_words_joined(ls: Seq<Seq<char>>, bs: Seq<Block>, n: int, line_end: Seq<char>)
    requires
        tiles(bs, 0, n),
        n <= ls.len(),
        line_end.len() > 0,
        blank(line_end),
    ensures
        words(joined(ls, bs, line_end)) == line_words(ls, 0, n),
        joined(ls, bs, line_end).len() == 0 || white(joined(ls, bs, line_end).last()),
    decreases bs.len(),
{
    if bs.len() > 0 {
        let b = bs.last();
        let m = b.start as int;
        assert(b.start < b.end <= n);
        lemma_tiles_drop_last(bs, 0, n);
        lemma_words_joined(ls, bs.drop_last(), m, line_end);
        lemma_words_chain(ls, m, n);
        lemma_line_words_split(ls, 0, m, n);
        lemma_words_push_line(joined(ls, bs.drop_last(), line_end), chain(ls, m, n), line_end);
    }
}

/// Joining keeps the words of a document.
pub proof fn law_join_keeps_words(
    text: Seq<char>,
    scans: Seq<LineScan>,
    verbs: Seq<String>,
    line_end: Seq<char>,
)
    requires
        text.len() <= usize::MAX,
        line_end.len() > 0,
        blank(line_end),
    ensures
        words(joined_text(text, scans, verbs, line_end)) == words(text),
{
    let ls = lines(text);
    lemma_line_count(text, 0);
    lemma_blocks(ls, scans, verbs, false);
    lemma_words_joined(ls, blocks(roles(ls, scans, verbs), false), ls.len() as int, line_end);
    lemma_words_all_lines(text);
}

// ---------------------------------------------------------------------------
// Reflow

proof fn lemma_words_paragraph_text(ls: Seq<Seq<char>>, k: int)
    requires
        0 <= k <= ls.len(),
    ensures
        words(paragraph_text(ls, k)) == line_words(ls, 0, k),
    decreases k,
{
    if k == 1 {
        lemma_words_trimmed(ls[0]);
        lemma_no_more_words(words(ls[0]));
        assert(line_words(ls, 0, 0) =~= seq![]);
    } else if k > 1 {
        lemma_words_paragraph_text(ls, k - 1);
        let head = paragraph_text(ls, k - 1);
        lemma_words_trimmed(ls[k - 1]);
        lemma_words_add(head, seq![' ']);
        lemma_words_blank(seq![' ']);
        lemma_no_more_words(words(head));
        assert((head + seq![' ']).last() == ' ');
        lemma_words_add(head + seq![' '], trimmed(ls[k - 1]));
    }
}

/// Canonical reflow keeps the words of a paragraph.
pub proof fn law_canonical_keeps_words(ls: Seq<Seq<char>>, line_end: Seq<char>)
    requires
        line_end.len() > 0,
        blank(line_end),
    ensures
        words(canonical(ls, line_end)) == line_words(ls, 0, ls.len() as int),
{
    let text = paragraph_text(ls, ls.len() as int);
    lemma_words_paragraph_text(ls, ls.len() as int);
    assert(white(line_end[0]));
    lemma_words_add(text, line_end);
    lemma_words_blank(line_end);
    lemma_no_more_words(words(text));
}

proof fn lemma_words_laid_out(text: Seq<char>, cuts: Seq<usize>, line_end: Seq<char>)
    requires
        ascending(cuts),
        cuts.len() > 0,
        cuts[0] == 0,
        cuts.last() <= text.len(),
        forall|i: int| 0 <= i < cuts.len() ==> between_words(text, #[trigger] cuts[i] as int),
        line_end.len() > 0,
        blank(line_end),
    ensures
        words(laid_out(text, cuts, line_end)) == words(text.subrange(0, cuts.last() as int)),
        laid_out(text, cuts, line_end).len() == 0 || white(laid_out(text, cuts, line_end).last()),
    decreases cuts.len(),
{
    let n = cuts.len() as int;
    if n < 2 {
        assert(text.subrange(0, 0) =~= seq![]);
    } else {
        let head = cuts.drop_last();
        let a = cuts[n - 2] as int;
        let b = cuts[n - 1] as int;
        assert(cuts[n - 2] < cuts[n - 1]);
        assert forall|i: int| 0 <= i < head.len() implies between_words(
            text,
            #[trigger] head[i] as int,
        ) by {
            assert(between_words(text, cuts[i] as int));
        }
        lemma_words_laid_out(text, head, line_end);
        lemma_words_trimmed(text.subrange(a, b));
        lemma_words_push_line(
            laid_out(text, head, line_end),
            trimmed(text.subrange(a, b)),
            line_end,
        );
        assert(between_words(text, cuts[n - 2] as int));
        lemma_words_range(text, a, b);
    }
}

/// Cutting a beginning of a text between words parts its words.
proof fn lemma_words_range(text: Seq<char>, a: int, b: int)
    requires
        0 <= a <= b <= text.len(),
        between_words(text, a),
    ensures
        words(text.subrange(0, b)) == words(text.subrange(0, a)) + words(text.subrange(a, b)),
{
    let s = text.subrange(0, b);
    assert(a > 0 ==> s[a - 1] == text[a - 1]);
    assert(a < b ==> s[a] == text[a]);
    lemma_words_split(s, a);
    assert(s.subrange(0, a) =~= text.subrange(0, a));
    assert(s.subrange(a, b) =~= text.subrange(a, b));
}

/// Minimal reflow keeps the words of a paragraph, if lines are only broken
/// behind whitespace.
pub proof fn law_minimal_keeps_words(
    ls: Seq<Seq<char>>,
    comment: Option<usize>,
    args: Args,
    line_end: Seq<char>,
)
    requires
        paragraph_text(ls, ls.len() as int).len() <= usize::MAX,
        blank(args.wrap_chars@),
        line_end.len() > 0,
        blank(line_end),
    ensures
        words(minimal(ls, comment, args, line_end)) == line_words(ls, 0, ls.len() as int),
{
    let g = graph_of(ls, comment, args);
    let text = g.par.text;
    lemma_words_paragraph_text(ls, ls.len() as int);
    if text.len() == 0 {
        assert(text =~= seq![]);
    } else {
        lemma_breaks(text, g.par.anchors, comment, args.wrap_chars@);
        lemma_layout(g);
        lemma_anchors(ls);
        let cuts = layout_of(g);
        assert forall|i: int| 0 <= i < cuts.len() implies between_words(
            text,
            #[trigger] cuts[i] as int,
        ) by {
            law_minimal_breaks_are_legal(ls, comment, args, i);
            let p = cuts[i] as int;
            if 0 < p < text.len() {
                if anchors_of(ls).contains(cuts[i]) {
                    let a = choose|a: int|
                        0 <= a < anchors_of(ls).len() && anchors_of(ls)[a] == cuts[i];
                    lemma_line_in_text(ls, ls.len() as int, a);
                    assert(anchors_of(ls)[a] == p);
                    assert(text[p - 1] == ' ');
                } else {
                    let w = args.wrap_chars@;
                    let k = choose|k: int| 0 <= k < w.len() && w[k] == text[p - 1];
                    assert(white(w[k]));
                }
            }
        }
        lemma_words_laid_out(text, cuts, line_end);
        assert(text.subrange(0, text.len() as int) =~= text);
    }
}

proof fn lemma_words_fragments(text: Seq<char>, cuts: Seq<usize>, line_end: Seq<char>)
    requires
        sorted(cuts),
        cuts.len() > 0,
        cuts[0] == 0,
        cuts.last() <= text.len(),
        forall|i: int| 0 <= i < cuts.len() ==> between_words(text, #[trigger] cuts[i] as int),
        line_end.len() > 0,
        blank(line_end),
    ensures
        words(fragments(text, cuts, line_end)) == words(text.subrange(0, cuts.last() as int)),
        fragments(text, cuts, line_end).len() == 0 || white(
            fragments(text, cuts, line_end).last(),
        ),
    decreases cuts.len(),
{
    let n = cuts.len() as int;
    if n < 2 {
        assert(text.subrange(0, 0) =~= seq![]);
    } else {
        let head = cuts.drop_last();
        let a = cuts[n - 2] as int;
        let b = cuts[n - 1] as int;
        assert(cuts[n - 2] <= cuts[n - 1]);
        assert forall|i: int| 0 <= i < head.len() implies between_words(
            text,
            #[trigger] head[i] as int,
        ) by {
            assert(between_words(text, cuts[i] as int));
        }
        lemma_words_fragments(text, head, line_end);
        let part = trimmed(text.subrange(a, b));
        lemma_words_trimmed(text.subrange(a, b));
        lemma_words_push_line(fragments(text, head, line_end), part, line_end);
        assert(between_words(text, cuts[n - 2] as int));
        lemma_words_range(text, a, b);
        if part.len() == 0 {
            assert(words(part) =~= seq![]);
            lemma_no_more_words(words(text.subrange(0, a)));
        }
    }
}

/// What a line of a paragraph becomes in semantic mode has its words.
pub proof fn lemma_group_words(
    ls: Seq<Seq<char>>,
    scans: Seq<LineScan>,
    wraplen: usize,
    line_end: Seq<char>,
    k: int,
)
    requires
        ls[k].len() <= usize::MAX,
        comment_within(ls[k], scans[k]),
        line_end.len() > 0,
        blank(line_end),
    ensures
        words(line_group(ls, scans, wraplen, line_end, k)) == words(ls[k]),
        line_group(ls, scans, wraplen, line_end, k).len() == 0 || white(
            line_group(ls, scans, wraplen, line_end, k).last(),
        ),
{
    let line = ls[k];
    let comment = scans[k].comment;
    let nest = nesting_before(ls, scans, k);
    lemma_line_cuts(line, comment, nest, wraplen);
    let cuts = line_cuts(line, comment, nest, wraplen);
    assert forall|i: int| 0 <= i < cuts.len() implies between_words(
        line,
        #[trigger] cuts[i] as int,
    ) by {
        if 0 < cuts[i] < line.len() {
            law_semantic_cuts_are_safe(line, comment, nest, wraplen, cuts[i]);
        }
    }
    lemma_words_fragments(line, cuts, line_end);
    assert(line.subrange(0, line.len() as int) =~= line);
}

/// Semantic reflow keeps the words of the first `k` lines of a paragraph.
pub proof fn law_semantic_keeps_words(
    ls: Seq<Seq<char>>,
    scans: Seq<LineScan>,
    wraplen: usize,
    line_end: Seq<char>,
    k: int,
)
    requires
        0 <= k <= ls.len(),
        ls.len() == scans.len(),
        forall|m: int| 0 <= m < ls.len() ==> (#[trigger] ls[m]).len() <= usize::MAX,
        forall|m: int| 0 <= m < ls.len() ==> comment_within(#[trigger] ls[m], scans[m]),
        line_end.len() > 0,
        blank(line_end),
    ensures
        words(semantic(ls, scans, wraplen, line_end, k)) == line_words(ls, 0, k),
        semantic(ls, scans, wraplen, line_end, k).len() == 0 || white(
            semantic(ls, scans, wraplen, line_end, k).last(),
        ),
    decreases k,
{
    if k > 0 {
        law_semantic_keeps_words(ls, scans, wraplen, line_end, k - 1);
        assert(comment_within(ls[k - 1], scans[k - 1]));
        lemma_group_words(ls, scans, wraplen, line_end, k - 1);
        let head = semantic(ls, scans, wraplen, line_end, k - 1);
        let part = line_group(ls, scans, wraplen, line_end, k - 1);
        lemma_words_add(head, part);
        if part.len() > 0 {
            assert((head + part).last() == part.last());
        } else {
            assert(head + part =~= head);
        }
    }
}

proof fn lemma_words_block(
    text: Seq<char>,
    args: Args,
    scan: Scan,
    line_end: Seq<char>,
    b: Block,
    n: int,
)
    requires
        text.len() <= usize::MAX,
        fits(lines(text), scan.lines@),
        b.prose ==> args.reflow != ReflowMode::Off,
        args.reflow == ReflowMode::Minimal ==> blank(args.wrap_chars@),
        b.start < b.end <= lines(text).len(),
        !b.prose ==> b.end == b.start + 1,
        line_end.len() > 0,
        blank(line_end),
    ensures
        ({
            let out = reflowed_block(
                lines(text),
                scan.lines@,
                scan.joined_comments@,
                args,
                line_end,
                b,
                n,
            );
            &&& words(out) == line_words(lines(text), b.start as int, b.end as int)
            &&& out.len() == 0 || white(out.last())
        }),
{
    let ls = lines(text);
    let (i, j) = (b.start as int, b.end as int);
    if b.prose {
        let part = ls.subrange(i, j);
        let scans = scan.lines@.subrange(i, j);
        lemma_line_words_of_part(ls, i, j, j);
        match args.reflow {
            ReflowMode::Off => {},
            ReflowMode::Canonical => {
                law_canonical_keeps_words(part, line_end);
                let out = canonical(part, line_end);
                assert(out.last() == line_end[line_end.len() - 1]);
            },
            ReflowMode::Minimal => {
                let comment = joined_comment(scan.joined_comments@, n);
                lemma_paragraph_length(text, i, j, j - i);
                law_minimal_keeps_words(part, comment, args, line_end);
                lemma_minimal_ends(part, comment, args, line_end);
            },
            ReflowMode::Semantic => {
                assert forall|m: int| 0 <= m < part.len() implies comment_within(
                    #[trigger] part[m],
                    scans[m],
                ) && part[m].len() <= usize::MAX by {
                    assert(comment_within(ls[i + m], scan.lines@[i + m]));
                    lemma_span(text, i + m);
                }
                law_semantic_keeps_words(part, scans, args.wraplen, line_end, part.len() as int);
            },
        }
    } else {
        lemma_words_push_line(seq![], ls[i], line_end);
        assert(Seq::<char>::empty() + ls[i] + line_end =~= ls[i] + line_end);
        lemma_no_more_words(words(ls[i]));
        assert(line_words(ls, i, i) =~= seq![]);
        assert(words(Seq::<char>::empty()) =~= seq![]);
    }
}

proof fn lemma_minimal_ends(
    ls: Seq<Seq<char>>,
    comment: Option<usize>,
    args: Args,
    line_end: Seq<char>,
)
    requires
        line_end.len() > 0,
        blank(line_end),
    ensures
        ({
            let out = minimal(ls, comment, args, line_end);
            out.len() == 0 || white(out.last())
        }),
{
    let out = minimal(ls, comment, args, line_end);
    if out.len() > 0 {
        assert(out.last() == line_end[line_end.len() - 1]);
    }
}

proof fn lemma_words_blocks(
    text: Seq<char>,
    args: Args,
    scan: Scan,
    line_end: Seq<char>,
    bs: Seq<Block>,
    n: int,
)
    requires
        text.len() <= usize::MAX,
        fits(lines(text), scan.lines@),
        args.reflow == ReflowMode::Off ==> paragraph_count(bs) == 0,
        args.reflow == ReflowMode::Minimal ==> blank(args.wrap_chars@),
        tiles(bs, 0, n),
        n <= lines(text).len(),
        line_end.len() > 0,
        blank(line_end),
    ensures
        ({
            let out = reflowed_blocks(
                lines(text),
                scan.lines@,
                scan.joined_comments@,
                args,
                line_end,
                bs,
            );
            &&& words(out) == line_words(lines(text), 0, n)
            &&& out.len() == 0 || white(out.last())
        }),
    decreases bs.len(),
{
    let ls = lines(text);
    if bs.len() > 0 {
        let b = bs.last();
        let head = bs.drop_last();
        let m = b.start as int;
        assert(b.start < b.end <= n);
        lemma_tiles_drop_last(bs, 0, n);
        lemma_words_blocks(text, args, scan, line_end, head, m);
        let count = paragraph_count(head) as int;
        lemma_words_block(text, args, scan, line_end, b, count);
        lemma_line_words_split(ls, 0, m, n);
        let before = reflowed_blocks(ls, scan.lines@, scan.joined_comments@, args, line_end, head);
        let part = reflowed_block(
            ls,
            scan.lines@,
            scan.joined_comments@,
            args,
            line_end,
            b,
            count,
        );
        lemma_words_add(before, part);
        if part.len() > 0 {
            assert((before + part).last() == part.last());
        } else {
            assert(before + part =~= before);
        }
    }
}

/// Reflow keeps the words of a document, provided that in minimal mode lines
/// are only broken behind whitespace.
pub proof fn law_reflow_keeps_words(
    text: Seq<char>,
    args: Args,
    scan: Scan,
    line_end: Seq<char>,
)
    requires
        text.len() <= usize::MAX,
        fits(lines(text), scan.lines@),
        mode_applies(lines(text), scan, args.reflow),
        args.reflow == ReflowMode::Minimal ==> blank(args.wrap_chars@),
        line_end.len() > 0,
        blank(line_end),
    ensures
        words(reflowed_text(text, args, scan, line_end)) == words(text),
{
    let ls = lines(text);
    lemma_line_count(text, 0);
    lemma_blocks(ls, scan.lines@, scan.verbs@, args.reflow == ReflowMode::Minimal);
    lemma_words_blocks(
        text,
        args,
        scan,
        line_end,
        blocks_for(ls, scan, args.reflow),
        ls.len() as int,
    );
    lemma_words_all_lines(text);
}

} // verus!
