//! What joining and reflow guarantee of paragraphs and of whole documents.

use vstd::prelude::*;

use crate::authored::{lemma_line_in_text, start_in_text};
use crate::chars::white;
use crate::config::{Args, ReflowMode};
use crate::join::{chain, joined, joined_text};
use crate::minimal::{
    anchors_of, chosen, graph_of, laid_out, layout_of, legal_break, lemma_breaks, lemma_chosen,
    lemma_layout, minimal, paragraph_text,
};
use crate::paragraphs::{
    block_fits, blocks, comment_within, fits, lemma_blocks, lemma_boundaries_stand_alone,
    lemma_ends_ascend, lemma_tiles_drop_last, roles, stands_alone, tiles, Block,
};
use crate::pieces::{at_line_start, has_tail, lemma_line_ends, lemma_line_starts, lemma_some_line};
use crate::prose::math_at;
use crate::reflow::{
    blocks_for, canonical, joined_comment, mode_applies, paragraph_count, reflowed_block,
    reflowed_blocks, reflowed_text,
};
use crate::scan::{LineScan, Scan};
use crate::semantic::{
    candidates, clause_break, clause_ends, cuts_to, fragments, keeps_within, lemma_candidates,
    lemma_cuts_to, lemma_line_cuts, lemma_packed, lemma_segments, limit_of, line_cuts, line_group,
    nesting_before, outside, packed, segments, semantic, sentence_break, sentence_ends, sorted,
    Nesting,
};
use crate::text::{
    ascending, blank, first_ink, flat, ink, lemma_first_ink, lemma_ink_add, lemma_ink_blank,
    lemma_ink_end, lemma_ink_flat, lemma_ink_lines, lemma_ink_range, lemma_ink_trimmed,
    lemma_line_count, lemma_line_is_one, lemma_select, lemma_span, lemma_trimmed,
    lemma_trimmed_unique, line_spans, lines, trimmed, trimmed_end,
};

verus! {

// ---------------------------------------------------------------------------
// Ink

proof fn lemma_ink_empty(s: Seq<char>)
    ensures
        s + Seq::<char>::empty() == s,
        Seq::<char>::empty() + s == s,
{
    assert(s + Seq::<char>::empty() =~= s);
    assert(Seq::<char>::empty() + s =~= s);
}

/// Joining a paragraph changes nothing but whitespace.
proof fn lemma_ink_paragraph_text(ls: Seq<Seq<char>>, k: int)
    requires
        0 <= k <= ls.len(),
    ensures
        ink(paragraph_text(ls, k)) == ink(flat(ls, 0, k)),
    decreases k,
{
    if k == 1 {
        lemma_ink_trimmed(ls[0]);
        assert(flat(ls, 0, 1) =~= ls[0]) by {
            assert(flat(ls, 0, 0) =~= seq![]);
        }
    } else if k > 1 {
        lemma_ink_paragraph_text(ls, k - 1);
        let head = paragraph_text(ls, k - 1);
        lemma_ink_trimmed(ls[k - 1]);
        lemma_ink_blank(seq![' ']);
        lemma_ink_add(head, seq![' ']);
        lemma_ink_add(head + seq![' '], trimmed(ls[k - 1]));
        lemma_ink_add(flat(ls, 0, k - 1), ls[k - 1]);
        lemma_ink_empty(ink(head));
    }
}

/// Laying out a text changes nothing but whitespace.
proof fn lemma_ink_laid_out(text: Seq<char>, cuts: Seq<usize>, line_end: Seq<char>)
    requires
        ascending(cuts),
        cuts.len() > 0,
        cuts.last() <= text.len(),
        blank(line_end),
    ensures
        ink(laid_out(text, cuts, line_end)) == ink(
            text.subrange(cuts[0] as int, cuts.last() as int),
        ),
    decreases cuts.len(),
{
    let n = cuts.len() as int;
    if n < 2 {
        assert(text.subrange(cuts[0] as int, cuts.last() as int) =~= seq![]);
    } else {
        assert(cuts[n - 2] < cuts[n - 1]);
        assert(n > 2 ==> cuts[0] < cuts[n - 2]);
        let head = cuts.drop_last();
        lemma_ink_laid_out(text, head, line_end);
        let part = text.subrange(cuts[n - 2] as int, cuts[n - 1] as int);
        lemma_ink_trimmed(part);
        lemma_ink_blank(line_end);
        lemma_ink_add(laid_out(text, head, line_end), trimmed(part));
        lemma_ink_add(laid_out(text, head, line_end) + trimmed(part), line_end);
        lemma_ink_empty(ink(laid_out(text, head, line_end) + trimmed(part)));
        lemma_ink_range(text, cuts[0] as int, cuts[n - 2] as int, cuts[n - 1] as int);
    }
}

/// Minimal reflow changes nothing but whitespace.
pub proof fn law_minimal_keeps_ink(
    ls: Seq<Seq<char>>,
    comment: Option<usize>,
    args: Args,
    line_end: Seq<char>,
)
    requires
        paragraph_text(ls, ls.len() as int).len() <= usize::MAX,
        blank(line_end),
    ensures
        ink(minimal(ls, comment, args, line_end)) == ink(flat(ls, 0, ls.len() as int)),
{
    let g = graph_of(ls, comment, args);
    let text = g.par.text;
    lemma_ink_paragraph_text(ls, ls.len() as int);
    if text.len() == 0 {
        assert(text =~= seq![]);
    } else {
        lemma_breaks(text, g.par.anchors, comment, args.wrap_chars@);
        lemma_layout(g);
        lemma_ink_laid_out(text, layout_of(g), line_end);
        assert(text.subrange(0, text.len() as int) =~= text);
    }
}

/// Canonical reflow changes nothing but whitespace.
pub proof fn law_canonical_keeps_ink(ls: Seq<Seq<char>>, line_end: Seq<char>)
    requires
        blank(line_end),
    ensures
        ink(canonical(ls, line_end)) == ink(flat(ls, 0, ls.len() as int)),
{
    let text = paragraph_text(ls, ls.len() as int);
    lemma_ink_paragraph_text(ls, ls.len() as int);
    lemma_ink_blank(line_end);
    lemma_ink_add(text, line_end);
    lemma_ink_empty(ink(text));
}

proof fn lemma_ink_fragments(text: Seq<char>, cuts: Seq<usize>, line_end: Seq<char>)
    requires
        sorted(cuts),
        cuts.len() > 0,
        cuts.last() <= text.len(),
        blank(line_end),
    ensures
        ink(fragments(text, cuts, line_end)) == ink(
            text.subrange(cuts[0] as int, cuts.last() as int),
        ),
    decreases cuts.len(),
{
    let n = cuts.len() as int;
    if n < 2 {
        assert(text.subrange(cuts[0] as int, cuts.last() as int) =~= seq![]);
    } else {
        assert(cuts[n - 2] <= cuts[n - 1]);
        assert(cuts[0] <= cuts[n - 2]);
        let head = cuts.drop_last();
        lemma_ink_fragments(text, head, line_end);
        let part = text.subrange(cuts[n - 2] as int, cuts[n - 1] as int);
        let so_far = fragments(text, head, line_end);
        lemma_ink_trimmed(part);
        lemma_ink_range(text, cuts[0] as int, cuts[n - 2] as int, cuts[n - 1] as int);
        if trimmed(part).len() == 0 {
            lemma_ink_blank(trimmed(part));
            lemma_ink_empty(ink(so_far));
        } else {
            lemma_ink_blank(line_end);
            lemma_ink_add(so_far, trimmed(part));
            lemma_ink_add(so_far + trimmed(part), line_end);
            lemma_ink_empty(ink(so_far + trimmed(part)));
        }
    }
}

/// Semantic reflow changes nothing but whitespace.
pub proof fn law_semantic_keeps_ink(
    ls: Seq<Seq<char>>,
    scans: Seq<LineScan>,
    wraplen: usize,
    line_end: Seq<char>,
    k: int,
)
    requires
        0 <= k <= ls.len() == scans.len(),
        forall|i: int| 0 <= i < ls.len() ==> (#[trigger] ls[i]).len() <= usize::MAX,
        forall|i: int| 0 <= i < ls.len() ==> comment_within(#[trigger] ls[i], scans[i]),
        blank(line_end),
    ensures
        ink(semantic(ls, scans, wraplen, line_end, k)) == ink(flat(ls, 0, k)),
    decreases k,
{
    if k > 0 {
        law_semantic_keeps_ink(ls, scans, wraplen, line_end, k - 1);
        let line = ls[k - 1];
        let comment = scans[k - 1].comment;
        assert(line.len() <= usize::MAX && comment_within(line, scans[k - 1]));
        let nest = nesting_before(ls, scans, k - 1);
        let cuts = line_cuts(line, comment, nest, wraplen);
        lemma_line_cuts(line, comment, nest, wraplen);
        lemma_ink_fragments(line, cuts, line_end);
        assert(line.subrange(0, line.len() as int) =~= line);
        lemma_ink_add(
            semantic(ls, scans, wraplen, line_end, k - 1),
            fragments(line, cuts, line_end),
        );
        lemma_ink_add(flat(ls, 0, k - 1), line);
    }
}

proof fn lemma_flat_subrange(ls: Seq<Seq<char>>, a: int, b: int, k: int)
    requires
        0 <= a <= b <= ls.len(),
        0 <= k <= b - a,
    ensures
        flat(ls.subrange(a, b), 0, k) == flat(ls, a, a + k),
    decreases k,
{
    if k > 0 {
        lemma_flat_subrange(ls, a, b, k - 1);
    }
}

/// A paragraph of a document, joined, is no longer than the document.
pub proof fn lemma_paragraph_length(text: Seq<char>, a: int, b: int, k: int)
    requires
        0 <= a <= b <= lines(text).len(),
        0 < k <= b - a,
    ensures
        ({
            let spans = line_spans(text);
            let p = paragraph_text(lines(text).subrange(a, b), k);
            &&& 0 <= spans[a].0
            &&& spans[a + k - 1].1 <= text.len()
            &&& p.len() <= spans[a + k - 1].1 - spans[a].0
            &&& a + k < lines(text).len() ==> p.len() < spans[a + k - 1].1 - spans[a].0
        }),
    decreases k,
{
    let spans = line_spans(text);
    let sub = lines(text).subrange(a, b);
    let j = a + k - 1;
    lemma_span(text, j);
    assert(sub[k - 1] == lines(text)[j]);
    lemma_trimmed(sub[k - 1]);
    if k > 1 {
        lemma_paragraph_length(text, a, b, k - 1);
    } else {
        assert(sub[0] == lines(text)[j]);
    }
}

proof fn lemma_line_length(text: Seq<char>, j: int)
    requires
        0 <= j < lines(text).len(),
    ensures
        lines(text)[j].len() <= text.len(),
{
    lemma_span(text, j);
}

proof fn lemma_ink_block(
    text: Seq<char>,
    scans: Seq<LineScan>,
    comments: Seq<Option<usize>>,
    args: Args,
    line_end: Seq<char>,
    b: Block,
    n: int,
)
    requires
        text.len() <= usize::MAX,
        scans.len() == lines(text).len(),
        forall|k: int|
            0 <= k < lines(text).len() ==> comment_within(#[trigger] lines(text)[k], scans[k]),
        b.start < b.end <= lines(text).len(),
        !b.prose ==> b.end == b.start + 1,
        blank(line_end),
    ensures
        ink(reflowed_block(lines(text), scans, comments, args, line_end, b, n)) == ink(
            flat(lines(text), b.start as int, b.end as int),
        ),
{
    let ls = lines(text);
    let s = b.start as int;
    let e = b.end as int;
    if b.prose {
        let sub = ls.subrange(s, e);
        let subscans = scans.subrange(s, e);
        lemma_flat_subrange(ls, s, e, e - s);
        lemma_paragraph_length(text, s, e, e - s);
        match args.reflow {
            ReflowMode::Off => {},
            ReflowMode::Minimal => {
                law_minimal_keeps_ink(
                    sub,
                    joined_comment(comments, n),
                    args,
                    line_end,
                );
            },
            ReflowMode::Canonical => {
                law_canonical_keeps_ink(sub, line_end);
            },
            ReflowMode::Semantic => {
                assert forall|i: int| 0 <= i < sub.len() implies (#[trigger] sub[i]).len()
                    <= usize::MAX && comment_within(sub[i], subscans[i]) by {
                    lemma_line_length(text, s + i);
                    assert(comment_within(ls[s + i], scans[s + i]));
                }
                law_semantic_keeps_ink(sub, subscans, args.wraplen, line_end, e - s);
            },
        }
    } else {
        lemma_ink_blank(line_end);
        lemma_ink_add(ls[s], line_end);
        lemma_ink_empty(ink(ls[s]));
        assert(flat(ls, s, s) =~= seq![]);
        assert(flat(ls, s, e) =~= ls[s]);
    }
}

proof fn lemma_ink_blocks(
    text: Seq<char>,
    scans: Seq<LineScan>,
    comments: Seq<Option<usize>>,
    args: Args,
    line_end: Seq<char>,
    bs: Seq<Block>,
    n: int,
)
    requires
        text.len() <= usize::MAX,
        scans.len() == lines(text).len(),
        forall|k: int|
            0 <= k < lines(text).len() ==> comment_within(#[trigger] lines(text)[k], scans[k]),
        n <= lines(text).len(),
        tiles(bs, 0, n),
        blank(line_end),
    ensures
        ink(reflowed_blocks(lines(text), scans, comments, args, line_end, bs)) == ink(
            flat(lines(text), 0, n),
        ),
    decreases bs.len(),
{
    let ls = lines(text);
    if bs.len() == 0 {
        assert(flat(ls, 0, n) =~= seq![]);
    } else {
        let b = bs.last();
        let head = bs.drop_last();
        let m = b.start as int;
        assert(bs[bs.len() - 1].start < bs[bs.len() - 1].end);
        lemma_tiles_drop_last(bs, 0, n);
        lemma_ink_blocks(text, scans, comments, args, line_end, head, m);
        lemma_ink_block(
            text,
            scans,
            comments,
            args,
            line_end,
            b,
            paragraph_count(head) as int,
        );
        lemma_ink_flat(ls, 0, m, n);
        lemma_ink_add(
            reflowed_blocks(ls, scans, comments, args, line_end, head),
            reflowed_block(
                ls,
                scans,
                comments,
                args,
                line_end,
                b,
                paragraph_count(head) as int,
            ),
        );
    }
}

/// Reflowing a document changes nothing but whitespace, in every mode.
pub proof fn law_reflow_keeps_ink(text: Seq<char>, args: Args, scan: Scan, line_end: Seq<char>)
    requires
        text.len() <= usize::MAX,
        fits(lines(text), scan.lines@),
        blank(line_end),
    ensures
        ink(reflowed_text(text, args, scan, line_end)) == ink(text),
{
    let ls = lines(text);
    let bs = blocks_for(ls, scan, args.reflow);
    lemma_line_count(text, 0);
    lemma_blocks(ls, scan.lines@, scan.verbs@, args.reflow == ReflowMode::Minimal);
    lemma_ink_blocks(
        text,
        scan.lines@,
        scan.joined_comments@,
        args,
        line_end,
        bs,
        ls.len() as int,
    );
    lemma_ink_lines(text);
}

// ---------------------------------------------------------------------------
// Lines that stand alone

/// The block that holds line `k`.
pub proof fn lemma_block_of(bs: Seq<Block>, n: int, k: int) -> (b: int)
    requires
        tiles(bs, 0, n),
        0 <= k < n,
    ensures
        0 <= b < bs.len(),
        bs[b].start <= k < bs[b].end,
    decreases bs.len(),
{
    let last = bs.len() - 1;
    assert(bs[last].start < bs[last].end);
    if bs[last].start <= k {
        last
    } else {
        lemma_tiles_drop_last(bs, 0, n);
        lemma_block_of(bs.drop_last(), bs.last().start as int, k)
    }
}

/// The text of block `i` appears between those of the blocks around it.
proof fn lemma_reflowed_parts(
    ls: Seq<Seq<char>>,
    scans: Seq<LineScan>,
    comments: Seq<Option<usize>>,
    args: Args,
    line_end: Seq<char>,
    bs: Seq<Block>,
    i: int,
) -> (parts: (Seq<char>, Seq<char>))
    requires
        0 <= i < bs.len(),
    ensures
        parts.0 == reflowed_blocks(ls, scans, comments, args, line_end, bs.take(i)),
        reflowed_blocks(ls, scans, comments, args, line_end, bs) == parts.0 + reflowed_block(
            ls,
            scans,
            comments,
            args,
            line_end,
            bs[i],
            paragraph_count(bs.take(i)) as int,
        ) + parts.1,
    decreases bs.len(),
{
    let head = bs.drop_last();
    let last = reflowed_block(
        ls,
        scans,
        comments,
        args,
        line_end,
        bs.last(),
        paragraph_count(head) as int,
    );
    if i == bs.len() - 1 {
        assert(bs.take(i) =~= head);
        let before = reflowed_blocks(ls, scans, comments, args, line_end, head);
        assert(before + last =~= before + last + Seq::<char>::empty());
        (before, seq![])
    } else {
        let parts = lemma_reflowed_parts(ls, scans, comments, args, line_end, head, i);
        assert(head.take(i) =~= bs.take(i));
        let mid = reflowed_block(
            ls,
            scans,
            comments,
            args,
            line_end,
            bs[i],
            paragraph_count(bs.take(i)) as int,
        );
        assert(parts.0 + mid + parts.1 + last =~= parts.0 + mid + (parts.1 + last));
        (parts.0, parts.1 + last)
    }
}

/// The text of block `i` appears between those of the blocks around it.
pub proof fn lemma_joined_parts(
    ls: Seq<Seq<char>>,
    line_end: Seq<char>,
    bs: Seq<Block>,
    i: int,
) -> (parts: (Seq<char>, Seq<char>))
    requires
        0 <= i < bs.len(),
    ensures
        parts.0 == joined(ls, bs.take(i), line_end),
        joined(ls, bs, line_end) == parts.0 + (chain(ls, bs[i].start as int, bs[i].end as int)
            + line_end) + parts.1,
    decreases bs.len(),
{
    let head = bs.drop_last();
    let last = chain(ls, bs.last().start as int, bs.last().end as int);
    if i == bs.len() - 1 {
        let before = joined(ls, head, line_end);
        assert(bs.take(i) =~= head);
        assert(before + last + line_end =~= before + (last + line_end) + Seq::<char>::empty());
        (before, seq![])
    } else {
        let parts = lemma_joined_parts(ls, line_end, head, i);
        assert(head.take(i) =~= bs.take(i));
        let mid = chain(ls, bs[i].start as int, bs[i].end as int) + line_end;
        assert(parts.0 + mid + parts.1 + last + line_end =~= parts.0 + mid + (parts.1 + last
            + line_end));
        (parts.0, parts.1 + last + line_end)
    }
}

/// A cut text ends in a terminator, or is empty.
proof fn lemma_fragments_end(text: Seq<char>, cuts: Seq<usize>, line_end: Seq<char>)
    ensures
        at_line_start(fragments(text, cuts, line_end), line_end),
    decreases cuts.len(),
{
    if cuts.len() >= 2 {
        let n = cuts.len() as int;
        let part = trimmed(text.subrange(cuts[n - 2] as int, cuts[n - 1] as int));
        let head = fragments(text, cuts.drop_last(), line_end);
        lemma_fragments_end(text, cuts.drop_last(), line_end);
        lemma_line_ends(head + part, line_end);
    }
}

/// What a line of a paragraph becomes ends in a terminator, or is empty.
pub proof fn lemma_line_group_ends(
    ls: Seq<Seq<char>>,
    scans: Seq<LineScan>,
    wraplen: usize,
    line_end: Seq<char>,
    k: int,
)
    ensures
        at_line_start(line_group(ls, scans, wraplen, line_end, k), line_end),
{
    let cuts = line_cuts(ls[k], scans[k].comment, nesting_before(ls, scans, k), wraplen);
    lemma_fragments_end(ls[k], cuts, line_end);
}

/// The first `k` lines of a paragraph end in a terminator, or are empty.
proof fn lemma_semantic_ends(
    ls: Seq<Seq<char>>,
    scans: Seq<LineScan>,
    wraplen: usize,
    line_end: Seq<char>,
    k: int,
)
    ensures
        at_line_start(semantic(ls, scans, wraplen, line_end, k), line_end),
    decreases k,
{
    if k > 0 {
        lemma_semantic_ends(ls, scans, wraplen, line_end, k - 1);
        lemma_line_group_ends(ls, scans, wraplen, line_end, k - 1);
        lemma_line_starts(
            semantic(ls, scans, wraplen, line_end, k - 1),
            line_group(ls, scans, wraplen, line_end, k - 1),
            line_end,
        );
    }
}

/// A block comes out with a terminator at its end, or empty.
proof fn lemma_block_ends(
    ls: Seq<Seq<char>>,
    scans: Seq<LineScan>,
    comments: Seq<Option<usize>>,
    args: Args,
    line_end: Seq<char>,
    b: Block,
    n: int,
)
    requires
        b.prose ==> args.reflow != ReflowMode::Off,
    ensures
        at_line_start(reflowed_block(ls, scans, comments, args, line_end, b, n), line_end),
{
    if b.prose {
        let sub = ls.subrange(b.start as int, b.end as int);
        let subscans = scans.subrange(b.start as int, b.end as int);
        match args.reflow {
            ReflowMode::Off => {},
            ReflowMode::Minimal => {
                let g = graph_of(sub, joined_comment(comments, n), args);
                let cuts = layout_of(g);
                if cuts.len() >= 2 {
                    let m = cuts.len() as int;
                    lemma_line_ends(
                        laid_out(g.par.text, cuts.drop_last(), line_end) + trimmed(
                            g.par.text.subrange(cuts[m - 2] as int, cuts[m - 1] as int),
                        ),
                        line_end,
                    );
                }
            },
            ReflowMode::Canonical => {
                lemma_line_ends(paragraph_text(sub, sub.len() as int), line_end);
            },
            ReflowMode::Semantic => {
                lemma_semantic_ends(sub, subscans, args.wraplen, line_end, sub.len() as int);
            },
        }
    } else {
        lemma_line_ends(ls[b.start as int], line_end);
    }
}

proof fn lemma_blocks_end(
    ls: Seq<Seq<char>>,
    scans: Seq<LineScan>,
    comments: Seq<Option<usize>>,
    args: Args,
    line_end: Seq<char>,
    bs: Seq<Block>,
)
    requires
        args.reflow == ReflowMode::Off ==> paragraph_count(bs) == 0,
    ensures
        at_line_start(reflowed_blocks(ls, scans, comments, args, line_end, bs), line_end),
    decreases bs.len(),
{
    if bs.len() > 0 {
        let head = bs.drop_last();
        let n = paragraph_count(head) as int;
        lemma_blocks_end(ls, scans, comments, args, line_end, head);
        lemma_block_ends(ls, scans, comments, args, line_end, bs.last(), n);
        lemma_line_starts(
            reflowed_blocks(ls, scans, comments, args, line_end, head),
            reflowed_block(ls, scans, comments, args, line_end, bs.last(), n),
            line_end,
        );
    }
}

proof fn lemma_count_of_first(bs: Seq<Block>, i: int)
    requires
        0 <= i <= bs.len(),
        paragraph_count(bs) == 0,
    ensures
        paragraph_count(bs.take(i)) == 0,
    decreases bs.len(),
{
    if i < bs.len() {
        assert(bs.take(i) =~= bs.drop_last().take(i));
        lemma_count_of_first(bs.drop_last(), i);
    } else {
        assert(bs.take(i) =~= bs);
    }
}

/// Whether a text holds, on lines of their own, first one line and then
/// another.
pub open spec fn lines_in_order(
    out: Seq<char>,
    first: Seq<char>,
    second: Seq<char>,
    line_end: Seq<char>,
) -> bool {
    exists|x: Seq<char>, y: Seq<char>, z: Seq<char>|
        {
            &&& out == #[trigger] (x + (first + line_end) + y + (second + line_end) + z)
            &&& at_line_start(x, line_end)
            &&& at_line_start(x + (first + line_end) + y, line_end)
        }
}

/// Whether a text holds a line on a line of its own.
pub open spec fn line_in(out: Seq<char>, line: Seq<char>, line_end: Seq<char>) -> bool {
    exists|x: Seq<char>, y: Seq<char>|
        out == #[trigger] (x + (line + line_end) + y) && at_line_start(x, line_end)
}

/// Reflow passes a line that stands alone through untouched, as a line of its
/// own.
pub proof fn law_reflow_passes_lines(
    text: Seq<char>,
    args: Args,
    scan: Scan,
    line_end: Seq<char>,
    k: int,
)
    requires
        text.len() <= usize::MAX,
        mode_applies(lines(text), scan, args.reflow),
        0 <= k < lines(text).len(),
        stands_alone(
            lines(text),
            scan.lines@,
            scan.verbs@,
            args.reflow == ReflowMode::Minimal,
            k,
        ),
    ensures
        line_in(reflowed_text(text, args, scan, line_end), lines(text)[k], line_end),
{
    let ls = lines(text);
    let whole = args.reflow == ReflowMode::Minimal;
    let bs = blocks_for(ls, scan, args.reflow);
    let comments = scan.joined_comments@;
    lemma_line_count(text, 0);
    lemma_blocks(ls, scan.lines@, scan.verbs@, whole);
    let b = lemma_block_of(bs, ls.len() as int, k);
    lemma_boundaries_stand_alone(ls, scan.lines@, scan.verbs@, whole, k, b);
    let (x, y) = lemma_reflowed_parts(ls, scan.lines@, comments, args, line_end, bs, b);
    if args.reflow == ReflowMode::Off {
        lemma_count_of_first(bs, b);
    }
    lemma_blocks_end(ls, scan.lines@, comments, args, line_end, bs.take(b));
    assert(reflowed_text(text, args, scan, line_end) == x + (ls[k] + line_end) + y);
}

/// Reflow keeps the order of lines that stand alone.
pub proof fn law_reflow_keeps_order(
    text: Seq<char>,
    args: Args,
    scan: Scan,
    line_end: Seq<char>,
    j: int,
    k: int,
)
    requires
        text.len() <= usize::MAX,
        mode_applies(lines(text), scan, args.reflow),
        0 <= j < k < lines(text).len(),
        stands_alone(
            lines(text),
            scan.lines@,
            scan.verbs@,
            args.reflow == ReflowMode::Minimal,
            j,
        ),
        stands_alone(
            lines(text),
            scan.lines@,
            scan.verbs@,
            args.reflow == ReflowMode::Minimal,
            k,
        ),
    ensures
        lines_in_order(
            reflowed_text(text, args, scan, line_end),
            lines(text)[j],
            lines(text)[k],
            line_end,
        ),
{
    let ls = lines(text);
    let whole = args.reflow == ReflowMode::Minimal;
    let bs = blocks_for(ls, scan, args.reflow);
    let comments = scan.joined_comments@;
    lemma_line_count(text, 0);
    lemma_blocks(ls, scan.lines@, scan.verbs@, whole);
    let b = lemma_block_of(bs, ls.len() as int, j);
    let c = lemma_block_of(bs, ls.len() as int, k);
    lemma_boundaries_stand_alone(ls, scan.lines@, scan.verbs@, whole, j, b);
    lemma_boundaries_stand_alone(ls, scan.lines@, scan.verbs@, whole, k, c);
    lemma_ends_ascend(bs, 0, ls.len() as int, b);
    assert(b < c) by {
        if c < b {
            assert(bs[c].end <= bs[b].start);
        }
    }
    let (p, z) = lemma_reflowed_parts(ls, scan.lines@, comments, args, line_end, bs, c);
    let front = bs.take(c);
    let (x, y) = lemma_reflowed_parts(ls, scan.lines@, comments, args, line_end, front, b);
    assert(front.take(b) =~= bs.take(b));
    if args.reflow == ReflowMode::Off {
        lemma_count_of_first(bs, b);
        lemma_count_of_first(bs, c);
    }
    lemma_blocks_end(ls, scan.lines@, comments, args, line_end, bs.take(b));
    lemma_blocks_end(ls, scan.lines@, comments, args, line_end, front);
    assert(p == x + (ls[j] + line_end) + y);
    assert(reflowed_text(text, args, scan, line_end) == x + (ls[j] + line_end) + y + (ls[k]
        + line_end) + z);
}

proof fn lemma_joined_ends(ls: Seq<Seq<char>>, bs: Seq<Block>, line_end: Seq<char>)
    ensures
        at_line_start(joined(ls, bs, line_end), line_end),
{
    if bs.len() > 0 {
        let b = bs.last();
        lemma_line_ends(
            joined(ls, bs.drop_last(), line_end) + chain(ls, b.start as int, b.end as int),
            line_end,
        );
    }
}

/// What joining makes of a document that is not empty ends in a terminator.
pub proof fn law_join_ends_lines(
    text: Seq<char>,
    scans: Seq<LineScan>,
    verbs: Seq<String>,
    line_end: Seq<char>,
)
    requires
        0 < text.len() <= usize::MAX,
    ensures
        has_tail(joined_text(text, scans, verbs, line_end), line_end),
{
    let ls = lines(text);
    let bs = blocks(roles(ls, scans, verbs), false);
    lemma_line_count(text, 0);
    lemma_some_line(text);
    lemma_blocks(ls, scans, verbs, false);
    let b = bs.last();
    lemma_line_ends(
        joined(ls, bs.drop_last(), line_end) + chain(ls, b.start as int, b.end as int),
        line_end,
    );
}

/// A line with ink has ink.
proof fn lemma_has_ink(s: Seq<char>)
    requires
        trimmed(s).len() > 0,
    ensures
        ink(s).len() > 0,
{
    let t = trimmed(s);
    let n = t.len() as int;
    lemma_trimmed(s);
    lemma_ink_trimmed(s);
    lemma_ink_range(t, 0, n - 1, n);
    assert(t.subrange(0, n) =~= t);
    assert(t.subrange(n - 1, n) =~= seq![t[n - 1]]);
    assert(ink(seq![t[n - 1]]).len() > 0) by {
        reveal_with_fuel(Seq::filter, 2);
        assert(seq![t[n - 1]].drop_last() =~= seq![]);
    }
}

/// What reflow makes of a document that is not empty ends in a terminator, in
/// every mode.
pub proof fn law_reflow_ends_lines(text: Seq<char>, args: Args, scan: Scan, line_end: Seq<char>)
    requires
        0 < text.len() <= usize::MAX,
        fits(lines(text), scan.lines@),
        mode_applies(lines(text), scan, args.reflow),
        blank(line_end),
    ensures
        has_tail(reflowed_text(text, args, scan, line_end), line_end),
{
    let ls = lines(text);
    let ss = scan.lines@;
    let whole = args.reflow == ReflowMode::Minimal;
    let bs = blocks_for(ls, scan, args.reflow);
    let out = reflowed_text(text, args, scan, line_end);
    lemma_line_count(text, 0);
    lemma_some_line(text);
    lemma_blocks(ls, ss, scan.verbs@, whole);
    lemma_blocks_end(ls, ss, scan.joined_comments@, args, line_end, bs);
    let b = bs.last();
    let (s, e) = (b.start as int, b.end as int);
    let n = paragraph_count(bs.drop_last()) as int;
    if line_end.len() == 0 {
        assert(out.subrange(out.len() as int, out.len() as int) =~= line_end);
    } else if b.prose {
        assert(block_fits(roles(ls, ss, scan.verbs@), whole, bs[bs.len() - 1]));
        assert(roles(ls, ss, scan.verbs@)[e - 1].flows);
        lemma_ink_block(text, ss, scan.joined_comments@, args, line_end, b, n);
        lemma_ink_add(flat(ls, s, e - 1), ls[e - 1]);
        lemma_has_ink(ls[e - 1]);
        let part = reflowed_block(ls, ss, scan.joined_comments@, args, line_end, b, n);
        assert(ink(part).len() > 0);
        if part.len() == 0 {
            lemma_ink_blank(part);
        }
    }
}

/// Joining passes a line that stands alone through untouched, as a line of its
/// own.
pub proof fn law_join_passes_lines(
    text: Seq<char>,
    scans: Seq<LineScan>,
    verbs: Seq<String>,
    line_end: Seq<char>,
    k: int,
)
    requires
        text.len() <= usize::MAX,
        0 <= k < lines(text).len(),
        stands_alone(lines(text), scans, verbs, false, k),
    ensures
        line_in(joined_text(text, scans, verbs, line_end), lines(text)[k], line_end),
{
    let ls = lines(text);
    let bs = blocks(roles(ls, scans, verbs), false);
    lemma_line_count(text, 0);
    lemma_blocks(ls, scans, verbs, false);
    let b = lemma_block_of(bs, ls.len() as int, k);
    lemma_boundaries_stand_alone(ls, scans, verbs, false, k, b);
    let (x, y) = lemma_joined_parts(ls, line_end, bs, b);
    lemma_joined_ends(ls, bs.take(b), line_end);
    assert(joined_text(text, scans, verbs, line_end) == x + (ls[k] + line_end) + y);
}

/// Joining keeps the order of lines that stand alone.
pub proof fn law_join_keeps_order(
    text: Seq<char>,
    scans: Seq<LineScan>,
    verbs: Seq<String>,
    line_end: Seq<char>,
    j: int,
    k: int,
)
    requires
        text.len() <= usize::MAX,
        0 <= j < k < lines(text).len(),
        stands_alone(lines(text), scans, verbs, false, j),
        stands_alone(lines(text), scans, verbs, false, k),
    ensures
        lines_in_order(
            joined_text(text, scans, verbs, line_end),
            lines(text)[j],
            lines(text)[k],
            line_end,
        ),
{
    let ls = lines(text);
    let bs = blocks(roles(ls, scans, verbs), false);
    lemma_line_count(text, 0);
    lemma_blocks(ls, scans, verbs, false);
    let b = lemma_block_of(bs, ls.len() as int, j);
    let c = lemma_block_of(bs, ls.len() as int, k);
    lemma_boundaries_stand_alone(ls, scans, verbs, false, j, b);
    lemma_boundaries_stand_alone(ls, scans, verbs, false, k, c);
    lemma_ends_ascend(bs, 0, ls.len() as int, b);
    assert(b < c) by {
        if c < b {
            assert(bs[c].end <= bs[b].start);
        }
    }
    let (p, z) = lemma_joined_parts(ls, line_end, bs, c);
    let front = bs.take(c);
    let (x, y) = lemma_joined_parts(ls, line_end, front, b);
    assert(front.take(b) =~= bs.take(b));
    lemma_joined_ends(ls, bs.take(b), line_end);
    lemma_joined_ends(ls, front, line_end);
    assert(p == x + (ls[j] + line_end) + y);
    assert(joined_text(text, scans, verbs, line_end) == x + (ls[j] + line_end) + y + (ls[k]
        + line_end) + z);
}

/// The joined lines of a paragraph are one line.
pub proof fn law_joined_paragraph_is_one_line(text: Seq<char>, start: int, end: int)
    requires
        0 <= start < end <= lines(text).len(),
    ensures
        !chain(lines(text), start, end).contains('\n'),
    decreases end - start,
{
    let ls = lines(text);
    lemma_line_is_one(text, end - 1);
    if end > start + 1 {
        law_joined_paragraph_is_one_line(text, start, end - 1);
        let head = chain(ls, start, end - 1);
        let tail = ls[end - 1];
        lemma_ink_end(head, 0, head.len() as int);
        lemma_first_ink(tail, 0);
        let c = chain(ls, start, end);
        assert forall|m: int| 0 <= m < c.len() implies #[trigger] c[m] != '\n' by {
            let h = trimmed_end(head).len() as int;
            if m < h {
                assert(c[m] == head[m]);
            } else if m > h {
                assert(c[m] == tail[first_ink(tail, 0) + m - h - 1]);
            }
        }
    }
}

// ---------------------------------------------------------------------------
// Canonical reflow

/// A paragraph in canonical form does not depend on where it was broken: a
/// break in place of a space changes nothing.
pub proof fn law_canonical_ignores_breaks(
    ls: Seq<Seq<char>>,
    i: int,
    a: Seq<char>,
    b: Seq<char>,
    line_end: Seq<char>,
)
    requires
        0 <= i < ls.len(),
        trimmed(ls[i]) == trimmed(a) + seq![' '] + trimmed(b),
    ensures
        canonical(ls.update(i, a).insert(i + 1, b), line_end) == canonical(ls, line_end),
{
    lemma_broken_text(ls, i, a, b, ls.len() as int);
}

proof fn lemma_broken_text(ls: Seq<Seq<char>>, i: int, a: Seq<char>, b: Seq<char>, k: int)
    requires
        0 <= i < ls.len(),
        trimmed(ls[i]) == trimmed(a) + seq![' '] + trimmed(b),
        0 <= k <= ls.len(),
    ensures
        k <= i ==> paragraph_text(ls.update(i, a).insert(i + 1, b), k) == paragraph_text(ls, k),
        k > i ==> paragraph_text(ls.update(i, a).insert(i + 1, b), k + 1) == paragraph_text(ls, k),
    decreases k,
{
    let broken = ls.update(i, a).insert(i + 1, b);
    if k > 0 {
        lemma_broken_text(ls, i, a, b, k - 1);
        if k == i + 1 {
            assert(broken[i] == a);
            assert(broken[i + 1] == b);
            let head = paragraph_text(ls, i);
            if i == 0 {
                assert(paragraph_text(broken, 1) == trimmed(a));
                assert(paragraph_text(broken, 2) == trimmed(a) + seq![' '] + trimmed(b));
            } else {
                assert(paragraph_text(broken, k) == head + seq![' '] + trimmed(a));
                assert(paragraph_text(broken, k + 1) == head + seq![' '] + trimmed(a) + seq![' ']
                    + trimmed(b));
                assert(head + seq![' '] + (trimmed(a) + seq![' '] + trimmed(b)) =~= head + seq![' ']
                    + trimmed(a) + seq![' '] + trimmed(b));
            }
        } else if k > i + 1 {
            assert(broken[k] == ls[k - 1]);
        } else {
            assert(broken[k - 1] == ls[k - 1]);
        }
    }
}

/// Canonical form is a fixed point: a paragraph that was joined stays as it is.
pub proof fn law_canonical_is_stable(ls: Seq<Seq<char>>, line_end: Seq<char>)
    requires
        ls.len() > 0,
        trimmed(ls[0]).len() > 0,
        trimmed(ls.last()).len() > 0,
    ensures
        canonical(seq![paragraph_text(ls, ls.len() as int)], line_end) == canonical(ls, line_end),
{
    let n = ls.len() as int;
    let text = paragraph_text(ls, n);
    lemma_trimmed(ls[0]);
    lemma_trimmed(ls[n - 1]);
    lemma_line_in_text(ls, n, 0);
    lemma_line_in_text(ls, n, n - 1);
    let first = trimmed(ls[0]);
    let last = trimmed(ls[n - 1]);
    let e = paragraph_text(ls, 1).len() as int;
    let s = start_in_text(ls, n - 1);
    assert(text[0] == text.subrange(0, e)[0]);
    assert(text[text.len() - 1] == text.subrange(s, text.len() as int)[last.len() - 1]);
    assert(text.subrange(0, 0) =~= seq![]);
    assert(text.subrange(text.len() as int, text.len() as int) =~= seq![]);
    lemma_trimmed_unique(text, 0, text.len() as int);
    assert(text.subrange(0, text.len() as int) =~= text);
}

// ---------------------------------------------------------------------------
// Minimal reflow

/// Minimal reflow breaks a paragraph only where that is legal.
pub proof fn law_minimal_breaks_are_legal(
    ls: Seq<Seq<char>>,
    comment: Option<usize>,
    args: Args,
    i: int,
)
    requires
        0 < paragraph_text(ls, ls.len() as int).len() <= usize::MAX,
        0 <= i < layout_of(graph_of(ls, comment, args)).len(),
    ensures
        legal_break(
            paragraph_text(ls, ls.len() as int),
            anchors_of(ls),
            comment,
            args.wrap_chars@,
            layout_of(graph_of(ls, comment, args))[i] as int,
        ),
{
    let g = graph_of(ls, comment, args);
    let text = g.par.text;
    lemma_breaks(text, g.par.anchors, comment, args.wrap_chars@);
    lemma_chosen(g, g.breaks.len() - 1);
    let path = chosen(g, g.breaks.len() - 1);
    let f = |p: int| legal_break(text, anchors_of(ls), comment, args.wrap_chars@, p);
    lemma_select(f, text.len() as int + 1);
    assert(0 <= path[i] <= g.breaks.len() - 1);
    assert(f(g.breaks[path[i]] as int));
}

// ---------------------------------------------------------------------------
// Semantic reflow

/// Semantic reflow never joins lines: what it makes of a paragraph is what it
/// makes of its lines, one behind the other, provided that the first ones leave
/// nothing open.
pub proof fn law_semantic_keeps_breaks(
    a: Seq<Seq<char>>,
    b: Seq<Seq<char>>,
    sa: Seq<LineScan>,
    sb: Seq<LineScan>,
    wraplen: usize,
    line_end: Seq<char>,
)
    requires
        a.len() == sa.len(),
        b.len() == sb.len(),
        nesting_before(a, sa, a.len() as int) == outside(),
    ensures
        semantic(a + b, sa + sb, wraplen, line_end, (a + b).len() as int) == semantic(
            a,
            sa,
            wraplen,
            line_end,
            a.len() as int,
        ) + semantic(b, sb, wraplen, line_end, b.len() as int),
{
    lemma_semantic_prefix(a, b, sa, sb, wraplen, line_end, a.len() as int);
    lemma_semantic_suffix(a, b, sa, sb, wraplen, line_end, b.len() as int);
}

proof fn lemma_semantic_prefix(
    a: Seq<Seq<char>>,
    b: Seq<Seq<char>>,
    sa: Seq<LineScan>,
    sb: Seq<LineScan>,
    wraplen: usize,
    line_end: Seq<char>,
    k: int,
)
    requires
        a.len() == sa.len(),
        0 <= k <= a.len(),
    ensures
        nesting_before(a + b, sa + sb, k) == nesting_before(a, sa, k),
        semantic(a + b, sa + sb, wraplen, line_end, k) == semantic(a, sa, wraplen, line_end, k),
    decreases k,
{
    if k > 0 {
        lemma_semantic_prefix(a, b, sa, sb, wraplen, line_end, k - 1);
        assert((a + b)[k - 1] == a[k - 1]);
        assert((sa + sb)[k - 1] == sa[k - 1]);
    }
}

proof fn lemma_semantic_suffix(
    a: Seq<Seq<char>>,
    b: Seq<Seq<char>>,
    sa: Seq<LineScan>,
    sb: Seq<LineScan>,
    wraplen: usize,
    line_end: Seq<char>,
    k: int,
)
    requires
        a.len() == sa.len(),
        b.len() == sb.len(),
        0 <= k <= b.len(),
        nesting_before(a + b, sa + sb, a.len() as int) == outside(),
    ensures
        nesting_before(a + b, sa + sb, a.len() + k) == nesting_before(b, sb, k),
        semantic(a + b, sa + sb, wraplen, line_end, a.len() + k) == semantic(
            a + b,
            sa + sb,
            wraplen,
            line_end,
            a.len() as int,
        ) + semantic(b, sb, wraplen, line_end, k),
    decreases k,
{
    let n = a.len() as int;
    let base = semantic(a + b, sa + sb, wraplen, line_end, n);
    if k > 0 {
        lemma_semantic_suffix(a, b, sa, sb, wraplen, line_end, k - 1);
        assert((a + b)[n + k - 1] == b[k - 1]);
        assert((sa + sb)[n + k - 1] == sb[k - 1]);
        let part = line_group(b, sb, wraplen, line_end, k - 1);
        let head = semantic(b, sb, wraplen, line_end, k - 1);
        assert(base + head + part =~= base + (head + part));
    } else {
        lemma_ink_empty(base);
    }
}

/// Semantic reflow cuts a line behind every sentence, and elsewhere only behind
/// a clause.
pub proof fn law_semantic_cuts(
    line: Seq<char>,
    comment: Option<usize>,
    nest: Nesting,
    wraplen: usize,
    p: usize,
)
    requires
        line.len() <= usize::MAX,
        comment matches Some(c) ==> c <= line.len(),
        0 < p < line.len(),
    ensures
        sentence_ends(line, comment, nest.in_math).contains(p) ==> line_cuts(
            line,
            comment,
            nest,
            wraplen,
        ).contains(p),
        line_cuts(line, comment, nest, wraplen).contains(p) ==> sentence_ends(
            line,
            comment,
            nest.in_math,
        ).contains(p) || clause_ends(line, comment, nest).contains(p),
{
    let segs = segments(line, comment, nest);
    let n = segs.len() - 1;
    let ends = sentence_ends(line, comment, nest.in_math);
    let head = cuts_to(line, comment, nest, wraplen, n);
    let cuts = line_cuts(line, comment, nest, wraplen);
    lemma_segments(line, comment, nest);
    lemma_cuts_to(line, comment, nest, wraplen, n);
    if ends.contains(p) {
        let i = choose|i: int| 0 <= i < ends.len() && ends[i] == p;
        assert(segs[i + 1] == p);
        assert(head.contains(segs[i + 1]));
        let j = choose|j: int| 0 <= j < head.len() && head[j] == p;
        assert(cuts[j] == p);
    }
    if cuts.contains(p) {
        let j = choose|j: int| 0 <= j < cuts.len() && cuts[j] == p;
        assert(j < head.len());
        assert(head[j] == p);
        if segs.contains(head[j]) {
            let i = choose|i: int| 0 <= i < segs.len() && segs[i] == p;
            assert(0 < i < n);
            assert(ends[i - 1] == p);
        }
    }
}

/// Semantic reflow never cuts a word, a comment or inline math.
pub proof fn law_semantic_cuts_are_safe(
    line: Seq<char>,
    comment: Option<usize>,
    nest: Nesting,
    wraplen: usize,
    p: usize,
)
    requires
        line.len() <= usize::MAX,
        comment matches Some(c) ==> c <= line.len(),
        0 < p < line.len(),
        line_cuts(line, comment, nest, wraplen).contains(p),
    ensures
        white(line[p as int]),
        comment matches Some(c) ==> p < c,
        !math_at(line, p - 1, nest.in_math),
{
    let limit = limit_of(line, comment);
    let f = |p: int| sentence_break(line, limit, nest.in_math, p);
    let g = |p: int| clause_break(line, limit, nest, p);
    lemma_select(f, limit);
    lemma_select(g, limit);
    law_semantic_cuts(line, comment, nest, wraplen, p);
    let ends = sentence_ends(line, comment, nest.in_math);
    let clauses = clause_ends(line, comment, nest);
    if ends.contains(p) {
        let i = choose|i: int| 0 <= i < ends.len() && ends[i] == p;
        assert(f(ends[i] as int));
    } else {
        let i = choose|i: int| 0 <= i < clauses.len() && clauses[i] == p;
        assert(g(clauses[i] as int));
    }
}

/// A sentence that keeps within the limit is not cut.
pub proof fn law_short_sentences_stay_whole(
    line: Seq<char>,
    comment: Option<usize>,
    nest: Nesting,
    wraplen: usize,
    k: int,
    p: usize,
)
    requires
        line.len() <= usize::MAX,
        comment matches Some(c) ==> c <= line.len(),
        0 < k < segments(line, comment, nest).len(),
        keeps_within(
            line,
            segments(line, comment, nest)[k - 1],
            segments(line, comment, nest)[k],
            wraplen,
        ),
        segments(line, comment, nest)[k - 1] < p < segments(line, comment, nest)[k],
    ensures
        !line_cuts(line, comment, nest, wraplen).contains(p),
{
    let segs = segments(line, comment, nest);
    let n = segs.len() - 1;
    lemma_segments(line, comment, nest);
    lemma_whole(line, comment, nest, wraplen, k, n);
    let head = cuts_to(line, comment, nest, wraplen, n);
    let cuts = line_cuts(line, comment, nest, wraplen);
    if cuts.contains(p) {
        let j = choose|j: int| 0 <= j < cuts.len() && cuts[j] == p;
        if j < head.len() {
            assert(head[j] == p);
        } else {
            assert(segs[k] <= segs[n]);
        }
    }
}

proof fn lemma_whole(
    line: Seq<char>,
    comment: Option<usize>,
    nest: Nesting,
    wraplen: usize,
    k: int,
    m: int,
)
    requires
        line.len() <= usize::MAX,
        comment matches Some(c) ==> c <= line.len(),
        0 < k < segments(line, comment, nest).len(),
        keeps_within(
            line,
            segments(line, comment, nest)[k - 1],
            segments(line, comment, nest)[k],
            wraplen,
        ),
        0 <= m < segments(line, comment, nest).len(),
    ensures
        forall|i: int|
            0 <= i < cuts_to(line, comment, nest, wraplen, m).len() ==> {
                let c = #[trigger] cuts_to(line, comment, nest, wraplen, m)[i];
                c <= segments(line, comment, nest)[k - 1] || c >= segments(line, comment, nest)[k]
            },
    decreases m,
{
    let segs = segments(line, comment, nest);
    lemma_segments(line, comment, nest);
    if m > 0 {
        lemma_whole(line, comment, nest, wraplen, k, m - 1);
        let head = cuts_to(line, comment, nest, wraplen, m - 1);
        let start = segs[m - 1];
        let end = segs[m];
        let clauses = clause_ends(line, comment, nest);
        let limit = limit_of(line, comment);
        lemma_select(|p: int| clause_break(line, limit, nest, p), limit);
        assert(start <= end);
        lemma_candidates(clauses, start, end);
        let cs = candidates(clauses, start, end);
        lemma_packed(line, start, cs, 0, wraplen);
        let inner = if keeps_within(line, start, end, wraplen) {
            seq![]
        } else {
            packed(line, start, cs, 0, wraplen)
        };
        let cuts = cuts_to(line, comment, nest, wraplen, m);
        let h = head.len() as int;
        assert(cuts == head + seq![start] + inner);
        assert(m < k ==> segs[m] <= segs[k - 1]);
        assert(m - 1 < k ==> segs[m - 1] <= segs[k - 1]);
        assert(m - 1 >= k ==> segs[k] <= segs[m - 1]);
        assert forall|i: int| 0 <= i < cuts.len() implies {
            let c = #[trigger] cuts[i];
            c <= segs[k - 1] || c >= segs[k]
        } by {
            if i < h {
                assert(cuts[i] == head[i]);
            } else if i > h {
                assert(cuts[i] == inner[i - h - 1]);
                let q = choose|q: int| 0 <= q < cs.len() - 1 && inner[i - h - 1] == cs[q];
                assert(start <= cs[q] <= end);
            }
        }
    }
}

} // verus!
