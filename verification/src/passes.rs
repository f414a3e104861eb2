//! What the passes make of a document, block by block.

use vstd::prelude::*;

use crate::config::{Args, ReflowMode};
use crate::minimal::{minimal, paragraph_text};
use crate::paragraphs::{blocks, comment_within, fits, roles, Block};
use crate::reflow::{
    blocks_for, canonical, mode_applies, paragraph_count, paragraph_texts, reflowed_blocks,
    reflowed_text, string_texts,
};
use crate::scan::{LineScan, Scan};
use crate::semantic::semantic;
use crate::text::lines;

verus! {

/// The number of paragraphs among some blocks.
pub open spec fn paragraphs_in(bs: Seq<Block>) -> nat {
    bs.filter(|b: Block| b.prose).len()
}

proof fn lemma_paragraphs_in(bs: Seq<Block>)
    ensures
        paragraph_count(bs) == paragraphs_in(bs),
    decreases bs.len(),
{
    reveal(Seq::filter);
    if bs.len() > 0 {
        lemma_paragraphs_in(bs.drop_last());
    }
}

/// A reflowed document is written block by block. A line outside paragraphs is copied
/// with a line end. A paragraph is rewritten as the mode asks, and in minimal mode with
/// the comment that the report gives for a paragraph of its number.
pub proof fn law_blocks_are_reflowed(
    ls: Seq<Seq<char>>,
    scans: Seq<LineScan>,
    comments: Seq<Option<usize>>,
    args: Args,
    line_end: Seq<char>,
    bs: Seq<Block>,
    b: Block,
)
    requires
        b.start < b.end <= ls.len(),
    ensures
        ({
            let before = reflowed_blocks(ls, scans, comments, args, line_end, bs);
            let after = reflowed_blocks(ls, scans, comments, args, line_end, bs.push(b));
            let part = ls.subrange(b.start as int, b.end as int);
            let found = scans.subrange(b.start as int, b.end as int);
            let n = paragraphs_in(bs) as int;
            &&& reflowed_blocks(ls, scans, comments, args, line_end, Seq::empty()).len() == 0
            &&& !b.prose ==> after == before + ls[b.start as int] + line_end
            &&& b.prose && args.reflow is Minimal && n < comments.len() ==> after == before
                + minimal(part, comments[n], args, line_end)
            &&& b.prose && args.reflow is Minimal && n >= comments.len() ==> after == before
                + minimal(part, None, args, line_end)
            &&& b.prose && args.reflow is Canonical ==> after == before + paragraph_text(
                part,
                part.len() as int,
            ) + line_end
            &&& b.prose && args.reflow is Semantic ==> after == before + semantic(
                part,
                found,
                args.wraplen,
                line_end,
                part.len() as int,
            )
        }),
{
    let before = reflowed_blocks(ls, scans, comments, args, line_end, bs);
    let part = ls.subrange(b.start as int, b.end as int);
    let line = ls[b.start as int];
    let p = paragraph_text(part, part.len() as int);
    lemma_paragraphs_in(bs);
    assert(bs.push(b).drop_last() =~= bs);
    assert(before + (line + line_end) =~= before + line + line_end);
    assert(before + (p + line_end) =~= before + p + line_end);
}

/// A reflowed document is made of the blocks that its lines form. In minimal mode a
/// paragraph takes in no further line with a comment.
pub proof fn law_reflowed_text(text: Seq<char>, args: Args, scan: Scan, line_end: Seq<char>)
    ensures
        args.reflow is Minimal ==> blocks_for(lines(text), scan, args.reflow) == blocks(
            roles(lines(text), scan.lines@, scan.verbs@),
            true,
        ),
        !(args.reflow is Minimal) ==> blocks_for(lines(text), scan, args.reflow) == blocks(
            roles(lines(text), scan.lines@, scan.verbs@),
            false,
        ),
        reflowed_text(text, args, scan, line_end) == reflowed_blocks(
            lines(text),
            scan.lines@,
            scan.joined_comments@,
            args,
            line_end,
            blocks_for(lines(text), scan, args.reflow),
        ),
{
}

/// A canonical paragraph is its joined text with a line end.
pub proof fn law_canonical(ls: Seq<Seq<char>>, line_end: Seq<char>)
    ensures
        canonical(ls, line_end) == paragraph_text(ls, ls.len() as int) + line_end,
{
}

/// The joined texts of a document are those of its paragraphs, in order.
pub proof fn law_paragraph_texts(ls: Seq<Seq<char>>, bs: Seq<Block>, b: Block)
    requires
        b.start < b.end <= ls.len(),
    ensures
        paragraph_texts(ls, Seq::empty()).len() == 0,
        b.prose ==> paragraph_texts(ls, bs.push(b)) == paragraph_texts(ls, bs).push(
            paragraph_text(
                ls.subrange(b.start as int, b.end as int),
                ls.subrange(b.start as int, b.end as int).len() as int,
            ),
        ),
        !b.prose ==> paragraph_texts(ls, bs.push(b)) == paragraph_texts(ls, bs),
{
    assert(bs.push(b).drop_last() =~= bs);
}

/// The texts of some strings, one for each.
pub proof fn law_string_texts(v: Seq<String>, k: int)
    requires
        0 <= k < v.len(),
    ensures
        string_texts(v).len() == v.len(),
        string_texts(v)[k] == v[k]@,
{
}

proof fn lemma_no_paragraphs(bs: Seq<Block>)
    ensures
        paragraph_count(bs) == 0 <==> forall|b: int|
            0 <= b < bs.len() ==> !(#[trigger] bs[b]).prose,
    decreases bs.len(),
{
    if bs.len() > 0 {
        let head = bs.drop_last();
        lemma_no_paragraphs(head);
        if paragraph_count(bs) == 0 {
            assert forall|b: int| 0 <= b < bs.len() implies !(#[trigger] bs[b]).prose by {
                if b < head.len() {
                    assert(head[b] == bs[b]);
                }
            }
        }
        if forall|b: int| 0 <= b < bs.len() ==> !(#[trigger] bs[b]).prose {
            assert forall|b: int| 0 <= b < head.len() implies !(#[trigger] head[b]).prose by {
                assert(head[b] == bs[b]);
            }
            assert(!bs[bs.len() - 1].prose);
        }
    }
}

/// A mode has a meaning for a document unless it is off and the document has a
/// paragraph.
pub proof fn law_mode_applies(ls: Seq<Seq<char>>, scan: Scan, mode: ReflowMode)
    ensures
        mode_applies(ls, scan, mode) <==> !(mode is Off) || forall|b: int|
            0 <= b < blocks_for(ls, scan, mode).len() ==> !(#[trigger] blocks_for(
                ls,
                scan,
                mode,
            )[b]).prose,
{
    lemma_no_paragraphs(blocks_for(ls, scan, mode));
}

/// A report is one on a document if and only if it has an entry for each line and no
/// comment begins behind the end of its line.
pub proof fn law_fitting(ls: Seq<Seq<char>>, scans: Seq<LineScan>)
    ensures
        fits(ls, scans) <==> scans.len() == ls.len() && forall|k: int|
            0 <= k < ls.len() && (#[trigger] scans[k]).comment is Some ==> scans[k].comment->0
                <= ls[k].len(),
{
    if scans.len() == ls.len() && forall|k: int|
        0 <= k < ls.len() && (#[trigger] scans[k]).comment is Some ==> scans[k].comment->0
            <= ls[k].len() {
        assert(fits(ls, scans)) by {
            assert forall|k: int| 0 <= k < ls.len() implies comment_within(
                #[trigger] ls[k],
                scans[k],
            ) by {
                assert(scans[k].comment is Some ==> scans[k].comment->0 <= ls[k].len());
            }
        }
    }
    if fits(ls, scans) {
        assert forall|k: int| 0 <= k < ls.len() && (#[trigger] scans[k]).comment is Some
            implies scans[k].comment->0 <= ls[k].len() by {
            assert(comment_within(ls[k], scans[k]));
        }
    }
}

} // verus!
