//! Redistributes text across the lines of paragraphs.
//!
//! This pass runs before indentation and line wrapping. Lines are grouped into
//! paragraphs, and the line breaks within each are rewritten in one of three
//! ways.
//!
//! - [`ReflowMode::Canonical`] joins the paragraph onto one line, which the
//!   wrapping pass breaks anew.
//! - [`ReflowMode::Minimal`] treats the authored breaks as preferred break
//!   points and moves as few as possible.
//! - [`ReflowMode::Semantic`] keeps every authored break and only adds new
//!   ones.
//!
//! Lines that belong to no paragraph pass through untouched.

use vstd::prelude::*;
use vstd::slice::slice_subrange;
use vstd::string::StringExecFns;

use crate::config::{Args, ReflowMode};
use crate::minimal::{join_paragraph, minimal, minimally_reflow, paragraph_text};
use crate::paragraphs::{
    blocks, comment_within, fits, group, lemma_blocks, line_roles, roles, tiles, Block,
};
use crate::prose::{excluded, is_excluded};
use crate::scan::{LineScan, Scan};
use crate::semantic::{semantic, semantically_reflow};
use crate::text::{flat, lines, push_chars, push_line, split_lines, texts, to_chars};

verus! {

/// A paragraph on one line.
pub open spec fn canonical(ls: Seq<Seq<char>>, line_end: Seq<char>) -> Seq<char> {
    paragraph_text(ls, ls.len() as int) + line_end
}

/// A paragraph with its breaks rewritten as the mode asks. One without lines is
/// empty. With reflow off no paragraph is rewritten: what is given for that case
/// has no meaning, and no function computes it.
pub open spec fn reflowed_paragraph(
    ls: Seq<Seq<char>>,
    scans: Seq<LineScan>,
    comment: Option<usize>,
    args: Args,
    line_end: Seq<char>,
) -> Seq<char> {
    if ls.len() == 0 {
        seq![]
    } else {
        match args.reflow {
            ReflowMode::Off => flat(ls, 0, ls.len() as int),
            ReflowMode::Minimal => minimal(ls, comment, args, line_end),
            ReflowMode::Canonical => canonical(ls, line_end),
            ReflowMode::Semantic => semantic(ls, scans, args.wraplen, line_end, ls.len() as int),
        }
    }
}

/// The number of paragraphs among some blocks.
pub open spec fn paragraph_count(bs: Seq<Block>) -> nat
    decreases bs.len(),
{
    if bs.len() == 0 {
        0
    } else {
        paragraph_count(bs.drop_last()) + (if bs.last().prose {
            1nat
        } else {
            0nat
        })
    }
}

/// Where the comment of paragraph `n` begins in its joined text.
pub open spec fn joined_comment(comments: Seq<Option<usize>>, n: int) -> Option<usize> {
    if 0 <= n < comments.len() {
        comments[n]
    } else {
        None
    }
}

/// A block, with its breaks rewritten if it is paragraph `n`.
pub open spec fn reflowed_block(
    ls: Seq<Seq<char>>,
    scans: Seq<LineScan>,
    comments: Seq<Option<usize>>,
    args: Args,
    line_end: Seq<char>,
    b: Block,
    n: int,
) -> Seq<char> {
    if b.prose {
        reflowed_paragraph(
            ls.subrange(b.start as int, b.end as int),
            scans.subrange(b.start as int, b.end as int),
            joined_comment(comments, n),
            args,
            line_end,
        )
    } else {
        ls[b.start as int] + line_end
    }
}

/// Some blocks, with the breaks of each paragraph rewritten.
pub open spec fn reflowed_blocks(
    ls: Seq<Seq<char>>,
    scans: Seq<LineScan>,
    comments: Seq<Option<usize>>,
    args: Args,
    line_end: Seq<char>,
    bs: Seq<Block>,
) -> Seq<char>
    decreases bs.len(),
{
    if bs.len() == 0 {
        seq![]
    } else {
        let head = bs.drop_last();
        reflowed_blocks(ls, scans, comments, args, line_end, head) + reflowed_block(
            ls,
            scans,
            comments,
            args,
            line_end,
            bs.last(),
            paragraph_count(head) as int,
        )
    }
}

/// The blocks of a document for a mode. In minimal mode a paragraph stops short
/// of a line with a comment.
pub open spec fn blocks_for(ls: Seq<Seq<char>>, scan: Scan, mode: ReflowMode) -> Seq<Block> {
    blocks(roles(ls, scan.lines@, scan.verbs@), mode == ReflowMode::Minimal)
}

/// A document with the breaks of each paragraph rewritten.
pub open spec fn reflowed_text(
    text: Seq<char>,
    args: Args,
    scan: Scan,
    line_end: Seq<char>,
) -> Seq<char> {
    reflowed_blocks(
        lines(text),
        scan.lines@,
        scan.joined_comments@,
        args,
        line_end,
        blocks_for(lines(text), scan, args.reflow),
    )
}

/// The joined texts of the paragraphs among some blocks.
pub open spec fn paragraph_texts(ls: Seq<Seq<char>>, bs: Seq<Block>) -> Seq<Seq<char>>
    decreases bs.len(),
{
    if bs.len() == 0 {
        seq![]
    } else {
        let b = bs.last();
        let head = paragraph_texts(ls, bs.drop_last());
        if b.prose {
            head.push(
                paragraph_text(ls.subrange(b.start as int, b.end as int), b.end - b.start),
            )
        } else {
            head
        }
    }
}

/// The characters of some strings.
pub open spec fn string_texts(v: Seq<String>) -> Seq<Seq<char>> {
    Seq::new(v.len(), |k: int| v[k]@)
}

/// Whether a mode has a meaning for a document: with paragraphs to reflow, it
/// is not off.
pub open spec fn mode_applies(ls: Seq<Seq<char>>, scan: Scan, mode: ReflowMode) -> bool {
    mode == ReflowMode::Off ==> paragraph_count(blocks_for(ls, scan, mode)) == 0
}

/// Collapses a paragraph onto one line, discarding its authored breaks.
pub fn canonical_reflow(ls: &[Vec<char>], line_end: &str) -> (res: String)
    ensures
        res@ == canonical(texts(ls@), line_end@),
{
    let (text, _) = join_paragraph(ls);
    let mut out = String::new();
    push_line(&mut out, text.as_slice(), line_end);
    assert(out@ =~= text@ + line_end@);
    out
}

/// Appends a paragraph with its breaks rewritten, or nothing if it has no lines.
fn flush_paragraph(
    out: &mut String,
    ls: &[Vec<char>],
    scans: &[LineScan],
    comment: Option<usize>,
    args: &Args,
    line_end: &str,
)
    requires
        ls@.len() > 0 ==> args.reflow != ReflowMode::Off,
        scans@.len() == ls@.len(),
        forall|k: int|
            0 <= k < ls@.len() ==> comment_within(#[trigger] texts(ls@)[k], scans@[k]),
    ensures
        ls@.len() == 0 ==> final(out)@ == old(out)@,
        final(out)@ == old(out)@ + reflowed_paragraph(
            texts(ls@),
            scans@,
            comment,
            *args,
            line_end@,
        ),
{
    if ls.len() == 0 {
        assert(out@ + Seq::<char>::empty() =~= out@);
        return;
    }
    match args.reflow {
        // Never reached: with reflow off there is no paragraph to rewrite.
        ReflowMode::Off => {},
        ReflowMode::Minimal => {
            let part = minimally_reflow(ls, comment, args, line_end);
            out.append(part.as_str());
        },
        ReflowMode::Canonical => {
            let part = canonical_reflow(ls, line_end);
            out.append(part.as_str());
        },
        ReflowMode::Semantic => {
            let part = semantically_reflow(ls, scans, args, line_end);
            out.append(part.as_str());
        },
    }
}

/// If a document has no paragraphs, none of its blocks is one.
proof fn lemma_no_paragraph(bs: Seq<Block>, k: int)
    requires
        0 <= k < bs.len(),
        paragraph_count(bs) == 0,
    ensures
        !bs[k].prose,
    decreases bs.len(),
{
    if k < bs.len() - 1 {
        lemma_no_paragraph(bs.drop_last(), k);
    }
}

/// Whether the mode is minimal.
fn is_minimal(mode: ReflowMode) -> (res: bool)
    ensures
        res == (mode == ReflowMode::Minimal),
{
    match mode {
        ReflowMode::Minimal => true,
        _ => false,
    }
}

/// Joins each paragraph of a document for minimal reflow. The texts are those
/// in which the comments of `Scan::joined_comments` are found.
pub fn joined_paragraphs(text: &str, scan: &Scan) -> (res: Vec<String>)
    requires
        fits(lines(text@), scan.lines@),
    ensures
        string_texts(res@) == paragraph_texts(
            lines(text@),
            blocks_for(lines(text@), *scan, ReflowMode::Minimal),
        ),
{
    let body = to_chars(text);
    let ls = split_lines(body.as_slice());
    let rs = line_roles(&ls, scan);
    let bs = group(rs.as_slice(), true);
    let ghost ll = lines(text@);
    proof {
        assert(ll.len() == ls@.len());
        lemma_blocks(ll, scan.lines@, scan.verbs@, true);
    }
    let mut res: Vec<String> = Vec::new();
    let mut k: usize = 0;
    assert(string_texts(res@) =~= paragraph_texts(ll, bs@.take(0)));
    while k < bs.len()
        invariant
            k <= bs@.len(),
            texts(ls@) == ll,
            tiles(bs@, 0, ll.len() as int),
            string_texts(res@) == paragraph_texts(ll, bs@.take(k as int)),
        decreases bs@.len() - k,
    {
        let b = bs[k];
        let ghost before = res@;
        assert(b.start < b.end <= ll.len());
        proof {
            assert(bs@.take(k + 1).drop_last() == bs@.take(k as int));
            assert(bs@.take(k + 1).last() == b);
        }
        if b.prose {
            let part = slice_subrange(ls.as_slice(), b.start, b.end);
            let (joined, _) = join_paragraph(part);
            let mut out = String::new();
            push_chars(&mut out, joined.as_slice());
            assert(texts(part@) =~= ll.subrange(b.start as int, b.end as int));
            assert(out@ =~= joined@);
            res.push(out);
            assert(string_texts(res@) =~= string_texts(before).push(joined@));
        }
        k += 1;
    }
    assert(bs@.take(k as int) == bs@);
    res
}

/// Reflows the paragraphs of a document.
///
/// Bibliographies, styles and classes hold no paragraphs and are returned
/// unchanged.
pub fn reflow_lines(
    text: &str,
    extension: Option<&str>,
    args: &Args,
    scan: &Scan,
    line_end: &str,
) -> (res: String)
    requires
        !excluded(extension) ==> {
            &&& fits(lines(text@), scan.lines@)
            &&& mode_applies(lines(text@), *scan, args.reflow)
        },
    ensures
        excluded(extension) ==> res@ == text@,
        !excluded(extension) ==> res@ == reflowed_text(text@, *args, *scan, line_end@),
{
    if is_excluded(extension) {
        return text.to_string();
    }
    let body = to_chars(text);
    let ls = split_lines(body.as_slice());
    let rs = line_roles(&ls, scan);
    let bs = group(rs.as_slice(), is_minimal(args.reflow));
    let ghost ll = lines(text@);
    let ghost ss = scan.lines@;
    proof {
        assert(ll.len() == ls@.len());
        lemma_blocks(ll, ss, scan.verbs@, args.reflow == ReflowMode::Minimal);
    }
    let mut out = String::new();
    let mut count: usize = 0;
    let mut k: usize = 0;
    while k < bs.len()
        invariant
            k <= bs@.len(),
            texts(ls@) == ll,
            ss == scan.lines@,
            fits(ll, ss),
            args.reflow == ReflowMode::Off ==> paragraph_count(bs@) == 0,
            tiles(bs@, 0, ll.len() as int),
            count == paragraph_count(bs@.take(k as int)),
            count <= k,
            out@ == reflowed_blocks(
                ll,
                ss,
                scan.joined_comments@,
                *args,
                line_end@,
                bs@.take(k as int),
            ),
        decreases bs@.len() - k,
    {
        let b = bs[k];
        let ghost before = out@;
        assert(b.start < b.end <= ll.len());
        proof {
            assert(bs@.take(k + 1).drop_last() == bs@.take(k as int));
            assert(bs@.take(k + 1).last() == b);
        }
        if b.prose {
            proof {
                if args.reflow == ReflowMode::Off {
                    lemma_no_paragraph(bs@, k as int);
                }
            }
            let part = slice_subrange(ls.as_slice(), b.start, b.end);
            let scans = slice_subrange(scan.lines.as_slice(), b.start, b.end);
            proof {
                assert(texts(part@) =~= ll.subrange(b.start as int, b.end as int));
                assert forall|m: int| 0 <= m < part@.len() implies comment_within(
                    #[trigger] texts(part@)[m],
                    scans@[m],
                ) by {
                    assert(comment_within(ll[b.start + m], ss[b.start + m]));
                }
            }
            let comment: Option<usize> = if count < scan.joined_comments.len() {
                scan.joined_comments[count]
            } else {
                None
            };
            flush_paragraph(&mut out, part, scans, comment, args, line_end);
            count += 1;
        } else {
            push_line(&mut out, ls[b.start].as_slice(), line_end);
            assert(ls@[b.start as int]@ == ll[b.start as int]);
            assert(out@ =~= before + (ll[b.start as int] + line_end@));
        }
        k += 1;
    }
    assert(bs@.take(k as int) == bs@);
    out
}

} // verus!
