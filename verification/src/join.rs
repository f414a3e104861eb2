//! Joins the lines of each paragraph into one.

use vstd::prelude::*;
use vstd::string::StringExecFns;

use crate::paragraphs::{
    blocks, fits, group, lemma_blocks, lemma_tiles_drop_last, line_roles, roles, tiles, Block,
};
use crate::prose::{excluded, is_excluded};
use crate::scan::{LineScan, Scan};
use crate::text::{
    blank, flat, ink, lemma_ink_add, lemma_ink_blank, lemma_ink_flat, lemma_ink_lines,
    lemma_ink_trimmed_end, lemma_ink_trimmed_start, lemma_line_count, lines, push_chars,
    split_lines, texts, to_chars, trim_end, trim_start, trimmed_end, trimmed_start,
};

verus! {

/// The lines `start..end`, joined with single spaces. Only the first keeps its
/// leading whitespace, and only the last its trailing whitespace.
pub open spec fn chain(ls: Seq<Seq<char>>, start: int, end: int) -> Seq<char>
    decreases end - start,
{
    if end <= start + 1 {
        ls[start]
    } else {
        trimmed_end(chain(ls, start, end - 1)) + seq![' '] + trimmed_start(ls[end - 1])
    }
}

/// A document in which each block is one line.
pub open spec fn joined(ls: Seq<Seq<char>>, bs: Seq<Block>, line_end: Seq<char>) -> Seq<char>
    decreases bs.len(),
{
    if bs.len() == 0 {
        seq![]
    } else {
        let b = bs.last();
        joined(ls, bs.drop_last(), line_end) + chain(ls, b.start as int, b.end as int) + line_end
    }
}

/// A document with the lines of each paragraph joined.
pub open spec fn joined_text(
    text: Seq<char>,
    scans: Seq<LineScan>,
    verbs: Seq<String>,
    line_end: Seq<char>,
) -> Seq<char> {
    joined(lines(text), blocks(roles(lines(text), scans, verbs), false), line_end)
}

/// Joins the lines `start..end` with single spaces.
fn join_block(ls: &Vec<Vec<char>>, start: usize, end: usize) -> (res: String)
    requires
        start < end <= ls@.len(),
    ensures
        res@ == chain(texts(ls@), start as int, end as int),
{
    let mut res = String::new();
    push_chars(&mut res, ls[start].as_slice());
    let mut k: usize = start + 1;
    assert(res@ =~= texts(ls@)[start as int]);
    while k < end
        invariant
            start < k <= end <= ls@.len(),
            res@ == chain(texts(ls@), start as int, k as int),
        decreases end - k,
    {
        let so_far = to_chars(res.as_str());
        let mut next = String::new();
        push_chars(&mut next, trim_end(so_far.as_slice()));
        next.push(' ');
        push_chars(&mut next, trim_start(ls[k].as_slice()));
        proof {
            let t = texts(ls@);
            assert(t[k as int] == ls@[k as int]@);
            assert(next@ =~= trimmed_end(res@) + seq![' '] + trimmed_start(t[k as int]));
        }
        res = next;
        k += 1;
    }
    res
}

/// Joins the lines that belong to the same paragraph.
///
/// Bibliographies, styles and classes hold no paragraphs and are returned
/// unchanged.
pub fn join_lines(text: &str, extension: Option<&str>, scan: &Scan, line_end: &str) -> (res: String)
    requires
        !excluded(extension) ==> fits(lines(text@), scan.lines@),
    ensures
        excluded(extension) ==> res@ == text@,
        !excluded(extension) ==> res@ == joined_text(
            text@,
            scan.lines@,
            scan.verbs@,
            line_end@,
        ),
{
    if is_excluded(extension) {
        return text.to_string();
    }
    let body = to_chars(text);
    let ls = split_lines(body.as_slice());
    let rs = line_roles(&ls, scan);
    let bs = group(rs.as_slice(), false);
    let ghost ll = lines(text@);
    proof {
        assert(ll.len() == ls@.len());
        lemma_blocks(ll, scan.lines@, scan.verbs@, false);
    }
    let mut out = String::new();
    let mut k: usize = 0;
    while k < bs.len()
        invariant
            k <= bs@.len(),
            texts(ls@) == ll,
            tiles(bs@, 0, ll.len() as int),
            out@ == joined(ll, bs@.take(k as int), line_end@),
        decreases bs@.len() - k,
    {
        let b = bs[k];
        assert(b.start < b.end <= ll.len());
        let line = join_block(&ls, b.start, b.end);
        let ghost before = out@;
        out.append(line.as_str());
        out.append(line_end);
        k += 1;
        proof {
            assert(bs@.take(k as int).drop_last() == bs@.take(k - 1));
            assert(bs@.take(k as int).last() == b);
            assert(out@ =~= before + chain(ll, b.start as int, b.end as int) + line_end@);
        }
    }
    assert(bs@.take(k as int) == bs@);
    out
}

proof fn lemma_ink_chain(ls: Seq<Seq<char>>, start: int, end: int)
    requires
        0 <= start < end <= ls.len(),
    ensures
        ink(chain(ls, start, end)) == ink(flat(ls, start, end)),
    decreases end - start,
{
    if end == start + 1 {
        assert(flat(ls, start, start) =~= seq![]);
        assert(flat(ls, start, end) =~= ls[start]);
    } else {
        let head = chain(ls, start, end - 1);
        lemma_ink_chain(ls, start, end - 1);
        lemma_ink_trimmed_end(head);
        lemma_ink_trimmed_start(ls[end - 1]);
        lemma_ink_blank(seq![' ']);
        lemma_ink_add(trimmed_end(head), seq![' ']);
        lemma_ink_add(trimmed_end(head) + seq![' '], trimmed_start(ls[end - 1]));
        lemma_ink_add(flat(ls, start, end - 1), ls[end - 1]);
        assert(ink(head) + Seq::<char>::empty() =~= ink(head));
    }
}

proof fn lemma_ink_joined(ls: Seq<Seq<char>>, bs: Seq<Block>, n: int, line_end: Seq<char>)
    requires
        tiles(bs, 0, n),
        n <= ls.len(),
        blank(line_end),
    ensures
        ink(joined(ls, bs, line_end)) == ink(flat(ls, 0, n)),
    decreases bs.len(),
{
    if bs.len() == 0 {
        assert(flat(ls, 0, n) =~= seq![]);
        assert(joined(ls, bs, line_end) =~= seq![]);
    } else {
        let b = bs.last();
        let rest = bs.drop_last();
        let m = b.start as int;
        assert(b.start < b.end <= n);
        lemma_tiles_drop_last(bs, 0, n);
        lemma_ink_joined(ls, rest, m, line_end);
        lemma_ink_chain(ls, m, n);
        lemma_ink_flat(ls, 0, m, n);
        lemma_ink_blank(line_end);
        let head = joined(ls, rest, line_end);
        lemma_ink_add(head, chain(ls, m, n));
        lemma_ink_add(head + chain(ls, m, n), line_end);
        assert(ink(head + chain(ls, m, n)) + Seq::<char>::empty() =~= ink(
            head + chain(ls, m, n),
        ));
    }
}

/// Joining lines changes nothing but whitespace.
pub proof fn law_join_keeps_ink(
    text: Seq<char>,
    scans: Seq<LineScan>,
    verbs: Seq<String>,
    line_end: Seq<char>,
)
    requires
        text.len() <= usize::MAX,
        blank(line_end),
    ensures
        ink(joined_text(text, scans, verbs, line_end)) == ink(text),
{
    let ls = lines(text);
    lemma_line_count(text, 0);
    lemma_blocks(ls, scans, verbs, false);
    lemma_ink_joined(ls, blocks(roles(ls, scans, verbs), false), ls.len() as int, line_end);
    lemma_ink_lines(text);
}

} // verus!
