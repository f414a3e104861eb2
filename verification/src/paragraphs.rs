//! The role of each line of a document, and the paragraphs that the lines form.

use vstd::prelude::*;
use vstd::slice::slice_subrange;

use crate::prose::{
    absorbs, bare_equals, boundary_start, can_absorb, can_begin_reflow, display_after, holds_verb,
    is_reflowable, math_at, math_depth_after, opens_math, opens_math_env, reflowable,
    scan_bare_equals, text_start, update_math_depth,
};
use crate::scan::{LineScan, Scan};
use crate::text::{
    begins_with, contains, ends_in, ends_with, lines, split_lines, starts_with, texts, to_chars,
    trim, trim_end, trimmed, trimmed_end,
};

verus! {

// ---------------------------------------------------------------------------
// Roles

/// What is known of the place of a line from the lines before it.
#[derive(Clone, Copy, Debug, PartialEq, Eq)]
pub struct Track {
    /// The line follows a paragraph boundary.
    pub after_boundary: bool,
    /// The nesting depth of display math environments.
    pub math_depth: usize,
    /// The line follows an open `\[`.
    pub in_display: bool,
    /// The line starts in inline math.
    pub in_inline_math: bool,
}

/// The part that a line may play in a paragraph.
#[derive(Clone, Copy, Debug, PartialEq, Eq)]
pub struct LineRole {
    /// The line may stand in a paragraph.
    pub flows: bool,
    /// The line may begin a paragraph.
    pub begins: bool,
    /// The line may absorb the one behind it.
    pub absorbs: bool,
    /// The line ends in a comment.
    pub commented: bool,
}

/// The start of a document acts as a paragraph boundary.
pub open spec fn start_track() -> Track {
    Track { after_boundary: true, math_depth: 0, in_display: false, in_inline_math: false }
}

/// Whether a line lies in a region in which lines are never joined. The lines
/// on which display math begins and ends belong to it.
pub open spec fn protected_line(track: Track, line: Seq<char>, scan: LineScan) -> bool {
    ||| scan.fixed()
    ||| track.math_depth > 0
    ||| opens_math(line, scan.pattern)
    ||| track.in_display
    ||| display_after(line, track.in_display)
}

/// A line without its comment.
pub open spec fn uncommented(line: Seq<char>, scan: LineScan) -> Seq<char> {
    match scan.comment {
        Some(c) => line.subrange(0, c as int),
        None => line,
    }
}

/// Whether a line may stand in a paragraph.
pub open spec fn flows(track: Track, line: Seq<char>, scan: LineScan, verbs: Seq<String>) -> bool {
    let bare = bare_equals(uncommented(line, scan), track.in_inline_math);
    reflowable(line, scan, verbs, protected_line(track, line, scan), bare)
}

/// The role of a line.
pub open spec fn role_of(
    track: Track,
    line: Seq<char>,
    scan: LineScan,
    verbs: Seq<String>,
) -> LineRole {
    LineRole {
        flows: flows(track, line, scan, verbs),
        begins: track.after_boundary && text_start(line) && absorbs(line, scan),
        absorbs: absorbs(line, scan),
        commented: scan.comment is Some,
    }
}

/// What is known behind a line. A line that may not stand in a paragraph is a
/// boundary, and so is one that ends in an opening brace. Inline math does not
/// cross protected or blank lines.
pub open spec fn track_after(
    track: Track,
    line: Seq<char>,
    scan: LineScan,
    verbs: Seq<String>,
) -> Track {
    Track {
        after_boundary: !flows(track, line, scan, verbs) || ends_in(trimmed_end(line), '{'),
        math_depth: math_depth_after(line, scan.pattern, track.math_depth),
        in_display: display_after(line, track.in_display),
        in_inline_math: if protected_line(track, line, scan) || trimmed(line).len() == 0 {
            false
        } else {
            let part = uncommented(line, scan);
            math_at(part, part.len() as int, track.in_inline_math)
        },
    }
}

/// What is known of the place of line `k`.
pub open spec fn track_at(
    lines: Seq<Seq<char>>,
    scans: Seq<LineScan>,
    verbs: Seq<String>,
    k: int,
) -> Track
    decreases k,
{
    if k <= 0 {
        start_track()
    } else {
        track_after(track_at(lines, scans, verbs, k - 1), lines[k - 1], scans[k - 1], verbs)
    }
}

/// The roles of the lines of a document.
pub open spec fn roles(lines: Seq<Seq<char>>, scans: Seq<LineScan>, verbs: Seq<String>) -> Seq<
    LineRole,
> {
    Seq::new(
        lines.len(),
        |k: int| role_of(track_at(lines, scans, verbs, k), lines[k], scans[k], verbs),
    )
}

/// Whether the comment of a line begins within it.
pub open spec fn comment_within(line: Seq<char>, scan: LineScan) -> bool {
    scan.comment matches Some(c) ==> c <= line.len()
}

/// Whether a report is one on a document with these lines: it has an entry for
/// each line, and the comments lie within their lines.
pub open spec fn fits(lines: Seq<Seq<char>>, scans: Seq<LineScan>) -> bool {
    &&& scans.len() == lines.len()
    &&& forall|k: int| 0 <= k < lines.len() ==> comment_within(#[trigger] lines[k], scans[k])
}

impl Track {
    /// The start of a document acts as a paragraph boundary.
    pub fn new() -> (res: Track)
        ensures
            res == start_track(),
    {
        Track { after_boundary: true, math_depth: 0, in_display: false, in_inline_math: false }
    }

    /// Determines the role of the next line and moves behind it.
    pub fn advance(&mut self, line: &[char], scan: &LineScan, verbs: &[String]) -> (role: LineRole)
        requires
            comment_within(line@, *scan),
        ensures
            role == role_of(*old(self), line@, *scan, verbs@),
            *final(self) == track_after(*old(self), line@, *scan, verbs@),
    {
        let in_math = self.math_depth > 0 || self.in_display;
        update_math_depth(line, &scan.pattern, &mut self.math_depth);
        let t = trim(line);
        if starts_with(t, "\\[") && !contains(t, "\\]") {
            self.in_display = true;
        } else if contains(t, "\\]") {
            self.in_display = false;
        }
        let protected = scan.is_fixed() || in_math || opens_math_env(line, &scan.pattern)
            || self.in_display;
        let bare = if protected || t.len() == 0 {
            self.in_inline_math = false;
            false
        } else {
            match scan.comment {
                Some(c) => scan_bare_equals(slice_subrange(line, 0, c), &mut self.in_inline_math),
                None => scan_bare_equals(line, &mut self.in_inline_math),
            }
        };
        let flows = is_reflowable(line, scan, verbs, protected, bare);
        let begins = can_begin_reflow(line, scan, self.after_boundary);
        self.after_boundary = !flows || ends_with(trim_end(line), '{');
        LineRole {
            flows,
            begins,
            absorbs: can_absorb(line, scan),
            commented: scan.comment.is_some(),
        }
    }
}

/// Checks whether a report is one on a document.
pub fn is_scan_of(text: &str, scan: &Scan) -> (res: bool)
    ensures
        res == fits(lines(text@), scan.lines@),
{
    let body = to_chars(text);
    let ls = split_lines(body.as_slice());
    let ghost ll = lines(text@);
    if scan.lines.len() != ls.len() {
        return false;
    }
    let mut k: usize = 0;
    while k < ls.len()
        invariant
            k <= ls@.len(),
            texts(ls@) == ll,
            ll == lines(text@),
            scan.lines@.len() == ls@.len(),
            forall|m: int| 0 <= m < k ==> comment_within(#[trigger] ll[m], scan.lines@[m]),
        decreases ls@.len() - k,
    {
        assert(ls@[k as int]@ == ll[k as int]);
        if let Some(c) = scan.lines[k].comment {
            if c > ls[k].len() {
                assert(!comment_within(ll[k as int], scan.lines@[k as int]));
                return false;
            }
        }
        k += 1;
    }
    true
}

/// Determines the roles of the lines of a document.
pub fn line_roles(ls: &Vec<Vec<char>>, scan: &Scan) -> (res: Vec<LineRole>)
    requires
        fits(texts(ls@), scan.lines@),
    ensures
        res@ == roles(texts(ls@), scan.lines@, scan.verbs@),
{
    let ghost ll = texts(ls@);
    let ghost ss = scan.lines@;
    let ghost vs = scan.verbs@;
    let mut track = Track::new();
    let mut res: Vec<LineRole> = Vec::new();
    let mut k: usize = 0;
    while k < ls.len()
        invariant
            k <= ls@.len(),
            ll == texts(ls@),
            ss == scan.lines@,
            vs == scan.verbs@,
            fits(ll, ss),
            track == track_at(ll, ss, vs, k as int),
            res@.len() == k,
            forall|m: int| 0 <= m < k ==> #[trigger] res@[m] == roles(ll, ss, vs)[m],
        decreases ls@.len() - k,
    {
        let line = ls[k].as_slice();
        assert(line@ == ll[k as int]);
        let role = track.advance(line, &scan.lines[k], scan.verbs.as_slice());
        res.push(role);
        k += 1;
    }
    assert(res@ =~= roles(ll, ss, vs));
    res
}

// ---------------------------------------------------------------------------
// Paragraphs

/// The lines `start..end` of a document: a paragraph, or a single line that is
/// left as it is.
#[derive(Clone, Copy, Debug, PartialEq, Eq)]
pub struct Block {
    pub start: usize,
    pub end: usize,
    pub prose: bool,
}

/// The end of the paragraph that extends up to line `k`. It takes in every
/// line that may stand in a paragraph, up to and with the first one that may
/// not absorb another. With `whole` set it stops short of a line with a
/// comment.
pub open spec fn paragraph_end(roles: Seq<LineRole>, whole: bool, k: int) -> int
    decreases roles.len() - k,
{
    if 0 <= k < roles.len() && roles[k].flows && !(whole && roles[k].commented) {
        if roles[k].absorbs {
            paragraph_end(roles, whole, k + 1)
        } else {
            k + 1
        }
    } else {
        k
    }
}

/// The blocks of a document from line `k` on.
pub open spec fn blocks_from(roles: Seq<LineRole>, whole: bool, k: int) -> Seq<Block>
    decreases roles.len() - k,
{
    if 0 <= k < roles.len() {
        if roles[k].flows && roles[k].begins {
            proof {
                lemma_paragraph_end(roles, whole, k + 1);
            }
            let e = paragraph_end(roles, whole, k + 1);
            seq![Block { start: k as usize, end: e as usize, prose: true }] + blocks_from(
                roles,
                whole,
                e,
            )
        } else {
            seq![Block { start: k as usize, end: (k + 1) as usize, prose: false }] + blocks_from(
                roles,
                whole,
                k + 1,
            )
        }
    } else {
        seq![]
    }
}

/// The blocks of a document.
pub open spec fn blocks(roles: Seq<LineRole>, whole: bool) -> Seq<Block> {
    blocks_from(roles, whole, 0)
}

pub proof fn lemma_paragraph_end(roles: Seq<LineRole>, whole: bool, k: int)
    requires
        0 <= k <= roles.len(),
    ensures
        k <= paragraph_end(roles, whole, k) <= roles.len(),
        forall|m: int|
            k <= m < paragraph_end(roles, whole, k) ==> (#[trigger] roles[m]).flows && !(whole
                && roles[m].commented),
        forall|m: int|
            k <= m < paragraph_end(roles, whole, k) - 1 ==> (#[trigger] roles[m]).absorbs,
    decreases roles.len() - k,
{
    if k < roles.len() && roles[k].flows && !(whole && roles[k].commented) && roles[k].absorbs {
        lemma_paragraph_end(roles, whole, k + 1);
    }
}

/// Whether blocks cover the lines `i..n` in order, without gap or overlap, and
/// each block that is no paragraph is a single line.
pub open spec fn tiles(blocks: Seq<Block>, i: int, n: int) -> bool {
    &&& blocks.len() == 0 ==> i == n
    &&& blocks.len() > 0 ==> blocks[0].start == i && blocks.last().end == n
    &&& forall|b: int|
        0 <= b < blocks.len() ==> (#[trigger] blocks[b]).start < blocks[b].end <= n
    &&& forall|b: int|
        0 <= b < blocks.len() ==> (!(#[trigger] blocks[b]).prose ==> blocks[b].end
            == blocks[b].start + 1)
    &&& forall|b: int, c: int|
        0 <= b && c == b + 1 && c < blocks.len() ==> (#[trigger] blocks[c]).start == (
        #[trigger] blocks[b]).end
}

/// Whether a block fits the roles of its lines. In a paragraph every line may
/// stand, the first may begin it, and all but the last may absorb another;
/// with `whole` set none has a comment. A line that is no paragraph may not
/// stand in one or may not begin one.
pub open spec fn block_fits(roles: Seq<LineRole>, whole: bool, b: Block) -> bool {
    if b.prose {
        &&& roles[b.start as int].begins
        &&& forall|m: int|
            b.start <= m < b.end ==> (#[trigger] roles[m]).flows && (m < b.end - 1
                ==> roles[m].absorbs) && (whole && m > b.start ==> !roles[m].commented)
    } else {
        !(roles[b.start as int].flows && roles[b.start as int].begins)
    }
}

pub proof fn lemma_blocks_from(roles: Seq<LineRole>, whole: bool, k: int)
    requires
        0 <= k <= roles.len() <= usize::MAX,
        forall|m: int|
            0 <= m < roles.len() && (#[trigger] roles[m]).begins ==> roles[m].absorbs,
    ensures
        tiles(blocks_from(roles, whole, k), k, roles.len() as int),
        forall|b: int|
            0 <= b < blocks_from(roles, whole, k).len() ==> block_fits(
                roles,
                whole,
                #[trigger] blocks_from(roles, whole, k)[b],
            ),
    decreases roles.len() - k,
{
    if k < roles.len() {
        let bs = blocks_from(roles, whole, k);
        let e = if roles[k].flows && roles[k].begins {
            paragraph_end(roles, whole, k + 1)
        } else {
            k + 1
        };
        lemma_paragraph_end(roles, whole, k + 1);
        lemma_blocks_from(roles, whole, e);
        let rest = blocks_from(roles, whole, e);
        assert(bs.len() == rest.len() + 1);
        assert forall|b: int| 0 < b < bs.len() implies #[trigger] bs[b] == rest[b - 1] by {}
        assert(rest.len() > 0 ==> bs.last() == rest.last());
    }
}

/// The blocks of a document follow one another and cover all its lines, and
/// every block fits the roles of its lines.
pub proof fn lemma_blocks(
    lines: Seq<Seq<char>>,
    scans: Seq<LineScan>,
    verbs: Seq<String>,
    whole: bool,
)
    requires
        lines.len() <= usize::MAX,
    ensures
        tiles(blocks(roles(lines, scans, verbs), whole), 0, lines.len() as int),
        forall|b: int|
            0 <= b < blocks(roles(lines, scans, verbs), whole).len() ==> block_fits(
                roles(lines, scans, verbs),
                whole,
                #[trigger] blocks(roles(lines, scans, verbs), whole)[b],
            ),
{
    lemma_blocks_from(roles(lines, scans, verbs), whole, 0);
}

/// The blocks of a document end ever further down.
pub proof fn lemma_ends_ascend(bs: Seq<Block>, i: int, n: int, b: int)
    requires
        tiles(bs, i, n),
        0 <= b < bs.len(),
    ensures
        forall|c: int| 0 <= c < b ==> (#[trigger] bs[c]).end <= bs[b].start,
    decreases b,
{
    if b > 0 {
        lemma_ends_ascend(bs, i, n, b - 1);
        assert(bs[b - 1].start < bs[b - 1].end);
        assert(bs[b].start == bs[b - 1].end);
    }
}

/// Without its last block, a tiling covers the lines before that block.
pub proof fn lemma_tiles_drop_last(bs: Seq<Block>, i: int, n: int)
    requires
        tiles(bs, i, n),
        bs.len() > 0,
    ensures
        tiles(bs.drop_last(), i, bs.last().start as int),
{
    let rest = bs.drop_last();
    lemma_ends_ascend(bs, i, n, bs.len() - 1);
    if rest.len() > 0 {
        assert(bs[bs.len() - 1].start == bs[bs.len() - 2].end);
        assert(rest.last() == bs[bs.len() - 2]);
    }
}

/// Whether line `k` is a paragraph boundary: it lies in a region with a fixed
/// layout or in display math, it is blank, it begins with a comment, a display
/// math delimiter or a closing brace, it holds inline verbatim text or a
/// command that stands on a line of its own, or it has an equals sign outside
/// inline math. With `whole` set a line that ends in a comment stands alone
/// too.
pub open spec fn stands_alone(
    lines: Seq<Seq<char>>,
    scans: Seq<LineScan>,
    verbs: Seq<String>,
    whole: bool,
    k: int,
) -> bool {
    let track = track_at(lines, scans, verbs, k);
    ||| protected_line(track, lines[k], scans[k])
    ||| trimmed(lines[k]).len() == 0
    ||| begins_with(trimmed(lines[k]), "%"@)
    ||| boundary_start(trimmed(lines[k]))
    ||| scans[k].pattern.contains_verb && holds_verb(lines[k], verbs)
    ||| scans[k].splitting
    ||| bare_equals(uncommented(lines[k], scans[k]), track.in_inline_math)
    ||| whole && scans[k].comment is Some
}

/// A line that stands alone is a block of its own.
pub proof fn lemma_boundaries_stand_alone(
    lines: Seq<Seq<char>>,
    scans: Seq<LineScan>,
    verbs: Seq<String>,
    whole: bool,
    k: int,
    b: int,
)
    requires
        lines.len() <= usize::MAX,
        0 <= k < lines.len(),
        0 <= b < blocks(roles(lines, scans, verbs), whole).len(),
        blocks(roles(lines, scans, verbs), whole)[b].start <= k < blocks(
            roles(lines, scans, verbs),
            whole,
        )[b].end,
        stands_alone(lines, scans, verbs, whole, k),
    ensures
        !blocks(roles(lines, scans, verbs), whole)[b].prose,
        blocks(roles(lines, scans, verbs), whole)[b].start == k,
        blocks(roles(lines, scans, verbs), whole)[b].end == k + 1,
{
    lemma_blocks(lines, scans, verbs, whole);
    let rs = roles(lines, scans, verbs);
    let bs = blocks(rs, whole);
    assert(block_fits(rs, whole, bs[b]));
    assert(!rs[k].flows || whole && rs[k].commented && !rs[k].begins);
}

/// Finds the end of the paragraph that extends up to line `start`.
fn find_paragraph_end(rs: &[LineRole], whole: bool, start: usize) -> (res: usize)
    requires
        start <= rs@.len(),
    ensures
        res == paragraph_end(rs@, whole, start as int),
        start <= res <= rs@.len(),
{
    let mut k: usize = start;
    while k < rs.len() && rs[k].flows && !(whole && rs[k].commented)
        invariant
            start <= k <= rs@.len(),
            paragraph_end(rs@, whole, start as int) == paragraph_end(rs@, whole, k as int),
        decreases rs@.len() - k,
    {
        if !rs[k].absorbs {
            return k + 1;
        }
        k += 1;
    }
    k
}

/// Groups lines into paragraphs and single lines.
pub fn group(rs: &[LineRole], whole: bool) -> (res: Vec<Block>)
    ensures
        res@ == blocks(rs@, whole),
{
    let mut res: Vec<Block> = Vec::new();
    let mut k: usize = 0;
    assert(res@ + blocks_from(rs@, whole, 0) =~= blocks(rs@, whole));
    while k < rs.len()
        invariant
            k <= rs@.len(),
            res@ + blocks_from(rs@, whole, k as int) == blocks(rs@, whole),
        decreases rs@.len() - k,
    {
        let ghost before = res@;
        let ghost k0 = k as int;
        let prose = rs[k].flows && rs[k].begins;
        let end: usize = if prose {
            find_paragraph_end(rs, whole, k + 1)
        } else {
            k + 1
        };
        let block = Block { start: k, end, prose };
        res.push(block);
        k = end;
        proof {
            assert(blocks_from(rs@, whole, k0) == seq![block] + blocks_from(rs@, whole, k as int));
            assert(before + (seq![block] + blocks_from(rs@, whole, k as int)) =~= before.push(block)
                + blocks_from(rs@, whole, k as int));
        }
    }
    assert(blocks_from(rs@, whole, k as int) =~= seq![]);
    assert(res@ =~= blocks(rs@, whole));
    res
}

} // verus!
