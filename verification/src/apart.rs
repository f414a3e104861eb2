//! A blank line parts a document: what stands before it and what stands behind
//! it are joined on their own.

use vstd::prelude::*;

use crate::join::{chain, joined, joined_text};
use crate::paragraphs::{
    blocks, blocks_from, lemma_blocks, lemma_paragraph_end, lemma_tiles_drop_last, paragraph_end,
    role_of, roles, start_track, tiles, track_at, Block, LineRole,
};
use crate::pieces::{lemma_lines_add, lemma_one_line, one_line};
use crate::prose::math_depth_at;
use crate::scan::LineScan;
use crate::text::{
    holds, lemma_line_count, lemma_line_is_one, lemma_span, lemma_spans, lemma_trimmed, line_body,
    line_spans, line_stop, lines, occurs_at, spans_from, trimmed,
};

verus! {

// ---------------------------------------------------------------------------
// Lines

proof fn lemma_stop_at_end(p: Seq<char>, i: int)
    requires
        !p.contains('\n'),
        0 <= i <= p.len(),
    ensures
        line_stop(p, i) == p.len(),
    decreases p.len() - i,
{
    if i < p.len() {
        assert(p.contains(p[i]));
        lemma_stop_at_end(p, i + 1);
    }
}

/// A text without line feeds is one line.
proof fn lemma_only_line(p: Seq<char>)
    requires
        p.len() > 0,
        !p.contains('\n'),
    ensures
        lines(p) == seq![p],
{
    let n = p.len() as int;
    lemma_stop_at_end(p, 0);
    assert(spans_from(p, n) =~= seq![]);
    assert(line_spans(p) =~= seq![(0int, n)]);
    assert(p.subrange(0, n) =~= p);
    assert(p.contains(p[n - 1]));
    assert(lines(p) =~= seq![p]);
}

/// A line feed behind a text that ends in none adds no line.
proof fn lemma_closed_line(a: Seq<char>)
    requires
        a.len() > 0,
        a.last() != '\n',
        a.last() != '\r',
    ensures
        lines(a + seq!['\n']) == lines(a),
{
    lemma_spans(a, 0);
    let n = line_spans(a).len() as int;
    lemma_span(a, n - 1);
    let x = line_spans(a)[n - 1].0;
    let h = a.subrange(0, x);
    let p = a.subrange(x, a.len() as int);
    if n > 1 {
        lemma_span(a, n - 2);
        assert(h.last() == a[x - 1]);
    }
    lemma_line_is_one(a, n - 1);
    assert(p.last() == a.last());
    assert(line_body(p) == p);
    assert(lines(a)[n - 1] == p);
    assert(h + p =~= a);
    assert(h + (p + seq!['\n']) =~= a + seq!['\n']);
    lemma_lines_add(h, p);
    lemma_lines_add(h, p + seq!['\n']);
    lemma_only_line(p);
    lemma_one_line(p);
}

/// The lines of two texts with a blank line between them.
proof fn lemma_parted_lines(a: Seq<char>, b: Seq<char>)
    requires
        a.len() > 0,
        a.last() != '\n',
        a.last() != '\r',
    ensures
        lines(a + seq!['\n', '\n'] + b) == lines(a) + seq![Seq::<char>::empty()] + lines(b),
{
    let e = Seq::<char>::empty();
    let f = seq!['\n'];
    lemma_closed_line(a);
    assert(one_line(e));
    lemma_one_line(e);
    assert(e + f =~= f);
    lemma_lines_add(a + f, f);
    lemma_lines_add(a + f + f, b);
    assert(a + seq!['\n', '\n'] + b =~= a + f + f + b);
    assert(lines(a) + seq![e] + lines(b) =~= lines(a + f) + lines(f) + lines(b));
}

// ---------------------------------------------------------------------------
// Blocks

proof fn lemma_end_in_front(rs: Seq<LineRole>, whole: bool, m: int, k: int)
    requires
        0 <= k <= m < rs.len(),
        !rs[m].flows,
    ensures
        paragraph_end(rs, whole, k) == paragraph_end(rs.take(m), whole, k),
    decreases m - k,
{
    if k < m {
        assert(rs.take(m)[k] == rs[k]);
        lemma_end_in_front(rs, whole, m, k + 1);
    }
}

/// A line that may stand in no paragraph parts the blocks.
proof fn lemma_blocks_part(rs: Seq<LineRole>, whole: bool, m: int, k: int)
    requires
        0 <= k <= m < rs.len(),
        !rs[m].flows,
    ensures
        blocks_from(rs, whole, k) == blocks_from(rs.take(m), whole, k) + blocks_from(rs, whole, m),
    decreases m - k,
{
    let tail = blocks_from(rs, whole, m);
    let front = rs.take(m);
    if k < m {
        assert(front[k] == rs[k]);
        lemma_end_in_front(rs, whole, m, k + 1);
        lemma_paragraph_end(front, whole, k + 1);
        let e = if rs[k].flows && rs[k].begins {
            paragraph_end(front, whole, k + 1)
        } else {
            k + 1
        };
        let b = Block {
            start: k as usize,
            end: e as usize,
            prose: rs[k].flows && rs[k].begins,
        };
        lemma_blocks_part(rs, whole, m, e);
        assert(blocks_from(rs, whole, k) == seq![b] + blocks_from(rs, whole, e));
        assert(blocks_from(front, whole, k) == seq![b] + blocks_from(front, whole, e));
        assert(seq![b] + (blocks_from(front, whole, e) + tail) =~= seq![b] + blocks_from(
            front,
            whole,
            e,
        ) + tail);
    } else {
        assert(blocks_from(front, whole, k) + tail =~= tail);
    }
}

/// Blocks, further down.
spec fn moved(bs: Seq<Block>, d: int) -> Seq<Block> {
    Seq::new(
        bs.len(),
        |i: int|
            Block {
                start: (bs[i].start + d) as usize,
                end: (bs[i].end + d) as usize,
                prose: bs[i].prose,
            },
    )
}

proof fn lemma_end_behind(rs: Seq<LineRole>, whole: bool, d: int, k: int)
    requires
        0 <= d <= rs.len(),
        0 <= k <= rs.len() - d,
    ensures
        paragraph_end(rs, whole, d + k) == d + paragraph_end(rs.skip(d), whole, k),
    decreases rs.len() - d - k,
{
    if k < rs.len() - d {
        assert(rs.skip(d)[k] == rs[d + k]);
        lemma_end_behind(rs, whole, d, k + 1);
    }
}

proof fn lemma_blocks_behind(rs: Seq<LineRole>, whole: bool, d: int, k: int)
    requires
        0 <= d <= rs.len() <= usize::MAX,
        0 <= k <= rs.len() - d,
    ensures
        blocks_from(rs, whole, d + k) == moved(blocks_from(rs.skip(d), whole, k), d),
    decreases rs.len() - d - k,
{
    let back = rs.skip(d);
    if k < back.len() {
        assert(back[k] == rs[d + k]);
        lemma_end_behind(rs, whole, d, k + 1);
        lemma_paragraph_end(back, whole, k + 1);
        let e = if back[k].flows && back[k].begins {
            paragraph_end(back, whole, k + 1)
        } else {
            k + 1
        };
        lemma_blocks_behind(rs, whole, d, e);
        assert(blocks_from(rs, whole, d + k) =~= moved(blocks_from(back, whole, k), d));
    } else {
        assert(blocks_from(rs, whole, d + k) =~= moved(blocks_from(back, whole, k), d));
    }
}

// ---------------------------------------------------------------------------
// Joining

proof fn lemma_joined_add(
    ls: Seq<Seq<char>>,
    a: Seq<Block>,
    b: Seq<Block>,
    line_end: Seq<char>,
)
    ensures
        joined(ls, a + b, line_end) == joined(ls, a, line_end) + joined(ls, b, line_end),
    decreases b.len(),
{
    if b.len() == 0 {
        assert(a + b =~= a);
        assert(joined(ls, a, line_end) + joined(ls, b, line_end) =~= joined(ls, a, line_end));
    } else {
        lemma_joined_add(ls, a, b.drop_last(), line_end);
        assert((a + b).drop_last() =~= a + b.drop_last());
        let c = chain(ls, b.last().start as int, b.last().end as int);
        let x = joined(ls, a, line_end);
        let y = joined(ls, b.drop_last(), line_end);
        assert(x + y + c + line_end =~= x + (y + c + line_end));
    }
}

/// Joined lines are found where they stand.
pub proof fn lemma_chain_moved(ls: Seq<Seq<char>>, ks: Seq<Seq<char>>, d: int, start: int, end: int)
    requires
        0 <= start < end <= ks.len(),
        forall|k: int| start <= k < end ==> ls[k + d] == #[trigger] ks[k],
    ensures
        chain(ls, start + d, end + d) == chain(ks, start, end),
    decreases end - start,
{
    if end > start + 1 {
        lemma_chain_moved(ls, ks, d, start, end - 1);
        assert(ls[end - 1 + d] == ks[end - 1]);
    } else {
        assert(ls[start + d] == ks[start]);
    }
}

proof fn lemma_joined_moved(
    ls: Seq<Seq<char>>,
    ks: Seq<Seq<char>>,
    d: int,
    bs: Seq<Block>,
    n: int,
    line_end: Seq<char>,
)
    requires
        0 <= d,
        d + ks.len() <= ls.len() <= usize::MAX,
        tiles(bs, 0, n),
        n <= ks.len(),
        forall|k: int| 0 <= k < ks.len() ==> ls[k + d] == #[trigger] ks[k],
    ensures
        joined(ls, moved(bs, d), line_end) == joined(ks, bs, line_end),
    decreases bs.len(),
{
    if bs.len() > 0 {
        let b = bs.last();
        assert(bs[bs.len() - 1].start < bs[bs.len() - 1].end <= n);
        lemma_tiles_drop_last(bs, 0, n);
        lemma_joined_moved(ls, ks, d, bs.drop_last(), b.start as int, line_end);
        assert(moved(bs, d).drop_last() =~= moved(bs.drop_last(), d));
        lemma_chain_moved(ls, ks, d, b.start as int, b.end as int);
    }
}

// ---------------------------------------------------------------------------
// Roles

proof fn lemma_track_in_front(
    a: Seq<Seq<char>>,
    rest: Seq<Seq<char>>,
    sa: Seq<LineScan>,
    sr: Seq<LineScan>,
    verbs: Seq<String>,
    k: int,
)
    requires
        a.len() == sa.len(),
        0 <= k <= a.len(),
    ensures
        track_at(a + rest, sa + sr, verbs, k) == track_at(a, sa, verbs, k),
    decreases k,
{
    if k > 0 {
        lemma_track_in_front(a, rest, sa, sr, verbs, k - 1);
        assert((a + rest)[k - 1] == a[k - 1]);
        assert((sa + sr)[k - 1] == sa[k - 1]);
    }
}

proof fn lemma_track_behind(
    a: Seq<Seq<char>>,
    rest: Seq<Seq<char>>,
    sa: Seq<LineScan>,
    sr: Seq<LineScan>,
    verbs: Seq<String>,
    k: int,
)
    requires
        a.len() == sa.len(),
        rest.len() == sr.len(),
        0 <= k <= rest.len(),
        track_at(a + rest, sa + sr, verbs, a.len() as int) == start_track(),
    ensures
        track_at(a + rest, sa + sr, verbs, a.len() + k) == track_at(rest, sr, verbs, k),
    decreases k,
{
    let n = a.len() as int;
    if k > 0 {
        lemma_track_behind(a, rest, sa, sr, verbs, k - 1);
        assert((a + rest)[n + k - 1] == rest[k - 1]);
        assert((sa + sr)[n + k - 1] == sr[k - 1]);
    }
}

/// A blank line leaves nothing open but display math.
proof fn lemma_blank_track(
    ls: Seq<Seq<char>>,
    scans: Seq<LineScan>,
    verbs: Seq<String>,
    m: int,
)
    requires
        0 <= m < ls.len(),
        ls[m] == Seq::<char>::empty(),
        track_at(ls, scans, verbs, m).math_depth == 0,
        !track_at(ls, scans, verbs, m).in_display,
    ensures
        !role_of(track_at(ls, scans, verbs, m), ls[m], scans[m], verbs).flows,
        track_at(ls, scans, verbs, m + 1) == start_track(),
{
    let e = ls[m];
    lemma_trimmed(e);
    let t = trimmed(e);
    assert(t =~= seq![]);
    reveal_strlit("\\[");
    reveal_strlit("\\]");
    if holds(t, "\\]"@) {
        let i = choose|i: int| occurs_at(t, "\\]"@, i);
        assert(i + 2 <= t.len());
    }
    assert(math_depth_at(e, scans[m].pattern, 0, 0) == 0);
}

/// A blank line parts a document whose first part leaves no display math open:
/// joining the whole is joining the two parts. The report on the whole is taken
/// to be those on the parts, with one for the blank line between them.
#[verifier::rlimit(20)]
pub proof fn law_blank_lines_part_documents(
    a: Seq<char>,
    b: Seq<char>,
    sa: Seq<LineScan>,
    blank_scan: LineScan,
    sb: Seq<LineScan>,
    verbs: Seq<String>,
    line_end: Seq<char>,
)
    requires
        a.len() + 2 + b.len() <= usize::MAX,
        a.len() > 0,
        a.last() != '\n',
        a.last() != '\r',
        sa.len() == lines(a).len(),
        sb.len() == lines(b).len(),
        track_at(lines(a), sa, verbs, lines(a).len() as int).math_depth == 0,
        !track_at(lines(a), sa, verbs, lines(a).len() as int).in_display,
    ensures
        joined_text(a + seq!['\n', '\n'] + b, sa + seq![blank_scan] + sb, verbs, line_end)
            == joined_text(a, sa, verbs, line_end) + line_end + joined_text(
            b,
            sb,
            verbs,
            line_end,
        ),
{
    let text = a + seq!['\n', '\n'] + b;
    let (la, lb) = (lines(a), lines(b));
    let ls = lines(text);
    let ss = sa + seq![blank_scan] + sb;
    let m = la.len() as int;
    let e = Seq::<char>::empty();
    let rs = roles(ls, ss, verbs);
    let bs = blocks(rs, false);
    let (ra, rb) = (roles(la, sa, verbs), roles(lb, sb, verbs));
    lemma_parted_lines(a, b);
    lemma_line_count(text, 0);
    lemma_line_count(a, 0);
    lemma_line_count(b, 0);
    let front = la + seq![e];
    let sfront = sa + seq![blank_scan];
    assert(ls =~= front + lb);
    assert(ls =~= la + (seq![e] + lb));
    assert(ss =~= sa + (seq![blank_scan] + sb));
    lemma_track_in_front(la, seq![e] + lb, sa, seq![blank_scan] + sb, verbs, m);
    lemma_blank_track(ls, ss, verbs, m);
    assert(rs.take(m) =~= ra) by {
        assert forall|k: int| 0 <= k < m implies #[trigger] rs.take(m)[k] == ra[k] by {
            lemma_track_in_front(la, seq![e] + lb, sa, seq![blank_scan] + sb, verbs, k);
            assert(ls[k] == la[k]);
            assert(ss[k] == sa[k]);
        }
    }
    assert(rs.skip(m + 1) =~= rb) by {
        assert forall|k: int| 0 <= k < rb.len() implies #[trigger] rs.skip(m + 1)[k] == rb[k] by {
            lemma_track_behind(front, lb, sfront, sb, verbs, k);
            assert(ls[m + 1 + k] == lb[k]);
            assert(ss[m + 1 + k] == sb[k]);
        }
    }
    lemma_blocks_part(rs, false, m, 0);
    lemma_blocks_behind(rs, false, m + 1, 0);
    let (ba, bb) = (blocks(ra, false), blocks(rb, false));
    let mid = Block { start: m as usize, end: (m + 1) as usize, prose: false };
    assert(blocks_from(rs, false, m) == seq![mid] + blocks_from(rs, false, m + 1));
    assert(bs == ba + (seq![mid] + moved(bb, m + 1)));
    lemma_joined_add(ls, ba, seq![mid] + moved(bb, m + 1), line_end);
    lemma_joined_add(ls, seq![mid], moved(bb, m + 1), line_end);
    lemma_blocks(la, sa, verbs, false);
    lemma_blocks(lb, sb, verbs, false);
    lemma_joined_moved(ls, lb, m + 1, bb, lb.len() as int, line_end);
    lemma_joined_moved(ls, la, 0, ba, m, line_end);
    assert(moved(ba, 0) =~= ba);
    assert(joined(ls, seq![mid], line_end) =~= line_end) by {
        assert(seq![mid].drop_last() =~= seq![]);
        assert(joined(ls, Seq::<Block>::empty(), line_end) =~= e);
        assert(chain(ls, m, m + 1) == e);
        assert(e + e + line_end =~= line_end);
    }
    let (ja, jb) = (joined(la, ba, line_end), joined(lb, bb, line_end));
    assert(ja + (line_end + jb) =~= ja + line_end + jb);
}

} // verus!
