//! How the passes act on documents, block by block and line by line.

use vstd::prelude::*;

use crate::chars::white;
use crate::config::{Args, ReflowMode};
use crate::join::{chain, joined, joined_text};
use crate::laws::lemma_line_group_ends;
use crate::minimal::paragraph_text;
use crate::paragraphs::{
    block_fits, comment_within, fits, lemma_blocks, lemma_tiles_drop_last, roles, tiles, Block,
};
use crate::pieces::{
    ends_line, glued, has_tail, lemma_line_ends, lemma_lines_add, lemma_lines_ended,
    lemma_some_line, one_line,
};
use crate::reflow::{blocks_for, reflowed_blocks, reflowed_text};
use crate::scan::{LineScan, Scan};
use crate::semantic::{line_group, semantic};
use crate::text::{
    blank, ends_in, first_ink, flat, ink_end, lemma_first_ink, lemma_ink_end, lemma_line_count,
    lemma_line_is_one, lemma_span, lemma_trimmed, lemma_trimmed_unique, lines, trimmed, trimmed_end,
    trimmed_start,
};
use crate::words::{lemma_group_words, lemma_words_line, lemma_words_of_ink, words};

verus! {

// ---------------------------------------------------------------------------
// Blocks as lines

/// The line that joining makes of each block.
pub open spec fn joined_parts(ls: Seq<Seq<char>>, bs: Seq<Block>) -> Seq<Seq<char>> {
    Seq::new(bs.len(), |i: int| chain(ls, bs[i].start as int, bs[i].end as int))
}

/// The line that canonical reflow makes of each block.
pub open spec fn canonical_parts(ls: Seq<Seq<char>>, bs: Seq<Block>) -> Seq<Seq<char>> {
    Seq::new(
        bs.len(),
        |i: int|
            if bs[i].prose {
                paragraph_text(
                    ls.subrange(bs[i].start as int, bs[i].end as int),
                    bs[i].end - bs[i].start,
                )
            } else {
                ls[bs[i].start as int]
            },
    )
}

pub proof fn lemma_joined_glued(ls: Seq<Seq<char>>, bs: Seq<Block>, line_end: Seq<char>)
    ensures
        joined(ls, bs, line_end) == glued(joined_parts(ls, bs), line_end),
    decreases bs.len(),
{
    let parts = joined_parts(ls, bs);
    if bs.len() > 0 {
        let head = bs.drop_last();
        lemma_joined_glued(ls, head, line_end);
        assert(parts.drop_last() =~= joined_parts(ls, head));
        let g = glued(joined_parts(ls, head), line_end);
        assert(g + parts.last() + line_end =~= g + (parts.last() + line_end));
    }
}

pub proof fn lemma_canonical_glued(
    ls: Seq<Seq<char>>,
    scans: Seq<LineScan>,
    comments: Seq<Option<usize>>,
    args: Args,
    line_end: Seq<char>,
    bs: Seq<Block>,
    n: int,
)
    requires
        args.reflow == ReflowMode::Canonical,
        tiles(bs, 0, n),
        n <= ls.len(),
    ensures
        reflowed_blocks(ls, scans, comments, args, line_end, bs) == glued(
            canonical_parts(ls, bs),
            line_end,
        ),
    decreases bs.len(),
{
    let parts = canonical_parts(ls, bs);
    if bs.len() > 0 {
        let head = bs.drop_last();
        let b = bs.last();
        assert(bs[bs.len() - 1].start < bs[bs.len() - 1].end);
        lemma_tiles_drop_last(bs, 0, n);
        lemma_canonical_glued(ls, scans, comments, args, line_end, head, b.start as int);
        assert(parts.drop_last() =~= canonical_parts(ls, head));
        assert(ls.subrange(b.start as int, b.end as int).len() == b.end - b.start);
    }
}

/// What canonical reflow makes of a document depends only on the lines that
/// stand alone and on the joined texts of the paragraphs, not on where these are
/// broken.
pub proof fn law_canonical_depends_on_joined_texts(
    a: Seq<char>,
    b: Seq<char>,
    args: Args,
    scan_a: Scan,
    scan_b: Scan,
    line_end: Seq<char>,
)
    requires
        a.len() <= usize::MAX,
        b.len() <= usize::MAX,
        args.reflow == ReflowMode::Canonical,
        canonical_parts(lines(a), blocks_for(lines(a), scan_a, args.reflow)) == canonical_parts(
            lines(b),
            blocks_for(lines(b), scan_b, args.reflow),
        ),
    ensures
        reflowed_text(a, args, scan_a, line_end) == reflowed_text(b, args, scan_b, line_end),
{
    lemma_document_glued(a, args, scan_a, line_end);
    lemma_document_glued(b, args, scan_b, line_end);
}

proof fn lemma_document_glued(text: Seq<char>, args: Args, scan: Scan, line_end: Seq<char>)
    requires
        text.len() <= usize::MAX,
        args.reflow == ReflowMode::Canonical,
    ensures
        reflowed_text(text, args, scan, line_end) == glued(
            canonical_parts(lines(text), blocks_for(lines(text), scan, args.reflow)),
            line_end,
        ),
{
    let ls = lines(text);
    let bs = blocks_for(ls, scan, args.reflow);
    lemma_line_count(text, 0);
    lemma_blocks(ls, scan.lines@, scan.verbs@, false);
    lemma_canonical_glued(
        ls,
        scan.lines@,
        scan.joined_comments@,
        args,
        line_end,
        bs,
        ls.len() as int,
    );
}

/// The joined lines hold no characters but those of the lines, and spaces.
pub proof fn lemma_chain_chars(ls: Seq<Seq<char>>, start: int, end: int, c: char)
    requires
        0 <= start < end <= ls.len(),
        c != ' ',
        forall|k: int| start <= k < end ==> !(#[trigger] ls[k]).contains(c),
    ensures
        !chain(ls, start, end).contains(c),
    decreases end - start,
{
    if end > start + 1 {
        lemma_chain_chars(ls, start, end - 1, c);
        let head = chain(ls, start, end - 1);
        let tail = ls[end - 1];
        lemma_ink_end(head, 0, head.len() as int);
        lemma_first_ink(tail, 0);
        let s = chain(ls, start, end);
        let h = trimmed_end(head).len() as int;
        assert forall|m: int| 0 <= m < s.len() implies #[trigger] s[m] != c by {
            if m < h {
                assert(s[m] == head[m]);
            } else if m > h {
                assert(s[m] == tail[first_ink(tail, 0) + m - h - 1]);
            }
        }
    }
}

pub proof fn lemma_text_chars(ls: Seq<Seq<char>>, n: int, c: char)
    requires
        0 <= n <= ls.len(),
        c != ' ',
        forall|k: int| 0 <= k < n ==> !(#[trigger] ls[k]).contains(c),
    ensures
        !paragraph_text(ls, n).contains(c),
    decreases n,
{
    if n > 0 {
        let line = ls[n - 1];
        lemma_trimmed(line);
        let t = trimmed(line);
        assert forall|m: int| 0 <= m < t.len() implies #[trigger] t[m] != c by {
            assert(t[m] == line[first_ink(line, 0) + m]);
        }
        if n > 1 {
            lemma_text_chars(ls, n - 1, c);
            let head = paragraph_text(ls, n - 1);
            let s = paragraph_text(ls, n);
            assert forall|m: int| 0 <= m < s.len() implies #[trigger] s[m] != c by {
                if m < head.len() {
                    assert(s[m] == head[m]);
                } else if m > head.len() {
                    assert(s[m] == t[m - head.len() - 1]);
                }
            }
        }
    }
}

/// Two lines with ink, joined and trimmed.
proof fn lemma_trimmed_join(x: Seq<char>, y: Seq<char>)
    requires
        trimmed(x).len() > 0,
        trimmed(y).len() > 0,
    ensures
        trimmed(trimmed_end(x) + seq![' '] + trimmed_start(y)) == trimmed(x) + seq![' ']
            + trimmed(y),
{
    lemma_trimmed(x);
    lemma_trimmed(y);
    let a = first_ink(x, 0);
    let b = ink_end(x, a, x.len() as int);
    let c = first_ink(y, 0);
    let d = ink_end(y, c, y.len() as int);
    lemma_ink_end(x, 0, x.len() as int);
    let l = ink_end(x, 0, x.len() as int);
    assert(l == b);
    let s = trimmed_end(x) + seq![' '] + trimmed_start(y);
    let e = l + 1 + (d - c);
    assert(s[a] == x[a]);
    assert(s[e - 1] == y[d - 1]);
    let front = s.subrange(0, a);
    assert forall|i: int| 0 <= i < front.len() implies white(#[trigger] front[i]) by {
        assert(front[i] == x[i]);
    }
    let back = s.subrange(e, s.len() as int);
    assert forall|i: int| 0 <= i < back.len() implies white(#[trigger] back[i]) by {
        assert(back[i] == y[d + i]);
    }
    lemma_trimmed_unique(s, a, e);
    assert(s.subrange(a, e) =~= trimmed(x) + seq![' '] + trimmed(y));
}

/// The joined lines of a paragraph, trimmed, are its text.
proof fn lemma_trimmed_chain(ls: Seq<Seq<char>>, start: int, end: int, k: int)
    requires
        0 <= start < start + k <= end <= ls.len(),
        forall|m: int| start <= m < end ==> trimmed(#[trigger] ls[m]).len() > 0,
    ensures
        trimmed(chain(ls, start, start + k)) == paragraph_text(ls.subrange(start, end), k),
        trimmed(chain(ls, start, start + k)).len() > 0,
    decreases k,
{
    let sub = ls.subrange(start, end);
    assert(sub[k - 1] == ls[start + k - 1]);
    if k > 1 {
        lemma_trimmed_chain(ls, start, end, k - 1);
        lemma_trimmed_join(chain(ls, start, start + k - 1), ls[start + k - 1]);
    } else {
        assert(sub[0] == ls[start]);
    }
}

/// What joining and canonical reflow make of a document has one line for each
/// block, and these agree up to the whitespace around them.
pub proof fn law_canonical_lines_are_joined_lines(
    text: Seq<char>,
    args: Args,
    scan: Scan,
    line_end: Seq<char>,
)
    requires
        text.len() <= usize::MAX,
        args.reflow == ReflowMode::Canonical,
        ends_line(line_end),
    ensures
        ({
            let c = lines(reflowed_text(text, args, scan, line_end));
            let j = lines(joined_text(text, scan.lines@, scan.verbs@, line_end));
            &&& c.len() == j.len()
            &&& forall|k: int| 0 <= k < c.len() ==> trimmed(#[trigger] c[k]) == trimmed(j[k])
        }),
{
    let ls = lines(text);
    let n = ls.len() as int;
    let rs = roles(ls, scan.lines@, scan.verbs@);
    let bs = blocks_for(ls, scan, args.reflow);
    let cp = canonical_parts(ls, bs);
    let jp = joined_parts(ls, bs);
    lemma_line_count(text, 0);
    lemma_blocks(ls, scan.lines@, scan.verbs@, false);
    lemma_joined_glued(ls, bs, line_end);
    lemma_canonical_glued(ls, scan.lines@, scan.joined_comments@, args, line_end, bs, n);
    assert forall|i: int| 0 <= i < bs.len() implies !(#[trigger] cp[i]).contains('\n')
        && !jp[i].contains('\n') && trimmed(cp[i]) == trimmed(jp[i]) by {
        let (s, e) = (bs[i].start as int, bs[i].end as int);
        assert(bs[i].start < bs[i].end <= n);
        assert(block_fits(rs, false, bs[i]));
        assert forall|k: int| s <= k < e implies !(#[trigger] ls[k]).contains('\n') by {
            lemma_line_is_one(text, k);
        }
        lemma_chain_chars(ls, s, e, '\n');
        assert(!ls[s].contains('\n'));
        if bs[i].prose {
            let sub = ls.subrange(s, e);
            assert forall|m: int| s <= m < e implies trimmed(#[trigger] ls[m]).len() > 0 by {
                assert(rs[m].flows);
            }
            assert forall|k: int| 0 <= k < e - s implies !(#[trigger] sub[k]).contains('\n') by {
                assert(sub[k] == ls[s + k]);
            }
            lemma_text_chars(sub, e - s, '\n');
            lemma_trimmed_chain(ls, s, e, e - s);
            lemma_trimmed_twice(chain(ls, s, e));
        }
    }
    assert forall|i: int| 0 <= i < jp.len() implies !(#[trigger] jp[i]).contains('\n') by {
        assert(!cp[i].contains('\n'));
    }
    lemma_lines_ended(cp, line_end);
    lemma_lines_ended(jp, line_end);
    let c = lines(glued(cp, line_end));
    let j = lines(glued(jp, line_end));
    assert forall|k: int| 0 <= k < c.len() implies trimmed(#[trigger] c[k]) == trimmed(j[k]) by {
        assert(!cp[k].contains('\n'));
        assert(trimmed(j[k]) == trimmed(jp[k]));
    }
}

pub proof fn lemma_one_line_parts(ls: Seq<Seq<char>>, s: int, e: int)
    requires
        0 <= s < e <= ls.len(),
        forall|k: int|
            s <= k < e ==> !(#[trigger] ls[k]).contains('\r') && !ls[k].contains('\n'),
    ensures
        one_line(chain(ls, s, e)),
        !chain(ls, s, e).contains('\r'),
        one_line(paragraph_text(ls.subrange(s, e), e - s)),
        one_line(ls[s]),
{
    let sub = ls.subrange(s, e);
    assert forall|k: int| 0 <= k < e - s implies !(#[trigger] sub[k]).contains('\r')
        && !sub[k].contains('\n') by {
        assert(sub[k] == ls[s + k]);
    }
    lemma_chain_chars(ls, s, e, '\r');
    lemma_chain_chars(ls, s, e, '\n');
    lemma_text_chars(sub, e - s, '\r');
    lemma_text_chars(sub, e - s, '\n');
    lemma_no_such_end(chain(ls, s, e), '\r');
    lemma_no_such_end(paragraph_text(sub, e - s), '\r');
    assert(!ls[s].contains('\r'));
    lemma_no_such_end(ls[s], '\r');
}

proof fn lemma_no_such_end(s: Seq<char>, c: char)
    requires
        !s.contains(c),
    ensures
        !ends_in(s, c),
{
    if s.len() > 0 {
        assert(s.contains(s[s.len() - 1]));
    }
}

/// Trimming twice is trimming once.
pub proof fn lemma_trimmed_twice(s: Seq<char>)
    ensures
        trimmed(trimmed(s)) == trimmed(s),
{
    lemma_trimmed(s);
    let t = trimmed(s);
    if t.len() > 0 {
        assert(blank(t.subrange(0, 0)));
        assert(blank(t.subrange(t.len() as int, t.len() as int)));
        lemma_trimmed_unique(t, 0, t.len() as int);
        assert(t.subrange(0, t.len() as int) =~= t);
    } else {
        lemma_trimmed(t);
        assert(trimmed(t) =~= t);
    }
}

// ---------------------------------------------------------------------------
// Semantic reflow, line by line

/// What each line of some blocks becomes in semantic mode.
pub open spec fn groups(
    ls: Seq<Seq<char>>,
    scans: Seq<LineScan>,
    wraplen: usize,
    line_end: Seq<char>,
    bs: Seq<Block>,
) -> Seq<Seq<char>>
    decreases bs.len(),
{
    if bs.len() == 0 {
        seq![]
    } else {
        let b = bs.last();
        let (s, e) = (b.start as int, b.end as int);
        groups(ls, scans, wraplen, line_end, bs.drop_last()) + (if b.prose {
            Seq::new(
                (e - s) as nat,
                |k: int| line_group(ls.subrange(s, e), scans.subrange(s, e), wraplen, line_end, k),
            )
        } else {
            seq![ls[s] + line_end]
        })
    }
}

proof fn lemma_flat_add(a: Seq<Seq<char>>, b: Seq<Seq<char>>, k: int)
    requires
        0 <= k <= b.len(),
    ensures
        flat(a + b, 0, a.len() + k) == flat(a, 0, a.len() as int) + flat(b, 0, k),
    decreases k,
{
    let n = a.len() as int;
    if k > 0 {
        lemma_flat_add(a, b, k - 1);
        assert((a + b)[n + k - 1] == b[k - 1]);
        assert(flat(a, 0, n) + flat(b, 0, k - 1) + b[k - 1] =~= flat(a, 0, n) + (flat(b, 0, k - 1)
            + b[k - 1]));
    } else {
        lemma_flat_front(a, b, n);
        assert(flat(a, 0, n) + flat(b, 0, 0) =~= flat(a, 0, n));
    }
}

proof fn lemma_flat_front(a: Seq<Seq<char>>, b: Seq<Seq<char>>, k: int)
    requires
        0 <= k <= a.len(),
    ensures
        flat(a + b, 0, k) == flat(a, 0, k),
    decreases k,
{
    if k > 0 {
        lemma_flat_front(a, b, k - 1);
        assert((a + b)[k - 1] == a[k - 1]);
    }
}

proof fn lemma_flat_groups(
    ls: Seq<Seq<char>>,
    scans: Seq<LineScan>,
    wraplen: usize,
    line_end: Seq<char>,
    k: int,
)
    requires
        0 <= k <= ls.len(),
    ensures
        semantic(ls, scans, wraplen, line_end, k) == flat(
            Seq::new(ls.len(), |m: int| line_group(ls, scans, wraplen, line_end, m)),
            0,
            k,
        ),
    decreases k,
{
    if k > 0 {
        lemma_flat_groups(ls, scans, wraplen, line_end, k - 1);
    }
}

/// What holds of the groups of the first `n` lines.
spec fn groups_fit(
    text: Seq<char>,
    gs: Seq<Seq<char>>,
    line_end: Seq<char>,
    n: int,
) -> bool {
    &&& gs.len() == n
    &&& forall|k: int|
        0 <= k < n ==> words(#[trigger] gs[k]) == words(lines(text)[k]) && has_tail(
            gs[k],
            line_end,
        )
}

proof fn lemma_groups(
    text: Seq<char>,
    args: Args,
    scan: Scan,
    line_end: Seq<char>,
    bs: Seq<Block>,
    n: int,
)
    requires
        text.len() <= usize::MAX,
        args.reflow == ReflowMode::Semantic,
        fits(lines(text), scan.lines@),
        tiles(bs, 0, n),
        n <= lines(text).len(),
        forall|i: int|
            0 <= i < bs.len() ==> block_fits(
                roles(lines(text), scan.lines@, scan.verbs@),
                false,
                #[trigger] bs[i],
            ),
        line_end.len() > 0,
        blank(line_end),
    ensures
        groups_fit(
            text,
            groups(lines(text), scan.lines@, args.wraplen, line_end, bs),
            line_end,
            n,
        ),
        reflowed_blocks(
            lines(text),
            scan.lines@,
            scan.joined_comments@,
            args,
            line_end,
            bs,
        ) == flat(groups(lines(text), scan.lines@, args.wraplen, line_end, bs), 0, n),
    decreases bs.len(),
{
    let ls = lines(text);
    let ss = scan.lines@;
    let gs = groups(ls, ss, args.wraplen, line_end, bs);
    if bs.len() > 0 {
        let b = bs.last();
        let (s, e) = (b.start as int, b.end as int);
        assert(bs[bs.len() - 1].start < bs[bs.len() - 1].end <= n);
        lemma_tiles_drop_last(bs, 0, n);
        let rs = roles(ls, ss, scan.verbs@);
        assert(block_fits(rs, false, bs[bs.len() - 1]));
        assert forall|i: int| 0 <= i < bs.len() - 1 implies block_fits(
            rs,
            false,
            #[trigger] bs.drop_last()[i],
        ) by {
            assert(block_fits(rs, false, bs[i]));
        }
        lemma_groups(text, args, scan, line_end, bs.drop_last(), s);
        let head = groups(ls, ss, args.wraplen, line_end, bs.drop_last());
        let sub = ls.subrange(s, e);
        let subscans = ss.subrange(s, e);
        let own = if b.prose {
            Seq::new((e - s) as nat, |k: int| line_group(sub, subscans, args.wraplen, line_end, k))
        } else {
            seq![ls[s] + line_end]
        };
        assert(gs == head + own);
        lemma_flat_add(head, own, e - s);
        if b.prose {
            lemma_flat_groups(sub, subscans, args.wraplen, line_end, e - s);
            assert(own =~= Seq::new(
                sub.len(),
                |k: int| line_group(sub, subscans, args.wraplen, line_end, k),
            ));
        } else {
            assert(flat(own, 0, 0) =~= seq![]);
            assert(flat(own, 0, 1) =~= own[0]);
        }
        assert forall|k: int| 0 <= k < n implies words(#[trigger] gs[k]) == words(ls[k])
            && has_tail(gs[k], line_end) by {
            if k < s {
                assert(gs[k] == head[k]);
            } else if b.prose {
                lemma_span(text, k);
                assert(comment_within(ls[k], ss[k]));
                assert(sub[k - s] == ls[k]);
                lemma_group_words(sub, subscans, args.wraplen, line_end, k - s);
                lemma_line_group_ends(sub, subscans, args.wraplen, line_end, k - s);
                assert(rs[k].flows);
                lemma_words_of_ink(ls[k]);
            } else {
                lemma_line_ends(ls[s], line_end);
                lemma_words_line(ls[s], line_end);
            }
        }
    } else {
        assert(flat(gs, 0, 0) =~= seq![]);
    }
}

/// In semantic mode every authored line comes out as a group of lines of its
/// own, with the words of that line and a terminator at its end, in the order of
/// the lines.
pub proof fn law_semantic_keeps_lines(
    text: Seq<char>,
    args: Args,
    scan: Scan,
    line_end: Seq<char>,
)
    requires
        text.len() <= usize::MAX,
        args.reflow == ReflowMode::Semantic,
        fits(lines(text), scan.lines@),
        line_end.len() > 0,
        blank(line_end),
    ensures
        ({
            let ls = lines(text);
            let n = ls.len() as int;
            let gs = groups(
                ls,
                scan.lines@,
                args.wraplen,
                line_end,
                blocks_for(ls, scan, args.reflow),
            );
            &&& gs.len() == n
            &&& reflowed_text(text, args, scan, line_end) == flat(gs, 0, n)
            &&& forall|k: int|
                0 <= k < n ==> words(#[trigger] gs[k]) == words(ls[k]) && has_tail(
                    gs[k],
                    line_end,
                )
        }),
{
    let ls = lines(text);
    lemma_line_count(text, 0);
    lemma_blocks(ls, scan.lines@, scan.verbs@, false);
    lemma_groups(
        text,
        args,
        scan,
        line_end,
        blocks_for(ls, scan, args.reflow),
        ls.len() as int,
    );
}

proof fn lemma_flat_lines(gs: Seq<Seq<char>>, line_end: Seq<char>, k: int)
    requires
        ends_line(line_end),
        0 <= k <= gs.len(),
        forall|m: int| 0 <= m < gs.len() ==> has_tail(#[trigger] gs[m], line_end),
    ensures
        lines(flat(gs, 0, k)).len() >= k,
        flat(gs, 0, k).len() == 0 || flat(gs, 0, k).last() == '\n',
    decreases k,
{
    if k > 0 {
        let g = gs[k - 1];
        lemma_flat_lines(gs, line_end, k - 1);
        assert(has_tail(gs[k - 1], line_end));
        let tail = g.subrange(g.len() - line_end.len(), g.len() as int);
        assert(tail.last() == g.last());
        lemma_lines_add(flat(gs, 0, k - 1), g);
        lemma_some_line(g);
    }
}

/// Semantic mode never loses a line: what it makes of a document has at least as
/// many lines.
pub proof fn law_semantic_loses_no_line(
    text: Seq<char>,
    args: Args,
    scan: Scan,
    line_end: Seq<char>,
)
    requires
        text.len() <= usize::MAX,
        args.reflow == ReflowMode::Semantic,
        fits(lines(text), scan.lines@),
        ends_line(line_end),
    ensures
        lines(reflowed_text(text, args, scan, line_end)).len() >= lines(text).len(),
{
    let ls = lines(text);
    let bs = blocks_for(ls, scan, args.reflow);
    let gs = groups(ls, scan.lines@, args.wraplen, line_end, bs);
    law_semantic_keeps_lines(text, args, scan, line_end);
    lemma_flat_lines(gs, line_end, ls.len() as int);
}

} // verus!
