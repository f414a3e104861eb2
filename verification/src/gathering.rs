//! Which lines of a document share a paragraph, and what joining makes of them.

use vstd::prelude::*;

use crate::join::{chain, joined, joined_text};
use crate::laws::{lemma_block_of, lemma_joined_parts};
use crate::paragraphs::{
    block_fits, blocks, blocks_from, lemma_blocks_from, lemma_ends_ascend, lemma_paragraph_end,
    paragraph_end, protected_line, role_of, roles, start_track, tiles, track_after, track_at, Block,
    LineRole, Track,
};
use crate::prose::{bare_equals, math_at};
use crate::reading::{law_trimming, law_trimming_nothing, lemma_parts_of, space, spaces};
use crate::scan::LineScan;
use crate::standing::{
    before_comment, begin_command, ends, in_fixed_region, law_absorbing, law_bare_equals,
    law_display, law_inline_math, law_math_depth, law_protected, law_role, law_standing,
    law_starting_with_text, math_name, no_backslash, starts, within,
};
use crate::text::{lemma_line_count, lines, trimmed_end, trimmed_start};

verus! {

// ---------------------------------------------------------------------------
// Paragraphs

/// Nothing is known of the first line of a document but that it follows a
/// boundary, and what is known of a line follows from the lines before it.
pub proof fn law_tracks(
    ls: Seq<Seq<char>>,
    scans: Seq<LineScan>,
    verbs: Seq<String>,
    k: int,
)
    requires
        0 <= k < ls.len(),
    ensures
        ({
            let first = track_at(ls, scans, verbs, 0);
            first.after_boundary && first.math_depth == 0 && !first.in_display
                && !first.in_inline_math
        }),
        track_at(ls, scans, verbs, k + 1) == track_after(
            track_at(ls, scans, verbs, k),
            ls[k],
            scans[k],
            verbs,
        ),
        roles(ls, scans, verbs).len() == ls.len(),
        roles(ls, scans, verbs)[k] == role_of(
            track_at(ls, scans, verbs, k),
            ls[k],
            scans[k],
            verbs,
        ),
{
}

/// Whether two lines that follow one another share a block.
pub open spec fn shared(bs: Seq<Block>, k: int) -> bool {
    exists|b: int| 0 <= b < bs.len() && (#[trigger] bs[b]).start <= k && k + 1 < bs[b].end
}

/// Whether a line belongs to a paragraph.
pub open spec fn in_paragraph(bs: Seq<Block>, k: int) -> bool {
    exists|b: int|
        0 <= b < bs.len() && (#[trigger] bs[b]).start <= k && k < bs[b].end && bs[b].prose
}

/// A paragraph stops only at a line that may not follow.
proof fn lemma_stops(rs: Seq<LineRole>, whole: bool, k: int)
    requires
        0 < k <= rs.len(),
    ensures
        ({
            let e = paragraph_end(rs, whole, k);
            k <= e <= rs.len() && (e < rs.len() && (e == k || rs[e - 1].absorbs) ==> !rs[e].flows
                || whole && rs[e].commented)
        }),
    decreases rs.len() - k,
{
    if k < rs.len() && rs[k].flows && rs[k].absorbs && !(whole && rs[k].commented) {
        lemma_stops(rs, whole, k + 1);
    }
}

/// Two blocks that hold a line are the same.
proof fn lemma_same_block(bs: Seq<Block>, n: int, k: int, a: int, b: int)
    requires
        tiles(bs, 0, n),
        0 <= a < bs.len(),
        0 <= b < bs.len(),
        bs[a].start <= k < bs[a].end,
        bs[b].start <= k < bs[b].end,
    ensures
        a == b,
{
    if a < b {
        lemma_ends_ascend(bs, 0, n, b);
    } else if b < a {
        lemma_ends_ascend(bs, 0, n, a);
    }
}

/// Where each block of a document ends, and which are paragraphs.
proof fn lemma_blocks_made(rs: Seq<LineRole>, whole: bool, k: int)
    requires
        0 <= k <= rs.len() <= usize::MAX,
    ensures
        ({
            let bs = blocks_from(rs, whole, k);
            &&& tiles(bs, k, rs.len() as int)
            &&& forall|b: int|
                0 <= b < bs.len() ==> (#[trigger] bs[b]).prose == (rs[bs[b].start as int].flows
                    && rs[bs[b].start as int].begins)
            &&& forall|b: int|
                0 <= b < bs.len() && (#[trigger] bs[b]).prose ==> bs[b].end == paragraph_end(
                    rs,
                    whole,
                    bs[b].start + 1,
                )
        }),
    decreases rs.len() - k,
{
    if k < rs.len() {
        let bs = blocks_from(rs, whole, k);
        let e = if rs[k].flows && rs[k].begins {
            paragraph_end(rs, whole, k + 1)
        } else {
            k + 1
        };
        lemma_paragraph_end(rs, whole, k + 1);
        lemma_blocks_made(rs, whole, e);
        let rest = blocks_from(rs, whole, e);
        assert(bs.len() == rest.len() + 1);
        assert forall|b: int| 0 < b < bs.len() implies #[trigger] bs[b] == rest[b - 1] by {}
        assert(rest.len() > 0 ==> bs.last() == rest.last());
    }
}

/// A line follows the one before it into its paragraph if and only if that line
/// begins the paragraph, or belongs to it and absorbs another, and this one may stand
/// in a paragraph; where lines are kept whole, it has no comment. A line that does not
/// follow begins a paragraph if and only if it may stand in one and begin one.
pub proof fn law_paragraphs(rs: Seq<LineRole>, whole: bool, k: int)
    requires
        rs.len() <= usize::MAX,
        0 <= k < rs.len(),
    ensures
        tiles(blocks(rs, whole), 0, rs.len() as int),
        in_paragraph(blocks(rs, whole), k) <==> k > 0 && shared(blocks(rs, whole), k - 1)
            || rs[k].flows && rs[k].begins,
        k + 1 < rs.len() ==> (shared(blocks(rs, whole), k) <==> in_paragraph(blocks(rs, whole), k)
            && (rs[k].absorbs || !(k > 0 && shared(blocks(rs, whole), k - 1)))
            && rs[k + 1].flows && !(whole && rs[k + 1].commented)),
        k + 1 == rs.len() ==> !shared(blocks(rs, whole), k),
{
    let bs = blocks(rs, whole);
    let n = rs.len() as int;
    lemma_blocks_made(rs, whole, 0);
    let b = lemma_block_of(bs, n, k);
    assert forall|c: int| 0 <= c < bs.len() && (#[trigger] bs[c]).start <= k < bs[c].end
        implies c == b by {
        lemma_same_block(bs, n, k, b, c);
    }
    assert(in_paragraph(bs, k) == bs[b].prose);
    assert(shared(bs, k) == (k + 1 < bs[b].end));
    assert(k > 0 ==> shared(bs, k - 1) == (bs[b].start < k)) by {
        if k > 0 && bs[b].start < k {
            assert(shared(bs, k - 1));
        }
        if k > 0 && shared(bs, k - 1) {
            let c = choose|c: int|
                0 <= c < bs.len() && (#[trigger] bs[c]).start <= k - 1 && k < bs[c].end;
            assert(c == b);
        }
    }
    if bs[b].prose {
        let s = bs[b].start + 1;
        lemma_paragraph_end(rs, whole, s);
        lemma_stops(rs, whole, s);
        if s <= k {
            assert(rs[k].flows);
        }
        if k + 1 < bs[b].end {
            assert(rs[k + 1].flows);
        }
    }
}

// ---------------------------------------------------------------------------
// Joining

/// Joined lines have a single space between them in place of the whitespace at
/// the break.
pub proof fn law_chain(
    ls: Seq<Seq<char>>,
    s: int,
    e: int,
    p: Seq<char>,
    z: Seq<char>,
    w: Seq<char>,
    t: Seq<char>,
)
    requires
        s < e,
        chain(ls, s, e) == p + z,
        ls[e] == w + t,
        spaces(z),
        spaces(w),
        p.len() == 0 || !space(p[p.len() - 1]),
        t.len() == 0 || !space(t[0]),
    ensures
        chain(ls, s, s + 1) == ls[s],
        chain(ls, s, e + 1) == p + seq![' '] + t,
{
    assert(trimmed_end(p + z) =~= p) by {
        let (a, m, y) = lemma_parts_of(p);
        if p.len() == 0 {
            assert(p + z =~= z);
            law_trimming_nothing(z);
        } else {
            if y.len() > 0 {
                assert(p[p.len() - 1] == y[y.len() - 1]);
            }
            if m.len() == 0 {
                assert(p[p.len() - 1] == a[a.len() - 1]);
            }
            assert(p + z =~= a + m + z);
            law_trimming(a, m, z);
            assert(p =~= a + m);
        }
    }
    assert(trimmed_start(w + t) =~= t) by {
        let (a, m, y) = lemma_parts_of(t);
        if t.len() == 0 {
            assert(w + t =~= w);
            law_trimming_nothing(w);
        } else {
            if a.len() > 0 {
                assert(t[0] == a[0]);
            }
            if m.len() == 0 {
                assert(t[0] == y[0]);
            }
            assert(w + t =~= w + m + y);
            law_trimming(w, m, y);
            assert(t =~= m + y);
        }
    }
}

/// A joined document holds the joined lines of its blocks in order, each with a
/// line end.
pub proof fn law_joined(ls: Seq<Seq<char>>, bs: Seq<Block>, b: Block, line_end: Seq<char>)
    ensures
        joined(ls, Seq::empty(), line_end) == Seq::<char>::empty(),
        joined(ls, bs.push(b), line_end) == joined(ls, bs, line_end) + chain(
            ls,
            b.start as int,
            b.end as int,
        ) + line_end,
{
    assert(bs.push(b).drop_last() =~= bs);
}

/// What joining makes of a document is made of the blocks that its lines form,
/// where lines may end in comments.
pub proof fn law_joined_text(
    text: Seq<char>,
    scans: Seq<LineScan>,
    verbs: Seq<String>,
    line_end: Seq<char>,
)
    ensures
        joined_text(text, scans, verbs, line_end) == joined(
            lines(text),
            blocks(roles(lines(text), scans, verbs), false),
            line_end,
        ),
{
}

/// Whether a line may stand in a paragraph, where nothing before it protects it.
pub open spec fn may_stand(
    track: Track,
    line: Seq<char>,
    scan: LineScan,
    verbs: Seq<String>,
) -> bool {
    &&& !in_fixed_region(scan)
    &&& track.math_depth == 0
    &&& !track.in_display
    &&& !(scan.pattern.contains_env_begin && exists|n: Seq<char>|
        math_name(n) && #[trigger] within(line, begin_command() + n))
    &&& !spaces(line)
    &&& !scan.splitting
    &&& !starts(line, seq!['%'])
    &&& !starts(line, seq!['\\', '['])
    &&& !starts(line, seq!['\\', ']'])
    &&& !starts(line, seq!['$', '$'])
    &&& !starts(line, seq!['}'])
    &&& !(scan.pattern.contains_verb && exists|v: int|
        0 <= v < verbs.len() && within(line, (#[trigger] verbs[v])@))
    &&& !exists|a: Seq<char>, b: Seq<char>|
        before_comment(line, scan) == #[trigger] (a.push('=') + b) && !math_at(
            a,
            a.len() as int,
            track.in_inline_math,
        )
}

/// Whether a line may absorb the one behind it.
pub open spec fn may_absorb(line: Seq<char>, scan: LineScan) -> bool {
    scan.comment is None && !scan.forced_break && !ends(line, '-')
}

/// Whether a line may begin a paragraph.
pub open spec fn may_begin(track: Track, line: Seq<char>) -> bool {
    &&& track.after_boundary
    &&& {
        ||| !starts(line, seq!['\\']) && !starts(line, seq!['{'])
        ||| starts(line, seq!['\\', 'p', 'a', 'r', 'a', 'g', 'r', 'a', 'p', 'h'])
        ||| starts(
            line,
            seq!['\\', 's', 'u', 'b', 'p', 'a', 'r', 'a', 'g', 'r', 'a', 'p', 'h'],
        )
    }
}

/// The role of a line, said of its characters.
pub proof fn law_role_of_characters(
    track: Track,
    line: Seq<char>,
    scan: LineScan,
    verbs: Seq<String>,
)
    ensures
        ({
            let role = role_of(track, line, scan, verbs);
            &&& role.flows == may_stand(track, line, scan, verbs)
            &&& role.absorbs == may_absorb(line, scan)
            &&& role.begins == (may_begin(track, line) && may_absorb(line, scan))
            &&& role.commented == (scan.comment is Some)
        }),
{
    law_role(track, line, scan, verbs);
    law_protected(track, line, scan);
    let part = before_comment(line, scan);
    let bare = bare_equals(part, track.in_inline_math);
    law_standing(
        line,
        scan,
        verbs,
        protected_line(track, line, scan),
        bare,
    );
    law_bare_equals(part, track.in_inline_math);
    law_absorbing(line, scan);
    law_starting_with_text(line);
    assert(role_of(track, line, scan, verbs).flows == may_stand(track, line, scan, verbs));
}

/// Two lines that follow one another end up on one line of the joined document
/// if and only if both may stand in a paragraph, the first belongs to a paragraph
/// or may begin one, and it has no comment, no forced break and no hyphen at its
/// end.
pub proof fn law_lines_are_joined(
    text: Seq<char>,
    scans: Seq<LineScan>,
    verbs: Seq<String>,
    line_end: Seq<char>,
    k: int,
)
    requires
        text.len() <= usize::MAX,
        0 <= k,
        k + 1 < lines(text).len(),
    ensures
        ({
            let ls = lines(text);
            let bs = blocks(roles(ls, scans, verbs), false);
            let here = track_at(ls, scans, verbs, k);
            let next = track_at(ls, scans, verbs, k + 1);
            let both = may_stand(here, ls[k], scans[k], verbs) && may_stand(
                next,
                ls[k + 1],
                scans[k + 1],
                verbs,
            );
            &&& shared(bs, k) <==> both && may_absorb(ls[k], scans[k]) && (may_begin(here, ls[k])
                || k > 0 && shared(bs, k - 1))
            &&& shared(bs, k) ==> exists|front: Seq<char>, s: int, e: int, back: Seq<char>|
                s <= k && k + 1 < e && joined_text(text, scans, verbs, line_end)
                    == #[trigger] (front + chain(ls, s, e) + line_end + back)
        }),
{
    let ls = lines(text);
    let rs = roles(ls, scans, verbs);
    let bs = blocks(rs, false);
    lemma_line_count(text, 0);
    assert forall|m: int| 0 <= m < rs.len() && (#[trigger] rs[m]).begins implies rs[m].absorbs by {
        law_tracks(ls, scans, verbs, m);
        law_role_of_characters(track_at(ls, scans, verbs, m), ls[m], scans[m], verbs);
    }
    law_tracks(ls, scans, verbs, k);
    law_tracks(ls, scans, verbs, k + 1);
    law_role_of_characters(track_at(ls, scans, verbs, k), ls[k], scans[k], verbs);
    law_role_of_characters(track_at(ls, scans, verbs, k + 1), ls[k + 1], scans[k + 1], verbs);
    law_paragraphs(rs, false, k);
    if k > 0 {
        law_paragraphs(rs, false, k - 1);
    }
    if shared(bs, k) {
        let b = choose|b: int|
            0 <= b < bs.len() && (#[trigger] bs[b]).start <= k && k + 1 < bs[b].end;
        let (front, back) = lemma_joined_parts(ls, line_end, bs, b);
        let c = chain(ls, bs[b].start as int, bs[b].end as int);
        assert(front + (c + line_end) + back =~= front + c + line_end + back);
    }
}

// ---------------------------------------------------------------------------
// Prose with inline math

/// The number of dollar signs among the first `k` characters of a line.
pub open spec fn dollars(line: Seq<char>, k: int) -> nat
    decreases k,
{
    if k <= 0 {
        0
    } else if line[k - 1] == '$' {
        dollars(line, k - 1) + 1
    } else {
        dollars(line, k - 1)
    }
}

/// Where a line has no backslashes, a place lies in inline math if and only if an
/// odd number of dollar signs stands before it.
pub proof fn law_dollars(line: Seq<char>, k: int)
    requires
        no_backslash(line),
        0 <= k <= line.len(),
    ensures
        math_at(line, k, false) == (dollars(line, k) % 2 == 1),
    decreases k,
{
    if k > 0 {
        law_dollars(line, k - 1);
        let p = line.subrange(0, k - 1);
        let c = line[k - 1];
        let rest = line.subrange(k, line.len() as int);
        law_inline_math(p, c, rest, false);
        assert(p.push(c) + rest =~= line);
        assert(k > 1 ==> p[k - 2] == line[k - 2]);
    } else {
        law_inline_math(line, ' ', line, false);
    }
}

/// Whether a line is prose: it has ink but no commands, its dollar signs come in
/// pairs and an equals sign stands only between the two of a pair, it does not
/// begin with a comment, a closing brace or display math, and it has no hyphen at
/// its end.
pub open spec fn prose_line(line: Seq<char>) -> bool {
    &&& !spaces(line)
    &&& no_backslash(line)
    &&& dollars(line, line.len() as int) % 2 == 0
    &&& forall|i: int|
        0 <= i < line.len() && #[trigger] line[i] == '=' ==> dollars(line, i) % 2 == 1
    &&& !starts(line, seq!['%'])
    &&& !starts(line, seq!['$', '$'])
    &&& !starts(line, seq!['}'])
    &&& !ends(line, '-')
}

/// Whether a report finds nothing in a line.
pub open spec fn nothing_found(scan: LineScan) -> bool {
    &&& !in_fixed_region(scan)
    &&& !scan.splitting
    &&& !scan.forced_break
    &&& scan.comment is None
    &&& !scan.pattern.contains_verb
}

/// A text with a backslash does not occur in a line without one.
proof fn lemma_no_command(line: Seq<char>, p: Seq<char>)
    requires
        no_backslash(line),
        p.len() > 0,
        p[0] == '\\',
    ensures
        !within(line, p),
        !starts(line, p),
{
    if within(line, p) {
        let (a, b) = choose|a: Seq<char>, b: Seq<char>| line == #[trigger] (a + p + b);
        assert(line[a.len() as int] == p[0]);
    }
    if starts(line, p) {
        let (a, b) = choose|a: Seq<char>, b: Seq<char>|
            spaces(a) && line == #[trigger] (a + p + b);
        assert(line[a.len() as int] == p[0]);
    }
}

/// Prose flows, and leaves nothing open.
proof fn lemma_prose_role(track: Track, line: Seq<char>, scan: LineScan, verbs: Seq<String>)
    requires
        prose_line(line),
        nothing_found(scan),
        track.math_depth == 0,
        !track.in_display,
        !track.in_inline_math,
    ensures
        ({
            let role = role_of(track, line, scan, verbs);
            let next = track_after(track, line, scan, verbs);
            &&& role.flows && role.absorbs
            &&& role.begins == (track.after_boundary && !starts(line, seq!['{']))
            &&& next.math_depth == 0 && !next.in_display && !next.in_inline_math
        }),
{
    law_role_of_characters(track, line, scan, verbs);
    law_role(track, line, scan, verbs);
    law_protected(track, line, scan);
    lemma_no_command(line, seq!['\\']);
    lemma_no_command(line, seq!['\\', '[']);
    lemma_no_command(line, seq!['\\', ']']);
    lemma_no_command(line, seq!['\\', 'p', 'a', 'r', 'a', 'g', 'r', 'a', 'p', 'h']);
    lemma_no_command(
        line,
        seq!['\\', 's', 'u', 'b', 'p', 'a', 'r', 'a', 'g', 'r', 'a', 'p', 'h'],
    );
    assert forall|n: Seq<char>| math_name(n) implies !#[trigger] within(
        line,
        begin_command() + n,
    ) by {
        lemma_no_command(line, begin_command() + n);
    }
    if exists|a: Seq<char>, b: Seq<char>|
        line == #[trigger] (a.push('=') + b) && !math_at(a, a.len() as int, false) {
        let (a, b) = choose|a: Seq<char>, b: Seq<char>|
            line == #[trigger] (a.push('=') + b) && !math_at(a, a.len() as int, false);
        assert(line[a.len() as int] == '=');
        law_dollars(line, a.len() as int);
        law_inline_math(a, '=', b, false);
    }
    law_dollars(line, line.len() as int);
    law_math_depth(line, seq![], scan.pattern, 0);
    law_display(line, track.in_display);
}

proof fn lemma_prose_track(ls: Seq<Seq<char>>, scans: Seq<LineScan>, verbs: Seq<String>, k: int)
    requires
        0 <= k <= ls.len(),
        forall|m: int|
            0 <= m < ls.len() ==> prose_line(#[trigger] ls[m]) && nothing_found(scans[m]),
    ensures
        ({
            let track = track_at(ls, scans, verbs, k);
            track.math_depth == 0 && !track.in_display && !track.in_inline_math
        }),
    decreases k,
{
    if k > 0 {
        lemma_prose_track(ls, scans, verbs, k - 1);
        law_tracks(ls, scans, verbs, k - 1);
        lemma_prose_role(track_at(ls, scans, verbs, k - 1), ls[k - 1], scans[k - 1], verbs);
    } else {
        assert(track_at(ls, scans, verbs, 0) == start_track());
    }
}

/// Joining puts a document of prose, with inline math and groups, on one line.
/// The report is taken to find nothing in it.
pub proof fn law_prose_is_joined(
    text: Seq<char>,
    scans: Seq<LineScan>,
    verbs: Seq<String>,
    line_end: Seq<char>,
)
    requires
        text.len() <= usize::MAX,
        lines(text).len() > 0,
        !starts(lines(text)[0], seq!['{']),
        forall|m: int|
            0 <= m < lines(text).len() ==> prose_line(#[trigger] lines(text)[m])
                && nothing_found(scans[m]),
    ensures
        joined_text(text, scans, verbs, line_end) == chain(
            lines(text),
            0,
            lines(text).len() as int,
        ) + line_end,
{
    let ls = lines(text);
    let n = ls.len() as int;
    let rs = roles(ls, scans, verbs);
    let bs = blocks(rs, false);
    lemma_line_count(text, 0);
    assert forall|m: int| 0 <= m < n implies (#[trigger] rs[m]).flows && rs[m].absorbs by {
        law_tracks(ls, scans, verbs, m);
        lemma_prose_track(ls, scans, verbs, m);
        assert(prose_line(ls[m]));
        lemma_prose_role(track_at(ls, scans, verbs, m), ls[m], scans[m], verbs);
    }
    law_tracks(ls, scans, verbs, 0);
    assert(prose_line(ls[0]));
    lemma_prose_role(track_at(ls, scans, verbs, 0), ls[0], scans[0], verbs);
    lemma_all_shared(rs, n - 1);
    assert(block_fits(rs, false, bs[0]));
    law_paragraphs(rs, false, 0);
    if bs[0].end < n {
        let k = bs[0].end - 1;
        lemma_all_shared(rs, k);
        law_paragraphs(rs, false, k);
        let b = choose|b: int|
            0 <= b < bs.len() && (#[trigger] bs[b]).start <= k && k + 1 < bs[b].end;
        lemma_same_block(bs, n, k, 0, b);
    }
    if bs.len() > 1 {
        lemma_ends_ascend(bs, 0, n, 1);
        assert(bs[1].start < bs[1].end);
    }
    assert(bs =~= Seq::<Block>::empty().push(bs[0]));
    law_joined(ls, Seq::empty(), bs[0], line_end);
    let c = chain(ls, 0, n);
    assert(Seq::<char>::empty() + c + line_end =~= c + line_end);
}

/// Where every line flows and absorbs, every line follows the one before it.
proof fn lemma_all_shared(rs: Seq<LineRole>, k: int)
    requires
        rs.len() <= usize::MAX,
        0 <= k < rs.len(),
        rs[0].begins,
        forall|m: int| 0 <= m < rs.len() ==> (#[trigger] rs[m]).flows && rs[m].absorbs,
    ensures
        in_paragraph(blocks(rs, false), k),
        tiles(blocks(rs, false), 0, rs.len() as int),
        blocks(rs, false).len() > 0,
        forall|b: int|
            0 <= b < blocks(rs, false).len() ==> block_fits(
                rs,
                false,
                #[trigger] blocks(rs, false)[b],
            ),
    decreases k,
{
    lemma_blocks_from(rs, false, 0);
    law_paragraphs(rs, false, k);
    if k > 0 {
        lemma_all_shared(rs, k - 1);
        law_paragraphs(rs, false, k - 1);
    }
}

} // verus!
