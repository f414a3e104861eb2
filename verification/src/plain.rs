//! Documents of plain prose: one paragraph, without commands, comments or math.

use vstd::prelude::*;

use crate::chars::white;
use crate::config::{Args, ReflowMode};
use crate::documents::{canonical_parts, lemma_canonical_glued};
use crate::minimal::paragraph_text;
use crate::paragraphs::{
    blocks, blocks_from, lemma_blocks, paragraph_end, role_of, roles, start_track, track_after,
    track_at, Block, LineRole, Track,
};
use crate::pieces::glued;
use crate::prose::{math_at, math_depth_at, math_env_at, math_envs};
use crate::reflow::{blocks_for, reflowed_text};
use crate::scan::{LineScan, Pattern, Scan};
use crate::text::{
    begins_with, ends_in, first_ink, holds, ink_end, lemma_first_ink, lemma_ink_end,
    lemma_line_count, lemma_trimmed, lines, occurs_at, trimmed, trimmed_end, trimmed_start,
};
use crate::words::{lemma_words_all_lines, lemma_words_trimmed, line_words, words};

verus! {

// ---------------------------------------------------------------------------
// Words with single spaces between them

/// Words with single spaces between them.
pub open spec fn spaced(ws: Seq<Seq<char>>) -> Seq<char>
    decreases ws.len(),
{
    if ws.len() == 0 {
        seq![]
    } else if ws.len() == 1 {
        ws[0]
    } else {
        spaced(ws.drop_last()) + seq![' '] + ws.last()
    }
}

/// Whether the whitespace in a text is single spaces, none of them in front.
pub open spec fn tidy(s: Seq<char>) -> bool {
    &&& s.len() > 0 ==> !white(s[0])
    &&& forall|i: int| 0 <= i < s.len() && white(#[trigger] s[i]) ==> s[i] == ' '
    &&& forall|i: int, j: int|
        0 <= i && j == i + 1 && j < s.len() ==> !(white(#[trigger] s[i]) && white(#[trigger] s[j]))
}

proof fn lemma_spaced_add(a: Seq<Seq<char>>, b: Seq<Seq<char>>)
    requires
        a.len() > 0,
        b.len() > 0,
    ensures
        spaced(a + b) == spaced(a) + seq![' '] + spaced(b),
    decreases b.len(),
{
    let s = a + b;
    assert(s.last() == b.last());
    if b.len() == 1 {
        assert(s.drop_last() =~= a);
    } else {
        lemma_spaced_add(a, b.drop_last());
        assert(s.drop_last() =~= a + b.drop_last());
        assert(spaced(a) + seq![' '] + spaced(b.drop_last()) + seq![' '] + b.last() =~= spaced(a)
            + seq![' '] + (spaced(b.drop_last()) + seq![' '] + b.last()));
    }
}

proof fn lemma_spaced_grow(ws: Seq<Seq<char>>, c: char)
    requires
        ws.len() > 0,
    ensures
        spaced(ws.drop_last().push(ws.last().push(c))) == spaced(ws).push(c),
{
    let vs = ws.drop_last().push(ws.last().push(c));
    assert(vs.last() == ws.last().push(c));
    assert(vs.drop_last() =~= ws.drop_last());
    if ws.len() > 1 {
        let head = spaced(ws.drop_last()) + seq![' '];
        assert(head + ws.last().push(c) =~= (head + ws.last()).push(c));
    }
}

/// A tidy text, its last space aside, is its words with single spaces between
/// them.
proof fn lemma_spaced_words(s: Seq<char>)
    requires
        tidy(s),
    ensures
        spaced(words(s)) == (if s.len() > 0 && white(s.last()) {
            s.drop_last()
        } else {
            s
        }),
        s.len() > 0 ==> words(s).len() > 0,
    decreases s.len(),
{
    if s.len() > 0 {
        let h = s.drop_last();
        assert(tidy(h)) by {
            assert forall|i: int| 0 <= i < h.len() && white(#[trigger] h[i]) implies h[i]
                == ' ' by {
                assert(white(s[i]));
            }
            assert forall|i: int, j: int| 0 <= i && j == i + 1 && j < h.len() implies !(white(
                #[trigger] h[i],
            ) && white(#[trigger] h[j])) by {
                assert(!(white(s[i]) && white(s[j])));
            }
        }
        lemma_spaced_words(h);
        let c = s.last();
        let n = s.len() as int;
        let ws = words(h);
        if white(c) {
            assert(white(s[n - 1]));
            assert(h.last() == s[n - 2]);
        } else if h.len() == 0 {
            assert(ws.push(seq![c]) =~= seq![seq![c]]);
            assert(seq![c] =~= s);
        } else if white(h.last()) {
            assert(white(s[n - 2]));
            assert(ws.push(seq![c]).drop_last() =~= ws);
            assert(h.drop_last() + seq![' '] + seq![c] =~= s);
        } else {
            lemma_spaced_grow(ws, c);
            assert(h.push(c) =~= s);
        }
    } else {
        assert(s =~= seq![]);
    }
}

/// A paragraph of tidy lines is its words with single spaces between them.
proof fn lemma_spaced_paragraph(ls: Seq<Seq<char>>, k: int)
    requires
        0 < k <= ls.len(),
        forall|m: int|
            0 <= m < ls.len() ==> trimmed(#[trigger] ls[m]).len() > 0 && tidy(trimmed(ls[m])),
    ensures
        paragraph_text(ls, k) == spaced(line_words(ls, 0, k)),
        line_words(ls, 0, k).len() > 0,
    decreases k,
{
    let t = trimmed(ls[k - 1]);
    lemma_trimmed(ls[k - 1]);
    assert(trimmed(ls[k - 1]).len() > 0 && tidy(trimmed(ls[k - 1])));
    lemma_words_trimmed(ls[k - 1]);
    lemma_spaced_words(t);
    let last = ls[k - 1];
    assert(t.last() == last[ink_end(last, first_ink(last, 0), last.len() as int) - 1]);
    let head = line_words(ls, 0, k - 1);
    if k == 1 {
        assert(line_words(ls, 0, 0) =~= seq![]);
        assert(head + words(t) =~= words(t));
    } else {
        lemma_spaced_paragraph(ls, k - 1);
        lemma_spaced_add(head, words(t));
    }
}

// ---------------------------------------------------------------------------
// Plain lines

/// Whether a character has a meaning of its own in a line.
pub open spec fn special(c: char) -> bool {
    c == '\\' || c == '%' || c == '$' || c == '{' || c == '}' || c == '='
}

/// Whether a line is plain prose: it has ink, no special characters and no
/// hyphen at its end.
pub open spec fn plain_line(line: Seq<char>) -> bool {
    &&& trimmed(line).len() > 0
    &&& forall|i: int| 0 <= i < line.len() ==> !special(#[trigger] line[i])
    &&& !ends_in(trimmed_end(line), '-')
}

/// Whether a report finds nothing in a line.
pub open spec fn plain_scan(scan: LineScan) -> bool {
    &&& !scan.fixed()
    &&& !scan.splitting
    &&& !scan.forced_break
    &&& scan.comment is None
    &&& !scan.pattern.contains_verb
}

/// What is known behind a plain line.
spec fn plain_track() -> Track {
    Track { after_boundary: false, math_depth: 0, in_display: false, in_inline_math: false }
}

proof fn lemma_plain_math(line: Seq<char>, k: int)
    requires
        0 <= k <= line.len(),
        forall|i: int| 0 <= i < line.len() ==> !special(#[trigger] line[i]),
    ensures
        !math_at(line, k, false),
    decreases k,
{
    if k > 0 {
        lemma_plain_math(line, k - 1);
        assert(!special(line[k - 1]));
        if k > 1 {
            assert(!special(line[k - 2]));
        }
    }
}

/// A text that starts with a backslash occurs nowhere in a plain line.
proof fn lemma_plain_occurs(line: Seq<char>, p: Seq<char>, k: int)
    requires
        forall|i: int| 0 <= i < line.len() ==> !special(#[trigger] line[i]),
        p.len() > 0,
        special(p[0]),
    ensures
        !occurs_at(line, p, k),
{
    if occurs_at(line, p, k) {
        assert(line.subrange(k, k + p.len())[0] == line[k]);
        assert(!special(line[k]));
    }
}

proof fn lemma_plain_depth(line: Seq<char>, pattern: Pattern, k: int)
    requires
        0 <= k <= line.len(),
        forall|i: int| 0 <= i < line.len() ==> !special(#[trigger] line[i]),
    ensures
        math_depth_at(line, pattern, k, 0) == 0,
        forall|m: int| !#[trigger] math_env_at(line, "\\begin{"@, m),
    decreases k,
{
    reveal_strlit("\\begin{");
    assert forall|m: int| !#[trigger] math_env_at(line, "\\begin{"@, m) by {
        if math_env_at(line, "\\begin{"@, m) {
            let e = choose|e: int|
                0 <= e < math_envs().len() && occurs_at(
                    line,
                    "\\begin{"@ + #[trigger] math_envs()[e],
                    m,
                );
            lemma_plain_occurs(line, "\\begin{"@ + math_envs()[e], m);
        }
    }
    if k > 0 {
        lemma_plain_depth(line, pattern, k - 1);
        assert(!math_env_at(line, "\\begin{"@, k - 1));
    }
}

/// A plain line flows and absorbs, and begins a paragraph behind a boundary.
proof fn lemma_plain_role(track: Track, line: Seq<char>, scan: LineScan, verbs: Seq<String>)
    requires
        plain_line(line),
        plain_scan(scan),
        track.math_depth == 0,
        !track.in_display,
        !track.in_inline_math,
    ensures
        ({
            let role = role_of(track, line, scan, verbs);
            &&& role.flows && role.absorbs && !role.commented
            &&& role.begins == track.after_boundary
            &&& track_after(track, line, scan, verbs) == plain_track()
        }),
{
    let t = trimmed(line);
    let u = trimmed_start(line);
    lemma_trimmed(line);
    lemma_first_ink(line, 0);
    lemma_ink_end(line, 0, line.len() as int);
    lemma_plain_depth(line, scan.pattern, line.len() as int);
    lemma_plain_math(line, line.len() as int);
    assert forall|i: int| 0 <= i < t.len() implies !special(#[trigger] t[i]) by {
        assert(t[i] == line[first_ink(line, 0) + i]);
    }
    reveal_strlit("\\[");
    reveal_strlit("\\]");
    reveal_strlit("$$");
    reveal_strlit("}");
    reveal_strlit("%");
    reveal_strlit("\\");
    reveal_strlit("{");
    lemma_plain_begins(t, "\\["@);
    lemma_plain_begins(t, "\\]"@);
    lemma_plain_begins(t, "$$"@);
    lemma_plain_begins(t, "}"@);
    lemma_plain_begins(t, "%"@);
    assert forall|i: int| 0 <= i < u.len() implies !special(#[trigger] u[i]) by {
        assert(u[i] == line[first_ink(line, 0) + i]);
    }
    lemma_plain_begins(u, "\\"@);
    lemma_plain_begins(u, "{"@);
    if holds(t, "\\]"@) {
        let i = choose|i: int| occurs_at(t, "\\]"@, i);
        lemma_plain_occurs(t, "\\]"@, i);
    }
    let e = trimmed_end(line);
    if e.len() > 0 {
        assert(e.last() == line[e.len() - 1]);
    }
}

proof fn lemma_plain_begins(s: Seq<char>, p: Seq<char>)
    requires
        forall|i: int| 0 <= i < s.len() ==> !special(#[trigger] s[i]),
        p.len() > 0,
        special(p[0]),
    ensures
        !begins_with(s, p),
{
    if begins_with(s, p) {
        assert(s.subrange(0, p.len() as int)[0] == s[0]);
    }
}

/// Whether a document is plain prose.
pub open spec fn plain_document(ls: Seq<Seq<char>>, scans: Seq<LineScan>) -> bool {
    &&& ls.len() > 0
    &&& forall|k: int| 0 <= k < ls.len() ==> plain_line(#[trigger] ls[k]) && plain_scan(scans[k])
}

proof fn lemma_plain_track(
    ls: Seq<Seq<char>>,
    scans: Seq<LineScan>,
    verbs: Seq<String>,
    k: int,
)
    requires
        plain_document(ls, scans),
        0 <= k <= ls.len(),
    ensures
        track_at(ls, scans, verbs, k) == (if k == 0 {
            start_track()
        } else {
            plain_track()
        }),
    decreases k,
{
    if k > 0 {
        lemma_plain_track(ls, scans, verbs, k - 1);
        assert(plain_line(ls[k - 1]));
        lemma_plain_role(track_at(ls, scans, verbs, k - 1), ls[k - 1], scans[k - 1], verbs);
    }
}

proof fn lemma_all_flow(rs: Seq<LineRole>, whole: bool, k: int)
    requires
        0 <= k <= rs.len(),
        forall|m: int|
            0 <= m < rs.len() ==> (#[trigger] rs[m]).flows && rs[m].absorbs && !rs[m].commented,
    ensures
        paragraph_end(rs, whole, k) == rs.len(),
    decreases rs.len() - k,
{
    if k < rs.len() {
        lemma_all_flow(rs, whole, k + 1);
    }
}

/// A document of plain prose is a single paragraph.
pub proof fn lemma_plain_blocks(
    ls: Seq<Seq<char>>,
    scans: Seq<LineScan>,
    verbs: Seq<String>,
    whole: bool,
)
    requires
        plain_document(ls, scans),
        ls.len() <= usize::MAX,
    ensures
        blocks(roles(ls, scans, verbs), whole) == seq![
            (Block { start: 0, end: ls.len() as usize, prose: true }),
        ],
{
    let rs = roles(ls, scans, verbs);
    assert forall|m: int| 0 <= m < rs.len() implies (#[trigger] rs[m]).flows && rs[m].absorbs
        && !rs[m].commented by {
        lemma_plain_track(ls, scans, verbs, m);
        assert(plain_line(ls[m]));
        lemma_plain_role(track_at(ls, scans, verbs, m), ls[m], scans[m], verbs);
    }
    assert(plain_line(ls[0]));
    lemma_plain_role(start_track(), ls[0], scans[0], verbs);
    assert(rs[0].begins && rs[0].flows);
    lemma_all_flow(rs, whole, 1);
    assert(blocks_from(rs, whole, rs.len() as int) =~= seq![]);
    assert(blocks(rs, whole) =~= seq![
        (Block { start: 0, end: ls.len() as usize, prose: true }),
    ]);
}

// ---------------------------------------------------------------------------
// Laws

/// Canonical reflow puts a document of plain prose, whose words have single
/// spaces between them, on one line.
pub proof fn law_canonical_of_prose(
    text: Seq<char>,
    args: Args,
    scan: Scan,
    line_end: Seq<char>,
)
    requires
        text.len() <= usize::MAX,
        args.reflow == ReflowMode::Canonical,
        plain_document(lines(text), scan.lines@),
        forall|k: int| 0 <= k < lines(text).len() ==> tidy(trimmed(#[trigger] lines(text)[k])),
    ensures
        reflowed_text(text, args, scan, line_end) == spaced(words(text)) + line_end,
{
    let ls = lines(text);
    let n = ls.len() as int;
    lemma_line_count(text, 0);
    lemma_plain_blocks(ls, scan.lines@, scan.verbs@, false);
    lemma_blocks(ls, scan.lines@, scan.verbs@, false);
    let bs = blocks_for(ls, scan, args.reflow);
    lemma_canonical_glued(ls, scan.lines@, scan.joined_comments@, args, line_end, bs, n);
    assert(ls.subrange(0, n) =~= ls);
    let p = paragraph_text(ls, n);
    assert(canonical_parts(ls, bs) =~= seq![p]);
    assert(seq![p].drop_last() =~= seq![]);
    assert(glued(Seq::<Seq<char>>::empty(), line_end) =~= seq![]);
    assert(Seq::<char>::empty() + (p + line_end) =~= p + line_end);
    assert forall|m: int| 0 <= m < ls.len() implies trimmed(#[trigger] ls[m]).len() > 0 && tidy(
        trimmed(ls[m]),
    ) by {
        assert(plain_line(ls[m]));
    }
    lemma_spaced_paragraph(ls, n);
    lemma_words_all_lines(text);
}

/// What canonical reflow makes of a document of plain prose depends on its words
/// alone, not on where its lines are broken. The reports are taken to find nothing
/// in such a document.
pub proof fn law_canonical_ignores_breaks_of_prose(
    a: Seq<char>,
    b: Seq<char>,
    args: Args,
    scan_a: Scan,
    scan_b: Scan,
    line_end: Seq<char>,
)
    requires
        a.len() <= usize::MAX,
        b.len() <= usize::MAX,
        args.reflow == ReflowMode::Canonical,
        plain_document(lines(a), scan_a.lines@),
        plain_document(lines(b), scan_b.lines@),
        forall|k: int| 0 <= k < lines(a).len() ==> tidy(trimmed(#[trigger] lines(a)[k])),
        forall|k: int| 0 <= k < lines(b).len() ==> tidy(trimmed(#[trigger] lines(b)[k])),
        words(a) == words(b),
    ensures
        reflowed_text(a, args, scan_a, line_end) == reflowed_text(b, args, scan_b, line_end),
{
    law_canonical_of_prose(a, args, scan_a, line_end);
    law_canonical_of_prose(b, args, scan_b, line_end);
}

} // verus!
