//! Joining the result of joining changes nothing.

use vstd::prelude::*;

use crate::apart::lemma_chain_moved;
use crate::chars::white;
use crate::documents::{joined_parts, lemma_joined_glued, lemma_one_line_parts};
use crate::join::{chain, joined_text};
use crate::paragraphs::{
    block_fits, blocks, blocks_from, flows, lemma_blocks, lemma_paragraph_end,
    lemma_tiles_drop_last, paragraph_end, protected_line, role_of, roles, tiles, track_after,
    track_at, uncommented, Block, LineRole,
};
use crate::pieces::{lemma_line_chars, lemma_lines_glued, one_line};
use crate::prose::{
    absorbs, after_backslash, bare_equals, display_after, holds_verb, math_at, math_depth_at,
    math_env_at, math_envs, opens_math,
};
use crate::scan::{LineScan, Pattern};
use crate::text::{
    begins_with, ends_in, first_ink, holds, ink_end, lemma_first_ink, lemma_ink_end,
    lemma_line_is_one, lemma_trimmed, lines, occurs_at, trimmed, trimmed_end, trimmed_start,
};

verus! {

// ---------------------------------------------------------------------------
// Two lines, joined

/// Two lines, joined with a space.
spec fn pair(x: Seq<char>, y: Seq<char>) -> Seq<char> {
    trimmed_end(x) + seq![' '] + trimmed_start(y)
}

/// Where the characters of a joined pair come from.
proof fn lemma_pair(x: Seq<char>, y: Seq<char>)
    ensures
        ({
            let w = pair(x, y);
            let l = trimmed_end(x).len() as int;
            let f = first_ink(y, 0);
            &&& 0 <= l <= x.len()
            &&& 0 <= f <= y.len()
            &&& w.len() == l + 1 + y.len() - f
            &&& w[l] == ' '
            &&& forall|k: int| 0 <= k < l ==> #[trigger] w[k] == x[k]
            &&& forall|k: int| l < k < w.len() ==> #[trigger] w[k] == y[f + k - l - 1]
            &&& forall|k: int| l <= k < x.len() ==> white(#[trigger] x[k])
            &&& forall|k: int| 0 <= k < f ==> white(#[trigger] y[k])
            &&& l > 0 ==> !white(x[l - 1])
            &&& f < y.len() ==> !white(y[f])
        }),
{
    lemma_ink_end(x, 0, x.len() as int);
    lemma_first_ink(y, 0);
}

/// Whether a text has characters, and none of them is whitespace.
spec fn inky(p: Seq<char>) -> bool {
    p.len() > 0 && forall|i: int| 0 <= i < p.len() ==> !white(#[trigger] p[i])
}

/// A text without whitespace occurs where no character is whitespace.
proof fn lemma_occurs_inky(s: Seq<char>, p: Seq<char>, k: int, i: int)
    requires
        inky(p),
        occurs_at(s, p, k),
        k <= i < k + p.len(),
    ensures
        !white(s[i]),
{
    assert(s.subrange(k, k + p.len())[i - k] == s[i]);
    assert(!white(p[i - k]));
}

/// Where a text without whitespace occurs in a joined pair.
proof fn lemma_occurs_pair(x: Seq<char>, y: Seq<char>, p: Seq<char>, k: int)
    requires
        inky(p),
    ensures
        ({
            let w = pair(x, y);
            let l = trimmed_end(x).len() as int;
            let f = first_ink(y, 0);
            &&& k < l ==> occurs_at(w, p, k) == occurs_at(x, p, k)
            &&& k == l ==> !occurs_at(w, p, k)
            &&& k >= l ==> !occurs_at(x, p, k)
            &&& k > l ==> occurs_at(w, p, k) == occurs_at(y, p, f + k - l - 1)
            &&& k < f ==> !occurs_at(y, p, k)
        }),
{
    lemma_pair(x, y);
    let w = pair(x, y);
    let n = p.len() as int;
    let l = trimmed_end(x).len() as int;
    let f = first_ink(y, 0);
    if occurs_at(w, p, k) {
        lemma_occurs_inky(w, p, k, k);
        if k < l {
            if k + n > l {
                lemma_occurs_inky(w, p, k, l);
            }
            assert(x.subrange(k, k + n) =~= w.subrange(k, k + n));
        } else if k > l {
            let j = f + k - l - 1;
            assert(y.subrange(j, j + n) =~= w.subrange(k, k + n));
        }
    }
    if occurs_at(x, p, k) {
        lemma_occurs_inky(x, p, k, k);
        lemma_occurs_inky(x, p, k, k + n - 1);
        if k < l {
            assert(w.subrange(k, k + n) =~= x.subrange(k, k + n));
        }
    }
    if occurs_at(y, p, k) {
        lemma_occurs_inky(y, p, k, k);
    }
    if k > l && occurs_at(y, p, f + k - l - 1) {
        let j = f + k - l - 1;
        assert(w.subrange(k, k + n) =~= y.subrange(j, j + n));
    }
}

/// The commands that begin and end display math environments hold no
/// whitespace.
proof fn lemma_env_inky(command: Seq<char>, e: int)
    requires
        command == "\\begin{"@ || command == "\\end{"@,
        0 <= e < math_envs().len(),
    ensures
        inky(command + math_envs()[e]),
{
    reveal_strlit("\\begin{");
    reveal_strlit("\\end{");
    reveal_strlit("equation");
    reveal_strlit("align");
    reveal_strlit("gather");
    reveal_strlit("multline");
    reveal_strlit("eqnarray");
    reveal_strlit("alignat");
    reveal_strlit("flalign");
    reveal_strlit("displaymath");
    let name = math_envs()[e];
    assert(inky(command));
    assert(inky(name));
    let p = command + name;
    assert forall|i: int| 0 <= i < p.len() implies !white(#[trigger] p[i]) by {
        if i < command.len() {
            assert(p[i] == command[i]);
        } else {
            assert(p[i] == name[i - command.len()]);
        }
    }
}

/// Where environments begin and end in a joined pair.
proof fn lemma_env_pair(x: Seq<char>, y: Seq<char>, command: Seq<char>, k: int)
    requires
        command == "\\begin{"@ || command == "\\end{"@,
    ensures
        ({
            let w = pair(x, y);
            let l = trimmed_end(x).len() as int;
            let f = first_ink(y, 0);
            &&& k < l ==> math_env_at(w, command, k) == math_env_at(x, command, k)
            &&& k == l ==> !math_env_at(w, command, k)
            &&& k >= l ==> !math_env_at(x, command, k)
            &&& k > l ==> math_env_at(w, command, k) == math_env_at(y, command, f + k - l - 1)
            &&& k < f ==> !math_env_at(y, command, k)
        }),
{
    let w = pair(x, y);
    let l = trimmed_end(x).len() as int;
    let j = first_ink(y, 0) + k - l - 1;
    assert forall|e: int| 0 <= e < math_envs().len() implies {
        let p = command + #[trigger] math_envs()[e];
        &&& k < l ==> occurs_at(w, p, k) == occurs_at(x, p, k)
        &&& k == l ==> !occurs_at(w, p, k)
        &&& k >= l ==> !occurs_at(x, p, k)
        &&& k > l ==> occurs_at(w, p, k) == occurs_at(y, p, j)
        &&& k < first_ink(y, 0) ==> !occurs_at(y, p, k)
    } by {
        lemma_env_inky(command, e);
        lemma_occurs_pair(x, y, command + math_envs()[e], k);
    }
    lemma_env_same(w, x, command, k, k, k < l);
    lemma_env_same(w, y, command, k, j, k > l);
}

proof fn lemma_env_same(
    s: Seq<char>,
    t: Seq<char>,
    command: Seq<char>,
    i: int,
    j: int,
    given: bool,
)
    requires
        given ==> forall|e: int|
            0 <= e < math_envs().len() ==> {
                let p = command + #[trigger] math_envs()[e];
                occurs_at(s, p, i) == occurs_at(t, p, j)
            },
    ensures
        given ==> math_env_at(s, command, i) == math_env_at(t, command, j),
{
    if given {
        if math_env_at(s, command, i) {
            let e = choose|e: int|
                0 <= e < math_envs().len() && occurs_at(s, command + #[trigger] math_envs()[e], i);
            assert(occurs_at(t, command + math_envs()[e], j));
        }
        if math_env_at(t, command, j) {
            let e = choose|e: int|
                0 <= e < math_envs().len() && occurs_at(t, command + #[trigger] math_envs()[e], j);
            assert(occurs_at(s, command + math_envs()[e], i));
        }
    }
}

// ---------------------------------------------------------------------------
// Math in a joined pair

proof fn lemma_math_white(s: Seq<char>, a: int, b: int, start: bool)
    requires
        0 <= a <= b <= s.len(),
        forall|i: int| a <= i < b ==> white(#[trigger] s[i]),
    ensures
        math_at(s, b, start) == math_at(s, a, start),
    decreases b - a,
{
    if a < b {
        lemma_math_white(s, a, b - 1, start);
        assert(white(s[b - 1]));
    }
}

proof fn lemma_math_same(
    s: Seq<char>,
    d: int,
    t: Seq<char>,
    c: int,
    m: int,
    a: bool,
    b: bool,
)
    requires
        0 <= m,
        0 <= d,
        d + m <= s.len(),
        0 <= c,
        c + m <= t.len(),
        forall|i: int| 0 <= i < m ==> #[trigger] s[d + i] == t[c + i],
        !after_backslash(s, d),
        !after_backslash(t, c),
        math_at(s, d, a) == math_at(t, c, b),
    ensures
        math_at(s, d + m, a) == math_at(t, c + m, b),
    decreases m,
{
    if m > 0 {
        lemma_math_same(s, d, t, c, m - 1, a, b);
        assert(s[d + (m - 1)] == t[c + (m - 1)]);
        if m > 1 {
            assert(s[d + (m - 2)] == t[c + (m - 2)]);
        }
    }
}

/// Inline math in a joined pair.
proof fn lemma_math_pair(x: Seq<char>, y: Seq<char>, start: bool)
    ensures
        ({
            let w = pair(x, y);
            let l = trimmed_end(x).len() as int;
            let f = first_ink(y, 0);
            let mid = math_at(x, x.len() as int, start);
            &&& forall|k: int|
                0 <= k <= l ==> #[trigger] math_at(w, k, start) == math_at(x, k, start)
            &&& forall|m: int|
                l < m <= w.len() ==> #[trigger] math_at(w, m, start) == math_at(
                    y,
                    f + m - l - 1,
                    mid,
                )
            &&& math_at(w, w.len() as int, start) == math_at(y, y.len() as int, mid)
        }),
{
    lemma_pair(x, y);
    let w = pair(x, y);
    let l = trimmed_end(x).len() as int;
    let f = first_ink(y, 0);
    let mid = math_at(x, x.len() as int, start);
    assert forall|k: int| 0 <= k <= l implies #[trigger] math_at(w, k, start) == math_at(
        x,
        k,
        start,
    ) by {
        assert forall|i: int| 0 <= i < k implies #[trigger] w[0 + i] == x[0 + i] by {}
        lemma_math_same(w, 0, x, 0, k, start, start);
    }
    lemma_math_white(x, l, x.len() as int, start);
    assert(math_at(w, l, start) == mid);
    assert(math_at(w, l + 1, start) == mid);
    lemma_math_white(y, 0, f, mid);
    assert(f > 0 ==> white(y[f - 1]));
    assert forall|m: int| l < m <= w.len() implies #[trigger] math_at(w, m, start) == math_at(
        y,
        f + m - l - 1,
        mid,
    ) by {
        let n = m - l - 1;
        assert forall|i: int| 0 <= i < n implies #[trigger] w[l + 1 + i] == y[f + i] by {}
        lemma_math_same(w, l + 1, y, f, n, start, mid);
        assert(l + 1 + n == m);
    }
    assert(math_at(w, w.len() as int, start) == math_at(y, f + (w.len() - l - 1), mid));
}

/// An equals sign outside math in a joined pair is one of its lines.
proof fn lemma_bare_pair(x: Seq<char>, y: Seq<char>, start: bool)
    requires
        !bare_equals(x, start),
        !bare_equals(y, math_at(x, x.len() as int, start)),
    ensures
        !bare_equals(pair(x, y), start),
{
    lemma_pair(x, y);
    lemma_math_pair(x, y, start);
    let w = pair(x, y);
    let l = trimmed_end(x).len() as int;
    let f = first_ink(y, 0);
    let mid = math_at(x, x.len() as int, start);
    if bare_equals(w, start) {
        let k = choose|k: int| 0 <= k < w.len() && w[k] == '=' && !math_at(w, k, start);
        if k < l {
            assert(x[k] == '=' && !math_at(x, k, start));
        } else {
            assert(k != l);
            let j = f + k - l - 1;
            assert(y[j] == '=' && !math_at(y, j, mid));
        }
    }
}

// ---------------------------------------------------------------------------
// Display math in a joined pair

/// A report that looks for both kinds of command.
spec fn keen() -> Pattern {
    Pattern { contains_env_begin: true, contains_env_end: true, contains_verb: true }
}

/// Whether a report misses no command that begins or ends display math.
pub open spec fn misses_no_env(line: Seq<char>, pattern: Pattern) -> bool {
    &&& forall|k: int|
        #[trigger] math_env_at(line, "\\begin{"@, k) ==> pattern.contains_env_begin
    &&& forall|k: int| #[trigger] math_env_at(line, "\\end{"@, k) ==> pattern.contains_env_end
}

proof fn lemma_keen(line: Seq<char>, pattern: Pattern, k: int, d: usize)
    requires
        misses_no_env(line, pattern),
    ensures
        math_depth_at(line, pattern, k, d) == math_depth_at(line, keen(), k, d),
    decreases k,
{
    if k > 0 {
        lemma_keen(line, pattern, k - 1, d);
        assert(math_env_at(line, "\\begin{"@, k - 1) ==> pattern.contains_env_begin);
        assert(math_env_at(line, "\\end{"@, k - 1) ==> pattern.contains_env_end);
    }
}

proof fn lemma_depth_none(s: Seq<char>, a: int, b: int, d: usize)
    requires
        0 <= a <= b,
        forall|i: int| a <= i < b ==> !#[trigger] math_env_at(s, "\\begin{"@, i),
        forall|i: int| a <= i < b ==> !#[trigger] math_env_at(s, "\\end{"@, i),
    ensures
        math_depth_at(s, keen(), b, d) == math_depth_at(s, keen(), a, d),
    decreases b - a,
{
    if a < b {
        lemma_depth_none(s, a, b - 1, d);
        assert(!math_env_at(s, "\\begin{"@, b - 1));
        assert(!math_env_at(s, "\\end{"@, b - 1));
    }
}

proof fn lemma_depth_same(
    s: Seq<char>,
    d: int,
    t: Seq<char>,
    c: int,
    m: int,
    a: usize,
    b: usize,
)
    requires
        0 <= m,
        0 <= d,
        0 <= c,
        forall|i: int|
            0 <= i < m ==> #[trigger] math_env_at(s, "\\begin{"@, d + i) == math_env_at(
                t,
                "\\begin{"@,
                c + i,
            ),
        forall|i: int|
            0 <= i < m ==> #[trigger] math_env_at(s, "\\end{"@, d + i) == math_env_at(
                t,
                "\\end{"@,
                c + i,
            ),
        math_depth_at(s, keen(), d, a) == math_depth_at(t, keen(), c, b),
    ensures
        math_depth_at(s, keen(), d + m, a) == math_depth_at(t, keen(), c + m, b),
    decreases m,
{
    if m > 0 {
        lemma_depth_same(s, d, t, c, m - 1, a, b);
        assert(math_env_at(s, "\\begin{"@, d + (m - 1)) == math_env_at(
            t,
            "\\begin{"@,
            c + (m - 1),
        ));
        assert(math_env_at(s, "\\end{"@, d + (m - 1)) == math_env_at(t, "\\end{"@, c + (m - 1)));
    }
}

/// Display math in a joined pair.
proof fn lemma_depth_pair(x: Seq<char>, y: Seq<char>, d: usize)
    ensures
        ({
            let w = pair(x, y);
            let mid = math_depth_at(x, keen(), x.len() as int, d);
            math_depth_at(w, keen(), w.len() as int, d) == math_depth_at(
                y,
                keen(),
                y.len() as int,
                mid,
            )
        }),
{
    lemma_pair(x, y);
    let w = pair(x, y);
    let l = trimmed_end(x).len() as int;
    let f = first_ink(y, 0);
    let n = w.len() - l - 1;
    let mid = math_depth_at(x, keen(), x.len() as int, d);
    assert forall|i: int| 0 <= i < l implies #[trigger] math_env_at(w, "\\begin{"@, 0 + i)
        == math_env_at(x, "\\begin{"@, 0 + i) by {
        lemma_env_pair(x, y, "\\begin{"@, i);
    }
    assert forall|i: int| 0 <= i < l implies #[trigger] math_env_at(w, "\\end{"@, 0 + i)
        == math_env_at(x, "\\end{"@, 0 + i) by {
        lemma_env_pair(x, y, "\\end{"@, i);
    }
    lemma_depth_same(w, 0, x, 0, l, d, d);
    assert forall|i: int| l <= i < x.len() implies !#[trigger] math_env_at(x, "\\begin{"@, i) by {
        lemma_env_pair(x, y, "\\begin{"@, i);
    }
    assert forall|i: int| l <= i < x.len() implies !#[trigger] math_env_at(x, "\\end{"@, i) by {
        lemma_env_pair(x, y, "\\end{"@, i);
    }
    lemma_depth_none(x, l, x.len() as int, d);
    lemma_env_pair(x, y, "\\begin{"@, l);
    lemma_env_pair(x, y, "\\end{"@, l);
    assert(math_depth_at(w, keen(), l + 1, d) == mid);
    assert forall|i: int| 0 <= i < f implies !#[trigger] math_env_at(y, "\\begin{"@, i) by {
        lemma_env_pair(x, y, "\\begin{"@, i);
    }
    assert forall|i: int| 0 <= i < f implies !#[trigger] math_env_at(y, "\\end{"@, i) by {
        lemma_env_pair(x, y, "\\end{"@, i);
    }
    lemma_depth_none(y, 0, f, mid);
    assert forall|i: int| 0 <= i < n implies #[trigger] math_env_at(w, "\\begin{"@, l + 1 + i)
        == math_env_at(y, "\\begin{"@, f + i) by {
        lemma_env_pair(x, y, "\\begin{"@, l + 1 + i);
    }
    assert forall|i: int| 0 <= i < n implies #[trigger] math_env_at(w, "\\end{"@, l + 1 + i)
        == math_env_at(y, "\\end{"@, f + i) by {
        lemma_env_pair(x, y, "\\end{"@, l + 1 + i);
    }
    lemma_depth_same(w, l + 1, y, f, n, d, mid);
    assert(l + 1 + n == w.len());
    assert(f + n == y.len());
}

/// No environment begins in a line.
spec fn begins_none(s: Seq<char>) -> bool {
    forall|k: int| !#[trigger] math_env_at(s, "\\begin{"@, k)
}

proof fn lemma_begins_pair(x: Seq<char>, y: Seq<char>)
    requires
        begins_none(x),
        begins_none(y),
    ensures
        begins_none(pair(x, y)),
{
    assert forall|k: int| !#[trigger] math_env_at(pair(x, y), "\\begin{"@, k) by {
        lemma_env_pair(x, y, "\\begin{"@, k);
    }
}

// ---------------------------------------------------------------------------
// The ends of a joined pair

/// A joined pair starts like its first line and ends like its last.
proof fn lemma_ends_pair(x: Seq<char>, y: Seq<char>)
    requires
        trimmed(x).len() > 0,
        trimmed(y).len() > 0,
    ensures
        ({
            let w = pair(x, y);
            &&& first_ink(w, 0) == first_ink(x, 0)
            &&& first_ink(x, 0) < trimmed_end(x).len()
            &&& trimmed_end(w).len() > 0
            &&& trimmed_end(w).last() == trimmed_end(y).last()
            &&& trimmed_end(y).len() > 0
            &&& trimmed(w).len() > 0
            &&& w[first_ink(w, 0)] == x[first_ink(x, 0)]
        }),
{
    lemma_pair(x, y);
    let w = pair(x, y);
    let l = trimmed_end(x).len() as int;
    let f = first_ink(y, 0);
    lemma_trimmed(x);
    lemma_trimmed(y);
    let a = first_ink(x, 0);
    let b = ink_end(x, a, x.len() as int);
    assert(b <= l);
    lemma_first_at(w, a);
    lemma_ink_end(y, 0, y.len() as int);
    lemma_ink_end(w, 0, w.len() as int);
    let d = ink_end(y, 0, y.len() as int);
    let e = ink_end(w, 0, w.len() as int);
    let v = ink_end(y, f, y.len() as int);
    assert(v <= d);
    assert(f < d);
    let z = l + 1 + (d - f);
    assert(w[z - 1] == y[d - 1]);
    assert(e >= z);
    assert(e > z ==> w[e - 1] == y[f + (e - 1) - l - 1]);
    assert(e == z);
    assert(trimmed_end(w).last() == w[e - 1]);
    assert(trimmed_end(y).last() == y[d - 1]);
    lemma_trimmed(w);
}

/// The first ink of a text.
proof fn lemma_first_at(s: Seq<char>, a: int)
    requires
        0 <= a < s.len(),
        !white(s[a]),
        forall|k: int| 0 <= k < a ==> white(#[trigger] s[k]),
    ensures
        first_ink(s, 0) == a,
{
    lemma_first_ink(s, 0);
    let f = first_ink(s, 0);
    if f < a {
        assert(white(s[f]));
    }
}

/// A text without whitespace begins a trimmed line exactly if it occurs at the
/// first ink of the line.
proof fn lemma_begins_at_ink(s: Seq<char>, p: Seq<char>)
    requires
        inky(p),
    ensures
        begins_with(trimmed(s), p) == occurs_at(s, p, first_ink(s, 0)),
        begins_with(trimmed_start(s), p) == occurs_at(s, p, first_ink(s, 0)),
{
    lemma_trimmed(s);
    lemma_first_ink(s, 0);
    let a = first_ink(s, 0);
    let b = ink_end(s, a, s.len() as int);
    let n = p.len() as int;
    let t = trimmed(s);
    let u = trimmed_start(s);
    if begins_with(t, p) {
        assert(s.subrange(a, a + n) =~= t.subrange(0, n));
    }
    if begins_with(u, p) {
        assert(s.subrange(a, a + n) =~= u.subrange(0, n));
    }
    if occurs_at(s, p, a) {
        lemma_occurs_inky(s, p, a, a + n - 1);
        assert(a + n <= b);
        assert(t.subrange(0, n) =~= s.subrange(a, a + n));
        assert(u.subrange(0, n) =~= s.subrange(a, a + n));
    }
}

/// A text without whitespace occurs in a line exactly if it occurs in the
/// trimmed line.
proof fn lemma_holds_trimmed(s: Seq<char>, p: Seq<char>)
    requires
        inky(p),
    ensures
        holds(trimmed(s), p) == holds(s, p),
{
    lemma_trimmed(s);
    let a = first_ink(s, 0);
    let b = ink_end(s, a, s.len() as int);
    let n = p.len() as int;
    let t = trimmed(s);
    if holds(t, p) {
        let i = choose|i: int| occurs_at(t, p, i);
        assert(s.subrange(a + i, a + i + n) =~= t.subrange(i, i + n));
        assert(occurs_at(s, p, a + i));
    }
    if holds(s, p) {
        let i = choose|i: int| occurs_at(s, p, i);
        lemma_occurs_inky(s, p, i, i);
        lemma_occurs_inky(s, p, i, i + n - 1);
        assert(a <= i && i + n <= b);
        assert(t.subrange(i - a, i - a + n) =~= s.subrange(i, i + n));
        assert(occurs_at(t, p, i - a));
    }
}

// ---------------------------------------------------------------------------
// Joined paragraphs

/// Inline math behind the lines `s..e`.
spec fn math_over(ls: Seq<Seq<char>>, s: int, e: int, start: bool) -> bool
    decreases e - s,
{
    if e <= s {
        start
    } else {
        math_at(ls[e - 1], ls[e - 1].len() as int, math_over(ls, s, e - 1, start))
    }
}

/// The depth of display math behind the lines `s..e`.
spec fn depth_over(ls: Seq<Seq<char>>, s: int, e: int, d: usize) -> usize
    decreases e - s,
{
    if e <= s {
        d
    } else {
        math_depth_at(ls[e - 1], keen(), ls[e - 1].len() as int, depth_over(ls, s, e - 1, d))
    }
}

/// Inline math in a joined paragraph is that in its lines.
proof fn lemma_chain_math(ls: Seq<Seq<char>>, s: int, e: int, start: bool)
    requires
        0 <= s < e <= ls.len(),
        forall|k: int|
            s <= k < e ==> !bare_equals(#[trigger] ls[k], math_over(ls, s, k, start)),
    ensures
        math_at(chain(ls, s, e), chain(ls, s, e).len() as int, start) == math_over(
            ls,
            s,
            e,
            start,
        ),
        !bare_equals(chain(ls, s, e), start),
    decreases e - s,
{
    if e == s + 1 {
        assert(!bare_equals(ls[s], math_over(ls, s, s, start)));
        assert(math_over(ls, s, s, start) == start);
    } else {
        lemma_chain_math(ls, s, e - 1, start);
        let x = chain(ls, s, e - 1);
        let y = ls[e - 1];
        assert(chain(ls, s, e) == pair(x, y));
        lemma_math_pair(x, y, start);
        assert(!bare_equals(ls[e - 1], math_over(ls, s, e - 1, start)));
        lemma_bare_pair(x, y, start);
    }
}

/// Display math in a joined paragraph is that in its lines.
proof fn lemma_chain_depth(ls: Seq<Seq<char>>, s: int, e: int, d: usize)
    requires
        0 <= s < e <= ls.len(),
        forall|k: int| s <= k < e ==> begins_none(#[trigger] ls[k]),
    ensures
        math_depth_at(chain(ls, s, e), keen(), chain(ls, s, e).len() as int, d) == depth_over(
            ls,
            s,
            e,
            d,
        ),
        begins_none(chain(ls, s, e)),
    decreases e - s,
{
    if e == s + 1 {
        assert(begins_none(ls[s]));
        assert(depth_over(ls, s, s, d) == d);
    } else {
        lemma_chain_depth(ls, s, e - 1, d);
        let x = chain(ls, s, e - 1);
        let y = ls[e - 1];
        assert(chain(ls, s, e) == pair(x, y));
        assert(begins_none(ls[e - 1]));
        lemma_depth_pair(x, y, d);
        lemma_begins_pair(x, y);
    }
}

/// The ends of a joined paragraph are those of its lines.
proof fn lemma_chain_ends(ls: Seq<Seq<char>>, s: int, e: int, p: Seq<char>)
    requires
        0 <= s < e <= ls.len(),
        inky(p),
        forall|k: int| s <= k < e ==> trimmed(#[trigger] ls[k]).len() > 0,
    ensures
        ({
            let c = chain(ls, s, e);
            &&& trimmed(c).len() > 0
            &&& trimmed_end(c).len() > 0
            &&& trimmed_end(ls[e - 1]).len() > 0
            &&& trimmed_end(c).last() == trimmed_end(ls[e - 1]).last()
            &&& begins_with(trimmed(c), p) == begins_with(trimmed(ls[s]), p)
            &&& begins_with(trimmed_start(c), p) == begins_with(trimmed_start(ls[s]), p)
            &&& holds(trimmed(ls[s]), p) ==> holds(trimmed(c), p)
        }),
    decreases e - s,
{
    let c = chain(ls, s, e);
    let first = ls[s];
    assert(trimmed(ls[s]).len() > 0);
    lemma_begins_at_ink(first, p);
    lemma_begins_at_ink(c, p);
    lemma_holds_trimmed(first, p);
    lemma_holds_trimmed(c, p);
    if e == s + 1 {
        lemma_trimmed(first);
        lemma_ink_end(first, 0, first.len() as int);
        assert(!white(first[first_ink(first, 0)]));
    } else {
        lemma_chain_ends(ls, s, e - 1, p);
        let x = chain(ls, s, e - 1);
        let y = ls[e - 1];
        assert(trimmed(ls[e - 1]).len() > 0);
        assert(c == pair(x, y));
        lemma_ends_pair(x, y);
        lemma_begins_at_ink(x, p);
        lemma_holds_trimmed(x, p);
        lemma_occurs_pair(x, y, p, first_ink(x, 0));
        if holds(x, p) {
            let i = choose|i: int| occurs_at(x, p, i);
            lemma_occurs_pair(x, y, p, i);
            assert(occurs_at(c, p, i));
        }
    }
}

// ---------------------------------------------------------------------------
// Reports

/// Whether a report on a joined line says what the reports on its lines said.
pub open spec fn same_findings(
    ls: Seq<Seq<char>>,
    scans: Seq<LineScan>,
    verbs: Seq<String>,
    b: Block,
    r: LineScan,
) -> bool {
    let (s, e) = (b.start as int, b.end as int);
    let line = chain(ls, s, e);
    let last = scans[e - 1];
    if b.prose {
        &&& !r.fixed()
        &&& !r.splitting
        &&& !(r.pattern.contains_verb && holds_verb(line, verbs))
        &&& misses_no_env(line, r.pattern)
        &&& r.forced_break == last.forced_break
        &&& match last.comment {
            Some(c) => {
                &&& c < ls[e - 1].len()
                &&& !white(ls[e - 1][c as int])
                &&& r.comment == Some((line.len() - (ls[e - 1].len() - c)) as usize)
            },
            None => r.comment is None,
        }
    } else {
        r == scans[s]
    }
}

/// The lines of a document without their comments.
spec fn bare_lines(ls: Seq<Seq<char>>, scans: Seq<LineScan>) -> Seq<Seq<char>> {
    Seq::new(ls.len(), |k: int| uncommented(ls[k], scans[k]))
}

/// A joined paragraph without its comment is made of its lines without theirs.
proof fn lemma_uncommented_chain(
    ls: Seq<Seq<char>>,
    scans: Seq<LineScan>,
    verbs: Seq<String>,
    b: Block,
    r: LineScan,
)
    requires
        b.prose,
        b.start < b.end <= ls.len() == scans.len(),
        chain(ls, b.start as int, b.end as int).len() <= usize::MAX,
        same_findings(ls, scans, verbs, b, r),
        forall|k: int| b.start <= k < b.end - 1 ==> (#[trigger] scans[k]).comment is None,
        b.end == b.start + 1 ==> scans[b.start as int].comment is None,
    ensures
        uncommented(chain(ls, b.start as int, b.end as int), r) == chain(
            bare_lines(ls, scans),
            b.start as int,
            b.end as int,
        ),
{
    let (s, e) = (b.start as int, b.end as int);
    let ul = bare_lines(ls, scans);
    let line = chain(ls, s, e);
    assert forall|k: int| s <= k < e - 1 implies ul[k + 0] == #[trigger] ls[k] by {
        assert(scans[k].comment is None);
    }
    match scans[e - 1].comment {
        None => {
            assert forall|k: int| s <= k < e implies ul[k + 0] == #[trigger] ls[k] by {
                if k == e - 1 {
                    assert(scans[e - 1].comment is None);
                }
            }
            lemma_chain_moved(ul, ls, 0, s, e);
        },
        Some(c) => {
            lemma_chain_moved(ul, ls, 0, s, e - 1);
            let x = chain(ls, s, e - 1);
            let y = ls[e - 1];
            let z = y.subrange(0, c as int);
            assert(ul[e - 1] == z);
            lemma_pair(x, y);
            lemma_pair(x, z);
            let f = first_ink(y, 0);
            lemma_first_ink(y, 0);
            lemma_first_ink(z, 0);
            assert(f <= c) by {
                if f > c {
                    assert(white(y[c as int]));
                }
            }
            assert(first_ink(z, 0) == f) by {
                let g = first_ink(z, 0);
                if g < f {
                    assert(z[g] == y[g]);
                }
                if g > f {
                    assert(z[f] == y[f]);
                    assert(white(z[f]));
                }
            }
            let cut = line.len() - (y.len() - c);
            assert(line.subrange(0, cut) =~= pair(x, z));
        },
    }
}

/// What is known in and behind a paragraph of a document.
proof fn lemma_inside(
    ls: Seq<Seq<char>>,
    scans: Seq<LineScan>,
    verbs: Seq<String>,
    b: Block,
    k: int,
)
    requires
        b.prose,
        b.start < b.end <= ls.len(),
        ls.len() == scans.len(),
        block_fits(roles(ls, scans, verbs), false, b),
        forall|m: int| 0 <= m < ls.len() ==> misses_no_env(#[trigger] ls[m], scans[m].pattern),
        b.start < k <= b.end,
    ensures
        ({
            let t = track_at(ls, scans, verbs, b.start as int);
            let u = track_at(ls, scans, verbs, k);
            let ul = bare_lines(ls, scans);
            &&& u.in_inline_math == math_over(ul, b.start as int, k, t.in_inline_math)
            &&& u.math_depth == depth_over(ls, b.start as int, k, t.math_depth)
            &&& u.math_depth == 0
            &&& !u.in_display
            &&& u.after_boundary == ends_in(trimmed_end(ls[k - 1]), '{')
            &&& !bare_equals(
                ul[k - 1],
                math_over(ul, b.start as int, k - 1, t.in_inline_math),
            )
            &&& begins_none(ls[k - 1])
            &&& trimmed(ls[k - 1]).len() > 0
        }),
    decreases k,
{
    let s = b.start as int;
    let rs = roles(ls, scans, verbs);
    let ul = bare_lines(ls, scans);
    let t = track_at(ls, scans, verbs, s);
    let before = track_at(ls, scans, verbs, k - 1);
    let line = ls[k - 1];
    let scan = scans[k - 1];
    assert(rs[k - 1].flows);
    if k - 1 > s {
        lemma_inside(ls, scans, verbs, b, k - 1);
    } else {
        assert(math_over(ul, s, s, t.in_inline_math) == t.in_inline_math);
        assert(depth_over(ls, s, s, t.math_depth) == t.math_depth);
    }
    assert(misses_no_env(ls[k - 1], scans[k - 1].pattern));
    lemma_keen(line, scan.pattern, line.len() as int, before.math_depth);
    assert(ul[k - 1] == uncommented(line, scan));
    assert forall|m: int| !#[trigger] math_env_at(line, "\\begin{"@, m) by {
        if math_env_at(line, "\\begin{"@, m) {
            let e = choose|e: int|
                0 <= e < math_envs().len() && occurs_at(
                    line,
                    "\\begin{"@ + #[trigger] math_envs()[e],
                    m,
                );
            lemma_env_inky("\\begin{"@, e);
            assert(0 <= m < line.len());
            assert(opens_math(line, scan.pattern));
        }
    }
    lemma_depth_zero(line, scan.pattern, line.len() as int);
}

/// A line that begins no display math leaves none open behind it.
proof fn lemma_depth_zero(line: Seq<char>, pattern: Pattern, k: int)
    requires
        forall|i: int| !#[trigger] math_env_at(line, "\\begin{"@, i),
    ensures
        math_depth_at(line, pattern, k, 0) == 0,
    decreases k,
{
    if k > 0 {
        lemma_depth_zero(line, pattern, k - 1);
        assert(!math_env_at(line, "\\begin{"@, k - 1));
    }
}

/// The prefixes that lines are tested for hold no whitespace.
proof fn lemma_prefixes_inky()
    ensures
        inky("\\["@),
        inky("\\]"@),
        inky("$$"@),
        inky("}"@),
        inky("%"@),
        inky("\\"@),
        inky("{"@),
        inky("\\paragraph"@),
        inky("\\subparagraph"@),
{
    reveal_strlit("\\[");
    reveal_strlit("\\]");
    reveal_strlit("$$");
    reveal_strlit("}");
    reveal_strlit("%");
    reveal_strlit("\\");
    reveal_strlit("{");
    reveal_strlit("\\paragraph");
    reveal_strlit("\\subparagraph");
}

/// A joined paragraph, in the place of its lines, flows, and leaves known what
/// its lines leave known.
proof fn lemma_rejoined_block(
    ls: Seq<Seq<char>>,
    scans: Seq<LineScan>,
    verbs: Seq<String>,
    b: Block,
    r: LineScan,
)
    requires
        b.prose,
        b.start < b.end <= ls.len(),
        ls.len() == scans.len(),
        chain(ls, b.start as int, b.end as int).len() <= usize::MAX,
        block_fits(roles(ls, scans, verbs), false, b),
        forall|m: int| 0 <= m < ls.len() ==> misses_no_env(#[trigger] ls[m], scans[m].pattern),
        same_findings(ls, scans, verbs, b, r),
    ensures
        ({
            let (s, e) = (b.start as int, b.end as int);
            let t = track_at(ls, scans, verbs, s);
            let line = chain(ls, s, e);
            let role = role_of(t, line, r, verbs);
            &&& role.flows
            &&& role.begins ==> absorbs(ls[e - 1], scans[e - 1])
            &&& track_after(t, line, r, verbs) == track_at(ls, scans, verbs, e)
        }),
{
    let (s, e) = (b.start as int, b.end as int);
    let rs = roles(ls, scans, verbs);
    let t = track_at(ls, scans, verbs, s);
    let u = track_at(ls, scans, verbs, e);
    let line = chain(ls, s, e);
    let ul = bare_lines(ls, scans);
    let first = ls[s];
    assert forall|k: int| s <= k < e implies trimmed(#[trigger] ls[k]).len() > 0 by {
        lemma_inside(ls, scans, verbs, b, k + 1);
    }
    assert forall|k: int| s <= k < e implies begins_none(#[trigger] ls[k]) by {
        lemma_inside(ls, scans, verbs, b, k + 1);
    }
    assert forall|k: int| s <= k < e implies !bare_equals(
        #[trigger] ul[k],
        math_over(ul, s, k, t.in_inline_math),
    ) by {
        lemma_inside(ls, scans, verbs, b, k + 1);
    }
    lemma_inside(ls, scans, verbs, b, e);
    lemma_inside(ls, scans, verbs, b, s + 1);
    assert(rs[s].flows && rs[s].begins);
    assert forall|k: int| s <= k < e - 1 implies (#[trigger] scans[k]).comment is None by {
        assert(rs[k].absorbs);
    }
    lemma_uncommented_chain(ls, scans, verbs, b, r);
    lemma_chain_math(ul, s, e, t.in_inline_math);
    lemma_chain_depth(ls, s, e, t.math_depth);
    lemma_keen(line, r.pattern, line.len() as int, t.math_depth);
    lemma_prefixes_inky();
    lemma_chain_ends(ls, s, e, "\\["@);
    lemma_chain_ends(ls, s, e, "\\]"@);
    lemma_chain_ends(ls, s, e, "$$"@);
    lemma_chain_ends(ls, s, e, "}"@);
    lemma_chain_ends(ls, s, e, "%"@);
    lemma_chain_ends(ls, s, e, "\\"@);
    lemma_chain_ends(ls, s, e, "{"@);
    lemma_chain_ends(ls, s, e, "\\paragraph"@);
    lemma_chain_ends(ls, s, e, "\\subparagraph"@);
    assert(!opens_math(line, r.pattern));
    assert(!display_after(first, t.in_display));
    assert(!display_after(line, t.in_display));
    assert(!protected_line(t, line, r));
    assert(flows(t, line, r, verbs));
}

// ---------------------------------------------------------------------------
// Joined documents

/// A paragraph extends as far as it can.
proof fn lemma_blocks_reach(rs: Seq<LineRole>, whole: bool, k: int, b: int)
    requires
        0 <= k <= rs.len() <= usize::MAX,
        0 <= b < blocks_from(rs, whole, k).len(),
        blocks_from(rs, whole, k)[b].prose,
    ensures
        blocks_from(rs, whole, k)[b].end == paragraph_end(
            rs,
            whole,
            blocks_from(rs, whole, k)[b].start + 1,
        ),
    decreases rs.len() - k,
{
    if k < rs.len() {
        let bs = blocks_from(rs, whole, k);
        let e = if rs[k].flows && rs[k].begins {
            paragraph_end(rs, whole, k + 1)
        } else {
            k + 1
        };
        lemma_paragraph_end(rs, whole, k + 1);
        if b > 0 {
            assert(bs[b] == blocks_from(rs, whole, e)[b - 1]);
            lemma_blocks_reach(rs, whole, e, b - 1);
        }
    }
}

/// Behind the end of a paragraph whose last line could absorb another, no line
/// flows.
proof fn lemma_paragraph_stops(rs: Seq<LineRole>, k: int)
    requires
        0 < k <= rs.len(),
    ensures
        ({
            let e = paragraph_end(rs, false, k);
            e < rs.len() && rs[e - 1].absorbs ==> !rs[e].flows
        }),
    decreases rs.len() - k,
{
    if k < rs.len() && rs[k].flows && rs[k].absorbs {
        lemma_paragraph_stops(rs, k + 1);
    }
}

/// Where block `i` of a document starts, or the document ends.
spec fn block_start(bs: Seq<Block>, n: int, i: int) -> int {
    if i < bs.len() {
        bs[i].start as int
    } else {
        n
    }
}

/// What is known of the lines of a joined document is what was known of the
/// blocks.
proof fn lemma_rejoined_track(
    ls: Seq<Seq<char>>,
    scans: Seq<LineScan>,
    verbs: Seq<String>,
    again: Seq<LineScan>,
    i: int,
)
    requires
        joined_again(ls, scans, verbs, again),
        0 <= i <= blocks(roles(ls, scans, verbs), false).len(),
    ensures
        ({
            let bs = blocks(roles(ls, scans, verbs), false);
            track_at(joined_parts(ls, bs), again, verbs, i) == track_at(
                ls,
                scans,
                verbs,
                block_start(bs, ls.len() as int, i),
            )
        }),
    decreases i,
{
    let rs = roles(ls, scans, verbs);
    let bs = blocks(rs, false);
    let n = ls.len() as int;
    lemma_blocks(ls, scans, verbs, false);
    if i > 0 {
        lemma_rejoined_track(ls, scans, verbs, again, i - 1);
        let b = bs[i - 1];
        assert(b.start < b.end <= n);
        assert(block_fits(rs, false, bs[i - 1]));
        assert(same_findings(ls, scans, verbs, bs[i - 1], again[i - 1]));
        assert(block_start(bs, n, i) == b.end) by {
            if i < bs.len() {
                assert(bs[i].start == bs[i - 1].end);
            }
        }
        if b.prose {
            assert(chain(ls, b.start as int, b.end as int).len() <= usize::MAX);
            lemma_rejoined_block(ls, scans, verbs, b, again[i - 1]);
        } else {
            assert(b.end == b.start + 1);
        }
    }
}

/// Whether reports on a document and on its joined form agree: each joined line
/// has an entry that says what those on its lines said, and no report misses a
/// command that begins or ends display math.
pub open spec fn joined_again(
    ls: Seq<Seq<char>>,
    scans: Seq<LineScan>,
    verbs: Seq<String>,
    again: Seq<LineScan>,
) -> bool {
    let bs = blocks(roles(ls, scans, verbs), false);
    &&& ls.len() <= usize::MAX
    &&& scans.len() == ls.len()
    &&& again.len() == bs.len()
    &&& forall|k: int| 0 <= k < ls.len() ==> misses_no_env(#[trigger] ls[k], scans[k].pattern)
    &&& forall|i: int|
        0 <= i < bs.len() ==> same_findings(ls, scans, verbs, #[trigger] bs[i], again[i])
    &&& forall|i: int|
        0 <= i < bs.len() ==> chain(
            ls,
            (#[trigger] bs[i]).start as int,
            bs[i].end as int,
        ).len() <= usize::MAX
}

/// The lines of a joined document are blocks by themselves.
proof fn lemma_single_blocks(
    ls: Seq<Seq<char>>,
    scans: Seq<LineScan>,
    verbs: Seq<String>,
    again: Seq<LineScan>,
    i: int,
)
    requires
        joined_again(ls, scans, verbs, again),
        0 <= i < blocks(roles(ls, scans, verbs), false).len(),
    ensures
        ({
            let parts = joined_parts(ls, blocks(roles(ls, scans, verbs), false));
            let rs = roles(parts, again, verbs);
            rs[i].flows && rs[i].begins ==> paragraph_end(rs, false, i + 1) == i + 1
        }),
{
    let rs = roles(ls, scans, verbs);
    let bs = blocks(rs, false);
    let n = ls.len() as int;
    let parts = joined_parts(ls, bs);
    let qs = roles(parts, again, verbs);
    lemma_blocks(ls, scans, verbs, false);
    lemma_rejoined_track(ls, scans, verbs, again, i);
    let b = bs[i];
    assert(b.start < b.end <= n);
    assert(block_fits(rs, false, bs[i]));
    assert(same_findings(ls, scans, verbs, bs[i], again[i]));
    if qs[i].flows && qs[i].begins {
        if !b.prose {
            assert(b.end == b.start + 1);
            assert(qs[i] == rs[b.start as int]);
        }
        assert(chain(ls, b.start as int, b.end as int).len() <= usize::MAX);
        lemma_rejoined_block(ls, scans, verbs, b, again[i]);
        lemma_blocks_reach(rs, false, 0, i);
        lemma_paragraph_stops(rs, b.start + 1);
        assert(rs[b.end - 1].absorbs);
        if i + 1 < bs.len() {
            lemma_rejoined_track(ls, scans, verbs, again, i + 1);
            let c = bs[i + 1];
            assert(bs[i + 1].start == bs[i].end);
            assert(c.start < c.end <= n);
            assert(!rs[c.start as int].flows);
            assert(block_fits(rs, false, bs[i + 1]));
            assert(same_findings(ls, scans, verbs, bs[i + 1], again[i + 1]));
            assert(!c.prose);
            assert(c.end == c.start + 1);
            assert(qs[i + 1] == rs[c.start as int]);
        }
    }
}

/// Joining a document whose lines are blocks by themselves leaves it as it is.
proof fn lemma_joined_singles(parts: Seq<Seq<char>>, rs: Seq<LineRole>, i: int)
    requires
        rs.len() == parts.len() <= usize::MAX,
        0 <= i <= rs.len(),
        forall|k: int|
            0 <= k < rs.len() && (#[trigger] rs[k]).flows && rs[k].begins ==> paragraph_end(
                rs,
                false,
                k + 1,
            ) == k + 1,
    ensures
        blocks_from(rs, false, i).len() == rs.len() - i,
        joined_parts(parts, blocks_from(rs, false, i)) == parts.skip(i),
    decreases rs.len() - i,
{
    if i < rs.len() {
        lemma_joined_singles(parts, rs, i + 1);
        let b = Block {
            start: i as usize,
            end: (i + 1) as usize,
            prose: rs[i].flows && rs[i].begins,
        };
        let rest = blocks_from(rs, false, i + 1);
        assert(blocks_from(rs, false, i) == seq![b] + rest);
        let all = joined_parts(parts, blocks_from(rs, false, i));
        assert forall|k: int| 0 <= k < all.len() implies #[trigger] all[k] == parts.skip(i)[k] by {
            if k == 0 {
                assert(all[0] == chain(parts, i, i + 1));
            } else {
                assert(all[k] == joined_parts(parts, rest)[k - 1]);
                assert(parts.skip(i + 1)[k - 1] == parts.skip(i)[k]);
            }
        }
        assert(all =~= parts.skip(i));
    } else {
        assert(joined_parts(parts, blocks_from(rs, false, i)) =~= parts.skip(i));
    }
}

/// Joining a document without carriage returns twice is joining it once, if the
/// reports on the document and on its joined form agree. What the scanners make
/// of the joined form is theirs to say, so it is taken as given.
pub proof fn law_join_is_stable(
    text: Seq<char>,
    scans: Seq<LineScan>,
    verbs: Seq<String>,
    again: Seq<LineScan>,
)
    requires
        text.len() <= usize::MAX,
        !text.contains('\r'),
        joined_again(lines(text), scans, verbs, again),
    ensures
        ({
            let out = joined_text(text, scans, verbs, seq!['\n']);
            joined_text(out, again, verbs, seq!['\n']) == out
        }),
{
    let f = seq!['\n'];
    let ls = lines(text);
    let n = ls.len() as int;
    let bs = blocks(roles(ls, scans, verbs), false);
    let parts = joined_parts(ls, bs);
    let qs = roles(parts, again, verbs);
    lemma_blocks(ls, scans, verbs, false);
    lemma_joined_glued(ls, bs, f);
    assert forall|i: int| 0 <= i < parts.len() implies one_line(#[trigger] parts[i]) by {
        let b = bs[i];
        assert(bs[i].start < bs[i].end <= n);
        assert forall|k: int| b.start <= k < b.end implies !(#[trigger] ls[k]).contains('\r')
            && !ls[k].contains('\n') by {
            lemma_line_chars(text, k, '\r');
            lemma_line_is_one(text, k);
        }
        lemma_one_line_parts(ls, b.start as int, b.end as int);
    }
    lemma_lines_glued(parts);
    assert(bs.len() <= n) by {
        lemma_tiles_len(bs, n);
    }
    assert forall|k: int| 0 <= k < qs.len() && (#[trigger] qs[k]).flows
        && qs[k].begins implies paragraph_end(qs, false, k + 1) == k + 1 by {
        lemma_single_blocks(ls, scans, verbs, again, k);
    }
    lemma_joined_singles(parts, qs, 0);
    lemma_joined_glued(parts, blocks(qs, false), f);
    assert(parts.skip(0) =~= parts);
}

proof fn lemma_tiles_len(bs: Seq<Block>, n: int)
    requires
        tiles(bs, 0, n),
    ensures
        bs.len() <= n,
    decreases bs.len(),
{
    if bs.len() > 0 {
        assert(bs[bs.len() - 1].start < bs[bs.len() - 1].end);
        lemma_tiles_drop_last(bs, 0, n);
        lemma_tiles_len(bs.drop_last(), bs.last().start as int);
    }
}

} // verus!
