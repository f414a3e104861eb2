//! Which lines may stand in a paragraph, begin one and absorb another, said of
//! their characters.

use vstd::prelude::*;

use crate::paragraphs::{protected_line, role_of, track_after, uncommented, Track};
use crate::prose::{
    absorbs, bare_equals, display_after, excluded, holds_verb, math_at, math_depth_after,
    math_depth_at, math_env_at, math_envs, opens_math, reflowable, text_start,
};
use crate::reading::{
    law_searching, law_trimming, law_trimming_nothing, lemma_parts_of, space, spaces,
};
use crate::scan::{LineScan, Pattern};
use crate::text::{begins_with, ends_in, holds, occurs_at, trimmed, trimmed_end, trimmed_start};

verus! {

// ---------------------------------------------------------------------------
// Starts and ends of lines

/// Whether a line starts with a text, whitespace aside.
pub open spec fn starts(line: Seq<char>, p: Seq<char>) -> bool {
    exists|w: Seq<char>, r: Seq<char>| spaces(w) && line == #[trigger] (w + p + r)
}

/// Whether a line ends in a character, whitespace aside.
pub open spec fn ends(line: Seq<char>, c: char) -> bool {
    exists|a: Seq<char>, z: Seq<char>| spaces(z) && line == #[trigger] (a.push(c) + z)
}

/// Whether a line holds a text.
pub open spec fn within(line: Seq<char>, p: Seq<char>) -> bool {
    exists|a: Seq<char>, b: Seq<char>| line == #[trigger] (a + p + b)
}

/// Whether a text is not empty and holds no whitespace.
pub open spec fn solid(p: Seq<char>) -> bool {
    p.len() > 0 && forall|i: int| 0 <= i < p.len() ==> !space(#[trigger] p[i])
}

/// A text behind whitespace.
proof fn lemma_lead(w: Seq<char>, r: Seq<char>)
    requires
        spaces(w),
        r.len() > 0,
        !space(r[0]),
    ensures
        trimmed_start(w + r) == r,
        trimmed(w + r) == trimmed_end(r),
        trimmed_end(r).len() > 0,
        exists|z: Seq<char>| spaces(z) && r == #[trigger] (trimmed_end(r) + z),
{
    let (a, t, z) = lemma_parts_of(r);
    if spaces(r) {
        assert(space(r[0]));
    }
    if a.len() > 0 {
        assert(r[0] == a[0]);
        assert(space(a[0]));
    }
    assert(a =~= seq![]);
    let e = Seq::<char>::empty();
    assert(e + t + z =~= r);
    law_trimming(e, t, z);
    assert(e + t =~= t);
    law_trimming(w, t, z);
    assert(w + t + z =~= w + r);
    assert(r == trimmed_end(r) + z);
}

/// A line that starts with a text without whitespace.
proof fn lemma_start_found(line: Seq<char>, u: Seq<char>, p: Seq<char>, r: Seq<char>)
    requires
        solid(p),
        spaces(u),
        line == u + p + r,
    ensures
        begins_with(trimmed_start(line), p),
        begins_with(trimmed(line), p),
{
    let q = p + r;
    assert(q[0] == p[0]);
    assert(line =~= u + q);
    lemma_lead(u, q);
    let y = choose|y: Seq<char>| spaces(y) && q == #[trigger] (trimmed_end(q) + y);
    let e = trimmed_end(q);
    if e.len() < p.len() {
        assert(q[e.len() as int] == y[0]);
        assert(q[e.len() as int] == p[e.len() as int]);
    }
    let m = e.subrange(p.len() as int, e.len() as int);
    assert(e =~= p + m) by {
        assert forall|i: int| 0 <= i < e.len() implies #[trigger] e[i] == (p + m)[i] by {
            assert(e[i] == q[i]);
        }
    }
    law_searching(q, p, ' ');
    law_searching(e, p, ' ');
}

/// Starting with a text without whitespace.
proof fn lemma_starts(line: Seq<char>, p: Seq<char>)
    requires
        solid(p),
    ensures
        starts(line, p) == begins_with(trimmed_start(line), p),
        starts(line, p) == begins_with(trimmed(line), p),
{
    let (w, t, z) = lemma_parts_of(line);
    if starts(line, p) {
        let (u, r) = choose|u: Seq<char>, r: Seq<char>|
            spaces(u) && line == #[trigger] (u + p + r);
        lemma_start_found(line, u, p, r);
    }
    law_searching(trimmed_start(line), p, ' ');
    law_searching(trimmed(line), p, ' ');
    if t.len() == 0 {
        law_trimming_nothing(line);
    } else {
        law_trimming(w, t, z);
        if begins_with(trimmed_start(line), p) {
            let r = choose|r: Seq<char>| trimmed_start(line) == #[trigger] (p + r);
            assert(line =~= w + (t + z));
            assert(t + z == p + r);
            assert(w + (p + r) =~= w + p + r);
        }
        if begins_with(trimmed(line), p) {
            let r = choose|r: Seq<char>| trimmed(line) == #[trigger] (p + r);
            assert(t == p + r);
            assert(line =~= w + p + (r + z));
        }
    }
}

/// Ending in a character that is no whitespace.
proof fn lemma_ends(line: Seq<char>, c: char)
    requires
        !space(c),
    ensures
        ends(line, c) == ends_in(trimmed_end(line), c),
{
    let (w, t, z) = lemma_parts_of(line);
    if t.len() == 0 {
        law_trimming_nothing(line);
        if ends(line, c) {
            let (a, y) = choose|a: Seq<char>, y: Seq<char>|
                spaces(y) && line == #[trigger] (a.push(c) + y);
            assert(line[a.len() as int] == c);
            assert(space(line[a.len() as int]));
        }
    } else {
        law_trimming(w, t, z);
        let e = w + t;
        assert(e.last() == t[t.len() - 1]);
        if ends_in(e, c) {
            let a = e.drop_last();
            assert(line =~= a.push(c) + z);
        }
        if ends(line, c) {
            let (a, y) = choose|a: Seq<char>, y: Seq<char>|
                spaces(y) && line == #[trigger] (a.push(c) + y);
            let k = a.len() as int;
            assert(line[k] == c);
            let n = e.len() as int;
            if k >= n {
                assert(line[k] == z[k - n]);
            } else if k < n - 1 {
                assert(line[n - 1] == e[n - 1]);
                assert(line[n - 1] == y[n - 2 - k]);
            }
        }
    }
}

/// A text without whitespace that a line holds lies within the trimmed line.
proof fn lemma_found_within(
    w: Seq<char>,
    t: Seq<char>,
    z: Seq<char>,
    a: Seq<char>,
    p: Seq<char>,
    b: Seq<char>,
)
    requires
        solid(p),
        spaces(w),
        spaces(z),
        w + t + z == a + p + b,
    ensures
        within(t, p),
{
    let line = w + t + z;
    let n = p.len() as int;
    let k = a.len() as int;
    let i = k - w.len();
    assert(line.len() == a.len() + p.len() + b.len());
    assert(line[k] == p[0]);
    assert(line[k + n - 1] == p[n - 1]);
    if k < w.len() {
        assert(w[k] == line[k]);
    }
    if i + n > t.len() {
        assert(line[k + n - 1] == z[i + n - 1 - t.len()]);
    }
    let x = t.subrange(0, i);
    let y = t.subrange(i + n, t.len() as int);
    assert(t.subrange(i, i + n) =~= p) by {
        assert forall|m: int| 0 <= m < n implies t.subrange(i, i + n)[m] == #[trigger] p[m] by {
            assert(t[i + m] == line[k + m]);
            assert(line[k + m] == p[m]);
        }
    }
    assert(t =~= x + t.subrange(i, i + n) + y);
}

/// Holding a text without whitespace.
proof fn lemma_within(line: Seq<char>, p: Seq<char>)
    requires
        solid(p),
    ensures
        within(line, p) == holds(trimmed(line), p),
        within(line, p) == holds(line, p),
{
    let (w, t, z) = lemma_parts_of(line);
    assert(within(line, p) == holds(line, p)) by {
        law_searching(line, p, ' ');
    }
    assert(within(t, p) == holds(t, p)) by {
        law_searching(t, p, ' ');
    }
    if within(t, p) {
        let (a, b) = choose|a: Seq<char>, b: Seq<char>| t == #[trigger] (a + p + b);
        assert(line =~= (w + a) + p + (b + z));
    }
    if within(line, p) {
        let (a, b) = choose|a: Seq<char>, b: Seq<char>| line == #[trigger] (a + p + b);
        lemma_found_within(w, t, z, a, p, b);
    }
}

// ---------------------------------------------------------------------------
// Lines

/// A line absorbs the one behind it unless it has a comment, a forced break or a
/// hyphen at its end.
pub proof fn law_absorbing(line: Seq<char>, scan: LineScan)
    ensures
        absorbs(line, scan) <==> scan.comment is None && !scan.forced_break && !ends(line, '-'),
{
    lemma_ends(line, '-');
}

/// A line starts with text unless it starts with a backslash or an opening
/// brace. Run-in headings count as text.
pub proof fn law_starting_with_text(line: Seq<char>)
    ensures
        text_start(line) <==> {
            ||| !starts(line, seq!['\\']) && !starts(line, seq!['{'])
            ||| starts(line, seq!['\\', 'p', 'a', 'r', 'a', 'g', 'r', 'a', 'p', 'h'])
            ||| starts(
                line,
                seq!['\\', 's', 'u', 'b', 'p', 'a', 'r', 'a', 'g', 'r', 'a', 'p', 'h'],
            )
        },
{
    reveal_strlit("\\");
    reveal_strlit("{");
    reveal_strlit("\\paragraph");
    reveal_strlit("\\subparagraph");
    let h = seq!['\\', 'p', 'a', 'r', 'a', 'g', 'r', 'a', 'p', 'h'];
    let s = seq!['\\', 's', 'u', 'b', 'p', 'a', 'r', 'a', 'g', 'r', 'a', 'p', 'h'];
    assert("\\"@ =~= seq!['\\']);
    assert("{"@ =~= seq!['{']);
    assert("\\paragraph"@ =~= h);
    assert("\\subparagraph"@ =~= s);
    lemma_starts(line, seq!['\\']);
    lemma_starts(line, seq!['{']);
    lemma_starts(line, h);
    lemma_starts(line, s);
}

/// A line that no region protects stands in a paragraph unless it is blank,
/// begins with a comment, a display math delimiter or a closing brace, holds
/// inline verbatim text or a command with a line of its own, or has an equals
/// sign outside inline math.
pub proof fn law_standing(
    line: Seq<char>,
    scan: LineScan,
    verbs: Seq<String>,
    protected: bool,
    bare: bool,
)
    ensures
        reflowable(line, scan, verbs, protected, bare) <==> {
            &&& !protected
            &&& !bare
            &&& !spaces(line)
            &&& !scan.splitting
            &&& !starts(line, seq!['%'])
            &&& !starts(line, seq!['\\', '['])
            &&& !starts(line, seq!['\\', ']'])
            &&& !starts(line, seq!['$', '$'])
            &&& !starts(line, seq!['}'])
            &&& !(scan.pattern.contains_verb && exists|v: int|
                0 <= v < verbs.len() && within(line, (#[trigger] verbs[v])@))
        },
{
    reveal_strlit("%");
    reveal_strlit("\\[");
    reveal_strlit("\\]");
    reveal_strlit("$$");
    reveal_strlit("}");
    assert("%"@ =~= seq!['%']);
    assert("\\["@ =~= seq!['\\', '[']);
    assert("\\]"@ =~= seq!['\\', ']']);
    assert("$$"@ =~= seq!['$', '$']);
    assert("}"@ =~= seq!['}']);
    lemma_starts(line, seq!['%']);
    lemma_starts(line, seq!['\\', '[']);
    lemma_starts(line, seq!['\\', ']']);
    lemma_starts(line, seq!['$', '$']);
    lemma_starts(line, seq!['}']);
    let (w, t, z) = lemma_parts_of(line);
    assert forall|v: int| 0 <= v < verbs.len() implies within(line, (#[trigger] verbs[v])@)
        == holds(line, verbs[v]@) by {
        law_searching(line, verbs[v]@, ' ');
    }
    if holds_verb(line, verbs) {
        let v = choose|v: int| 0 <= v < verbs.len() && holds(line, (#[trigger] verbs[v])@);
        assert(within(line, verbs[v]@));
    }
    if exists|v: int| 0 <= v < verbs.len() && within(line, (#[trigger] verbs[v])@) {
        let v = choose|v: int| 0 <= v < verbs.len() && within(line, (#[trigger] verbs[v])@);
        assert(holds(line, verbs[v]@));
    }
}

/// Files without prose are those with one of three extensions.
pub proof fn law_excluded(extension: Option<&str>)
    ensures
        excluded(extension) <==> {
            ||| extension matches Some(e) && e@ == seq!['b', 'i', 'b']
            ||| extension matches Some(e) && e@ == seq!['s', 't', 'y']
            ||| extension matches Some(e) && e@ == seq!['c', 'l', 's']
        },
{
    reveal_strlit("bib");
    reveal_strlit("sty");
    reveal_strlit("cls");
    assert("bib"@ =~= seq!['b', 'i', 'b']);
    assert("sty"@ =~= seq!['s', 't', 'y']);
    assert("cls"@ =~= seq!['c', 'l', 's']);
}

// ---------------------------------------------------------------------------
// Inline math

/// What is known of a place depends on what stands before it.
proof fn lemma_math_local(line: Seq<char>, rest: Seq<char>, k: int, start: bool)
    requires
        k <= line.len(),
    ensures
        math_at(line + rest, k, start) == math_at(line, k, start),
    decreases k,
{
    if k > 0 {
        lemma_math_local(line, rest, k - 1, start);
        assert((line + rest)[k - 1] == line[k - 1]);
        assert(k > 1 ==> (line + rest)[k - 2] == line[k - 2]);
    }
}

/// Inline math starts and stops at dollar signs that no backslash precedes,
/// starts at `\(` and stops at `\)`, and nothing else changes it.
pub proof fn law_inline_math(line: Seq<char>, c: char, rest: Seq<char>, start: bool)
    ensures
        ({
            let n = line.len() as int;
            let before = math_at(line, n, start);
            let after = math_at(line.push(c) + rest, n + 1, start);
            let escaped = n > 0 && line[n - 1] == '\\';
            &&& math_at(line, 0, start) == start
            &&& math_at(line.push(c) + rest, n, start) == before
            &&& c == '$' && !escaped ==> after == !before
            &&& c == '(' && escaped ==> after
            &&& c == ')' && escaped ==> !after
            &&& c == '$' && escaped ==> after == before
            &&& (c == '(' || c == ')') && !escaped ==> after == before
            &&& c != '$' && c != '(' && c != ')' ==> after == before
        }),
{
    let n = line.len() as int;
    let more = line.push(c);
    lemma_math_local(more, rest, n, start);
    lemma_math_local(more, rest, n + 1, start);
    assert(more =~= line + seq![c]);
    lemma_math_local(line, seq![c], n, start);
    assert(more[n] == c);
    assert(n > 0 ==> more[n - 1] == line[n - 1]);
}

/// A line has a bare equals sign if and only if one stands outside inline math.
pub proof fn law_bare_equals(line: Seq<char>, start: bool)
    ensures
        bare_equals(line, start) <==> exists|a: Seq<char>, b: Seq<char>|
            line == #[trigger] (a.push('=') + b) && !math_at(a, a.len() as int, start),
{
    if bare_equals(line, start) {
        let k = choose|k: int| 0 <= k < line.len() && line[k] == '=' && !math_at(line, k, start);
        let a = line.subrange(0, k);
        let b = line.subrange(k + 1, line.len() as int);
        assert(line =~= a.push('=') + b);
        lemma_math_local(a, line.subrange(k, line.len() as int), k, start);
        assert(a + line.subrange(k, line.len() as int) =~= line);
    }
    if exists|a: Seq<char>, b: Seq<char>|
        line == #[trigger] (a.push('=') + b) && !math_at(a, a.len() as int, start) {
        let (a, b) = choose|a: Seq<char>, b: Seq<char>|
            line == #[trigger] (a.push('=') + b) && !math_at(a, a.len() as int, start);
        let k = a.len() as int;
        assert(line[k] == '=');
        lemma_math_local(a, seq!['='] + b, k, start);
        assert(a + (seq!['='] + b) =~= line);
    }
}

// ---------------------------------------------------------------------------
// Display math

/// The names of the environments whose text is display math. A name that starts
/// with one of them counts too.
pub open spec fn math_name(n: Seq<char>) -> bool {
    ||| n == seq!['e', 'q', 'u', 'a', 't', 'i', 'o', 'n']
    ||| n == seq!['a', 'l', 'i', 'g', 'n']
    ||| n == seq!['g', 'a', 't', 'h', 'e', 'r']
    ||| n == seq!['m', 'u', 'l', 't', 'l', 'i', 'n', 'e']
    ||| n == seq!['e', 'q', 'n', 'a', 'r', 'r', 'a', 'y']
    ||| n == seq!['a', 'l', 'i', 'g', 'n', 'a', 't']
    ||| n == seq!['f', 'l', 'a', 'l', 'i', 'g', 'n']
    ||| n == seq!['d', 'i', 's', 'p', 'l', 'a', 'y', 'm', 'a', 't', 'h']
}

/// The start of a command that begins an environment.
pub open spec fn begin_command() -> Seq<char> {
    seq!['\\', 'b', 'e', 'g', 'i', 'n', '{']
}

/// The start of a command that ends an environment.
pub open spec fn end_command() -> Seq<char> {
    seq!['\\', 'e', 'n', 'd', '{']
}

/// Whether a text starts with a command and the name of display math.
pub open spec fn starts_math(s: Seq<char>, command: Seq<char>) -> bool {
    exists|n: Seq<char>, r: Seq<char>| math_name(n) && s == #[trigger] (command + n + r)
}

proof fn lemma_commands()
    ensures
        "\\begin{"@ == begin_command(),
        "\\end{"@ == end_command(),
        "\\["@ == seq!['\\', '['],
        "\\]"@ == seq!['\\', ']'],
{
    reveal_strlit("\\begin{");
    reveal_strlit("\\end{");
    reveal_strlit("\\[");
    reveal_strlit("\\]");
    assert("\\begin{"@ =~= begin_command());
    assert("\\end{"@ =~= end_command());
    assert("\\["@ =~= seq!['\\', '[']);
    assert("\\]"@ =~= seq!['\\', ']']);
}

proof fn lemma_names()
    ensures
        math_envs().len() == 8,
        forall|e: int| 0 <= e < 8 ==> math_name(#[trigger] math_envs()[e]),
        math_envs()[0] == seq!['e', 'q', 'u', 'a', 't', 'i', 'o', 'n'],
        math_envs()[1] == seq!['a', 'l', 'i', 'g', 'n'],
        math_envs()[2] == seq!['g', 'a', 't', 'h', 'e', 'r'],
        math_envs()[3] == seq!['m', 'u', 'l', 't', 'l', 'i', 'n', 'e'],
        math_envs()[4] == seq!['e', 'q', 'n', 'a', 'r', 'r', 'a', 'y'],
        math_envs()[5] == seq!['a', 'l', 'i', 'g', 'n', 'a', 't'],
        math_envs()[6] == seq!['f', 'l', 'a', 'l', 'i', 'g', 'n'],
        math_envs()[7] == seq!['d', 'i', 's', 'p', 'l', 'a', 'y', 'm', 'a', 't', 'h'],
{
    reveal_strlit("equation");
    reveal_strlit("align");
    reveal_strlit("gather");
    reveal_strlit("multline");
    reveal_strlit("eqnarray");
    reveal_strlit("alignat");
    reveal_strlit("flalign");
    reveal_strlit("displaymath");
    let m = math_envs();
    assert(m[0] =~= seq!['e', 'q', 'u', 'a', 't', 'i', 'o', 'n']);
    assert(m[1] =~= seq!['a', 'l', 'i', 'g', 'n']);
    assert(m[2] =~= seq!['g', 'a', 't', 'h', 'e', 'r']);
    assert(m[3] =~= seq!['m', 'u', 'l', 't', 'l', 'i', 'n', 'e']);
    assert(m[4] =~= seq!['e', 'q', 'n', 'a', 'r', 'r', 'a', 'y']);
    assert(m[5] =~= seq!['a', 'l', 'i', 'g', 'n', 'a', 't']);
    assert(m[6] =~= seq!['f', 'l', 'a', 'l', 'i', 'g', 'n']);
    assert(m[7] =~= seq!['d', 'i', 's', 'p', 'l', 'a', 'y', 'm', 'a', 't', 'h']);
    assert forall|e: int| 0 <= e < 8 implies math_name(#[trigger] m[e]) by {
        assert(e == 0 || e == 1 || e == 2 || e == 3 || e == 4 || e == 5 || e == 6 || e == 7);
    }
}

/// A command with the name of display math, found at a place of a line.
proof fn lemma_env_at(line: Seq<char>, command: Seq<char>, k: int)
    requires
        0 <= k <= line.len(),
    ensures
        math_env_at(line, command, k) == starts_math(
            line.subrange(k, line.len() as int),
            command,
        ),
{
    let s = line.subrange(k, line.len() as int);
    lemma_names();
    if math_env_at(line, command, k) {
        let e = choose|e: int|
            0 <= e < math_envs().len() && occurs_at(line, command + #[trigger] math_envs()[e], k);
        let n = math_envs()[e];
        let m = (command + n).len() as int;
        let r = s.subrange(m, s.len() as int);
        assert(s.subrange(0, m) =~= line.subrange(k, k + m));
        assert(s =~= command + n + r);
    }
    if starts_math(s, command) {
        let (n, r) = choose|n: Seq<char>, r: Seq<char>|
            math_name(n) && s == #[trigger] (command + n + r);
        let e = lemma_name_place(n);
        let p = command + n;
        let m = p.len() as int;
        assert(s.len() == m + r.len());
        assert(line.subrange(k, k + m) =~= s.subrange(0, m));
        assert(s.subrange(0, m) =~= p);
        assert(occurs_at(line, command + math_envs()[e], k));
    }
}

proof fn lemma_name_place(n: Seq<char>) -> (e: int)
    requires
        math_name(n),
    ensures
        0 <= e < math_envs().len(),
        math_envs()[e] == n,
{
    lemma_names();
    if n == math_envs()[0] {
        0
    } else if n == math_envs()[1] {
        1
    } else if n == math_envs()[2] {
        2
    } else if n == math_envs()[3] {
        3
    } else if n == math_envs()[4] {
        4
    } else if n == math_envs()[5] {
        5
    } else if n == math_envs()[6] {
        6
    } else {
        7
    }
}

/// Nothing starts at a character other than a backslash.
proof fn lemma_no_env(line: Seq<char>, k: int)
    requires
        0 <= k < line.len(),
        line[k] != '\\',
    ensures
        !math_env_at(line, "\\begin{"@, k),
        !math_env_at(line, "\\end{"@, k),
{
    let s = line.subrange(k, line.len() as int);
    lemma_commands();
    lemma_env_at(line, begin_command(), k);
    lemma_env_at(line, end_command(), k);
    assert(s[0] == line[k]);
    if starts_math(s, begin_command()) {
        let (n, r) = choose|n: Seq<char>, r: Seq<char>|
            math_name(n) && s == #[trigger] (begin_command() + n + r);
        assert(s[0] == begin_command()[0]);
    }
    if starts_math(s, end_command()) {
        let (n, r) = choose|n: Seq<char>, r: Seq<char>|
            math_name(n) && s == #[trigger] (end_command() + n + r);
        assert(s[0] == end_command()[0]);
    }
}

/// Nothing changes up to `k`, from `j` on, where no backslash stands.
proof fn lemma_depth_same(line: Seq<char>, pattern: Pattern, j: int, k: int, depth: usize)
    requires
        0 <= j <= k <= line.len(),
        forall|i: int| j <= i < k ==> #[trigger] line[i] != '\\',
    ensures
        math_depth_at(line, pattern, k, depth) == math_depth_at(line, pattern, j, depth),
    decreases k,
{
    if j < k {
        lemma_depth_same(line, pattern, j, k - 1, depth);
        lemma_no_env(line, k - 1);
    }
}

/// What follows a place counts from the depth there.
proof fn lemma_depth_from(line: Seq<char>, j: int, pattern: Pattern, i: int, depth: usize)
    requires
        0 <= j <= line.len(),
        0 <= i <= line.len() - j,
    ensures
        math_depth_at(line, pattern, j + i, depth) == math_depth_at(
            line.subrange(j, line.len() as int),
            pattern,
            i,
            math_depth_at(line, pattern, j, depth),
        ),
    decreases i,
{
    let v = line.subrange(j, line.len() as int);
    if i > 0 {
        lemma_depth_from(line, j, pattern, i - 1, depth);
        lemma_env_at(line, "\\begin{"@, j + i - 1);
        lemma_env_at(line, "\\end{"@, j + i - 1);
        lemma_env_at(v, "\\begin{"@, i - 1);
        lemma_env_at(v, "\\end{"@, i - 1);
        assert(v.subrange(i - 1, v.len() as int) =~= line.subrange(j + i - 1, line.len() as int));
    }
}

/// Whether a text holds no backslash.
pub open spec fn no_backslash(u: Seq<char>) -> bool {
    forall|i: int| 0 <= i < u.len() ==> #[trigger] u[i] != '\\'
}

/// How a line changes the depth of display math: text without backslashes does
/// not, a command that begins display math adds one, one that ends it takes one
/// unless there is none, and other commands change nothing. What follows counts
/// from there.
pub proof fn law_math_depth(u: Seq<char>, v: Seq<char>, pattern: Pattern, depth: usize)
    requires
        no_backslash(u),
    ensures
        math_depth_after(u, pattern, depth) == depth,
        ({
            let line = u + seq!['\\'] + v;
            let s = seq!['\\'] + v;
            let begins = pattern.contains_env_begin && starts_math(s, begin_command());
            let ends = pattern.contains_env_end && starts_math(s, end_command());
            &&& begins && depth < usize::MAX ==> math_depth_after(line, pattern, depth)
                == math_depth_after(v, pattern, (depth + 1) as usize)
            &&& begins && depth == usize::MAX ==> math_depth_after(line, pattern, depth)
                == math_depth_after(v, pattern, depth)
            &&& ends && depth > 0 ==> math_depth_after(line, pattern, depth) == math_depth_after(
                v,
                pattern,
                (depth - 1) as usize,
            )
            &&& ends && depth == 0 ==> math_depth_after(line, pattern, depth) == math_depth_after(
                v,
                pattern,
                depth,
            )
            &&& !begins && !ends ==> math_depth_after(line, pattern, depth) == math_depth_after(
                v,
                pattern,
                depth,
            )
        }),
{
    let line = u + seq!['\\'] + v;
    let s = seq!['\\'] + v;
    let n = u.len() as int;
    let all = line.len() as int;
    lemma_commands();
    lemma_depth_same(u, pattern, 0, n, depth);
    assert forall|i: int| 0 <= i < n implies #[trigger] line[i] != '\\' by {
        assert(line[i] == u[i]);
    }
    lemma_depth_same(line, pattern, 0, n, depth);
    lemma_env_at(line, begin_command(), n);
    lemma_env_at(line, end_command(), n);
    assert(line.subrange(n, all) =~= s);
    assert(line.subrange(n + 1, all) =~= v);
    lemma_depth_from(line, n + 1, pattern, v.len() as int, depth);
    if starts_math(s, begin_command()) && starts_math(s, end_command()) {
        let (a, x) = choose|a: Seq<char>, x: Seq<char>|
            math_name(a) && s == #[trigger] (begin_command() + a + x);
        let (b, y) = choose|b: Seq<char>, y: Seq<char>|
            math_name(b) && s == #[trigger] (end_command() + b + y);
        assert(s[1] == begin_command()[1]);
        assert(s[1] == end_command()[1]);
    }
}

/// A line begins display math if and only if it holds such a command.
pub proof fn law_opening_math(line: Seq<char>, pattern: Pattern)
    ensures
        opens_math(line, pattern) <==> pattern.contains_env_begin && exists|n: Seq<char>|
            math_name(n) && #[trigger] within(line, begin_command() + n),
{
    lemma_commands();
    if opens_math(line, pattern) {
        let k = choose|k: int|
            0 <= k < line.len() && #[trigger] math_env_at(line, "\\begin{"@, k);
        lemma_env_at(line, begin_command(), k);
        let s = line.subrange(k, line.len() as int);
        let (n, r) = choose|n: Seq<char>, r: Seq<char>|
            math_name(n) && s == #[trigger] (begin_command() + n + r);
        let a = line.subrange(0, k);
        let p = begin_command() + n;
        assert(s =~= p + r);
        assert(line =~= a + s);
        assert(line =~= a + p + r);
        assert(within(line, begin_command() + n));
    }
    if pattern.contains_env_begin && exists|n: Seq<char>|
        math_name(n) && #[trigger] within(line, begin_command() + n) {
        let n = choose|n: Seq<char>| math_name(n) && #[trigger] within(line, begin_command() + n);
        let p = begin_command() + n;
        let (a, b) = choose|a: Seq<char>, b: Seq<char>| line == #[trigger] (a + p + b);
        let k = a.len() as int;
        lemma_env_at(line, begin_command(), k);
        assert(line.subrange(k, line.len() as int) =~= begin_command() + n + b);
        assert(math_env_at(line, "\\begin{"@, k));
    }
}

/// `\[` at the start of a line opens display math, unless `\]` closes it on that
/// line, and any `\]` closes it.
pub proof fn law_display(line: Seq<char>, before: bool)
    ensures
        ({
            let opens = starts(line, seq!['\\', '[']);
            let closes = within(line, seq!['\\', ']']);
            display_after(line, before) == (!closes && (opens || before))
        }),
{
    lemma_commands();
    lemma_starts(line, seq!['\\', '[']);
    lemma_within(line, seq!['\\', ']']);
}

/// Whether a line is protected in itself.
pub open spec fn in_fixed_region(scan: LineScan) -> bool {
    scan.ignore || scan.verbatim || scan.table
}

/// A line is protected if it lies in a region with a fixed layout or in display
/// math, or begins display math.
pub proof fn law_protected(track: Track, line: Seq<char>, scan: LineScan)
    ensures
        protected_line(track, line, scan) <==> {
            ||| in_fixed_region(scan)
            ||| track.math_depth > 0
            ||| track.in_display
            ||| scan.pattern.contains_env_begin && exists|n: Seq<char>|
                math_name(n) && #[trigger] within(line, begin_command() + n)
            ||| starts(line, seq!['\\', '[']) && !within(line, seq!['\\', ']'])
        },
{
    law_opening_math(line, scan.pattern);
    law_display(line, track.in_display);
}

// ---------------------------------------------------------------------------
// Roles

/// The part of a line before its comment.
pub open spec fn before_comment(line: Seq<char>, scan: LineScan) -> Seq<char> {
    if scan.comment is Some {
        line.subrange(0, scan.comment->0 as int)
    } else {
        line
    }
}

/// The role of a line, and what is known behind it.
pub proof fn law_role(track: Track, line: Seq<char>, scan: LineScan, verbs: Seq<String>)
    ensures
        ({
            let role = role_of(track, line, scan, verbs);
            let next = track_after(track, line, scan, verbs);
            let protected = protected_line(track, line, scan);
            let part = before_comment(line, scan);
            let bare = bare_equals(part, track.in_inline_math);
            &&& role.flows == reflowable(line, scan, verbs, protected, bare)
            &&& role.absorbs == absorbs(line, scan)
            &&& role.begins == (track.after_boundary && text_start(line) && absorbs(line, scan))
            &&& role.commented == (scan.comment is Some)
            &&& next.after_boundary == (!role.flows || ends(line, '{'))
            &&& next.math_depth == math_depth_after(line, scan.pattern, track.math_depth)
            &&& next.in_display == display_after(line, track.in_display)
            &&& protected || spaces(line) ==> !next.in_inline_math
            &&& !protected && !spaces(line) ==> next.in_inline_math == math_at(
                part,
                part.len() as int,
                track.in_inline_math,
            )
        }),
{
    lemma_ends(line, '{');
    let (w, t, z) = lemma_parts_of(line);
    assert(uncommented(line, scan) == before_comment(line, scan));
}

} // verus!
