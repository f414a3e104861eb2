//! Which lines of a document are prose.

use vstd::prelude::*;

use crate::scan::{LineScan, Pattern};
use crate::text::{
    begins_with, contains, ends_in, ends_with, holds, matches_at, occurs_at, starts_with, to_chars,
    trim, trim_end, trim_start, trimmed, trimmed_end, trimmed_start,
};

verus! {

// ---------------------------------------------------------------------------
// Documents

/// Whether a file has one of the extensions of bibliographies, styles and
/// classes, which hold no prose.
pub open spec fn excluded(extension: Option<&str>) -> bool {
    match extension {
        Some(e) => e@ == "bib"@ || e@ == "sty"@ || e@ == "cls"@,
        None => false,
    }
}

/// Checks whether a file extension is one of those of files without prose.
pub fn is_excluded(extension: Option<&str>) -> (res: bool)
    ensures
        res == excluded(extension),
{
    match extension {
        Some(e) => {
            let e = e.to_string();
            e == "bib".to_string() || e == "sty".to_string() || e == "cls".to_string()
        },
        None => false,
    }
}

// ---------------------------------------------------------------------------
// Inline math

/// Whether position `k` directly follows a backslash.
pub open spec fn after_backslash(line: Seq<char>, k: int) -> bool {
    0 < k && line[k - 1] == '\\'
}

/// Whether position `k` of a line lies in inline math, if the start of the
/// line does so as `start` says. An unescaped dollar sign toggles inline math,
/// `\(` opens and `\)` closes it.
pub open spec fn math_at(line: Seq<char>, k: int, start: bool) -> bool
    decreases k,
{
    if k <= 0 {
        start
    } else {
        let before = math_at(line, k - 1, start);
        let escaped = after_backslash(line, k - 1);
        if line[k - 1] == '$' && !escaped {
            !before
        } else if line[k - 1] == '(' && escaped {
            true
        } else if line[k - 1] == ')' && escaped {
            false
        } else {
            before
        }
    }
}

/// Whether a line holds an equals sign outside inline math.
pub open spec fn bare_equals(line: Seq<char>, start: bool) -> bool {
    exists|k: int| 0 <= k < line.len() && line[k] == '=' && !math_at(line, k, start)
}

/// Checks whether a line holds an equals sign outside inline math, and tracks
/// inline math across lines.
pub fn scan_bare_equals(line: &[char], in_math: &mut bool) -> (bare: bool)
    ensures
        bare == bare_equals(line@, *old(in_math)),
        *final(in_math) == math_at(line@, line@.len() as int, *old(in_math)),
{
    let mut bare = false;
    let mut prev_c: char = ' ';
    let mut i: usize = 0;
    while i < line.len()
        invariant
            i <= line@.len(),
            i == 0 ==> prev_c == ' ',
            i > 0 ==> prev_c == line@[i - 1],
            *in_math == math_at(line@, i as int, *old(in_math)),
            bare == exists|k: int|
                0 <= k < i && line@[k] == '=' && !math_at(line@, k, *old(in_math)),
        decreases line@.len() - i,
    {
        let c: char = line[i];
        assert((prev_c == '\\') == after_backslash(line@, i as int));
        if c == '$' && prev_c != '\\' {
            *in_math = !*in_math;
        } else if (c == '(' || c == ')') && prev_c == '\\' {
            *in_math = c == '(';
        } else if c == '=' && !*in_math {
            assert(line@[i as int] == '=' && !math_at(line@, i as int, *old(in_math)));
            bare = true;
        }
        prev_c = c;
        i += 1;
    }
    bare
}

// ---------------------------------------------------------------------------
// Single lines

/// The display math environments in which lines are never joined.
pub open spec fn math_envs() -> Seq<Seq<char>> {
    seq![
        "equation"@,
        "align"@,
        "gather"@,
        "multline"@,
        "eqnarray"@,
        "alignat"@,
        "flalign"@,
        "displaymath"@,
    ]
}

/// Whether position `k` of a line holds `command`, directly followed by the name
/// of a display math environment.
pub open spec fn math_env_at(line: Seq<char>, command: Seq<char>, k: int) -> bool {
    exists|e: int|
        0 <= e < math_envs().len() && occurs_at(line, command + #[trigger] math_envs()[e], k)
}

/// Whether a line begins a display math environment.
pub open spec fn opens_math(line: Seq<char>, pattern: Pattern) -> bool {
    pattern.contains_env_begin && exists|k: int|
        0 <= k < line.len() && #[trigger] math_env_at(line, "\\begin{"@, k)
}

/// The nesting depth of display math behind the first `k` characters of a line,
/// if it is `depth` before the line. Each environment that begins there adds to
/// it, and each that ends takes from it, unless none is open.
pub open spec fn math_depth_at(line: Seq<char>, pattern: Pattern, k: int, depth: usize) -> usize
    decreases k,
{
    if k <= 0 {
        depth
    } else {
        let d = math_depth_at(line, pattern, k - 1, depth);
        if pattern.contains_env_begin && math_env_at(line, "\\begin{"@, k - 1) {
            if d < usize::MAX {
                (d + 1) as usize
            } else {
                d
            }
        } else if pattern.contains_env_end && math_env_at(line, "\\end{"@, k - 1) && d > 0 {
            (d - 1) as usize
        } else {
            d
        }
    }
}

/// The nesting depth of display math behind a line, if it is `depth` before.
pub open spec fn math_depth_after(line: Seq<char>, pattern: Pattern, depth: usize) -> usize {
    math_depth_at(line, pattern, line.len() as int, depth)
}

/// Whether a line behind this one lies in `\[ ... \]`, if this one does so as
/// `before` says.
pub open spec fn display_after(line: Seq<char>, before: bool) -> bool {
    let t = trimmed(line);
    if begins_with(t, "\\["@) && !holds(t, "\\]"@) {
        true
    } else if holds(t, "\\]"@) {
        false
    } else {
        before
    }
}

/// Whether a line holds one of the prefixes that open inline verbatim text.
pub open spec fn holds_verb(line: Seq<char>, verbs: Seq<String>) -> bool {
    exists|v: int| 0 <= v < verbs.len() && holds(line, (#[trigger] verbs[v])@)
}

/// Whether a trimmed line begins with something that keeps it on a line of its
/// own: display math delimiters or a brace that closes a group.
pub open spec fn boundary_start(t: Seq<char>) -> bool {
    begins_with(t, "\\["@) || begins_with(t, "\\]"@) || begins_with(t, "$$"@) || begins_with(
        t,
        "}"@,
    )
}

/// Whether a line may take part in a paragraph.
pub open spec fn reflowable(
    line: Seq<char>,
    scan: LineScan,
    verbs: Seq<String>,
    protected: bool,
    bare: bool,
) -> bool {
    &&& !protected
    &&& trimmed(line).len() > 0
    &&& !begins_with(trimmed(line), "%"@)
    &&& !scan.splitting
    &&& !(scan.pattern.contains_verb && holds_verb(line, verbs))
    &&& !bare
    &&& !boundary_start(trimmed(line))
}

/// Whether a line may absorb the one behind it.
pub open spec fn absorbs(line: Seq<char>, scan: LineScan) -> bool {
    scan.comment is None && !scan.forced_break && !ends_in(trimmed_end(line), '-')
}

/// Whether a line, its leading whitespace aside, starts with text or with a
/// run-in heading, rather than with a command or a group.
pub open spec fn text_start(line: Seq<char>) -> bool {
    let t = trimmed_start(line);
    ||| !(begins_with(t, "\\"@) || begins_with(t, "{"@))
    ||| begins_with(t, "\\paragraph"@)
    ||| begins_with(t, "\\subparagraph"@)
}

/// The display math environments in which lines are never joined.
fn math_env_names() -> (res: Vec<&'static str>)
    ensures
        res@.len() == math_envs().len(),
        forall|e: int| 0 <= e < res@.len() ==> (#[trigger] res@[e])@ == math_envs()[e],
{
    vec![
        "equation",
        "align",
        "gather",
        "multline",
        "eqnarray",
        "alignat",
        "flalign",
        "displaymath",
    ]
}

/// The names of the display math environments, each behind `command`.
fn math_env_commands(command: &str) -> (res: Vec<Vec<char>>)
    ensures
        res@.len() == math_envs().len(),
        forall|e: int| 0 <= e < res@.len() ==> (#[trigger] res@[e])@ == command@ + math_envs()[e],
{
    let names = math_env_names();
    let mut res: Vec<Vec<char>> = Vec::new();
    let mut e: usize = 0;
    while e < names.len()
        invariant
            e <= names@.len(),
            names@.len() == math_envs().len(),
            forall|m: int| 0 <= m < names@.len() ==> (#[trigger] names@[m])@ == math_envs()[m],
            res@.len() == e,
            forall|m: int| 0 <= m < e ==> (#[trigger] res@[m])@ == command@ + math_envs()[m],
        decreases names@.len() - e,
    {
        let needle = command.to_string().concat(names[e]);
        res.push(to_chars(needle.as_str()));
        e += 1;
    }
    res
}

/// Checks whether position `k` of a line holds one of some commands.
fn holds_one_at(line: &[char], commands: &Vec<Vec<char>>, k: usize) -> (res: bool)
    requires
        k <= line@.len(),
    ensures
        res == exists|e: int|
            0 <= e < commands@.len() && occurs_at(line@, (#[trigger] commands@[e])@, k as int),
{
    let mut e: usize = 0;
    while e < commands.len()
        invariant
            k <= line@.len(),
            e <= commands@.len(),
            forall|m: int|
                0 <= m < e ==> !occurs_at(line@, (#[trigger] commands@[m])@, k as int),
        decreases commands@.len() - e,
    {
        if matches_at(line, commands[e].as_slice(), k) {
            return true;
        }
        e += 1;
    }
    false
}

/// Commands with the names of the display math environments stand for these.
proof fn lemma_math_env_at(commands: Seq<Vec<char>>, line: Seq<char>, command: Seq<char>, k: int)
    requires
        commands.len() == math_envs().len(),
        forall|e: int|
            0 <= e < commands.len() ==> (#[trigger] commands[e])@ == command + math_envs()[e],
    ensures
        math_env_at(line, command, k) <==> exists|e: int|
            0 <= e < commands.len() && occurs_at(line, (#[trigger] commands[e])@, k),
{
    if math_env_at(line, command, k) {
        let e = choose|e: int|
            0 <= e < math_envs().len() && occurs_at(line, command + #[trigger] math_envs()[e], k);
        assert(occurs_at(line, commands[e]@, k));
    }
    if exists|e: int| 0 <= e < commands.len() && occurs_at(line, (#[trigger] commands[e])@, k) {
        let e = choose|e: int|
            0 <= e < commands.len() && occurs_at(line, (#[trigger] commands[e])@, k);
        assert(occurs_at(line, command + math_envs()[e], k));
    }
}

/// Checks whether a line begins a display math environment.
pub fn opens_math_env(line: &[char], pattern: &Pattern) -> (res: bool)
    ensures
        res == opens_math(line@, *pattern),
{
    if !pattern.contains_env_begin {
        return false;
    }
    let begins = math_env_commands("\\begin{");
    let mut k: usize = 0;
    while k < line.len()
        invariant
            k <= line@.len(),
            pattern.contains_env_begin,
            begins@.len() == math_envs().len(),
            forall|e: int|
                0 <= e < begins@.len() ==> (#[trigger] begins@[e])@ == "\\begin{"@
                    + math_envs()[e],
            forall|m: int| 0 <= m < k ==> !#[trigger] math_env_at(line@, "\\begin{"@, m),
        decreases line@.len() - k,
    {
        proof {
            lemma_math_env_at(begins@, line@, "\\begin{"@, k as int);
        }
        if holds_one_at(line, &begins, k) {
            return true;
        }
        k += 1;
    }
    false
}

/// Tracks entering and leaving display math environments.
pub fn update_math_depth(line: &[char], pattern: &Pattern, depth: &mut usize)
    ensures
        *final(depth) == math_depth_after(line@, *pattern, *old(depth)),
{
    let begins = math_env_commands("\\begin{");
    let ends = math_env_commands("\\end{");
    let mut k: usize = 0;
    while k < line.len()
        invariant
            k <= line@.len(),
            begins@.len() == math_envs().len(),
            ends@.len() == math_envs().len(),
            forall|e: int|
                0 <= e < begins@.len() ==> (#[trigger] begins@[e])@ == "\\begin{"@
                    + math_envs()[e],
            forall|e: int|
                0 <= e < ends@.len() ==> (#[trigger] ends@[e])@ == "\\end{"@ + math_envs()[e],
            *depth == math_depth_at(line@, *pattern, k as int, *old(depth)),
        decreases line@.len() - k,
    {
        proof {
            lemma_math_env_at(begins@, line@, "\\begin{"@, k as int);
            lemma_math_env_at(ends@, line@, "\\end{"@, k as int);
        }
        if pattern.contains_env_begin && holds_one_at(line, &begins, k) {
            *depth = (*depth).saturating_add(1);
        } else if pattern.contains_env_end && holds_one_at(line, &ends, k) {
            *depth = (*depth).saturating_sub(1);
        }
        k += 1;
    }
}

/// Checks whether a line holds a prefix that opens inline verbatim text.
fn contains_verb(line: &[char], verbs: &[String]) -> (res: bool)
    ensures
        res == holds_verb(line@, verbs@),
{
    let mut v: usize = 0;
    while v < verbs.len()
        invariant
            v <= verbs@.len(),
            forall|m: int| 0 <= m < v ==> !holds(line@, (#[trigger] verbs@[m])@),
        decreases verbs@.len() - v,
    {
        if contains(line, verbs[v].as_str()) {
            return true;
        }
        v += 1;
    }
    false
}

/// Checks whether a line may take part in a paragraph.
pub fn is_reflowable(
    line: &[char],
    scan: &LineScan,
    verbs: &[String],
    protected: bool,
    bare: bool,
) -> (res: bool)
    ensures
        res == reflowable(line@, *scan, verbs@, protected, bare),
{
    let t = trim(line);
    let verb = scan.pattern.contains_verb && contains_verb(line, verbs);
    let boundary = protected || t.len() == 0 || starts_with(t, "%") || scan.splitting || verb
        || bare || starts_with(t, "\\[") || starts_with(t, "\\]") || starts_with(t, "$$")
        || starts_with(t, "}");
    !boundary
}

/// Checks whether a line may absorb the one behind it.
pub fn can_absorb(line: &[char], scan: &LineScan) -> (res: bool)
    ensures
        res == absorbs(line@, *scan),
{
    scan.comment.is_none() && !scan.forced_break && !ends_with(trim_end(line), '-')
}

/// Checks whether a line may begin a paragraph. It has to follow a boundary,
/// so that continuations of command lines are not joined.
pub fn can_begin_reflow(line: &[char], scan: &LineScan, after_boundary: bool) -> (res: bool)
    ensures
        res == (after_boundary && text_start(line@) && absorbs(line@, *scan)),
{
    let t = trim_start(line);
    let starts_with_text = !(starts_with(t, "\\") || starts_with(t, "{")) || starts_with(
        t,
        "\\paragraph",
    ) || starts_with(t, "\\subparagraph");
    after_boundary && starts_with_text && can_absorb(line, scan)
}

} // verus!
