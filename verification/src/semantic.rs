//! Reflow that keeps authored breaks and puts sentences on lines of their own.

use vstd::prelude::*;
use vstd::slice::slice_subrange;

use crate::chars::{alphabetic, digit, is_ascii_digit, is_whitespace, lower, same_letter, white};
use crate::config::Args;
use crate::paragraphs::comment_within;
use crate::prose::{after_backslash, math_at};
use crate::scan::LineScan;
use crate::text::{
    ascending, blank, ink_end, lemma_ink_end, lemma_select, lemma_width_monotone,
    lemma_width_shrinks, push_line, select, texts, to_chars, trim, trimmed, trimmed_width, width,
};

verus! {

// ---------------------------------------------------------------------------
// Sentences

/// The characters that terminate a sentence.
pub open spec fn terminator(c: char) -> bool {
    c == '.' || c == '!' || c == '?'
}

/// The words of several letters behind which a period does not end a sentence.
pub open spec fn abbreviations() -> Seq<Seq<char>> {
    seq![
        "etc"@,
        "cf"@,
        "vs"@,
        "al"@,
        "resp"@,
        "approx"@,
        "Fig"@,
        "Eq"@,
        "Sec"@,
        "Ref"@,
        "No"@,
        "vol"@,
        "pp"@,
        "Dr"@,
        "Mr"@,
        "Mrs"@,
        "Ms"@,
        "Prof"@,
    ]
}

/// Whether two words differ at most in ASCII case.
pub open spec fn same_word(a: Seq<char>, b: Seq<char>) -> bool {
    a.len() == b.len() && forall|i: int|
        0 <= i < a.len() ==> lower(#[trigger] a[i]) == lower(b[i])
}

/// Whether a word is one of the abbreviations.
pub open spec fn abbreviation(word: Seq<char>) -> bool {
    exists|k: int| 0 <= k < abbreviations().len() && same_word(#[trigger] abbreviations()[k], word)
}

/// Which characters of a line are letters.
pub open spec fn letters_of(line: Seq<char>) -> Seq<bool> {
    Seq::new(line.len(), |i: int| alphabetic(line[i]))
}

/// Where the word that ends at `i` starts.
pub open spec fn word_start(letters: Seq<bool>, i: int) -> int
    decreases i,
{
    if 0 < i && letters[i - 1] {
        word_start(letters, i - 1)
    } else {
        i
    }
}

/// Whether position `i` holds a period that is part of an abbreviation or a
/// number, given which characters are letters: it starts the line, or follows
/// a digit, a single letter or one of the abbreviations.
pub open spec fn inner_period_among(line: Seq<char>, letters: Seq<bool>, i: int) -> bool {
    &&& line[i] == '.'
    &&& {
        ||| i == 0
        ||| digit(line[i - 1])
        ||| letters[i - 1] && (i - word_start(letters, i) <= 1 || abbreviation(
            line.subrange(word_start(letters, i), i),
        ))
    }
}

/// Whether position `i` holds a period that is part of an abbreviation or a
/// number.
pub open spec fn inner_period(line: Seq<char>, i: int) -> bool {
    inner_period_among(line, letters_of(line), i)
}

/// Where the run of terminators that holds position `i` starts.
pub open spec fn run_start(line: Seq<char>, i: int) -> int
    decreases i,
{
    if 0 < i && terminator(line[i - 1]) {
        run_start(line, i - 1)
    } else {
        i
    }
}

/// Whether position `p` is followed by whitespace and further text before
/// `limit`.
pub open spec fn text_follows(line: Seq<char>, limit: int, p: int) -> bool {
    p < limit && white(line[p]) && !blank(line.subrange(p, limit))
}

/// Whether the characters `i..j` of a line are periods.
pub open spec fn all_periods(line: Seq<char>, i: int, j: int) -> bool {
    forall|k: int| i <= k < j ==> #[trigger] line[k] == '.'
}

/// Whether the run of terminators that stops at `p` belongs to an abbreviation
/// or a number. Only periods are ambiguous.
pub open spec fn inner_run(line: Seq<char>, p: int) -> bool {
    let i = run_start(line, p - 1);
    all_periods(line, i, p) && inner_period(line, i)
}

/// Whether a sentence ends at `p`: a run of terminators outside inline math
/// stops there, text follows before `limit`, and the run does not belong to an
/// abbreviation or a number. The line starts in inline math as `in_math` says.
pub open spec fn sentence_break(line: Seq<char>, limit: int, in_math: bool, p: int) -> bool {
    &&& 0 < p
    &&& text_follows(line, limit, p)
    &&& terminator(line[p - 1])
    &&& !math_at(line, p - 1, in_math)
    &&& !inner_run(line, p)
}

/// Where the part of a line before its comment ends.
pub open spec fn limit_of(line: Seq<char>, comment: Option<usize>) -> int {
    match comment {
        Some(c) => c as int,
        None => line.len() as int,
    }
}

/// The positions at which the sentences of a line end, in ascending order.
pub open spec fn sentence_ends(
    line: Seq<char>,
    comment: Option<usize>,
    in_math: bool,
) -> Seq<usize> {
    let limit = limit_of(line, comment);
    select(|p: int| sentence_break(line, limit, in_math, p), limit)
}

/// Whether a character terminates a sentence.
pub fn is_terminator(c: char) -> (res: bool)
    ensures
        res == terminator(c),
{
    c == '.' || c == '!' || c == '?'
}

/// The words of several letters behind which a period does not end a sentence.
fn abbreviation_list() -> (res: Vec<&'static str>)
    ensures
        res@.len() == abbreviations().len(),
        forall|k: int| 0 <= k < res@.len() ==> (#[trigger] res@[k])@ == abbreviations()[k],
{
    vec![
        "etc",
        "cf",
        "vs",
        "al",
        "resp",
        "approx",
        "Fig",
        "Eq",
        "Sec",
        "Ref",
        "No",
        "vol",
        "pp",
        "Dr",
        "Mr",
        "Mrs",
        "Ms",
        "Prof",
    ]
}

/// Whether two words differ at most in ASCII case.
fn eq_ignore_ascii_case(a: &[char], b: &[char]) -> (res: bool)
    ensures
        res == same_word(a@, b@),
{
    if a.len() != b.len() {
        return false;
    }
    let mut i: usize = 0;
    while i < a.len()
        invariant
            i <= a@.len() == b@.len(),
            forall|k: int| 0 <= k < i ==> lower(#[trigger] a@[k]) == lower(b@[k]),
        decreases a@.len() - i,
    {
        if !same_letter(a[i], b[i]) {
            return false;
        }
        i += 1;
    }
    true
}

/// Whether a word is one of the abbreviations.
fn is_abbreviation(word: &[char]) -> (res: bool)
    ensures
        res == abbreviation(word@),
{
    let list = abbreviation_list();
    let mut k: usize = 0;
    while k < list.len()
        invariant
            k <= list@.len() == abbreviations().len(),
            forall|m: int| 0 <= m < list@.len() ==> (#[trigger] list@[m])@ == abbreviations()[m],
            forall|m: int| 0 <= m < k ==> !same_word(#[trigger] abbreviations()[m], word@),
        decreases list@.len() - k,
    {
        let entry = to_chars(list[k]);
        if eq_ignore_ascii_case(entry.as_slice(), word) {
            assert(same_word(abbreviations()[k as int], word@));
            return true;
        }
        k += 1;
    }
    false
}

/// Checks whether a period is part of an abbreviation or a number, given which
/// characters are letters.
pub fn is_inner_period(line: &[char], letters: &[bool], index: usize) -> (res: bool)
    requires
        index < line@.len(),
        letters@.len() == line@.len(),
    ensures
        res == inner_period_among(line@, letters@, index as int),
{
    if line[index] != '.' {
        return false;
    }
    if index == 0 {
        return true;
    }
    if is_ascii_digit(line[index - 1]) {
        return true;
    }
    if !letters[index - 1] {
        return false;
    }
    let mut start: usize = index;
    while start > 0 && letters[start - 1]
        invariant
            start <= index < letters@.len(),
            word_start(letters@, index as int) == word_start(letters@, start as int),
        decreases start,
    {
        start -= 1;
    }
    index - start <= 1 || is_abbreviation(slice_subrange(line, start, index))
}

/// Tells which characters of a line are letters.
pub fn find_letters(line: &[char]) -> (res: Vec<bool>)
    ensures
        res@ == letters_of(line@),
{
    let mut res: Vec<bool> = Vec::new();
    let mut i: usize = 0;
    while i < line.len()
        invariant
            i <= line@.len(),
            res@.len() == i,
            forall|k: int| 0 <= k < i ==> #[trigger] res@[k] == alphabetic(line@[k]),
        decreases line@.len() - i,
    {
        res.push(line[i].is_alphabetic());
        i += 1;
    }
    assert(res@ =~= letters_of(line@));
    res
}

/// Checks whether a period is part of an abbreviation or a number.
pub fn blocks_sentence_break(line: &[char], index: usize) -> (res: bool)
    requires
        index < line@.len(),
    ensures
        res == inner_period(line@, index as int),
{
    let letters = find_letters(line);
    is_inner_period(line, letters.as_slice(), index)
}

/// Finds where the run of terminators that holds position `i` starts.
fn find_run_start(line: &[char], i: usize) -> (res: usize)
    requires
        i < line@.len(),
    ensures
        res == run_start(line@, i as int),
        res <= i,
{
    let mut k: usize = i;
    while k > 0 && is_terminator(line[k - 1])
        invariant
            k <= i < line@.len(),
            run_start(line@, i as int) == run_start(line@, k as int),
        decreases k,
    {
        k -= 1;
    }
    k
}

/// Checks whether the run of terminators that stops at `p` belongs to an
/// abbreviation or a number.
pub fn is_inner_run(line: &[char], p: usize) -> (res: bool)
    requires
        0 < p <= line@.len(),
    ensures
        res == inner_run(line@, p as int),
{
    let start: usize = find_run_start(line, p - 1);
    let mut k: usize = start;
    while k < p
        invariant
            start <= k <= p <= line@.len(),
            all_periods(line@, start as int, k as int),
            start == run_start(line@, p - 1),
        decreases p - k,
    {
        if line[k] != '.' {
            assert(!all_periods(line@, start as int, p as int));
            return false;
        }
        k += 1;
    }
    blocks_sentence_break(line, start)
}

/// Finds the end of the ink before `limit`.
fn find_ink_end(line: &[char], limit: usize) -> (res: usize)
    requires
        limit <= line@.len(),
    ensures
        res == ink_end(line@, 0, limit as int),
        res <= limit,
{
    let mut j: usize = limit;
    while j > 0 && is_whitespace(line[j - 1])
        invariant
            j <= limit <= line@.len(),
            ink_end(line@, 0, limit as int) == ink_end(line@, 0, j as int),
        decreases j,
    {
        j -= 1;
    }
    j
}

/// Ink follows position `p` exactly if it lies before the end of the ink.
proof fn lemma_ink_follows(line: Seq<char>, limit: int, p: int)
    requires
        0 <= p <= limit <= line.len(),
    ensures
        !blank(line.subrange(p, limit)) <==> p < ink_end(line, 0, limit),
{
    lemma_ink_end(line, 0, limit);
    let e = ink_end(line, 0, limit);
    let part = line.subrange(p, limit);
    if p < e {
        assert(part[e - 1 - p] == line[e - 1]);
    } else {
        assert forall|i: int| 0 <= i < part.len() implies white(#[trigger] part[i]) by {
            assert(part[i] == line[p + i]);
        }
    }
}

/// The part of a line before its comment.
fn comment_limit(line: &[char], comment: Option<usize>) -> (res: usize)
    ensures
        res == limit_of(line@, comment),
{
    match comment {
        Some(c) => c,
        None => line.len(),
    }
}

/// Tracks inline math across the character at `i`.
fn step_math(line: &[char], i: usize, in_math: bool, Ghost(start): Ghost<bool>) -> (res: bool)
    requires
        i < line@.len(),
        in_math == math_at(line@, i as int, start),
    ensures
        res == math_at(line@, i + 1, start),
{
    let c: char = line[i];
    let escaped = i > 0 && line[i - 1] == '\\';
    if c == '$' && !escaped {
        !in_math
    } else if c == '(' && escaped {
        true
    } else if c == ')' && escaped {
        false
    } else {
        in_math
    }
}

/// Finds the positions at which to break a line into sentences. The line starts
/// in inline math as `start` says.
pub fn sentence_breaks(line: &[char], comment: Option<usize>, start: bool) -> (res: Vec<usize>)
    requires
        comment matches Some(c) ==> c <= line@.len(),
    ensures
        res@ == sentence_ends(line@, comment, start),
{
    let limit: usize = comment_limit(line, comment);
    let ink_stop: usize = find_ink_end(line, limit);
    let ghost f = |p: int| sentence_break(line@, limit as int, start, p);
    let mut breaks: Vec<usize> = Vec::new();
    let mut before_math = false;
    let mut in_math = start;
    let mut p: usize = 0;
    while p < limit
        invariant
            p <= limit <= line@.len(),
            f == (|p: int| sentence_break(line@, limit as int, start, p)),
            ink_stop == ink_end(line@, 0, limit as int),
            in_math == math_at(line@, p as int, start),
            p > 0 ==> before_math == math_at(line@, p - 1, start),
            breaks@ == select(f, p as int),
        decreases limit - p,
    {
        proof {
            lemma_ink_follows(line@, limit as int, p as int);
        }
        let ends = p > 0 && is_terminator(line[p - 1]) && !before_math && is_whitespace(line[p])
            && p < ink_stop && !is_inner_run(line, p);
        assert(ends == f(p as int));
        if ends {
            breaks.push(p);
        }
        before_math = in_math;
        in_math = step_math(line, p, in_math, Ghost(start));
        p += 1;
    }
    breaks
}

// ---------------------------------------------------------------------------
// Clauses

/// The characters that terminate a clause.
pub open spec fn clause_end(c: char) -> bool {
    c == ',' || c == ';' || c == ':'
}

/// What is open at a place in a paragraph.
#[derive(Clone, Copy, Debug, PartialEq, Eq)]
pub struct Nesting {
    /// The place lies in inline math.
    pub in_math: bool,
    /// The number of open braces.
    pub brace: usize,
    /// The number of open brackets.
    pub bracket: usize,
    /// The number of open parentheses.
    pub paren: usize,
}

/// Nothing is open.
pub open spec fn outside() -> Nesting {
    Nesting { in_math: false, brace: 0, bracket: 0, paren: 0 }
}

/// The number of `open` characters that no `close` character before position
/// `k` has matched, if there are `start` of them before the line. One that
/// directly follows a backslash does not count, nor does a `close` character
/// with nothing to match.
pub open spec fn level_at(line: Seq<char>, k: int, open: char, close: char, start: usize) -> usize
    decreases k,
{
    if k <= 0 {
        start
    } else {
        let d = level_at(line, k - 1, open, close, start);
        if after_backslash(line, k - 1) {
            d
        } else if line[k - 1] == open && d < usize::MAX {
            (d + 1) as usize
        } else if line[k - 1] == close && d > 0 {
            (d - 1) as usize
        } else {
            d
        }
    }
}

/// What is open at position `k` of a line, if `nest` is before it.
pub open spec fn nesting_at(line: Seq<char>, k: int, nest: Nesting) -> Nesting {
    Nesting {
        in_math: math_at(line, k, nest.in_math),
        brace: level_at(line, k, '{', '}', nest.brace),
        bracket: level_at(line, k, '[', ']', nest.bracket),
        paren: level_at(line, k, '(', ')', nest.paren),
    }
}

/// What is open behind a line, its comment aside.
pub open spec fn nesting_after(line: Seq<char>, comment: Option<usize>, nest: Nesting) -> Nesting {
    nesting_at(line, limit_of(line, comment), nest)
}

/// What is open before line `k` of a paragraph. It starts with nothing open.
pub open spec fn nesting_before(ls: Seq<Seq<char>>, scans: Seq<LineScan>, k: int) -> Nesting
    decreases k,
{
    if k <= 0 {
        outside()
    } else {
        nesting_after(ls[k - 1], scans[k - 1].comment, nesting_before(ls, scans, k - 1))
    }
}

/// Whether a clause ends at `p`, outside inline math, braces, brackets and
/// parentheses.
pub open spec fn clause_break(line: Seq<char>, limit: int, nest: Nesting, p: int) -> bool {
    &&& 0 < p
    &&& text_follows(line, limit, p)
    &&& clause_end(line[p - 1])
    &&& nesting_at(line, p - 1, nest) == outside()
}

/// The positions at which the clauses of a line end, in ascending order.
pub open spec fn clause_ends(
    line: Seq<char>,
    comment: Option<usize>,
    nest: Nesting,
) -> Seq<usize> {
    let limit = limit_of(line, comment);
    select(|p: int| clause_break(line, limit, nest, p), limit)
}

/// Whether a character terminates a clause.
pub fn is_clause_boundary(c: char) -> (res: bool)
    ensures
        res == clause_end(c),
{
    c == ',' || c == ';' || c == ':'
}

impl Nesting {
    /// Nothing is open.
    pub fn new() -> (res: Nesting)
        ensures
            res == outside(),
    {
        Nesting { in_math: false, brace: 0, bracket: 0, paren: 0 }
    }

    /// Checks whether nothing is open.
    pub fn is_outside(&self) -> (res: bool)
        ensures
            res == (*self == outside()),
    {
        !self.in_math && self.brace == 0 && self.bracket == 0 && self.paren == 0
    }
}

/// Tracks a kind of bracket across the character at `i`.
fn step_level(
    line: &[char],
    i: usize,
    open: char,
    close: char,
    level: usize,
    Ghost(start): Ghost<usize>,
) -> (res: usize)
    requires
        i < line@.len(),
        open != close,
        level == level_at(line@, i as int, open, close, start),
    ensures
        res == level_at(line@, i + 1, open, close, start),
{
    let c: char = line[i];
    if i > 0 && line[i - 1] == '\\' {
        level
    } else if c == open {
        level.saturating_add(1)
    } else if c == close {
        level.saturating_sub(1)
    } else {
        level
    }
}

/// Tracks what is open across the character at `i`.
fn step_nesting(line: &[char], i: usize, at: Nesting, Ghost(nest): Ghost<Nesting>) -> (res: Nesting)
    requires
        i < line@.len(),
        at == nesting_at(line@, i as int, nest),
    ensures
        res == nesting_at(line@, i + 1, nest),
{
    Nesting {
        in_math: step_math(line, i, at.in_math, Ghost(nest.in_math)),
        brace: step_level(line, i, '{', '}', at.brace, Ghost(nest.brace)),
        bracket: step_level(line, i, '[', ']', at.bracket, Ghost(nest.bracket)),
        paren: step_level(line, i, '(', ')', at.paren, Ghost(nest.paren)),
    }
}

/// Determines what is open behind a line, its comment aside.
pub fn close_line(line: &[char], comment: Option<usize>, nest: Nesting) -> (res: Nesting)
    requires
        comment matches Some(c) ==> c <= line@.len(),
    ensures
        res == nesting_after(line@, comment, nest),
{
    let limit: usize = comment_limit(line, comment);
    let mut at = nest;
    let mut i: usize = 0;
    while i < limit
        invariant
            i <= limit <= line@.len(),
            at == nesting_at(line@, i as int, nest),
        decreases limit - i,
    {
        at = step_nesting(line, i, at, Ghost(nest));
        i += 1;
    }
    at
}

/// Finds the positions at which to break a line at clause boundaries, if `nest`
/// is open before it.
pub fn clause_breaks(line: &[char], comment: Option<usize>, nest: Nesting) -> (res: Vec<usize>)
    requires
        comment matches Some(c) ==> c <= line@.len(),
    ensures
        res@ == clause_ends(line@, comment, nest),
{
    let limit: usize = comment_limit(line, comment);
    let ink_stop: usize = find_ink_end(line, limit);
    let ghost f = |p: int| clause_break(line@, limit as int, nest, p);
    let mut breaks: Vec<usize> = Vec::new();
    let mut top_before = true;
    let mut at = nest;
    let mut p: usize = 0;
    while p < limit
        invariant
            p <= limit <= line@.len(),
            f == (|p: int| clause_break(line@, limit as int, nest, p)),
            ink_stop == ink_end(line@, 0, limit as int),
            at == nesting_at(line@, p as int, nest),
            p > 0 ==> top_before == (nesting_at(line@, p - 1, nest) == outside()),
            breaks@ == select(f, p as int),
        decreases limit - p,
    {
        proof {
            lemma_ink_follows(line@, limit as int, p as int);
        }
        let ends = p > 0 && is_clause_boundary(line[p - 1]) && top_before && is_whitespace(line[p])
            && p < ink_stop;
        assert(ends == f(p as int));
        if ends {
            breaks.push(p);
        }
        top_before = at.is_outside();
        at = step_nesting(line, p, at, Ghost(nest));
        p += 1;
    }
    breaks
}

// ---------------------------------------------------------------------------
// Packing

/// Those of the first `n` clause ends that lie strictly between two positions.
pub open spec fn ends_between(clauses: Seq<usize>, n: int, start: usize, end: usize) -> Seq<usize>
    decreases n,
{
    if n <= 0 {
        seq![]
    } else if start < clauses[n - 1] < end {
        ends_between(clauses, n - 1, start, end).push(clauses[n - 1])
    } else {
        ends_between(clauses, n - 1, start, end)
    }
}

/// Where the clauses of the segment `start..end` end.
pub open spec fn candidates(clauses: Seq<usize>, start: usize, end: usize) -> Seq<usize> {
    ends_between(clauses, clauses.len() as int, start, end).push(end)
}

/// Whether the text from `from` to `to` keeps within the limit.
pub open spec fn keeps_within(line: Seq<char>, from: usize, to: usize, wraplen: usize) -> bool {
    width(line.subrange(from as int, to as int)) <= wraplen
}

/// The last clause of a line that starts at `from` with clause `i`: as many
/// whole clauses as fit, but at least one.
pub open spec fn last_clause(
    line: Seq<char>,
    from: usize,
    cs: Seq<usize>,
    i: int,
    wraplen: usize,
) -> int
    decreases cs.len() - i,
{
    if i + 1 < cs.len() && keeps_within(line, from, cs[i + 1], wraplen) {
        last_clause(line, from, cs, i + 1, wraplen)
    } else {
        i
    }
}

/// The breaks between the lines that hold the clauses from clause `i` on, the
/// first of which starts at `from`.
pub open spec fn packed(
    line: Seq<char>,
    from: usize,
    cs: Seq<usize>,
    i: int,
    wraplen: usize,
) -> Seq<usize>
    decreases cs.len() - i,
{
    if 0 <= i < cs.len() {
        proof {
            lemma_last_clause(line, from, cs, i, wraplen);
        }
        let j = last_clause(line, from, cs, i, wraplen);
        if j + 1 < cs.len() {
            seq![cs[j]] + packed(line, cs[j], cs, j + 1, wraplen)
        } else {
            seq![]
        }
    } else {
        seq![]
    }
}

pub proof fn lemma_last_clause(line: Seq<char>, from: usize, cs: Seq<usize>, i: int, wraplen: usize)
    requires
        0 <= i < cs.len(),
    ensures
        i <= last_clause(line, from, cs, i, wraplen) < cs.len(),
    decreases cs.len() - i,
{
    if i + 1 < cs.len() && keeps_within(line, from, cs[i + 1], wraplen) {
        lemma_last_clause(line, from, cs, i + 1, wraplen);
    }
}

/// A line of packed clauses keeps within the limit unless it is a single
/// clause, and it could not take in the next clause. A clause that does not
/// fit by itself stands alone.
pub proof fn law_packed_lines_fit(
    line: Seq<char>,
    from: usize,
    cs: Seq<usize>,
    i: int,
    wraplen: usize,
)
    requires
        0 <= i < cs.len(),
        from <= cs[i],
        ascending(cs),
        cs.last() <= line.len(),
    ensures
        ({
            let j = last_clause(line, from, cs, i, wraplen);
            &&& j == i || keeps_within(line, from, cs[j], wraplen)
            &&& j + 1 < cs.len() ==> !keeps_within(line, from, cs[j + 1], wraplen)
            &&& !keeps_within(line, from, cs[i], wraplen) ==> j == i
        }),
    decreases cs.len() - i,
{
    if i + 1 < cs.len() {
        assert(cs[i] < cs[i + 1]);
        assert(i + 1 < cs.len() - 1 ==> cs[i + 1] < cs.last());
        lemma_width_monotone(line, from as int, cs[i] as int, cs[i + 1] as int);
        if keeps_within(line, from, cs[i + 1], wraplen) {
            law_packed_lines_fit(line, from, cs, i + 1, wraplen);
        }
    }
}

/// Whether the clauses from clause `i` on, the first of which starts at `from`,
/// can be put on lines that end behind the clauses `ends` and the last one: each
/// line is a single clause or keeps within the limit.
pub open spec fn packs(
    line: Seq<char>,
    from: usize,
    cs: Seq<usize>,
    i: int,
    ends: Seq<int>,
    wraplen: usize,
) -> bool
    decreases ends.len(),
{
    let n = cs.len() as int;
    if ends.len() == 0 {
        i == n - 1 || keeps_within(line, from, cs[n - 1], wraplen)
    } else {
        let j = ends[0];
        &&& i <= j < n - 1
        &&& j == i || keeps_within(line, from, cs[j], wraplen)
        &&& packs(line, cs[j], cs, j + 1, ends.skip(1), wraplen)
    }
}

/// A line takes in every clause up to which it keeps within the limit.
proof fn lemma_takes_in(
    line: Seq<char>,
    from: usize,
    cs: Seq<usize>,
    i: int,
    j: int,
    wraplen: usize,
)
    requires
        0 <= i <= j < cs.len(),
        from <= cs[i],
        ascending(cs),
        cs.last() <= line.len(),
        keeps_within(line, from, cs[j], wraplen),
    ensures
        last_clause(line, from, cs, i, wraplen) >= j,
    decreases cs.len() - i,
{
    lemma_last_clause(line, from, cs, i, wraplen);
    if i < j {
        assert(cs[i] < cs[i + 1]);
        assert(i + 1 < j ==> cs[i + 1] < cs[j]);
        assert(j < cs.len() - 1 ==> cs[j] < cs.last());
        lemma_width_monotone(line, from as int, cs[i + 1] as int, cs[j] as int);
        lemma_takes_in(line, from, cs, i + 1, j, wraplen);
    }
}

/// Packing that is ahead stays ahead.
proof fn lemma_stays_ahead(
    line: Seq<char>,
    from: usize,
    cs: Seq<usize>,
    i: int,
    ends: Seq<int>,
    wraplen: usize,
    ahead: usize,
    k: int,
)
    requires
        0 <= i <= k < cs.len(),
        from <= ahead <= cs[k],
        from <= cs[i],
        ahead == (if i < k {
            cs[k - 1]
        } else {
            from
        }),
        ascending(cs),
        cs.last() <= line.len(),
        packs(line, from, cs, i, ends, wraplen),
    ensures
        packed(line, ahead, cs, k, wraplen).len() <= ends.len(),
    decreases ends.len(),
{
    let n = cs.len() as int;
    assert(k < n - 1 ==> cs[k] < cs[n - 1]);
    lemma_last_clause(line, ahead, cs, k, wraplen);
    if ends.len() == 0 {
        if i < n - 1 {
            lemma_width_shrinks(line, from as int, ahead as int, cs[n - 1] as int);
            lemma_takes_in(line, ahead, cs, k, n - 1, wraplen);
        }
    } else {
        let j = ends[0];
        let rest = ends.skip(1);
        assert(cs[j] < cs[j + 1]);
        assert(j + 1 < n - 1 ==> cs[j + 1] < cs[n - 1]);
        if j < k {
            assert(j + 1 < k ==> cs[j + 1] < cs[k]);
            assert(j < k - 1 ==> cs[j] < cs[k - 1]);
            lemma_stays_ahead(line, cs[j], cs, j + 1, rest, wraplen, ahead, k);
        } else {
            assert(j < n - 1 ==> cs[j] < cs[n - 1]);
            assert(k < j ==> cs[k] < cs[j]);
            if j > i {
                lemma_width_shrinks(line, from as int, ahead as int, cs[j] as int);
                lemma_takes_in(line, ahead, cs, k, j, wraplen);
            }
            let l = last_clause(line, ahead, cs, k, wraplen);
            if l + 1 < n {
                assert(cs[l] < cs[l + 1]);
                assert(j < l ==> cs[j] < cs[l]);
                lemma_stays_ahead(line, cs[j], cs, j + 1, rest, wraplen, cs[l], l + 1);
            }
        }
    }
}

/// Packing clauses greedily takes the fewest lines: no other way to put whole
/// clauses on lines, each of which is a single clause or keeps within the limit,
/// breaks the segment less often.
pub proof fn law_packing_is_least(
    line: Seq<char>,
    start: usize,
    end: usize,
    clauses: Seq<usize>,
    ends: Seq<int>,
    wraplen: usize,
)
    requires
        start <= end <= line.len(),
        ascending(clauses),
        packs(line, start, candidates(clauses, start, end), 0, ends, wraplen),
    ensures
        packed(line, start, candidates(clauses, start, end), 0, wraplen).len() <= ends.len(),
{
    let cs = candidates(clauses, start, end);
    lemma_candidates(clauses, start, end);
    assert(start <= cs[0] <= end);
    lemma_stays_ahead(line, start, cs, 0, ends, wraplen, start, 0);
}

/// The candidates of a segment ascend and lie in it.
pub proof fn lemma_candidates(clauses: Seq<usize>, start: usize, end: usize)
    requires
        ascending(clauses),
        start <= end,
    ensures
        ({
            let cs = candidates(clauses, start, end);
            &&& cs.len() > 0
            &&& ascending(cs)
            &&& cs.last() == end
            &&& forall|i: int| 0 <= i < cs.len() ==> start <= #[trigger] cs[i] <= end
            &&& forall|i: int|
                0 <= i < cs.len() - 1 ==> clauses.contains(#[trigger] cs[i])
        }),
{
    lemma_ends_between(clauses, clauses.len() as int, start, end);
}

proof fn lemma_ends_between(clauses: Seq<usize>, n: int, start: usize, end: usize)
    requires
        ascending(clauses),
        0 <= n <= clauses.len(),
    ensures
        ({
            let cs = ends_between(clauses, n, start, end);
            &&& ascending(cs)
            &&& forall|i: int|
                0 <= i < cs.len() ==> start < #[trigger] cs[i] < end && clauses.contains(cs[i])
            &&& forall|i: int, m: int|
                0 <= i < cs.len() && n <= m < clauses.len() ==> #[trigger] cs[i]
                    < #[trigger] clauses[m]
        }),
    decreases n,
{
    if n > 0 {
        lemma_ends_between(clauses, n - 1, start, end);
        assert(clauses.contains(clauses[n - 1]));
    }
}

/// Greedily chooses clause breaks that keep each line within the limit.
pub fn pack_clauses(
    line: &[char],
    start: usize,
    end: usize,
    clauses: &[usize],
    wraplen: usize,
) -> (res: Vec<usize>)
    requires
        start <= end <= line@.len(),
        ascending(clauses@),
    ensures
        res@ == packed(line@, start, candidates(clauses@, start, end), 0, wraplen),
{
    let mut cs: Vec<usize> = Vec::new();
    let mut k: usize = 0;
    while k < clauses.len()
        invariant
            k <= clauses@.len(),
            cs@ == ends_between(clauses@, k as int, start, end),
        decreases clauses@.len() - k,
    {
        if start < clauses[k] && clauses[k] < end {
            cs.push(clauses[k]);
        }
        k += 1;
    }
    cs.push(end);
    proof {
        lemma_candidates(clauses@, start, end);
    }
    let ghost all = packed(line@, start, cs@, 0, wraplen);
    let n: usize = cs.len();
    let mut cuts: Vec<usize> = Vec::new();
    let mut from: usize = start;
    let mut i: usize = 0;
    assert(cuts@ + packed(line@, from, cs@, 0, wraplen) =~= all);
    while i < n
        invariant
            i <= n == cs@.len(),
            start <= end <= line@.len(),
            ascending(cs@),
            forall|m: int| 0 <= m < cs@.len() ==> start <= #[trigger] cs@[m] <= end,
            start <= from <= end,
            i < n ==> from <= cs@[i as int],
            cuts@ + packed(line@, from, cs@, i as int, wraplen) == all,
        decreases n - i,
    {
        // Extend the line to the farthest clause that fits.
        let mut j: usize = i;
        while j < n - 1 && trimmed_width(line, from, cs[j + 1]) <= wraplen
            invariant
                i <= j < n == cs@.len(),
                start <= from <= end <= line@.len(),
                from <= cs@[i as int],
                ascending(cs@),
                forall|m: int| 0 <= m < cs@.len() ==> start <= #[trigger] cs@[m] <= end,
                last_clause(line@, from, cs@, i as int, wraplen) == last_clause(
                    line@,
                    from,
                    cs@,
                    j as int,
                    wraplen,
                ),
                j < n - 1 ==> from <= cs@[j + 1],
            decreases n - j,
        {
            j += 1;
            assert(j < n - 1 ==> cs@[j as int] < cs@[j + 1]);
        }
        let ghost before = cuts@;
        let ghost from0 = from;
        let ghost i0 = i as int;
        let position: usize = cs[j];
        if j < n - 1 {
            cuts.push(position);
            assert(cs@[j as int] < cs@[j + 1]);
        }
        from = position;
        i = j + 1;
        proof {
            if j < n - 1 {
                assert(packed(line@, from0, cs@, i0, wraplen) == seq![position] + packed(
                    line@,
                    from,
                    cs@,
                    i as int,
                    wraplen,
                ));
                assert(before + (seq![position] + packed(line@, from, cs@, i as int, wraplen))
                    =~= cuts@ + packed(line@, from, cs@, i as int, wraplen));
            } else {
                assert(packed(line@, from0, cs@, i0, wraplen) =~= seq![]);
                assert(packed(line@, from, cs@, i as int, wraplen) =~= seq![]);
            }
        }
    }
    assert(cuts@ + Seq::<usize>::empty() =~= cuts@);
    cuts
}

// ---------------------------------------------------------------------------
// Lines

/// The ends of the sentences of a line, with its start and its end.
pub open spec fn segments(line: Seq<char>, comment: Option<usize>, nest: Nesting) -> Seq<usize> {
    seq![0usize] + sentence_ends(line, comment, nest.in_math) + seq![line.len() as usize]
}

/// The positions at which the first `k` segments of a line are cut: each
/// starts a part, and one that exceeds the limit is also cut between its
/// clauses.
pub open spec fn cuts_to(
    line: Seq<char>,
    comment: Option<usize>,
    nest: Nesting,
    wraplen: usize,
    k: int,
) -> Seq<usize>
    decreases k,
{
    if k <= 0 {
        seq![]
    } else {
        let segs = segments(line, comment, nest);
        let start = segs[k - 1];
        let end = segs[k];
        let inner = if keeps_within(line, start, end, wraplen) {
            seq![]
        } else {
            let places = candidates(clause_ends(line, comment, nest), start, end);
            packed(line, start, places, 0, wraplen)
        };
        cuts_to(line, comment, nest, wraplen, k - 1) + seq![start] + inner
    }
}

/// The positions at which a line is cut, with its start and its end.
pub open spec fn line_cuts(
    line: Seq<char>,
    comment: Option<usize>,
    nest: Nesting,
    wraplen: usize,
) -> Seq<usize> {
    let n = segments(line, comment, nest).len();
    cuts_to(line, comment, nest, wraplen, n - 1) + seq![line.len() as usize]
}

/// A text, cut at some positions, each part that is not blank trimmed and on a
/// line of its own.
pub open spec fn fragments(text: Seq<char>, cuts: Seq<usize>, line_end: Seq<char>) -> Seq<char>
    decreases cuts.len(),
{
    if cuts.len() < 2 {
        seq![]
    } else {
        let n = cuts.len() as int;
        let part = trimmed(text.subrange(cuts[n - 2] as int, cuts[n - 1] as int));
        let head = fragments(text, cuts.drop_last(), line_end);
        if part.len() == 0 {
            head
        } else {
            head + part + line_end
        }
    }
}

/// What line `k` of a paragraph becomes: its sentences, and the clauses of those
/// that exceed the limit.
pub open spec fn line_group(
    ls: Seq<Seq<char>>,
    scans: Seq<LineScan>,
    wraplen: usize,
    line_end: Seq<char>,
    k: int,
) -> Seq<char> {
    let nest = nesting_before(ls, scans, k);
    fragments(ls[k], line_cuts(ls[k], scans[k].comment, nest, wraplen), line_end)
}

/// The first `k` lines of a paragraph, each cut into its sentences, and those
/// that exceed the limit into clauses.
pub open spec fn semantic(
    ls: Seq<Seq<char>>,
    scans: Seq<LineScan>,
    wraplen: usize,
    line_end: Seq<char>,
    k: int,
) -> Seq<char>
    decreases k,
{
    if k <= 0 {
        seq![]
    } else {
        semantic(ls, scans, wraplen, line_end, k - 1) + line_group(
            ls,
            scans,
            wraplen,
            line_end,
            k - 1,
        )
    }
}

/// Whether a list of positions never descends.
pub open spec fn sorted(s: Seq<usize>) -> bool {
    forall|i: int, j: int| 0 <= i <= j < s.len() ==> s[i] <= s[j]
}

/// The breaks between packed lines ascend, lie strictly between the start and
/// the end, and are candidates.
pub proof fn lemma_packed(line: Seq<char>, from: usize, cs: Seq<usize>, i: int, wraplen: usize)
    requires
        0 <= i <= cs.len(),
        ascending(cs),
    ensures
        ({
            let ps = packed(line, from, cs, i, wraplen);
            &&& ascending(ps)
            &&& forall|k: int|
                0 <= k < ps.len() ==> exists|m: int|
                    i <= m < cs.len() - 1 && #[trigger] ps[k] == #[trigger] cs[m]
        }),
    decreases cs.len() - i,
{
    if i < cs.len() {
        lemma_last_clause(line, from, cs, i, wraplen);
        let j = last_clause(line, from, cs, i, wraplen);
        if j + 1 < cs.len() {
            lemma_packed(line, cs[j], cs, j + 1, wraplen);
            let rest = packed(line, cs[j], cs, j + 1, wraplen);
            let ps = packed(line, from, cs, i, wraplen);
            assert(ps == seq![cs[j]] + rest);
            assert forall|a: int, b: int| 0 <= a < b < ps.len() implies ps[a] < ps[b] by {
                assert(ps[b] == rest[b - 1]);
                if a == 0 {
                    let m = choose|m: int| j + 1 <= m < cs.len() - 1 && rest[b - 1] == cs[m];
                    assert(cs[j] < cs[m]);
                } else {
                    assert(ps[a] == rest[a - 1]);
                }
            }
            assert forall|k: int| 0 <= k < ps.len() implies exists|m: int|
                i <= m < cs.len() - 1 && #[trigger] ps[k] == #[trigger] cs[m] by {
                if k == 0 {
                    assert(ps[0] == cs[j]);
                } else {
                    assert(ps[k] == rest[k - 1]);
                    let m = choose|m: int| j + 1 <= m < cs.len() - 1 && rest[k - 1] == cs[m];
                    assert(ps[k] == cs[m]);
                }
            }
        }
    }
}

/// The segments of a line follow one another.
pub proof fn lemma_segments(line: Seq<char>, comment: Option<usize>, nest: Nesting)
    requires
        line.len() <= usize::MAX,
        comment matches Some(c) ==> c <= line.len(),
    ensures
        ({
            let segs = segments(line, comment, nest);
            &&& segs.len() >= 2
            &&& segs[0] == 0
            &&& segs.last() == line.len()
            &&& sorted(segs)
        }),
{
    let limit = limit_of(line, comment);
    lemma_select(|p: int| sentence_break(line, limit, nest.in_math, p), limit);
    let segs = segments(line, comment, nest);
    let s = sentence_ends(line, comment, nest.in_math);
    let n = segs.len() as int;
    assert(segs[n - 1] == line.len() as usize);
    assert forall|i: int| 0 < i < n - 1 implies #[trigger] segs[i] == s[i - 1] by {}
    assert forall|i: int, j: int| 0 <= i <= j < segs.len() implies segs[i] <= segs[j] by {
        if 0 < i && j < n - 1 {
            assert(i < j ==> s[i - 1] < s[j - 1]);
        } else if 0 < i {
            assert(i < n - 1 ==> s[i - 1] < limit);
        }
    }
}

/// The cuts of the first `k` segments never descend and lie before the end of
/// the last of them.
#[verifier::rlimit(20)]
pub proof fn lemma_cuts_to(
    line: Seq<char>,
    comment: Option<usize>,
    nest: Nesting,
    wraplen: usize,
    k: int,
)
    requires
        line.len() <= usize::MAX,
        comment matches Some(c) ==> c <= line.len(),
        0 <= k < segments(line, comment, nest).len(),
    ensures
        ({
            let cuts = cuts_to(line, comment, nest, wraplen, k);
            &&& sorted(cuts)
            &&& k > 0 ==> cuts.len() > 0 && cuts[0] == 0
            &&& forall|i: int|
                0 <= i < cuts.len() ==> #[trigger] cuts[i] <= segments(line, comment, nest)[k]
            &&& forall|m: int|
                0 <= m < k ==> cuts.contains(#[trigger] segments(line, comment, nest)[m])
            &&& forall|i: int|
                0 <= i < cuts.len() ==> segments(line, comment, nest).contains(#[trigger] cuts[i])
                    || clause_ends(line, comment, nest).contains(cuts[i])
        }),
    decreases k,
{
    lemma_segments(line, comment, nest);
    if k > 0 {
        lemma_cuts_to(line, comment, nest, wraplen, k - 1);
        let segs = segments(line, comment, nest);
        let head = cuts_to(line, comment, nest, wraplen, k - 1);
        let start = segs[k - 1];
        let end = segs[k];
        let clauses = clause_ends(line, comment, nest);
        let limit = limit_of(line, comment);
        lemma_select(|p: int| clause_break(line, limit, nest, p), limit);
        assert(start <= end);
        lemma_candidates(clauses, start, end);
        let cs = candidates(clauses, start, end);
        lemma_packed(line, start, cs, 0, wraplen);
        let inner = if keeps_within(line, start, end, wraplen) {
            seq![]
        } else {
            packed(line, start, cs, 0, wraplen)
        };
        let cuts = cuts_to(line, comment, nest, wraplen, k);
        let h = head.len() as int;
        assert(cuts == head + seq![start] + inner);
        assert forall|i: int| 0 <= i < inner.len() implies start <= #[trigger] inner[i] <= end
            && clauses.contains(inner[i]) by {
            let m = choose|m: int| 0 <= m < cs.len() - 1 && inner[i] == cs[m];
            assert(start <= cs[m] <= end);
            assert(clauses.contains(cs[m]));
        }
        assert forall|i: int| h < i < cuts.len() implies #[trigger] cuts[i] == inner[i - h
            - 1] by {}
        assert(cuts[h] == start);
        assert forall|i: int| 0 <= i < h implies #[trigger] cuts[i] == head[i] by {}
        assert forall|i: int, j: int| 0 <= i <= j < cuts.len() implies cuts[i] <= cuts[j] by {
            if i > h && i < j {
                assert(inner[i - h - 1] < inner[j - h - 1]);
            } else if i < h && j < h {
                assert(head[i] <= head[j]);
            } else if i < h {
                assert(head[i] <= start);
                assert(j > h ==> start <= inner[j - h - 1]);
            } else if i == h {
                assert(j > h ==> start <= inner[j - h - 1]);
            }
        }
        assert forall|m: int| 0 <= m < k implies cuts.contains(#[trigger] segs[m]) by {
            if m == k - 1 {
                assert(cuts[h] == segs[m]);
            } else {
                assert(head.contains(segs[m]));
                let i = choose|i: int| 0 <= i < head.len() && head[i] == segs[m];
                assert(cuts[i] == segs[m]);
            }
        }
        assert forall|i: int| 0 <= i < cuts.len() implies #[trigger] cuts[i] <= end && (
        segs.contains(cuts[i]) || clauses.contains(cuts[i])) by {
            if i < h {
                assert(head[i] <= segs[k - 1]);
            } else if i == h {
                assert(segs[k - 1] == cuts[i]);
            } else {
                assert(start <= inner[i - h - 1] <= end);
            }
        }
    }
}

/// The cuts of a line lead from its start to its end and never descend.
pub proof fn lemma_line_cuts(line: Seq<char>, comment: Option<usize>, nest: Nesting, wraplen: usize)
    requires
        line.len() <= usize::MAX,
        comment matches Some(c) ==> c <= line.len(),
    ensures
        ({
            let cuts = line_cuts(line, comment, nest, wraplen);
            &&& cuts.len() >= 2
            &&& sorted(cuts)
            &&& cuts[0] == 0
            &&& cuts.last() == line.len()
        }),
{
    lemma_segments(line, comment, nest);
    lemma_cuts_to(line, comment, nest, wraplen, segments(line, comment, nest).len() - 1);
}

/// Appends a text, cut at some positions, each part that is not blank trimmed
/// and on a line of its own.
fn push_fragments(out: &mut String, text: &[char], cuts: &[usize], line_end: &str)
    requires
        sorted(cuts@),
        cuts@.len() > 0,
        cuts@.last() <= text@.len(),
    ensures
        final(out)@ == old(out)@ + fragments(text@, cuts@, line_end@),
{
    let mut k: usize = 1;
    let ghost start = out@;
    assert(fragments(text@, cuts@.take(1), line_end@) =~= seq![]);
    assert(start + Seq::<char>::empty() =~= start);
    while k < cuts.len()
        invariant
            sorted(cuts@),
            1 <= k <= cuts@.len(),
            cuts@.last() <= text@.len(),
            out@ == start + fragments(text@, cuts@.take(k as int), line_end@),
        decreases cuts@.len() - k,
    {
        assert(cuts@[k - 1] <= cuts@[k as int]);
        assert(cuts@[k as int] <= cuts@[cuts@.len() - 1]);
        let part = trim(slice_subrange(text, cuts[k - 1], cuts[k]));
        if part.len() > 0 {
            push_line(out, part, line_end);
        }
        k += 1;
        proof {
            let c = cuts@.take(k as int);
            let head = fragments(text@, cuts@.take(k - 1), line_end@);
            assert(c.drop_last() == cuts@.take(k - 1));
            if part@.len() > 0 {
                assert(out@ =~= start + (head + part@ + line_end@));
            }
        }
    }
    assert(cuts@.take(k as int) == cuts@);
}

/// Determines the positions at which a line is cut.
fn find_cuts(
    line: &[char],
    comment: Option<usize>,
    nest: Nesting,
    wraplen: usize,
) -> (res: Vec<usize>)
    requires
        comment matches Some(c) ==> c <= line@.len(),
    ensures
        res@ == line_cuts(line@, comment, nest, wraplen),
{
    let n: usize = line.len();
    let sentences = sentence_breaks(line, comment, nest.in_math);
    let clauses = clause_breaks(line, comment, nest);
    let mut segs: Vec<usize> = Vec::new();
    segs.push(0);
    segs.extend_from_slice(sentences.as_slice());
    segs.push(n);
    assert(segs@ =~= segments(line@, comment, nest));
    proof {
        lemma_segments(line@, comment, nest);
        let limit = limit_of(line@, comment);
        lemma_select(|p: int| clause_break(line@, limit, nest, p), limit);
    }
    let mut cuts: Vec<usize> = Vec::new();
    let mut k: usize = 0;
    let m: usize = segs.len() - 1;
    while k < m
        invariant
            k <= m == segs@.len() - 1,
            segs@ == segments(line@, comment, nest),
            sorted(segs@),
            segs@.last() == line@.len(),
            clauses@ == clause_ends(line@, comment, nest),
            ascending(clauses@),
            cuts@ == cuts_to(line@, comment, nest, wraplen, k as int),
        decreases m - k,
    {
        let ghost before = cuts@;
        let start: usize = segs[k];
        let end: usize = segs[k + 1];
        assert(start <= end);
        assert(end <= segs@[m as int]);
        cuts.push(start);
        if trimmed_width(line, start, end) > wraplen {
            let inner = pack_clauses(line, start, end, clauses.as_slice(), wraplen);
            cuts.extend_from_slice(inner.as_slice());
            assert(cuts@ =~= before + seq![start] + inner@);
        } else {
            assert(cuts@ =~= before + seq![start] + Seq::<usize>::empty());
        }
        k += 1;
    }
    cuts.push(n);
    assert(cuts@ =~= line_cuts(line@, comment, nest, wraplen));
    cuts
}

/// Reflows a paragraph by keeping authored breaks and adding sentence breaks.
pub fn semantically_reflow(
    ls: &[Vec<char>],
    scans: &[LineScan],
    args: &Args,
    line_end: &str,
) -> (res: String)
    requires
        scans@.len() == ls@.len(),
        forall|k: int|
            0 <= k < ls@.len() ==> comment_within(#[trigger] texts(ls@)[k], scans@[k]),
    ensures
        res@ == semantic(texts(ls@), scans@, args.wraplen, line_end@, ls@.len() as int),
{
    let mut out = String::new();
    let ghost t = texts(ls@);
    let mut nest = Nesting::new();
    let mut k: usize = 0;
    while k < ls.len()
        invariant
            k <= ls@.len() == scans@.len(),
            t == texts(ls@),
            forall|m: int| 0 <= m < ls@.len() ==> comment_within(#[trigger] t[m], scans@[m]),
            nest == nesting_before(t, scans@, k as int),
            out@ == semantic(t, scans@, args.wraplen, line_end@, k as int),
        decreases ls@.len() - k,
    {
        let line = ls[k].as_slice();
        assert(line@ == t[k as int]);
        assert(comment_within(t[k as int], scans@[k as int]));
        let cuts = find_cuts(line, scans[k].comment, nest, args.wraplen);
        proof {
            assert(line@.len() <= usize::MAX) by {
                assert(line@.len() == line.len());
            }
            lemma_line_cuts(line@, scans@[k as int].comment, nest, args.wraplen);
        }
        push_fragments(&mut out, line, cuts.as_slice(), line_end);
        nest = close_line(line, scans[k].comment, nest);
        k += 1;
    }
    out
}

} // verus!
