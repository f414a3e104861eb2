//! Where semantic reflow cuts the lines of a paragraph, said of its characters and
//! their widths.

use vstd::prelude::*;

use crate::breaking::{law_width, measure};
use crate::chars::{alphabetic, lower, white};
use crate::prose::math_at;
use crate::reading::{inked, law_trimming, law_trimming_nothing, law_whitespace, space, spaces};
use crate::scan::LineScan;
use crate::semantic::{
    abbreviation, abbreviations, all_periods, candidates, clause_break, clause_end, clause_ends,
    cuts_to, ends_between, fragments, inner_period, inner_period_among, inner_run, keeps_within,
    last_clause, law_packed_lines_fit, lemma_candidates, lemma_last_clause, lemma_line_cuts,
    lemma_packed, lemma_segments, letters_of, level_at, limit_of, line_cuts, nesting_after,
    nesting_at, nesting_before, packed, run_start, same_word, segments, semantic, sentence_break,
    sentence_ends, terminator, text_follows, word_start, Nesting,
};
use crate::text::{ascending, blank, lemma_select, lemma_width_monotone, select};

verus! {

// ---------------------------------------------------------------------------
// Abbreviations

/// Whether a character is a letter of the English alphabet, given in lower case, in
/// either case.
pub open spec fn letter_is(c: char, l: char) -> bool {
    c == l || (c as u32) + 32 == l as u32
}

/// Whether a word is spelled with these letters, case aside.
pub open spec fn spelled(word: Seq<char>, letters: Seq<char>) -> bool {
    word.len() == letters.len() && forall|i: int|
        0 <= i < letters.len() ==> letter_is(word[i], #[trigger] letters[i])
}

/// The words behind which a period does not end a sentence.
pub open spec fn shortening(word: Seq<char>) -> bool {
    ||| spelled(word, seq!['e', 't', 'c'])
    ||| spelled(word, seq!['c', 'f'])
    ||| spelled(word, seq!['v', 's'])
    ||| spelled(word, seq!['a', 'l'])
    ||| spelled(word, seq!['r', 'e', 's', 'p'])
    ||| spelled(word, seq!['a', 'p', 'p', 'r', 'o', 'x'])
    ||| spelled(word, seq!['f', 'i', 'g'])
    ||| spelled(word, seq!['e', 'q'])
    ||| spelled(word, seq!['s', 'e', 'c'])
    ||| spelled(word, seq!['r', 'e', 'f'])
    ||| spelled(word, seq!['n', 'o'])
    ||| spelled(word, seq!['v', 'o', 'l'])
    ||| spelled(word, seq!['p', 'p'])
    ||| spelled(word, seq!['d', 'r'])
    ||| spelled(word, seq!['m', 'r'])
    ||| spelled(word, seq!['m', 'r', 's'])
    ||| spelled(word, seq!['m', 's'])
    ||| spelled(word, seq!['p', 'r', 'o', 'f'])
}

/// A word that an entry of the list stands for is spelled like the entry.
proof fn lemma_spelled(entry: Seq<char>, letters: Seq<char>, word: Seq<char>)
    requires
        entry.len() == letters.len(),
        forall|i: int|
            0 <= i < letters.len() ==> 'a' <= #[trigger] letters[i] && letters[i] <= 'z'
                && letter_is(entry[i], letters[i]),
    ensures
        same_word(entry, word) == spelled(word, letters),
{
    if same_word(entry, word) {
        assert forall|i: int| 0 <= i < letters.len() implies letter_is(
            word[i],
            #[trigger] letters[i],
        ) by {
            assert(lower(entry[i]) == lower(word[i]));
            lemma_lower(entry[i], letters[i]);
            lemma_lower(word[i], letters[i]);
        }
    }
    if spelled(word, letters) {
        assert forall|i: int| 0 <= i < entry.len() implies lower(#[trigger] entry[i]) == lower(
            word[i],
        ) by {
            assert(letter_is(entry[i], letters[i]));
            assert(letter_is(word[i], letters[i]));
            lemma_lower(entry[i], letters[i]);
            lemma_lower(word[i], letters[i]);
        }
    }
}

proof fn lemma_lower(c: char, l: char)
    requires
        'a' <= l && l <= 'z',
    ensures
        letter_is(c, l) <==> lower(c) == l,
{
    let n = c as u32;
    if 'A' <= c && c <= 'Z' {
        let m = (n + 32) as u32;
        assert((m as char) as u32 == m);
    }
}

/// A word is an abbreviation if and only if it is one of eighteen words, in upper or
/// lower case.
pub proof fn law_abbreviations(word: Seq<char>)
    ensures
        abbreviation(word) == shortening(word),
{
    reveal_strlit("etc");
    reveal_strlit("cf");
    reveal_strlit("vs");
    reveal_strlit("al");
    reveal_strlit("resp");
    reveal_strlit("approx");
    reveal_strlit("Fig");
    reveal_strlit("Eq");
    reveal_strlit("Sec");
    reveal_strlit("Ref");
    reveal_strlit("No");
    reveal_strlit("vol");
    reveal_strlit("pp");
    reveal_strlit("Dr");
    reveal_strlit("Mr");
    reveal_strlit("Mrs");
    reveal_strlit("Ms");
    reveal_strlit("Prof");
    let a = abbreviations();
    assert(a.len() == 18);
    lemma_spelled(a[0], seq!['e', 't', 'c'], word);
    lemma_spelled(a[1], seq!['c', 'f'], word);
    lemma_spelled(a[2], seq!['v', 's'], word);
    lemma_spelled(a[3], seq!['a', 'l'], word);
    lemma_spelled(a[4], seq!['r', 'e', 's', 'p'], word);
    lemma_spelled(a[5], seq!['a', 'p', 'p', 'r', 'o', 'x'], word);
    lemma_spelled(a[6], seq!['f', 'i', 'g'], word);
    lemma_spelled(a[7], seq!['e', 'q'], word);
    lemma_spelled(a[8], seq!['s', 'e', 'c'], word);
    lemma_spelled(a[9], seq!['r', 'e', 'f'], word);
    lemma_spelled(a[10], seq!['n', 'o'], word);
    lemma_spelled(a[11], seq!['v', 'o', 'l'], word);
    lemma_spelled(a[12], seq!['p', 'p'], word);
    lemma_spelled(a[13], seq!['d', 'r'], word);
    lemma_spelled(a[14], seq!['m', 'r'], word);
    lemma_spelled(a[15], seq!['m', 'r', 's'], word);
    lemma_spelled(a[16], seq!['m', 's'], word);
    lemma_spelled(a[17], seq!['p', 'r', 'o', 'f'], word);
    if abbreviation(word) {
        let k = choose|k: int| 0 <= k < a.len() && same_word(#[trigger] a[k], word);
        assert(k == 0 || k == 1 || k == 2 || k == 3 || k == 4 || k == 5 || k == 6 || k == 7 || k
            == 8 || k == 9 || k == 10 || k == 11 || k == 12 || k == 13 || k == 14 || k == 15 || k
            == 16 || k == 17);
    }
}

// ---------------------------------------------------------------------------
// Sentences

/// The characters that end a sentence.
pub open spec fn mark(c: char) -> bool {
    c == '.' || c == '!' || c == '?'
}

/// Whether the characters `i..p` of a line are all the marks that end a sentence up
/// to `p`.
pub open spec fn marks(line: Seq<char>, i: int, p: int) -> bool {
    &&& 0 <= i < p <= line.len()
    &&& forall|k: int| i <= k < p ==> mark(#[trigger] line[k])
    &&& i == 0 || !mark(line[i - 1])
}

/// Whether a period at `i` is part of an abbreviation or a number: it starts the
/// line, or follows a digit, or follows a word that is a single letter or an
/// abbreviation.
pub open spec fn inside_word(line: Seq<char>, letters: Seq<bool>, i: int) -> bool {
    ||| i == 0
    ||| '0' <= line[i - 1] && line[i - 1] <= '9'
    ||| exists|s: int|
        #![trigger line.subrange(s, i)]
        0 <= s < i && (forall|k: int| s <= k < i ==> #[trigger] letters[k]) && (s == 0
            || !letters[s - 1]) && (i - s == 1 || shortening(line.subrange(s, i)))
}

/// Whether whitespace stands at `p` of a line, and something else behind it before
/// the comment.
pub open spec fn more_follows(line: Seq<char>, comment: Option<usize>, p: int) -> bool {
    let limit = if comment is Some {
        comment->0 as int
    } else {
        line.len() as int
    };
    0 <= p < limit && space(line[p]) && exists|k: int| p < k < limit && !space(#[trigger] line[k])
}

proof fn lemma_more_follows(line: Seq<char>, comment: Option<usize>, p: int)
    requires
        0 <= p,
        comment matches Some(c) ==> c <= line.len(),
    ensures
        text_follows(line, limit_of(line, comment), p) == more_follows(line, comment, p),
{
    let limit = limit_of(line, comment);
    let part = line.subrange(p, limit);
    if 0 <= p < limit {
        law_whitespace(line[p]);
        if !blank(part) {
            let i = choose|i: int| 0 <= i < part.len() && !white(#[trigger] part[i]);
            assert(part[i] == line[p + i]);
            law_whitespace(line[p + i]);
            assert(i == 0 ==> white(line[p]) == white(part[0]));
        }
        if exists|k: int| p < k < limit && !space(#[trigger] line[k]) {
            let k = choose|k: int| p < k < limit && !space(#[trigger] line[k]);
            law_whitespace(line[k]);
            assert(part[k - p] == line[k]);
        }
    }
}

proof fn lemma_word_start(letters: Seq<bool>, i: int)
    requires
        0 <= i <= letters.len(),
    ensures
        0 <= word_start(letters, i) <= i,
        forall|k: int| word_start(letters, i) <= k < i ==> #[trigger] letters[k],
        word_start(letters, i) == 0 || !letters[word_start(letters, i) - 1],
    decreases i,
{
    if 0 < i && letters[i - 1] {
        lemma_word_start(letters, i - 1);
    }
}

/// A period is part of an abbreviation or a number if and only if it starts the
/// line, follows a digit, or follows a word that is a single letter or an
/// abbreviation.
pub proof fn law_inner_period(line: Seq<char>, letters: Seq<bool>, i: int)
    requires
        0 <= i < line.len(),
        letters.len() == line.len(),
    ensures
        inner_period_among(line, letters, i) <==> line[i] == '.' && inside_word(line, letters, i),
        letters_of(line).len() == line.len(),
        forall|k: int|
            0 <= k < line.len() ==> #[trigger] letters_of(line)[k] == alphabetic(line[k]),
        inner_period(line, i) == inner_period_among(line, letters_of(line), i),
{
    lemma_word_start(letters, i);
    let s = word_start(letters, i);
    law_abbreviations(line.subrange(s, i));
    if i > 0 && letters[i - 1] {
        assert(s < i);
    }
    if i > 0 && exists|t: int|
        #![trigger line.subrange(t, i)]
        0 <= t < i && (forall|k: int| t <= k < i ==> #[trigger] letters[k]) && (t == 0
            || !letters[t - 1]) && (i - t == 1 || shortening(line.subrange(t, i))) {
        let t = choose|t: int|
            #![trigger line.subrange(t, i)]
            0 <= t < i && (forall|k: int| t <= k < i ==> #[trigger] letters[k]) && (t == 0
                || !letters[t - 1]) && (i - t == 1 || shortening(line.subrange(t, i)));
        assert(letters[i - 1]);
        if t < s {
            assert(letters[s - 1]);
        } else if s < t {
            assert(letters[t - 1]);
        }
        assert(s == t);
    }
}

proof fn lemma_run_start(line: Seq<char>, i: int)
    requires
        0 <= i < line.len(),
    ensures
        0 <= run_start(line, i) <= i,
        forall|k: int| run_start(line, i) <= k < i ==> mark(#[trigger] line[k]),
        run_start(line, i) == 0 || !mark(line[run_start(line, i) - 1]),
    decreases i,
{
    if 0 < i && terminator(line[i - 1]) {
        lemma_run_start(line, i - 1);
    }
}

/// A run of marks belongs to an abbreviation or a number if and only if all of it
/// are periods and the first is part of one.
pub proof fn law_inner_run(line: Seq<char>, i: int, p: int)
    requires
        0 < p <= line.len(),
    ensures
        !mark(line[p - 1]) ==> !inner_run(line, p),
        marks(line, i, p) ==> (inner_run(line, p) <==> (forall|k: int|
            i <= k < p ==> #[trigger] line[k] == '.') && inside_word(line, letters_of(line), i)),
{
    lemma_run_start(line, p - 1);
    let s = run_start(line, p - 1);
    if marks(line, i, p) {
        if i < s {
            assert(mark(line[s - 1]));
        } else if s < i {
            assert(mark(line[i - 1]));
        }
        law_inner_period(line, letters_of(line), i);
        if all_periods(line, i, p) {
            assert(line[i] == '.');
        }
    }
    if all_periods(line, s, p) {
        assert(line[p - 1] == '.');
    }
}

/// Whether a sentence of a line ends at `p`: marks stop there outside inline math,
/// whitespace and further text follow before the comment, and the marks are not all
/// periods or the first is no part of an abbreviation or a number.
pub open spec fn sentence_stop(
    line: Seq<char>,
    comment: Option<usize>,
    in_math: bool,
    p: int,
) -> bool {
    &&& more_follows(line, comment, p)
    &&& !math_at(line, p - 1, in_math)
    &&& exists|i: int| #[trigger]
        marks(line, i, p) && !((forall|k: int| i <= k < p ==> #[trigger] line[k] == '.')
            && inside_word(line, letters_of(line), i))
}

/// A line is broken behind `p` as the end of a sentence if and only if one ends
/// there, whatever stands before the marks.
pub proof fn law_sentence_ends(line: Seq<char>, comment: Option<usize>, in_math: bool, p: usize)
    requires
        line.len() <= usize::MAX,
        comment matches Some(c) ==> c <= line.len(),
    ensures
        ascending(sentence_ends(line, comment, in_math)),
        sentence_ends(line, comment, in_math).contains(p) == sentence_stop(
            line,
            comment,
            in_math,
            p as int,
        ),
{
    let limit = limit_of(line, comment);
    let f = |q: int| sentence_break(line, limit, in_math, q);
    let ends = sentence_ends(line, comment, in_math);
    lemma_select(f, limit);
    assert(ends == select(f, limit));
    assert(ends.contains(p) == (p < limit && f(p as int))) by {
        if ends.contains(p) {
            let i = choose|i: int| 0 <= i < ends.len() && ends[i] == p;
            assert(f(ends[i] as int));
        }
        if p < limit && f(p as int) {
            assert(ends.contains(p));
        }
    }
    lemma_more_follows(line, comment, p as int);
    if 0 < p < limit {
        let q = p as int;
        lemma_run_start(line, q - 1);
        let s = run_start(line, q - 1);
        if mark(line[q - 1]) {
            assert(marks(line, s, q));
            law_inner_run(line, s, q);
        }
        assert forall|i: int| #[trigger] marks(line, i, q) implies i == s && mark(line[q - 1]) by {
            if i < s {
                assert(mark(line[s - 1]));
            } else if s < i {
                assert(mark(line[i - 1]));
            }
        }
    }
}

// ---------------------------------------------------------------------------
// Clauses

proof fn lemma_level_local(
    line: Seq<char>,
    rest: Seq<char>,
    k: int,
    open: char,
    close: char,
    start: usize,
)
    requires
        k <= line.len(),
    ensures
        level_at(line + rest, k, open, close, start) == level_at(line, k, open, close, start),
    decreases k,
{
    if k > 0 {
        lemma_level_local(line, rest, k - 1, open, close, start);
        assert((line + rest)[k - 1] == line[k - 1]);
        assert(k > 1 ==> (line + rest)[k - 2] == line[k - 2]);
    }
}

/// An opening character that no backslash precedes adds one to what is open, a
/// closing one takes one unless there is none, and nothing else changes it.
pub proof fn law_levels(
    line: Seq<char>,
    c: char,
    rest: Seq<char>,
    open: char,
    close: char,
    start: usize,
)
    requires
        open != close,
    ensures
        ({
            let n = line.len() as int;
            let before = level_at(line, n, open, close, start);
            let after = level_at(line.push(c) + rest, n + 1, open, close, start);
            let escaped = n > 0 && line[n - 1] == '\\';
            &&& level_at(line, 0, open, close, start) == start
            &&& level_at(line.push(c) + rest, n, open, close, start) == before
            &&& escaped ==> after == before
            &&& c != open && c != close ==> after == before
            &&& !escaped && c == open && before < usize::MAX ==> after == before + 1
            &&& !escaped && c == open && before == usize::MAX ==> after == before
            &&& !escaped && c == close && before > 0 ==> after == before - 1
            &&& !escaped && c == close && before == 0 ==> after == 0
        }),
{
    let n = line.len() as int;
    let more = line.push(c);
    lemma_level_local(more, rest, n, open, close, start);
    lemma_level_local(more, rest, n + 1, open, close, start);
    assert(more =~= line + seq![c]);
    lemma_level_local(line, seq![c], n, open, close, start);
    assert(more[n] == c);
    assert(n > 0 ==> more[n - 1] == line[n - 1]);
}

/// What is open at a place of a line, and before and behind it in its paragraph.
pub proof fn law_nesting(
    ls: Seq<Seq<char>>,
    scans: Seq<LineScan>,
    k: int,
    line: Seq<char>,
    p: int,
    nest: Nesting,
)
    requires
        0 <= k,
    ensures
        ({
            let at = nesting_at(line, p, nest);
            &&& at.in_math == math_at(line, p, nest.in_math)
            &&& at.brace == level_at(line, p, '{', '}', nest.brace)
            &&& at.bracket == level_at(line, p, '[', ']', nest.bracket)
            &&& at.paren == level_at(line, p, '(', ')', nest.paren)
        }),
        ({
            let first = nesting_before(ls, scans, 0);
            !first.in_math && first.brace == 0 && first.bracket == 0 && first.paren == 0
        }),
        scans[k].comment is None ==> nesting_before(ls, scans, k + 1) == nesting_at(
            ls[k],
            ls[k].len() as int,
            nesting_before(ls, scans, k),
        ),
        scans[k].comment is Some ==> nesting_before(ls, scans, k + 1) == nesting_at(
            ls[k],
            scans[k].comment->0 as int,
            nesting_before(ls, scans, k),
        ),
        nesting_after(ls[k], scans[k].comment, nest) == nesting_at(
            ls[k],
            limit_of(ls[k], scans[k].comment),
            nest,
        ),
{
}

/// Whether a clause of a line ends at `p`: a comma, a semicolon or a colon stands
/// before it outside inline math, braces, brackets and parentheses, and whitespace
/// and further text follow before the comment.
pub open spec fn clause_stop(
    line: Seq<char>,
    comment: Option<usize>,
    nest: Nesting,
    p: int,
) -> bool {
    &&& 0 < p
    &&& more_follows(line, comment, p)
    &&& line[p - 1] == ',' || line[p - 1] == ';' || line[p - 1] == ':'
    &&& !math_at(line, p - 1, nest.in_math)
    &&& level_at(line, p - 1, '{', '}', nest.brace) == 0
    &&& level_at(line, p - 1, '[', ']', nest.bracket) == 0
    &&& level_at(line, p - 1, '(', ')', nest.paren) == 0
}

/// A line may be broken behind `p` as the end of a clause if and only if one ends
/// there, whatever stands before the comma, semicolon or colon.
pub proof fn law_clause_ends(line: Seq<char>, comment: Option<usize>, nest: Nesting, p: usize)
    requires
        line.len() <= usize::MAX,
        comment matches Some(c) ==> c <= line.len(),
    ensures
        ascending(clause_ends(line, comment, nest)),
        clause_ends(line, comment, nest).contains(p) == clause_stop(line, comment, nest, p as int),
{
    let limit = limit_of(line, comment);
    let f = |q: int| clause_break(line, limit, nest, q);
    let ends = clause_ends(line, comment, nest);
    lemma_select(f, limit);
    assert(ends == select(f, limit));
    assert(ends.contains(p) == (p < limit && f(p as int))) by {
        if ends.contains(p) {
            let i = choose|i: int| 0 <= i < ends.len() && ends[i] == p;
            assert(f(ends[i] as int));
        }
        if p < limit && f(p as int) {
            assert(ends.contains(p));
        }
    }
    lemma_more_follows(line, comment, p as int);
}

/// Which characters end sentences and clauses.
pub proof fn law_marks(c: char)
    ensures
        terminator(c) == mark(c),
        clause_end(c) == (c == ',' || c == ';' || c == ':'),
{
}

// ---------------------------------------------------------------------------
// Packing

/// Whether the text between two positions of a line is no longer than the limit.
pub open spec fn fits_in(line: Seq<char>, from: usize, to: usize, wraplen: usize) -> bool {
    measure(line.subrange(from as int, to as int)) <= wraplen
}

proof fn lemma_fits_in(line: Seq<char>, from: usize, to: usize, wraplen: usize)
    ensures
        fits_in(line, from, to, wraplen) == keeps_within(line, from, to, wraplen),
{
    law_width(line.subrange(from as int, to as int));
}

/// Whether lines that are cut at `ps` hold as many of the clauses that end at `cs`
/// as fit: a line that is too long holds a single clause, and a line that is cut
/// before the end could not hold the next clause.
spec fn well_packed(line: Seq<char>, ps: Seq<usize>, cs: Seq<usize>, wraplen: usize) -> bool {
    &&& forall|m: int, l: int, j: int|
        #![trigger ps[m], ps[l], cs[j]]
        0 <= m && l == m + 1 && l < ps.len() && 0 <= j < cs.len() && ps[m] < cs[j] < ps[l]
            ==> keeps_within(line, ps[m], ps[l], wraplen)
    &&& forall|m: int, l: int, j: int|
        #![trigger ps[m], ps[l], cs[j]]
        0 <= m && l == m + 1 && l < ps.len() - 1 && 0 <= j < cs.len() && ps[l] < cs[j]
            ==> !keeps_within(line, ps[m], cs[j], wraplen)
}

proof fn lemma_well_packed(line: Seq<char>, from: usize, cs: Seq<usize>, i: int, wraplen: usize)
    requires
        0 <= i < cs.len(),
        ascending(cs),
        cs.last() <= line.len(),
        from <= cs[i],
        forall|j: int| 0 <= j < i ==> #[trigger] cs[j] <= from,
    ensures
        well_packed(
            line,
            seq![from] + packed(line, from, cs, i, wraplen) + seq![cs.last()],
            cs,
            wraplen,
        ),
    decreases cs.len() - i,
{
    let n = cs.len() as int;
    let j = last_clause(line, from, cs, i, wraplen);
    lemma_last_clause(line, from, cs, i, wraplen);
    law_packed_lines_fit(line, from, cs, i, wraplen);
    let ps = seq![from] + packed(line, from, cs, i, wraplen) + seq![cs.last()];
    if j + 1 < n {
        let rest = seq![cs[j]] + packed(line, cs[j], cs, j + 1, wraplen) + seq![cs.last()];
        assert(cs[j] < cs[j + 1]);
        assert forall|a: int| 0 <= a < j + 1 implies #[trigger] cs[a] <= cs[j] by {
            assert(a < j ==> cs[a] < cs[j]);
        }
        lemma_well_packed(line, cs[j], cs, j + 1, wraplen);
        assert(ps =~= seq![from] + rest);
        assert forall|m: int| 0 < m < ps.len() implies #[trigger] ps[m] == rest[m - 1] by {}
        assert forall|m: int, l: int, a: int|
            #![trigger ps[m], ps[l], cs[a]]
            0 <= m && l == m + 1 && l < ps.len() && 0 <= a < cs.len() && ps[m] < cs[a]
                < ps[l] implies keeps_within(line, ps[m], ps[l], wraplen) by {
            if m == 0 {
                assert(ps[1] == cs[j]);
                if a < i {
                    assert(cs[a] <= from);
                } else if a >= j {
                    assert(a > j ==> cs[j] < cs[a]);
                }
                assert(i < j);
            } else {
                assert(ps[m] == rest[m - 1] && ps[l] == rest[l - 1]);
            }
        }
        assert forall|m: int, l: int, a: int|
            #![trigger ps[m], ps[l], cs[a]]
            0 <= m && l == m + 1 && l < ps.len() - 1 && 0 <= a < cs.len() && ps[l]
                < cs[a] implies !keeps_within(line, ps[m], cs[a], wraplen) by {
            if m == 0 {
                assert(ps[1] == cs[j]);
                if a < j {
                    assert(cs[a] < cs[j]);
                }
                assert(a >= j + 1);
                assert(a > j + 1 ==> cs[j + 1] < cs[a]);
                assert(a < n - 1 ==> cs[a] < cs[n - 1]);
                assert(i < j ==> cs[i] < cs[j]);
                lemma_width_monotone(line, from as int, cs[j + 1] as int, cs[a] as int);
            } else {
                assert(ps[m] == rest[m - 1] && ps[l] == rest[l - 1]);
            }
        }
    } else {
        assert(packed(line, from, cs, i, wraplen) =~= seq![]);
        assert(ps =~= seq![from, cs.last()]);
        assert forall|m: int, l: int, a: int|
            #![trigger ps[m], ps[l], cs[a]]
            0 <= m && l == m + 1 && l < ps.len() && 0 <= a < cs.len() && ps[m] < cs[a]
                < ps[l] implies keeps_within(line, ps[m], ps[l], wraplen) by {
            if a < i {
                assert(cs[a] <= from);
            }
            assert(a < n - 1);
            assert(j == n - 1);
        }
    }
}

proof fn lemma_all_candidates(clauses: Seq<usize>, n: int, start: usize, end: usize, q: int)
    requires
        0 <= q < n <= clauses.len(),
        start < clauses[q] < end,
    ensures
        ends_between(clauses, n, start, end).contains(clauses[q]),
    decreases n,
{
    let cs = ends_between(clauses, n, start, end);
    if q < n - 1 {
        lemma_all_candidates(clauses, n - 1, start, end, q);
        let before = ends_between(clauses, n - 1, start, end);
        let i = choose|i: int| 0 <= i < before.len() && before[i] == clauses[q];
        assert(cs[i] == clauses[q]);
    } else {
        assert(cs.last() == clauses[q]);
    }
}

/// What packing makes of a segment. It is cut only where its clauses end. A line
/// that is longer than the limit holds no end of a clause within, and a line that is
/// cut before the end of the segment could hold none of the further clauses.
pub proof fn law_packing(
    line: Seq<char>,
    start: usize,
    end: usize,
    clauses: Seq<usize>,
    wraplen: usize,
    m: int,
)
    requires
        start <= end <= line.len(),
        ascending(clauses),
        0 <= m <= packed(line, start, candidates(clauses, start, end), 0, wraplen).len(),
    ensures
        ({
            let inner = packed(line, start, candidates(clauses, start, end), 0, wraplen);
            let ps = seq![start] + inner + seq![end];
            &&& ascending(inner)
            &&& m < inner.len() ==> start < inner[m] < end && clauses.contains(inner[m])
            &&& !fits_in(line, ps[m], ps[m + 1], wraplen) ==> forall|q: int|
                0 <= q < clauses.len() ==> !(ps[m] < #[trigger] clauses[q] < ps[m + 1])
            &&& m < inner.len() ==> !fits_in(line, ps[m], end, wraplen) && forall|q: int|
                0 <= q < clauses.len() && ps[m + 1] < #[trigger] clauses[q] < end ==> !fits_in(
                    line,
                    ps[m],
                    clauses[q],
                    wraplen,
                )
        }),
{
    let cs = candidates(clauses, start, end);
    let inner = packed(line, start, cs, 0, wraplen);
    let ps = seq![start] + inner + seq![end];
    lemma_candidates(clauses, start, end);
    lemma_strict_candidates(clauses, clauses.len() as int, start, end);
    lemma_packed(line, start, cs, 0, wraplen);
    assert(start <= cs[0]);
    lemma_well_packed(line, start, cs, 0, wraplen);
    let l = m + 1;
    lemma_fits_in(line, ps[m], ps[l], wraplen);
    assert forall|q: int| 0 <= q < clauses.len() && start < #[trigger] clauses[q] < end
        implies cs.contains(clauses[q]) by {
        lemma_all_candidates(clauses, clauses.len() as int, start, end, q);
        let all = ends_between(clauses, clauses.len() as int, start, end);
        let i = choose|i: int| 0 <= i < all.len() && all[i] == clauses[q];
        assert(cs[i] == clauses[q]);
    }
    assert forall|a: int| 0 <= a < inner.len() implies start < #[trigger] inner[a] < end
        && clauses.contains(inner[a]) by {
        let b = choose|b: int| 0 <= b < cs.len() - 1 && inner[a] == cs[b];
        assert(clauses.contains(cs[b]));
    }
    assert(start <= ps[m] && ps[l] <= end);
    if !fits_in(line, ps[m], ps[l], wraplen) {
        assert forall|q: int| 0 <= q < clauses.len() implies !(ps[m] < #[trigger] clauses[q]
            < ps[l]) by {
            if ps[m] < clauses[q] < ps[l] {
                let a = choose|a: int| 0 <= a < cs.len() && cs[a] == clauses[q];
                assert(ps[m] < cs[a] < ps[l]);
            }
        }
    }
    if m < inner.len() {
        assert(ps[l] == inner[m]);
        assert(cs[cs.len() - 1] == end);
        lemma_fits_in(line, ps[m], end, wraplen);
        assert forall|q: int| 0 <= q < clauses.len() && ps[l] < #[trigger] clauses[q]
            < end implies !fits_in(line, ps[m], clauses[q], wraplen) by {
            let a = choose|a: int| 0 <= a < cs.len() && cs[a] == clauses[q];
            assert(ps[l] < cs[a]);
            lemma_fits_in(line, ps[m], clauses[q], wraplen);
        }
    }
}

proof fn lemma_strict_candidates(clauses: Seq<usize>, n: int, start: usize, end: usize)
    requires
        0 <= n <= clauses.len(),
    ensures
        forall|i: int|
            0 <= i < ends_between(clauses, n, start, end).len() ==> start
                < #[trigger] ends_between(clauses, n, start, end)[i] < end,
    decreases n,
{
    if n > 0 {
        lemma_strict_candidates(clauses, n - 1, start, end);
        let cs = ends_between(clauses, n, start, end);
        let before = ends_between(clauses, n - 1, start, end);
        assert forall|i: int| 0 <= i < cs.len() implies start < #[trigger] cs[i] < end by {
            if i < before.len() {
                assert(cs[i] == before[i]);
            }
        }
    }
}

// ---------------------------------------------------------------------------
// Lines

/// Whether `s..e` is a sentence of a line, or what is left of one.
pub open spec fn sentence_of(
    line: Seq<char>,
    comment: Option<usize>,
    in_math: bool,
    s: usize,
    e: usize,
) -> bool {
    &&& s <= e <= line.len()
    &&& s == 0 || sentence_stop(line, comment, in_math, s as int)
    &&& e == line.len() || sentence_stop(line, comment, in_math, e as int)
    &&& forall|p: int| s < p < e ==> !#[trigger] sentence_stop(line, comment, in_math, p)
}

/// Whether a line is rightly cut at `a` and next at `b`: both lie in a sentence. A
/// part that is longer than the limit holds no end of a clause. A part that ends
/// before its sentence does ends where a clause does; the sentence is longer than the
/// limit, and so is the part with any further clause.
pub open spec fn rightly_cut(
    line: Seq<char>,
    comment: Option<usize>,
    nest: Nesting,
    wraplen: usize,
    a: usize,
    b: usize,
) -> bool {
    &&& !fits_in(line, a, b, wraplen) ==> forall|p: int|
        a < p < b ==> !#[trigger] clause_stop(line, comment, nest, p)
    &&& exists|s: usize, e: usize| #[trigger]
        sentence_of(line, comment, nest.in_math, s, e) && s <= a && a <= b && b <= e && (b < e
            ==> clause_stop(line, comment, nest, b as int) && !fits_in(line, s, e, wraplen)
            && !fits_in(line, a, e, wraplen) && forall|p: usize|
            b < p < e && #[trigger] clause_stop(line, comment, nest, p as int) ==> !fits_in(
                line,
                a,
                p,
                wraplen,
            ))
}

proof fn lemma_segment(
    line: Seq<char>,
    comment: Option<usize>,
    nest: Nesting,
    k: int,
)
    requires
        line.len() <= usize::MAX,
        comment matches Some(c) ==> c <= line.len(),
        0 < k < segments(line, comment, nest).len(),
    ensures
        sentence_of(
            line,
            comment,
            nest.in_math,
            segments(line, comment, nest)[k - 1],
            segments(line, comment, nest)[k],
        ),
{
    let segs = segments(line, comment, nest);
    let ends = sentence_ends(line, comment, nest.in_math);
    let n = segs.len() as int;
    lemma_segments(line, comment, nest);
    law_sentence_ends(line, comment, nest.in_math, segs[k - 1]);
    law_sentence_ends(line, comment, nest.in_math, segs[k]);
    if k - 1 > 0 {
        assert(segs[k - 1] == ends[k - 2]);
        assert(ends.contains(ends[k - 2]));
    }
    if k < n - 1 {
        assert(segs[k] == ends[k - 1]);
        assert(ends.contains(ends[k - 1]));
    }
    assert(segs[k - 1] <= segs[k]);
    assert(segs[k] <= segs[n - 1]);
    assert forall|p: int| segs[k - 1] < p < segs[k] implies !#[trigger] sentence_stop(
        line,
        comment,
        nest.in_math,
        p,
    ) by {
        law_sentence_ends(line, comment, nest.in_math, p as usize);
        if ends.contains(p as usize) {
            let i = choose|i: int| 0 <= i < ends.len() && ends[i] == p as usize;
            assert(segs[i + 1] == ends[i]);
            if i + 1 < k {
                assert(segs[i + 1] <= segs[k - 1]);
            } else {
                assert(segs[k] <= segs[i + 1]);
            }
        }
    }
}

/// The parts of a segment are rightly cut.
proof fn lemma_segment_cuts(
    line: Seq<char>,
    comment: Option<usize>,
    nest: Nesting,
    wraplen: usize,
    k: int,
    m: int,
)
    requires
        line.len() <= usize::MAX,
        comment matches Some(c) ==> c <= line.len(),
        0 < k < segments(line, comment, nest).len(),
        !keeps_within(
            line,
            segments(line, comment, nest)[k - 1],
            segments(line, comment, nest)[k],
            wraplen,
        ),
        0 <= m <= packed(
            line,
            segments(line, comment, nest)[k - 1],
            candidates(
                clause_ends(line, comment, nest),
                segments(line, comment, nest)[k - 1],
                segments(line, comment, nest)[k],
            ),
            0,
            wraplen,
        ).len(),
    ensures
        ({
            let start = segments(line, comment, nest)[k - 1];
            let end = segments(line, comment, nest)[k];
            let clauses = clause_ends(line, comment, nest);
            let inner = packed(line, start, candidates(clauses, start, end), 0, wraplen);
            let ps = seq![start] + inner + seq![end];
            rightly_cut(line, comment, nest, wraplen, ps[m], ps[m + 1])
        }),
{
    let start = segments(line, comment, nest)[k - 1];
    let end = segments(line, comment, nest)[k];
    let clauses = clause_ends(line, comment, nest);
    let inner = packed(line, start, candidates(clauses, start, end), 0, wraplen);
    let ps = seq![start] + inner + seq![end];
    lemma_segment(line, comment, nest, k);
    law_clause_ends(line, comment, nest, start);
    law_packing(line, start, end, clauses, wraplen, m);
    lemma_fits_in(line, start, end, wraplen);
    if m > 0 {
        law_packing(line, start, end, clauses, wraplen, m - 1);
    }
    let (a, b) = (ps[m], ps[m + 1]);
    assert(start <= a && a <= b && b <= end) by {
        if 0 < m < inner.len() {
            assert(inner[m - 1] < inner[m]);
        }
    }
    assert forall|p: usize| #[trigger] clause_stop(line, comment, nest, p as int)
        implies clauses.contains(p) by {
        law_clause_ends(line, comment, nest, p);
    }
    if !fits_in(line, a, b, wraplen) {
        assert forall|p: int| a < p < b implies !#[trigger] clause_stop(line, comment, nest, p) by {
            if clause_stop(line, comment, nest, p) {
                let u = p as usize;
                assert(clause_stop(line, comment, nest, u as int));
                let q = choose|q: int| 0 <= q < clauses.len() && clauses[q] == u;
                assert(a < clauses[q] < b);
            }
        }
    }
    if b < end {
        assert(m < inner.len());
        law_clause_ends(line, comment, nest, b);
        assert forall|p: usize| b < p < end && #[trigger] clause_stop(line, comment, nest, p as int)
            implies !fits_in(line, a, p, wraplen) by {
            let q = choose|q: int| 0 <= q < clauses.len() && clauses[q] == p;
            assert(b < clauses[q] < end);
        }
    }
    assert(sentence_of(line, comment, nest.in_math, start, end));
}

proof fn lemma_cuts_are_right(
    line: Seq<char>,
    comment: Option<usize>,
    nest: Nesting,
    wraplen: usize,
    k: int,
    m: int,
)
    requires
        line.len() <= usize::MAX,
        comment matches Some(c) ==> c <= line.len(),
        0 < k < segments(line, comment, nest).len(),
        0 <= m < cuts_to(line, comment, nest, wraplen, k).len(),
    ensures
        ({
            let ps = cuts_to(line, comment, nest, wraplen, k) + seq![
                segments(line, comment, nest)[k],
            ];
            rightly_cut(line, comment, nest, wraplen, ps[m], ps[m + 1])
        }),
    decreases k,
{
    let segs = segments(line, comment, nest);
    let head = cuts_to(line, comment, nest, wraplen, k - 1);
    let cuts = cuts_to(line, comment, nest, wraplen, k);
    let start = segs[k - 1];
    let end = segs[k];
    let clauses = clause_ends(line, comment, nest);
    let h = head.len() as int;
    let ps = cuts + seq![end];
    if m < h {
        let qs = head + seq![start];
        if k > 1 {
            lemma_cuts_are_right(line, comment, nest, wraplen, k - 1, m);
        }
        assert(ps[m] == qs[m]);
        assert(ps[m + 1] == qs[m + 1]);
    } else if keeps_within(line, start, end, wraplen) {
        assert(cuts =~= head + seq![start]);
        lemma_segment(line, comment, nest, k);
        lemma_fits_in(line, start, end, wraplen);
        assert(ps[m] == start && ps[m + 1] == end);
        assert(sentence_of(line, comment, nest.in_math, start, end));
    } else {
        let inner = packed(line, start, candidates(clauses, start, end), 0, wraplen);
        let qs = seq![start] + inner + seq![end];
        assert(ps =~= head + qs);
        lemma_segment_cuts(line, comment, nest, wraplen, k, m - h);
        assert(ps[m] == qs[m - h]);
        assert(ps[m + 1] == qs[m + 1 - h]);
    }
}

proof fn lemma_sentence_cuts(
    line: Seq<char>,
    comment: Option<usize>,
    nest: Nesting,
    wraplen: usize,
    k: int,
    j: int,
)
    requires
        0 <= j < k,
    ensures
        cuts_to(line, comment, nest, wraplen, k).contains(segments(line, comment, nest)[j]),
    decreases k,
{
    let segs = segments(line, comment, nest);
    let head = cuts_to(line, comment, nest, wraplen, k - 1);
    let cuts = cuts_to(line, comment, nest, wraplen, k);
    if j < k - 1 {
        lemma_sentence_cuts(line, comment, nest, wraplen, k - 1, j);
        let i = choose|i: int| 0 <= i < head.len() && head[i] == segs[j];
        assert(cuts[i] == segs[j]);
    } else {
        assert(cuts[head.len() as int] == segs[j]);
    }
}

/// A line is cut behind every sentence.
pub proof fn law_sentences_are_cut(
    line: Seq<char>,
    comment: Option<usize>,
    nest: Nesting,
    wraplen: usize,
    p: usize,
)
    requires
        line.len() <= usize::MAX,
        comment matches Some(c) ==> c <= line.len(),
        sentence_stop(line, comment, nest.in_math, p as int),
    ensures
        line_cuts(line, comment, nest, wraplen).contains(p),
{
    let segs = segments(line, comment, nest);
    let ends = sentence_ends(line, comment, nest.in_math);
    let n = segs.len() - 1;
    law_sentence_ends(line, comment, nest.in_math, p);
    let i = choose|i: int| 0 <= i < ends.len() && ends[i] == p;
    assert(segs[i + 1] == p);
    lemma_sentence_cuts(line, comment, nest, wraplen, n, i + 1);
    let head = cuts_to(line, comment, nest, wraplen, n);
    let j = choose|j: int| 0 <= j < head.len() && head[j] == p;
    assert(line_cuts(line, comment, nest, wraplen)[j] == p);
}

/// A line is cut from its start to its end into its sentences, and a sentence that is
/// longer than the limit into as many clauses as fit. In particular a part that is
/// longer than the limit holds no end of a clause within.
pub proof fn law_line_cuts(
    line: Seq<char>,
    comment: Option<usize>,
    nest: Nesting,
    wraplen: usize,
    m: int,
)
    requires
        line.len() <= usize::MAX,
        comment matches Some(c) ==> c <= line.len(),
        0 <= m < line_cuts(line, comment, nest, wraplen).len() - 1,
    ensures
        ({
            let cuts = line_cuts(line, comment, nest, wraplen);
            &&& cuts[0] == 0
            &&& cuts[cuts.len() - 1] == line.len()
            &&& rightly_cut(line, comment, nest, wraplen, cuts[m], cuts[m + 1])
        }),
{
    let segs = segments(line, comment, nest);
    let n = segs.len() - 1;
    lemma_segments(line, comment, nest);
    lemma_cuts_are_right(line, comment, nest, wraplen, n, m);
    lemma_line_cuts(line, comment, nest, wraplen);
    assert(segs[n] == line.len() as usize);
}

/// A part of a line between two cuts that is longer than the limit holds no end of a
/// clause within.
pub proof fn law_long_parts_hold_one_clause(
    line: Seq<char>,
    comment: Option<usize>,
    nest: Nesting,
    wraplen: usize,
    m: int,
    p: int,
)
    requires
        line.len() <= usize::MAX,
        comment matches Some(c) ==> c <= line.len(),
        0 <= m < line_cuts(line, comment, nest, wraplen).len() - 1,
        line_cuts(line, comment, nest, wraplen)[m] < p < line_cuts(
            line,
            comment,
            nest,
            wraplen,
        )[m + 1],
        measure(
            line.subrange(
                line_cuts(line, comment, nest, wraplen)[m] as int,
                line_cuts(line, comment, nest, wraplen)[m + 1] as int,
            ),
        ) > wraplen,
    ensures
        !clause_stop(line, comment, nest, p),
{
    law_line_cuts(line, comment, nest, wraplen, m);
}

/// The parts of a line are written one by one, each trimmed and with a line end,
/// without those that are blank.
pub proof fn law_fragments(
    text: Seq<char>,
    cuts: Seq<usize>,
    p: usize,
    line_end: Seq<char>,
    w: Seq<char>,
    t: Seq<char>,
    z: Seq<char>,
)
    requires
        cuts.len() > 0,
        text.subrange(cuts.last() as int, p as int) == w + t + z,
        spaces(w),
        inked(t),
        spaces(z),
    ensures
        fragments(text, Seq::empty(), line_end) == Seq::<char>::empty(),
        fragments(text, seq![p], line_end) == Seq::<char>::empty(),
        fragments(text, cuts.push(p), line_end) == fragments(text, cuts, line_end) + t + line_end,
{
    law_trimming(w, t, z);
    assert(cuts.push(p).drop_last() =~= cuts);
}

/// A blank part of a line is not written.
pub proof fn law_blank_fragment(
    text: Seq<char>,
    cuts: Seq<usize>,
    p: usize,
    line_end: Seq<char>,
)
    requires
        cuts.len() > 0,
        spaces(text.subrange(cuts.last() as int, p as int)),
    ensures
        fragments(text, cuts.push(p), line_end) == fragments(text, cuts, line_end),
{
    law_trimming_nothing(text.subrange(cuts.last() as int, p as int));
    assert(cuts.push(p).drop_last() =~= cuts);
}

/// Semantic reflow writes the lines of a paragraph one by one, each in its parts.
pub proof fn law_semantic_lines(
    ls: Seq<Seq<char>>,
    scans: Seq<LineScan>,
    wraplen: usize,
    line_end: Seq<char>,
    k: int,
)
    requires
        0 <= k,
    ensures
        semantic(ls, scans, wraplen, line_end, 0) == Seq::<char>::empty(),
        semantic(ls, scans, wraplen, line_end, k + 1) == semantic(ls, scans, wraplen, line_end, k)
            + fragments(
            ls[k],
            line_cuts(ls[k], scans[k].comment, nesting_before(ls, scans, k), wraplen),
            line_end,
        ),
{
}

} // verus!
