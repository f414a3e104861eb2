//! Sequences of characters: trimming, searching and splitting into lines.
//!
//! Positions in a text count characters.

use vstd::prelude::*;
use vstd::slice::{slice_subrange, slice_to_vec};
use vstd::string::StringExecFns;

use crate::chars::{is_whitespace, white};

verus! {

// ---------------------------------------------------------------------------
// Trimming

/// The first position at or after `i` that does not hold whitespace.
pub open spec fn first_ink(s: Seq<char>, i: int) -> int
    decreases s.len() - i,
{
    if 0 <= i < s.len() && white(s[i]) {
        first_ink(s, i + 1)
    } else {
        i
    }
}

/// The end of the last stretch within `lo..hi` that does not end in
/// whitespace.
pub open spec fn ink_end(s: Seq<char>, lo: int, hi: int) -> int
    decreases hi - lo,
{
    if lo < hi && white(s[hi - 1]) {
        ink_end(s, lo, hi - 1)
    } else {
        hi
    }
}

/// A text without its leading whitespace.
pub open spec fn trimmed_start(s: Seq<char>) -> Seq<char> {
    s.subrange(first_ink(s, 0), s.len() as int)
}

/// A text without its trailing whitespace.
pub open spec fn trimmed_end(s: Seq<char>) -> Seq<char> {
    s.subrange(0, ink_end(s, 0, s.len() as int))
}

/// A text without the whitespace at both ends.
pub open spec fn trimmed(s: Seq<char>) -> Seq<char> {
    s.subrange(first_ink(s, 0), ink_end(s, first_ink(s, 0), s.len() as int))
}

/// Whether a text holds nothing but whitespace.
pub open spec fn blank(s: Seq<char>) -> bool {
    forall|i: int| 0 <= i < s.len() ==> white(#[trigger] s[i])
}

/// The number of characters that a text has once trimmed.
pub open spec fn width(s: Seq<char>) -> nat {
    trimmed(s).len()
}

/// The characters of a text that are not whitespace, in order.
pub open spec fn ink(s: Seq<char>) -> Seq<char> {
    s.filter(|c: char| !white(c))
}

pub proof fn lemma_first_ink(s: Seq<char>, i: int)
    requires
        0 <= i <= s.len(),
    ensures
        i <= first_ink(s, i) <= s.len(),
        forall|k: int| i <= k < first_ink(s, i) ==> white(#[trigger] s[k]),
        first_ink(s, i) < s.len() ==> !white(s[first_ink(s, i)]),
    decreases s.len() - i,
{
    if i < s.len() && white(s[i]) {
        lemma_first_ink(s, i + 1);
    }
}

pub proof fn lemma_ink_end(s: Seq<char>, lo: int, hi: int)
    requires
        0 <= lo <= hi <= s.len(),
    ensures
        lo <= ink_end(s, lo, hi) <= hi,
        forall|k: int| ink_end(s, lo, hi) <= k < hi ==> white(#[trigger] s[k]),
        lo < ink_end(s, lo, hi) ==> !white(s[ink_end(s, lo, hi) - 1]),
    decreases hi - lo,
{
    if lo < hi && white(s[hi - 1]) {
        lemma_ink_end(s, lo, hi - 1);
    }
}

/// The two ends of the trimmed text.
pub proof fn lemma_trimmed(s: Seq<char>)
    ensures
        ({
            let a = first_ink(s, 0);
            let b = ink_end(s, a, s.len() as int);
            &&& 0 <= a <= b <= s.len()
            &&& trimmed(s) == s.subrange(a, b)
            &&& forall|k: int| 0 <= k < a ==> white(#[trigger] s[k])
            &&& forall|k: int| b <= k < s.len() ==> white(#[trigger] s[k])
            &&& a < b ==> !white(s[a]) && !white(s[b - 1])
            &&& a == b ==> blank(s)
            &&& blank(s) ==> a == b
        }),
{
    let a = first_ink(s, 0);
    lemma_first_ink(s, 0);
    lemma_ink_end(s, a, s.len() as int);
}

/// A part of a text that neither starts nor ends in whitespace, with nothing
/// but whitespace around it, is the trimmed text.
pub proof fn lemma_trimmed_unique(s: Seq<char>, a: int, b: int)
    requires
        0 <= a < b <= s.len(),
        blank(s.subrange(0, a)),
        blank(s.subrange(b, s.len() as int)),
        !white(s[a]),
        !white(s[b - 1]),
    ensures
        trimmed(s) == s.subrange(a, b),
{
    lemma_trimmed(s);
    let c = first_ink(s, 0);
    let d = ink_end(s, c, s.len() as int);
    assert(c < d);
    if c < a {
        assert(s.subrange(0, a)[c] == s[c]);
    }
    if d > b {
        assert(s.subrange(b, s.len() as int)[d - 1 - b] == s[d - 1]);
    }
}

/// Cutting more text off the end of a line never makes it wider.
pub proof fn lemma_width_monotone(s: Seq<char>, i: int, j: int, k: int)
    requires
        0 <= i <= j <= k <= s.len(),
    ensures
        width(s.subrange(i, j)) <= width(s.subrange(i, k)),
{
    let x = s.subrange(i, j);
    let y = s.subrange(i, k);
    lemma_trimmed(x);
    lemma_trimmed(y);
    let a = first_ink(x, 0);
    let b = ink_end(x, a, x.len() as int);
    let c = first_ink(y, 0);
    let d = ink_end(y, c, y.len() as int);
    if a < b {
        assert(x[a] == y[a]);
        assert(x[b - 1] == y[b - 1]);
        if c < a {
            assert(y[c] == x[c]);
        }
        assert(d >= b);
        assert(c <= a);
    }
}

/// Cutting more text off the start of a line never makes it wider.
pub proof fn lemma_width_shrinks(s: Seq<char>, i: int, j: int, k: int)
    requires
        0 <= i <= j <= k <= s.len(),
    ensures
        width(s.subrange(j, k)) <= width(s.subrange(i, k)),
{
    let x = s.subrange(j, k);
    let y = s.subrange(i, k);
    lemma_trimmed(x);
    lemma_trimmed(y);
    let a = first_ink(x, 0);
    let b = ink_end(x, a, x.len() as int);
    let c = first_ink(y, 0);
    let d = ink_end(y, c, y.len() as int);
    if a < b {
        assert(x[a] == y[j - i + a]);
        assert(x[b - 1] == y[j - i + b - 1]);
        assert(c <= j - i + a);
        assert(d >= j - i + b);
        if d > j - i + b {
            assert(x[d - 1 - (j - i)] == y[d - 1]);
        }
    }
}

pub proof fn lemma_ink_add(a: Seq<char>, b: Seq<char>)
    ensures
        ink(a + b) == ink(a) + ink(b),
{
    Seq::filter_distributes_over_add(a, b, |c: char| !white(c));
}

pub proof fn lemma_ink_blank(s: Seq<char>)
    requires
        blank(s),
    ensures
        ink(s) == Seq::<char>::empty(),
    decreases s.len(),
{
    reveal(Seq::filter);
    if s.len() > 0 {
        assert forall|i: int| 0 <= i < s.drop_last().len() implies white(
            #[trigger] s.drop_last()[i],
        ) by {
            assert(s.drop_last()[i] == s[i]);
        }
        lemma_ink_blank(s.drop_last());
    }
}

/// Splitting a text at `i` splits its ink.
pub proof fn lemma_ink_split(s: Seq<char>, i: int)
    requires
        0 <= i <= s.len(),
    ensures
        ink(s) == ink(s.subrange(0, i)) + ink(s.subrange(i, s.len() as int)),
{
    assert(s == s.subrange(0, i) + s.subrange(i, s.len() as int));
    lemma_ink_add(s.subrange(0, i), s.subrange(i, s.len() as int));
}

/// Splitting the range `i..k` of a text at `j` splits its ink.
pub proof fn lemma_ink_range(s: Seq<char>, i: int, j: int, k: int)
    requires
        0 <= i <= j <= k <= s.len(),
    ensures
        ink(s.subrange(i, k)) == ink(s.subrange(i, j)) + ink(s.subrange(j, k)),
{
    let t = s.subrange(i, k);
    lemma_ink_split(t, j - i);
    assert(t.subrange(0, j - i) == s.subrange(i, j));
    assert(t.subrange(j - i, t.len() as int) == s.subrange(j, k));
}

/// Trimming removes no ink.
pub proof fn lemma_ink_trimmed(s: Seq<char>)
    ensures
        ink(trimmed(s)) == ink(s),
{
    lemma_trimmed(s);
    let a = first_ink(s, 0);
    let b = ink_end(s, a, s.len() as int);
    lemma_ink_range(s, 0, a, b);
    lemma_ink_range(s, 0, b, s.len() as int);
    lemma_ink_blank(s.subrange(0, a));
    lemma_ink_blank(s.subrange(b, s.len() as int));
    assert(s.subrange(0, s.len() as int) == s);
}

pub proof fn lemma_ink_trimmed_start(s: Seq<char>)
    ensures
        ink(trimmed_start(s)) == ink(s),
{
    lemma_first_ink(s, 0);
    let a = first_ink(s, 0);
    lemma_ink_split(s, a);
    lemma_ink_blank(s.subrange(0, a));
}

pub proof fn lemma_ink_trimmed_end(s: Seq<char>)
    ensures
        ink(trimmed_end(s)) == ink(s),
{
    lemma_ink_end(s, 0, s.len() as int);
    let b = ink_end(s, 0, s.len() as int);
    lemma_ink_split(s, b);
    lemma_ink_blank(s.subrange(b, s.len() as int));
}

/// Drops leading whitespace.
pub fn trim_start(s: &[char]) -> (res: &[char])
    ensures
        res@ == trimmed_start(s@),
{
    let mut i: usize = 0;
    while i < s.len() && is_whitespace(s[i])
        invariant
            i <= s@.len(),
            first_ink(s@, 0) == first_ink(s@, i as int),
        decreases s@.len() - i,
    {
        i += 1;
    }
    slice_subrange(s, i, s.len())
}

/// Drops trailing whitespace.
pub fn trim_end(s: &[char]) -> (res: &[char])
    ensures
        res@ == trimmed_end(s@),
{
    let mut j: usize = s.len();
    while j > 0 && is_whitespace(s[j - 1])
        invariant
            j <= s@.len(),
            ink_end(s@, 0, s@.len() as int) == ink_end(s@, 0, j as int),
        decreases j,
    {
        j -= 1;
    }
    slice_subrange(s, 0, j)
}

/// Drops the whitespace at both ends.
pub fn trim(s: &[char]) -> (res: &[char])
    ensures
        res@ == trimmed(s@),
{
    let mut i: usize = 0;
    while i < s.len() && is_whitespace(s[i])
        invariant
            i <= s@.len(),
            first_ink(s@, 0) == first_ink(s@, i as int),
        decreases s@.len() - i,
    {
        i += 1;
    }
    let mut j: usize = s.len();
    while j > i && is_whitespace(s[j - 1])
        invariant
            i <= j <= s@.len(),
            ink_end(s@, i as int, s@.len() as int) == ink_end(s@, i as int, j as int),
        decreases j,
    {
        j -= 1;
    }
    slice_subrange(s, i, j)
}

/// The number of characters of the range `start..end` once trimmed.
pub fn trimmed_width(s: &[char], start: usize, end: usize) -> (res: usize)
    requires
        start <= end <= s@.len(),
    ensures
        res == width(s@.subrange(start as int, end as int)),
{
    trim(slice_subrange(s, start, end)).len()
}

// ---------------------------------------------------------------------------
// Searching

/// Whether `s` begins with `p`.
pub open spec fn begins_with(s: Seq<char>, p: Seq<char>) -> bool {
    p.len() <= s.len() && s.subrange(0, p.len() as int) == p
}

/// Whether `p` occurs in `s` at position `i`.
pub open spec fn occurs_at(s: Seq<char>, p: Seq<char>, i: int) -> bool {
    0 <= i && i + p.len() <= s.len() && s.subrange(i, i + p.len()) == p
}

/// Whether `p` occurs in `s`.
pub open spec fn holds(s: Seq<char>, p: Seq<char>) -> bool {
    exists|i: int| occurs_at(s, p, i)
}

/// Whether the last character of `s` is `c`.
pub open spec fn ends_in(s: Seq<char>, c: char) -> bool {
    s.len() > 0 && s.last() == c
}

/// Whether `p` occurs in `s` at position `i`.
pub fn matches_at(s: &[char], p: &[char], i: usize) -> (res: bool)
    requires
        i <= s@.len(),
    ensures
        res == occurs_at(s@, p@, i as int),
{
    let n: usize = s.len();
    if p.len() > n - i {
        return false;
    }
    let mut k: usize = 0;
    while k < p.len()
        invariant
            k <= p@.len(),
            n == s@.len(),
            i + p@.len() <= s@.len(),
            forall|m: int| 0 <= m < k ==> s@[i + m] == p@[m],
        decreases p@.len() - k,
    {
        if s[i + k] != p[k] {
            assert(s@.subrange(i as int, i + p@.len())[k as int] == s@[i + k]);
            return false;
        }
        k += 1;
    }
    assert(s@.subrange(i as int, i + p@.len()) =~= p@);
    true
}

/// Whether `s` begins with `p`.
pub fn starts_with(s: &[char], p: &str) -> (res: bool)
    ensures
        res == begins_with(s@, p@),
{
    let pattern = to_chars(p);
    matches_at(s, pattern.as_slice(), 0)
}

/// Whether `p` occurs in `s`.
pub fn contains(s: &[char], p: &str) -> (res: bool)
    ensures
        res == holds(s@, p@),
{
    let pattern = to_chars(p);
    let mut i: usize = 0;
    while i < s.len()
        invariant
            i <= s@.len(),
            pattern@ == p@,
            forall|m: int| 0 <= m < i ==> !occurs_at(s@, p@, m),
        decreases s@.len() - i,
    {
        if matches_at(s, pattern.as_slice(), i) {
            return true;
        }
        i += 1;
    }
    matches_at(s, pattern.as_slice(), i)
}

/// Whether the last character of `s` is `c`.
pub fn ends_with(s: &[char], c: char) -> (res: bool)
    ensures
        res == ends_in(s@, c),
{
    s.len() > 0 && s[s.len() - 1] == c
}

/// Whether `c` occurs in `s`.
pub fn contains_char(s: &[char], c: char) -> (res: bool)
    ensures
        res == s@.contains(c),
{
    let mut i: usize = 0;
    while i < s.len()
        invariant
            i <= s@.len(),
            forall|m: int| 0 <= m < i ==> s@[m] != c,
        decreases s@.len() - i,
    {
        if s[i] == c {
            return true;
        }
        i += 1;
    }
    false
}

// ---------------------------------------------------------------------------
// Strings

/// `String::push` appends one character.
pub assume_specification[ String::push ](s: &mut String, c: char)
    ensures
        final(s)@ == old(s)@.push(c),
;

/// The characters of a string.
pub fn to_chars(s: &str) -> (res: Vec<char>)
    ensures
        res@ == s@,
{
    let mut res: Vec<char> = Vec::new();
    for c in iter: s.chars()
        invariant
            res@ == iter.seq().take(iter.index()),
            iter.seq() == s@,
    {
        res.push(c);
        assert(iter.seq().take(iter.index() + 1) == iter.seq().take(iter.index()).push(c));
    }
    assert(s@.take(s@.len() as int) == s@);
    res
}

/// Appends characters to a string.
pub fn push_chars(out: &mut String, s: &[char])
    ensures
        final(out)@ == old(out)@ + s@,
{
    let mut i: usize = 0;
    while i < s.len()
        invariant
            i <= s@.len(),
            out@ == old(out)@ + s@.take(i as int),
        decreases s@.len() - i,
    {
        out.push(s[i]);
        i += 1;
        assert(s@.take(i as int) == s@.take(i - 1).push(s@[i - 1]));
    }
    assert(s@.take(i as int) == s@);
}

/// Appends one line and the terminator to a string.
pub fn push_line(out: &mut String, line: &[char], line_end: &str)
    ensures
        final(out)@ == old(out)@ + line@ + line_end@,
{
    push_chars(out, line);
    out.append(line_end);
}

// ---------------------------------------------------------------------------
// Lines

/// Where the line that starts at `i` stops: behind its line feed, or at the
/// end of the text.
pub open spec fn line_stop(s: Seq<char>, i: int) -> int
    decreases s.len() - i,
{
    if 0 <= i < s.len() {
        if s[i] == '\n' {
            i + 1
        } else {
            line_stop(s, i + 1)
        }
    } else {
        s.len() as int
    }
}

/// The half-open ranges of the lines of a text from position `i` on, each with
/// its line feed.
pub open spec fn spans_from(s: Seq<char>, i: int) -> Seq<(int, int)>
    decreases s.len() - i,
{
    if 0 <= i < s.len() {
        proof {
            lemma_line_stop(s, i);
        }
        seq![(i, line_stop(s, i))] + spans_from(s, line_stop(s, i))
    } else {
        seq![]
    }
}

/// A line without its terminator, a line feed or a carriage return and a line
/// feed.
pub open spec fn line_body(raw: Seq<char>) -> Seq<char> {
    if ends_in(raw, '\n') {
        if ends_in(raw.drop_last(), '\r') {
            raw.drop_last().drop_last()
        } else {
            raw.drop_last()
        }
    } else {
        raw
    }
}

/// The ranges of the lines of a text, each with its terminator.
pub open spec fn line_spans(s: Seq<char>) -> Seq<(int, int)> {
    spans_from(s, 0)
}

/// The lines of a text without their terminators.
pub open spec fn lines(s: Seq<char>) -> Seq<Seq<char>> {
    Seq::new(
        line_spans(s).len(),
        |k: int| line_body(s.subrange(line_spans(s)[k].0, line_spans(s)[k].1)),
    )
}

/// The characters that a list of lines holds.
pub open spec fn texts(v: Seq<Vec<char>>) -> Seq<Seq<char>> {
    Seq::new(v.len(), |k: int| v[k]@)
}

pub proof fn lemma_line_stop(s: Seq<char>, i: int)
    requires
        0 <= i <= s.len(),
    ensures
        i <= line_stop(s, i) <= s.len(),
        i < s.len() ==> i < line_stop(s, i),
        line_stop(s, i) < s.len() ==> s[line_stop(s, i) - 1] == '\n',
        forall|m: int| i <= m < line_stop(s, i) - 1 ==> #[trigger] s[m] != '\n',
    decreases s.len() - i,
{
    if i < s.len() && s[i] != '\n' {
        lemma_line_stop(s, i + 1);
    }
}

/// The ranges of the lines follow one another and end with the text.
pub proof fn lemma_spans(s: Seq<char>, i: int)
    requires
        0 <= i <= s.len(),
    ensures
        forall|k: int|
            0 <= k < spans_from(s, i).len() ==> i <= (#[trigger] spans_from(s, i)[k]).0
                < spans_from(s, i)[k].1 <= s.len(),
        forall|j: int, k: int|
            0 <= j && k == j + 1 && k < spans_from(s, i).len() ==> (#[trigger] spans_from(
                s,
                i,
            )[k]).0 == (#[trigger] spans_from(s, i)[j]).1,
        forall|k: int|
            0 <= k < spans_from(s, i).len() - 1 ==> s[(#[trigger] spans_from(s, i)[k]).1 - 1]
                == '\n',
        spans_from(s, i).len() == 0 ==> i == s.len(),
        spans_from(s, i).len() > 0 ==> spans_from(s, i)[0].0 == i && spans_from(s, i).last().1
            == s.len(),
    decreases s.len() - i,
{
    lemma_line_stop(s, i);
    if i < s.len() {
        let e = line_stop(s, i);
        lemma_spans(s, e);
        assert forall|k: int| 0 <= k < spans_from(s, i).len() implies i <= (
        #[trigger] spans_from(s, i)[k]).0 < spans_from(s, i)[k].1 <= s.len() by {
            if k > 0 {
                assert(spans_from(s, i)[k] == spans_from(s, e)[k - 1]);
            }
        }
        assert forall|j: int, k: int|
            0 <= j && k == j + 1 && k < spans_from(s, i).len() implies (#[trigger] spans_from(
            s,
            i,
        )[k]).0 == (#[trigger] spans_from(s, i)[j]).1 by {
            assert(spans_from(s, i)[k] == spans_from(s, e)[j]);
            if j > 0 {
                assert(spans_from(s, i)[j] == spans_from(s, e)[j - 1]);
            }
        }
        assert forall|k: int| 0 <= k < spans_from(s, i).len() - 1 implies s[(
        #[trigger] spans_from(s, i)[k]).1 - 1] == '\n' by {
            if k > 0 {
                assert(spans_from(s, i)[k] == spans_from(s, e)[k - 1]);
            } else {
                assert(spans_from(s, e)[0].0 < s.len());
            }
        }
        assert(spans_from(s, e).len() > 0 ==> spans_from(s, i).last() == spans_from(s, e).last());
    }
}

/// The range of line `k`.
pub proof fn lemma_span(s: Seq<char>, k: int)
    requires
        0 <= k < line_spans(s).len(),
    ensures
        0 <= line_spans(s)[k].0 < line_spans(s)[k].1 <= s.len(),
        k == 0 ==> line_spans(s)[k].0 == 0,
        k == line_spans(s).len() - 1 ==> line_spans(s)[k].1 == s.len(),
        k > 0 ==> line_spans(s)[k].0 == line_spans(s)[k - 1].1,
        k < line_spans(s).len() - 1 ==> s[line_spans(s)[k].1 - 1] == '\n',
        lines(s)[k].len() <= line_spans(s)[k].1 - line_spans(s)[k].0,
        k < line_spans(s).len() - 1 ==> lines(s)[k].len() < line_spans(s)[k].1 - line_spans(
            s,
        )[k].0,
{
    lemma_spans(s, 0);
    let (x, y) = line_spans(s)[k];
    let raw = s.subrange(x, y);
    assert(raw.last() == s[y - 1]);
}

/// The range of a line stops where the line does.
proof fn lemma_span_stops(s: Seq<char>, i: int, k: int)
    requires
        0 <= i <= s.len(),
        0 <= k < spans_from(s, i).len(),
    ensures
        i <= spans_from(s, i)[k].0 < s.len(),
        spans_from(s, i)[k].1 == line_stop(s, spans_from(s, i)[k].0),
    decreases s.len() - i,
{
    lemma_line_stop(s, i);
    let e = line_stop(s, i);
    if k > 0 {
        lemma_span_stops(s, e, k - 1);
        assert(spans_from(s, i)[k] == spans_from(s, e)[k - 1]);
    }
}

/// A line holds no line feed.
pub proof fn lemma_line_is_one(s: Seq<char>, k: int)
    requires
        0 <= k < lines(s).len(),
    ensures
        !lines(s)[k].contains('\n'),
{
    lemma_span_stops(s, 0, k);
    let (x, y) = line_spans(s)[k];
    lemma_line_stop(s, x);
    let raw = s.subrange(x, y);
    let body = line_body(raw);
    assert forall|m: int| 0 <= m < body.len() implies #[trigger] body[m] != '\n' by {
        assert(body[m] == s[x + m]);
        if m == raw.len() - 1 {
            assert(raw.last() == s[x + m]);
        }
    }
}

/// A text has no more lines than characters.
pub proof fn lemma_line_count(s: Seq<char>, i: int)
    requires
        0 <= i <= s.len(),
    ensures
        spans_from(s, i).len() <= s.len() - i,
    decreases s.len() - i,
{
    lemma_line_stop(s, i);
    if i < s.len() {
        lemma_line_count(s, line_stop(s, i));
    }
}

/// The lines `i..j`, one directly behind the other.
pub open spec fn flat(ls: Seq<Seq<char>>, i: int, j: int) -> Seq<char>
    decreases j - i,
{
    if i < j {
        flat(ls, i, j - 1) + ls[j - 1]
    } else {
        seq![]
    }
}

pub proof fn lemma_ink_flat(ls: Seq<Seq<char>>, i: int, j: int, k: int)
    requires
        0 <= i <= j <= k <= ls.len(),
    ensures
        ink(flat(ls, i, k)) == ink(flat(ls, i, j)) + ink(flat(ls, j, k)),
    decreases k - j,
{
    if j < k {
        lemma_ink_flat(ls, i, j, k - 1);
        lemma_ink_add(flat(ls, i, k - 1), ls[k - 1]);
        lemma_ink_add(flat(ls, j, k - 1), ls[k - 1]);
        assert(ink(flat(ls, i, j)) + (ink(flat(ls, j, k - 1)) + ink(ls[k - 1])) =~= ink(
            flat(ls, i, j),
        ) + ink(flat(ls, j, k - 1)) + ink(ls[k - 1]));
    } else {
        lemma_ink_blank(flat(ls, j, k));
        assert(ink(flat(ls, i, j)) + seq![] =~= ink(flat(ls, i, j)));
    }
}

/// A line terminator holds no ink.
pub proof fn lemma_ink_line_body(raw: Seq<char>)
    ensures
        ink(line_body(raw)) == ink(raw),
{
    if ends_in(raw, '\n') {
        let n = raw.len() as int;
        lemma_ink_split(raw, n - 1);
        assert(raw.subrange(0, n - 1) == raw.drop_last());
        lemma_ink_blank(raw.subrange(n - 1, n));
        assert(ink(raw.drop_last()) + seq![] =~= ink(raw.drop_last()));
        let shorter = raw.drop_last();
        if ends_in(shorter, '\r') {
            lemma_ink_split(shorter, n - 2);
            assert(shorter.subrange(0, n - 2) == shorter.drop_last());
            lemma_ink_blank(shorter.subrange(n - 2, n - 1));
            assert(ink(shorter.drop_last()) + seq![] =~= ink(shorter.drop_last()));
        }
    }
}

/// The lines of a text hold its ink.
pub proof fn lemma_ink_lines(s: Seq<char>)
    ensures
        ink(flat(lines(s), 0, lines(s).len() as int)) == ink(s),
{
    lemma_spans(s, 0);
    let n = lines(s).len() as int;
    lemma_ink_lines_to(s, n);
    if n > 0 {
        assert(s.subrange(0, line_spans(s)[n - 1].1) == s);
    } else {
        assert(s =~= seq![]);
    }
}

proof fn lemma_ink_lines_to(s: Seq<char>, k: int)
    requires
        0 <= k <= lines(s).len(),
    ensures
        k > 0 ==> ink(flat(lines(s), 0, k)) == ink(s.subrange(0, line_spans(s)[k - 1].1)),
    decreases k,
{
    if k > 0 {
        lemma_spans(s, 0);
        lemma_ink_lines_to(s, k - 1);
        let (a, b) = line_spans(s)[k - 1];
        lemma_ink_add(flat(lines(s), 0, k - 1), lines(s)[k - 1]);
        lemma_ink_line_body(s.subrange(a, b));
        lemma_ink_range(s, 0, a, b);
        if k == 1 {
            assert(flat(lines(s), 0, 0) =~= seq![]);
            assert(s.subrange(0, 0) =~= seq![]);
        }
    }
}

/// The end of the line that starts at `start`, behind its line feed.
fn find_line_stop(s: &[char], start: usize) -> (res: usize)
    requires
        start < s@.len(),
    ensures
        res == line_stop(s@, start as int),
        start < res <= s@.len(),
{
    let mut i: usize = start;
    while i < s.len()
        invariant
            start <= i <= s@.len(),
            line_stop(s@, start as int) == line_stop(s@, i as int),
        decreases s@.len() - i,
    {
        if s[i] == '\n' {
            return i + 1;
        }
        i += 1;
    }
    i
}

/// Drops the terminator of a line.
fn strip_terminator(raw: &[char]) -> (res: &[char])
    ensures
        res@ == line_body(raw@),
{
    let n: usize = raw.len();
    if n > 0 && raw[n - 1] == '\n' {
        if n > 1 && raw[n - 2] == '\r' {
            assert(raw@.drop_last().drop_last() =~= raw@.subrange(0, n - 2));
            slice_subrange(raw, 0, n - 2)
        } else {
            assert(raw@.drop_last() =~= raw@.subrange(0, n - 1));
            slice_subrange(raw, 0, n - 1)
        }
    } else {
        raw
    }
}

/// The ranges of the lines of a text, each with its terminator.
pub fn split_inclusive(s: &[char]) -> (res: Vec<(usize, usize)>)
    ensures
        res@.len() == line_spans(s@).len(),
        forall|k: int|
            0 <= k < res@.len() ==> (#[trigger] res@[k]).0 == line_spans(s@)[k].0 && res@[k].1
                == line_spans(s@)[k].1,
{
    let mut res: Vec<(usize, usize)> = Vec::new();
    let mut i: usize = 0;
    let ghost done: Seq<(int, int)> = seq![];
    assert(done + spans_from(s@, 0) =~= line_spans(s@));
    while i < s.len()
        invariant
            i <= s@.len(),
            done.len() == res@.len(),
            forall|k: int|
                0 <= k < res@.len() ==> (#[trigger] res@[k]).0 == done[k].0 && res@[k].1
                    == done[k].1,
            done + spans_from(s@, i as int) == line_spans(s@),
        decreases s@.len() - i,
    {
        let e: usize = find_line_stop(s, i);
        proof {
            let span = (i as int, e as int);
            assert(spans_from(s@, i as int) == seq![span] + spans_from(s@, e as int));
            assert(done + (seq![span] + spans_from(s@, e as int)) =~= done.push(span) + spans_from(
                s@,
                e as int,
            ));
            done = done.push(span);
        }
        res.push((i, e));
        i = e;
    }
    assert(spans_from(s@, i as int) =~= seq![]);
    assert(done =~= line_spans(s@));
    res
}

/// The lines of a text without their terminators.
pub fn split_lines(s: &[char]) -> (res: Vec<Vec<char>>)
    ensures
        texts(res@) == lines(s@),
{
    let spans = split_inclusive(s);
    let mut res: Vec<Vec<char>> = Vec::new();
    let mut k: usize = 0;
    proof {
        lemma_spans(s@, 0);
    }
    while k < spans.len()
        invariant
            k <= spans@.len(),
            spans@.len() == line_spans(s@).len(),
            forall|m: int|
                0 <= m < spans@.len() ==> (#[trigger] spans@[m]).0 == line_spans(s@)[m].0
                    && spans@[m].1 == line_spans(s@)[m].1,
            forall|m: int|
                0 <= m < spans@.len() ==> 0 <= (#[trigger] line_spans(s@)[m]).0 < line_spans(
                    s@,
                )[m].1 <= s@.len(),
            res@.len() == k,
            forall|m: int| 0 <= m < k ==> (#[trigger] res@[m])@ == lines(s@)[m],
        decreases spans@.len() - k,
    {
        let (a, b) = spans[k];
        assert(0 <= line_spans(s@)[k as int].0);
        res.push(slice_to_vec(strip_terminator(slice_subrange(s, a, b))));
        k += 1;
    }
    assert(texts(res@) =~= lines(s@));
    res
}

// ---------------------------------------------------------------------------
// Selected positions

/// The positions below `n` that satisfy `f`, in ascending order.
pub open spec fn select(f: spec_fn(int) -> bool, n: int) -> Seq<usize>
    decreases n,
{
    if n <= 0 {
        seq![]
    } else if f(n - 1) {
        select(f, n - 1).push((n - 1) as usize)
    } else {
        select(f, n - 1)
    }
}

/// Whether a list of positions ascends strictly.
pub open spec fn ascending(s: Seq<usize>) -> bool {
    forall|i: int, j: int| 0 <= i < j < s.len() ==> s[i] < s[j]
}

/// The selected positions ascend, satisfy the condition and are all that do.
pub proof fn lemma_select(f: spec_fn(int) -> bool, n: int)
    requires
        n <= usize::MAX + 1,
    ensures
        ascending(select(f, n)),
        forall|i: int| 0 <= i < select(f, n).len() ==> (#[trigger] select(f, n)[i]) < n,
        forall|i: int| 0 <= i < select(f, n).len() ==> f((#[trigger] select(f, n)[i]) as int),
        forall|p: int|
            0 <= p < n && #[trigger] f(p) ==> select(f, n).contains(p as usize),
    decreases n,
{
    if n > 0 {
        lemma_select(f, n - 1);
        let s = select(f, n - 1);
        assert forall|p: int| 0 <= p < n && #[trigger] f(p) implies select(f, n).contains(
            p as usize,
        ) by {
            if p < n - 1 {
                let i = choose|i: int| 0 <= i < s.len() && s[i] == p as usize;
                assert(select(f, n)[i] == p as usize);
            } else {
                assert(select(f, n)[s.len() as int] == p as usize);
            }
        }
    }
}

} // verus!
