//! Puts each item of a multiline optional argument on a line of its own.

use vstd::prelude::*;
use vstd::slice::{slice_subrange, slice_to_vec};
use vstd::string::StringExecFns;

use crate::config::{Args, TabChar};
use crate::scan::{LineScan, Scan};
use crate::text::{
    begins_with, blank, contains_char, ends_in, ends_with, first_ink, ink, lemma_first_ink,
    lemma_ink_add, lemma_ink_blank, lemma_ink_range, lemma_ink_split, lemma_ink_trimmed,
    lemma_select, lemma_span, line_spans, push_chars, select, split_inclusive, starts_with, texts,
    to_chars, trim, trim_start, trimmed, trimmed_start,
};

verus! {

// ---------------------------------------------------------------------------
// Escapes and nesting

/// Whether position `k` is escaped: it follows a backslash that is not escaped
/// itself.
pub open spec fn escaped_at(s: Seq<char>, k: int) -> bool
    decreases k,
{
    0 < k && s[k - 1] == '\\' && !escaped_at(s, k - 1)
}

/// The number of unescaped `open` characters before position `k` that no
/// `close` character has matched. A `close` character with nothing to match
/// counts for nothing.
pub open spec fn depth_at(s: Seq<char>, k: int, open: char, close: char) -> nat
    decreases k,
{
    if k <= 0 {
        0
    } else {
        let d = depth_at(s, k - 1, open, close);
        if escaped_at(s, k - 1) {
            d
        } else if s[k - 1] == open {
            d + 1
        } else if s[k - 1] == close && d > 0 {
            (d - 1) as nat
        } else {
            d
        }
    }
}

/// Where the line that holds position `i` starts.
pub open spec fn line_start(s: Seq<char>, i: int) -> int
    decreases i,
{
    if 0 < i && s[i - 1] != '\n' {
        line_start(s, i - 1)
    } else {
        i
    }
}

/// The part of a line before position `i`.
pub open spec fn line_prefix(s: Seq<char>, i: int) -> Seq<char> {
    s.subrange(line_start(s, i), i)
}

/// Whether the bracket at `open` begins an optional argument: its line starts
/// with a command, and the bracket stands at the level of that command.
pub open spec fn opens_argument(s: Seq<char>, open: int) -> bool {
    let prefix = trimmed_start(line_prefix(s, open));
    &&& begins_with(prefix, "\\"@)
    &&& !ends_in(prefix, '\\')
    &&& depth_at(prefix, prefix.len() as int, '{', '}') == 0
    &&& depth_at(prefix, prefix.len() as int, '[', ']') == 0
}

pub proof fn lemma_line_start(s: Seq<char>, i: int)
    requires
        0 <= i <= s.len(),
    ensures
        0 <= line_start(s, i) <= i,
    decreases i,
{
    if 0 < i && s[i - 1] != '\n' {
        lemma_line_start(s, i - 1);
    }
}

/// Finds where the line that holds position `i` starts.
fn find_line_start(s: &[char], i: usize) -> (res: usize)
    requires
        i <= s@.len(),
    ensures
        res == line_start(s@, i as int),
        res <= i,
{
    let mut k: usize = i;
    while k > 0 && s[k - 1] != '\n'
        invariant
            k <= i <= s@.len(),
            line_start(s@, i as int) == line_start(s@, k as int),
        decreases k,
    {
        k -= 1;
    }
    k
}

/// Checks whether the bracket at `open` begins an optional argument.
pub fn is_optional_argument_open(text: &[char], open: usize) -> (res: bool)
    requires
        open < text@.len(),
    ensures
        res == opens_argument(text@, open as int),
{
    let start: usize = find_line_start(text, open);
    let prefix = trim_start(slice_subrange(text, start, open));
    if !starts_with(prefix, "\\") || ends_with(prefix, '\\') {
        return false;
    }
    let mut brace_depth: usize = 0;
    let mut square_depth: usize = 0;
    let mut escaped = false;
    let mut k: usize = 0;
    while k < prefix.len()
        invariant
            k <= prefix@.len(),
            escaped == escaped_at(prefix@, k as int),
            brace_depth == depth_at(prefix@, k as int, '{', '}'),
            square_depth == depth_at(prefix@, k as int, '[', ']'),
            brace_depth <= k,
            square_depth <= k,
        decreases prefix@.len() - k,
    {
        let c: char = prefix[k];
        if escaped {
            escaped = false;
        } else if c == '\\' {
            escaped = true;
        } else if c == '{' {
            brace_depth += 1;
        } else if c == '}' {
            brace_depth = brace_depth.saturating_sub(1);
        } else if c == '[' {
            square_depth += 1;
        } else if c == ']' {
            square_depth = square_depth.saturating_sub(1);
        }
        k += 1;
    }
    brace_depth == 0 && square_depth == 0
}

// ---------------------------------------------------------------------------
// The matching bracket

/// How a character is read.
pub enum Reading {
    Plain,
    Escaped,
    Comment,
}

/// How the character at `k` is read. A backslash escapes the character behind
/// it, and a percent sign opens a comment, which takes in its line feed.
pub open spec fn reading_at(s: Seq<char>, k: int) -> Reading
    decreases k,
{
    if k <= 0 {
        Reading::Plain
    } else {
        match reading_at(s, k - 1) {
            Reading::Comment => if s[k - 1] == '\n' {
                Reading::Plain
            } else {
                Reading::Comment
            },
            Reading::Escaped => Reading::Plain,
            Reading::Plain => if s[k - 1] == '\\' {
                Reading::Escaped
            } else if s[k - 1] == '%' {
                Reading::Comment
            } else {
                Reading::Plain
            },
        }
    }
}

/// The number of braces that are open at `k`.
pub open spec fn open_braces(s: Seq<char>, k: int) -> nat
    decreases k,
{
    if k <= 0 {
        0
    } else {
        let d = open_braces(s, k - 1);
        if reading_at(s, k - 1) is Plain && s[k - 1] == '{' {
            d + 1
        } else if reading_at(s, k - 1) is Plain && s[k - 1] == '}' && d > 0 {
            (d - 1) as nat
        } else {
            d
        }
    }
}

/// Whether the character at `k` is read as it is, outside braces.
pub open spec fn bare_at(s: Seq<char>, k: int) -> bool {
    reading_at(s, k) is Plain && open_braces(s, k) == 0
}

/// The number of brackets outside braces that are open at `k`, one of them
/// before the text.
pub open spec fn open_brackets(s: Seq<char>, k: int) -> int
    decreases k,
{
    if k <= 0 {
        1
    } else {
        let d = open_brackets(s, k - 1);
        if bare_at(s, k - 1) && s[k - 1] == '[' {
            d + 1
        } else if bare_at(s, k - 1) && s[k - 1] == ']' {
            d - 1
        } else {
            d
        }
    }
}

/// The first position from `k` on at which the bracket before the text is
/// closed.
pub open spec fn first_close(s: Seq<char>, k: int) -> Option<int>
    decreases s.len() - k,
{
    if 0 <= k < s.len() {
        if bare_at(s, k) && s[k] == ']' && open_brackets(s, k) == 1 {
            Some(k)
        } else {
            first_close(s, k + 1)
        }
    } else {
        None
    }
}

/// The position of the bracket that closes the one at `open`.
pub open spec fn close_of(s: Seq<char>, open: int) -> Option<int> {
    match first_close(s.subrange(open + 1, s.len() as int), 0) {
        Some(k) => Some(open + 1 + k),
        None => None,
    }
}

pub proof fn lemma_first_close(s: Seq<char>, k: int)
    requires
        0 <= k <= s.len(),
    ensures
        first_close(s, k) matches Some(c) ==> k <= c < s.len() && s[c] == ']',
    decreases s.len() - k,
{
    if k < s.len() {
        lemma_first_close(s, k + 1);
    }
}

pub proof fn lemma_close_of(s: Seq<char>, open: int)
    requires
        0 <= open < s.len(),
    ensures
        close_of(s, open) matches Some(c) ==> open < c < s.len() && s[c] == ']',
{
    lemma_first_close(s.subrange(open + 1, s.len() as int), 0);
}

/// Finds the bracket that closes the one at `open`, past nested braces and
/// brackets, escaped characters and comments.
pub fn find_close(text: &[char], open: usize) -> (res: Option<usize>)
    requires
        open < text@.len(),
    ensures
        (match res {
            Some(c) => close_of(text@, open as int) == Some(c as int),
            None => close_of(text@, open as int) is None,
        }),
{
    let n: usize = text.len();
    let rest = slice_subrange(text, open + 1, n);
    let mut brace_depth: usize = 0;
    let mut square_depth: usize = 1;
    let mut escaped = false;
    let mut comment = false;
    let mut k: usize = 0;
    while k < rest.len()
        invariant
            open < n == text@.len(),
            rest@ == text@.subrange(open + 1, n as int),
            k <= rest@.len(),
            comment == (reading_at(rest@, k as int) is Comment),
            escaped == (reading_at(rest@, k as int) is Escaped),
            brace_depth == open_braces(rest@, k as int),
            brace_depth <= k,
            square_depth == open_brackets(rest@, k as int),
            1 <= square_depth <= k + 1,
            first_close(rest@, 0) == first_close(rest@, k as int),
        decreases rest@.len() - k,
    {
        let c: char = rest[k];
        if comment {
            if c == '\n' {
                comment = false;
            }
        } else if escaped {
            escaped = false;
        } else if c == '\\' {
            escaped = true;
        } else if c == '%' {
            comment = true;
        } else if c == '{' {
            brace_depth += 1;
        } else if c == '}' {
            brace_depth = brace_depth.saturating_sub(1);
        } else if c == '[' && brace_depth == 0 {
            square_depth += 1;
        } else if c == ']' && brace_depth == 0 {
            if square_depth == 1 {
                return Some(open + 1 + k);
            }
            square_depth -= 1;
        }
        k += 1;
    }
    None
}

// ---------------------------------------------------------------------------
// Items

/// Whether position `k` holds a comma outside braces and brackets.
pub open spec fn comma_at(s: Seq<char>, k: int) -> bool {
    &&& s[k] == ','
    &&& !escaped_at(s, k)
    &&& depth_at(s, k, '{', '}') == 0
    &&& depth_at(s, k, '[', ']') == 0
}

/// The positions of the commas that separate items.
pub open spec fn commas(s: Seq<char>) -> Seq<usize> {
    select(|k: int| comma_at(s, k), s.len() as int)
}

/// Where the piece before comma `j` starts.
pub open spec fn piece_start(cs: Seq<usize>, j: int) -> int {
    if j <= 0 {
        0
    } else {
        cs[j - 1] + 1
    }
}

/// The piece before comma `j`, or behind the last comma, trimmed.
pub open spec fn piece(s: Seq<char>, cs: Seq<usize>, j: int) -> Seq<char> {
    let end = if j < cs.len() {
        cs[j] as int
    } else {
        s.len() as int
    };
    trimmed(s.subrange(piece_start(cs, j), end))
}

/// Whether a text holds an unescaped percent sign.
pub open spec fn has_comment(s: Seq<char>) -> bool {
    exists|k: int| 0 <= k < s.len() && s[k] == '%' && !#[trigger] escaped_at(s, k)
}

/// Whether an item is empty or spans lines.
pub open spec fn bad_item(item: Seq<char>) -> bool {
    item.len() == 0 || item.contains('\n') || item.contains('\r')
}

/// Whether an argument ends in a comma.
pub open spec fn trailing_comma(s: Seq<char>) -> bool {
    piece(s, commas(s), commas(s).len() as int).len() == 0
}

/// The items of an argument. What follows a trailing comma is no item.
pub open spec fn items(s: Seq<char>) -> Seq<Seq<char>> {
    Seq::new(
        if trailing_comma(s) {
            commas(s).len()
        } else {
            commas(s).len() + 1
        },
        |j: int| piece(s, commas(s), j),
    )
}

/// Whether an argument may be split into its items. One without a comma stays
/// compact; one with a comment, an empty item or an item that spans lines is
/// left alone, since there whitespace may carry meaning.
pub open spec fn splits(s: Seq<char>) -> bool {
    &&& !has_comment(s)
    &&& commas(s).len() > 0
    &&& forall|j: int| 0 <= j < items(s).len() ==> !bad_item(#[trigger] items(s)[j])
}

/// Splits an argument into its items, and tells whether it ends in a comma.
pub fn split_items(inner: &[char]) -> (res: Option<(Vec<Vec<char>>, bool)>)
    ensures
        (match res {
            Some((list, trailing)) => splits(inner@) && texts(list@) == items(inner@) && trailing
                == trailing_comma(inner@),
            None => !splits(inner@),
        }),
{
    let mut list: Vec<Vec<char>> = Vec::new();
    let mut start: usize = 0;
    let mut brace_depth: usize = 0;
    let mut square_depth: usize = 0;
    let mut escaped = false;
    let mut k: usize = 0;
    let ghost f = |k: int| comma_at(inner@, k);
    while k < inner.len()
        invariant
            k <= inner@.len(),
            f == (|k: int| comma_at(inner@, k)),
            escaped == escaped_at(inner@, k as int),
            brace_depth == depth_at(inner@, k as int, '{', '}'),
            square_depth == depth_at(inner@, k as int, '[', ']'),
            brace_depth <= k,
            square_depth <= k,
            forall|m: int|
                0 <= m < k && inner@[m] == '%' ==> #[trigger] escaped_at(inner@, m),
            list@.len() == select(f, k as int).len(),
            start <= k,
            start == piece_start(select(f, k as int), list@.len() as int),
            forall|j: int|
                0 <= j < list@.len() ==> (#[trigger] list@[j])@ == piece(
                    inner@,
                    select(f, k as int),
                    j,
                ),
        decreases inner@.len() - k,
    {
        let c: char = inner[k];
        let ghost cs = select(f, k as int);
        let ghost m = list@.len() as int;
        assert(f(k as int) == comma_at(inner@, k as int));
        if escaped {
            escaped = false;
        } else if c == '\\' {
            escaped = true;
        } else if c == '%' {
            assert(!escaped_at(inner@, k as int));
            return None;
        } else if c == '{' {
            brace_depth += 1;
        } else if c == '}' {
            brace_depth = brace_depth.saturating_sub(1);
        } else if c == '[' {
            square_depth += 1;
        } else if c == ']' {
            square_depth = square_depth.saturating_sub(1);
        } else if c == ',' && brace_depth == 0 && square_depth == 0 {
            list.push(slice_to_vec(trim(slice_subrange(inner, start, k))));
            start = k + 1;
        }
        k += 1;
        proof {
            let cs2 = select(f, k as int);
            assert forall|j: int| 0 <= j < list@.len() implies (#[trigger] list@[j])@ == piece(
                inner@,
                cs2,
                j,
            ) by {
                if j < m {
                    assert(cs2[j] == cs[j]);
                    assert(j > 0 ==> cs2[j - 1] == cs[j - 1]);
                } else {
                    assert(m > 0 ==> cs2[m - 1] == cs[m - 1]);
                }
            }
        }
    }
    let ghost cs = commas(inner@);
    assert(cs == select(f, k as int));
    if list.len() == 0 {
        return None;
    }
    let last = trim(slice_subrange(inner, start, inner.len()));
    let trailing = last.len() == 0;
    if !trailing {
        list.push(slice_to_vec(last));
    }
    assert(texts(list@) =~= items(inner@));
    let mut i: usize = 0;
    while i < list.len()
        invariant
            i <= list@.len(),
            texts(list@) == items(inner@),
            forall|j: int| 0 <= j < i ==> !bad_item(#[trigger] items(inner@)[j]),
        decreases list@.len() - i,
    {
        let item = list[i].as_slice();
        assert(item@ == items(inner@)[i as int]);
        if item.len() == 0 || contains_char(item, '\n') || contains_char(item, '\r') {
            assert(bad_item(items(inner@)[i as int]));
            return None;
        }
        i += 1;
    }
    Some((list, trailing))
}

// ---------------------------------------------------------------------------
// Documents

/// The ranges of those of the first `k` lines whose layout is fixed.
pub open spec fn fixed_spans(
    spans: Seq<(int, int)>,
    scans: Seq<LineScan>,
    k: int,
) -> Seq<(int, int)>
    decreases k,
{
    if k <= 0 {
        seq![]
    } else if scans[k - 1].fixed() {
        fixed_spans(spans, scans, k - 1).push(spans[k - 1])
    } else {
        fixed_spans(spans, scans, k - 1)
    }
}

/// The ranges of a document, line terminators included, whose layout is fixed.
pub open spec fn fixed_ranges(text: Seq<char>, scans: Seq<LineScan>) -> Seq<(int, int)> {
    fixed_spans(line_spans(text), scans, line_spans(text).len() as int)
}

/// Whether one of some ranges reaches into `open..=close`.
pub open spec fn overlaps(ranges: Seq<(int, int)>, open: int, close: int) -> bool {
    exists|i: int|
        0 <= i < ranges.len() && (#[trigger] ranges[i]).0 <= close && ranges[i].1 > open
}

/// Whether the items of the argument between `open` and `close` are put on
/// lines of their own.
pub open spec fn rewrites(text: Seq<char>, ranges: Seq<(int, int)>, open: int, close: int) -> bool {
    let inner = text.subrange(open + 1, close);
    &&& opens_argument(text, open)
    &&& inner.contains('\n')
    &&& !overlaps(ranges, open, close)
    &&& splits(inner)
}

/// The whitespace at the start of the line that holds position `i`, up to
/// there.
pub open spec fn base_indent(text: Seq<char>, i: int) -> Seq<char> {
    let prefix = line_prefix(text, i);
    prefix.subrange(0, first_ink(prefix, 0))
}

/// One step of indentation.
pub open spec fn indent_unit(args: Args) -> Seq<char> {
    match args.tabchar {
        TabChar::Tab => seq!['\t'],
        TabChar::Space => Seq::new(args.tabsize as nat, |i: int| ' '),
    }
}

/// The comma behind item `j`.
pub open spec fn separator(list: Seq<Seq<char>>, trailing: bool, j: int) -> Seq<char> {
    if j + 1 < list.len() || trailing {
        seq![',']
    } else {
        seq![]
    }
}

/// The first `k` items, each on a line of its own.
pub open spec fn item_lines(
    list: Seq<Seq<char>>,
    trailing: bool,
    indent: Seq<char>,
    line_end: Seq<char>,
    k: int,
) -> Seq<char>
    decreases k,
{
    if k <= 0 {
        seq![]
    } else {
        item_lines(list, trailing, indent, line_end, k - 1) + indent + list[k - 1] + separator(
            list,
            trailing,
            k - 1,
        ) + line_end
    }
}

/// An argument with each item on a line of its own, one step further indented
/// than the line on which the argument opens.
pub open spec fn spread(
    inner: Seq<char>,
    base: Seq<char>,
    unit: Seq<char>,
    line_end: Seq<char>,
) -> Seq<char> {
    let list = items(inner);
    seq!['['] + line_end + item_lines(
        list,
        trailing_comma(inner),
        base + unit,
        line_end,
        list.len() as int,
    ) + base + seq![']']
}

/// The position of the first opening bracket from `i` on, or the end of the
/// text.
pub open spec fn next_open(s: Seq<char>, i: int) -> int
    decreases s.len() - i,
{
    if 0 <= i < s.len() && s[i] != '[' {
        next_open(s, i + 1)
    } else {
        i
    }
}

pub proof fn lemma_next_open(s: Seq<char>, i: int)
    requires
        0 <= i <= s.len(),
    ensures
        i <= next_open(s, i) <= s.len(),
        next_open(s, i) < s.len() ==> s[next_open(s, i)] == '[',
    decreases s.len() - i,
{
    if i < s.len() && s[i] != '[' {
        lemma_next_open(s, i + 1);
    }
}

/// The end of the argument at `open`, if its items are put on lines of their
/// own.
pub open spec fn argument_end(text: Seq<char>, ranges: Seq<(int, int)>, open: int) -> Option<int> {
    match close_of(text, open) {
        Some(close) => if rewrites(text, ranges, open, close) {
            Some(close)
        } else {
            None
        },
        None => None,
    }
}

/// The document from `cursor` on, with the items of multiline optional
/// arguments on lines of their own.
pub open spec fn formatted_from(
    text: Seq<char>,
    ranges: Seq<(int, int)>,
    unit: Seq<char>,
    line_end: Seq<char>,
    cursor: int,
) -> Seq<char>
    decreases text.len() - cursor,
{
    if 0 <= cursor < text.len() {
        proof {
            lemma_next_open(text, cursor);
        }
        let open = next_open(text, cursor);
        if open < text.len() {
            proof {
                lemma_close_of(text, open);
            }
            match argument_end(text, ranges, open) {
                Some(close) => text.subrange(cursor, open) + spread(
                    text.subrange(open + 1, close),
                    base_indent(text, open),
                    unit,
                    line_end,
                ) + formatted_from(text, ranges, unit, line_end, close + 1),
                None => text.subrange(cursor, open + 1) + formatted_from(
                    text,
                    ranges,
                    unit,
                    line_end,
                    open + 1,
                ),
            }
        } else {
            text.subrange(cursor, text.len() as int)
        }
    } else {
        seq![]
    }
}

/// A document with the items of multiline optional arguments on lines of their
/// own.
pub open spec fn formatted(
    text: Seq<char>,
    args: Args,
    scans: Seq<LineScan>,
    line_end: Seq<char>,
) -> Seq<char> {
    formatted_from(text, fixed_ranges(text, scans), indent_unit(args), line_end, 0)
}

/// Whether ranges of machine integers stand for these ranges.
pub open spec fn same_ranges(v: Seq<(usize, usize)>, r: Seq<(int, int)>) -> bool {
    &&& v.len() == r.len()
    &&& forall|i: int| 0 <= i < v.len() ==> (#[trigger] v[i]).0 == r[i].0 && v[i].1 == r[i].1
}

/// Determines the ranges of a document whose layout is fixed.
pub fn protected_ranges(text: &[char], scans: &[LineScan]) -> (res: Vec<(usize, usize)>)
    requires
        scans@.len() == line_spans(text@).len(),
    ensures
        same_ranges(res@, fixed_ranges(text@, scans@)),
{
    let spans = split_inclusive(text);
    let mut res: Vec<(usize, usize)> = Vec::new();
    let mut k: usize = 0;
    while k < spans.len()
        invariant
            k <= spans@.len(),
            scans@.len() == spans@.len(),
            same_ranges(spans@, line_spans(text@)),
            same_ranges(res@, fixed_spans(line_spans(text@), scans@, k as int)),
        decreases spans@.len() - k,
    {
        if scans[k].is_fixed() {
            res.push(spans[k]);
        }
        k += 1;
    }
    res
}

/// Checks whether one of some ranges reaches into `open..=close`.
fn any_overlap(ranges: &[(usize, usize)], open: usize, close: usize) -> (res: bool)
    ensures
        res == exists|i: int|
            0 <= i < ranges@.len() && (#[trigger] ranges@[i]).0 <= close && ranges@[i].1 > open,
{
    let mut i: usize = 0;
    while i < ranges.len()
        invariant
            i <= ranges@.len(),
            forall|m: int|
                0 <= m < i ==> !((#[trigger] ranges@[m]).0 <= close && ranges@[m].1 > open),
        decreases ranges@.len() - i,
    {
        if ranges[i].0 <= close && ranges[i].1 > open {
            return true;
        }
        i += 1;
    }
    false
}

/// Finds the first opening bracket from `i` on, or the end of the text.
fn find_open(s: &[char], i: usize) -> (res: usize)
    requires
        i <= s@.len(),
    ensures
        res == next_open(s@, i as int),
        i <= res <= s@.len(),
{
    let mut k: usize = i;
    while k < s.len() && s[k] != '['
        invariant
            i <= k <= s@.len(),
            next_open(s@, i as int) == next_open(s@, k as int),
        decreases s@.len() - k,
    {
        k += 1;
    }
    k
}

/// Builds one step of indentation.
fn make_indent_unit(args: &Args) -> (res: Vec<char>)
    ensures
        res@ == indent_unit(*args),
{
    let mut res: Vec<char> = Vec::new();
    match args.tabchar {
        TabChar::Tab => {
            res.push('\t');
            assert(res@ =~= seq!['\t']);
        },
        TabChar::Space => {
            let mut i: u8 = 0;
            while i < args.tabsize
                invariant
                    i <= args.tabsize,
                    res@ == Seq::new(i as nat, |k: int| ' '),
                decreases args.tabsize - i,
            {
                res.push(' ');
                i += 1;
                assert(res@ =~= Seq::new(i as nat, |k: int| ' '));
            }
        },
    }
    res
}

/// Appends an argument with each item on a line of its own.
fn push_spread(
    out: &mut String,
    list: &Vec<Vec<char>>,
    trailing: bool,
    base: &[char],
    unit: &[char],
    line_end: &str,
)
    ensures
        final(out)@ == old(out)@ + (seq!['['] + line_end@ + item_lines(
            texts(list@),
            trailing,
            base@ + unit@,
            line_end@,
            list@.len() as int,
        ) + base@ + seq![']']),
{
    let ghost start = out@;
    let ghost t = texts(list@);
    let ghost indent = base@ + unit@;
    out.push('[');
    out.append(line_end);
    let ghost head = out@;
    let mut k: usize = 0;
    assert(head =~= start + seq!['['] + line_end@);
    assert(out@ =~= head + item_lines(t, trailing, indent, line_end@, 0));
    while k < list.len()
        invariant
            k <= list@.len(),
            t == texts(list@),
            indent == base@ + unit@,
            out@ == head + item_lines(t, trailing, indent, line_end@, k as int),
        decreases list@.len() - k,
    {
        let ghost before = out@;
        push_chars(out, base);
        push_chars(out, unit);
        push_chars(out, list[k].as_slice());
        if k < list.len() - 1 || trailing {
            out.push(',');
        }
        out.append(line_end);
        proof {
            assert(t[k as int] == list@[k as int]@);
            assert(out@ =~= before + indent + t[k as int] + separator(t, trailing, k as int)
                + line_end@);
            assert(out@ =~= head + (item_lines(t, trailing, indent, line_end@, k as int) + indent
                + t[k as int] + separator(t, trailing, k as int) + line_end@));
        }
        k += 1;
    }
    push_chars(out, base);
    out.push(']');
    assert(out@ =~= start + (seq!['['] + line_end@ + item_lines(
        t,
        trailing,
        indent,
        line_end@,
        list@.len() as int,
    ) + base@ + seq![']']));
}

/// Copying a bracket that opens no such argument keeps what is still to come.
proof fn lemma_copied(
    before: Seq<char>,
    text: Seq<char>,
    ranges: Seq<(int, int)>,
    unit: Seq<char>,
    line_end: Seq<char>,
    cursor: int,
    after: Seq<char>,
)
    requires
        0 <= cursor < text.len(),
        next_open(text, cursor) < text.len(),
        argument_end(text, ranges, next_open(text, cursor)) is None,
        after == before + text.subrange(cursor, next_open(text, cursor) + 1),
    ensures
        before + formatted_from(text, ranges, unit, line_end, cursor) == after + formatted_from(
            text,
            ranges,
            unit,
            line_end,
            next_open(text, cursor) + 1,
        ),
{
    let open = next_open(text, cursor);
    let rest = formatted_from(text, ranges, unit, line_end, open + 1);
    assert(before + (text.subrange(cursor, open + 1) + rest) =~= before + text.subrange(
        cursor,
        open + 1,
    ) + rest);
}

/// Puts each item of a multiline optional argument on a line of its own.
#[must_use]
pub fn format_options(text: &str, args: &Args, scan: &Scan, line_end: &str) -> (res: String)
    requires
        scan.lines@.len() == line_spans(text@).len(),
    ensures
        res@ == formatted(text@, *args, scan.lines@, line_end@),
{
    let body = to_chars(text);
    let s = body.as_slice();
    let ghost ranges = fixed_ranges(text@, scan.lines@);
    let protected = protected_ranges(s, scan.lines.as_slice());
    let unit = make_indent_unit(args);
    let mut out = String::new();
    let mut cursor: usize = 0;
    assert(out@ + formatted_from(text@, ranges, unit@, line_end@, 0) =~= formatted(
        text@,
        *args,
        scan.lines@,
        line_end@,
    ));
    while cursor < s.len()
        invariant
            s@ == text@,
            cursor <= s@.len(),
            unit@ == indent_unit(*args),
            ranges == fixed_ranges(text@, scan.lines@),
            same_ranges(protected@, ranges),
            out@ + formatted_from(text@, ranges, unit@, line_end@, cursor as int) == formatted(
                text@,
                *args,
                scan.lines@,
                line_end@,
            ),
        decreases s@.len() - cursor,
    {
        let ghost before = out@;
        let n: usize = s.len();
        let open: usize = find_open(s, cursor);
        if open == n {
            push_chars(&mut out, slice_subrange(s, cursor, n));
            return out;
        }
        match find_close(s, open) {
            None => {
                push_chars(&mut out, slice_subrange(s, cursor, open + 1));
                proof {
                    lemma_copied(before, text@, ranges, unit@, line_end@, cursor as int, out@);
                }
                cursor = open + 1;
            },
            Some(close) => {
                proof {
                    lemma_close_of(s@, open as int);
                }
                let inner = slice_subrange(s, open + 1, close);
                let overlap = any_overlap(protected.as_slice(), open, close);
                assert(overlap == overlaps(ranges, open as int, close as int)) by {
                    if overlap {
                        let i = choose|i: int|
                            0 <= i < protected@.len() && (#[trigger] protected@[i]).0 <= close
                                && protected@[i].1 > open;
                        assert(ranges[i].0 <= close && ranges[i].1 > open);
                    }
                    if overlaps(ranges, open as int, close as int) {
                        let i = choose|i: int|
                            0 <= i < ranges.len() && (#[trigger] ranges[i]).0 <= close
                                && ranges[i].1 > open;
                        assert(protected@[i].0 <= close && protected@[i].1 > open);
                    }
                }
                let eligible = is_optional_argument_open(s, open) && contains_char(inner, '\n')
                    && !overlap;
                let split = if eligible {
                    split_items(inner)
                } else {
                    None
                };
                match split {
                    None => {
                        push_chars(&mut out, slice_subrange(s, cursor, open + 1));
                        proof {
                            lemma_copied(
                                before,
                                text@,
                                ranges,
                                unit@,
                                line_end@,
                                cursor as int,
                                out@,
                            );
                        }
                        cursor = open + 1;
                    },
                    Some((list, trailing)) => {
                        push_chars(&mut out, slice_subrange(s, cursor, open));
                        let start: usize = find_line_start(s, open);
                        let prefix = slice_subrange(s, start, open);
                        proof {
                            lemma_first_ink(prefix@, 0);
                        }
                        let w: usize = prefix.len() - trim_start(prefix).len();
                        let base = slice_subrange(prefix, 0, w);
                        push_spread(&mut out, &list, trailing, base, unit.as_slice(), line_end);
                        proof {
                            assert(rewrites(text@, ranges, open as int, close as int));
                            assert(base@ == base_indent(text@, open as int));
                            let sp = spread(inner@, base@, unit@, line_end@);
                            let rest = formatted_from(text@, ranges, unit@, line_end@, close + 1);
                            assert(out@ =~= before + text@.subrange(cursor as int, open as int)
                                + sp);
                            assert(before + (text@.subrange(cursor as int, open as int) + sp
                                + rest) =~= out@ + rest);
                        }
                        cursor = close + 1;
                    },
                }
            },
        }
    }
    assert(out@ + Seq::<char>::empty() =~= out@);
    out
}

// ---------------------------------------------------------------------------
// Laws

proof fn lemma_ink_items(
    s: Seq<char>,
    indent: Seq<char>,
    line_end: Seq<char>,
    k: int,
)
    requires
        s.len() <= usize::MAX,
        blank(indent),
        blank(line_end),
        0 <= k <= commas(s).len(),
    ensures
        ink(item_lines(items(s), trailing_comma(s), indent, line_end, k)) == ink(
            s.subrange(0, piece_start(commas(s), k)),
        ),
        0 <= piece_start(commas(s), k) <= s.len(),
    decreases k,
{
    let cs = commas(s);
    let list = items(s);
    let tr = trailing_comma(s);
    lemma_select(|k: int| comma_at(s, k), s.len() as int);
    if k == 0 {
        assert(s.subrange(0, 0) =~= seq![]);
    } else {
        lemma_ink_items(s, indent, line_end, k - 1);
        let head = item_lines(list, tr, indent, line_end, k - 1);
        let a = piece_start(cs, k - 1);
        let c = cs[k - 1] as int;
        assert(c < s.len());
        let p: spec_fn(int) -> bool = |k: int| comma_at(s, k);
        assert(p(cs[k - 1] as int));
        if k > 1 {
            assert(cs[k - 2] < cs[k - 1]);
        }
        assert(list[k - 1] == trimmed(s.subrange(a, c)));
        assert(separator(list, tr, k - 1) == seq![',']);
        assert(s.subrange(c, c + 1) =~= seq![',']);
        lemma_ink_trimmed(s.subrange(a, c));
        lemma_ink_range(s, 0, a, c);
        lemma_ink_range(s, 0, c, c + 1);
        lemma_ink_blank(indent);
        lemma_ink_blank(line_end);
        lemma_ink_add(head, indent);
        lemma_ink_add(head + indent, list[k - 1]);
        lemma_ink_add(head + indent + list[k - 1], seq![',']);
        lemma_ink_add(head + indent + list[k - 1] + seq![','], line_end);
        let e = Seq::<char>::empty();
        assert(ink(head) + e =~= ink(head));
        assert(ink(head + indent + list[k - 1] + seq![',']) + e =~= ink(
            head + indent + list[k - 1] + seq![','],
        ));
    }
}

/// Spreading an argument changes nothing but whitespace.
proof fn lemma_ink_spread(
    s: Seq<char>,
    base: Seq<char>,
    unit: Seq<char>,
    line_end: Seq<char>,
)
    requires
        s.len() <= usize::MAX,
        blank(base),
        blank(unit),
        blank(line_end),
    ensures
        ink(spread(s, base, unit, line_end)) == ink(seq!['[']) + ink(s) + ink(seq![']']),
{
    let cs = commas(s);
    let m = cs.len() as int;
    let list = items(s);
    let tr = trailing_comma(s);
    let indent = base + unit;
    assert(blank(indent));
    lemma_ink_items(s, indent, line_end, m);
    let a = piece_start(cs, m);
    let n = s.len() as int;
    let all = item_lines(list, tr, indent, line_end, list.len() as int);
    let head = item_lines(list, tr, indent, line_end, m);
    let e = Seq::<char>::empty();
    lemma_ink_split(s, a);
    lemma_ink_trimmed(s.subrange(a, n));
    lemma_ink_blank(line_end);
    lemma_ink_blank(indent);
    lemma_ink_blank(base);
    assert(ink(all) == ink(s)) by {
        if tr {
            assert(piece(s, cs, m) =~= e);
            lemma_ink_blank(piece(s, cs, m));
            assert(ink(head) + e =~= ink(head));
        } else {
            assert(separator(list, tr, m) == e);
            assert(all == head + indent + list[m] + e + line_end);
            lemma_ink_add(head, indent);
            lemma_ink_add(head + indent, list[m]);
            assert(head + indent + list[m] + e =~= head + indent + list[m]);
            lemma_ink_add(head + indent + list[m], line_end);
            assert(ink(head) + e =~= ink(head));
            assert(ink(head + indent + list[m]) + e =~= ink(head + indent + list[m]));
        }
    }
    let o = seq!['['];
    lemma_ink_add(o, line_end);
    lemma_ink_add(o + line_end, all);
    lemma_ink_add(o + line_end + all, base);
    lemma_ink_add(o + line_end + all + base, seq![']']);
    assert(ink(o) + e =~= ink(o));
    assert(ink(o + line_end + all) + e =~= ink(o + line_end + all));
}

proof fn lemma_ink_formatted(
    text: Seq<char>,
    ranges: Seq<(int, int)>,
    unit: Seq<char>,
    line_end: Seq<char>,
    cursor: int,
)
    requires
        text.len() <= usize::MAX,
        0 <= cursor <= text.len(),
        blank(unit),
        blank(line_end),
    ensures
        ink(formatted_from(text, ranges, unit, line_end, cursor)) == ink(
            text.subrange(cursor, text.len() as int),
        ),
    decreases text.len() - cursor,
{
    let n = text.len() as int;
    if cursor < n {
        lemma_next_open(text, cursor);
        let open = next_open(text, cursor);
        if open < n {
            lemma_close_of(text, open);
            match argument_end(text, ranges, open) {
                Some(close) => {
                    lemma_ink_formatted(text, ranges, unit, line_end, close + 1);
                    let inner = text.subrange(open + 1, close);
                    let base = base_indent(text, open);
                    lemma_line_start(text, open);
                    lemma_first_ink(line_prefix(text, open), 0);
                    assert(blank(base));
                    lemma_ink_spread(inner, base, unit, line_end);
                    let sp = spread(inner, base, unit, line_end);
                    let rest = formatted_from(text, ranges, unit, line_end, close + 1);
                    lemma_ink_add(text.subrange(cursor, open), sp);
                    lemma_ink_add(text.subrange(cursor, open) + sp, rest);
                    lemma_ink_range(text, cursor, open, n);
                    lemma_ink_range(text, open, open + 1, n);
                    lemma_ink_range(text, open + 1, close, n);
                    lemma_ink_range(text, close, close + 1, n);
                    assert(text.subrange(open, open + 1) =~= seq!['[']);
                    assert(text.subrange(close, close + 1) =~= seq![']']);
                    let x = ink(text.subrange(cursor, open));
                    let i = ink(inner);
                    let l = ink(seq!['[']);
                    let r = ink(seq![']']);
                    let z = ink(rest);
                    assert(x + (l + i + r) + z =~= x + (l + (i + (r + z))));
                },
                None => {
                    lemma_ink_formatted(text, ranges, unit, line_end, open + 1);
                    lemma_ink_add(
                        text.subrange(cursor, open + 1),
                        formatted_from(text, ranges, unit, line_end, open + 1),
                    );
                    lemma_ink_range(text, cursor, open + 1, n);
                },
            }
        }
    } else {
        assert(text.subrange(cursor, n) =~= seq![]);
    }
}

/// Formatting optional arguments changes nothing but whitespace.
pub proof fn law_options_keep_ink(
    text: Seq<char>,
    args: Args,
    scans: Seq<LineScan>,
    line_end: Seq<char>,
)
    requires
        text.len() <= usize::MAX,
        blank(line_end),
    ensures
        ink(formatted(text, args, scans, line_end)) == ink(text),
{
    assert(blank(indent_unit(args)));
    lemma_ink_formatted(text, fixed_ranges(text, scans), indent_unit(args), line_end, 0);
    assert(text.subrange(0, text.len() as int) == text);
}

proof fn lemma_formatted_unchanged(
    text: Seq<char>,
    ranges: Seq<(int, int)>,
    unit: Seq<char>,
    line_end: Seq<char>,
    cursor: int,
)
    requires
        0 <= cursor <= text.len(),
        forall|open: int|
            0 <= open < text.len() && text[open] == '[' ==> #[trigger] argument_end(
                text,
                ranges,
                open,
            ) is None,
    ensures
        formatted_from(text, ranges, unit, line_end, cursor) == text.subrange(
            cursor,
            text.len() as int,
        ),
    decreases text.len() - cursor,
{
    let n = text.len() as int;
    if cursor < n {
        lemma_next_open(text, cursor);
        let open = next_open(text, cursor);
        if open < n {
            lemma_formatted_unchanged(text, ranges, unit, line_end, open + 1);
            assert(argument_end(text, ranges, open) is None);
            assert(text.subrange(cursor, open + 1) + text.subrange(open + 1, n) =~= text.subrange(
                cursor,
                n,
            ));
        }
    } else {
        assert(text.subrange(cursor, n) =~= seq![]);
    }
}

/// A document is left as it is if none of its brackets holds an argument whose
/// items may be spread.
pub proof fn law_options_unchanged(
    text: Seq<char>,
    args: Args,
    scans: Seq<LineScan>,
    line_end: Seq<char>,
)
    requires
        forall|open: int|
            0 <= open < text.len() && text[open] == '[' ==> #[trigger] argument_end(
                text,
                fixed_ranges(text, scans),
                open,
            ) is None,
    ensures
        formatted(text, args, scans, line_end) == text,
{
    lemma_formatted_unchanged(text, fixed_ranges(text, scans), indent_unit(args), line_end, 0);
    assert(text.subrange(0, text.len() as int) == text);
}

/// The range of a line whose layout is fixed is one of the fixed ranges.
proof fn lemma_fixed_spans(spans: Seq<(int, int)>, scans: Seq<LineScan>, n: int, k: int) -> (i: int)
    requires
        0 <= k < n,
        scans[k].fixed(),
    ensures
        0 <= i < fixed_spans(spans, scans, n).len(),
        fixed_spans(spans, scans, n)[i] == spans[k],
    decreases n,
{
    if k == n - 1 {
        fixed_spans(spans, scans, n).len() - 1
    } else {
        lemma_fixed_spans(spans, scans, n - 1, k)
    }
}

/// From a position in a fixed range on, the document starts with the rest of
/// that range.
proof fn lemma_in_fixed(
    text: Seq<char>,
    ranges: Seq<(int, int)>,
    unit: Seq<char>,
    line_end: Seq<char>,
    cursor: int,
    r: int,
) -> (after: Seq<char>)
    requires
        0 <= r < ranges.len(),
        0 <= ranges[r].0 <= cursor <= ranges[r].1 <= text.len(),
    ensures
        formatted_from(text, ranges, unit, line_end, cursor) == text.subrange(cursor, ranges[r].1)
            + after,
    decreases text.len() - cursor,
{
    let n = text.len() as int;
    let y = ranges[r].1;
    let all = formatted_from(text, ranges, unit, line_end, cursor);
    let mut after = all;
    if cursor < y {
        lemma_next_open(text, cursor);
        let open = next_open(text, cursor);
        if open < n {
            lemma_close_of(text, open);
        }
        if open < y {
            if let Some(close) = close_of(text, open) {
                assert(overlaps(ranges, open, close));
            }
            let rest = lemma_in_fixed(text, ranges, unit, line_end, open + 1, r);
            assert(text.subrange(cursor, open + 1) + (text.subrange(open + 1, y) + rest)
                =~= text.subrange(cursor, y) + rest);
            after = rest;
        } else {
            after = all.subrange(y - cursor, all.len() as int);
            assert(all =~= text.subrange(cursor, y) + after);
        }
    } else {
        assert(all =~= text.subrange(cursor, y) + all);
    }
    after
}

/// A fixed range that lies ahead appears in the document as it is.
proof fn lemma_before_fixed(
    text: Seq<char>,
    ranges: Seq<(int, int)>,
    unit: Seq<char>,
    line_end: Seq<char>,
    cursor: int,
    r: int,
) -> (parts: (Seq<char>, Seq<char>))
    requires
        0 <= r < ranges.len(),
        0 <= cursor <= ranges[r].0 < ranges[r].1 <= text.len(),
    ensures
        formatted_from(text, ranges, unit, line_end, cursor) == parts.0 + text.subrange(
            ranges[r].0,
            ranges[r].1,
        ) + parts.1,
    decreases text.len() - cursor,
{
    let n = text.len() as int;
    let (x, y) = ranges[r];
    let part = text.subrange(x, y);
    let all = formatted_from(text, ranges, unit, line_end, cursor);
    lemma_next_open(text, cursor);
    let open = next_open(text, cursor);
    if open < n {
        lemma_close_of(text, open);
    }
    if open < y {
        if argument_end(text, ranges, open) is Some {
            let close = argument_end(text, ranges, open)->0;
            assert(!(x <= close && y > open));
            let head = text.subrange(cursor, open) + spread(
                text.subrange(open + 1, close),
                base_indent(text, open),
                unit,
                line_end,
            );
            let (p, q) = lemma_before_fixed(text, ranges, unit, line_end, close + 1, r);
            assert(head + (p + part + q) =~= head + p + part + q);
            (head + p, q)
        } else if open < x {
            let head = text.subrange(cursor, open + 1);
            let (p, q) = lemma_before_fixed(text, ranges, unit, line_end, open + 1, r);
            assert(head + (p + part + q) =~= head + p + part + q);
            (head + p, q)
        } else {
            let rest = lemma_in_fixed(text, ranges, unit, line_end, open + 1, r);
            assert(text.subrange(cursor, open + 1) + (text.subrange(open + 1, y) + rest)
                =~= text.subrange(cursor, x) + part + rest);
            (text.subrange(cursor, x), rest)
        }
    } else {
        let rest = all.subrange(y - cursor, all.len() as int);
        assert(all =~= text.subrange(cursor, x) + part + rest);
        (text.subrange(cursor, x), rest)
    }
}

/// A line whose layout is fixed comes out as it is, its terminator included.
pub proof fn law_options_pass_fixed_lines(
    text: Seq<char>,
    args: Args,
    scans: Seq<LineScan>,
    line_end: Seq<char>,
    k: int,
)
    requires
        0 <= k < line_spans(text).len(),
        scans[k].fixed(),
    ensures
        exists|before: Seq<char>, after: Seq<char>|
            formatted(text, args, scans, line_end) == #[trigger] (before + text.subrange(
                line_spans(text)[k].0,
                line_spans(text)[k].1,
            ) + after),
{
    lemma_span(text, k);
    let ranges = fixed_ranges(text, scans);
    let r = lemma_fixed_spans(line_spans(text), scans, line_spans(text).len() as int, k);
    let (p, q) = lemma_before_fixed(text, ranges, indent_unit(args), line_end, 0, r);
    assert(formatted(text, args, scans, line_end) == p + text.subrange(
        line_spans(text)[k].0,
        line_spans(text)[k].1,
    ) + q);
}

} // verus!
