//! Which optional arguments are spread over lines and how, said of their
//! characters.

use vstd::prelude::*;

use crate::config::Args;
use crate::options::{
    bad_item, base_indent, close_of, comma_at, commas, depth_at, escaped_at, first_close,
    fixed_ranges, fixed_spans, formatted, formatted_from, has_comment, indent_unit, item_lines,
    items, lemma_close_of, line_prefix, line_start, next_open, open_braces, open_brackets,
    opens_argument, piece, reading_at, rewrites, splits, trailing_comma,
};
use crate::reading::{inked, law_trimming, law_trimming_nothing, lemma_parts_of, space, spaces};
use crate::scan::LineScan;
use crate::text::{
    ascending, begins_with, first_ink, lemma_first_ink, lemma_select, line_spans, select, trimmed,
    trimmed_start,
};

verus! {

// ---------------------------------------------------------------------------
// Escapes and nesting

proof fn lemma_escaped_local(s: Seq<char>, rest: Seq<char>, k: int)
    requires
        k <= s.len(),
    ensures
        escaped_at(s + rest, k) == escaped_at(s, k),
    decreases k,
{
    if k > 0 {
        lemma_escaped_local(s, rest, k - 1);
        assert((s + rest)[k - 1] == s[k - 1]);
    }
}

proof fn lemma_depth_local(s: Seq<char>, rest: Seq<char>, k: int, open: char, close: char)
    requires
        k <= s.len(),
    ensures
        depth_at(s + rest, k, open, close) == depth_at(s, k, open, close),
    decreases k,
{
    if k > 0 {
        lemma_depth_local(s, rest, k - 1, open, close);
        lemma_escaped_local(s, rest, k - 1);
        assert((s + rest)[k - 1] == s[k - 1]);
    }
}

/// A character is escaped if and only if it follows a backslash that is not.
pub proof fn law_escapes(s: Seq<char>, c: char, rest: Seq<char>)
    ensures
        !escaped_at(s, 0),
        escaped_at(s.push(c) + rest, s.len() as int) == escaped_at(s, s.len() as int),
        escaped_at(s.push(c) + rest, s.len() as int + 1) <==> c == '\\' && !escaped_at(
            s,
            s.len() as int,
        ),
{
    let n = s.len() as int;
    let more = s.push(c);
    lemma_escaped_local(more, rest, n);
    lemma_escaped_local(more, rest, n + 1);
    assert(more =~= s + seq![c]);
    lemma_escaped_local(s, seq![c], n);
    assert(more[n] == c);
}

/// An opening character that is not escaped adds one to the depth, a closing one
/// takes one unless there is none, and nothing else changes it.
pub proof fn law_depths(s: Seq<char>, c: char, rest: Seq<char>, open: char, close: char)
    requires
        open != close,
    ensures
        ({
            let n = s.len() as int;
            let before = depth_at(s, n, open, close);
            let after = depth_at(s.push(c) + rest, n + 1, open, close);
            let escaped = escaped_at(s, n);
            &&& depth_at(s, 0, open, close) == 0
            &&& depth_at(s.push(c) + rest, n, open, close) == before
            &&& escaped ==> after == before
            &&& c != open && c != close ==> after == before
            &&& !escaped && c == open ==> after == before + 1
            &&& !escaped && c == close && before > 0 ==> after == before - 1
            &&& !escaped && c == close && before == 0 ==> after == 0
        }),
{
    let n = s.len() as int;
    let more = s.push(c);
    law_escapes(s, c, rest);
    lemma_depth_local(more, rest, n, open, close);
    lemma_depth_local(more, rest, n + 1, open, close);
    lemma_escaped_local(more, rest, n);
    assert(more =~= s + seq![c]);
    lemma_depth_local(s, seq![c], n, open, close);
    lemma_escaped_local(s, seq![c], n);
    assert(more[n] == c);
}

proof fn lemma_reading_local(s: Seq<char>, rest: Seq<char>, k: int)
    requires
        k <= s.len(),
    ensures
        reading_at(s + rest, k) == reading_at(s, k),
        open_braces(s + rest, k) == open_braces(s, k),
        open_brackets(s + rest, k) == open_brackets(s, k),
    decreases k,
{
    if k > 0 {
        lemma_reading_local(s, rest, k - 1);
        assert((s + rest)[k - 1] == s[k - 1]);
    }
}

/// How the characters behind an opening bracket are read: a backslash escapes the
/// character behind it, a percent sign opens a comment that takes in its line feed,
/// and braces and, outside braces, brackets that are read as they are open and close.
pub proof fn law_readings(s: Seq<char>, c: char, rest: Seq<char>)
    ensures
        ({
            let n = s.len() as int;
            let t = s.push(c) + rest;
            let plain = reading_at(s, n) is Plain;
            let after = reading_at(t, n + 1);
            &&& reading_at(t, n) == reading_at(s, n)
            &&& plain && c == '\\' ==> after is Escaped
            &&& plain && c == '%' ==> after is Comment
            &&& plain && c != '\\' && c != '%' ==> after is Plain
            &&& reading_at(s, n) is Escaped ==> after is Plain
            &&& reading_at(s, n) is Comment && c == '\n' ==> after is Plain
            &&& reading_at(s, n) is Comment && c != '\n' ==> after is Comment
        }),
        ({
            let n = s.len() as int;
            let t = s.push(c) + rest;
            let plain = reading_at(s, n) is Plain;
            let before = open_braces(s, n);
            let after = open_braces(t, n + 1);
            &&& open_braces(t, n) == before
            &&& plain && c == '{' ==> after == before + 1
            &&& plain && c == '}' && before > 0 ==> after == before - 1
            &&& plain && c == '}' && before == 0 ==> after == 0
            &&& !plain || c != '{' && c != '}' ==> after == before
        }),
        ({
            let n = s.len() as int;
            let t = s.push(c) + rest;
            let bare = reading_at(s, n) is Plain && open_braces(s, n) == 0;
            let before = open_brackets(s, n);
            let after = open_brackets(t, n + 1);
            &&& open_brackets(t, n) == before
            &&& bare && c == '[' ==> after == before + 1
            &&& bare && c == ']' ==> after == before - 1
            &&& !bare || c != '[' && c != ']' ==> after == before
        }),
        reading_at(s, 0) is Plain,
        open_braces(s, 0) == 0,
        open_brackets(s, 0) == 1,
{
    let n = s.len() as int;
    let more = s.push(c);
    lemma_reading_local(more, rest, n);
    lemma_reading_local(more, rest, n + 1);
    assert(more =~= s + seq![c]);
    lemma_reading_local(s, seq![c], n);
    assert(more[n] == c);
}

/// Whether the bracket at `k` closes the one before the text.
pub open spec fn closes(s: Seq<char>, k: int) -> bool {
    &&& s[k] == ']'
    &&& reading_at(s, k) is Plain
    &&& open_braces(s, k) == 0
    &&& open_brackets(s, k) == 1
}

proof fn lemma_closes_first(s: Seq<char>, k: int)
    requires
        0 <= k <= s.len(),
    ensures
        first_close(s, k) matches Some(c) ==> k <= c < s.len() && closes(s, c) && forall|j: int|
            k <= j < c ==> !#[trigger] closes(s, j),
        first_close(s, k) is None ==> forall|j: int|
            k <= j < s.len() ==> !#[trigger] closes(s, j),
    decreases s.len() - k,
{
    if k < s.len() {
        lemma_closes_first(s, k + 1);
    }
}

/// The bracket that closes another is the first behind it that does.
pub proof fn law_close(text: Seq<char>, open: int, close: int)
    requires
        0 <= open < text.len(),
    ensures
        ({
            let rest = text.subrange(open + 1, text.len() as int);
            let k = close - open - 1;
            close_of(text, open) == Some(close) <==> open < close < text.len() && closes(rest, k)
                && forall|j: int| 0 <= j < k ==> !#[trigger] closes(rest, j)
        }),
{
    let rest = text.subrange(open + 1, text.len() as int);
    let k = close - open - 1;
    lemma_closes_first(rest, 0);
    if open < close < text.len() && closes(rest, k) && forall|j: int|
        0 <= j < k ==> !#[trigger] closes(rest, j) {
        match first_close(rest, 0) {
            Some(c) => {
                if c < k {
                    assert(!closes(rest, c));
                } else if k < c {
                    assert(!closes(rest, k));
                }
            },
            None => {
                assert(!closes(rest, k));
            },
        }
    }
}

// ---------------------------------------------------------------------------
// Opening brackets

proof fn lemma_line_start_at(s: Seq<char>, a: int, i: int)
    requires
        0 <= a <= i <= s.len(),
        a == 0 || s[a - 1] == '\n',
        forall|k: int| a <= k < i ==> #[trigger] s[k] != '\n',
    ensures
        line_start(s, i) == a,
    decreases i,
{
    if a < i {
        assert(s[i - 1] != '\n');
        lemma_line_start_at(s, a, i - 1);
    }
}

/// Whether a text is the start of a line, with `w` as its indentation and `b` behind
/// that.
pub open spec fn line_head(a: Seq<char>, w: Seq<char>, b: Seq<char>) -> bool {
    &&& a.len() == 0 || a[a.len() - 1] == '\n'
    &&& spaces(w) && !w.contains('\n')
    &&& !b.contains('\n')
    &&& b.len() == 0 || !space(b[0])
}

proof fn lemma_line_head(a: Seq<char>, w: Seq<char>, b: Seq<char>, rest: Seq<char>)
    requires
        line_head(a, w, b),
    ensures
        ({
            let text = a + w + b + rest;
            let i = (a.len() + w.len() + b.len()) as int;
            &&& line_prefix(text, i) == w + b
            &&& trimmed_start(w + b) == b
            &&& first_ink(w + b, 0) == w.len()
        }),
{
    let text = a + w + b + rest;
    let i = (a.len() + w.len() + b.len()) as int;
    let n = a.len() as int;
    assert(n > 0 ==> text[n - 1] == a[n - 1]);
    assert forall|k: int| n <= k < i implies #[trigger] text[k] != '\n' by {
        if k < n + w.len() {
            assert(text[k] == w[k - n]);
            assert(w.contains(w[k - n]));
        } else {
            assert(text[k] == b[k - n - w.len()]);
            assert(b.contains(b[k - n - w.len()]));
        }
    }
    lemma_line_start_at(text, n, i);
    assert(text.subrange(n, i) =~= w + b);
    let (x, t, z) = lemma_parts_of(b);
    let e = Seq::<char>::empty();
    if b.len() == 0 {
        assert(w + b =~= w);
        law_trimming_nothing(w);
        assert(trimmed_start(w) =~= b);
    } else {
        if x.len() > 0 {
            assert(b[0] == x[0]);
        }
        if t.len() == 0 {
            assert(b[0] == z[0]);
        }
        assert(b =~= t + z);
        assert(w + b =~= w + t + z);
        law_trimming(w, t, z);
    }
    lemma_first_ink(w + b, 0);
    assert(trimmed_start(w + b).len() == (w + b).len() - first_ink(w + b, 0));
}

/// A bracket begins an optional argument if and only if its line starts with a
/// command, whitespace aside, no backslash directly precedes it, and every brace and
/// bracket before it on the line is closed.
pub proof fn law_opening(a: Seq<char>, w: Seq<char>, b: Seq<char>, rest: Seq<char>)
    requires
        line_head(a, w, b),
    ensures
        ({
            let text = a + w + b + rest;
            let i = (a.len() + w.len() + b.len()) as int;
            &&& opens_argument(text, i) <==> b.len() > 0 && b[0] == '\\' && b[b.len() - 1] != '\\'
                && depth_at(b, b.len() as int, '{', '}') == 0 && depth_at(
                b,
                b.len() as int,
                '[',
                ']',
            ) == 0
            &&& base_indent(text, i) == w
        }),
{
    let text = a + w + b + rest;
    let i = (a.len() + w.len() + b.len()) as int;
    lemma_line_head(a, w, b, rest);
    reveal_strlit("\\");
    assert("\\"@ =~= seq!['\\']);
    if b.len() > 0 {
        assert(b.subrange(0, 1) =~= seq![b[0]]);
    }
    if begins_with(b, "\\"@) {
        assert(b.subrange(0, 1)[0] == '\\');
    }
    assert((w + b).subrange(0, w.len() as int) =~= w);
}

// ---------------------------------------------------------------------------
// Items

/// The commas of an argument that separate items are those that are not escaped and
/// stand outside braces and brackets, in order.
pub proof fn law_commas(s: Seq<char>, k: usize)
    requires
        s.len() <= usize::MAX,
    ensures
        ascending(commas(s)),
        commas(s).contains(k) <==> k < s.len() && s[k as int] == ',' && !escaped_at(s, k as int)
            && depth_at(s, k as int, '{', '}') == 0 && depth_at(s, k as int, '[', ']') == 0,
{
    let f = |k: int| comma_at(s, k);
    let cs = commas(s);
    lemma_select(f, s.len() as int);
    assert(cs == select(f, s.len() as int));
    if cs.contains(k) {
        let i = choose|i: int| 0 <= i < cs.len() && cs[i] == k;
        assert(f(cs[i] as int));
    }
    if k < s.len() && f(k as int) {
        assert(cs.contains(k));
    }
}

/// What stands before comma `j` of an argument, or behind the last comma.
pub open spec fn part(s: Seq<char>, j: int) -> Seq<char> {
    let cs = commas(s);
    let from = if j > 0 {
        cs[j - 1] + 1
    } else {
        0
    };
    let to = if j < cs.len() {
        cs[j] as int
    } else {
        s.len() as int
    };
    s.subrange(from, to)
}

/// Whether a text is something on a single line, with whitespace around it.
pub open spec fn on_one_line(p: Seq<char>) -> bool {
    exists|w: Seq<char>, t: Seq<char>, z: Seq<char>|
        p == #[trigger] (w + t + z) && spaces(w) && inked(t) && spaces(z) && !t.contains('\n')
            && !t.contains('\r')
}

proof fn lemma_on_one_line(p: Seq<char>)
    ensures
        on_one_line(p) <==> !bad_item(trimmed(p)),
        spaces(p) <==> trimmed(p).len() == 0,
{
    let (w, t, z) = lemma_parts_of(p);
    if on_one_line(p) {
        let (x, u, y) = choose|x: Seq<char>, u: Seq<char>, y: Seq<char>|
            p == #[trigger] (x + u + y) && spaces(x) && inked(u) && spaces(y) && !u.contains('\n')
                && !u.contains('\r');
        law_trimming(x, u, y);
    }
    if !bad_item(trimmed(p)) {
        assert(p == w + t + z);
    }
}

/// The items of an argument are the parts between its commas without the whitespace
/// around them. What follows the last comma is an item unless it is blank.
pub proof fn law_items(s: Seq<char>, j: int, w: Seq<char>, t: Seq<char>, z: Seq<char>)
    requires
        0 <= j <= commas(s).len(),
        part(s, j) == w + t + z,
        spaces(w),
        inked(t),
        spaces(z),
    ensures
        piece(s, commas(s), j) == t,
        trailing_comma(s) <==> spaces(part(s, commas(s).len() as int)),
        items(s).len() == commas(s).len() + (if trailing_comma(s) {
            0int
        } else {
            1int
        }),
        items(s)[j] == t,
{
    law_trimming(w, t, z);
    lemma_on_one_line(part(s, commas(s).len() as int));
    if j == commas(s).len() {
        assert(part(s, j)[w.len() as int] == t[0]);
        assert(!spaces(part(s, j)));
    }
}

/// An argument is split into its items if and only if it holds no percent sign but
/// escaped ones, has a comma between items, each part before a comma is something on a
/// single line, and what follows the last comma is so too or blank.
pub proof fn law_splits(s: Seq<char>)
    ensures
        splits(s) <==> {
            let n = commas(s).len() as int;
            &&& forall|k: int| 0 <= k < s.len() && #[trigger] s[k] == '%' ==> escaped_at(s, k)
            &&& n > 0
            &&& forall|j: int| 0 <= j < n ==> on_one_line(#[trigger] part(s, j))
            &&& spaces(part(s, n)) || on_one_line(part(s, n))
        },
{
    let n = commas(s).len() as int;
    assert forall|j: int| 0 <= j <= n implies on_one_line(#[trigger] part(s, j)) == !bad_item(
        piece(s, commas(s), j),
    ) by {
        lemma_on_one_line(part(s, j));
    }
    lemma_on_one_line(part(s, n));
    assert(trailing_comma(s) == spaces(part(s, n)));
    if splits(s) {
        assert forall|k: int| 0 <= k < s.len() && #[trigger] s[k] == '%' implies escaped_at(
            s,
            k,
        ) by {
            if !escaped_at(s, k) {
                assert(has_comment(s));
            }
        }
        assert forall|j: int| 0 <= j < n implies on_one_line(#[trigger] part(s, j)) by {
            assert(!bad_item(items(s)[j]));
        }
        if !trailing_comma(s) {
            assert(!bad_item(items(s)[n]));
        }
    }
    if (forall|k: int| 0 <= k < s.len() && #[trigger] s[k] == '%' ==> escaped_at(s, k)) && n > 0
        && (forall|j: int| 0 <= j < n ==> on_one_line(#[trigger] part(s, j))) && (spaces(
        part(s, n),
    ) || on_one_line(part(s, n))) {
        assert forall|j: int| 0 <= j < items(s).len() implies !bad_item(#[trigger] items(s)[j]) by {
            assert(on_one_line(part(s, j)));
        }
        assert(!has_comment(s));
    }
}

// ---------------------------------------------------------------------------
// Documents

/// The ranges with a fixed layout are those of the ignored and verbatim lines and of
/// the lines of tables, in order.
pub proof fn law_fixed_ranges(text: Seq<char>, scans: Seq<LineScan>, k: int)
    requires
        0 <= k < line_spans(text).len(),
    ensures
        ({
            let spans = line_spans(text);
            let fixed = scans[k].ignore || scans[k].verbatim || scans[k].table;
            &&& fixed_spans(spans, scans, 0).len() == 0
            &&& fixed ==> fixed_spans(spans, scans, k + 1) == fixed_spans(spans, scans, k).push(
                spans[k],
            )
            &&& !fixed ==> fixed_spans(spans, scans, k + 1) == fixed_spans(spans, scans, k)
            &&& fixed_ranges(text, scans) == fixed_spans(spans, scans, spans.len() as int)
        }),
{
}

/// One step of indentation is a tab, or as many spaces as a step is wide.
pub proof fn law_indent_unit(args: Args)
    ensures
        args.tabchar is Tab ==> indent_unit(args) == seq!['\t'],
        args.tabchar is Space ==> indent_unit(args).len() == args.tabsize && forall|i: int|
            0 <= i < args.tabsize ==> #[trigger] indent_unit(args)[i] == ' ',
{
}

/// The items of an argument are written one by one: each on a line of its own behind
/// the indentation, with a comma unless it is the last and the argument did not end in
/// a comma.
pub proof fn law_item_lines(
    list: Seq<Seq<char>>,
    trailing: bool,
    indent: Seq<char>,
    line_end: Seq<char>,
    k: int,
)
    requires
        0 <= k < list.len(),
    ensures
        item_lines(list, trailing, indent, line_end, 0) == Seq::<char>::empty(),
        k + 1 < list.len() || trailing ==> item_lines(list, trailing, indent, line_end, k + 1)
            == item_lines(list, trailing, indent, line_end, k) + indent + list[k] + seq![',']
            + line_end,
        k + 1 == list.len() && !trailing ==> item_lines(list, trailing, indent, line_end, k + 1)
            == item_lines(list, trailing, indent, line_end, k) + indent + list[k] + line_end,
{
    let head = item_lines(list, trailing, indent, line_end, k) + indent + list[k];
    assert(head + Seq::<char>::empty() + line_end =~= head + line_end);
}

/// Whether the argument between the brackets at `open` and `close` is to be spread:
/// its bracket begins an optional argument, it spans lines, no range with a fixed
/// layout reaches into it, and it can be split into items.
pub open spec fn to_spread(
    text: Seq<char>,
    ranges: Seq<(int, int)>,
    open: int,
    close: int,
) -> bool {
    let inner = text.subrange(open + 1, close);
    let n = commas(inner).len() as int;
    &&& opens_argument(text, open)
    &&& exists|k: int| open < k < close && #[trigger] text[k] == '\n'
    &&& forall|i: int|
        0 <= i < ranges.len() ==> (#[trigger] ranges[i]).1 <= open || close < ranges[i].0
    &&& forall|k: int|
        0 <= k < inner.len() && #[trigger] inner[k] == '%' ==> escaped_at(inner, k)
    &&& n > 0
    &&& forall|j: int| 0 <= j < n ==> on_one_line(#[trigger] part(inner, j))
    &&& spaces(part(inner, n)) || on_one_line(part(inner, n))
}

proof fn lemma_to_spread(text: Seq<char>, ranges: Seq<(int, int)>, open: int, close: int)
    requires
        0 <= open < close < text.len(),
    ensures
        rewrites(text, ranges, open, close) == to_spread(text, ranges, open, close),
{
    let inner = text.subrange(open + 1, close);
    law_splits(inner);
    if inner.contains('\n') {
        let k = choose|k: int| 0 <= k < inner.len() && inner[k] == '\n';
        assert(text[open + 1 + k] == '\n');
    }
    if exists|k: int| open < k < close && #[trigger] text[k] == '\n' {
        let k = choose|k: int| open < k < close && #[trigger] text[k] == '\n';
        assert(inner[k - open - 1] == '\n');
    }
}

proof fn lemma_next_open_at(text: Seq<char>, i: int, open: int)
    requires
        0 <= i <= open <= text.len(),
        open == text.len() || text[open] == '[',
        forall|k: int| i <= k < open ==> #[trigger] text[k] != '[',
    ensures
        next_open(text, i) == open,
    decreases open - i,
{
    if i < open {
        assert(text[i] != '[');
        lemma_next_open_at(text, i + 1, open);
    }
}

/// From a place on, a document is copied up to the next opening bracket. If the
/// bracket is closed and its argument is to be spread, each item is put on a line of
/// its own, one step further indented than the line on which the argument opens, and
/// the document goes on behind the argument. Otherwise it goes on behind the bracket.
pub proof fn law_arguments_are_spread(
    text: Seq<char>,
    ranges: Seq<(int, int)>,
    unit: Seq<char>,
    line_end: Seq<char>,
    cursor: int,
    open: int,
    close: int,
)
    requires
        0 <= cursor <= open < text.len(),
        text[open] == '[',
        forall|k: int| cursor <= k < open ==> #[trigger] text[k] != '[',
    ensures
        close_of(text, open) == Some(close) && to_spread(text, ranges, open, close)
            ==> formatted_from(text, ranges, unit, line_end, cursor) == text.subrange(cursor, open)
            + (seq!['['] + line_end + item_lines(
            items(text.subrange(open + 1, close)),
            trailing_comma(text.subrange(open + 1, close)),
            base_indent(text, open) + unit,
            line_end,
            items(text.subrange(open + 1, close)).len() as int,
        ) + base_indent(text, open) + seq![']']) + formatted_from(
            text,
            ranges,
            unit,
            line_end,
            close + 1,
        ),
        close_of(text, open) is None || close_of(text, open) == Some(close) && !to_spread(
            text,
            ranges,
            open,
            close,
        ) ==> formatted_from(text, ranges, unit, line_end, cursor) == text.subrange(
            cursor,
            open + 1,
        ) + formatted_from(text, ranges, unit, line_end, open + 1),
{
    lemma_next_open_at(text, cursor, open);
    lemma_close_of(text, open);
    if close_of(text, open) is Some {
        lemma_to_spread(text, ranges, open, close_of(text, open)->0);
    }
}

/// A document without opening brackets from a place on is copied from there.
pub proof fn law_rest_is_copied(
    text: Seq<char>,
    ranges: Seq<(int, int)>,
    unit: Seq<char>,
    line_end: Seq<char>,
    cursor: int,
)
    requires
        0 <= cursor <= text.len(),
        forall|k: int| cursor <= k < text.len() ==> #[trigger] text[k] != '[',
    ensures
        formatted_from(text, ranges, unit, line_end, cursor) == text.subrange(
            cursor,
            text.len() as int,
        ),
{
    lemma_next_open_at(text, cursor, text.len() as int);
}

/// A document is formatted from its start, with the step of indentation that is set,
/// around the ranges with a fixed layout.
pub proof fn law_formatted(
    text: Seq<char>,
    args: Args,
    scans: Seq<LineScan>,
    line_end: Seq<char>,
)
    ensures
        formatted(text, args, scans, line_end) == formatted_from(
            text,
            fixed_ranges(text, scans),
            indent_unit(args),
            line_end,
            0,
        ),
{
}

// ---------------------------------------------------------------------------
// Plain arguments

/// Whether a character has no meaning of its own in an argument.
pub open spec fn plain(c: char) -> bool {
    c != '\\' && c != '%' && c != '{' && c != '}' && c != '[' && c != ']'
}

proof fn lemma_plain_reading(s: Seq<char>, k: int)
    requires
        0 <= k <= s.len(),
        forall|i: int| 0 <= i < k ==> plain(#[trigger] s[i]),
    ensures
        reading_at(s, k) is Plain,
        open_braces(s, k) == 0,
        open_brackets(s, k) == 1,
        !escaped_at(s, k),
    decreases k,
{
    if k > 0 {
        lemma_plain_reading(s, k - 1);
        assert(plain(s[k - 1]));
    }
}

proof fn lemma_no_open(s: Seq<char>, k: int, open: char, close: char)
    requires
        0 <= k <= s.len(),
        forall|i: int| 0 <= i < k ==> #[trigger] s[i] != open,
    ensures
        depth_at(s, k, open, close) == 0,
    decreases k,
{
    if k > 0 {
        lemma_no_open(s, k - 1, open, close);
    }
}

proof fn lemma_none_fixed(spans: Seq<(int, int)>, scans: Seq<LineScan>, k: int)
    requires
        forall|m: int|
            0 <= m < k ==> !((#[trigger] scans[m]).ignore || scans[m].verbatim || scans[m].table),
    ensures
        fixed_spans(spans, scans, k).len() == 0,
    decreases k,
{
    if k > 0 {
        lemma_none_fixed(spans, scans, k - 1);
    }
}

/// The parts of an argument without special characters lie between its commas.
pub proof fn law_plain_commas(inner: Seq<char>, k: usize)
    requires
        inner.len() <= usize::MAX,
        forall|i: int| 0 <= i < inner.len() ==> plain(#[trigger] inner[i]),
    ensures
        commas(inner).contains(k) <==> k < inner.len() && inner[k as int] == ',',
{
    law_commas(inner, k);
    if k < inner.len() {
        lemma_plain_reading(inner, k as int);
        lemma_no_open(inner, k as int, '{', '}');
        lemma_no_open(inner, k as int, '[', ']');
    }
}

/// A document whose only opening bracket stands on a line that starts with a command
/// has the items of that argument put on lines of their own, whatever they hold, as
/// long as it spans lines, has a comma, holds no special characters, and no item is
/// empty or spans lines.
pub proof fn law_plain_argument(
    a: Seq<char>,
    w: Seq<char>,
    b: Seq<char>,
    inner: Seq<char>,
    tail: Seq<char>,
    args: Args,
    scans: Seq<LineScan>,
    line_end: Seq<char>,
)
    requires
        line_head(a, w, b),
        b.len() > 0 && b[0] == '\\' && b[b.len() - 1] != '\\',
        depth_at(b, b.len() as int, '{', '}') == 0,
        !a.contains('[') && !b.contains('[') && !tail.contains('['),
        forall|i: int| 0 <= i < inner.len() ==> plain(#[trigger] inner[i]),
        inner.contains('\n'),
        commas(inner).len() > 0,
        forall|j: int| 0 <= j < commas(inner).len() ==> on_one_line(#[trigger] part(inner, j)),
        spaces(part(inner, commas(inner).len() as int)) || on_one_line(
            part(inner, commas(inner).len() as int),
        ),
        forall|k: int|
            0 <= k < line_spans(a + w + b + (seq!['['] + inner + seq![']'] + tail)).len() ==> !((
            #[trigger] scans[k]).ignore || scans[k].verbatim || scans[k].table),
    ensures
        formatted(a + w + b + (seq!['['] + inner + seq![']'] + tail), args, scans, line_end) == a
            + w + b + (seq!['['] + line_end + item_lines(
            items(inner),
            spaces(part(inner, commas(inner).len() as int)),
            w + indent_unit(args),
            line_end,
            items(inner).len() as int,
        ) + w + seq![']']) + tail,
{
    let rest = seq!['['] + inner + seq![']'] + tail;
    let head = a + w + b;
    let text = head + rest;
    let open = head.len() as int;
    let close = open + 1 + inner.len();
    let n = text.len() as int;
    let ranges = fixed_ranges(text, scans);
    let unit = indent_unit(args);
    law_opening(a, w, b, rest);
    assert forall|i: int| 0 <= i < b.len() implies #[trigger] b[i] != '[' by {
        assert(b.contains(b[i]));
    }
    lemma_no_open(b, b.len() as int, '[', ']');
    assert(text[open] == '[');
    assert forall|k: int| 0 <= k < open implies #[trigger] text[k] != '[' by {
        if k < a.len() {
            assert(a.contains(a[k]));
        } else if k < a.len() + w.len() {
            assert(space(w[k - a.len()]));
        } else {
            assert(text[k] == b[k - a.len() - w.len()]);
        }
    }
    let behind = text.subrange(open + 1, n);
    let m = inner.len() as int;
    assert forall|i: int| 0 <= i < m implies #[trigger] behind[i] == inner[i] by {}
    assert(behind[m] == ']');
    lemma_plain_reading(behind, m);
    assert(closes(behind, m));
    assert forall|j: int| 0 <= j < m implies !#[trigger] closes(behind, j) by {
        assert(plain(inner[j]));
    }
    law_close(text, open, close);
    assert(text.subrange(open + 1, close) =~= inner);
    lemma_none_fixed(line_spans(text), scans, line_spans(text).len() as int);
    let f = choose|f: int| 0 <= f < m && inner[f] == '\n';
    assert(text[open + 1 + f] == '\n');
    assert(to_spread(text, ranges, open, close)) by {
        assert forall|k: int| 0 <= k < m && #[trigger] inner[k] == '%' implies escaped_at(
            inner,
            k,
        ) by {
            assert(plain(inner[k]));
        }
    }
    law_arguments_are_spread(text, ranges, unit, line_end, 0, open, close);
    assert forall|k: int| close + 1 <= k < n implies #[trigger] text[k] != '[' by {
        assert(text[k] == tail[k - close - 1]);
        assert(tail.contains(tail[k - close - 1]));
    }
    law_rest_is_copied(text, ranges, unit, line_end, close + 1);
    assert(text.subrange(0, open) =~= head);
    assert(text.subrange(close + 1, n) =~= tail);
    law_formatted(text, args, scans, line_end);
    lemma_on_one_line(part(inner, commas(inner).len() as int));
    assert(trailing_comma(inner) == spaces(part(inner, commas(inner).len() as int)));
}

} // verus!
