//! Formatting the result of formatting optional arguments changes nothing.

use vstd::prelude::*;

use crate::authored::lemma_ascending_unique;
use crate::chars::white;
use crate::config::Args;
use crate::options::{
    argument_end, bad_item, base_indent, close_of, comma_at, commas, depth_at, escaped_at,
    first_close, fixed_ranges, formatted, formatted_from, has_comment, indent_unit, item_lines,
    items, lemma_close_of, lemma_first_close, lemma_line_start, lemma_next_open, line_prefix,
    line_start, next_open, open_braces, open_brackets, opens_argument, overlaps, piece, piece_start,
    reading_at, rewrites, separator, splits, spread, trailing_comma, Reading,
};
use crate::scan::LineScan;
use crate::text::{
    ascending, begins_with, blank, first_ink, ink_end, lemma_first_ink, lemma_select, lemma_trimmed,
    lemma_trimmed_unique, trimmed, trimmed_start,
};

verus! {

// ---------------------------------------------------------------------------
// Reading an argument

/// What is known at a place in an argument without comments.
struct Mark {
    /// The next character is escaped.
    esc: bool,
    /// The number of open braces.
    brace: nat,
    /// The number of open brackets.
    square: nat,
    /// The number of open brackets outside braces, with the one that opens the
    /// argument.
    bracket: int,
}

/// What is known at the start of an argument.
spec fn start_mark() -> Mark {
    Mark { esc: false, brace: 0, square: 0, bracket: 1 }
}

/// What is known behind a character.
spec fn step(m: Mark, c: char) -> Mark {
    if m.esc {
        Mark { esc: false, ..m }
    } else if c == '\\' {
        Mark { esc: true, ..m }
    } else if c == '{' {
        Mark { brace: m.brace + 1, ..m }
    } else if c == '}' {
        Mark {
            brace: if m.brace > 0 {
                (m.brace - 1) as nat
            } else {
                0
            },
            ..m
        }
    } else if c == '[' {
        Mark {
            square: m.square + 1,
            bracket: if m.brace == 0 {
                m.bracket + 1
            } else {
                m.bracket
            },
            ..m
        }
    } else if c == ']' {
        Mark {
            square: if m.square > 0 {
                (m.square - 1) as nat
            } else {
                0
            },
            bracket: if m.brace == 0 {
                m.bracket - 1
            } else {
                m.bracket
            },
            ..m
        }
    } else {
        m
    }
}

/// What is known behind the first `k` characters of a text.
spec fn run(m: Mark, w: Seq<char>, k: int) -> Mark
    decreases k,
{
    if k <= 0 {
        m
    } else {
        step(run(m, w, k - 1), w[k - 1])
    }
}

/// What is known at a place in an argument.
spec fn mark_at(s: Seq<char>, k: int) -> Mark {
    run(start_mark(), s, k)
}

/// Whether a text holds no percent sign.
spec fn uncommented_text(s: Seq<char>) -> bool {
    forall|i: int| 0 <= i < s.len() ==> #[trigger] s[i] != '%'
}

proof fn lemma_mark(s: Seq<char>, k: int)
    requires
        uncommented_text(s),
        0 <= k <= s.len(),
    ensures
        escaped_at(s, k) == mark_at(s, k).esc,
        depth_at(s, k, '{', '}') == mark_at(s, k).brace,
        depth_at(s, k, '[', ']') == mark_at(s, k).square,
        reading_at(s, k) == (if mark_at(s, k).esc {
            Reading::Escaped
        } else {
            Reading::Plain
        }),
        open_braces(s, k) == mark_at(s, k).brace,
        open_brackets(s, k) == mark_at(s, k).bracket,
    decreases k,
{
    if k > 0 {
        lemma_mark(s, k - 1);
        assert(s[k - 1] != '%');
    }
}

/// Whether the argument is closed at `k`.
spec fn closing(s: Seq<char>, k: int) -> bool {
    let m = mark_at(s, k);
    s[k] == ']' && !m.esc && m.brace == 0 && m.bracket == 1
}

/// The first place at which an argument is closed.
proof fn lemma_first_closing(s: Seq<char>, k: int)
    requires
        uncommented_text(s),
        0 <= k <= s.len(),
    ensures
        first_close(s, k) matches Some(c) ==> {
            &&& k <= c < s.len()
            &&& closing(s, c)
            &&& forall|i: int| k <= i < c ==> !#[trigger] closing(s, i)
        },
    decreases s.len() - k,
{
    if k < s.len() {
        lemma_mark(s, k);
        lemma_first_closing(s, k + 1);
    }
}

proof fn lemma_closed_at(s: Seq<char>, k: int, c: int)
    requires
        uncommented_text(s),
        0 <= k <= c < s.len(),
        closing(s, c),
        forall|i: int| k <= i < c ==> !#[trigger] closing(s, i),
    ensures
        first_close(s, k) == Some(c),
    decreases c - k,
{
    lemma_mark(s, k);
    if k < c {
        assert(!closing(s, k));
        lemma_closed_at(s, k + 1, c);
    }
}

/// Whether a comma stands at `k` outside braces and brackets.
spec fn separates(s: Seq<char>, k: int) -> bool {
    let m = mark_at(s, k);
    s[k] == ',' && !m.esc && m.brace == 0 && m.square == 0
}

proof fn lemma_separates(s: Seq<char>, k: int)
    requires
        uncommented_text(s),
        0 <= k < s.len(),
    ensures
        comma_at(s, k) == separates(s, k),
{
    lemma_mark(s, k);
}

/// A part of a text is read as by itself.
proof fn lemma_run_part(s: Seq<char>, a: int, w: Seq<char>, k: int)
    requires
        0 <= a,
        0 <= k <= w.len(),
        a + k <= s.len(),
        forall|i: int| 0 <= i < k ==> #[trigger] w[i] == s[a + i],
    ensures
        mark_at(s, a + k) == run(mark_at(s, a), w, k),
    decreases k,
{
    if k > 0 {
        lemma_run_part(s, a, w, k - 1);
        assert(w[k - 1] == s[a + k - 1]);
    }
}

/// Whitespace that is not escaped changes nothing.
proof fn lemma_mark_white(s: Seq<char>, a: int, b: int)
    requires
        0 <= a <= b <= s.len(),
        !mark_at(s, a).esc,
        forall|i: int| a <= i < b ==> white(#[trigger] s[i]),
    ensures
        mark_at(s, b) == mark_at(s, a),
    decreases b - a,
{
    if a < b {
        lemma_mark_white(s, a, b - 1);
        assert(white(s[b - 1]));
    }
}

/// Whether no backslash of a text directly precedes whitespace.
pub open spec fn clean(s: Seq<char>) -> bool {
    forall|i: int, j: int|
        0 <= i && j == i + 1 && j < s.len() ==> !(#[trigger] s[i] == '\\' && white(#[trigger] s[j]))
}

/// A place behind which whitespace follows is not escaped.
proof fn lemma_not_escaped(s: Seq<char>, k: int)
    requires
        clean(s),
        0 <= k < s.len(),
        white(s[k]),
    ensures
        !mark_at(s, k).esc,
{
    if k > 0 {
        assert(!(s[k - 1] == '\\' && white(s[k])));
    }
}

// ---------------------------------------------------------------------------
// Items of an argument

/// Whether an argument can be spread, and is closed behind its last character.
spec fn ready(s: Seq<char>) -> bool {
    &&& s.len() < usize::MAX
    &&& uncommented_text(s)
    &&& clean(s)
    &&& splits(s)
    &&& first_close(s.push(']'), 0) == Some(s.len() as int)
}

/// Where the piece before comma `j` ends.
spec fn piece_end(s: Seq<char>, j: int) -> int {
    if j < commas(s).len() {
        commas(s)[j] as int
    } else {
        s.len() as int
    }
}

/// The commas of an argument, and the pieces between them.
proof fn lemma_commas(s: Seq<char>, j: int)
    requires
        s.len() <= usize::MAX,
        uncommented_text(s),
        0 <= j <= commas(s).len(),
    ensures
        ascending(commas(s)),
        0 <= piece_start(commas(s), j) <= piece_end(s, j) <= s.len(),
        j < commas(s).len() ==> piece_end(s, j) < s.len() && separates(s, piece_end(s, j)),
        forall|k: int|
            piece_start(commas(s), j) <= k < piece_end(s, j) ==> !#[trigger] separates(s, k),
{
    let cs = commas(s);
    let p: spec_fn(int) -> bool = |k: int| comma_at(s, k);
    lemma_select(p, s.len() as int);
    if j < cs.len() {
        assert(p(cs[j] as int));
        lemma_separates(s, cs[j] as int);
    }
    if 0 < j {
        assert(cs[j - 1] < s.len());
        assert(j < cs.len() ==> cs[j - 1] < cs[j]);
    }
    assert forall|k: int| piece_start(cs, j) <= k < piece_end(s, j) implies !#[trigger] separates(
        s,
        k,
    ) by {
        if separates(s, k) {
            lemma_separates(s, k);
            assert(p(k));
            assert(cs.contains(k as usize));
            let i = choose|i: int| 0 <= i < cs.len() && cs[i] == k as usize;
            if i < j {
                assert(i < j - 1 ==> cs[i] < cs[j - 1]);
            } else {
                assert(i > j ==> cs[j] < cs[i]);
            }
        }
    }
}

/// What is known at the start of the piece before comma `j`.
spec fn piece_mark(s: Seq<char>, j: int) -> Mark {
    mark_at(s, piece_start(commas(s), j))
}

/// Where item `j` starts in its argument.
spec fn item_start(s: Seq<char>, j: int) -> int {
    let ps = piece_start(commas(s), j);
    ps + first_ink(s.subrange(ps, piece_end(s, j)), 0)
}

/// An item of an argument, and what is known around it.
proof fn lemma_item(s: Seq<char>, j: int)
    requires
        ready(s),
        0 <= j < items(s).len(),
    ensures
        ({
            let item = items(s)[j];
            let a = item_start(s, j);
            let n = item.len() as int;
            &&& j <= commas(s).len()
            &&& n > 0
            &&& !white(item[0])
            &&& !white(item[n - 1])
            &&& !item.contains('\n')
            &&& piece_start(commas(s), j) <= a
            &&& a + n <= piece_end(s, j) <= s.len()
            &&& forall|i: int| 0 <= i < n ==> #[trigger] item[i] == s[a + i]
            &&& !piece_mark(s, j).esc
            &&& piece_mark(s, j).brace == 0
            &&& piece_mark(s, j).square == 0
            &&& mark_at(s, a) == piece_mark(s, j)
            &&& mark_at(s, piece_end(s, j)) == run(piece_mark(s, j), item, n)
            &&& !run(piece_mark(s, j), item, n).esc
            &&& j < commas(s).len() ==> piece_mark(s, j + 1) == run(piece_mark(s, j), item, n)
        }),
{
    let cs = commas(s);
    let ps = piece_start(cs, j);
    let pe = piece_end(s, j);
    lemma_commas(s, j);
    let raw = s.subrange(ps, pe);
    let item = items(s)[j];
    assert(!bad_item(items(s)[j]));
    assert(item == trimmed(raw));
    lemma_trimmed(raw);
    let f = first_ink(raw, 0);
    let b = ink_end(raw, f, raw.len() as int);
    let a = ps + f;
    let n = item.len() as int;
    assert forall|i: int| 0 <= i < n implies #[trigger] item[i] == s[a + i] by {
        assert(item[i] == raw[f + i]);
    }
    if j > 0 {
        lemma_commas(s, j - 1);
        assert(separates(s, ps - 1));
        assert(mark_at(s, ps) == step(mark_at(s, ps - 1), s[ps - 1]));
    }
    assert forall|i: int| ps <= i < a implies white(#[trigger] s[i]) by {
        assert(raw[i - ps] == s[i]);
    }
    lemma_mark_white(s, ps, a);
    lemma_run_part(s, a, item, n);
    assert forall|i: int| a + n <= i < pe implies white(#[trigger] s[i]) by {
        assert(raw[i - ps] == s[i]);
    }
    if a + n < pe {
        assert(white(s[a + n]));
        lemma_not_escaped(s, a + n);
        lemma_mark_white(s, a + n, pe);
    }
    if j < cs.len() {
        assert(separates(s, pe));
        assert(mark_at(s, pe + 1) == step(mark_at(s, pe), s[pe]));
        assert(piece_start(cs, j + 1) == pe + 1);
    } else {
        lemma_end_mark(s);
    }
}

/// At the end of an argument nothing is escaped, and no brace is open.
proof fn lemma_end_mark(s: Seq<char>)
    requires
        ready(s),
    ensures
        !mark_at(s, s.len() as int).esc,
        mark_at(s, s.len() as int).brace == 0,
        mark_at(s, s.len() as int).bracket == 1,
        forall|k: int| 0 <= k < s.len() ==> !#[trigger] closing(s, k),
{
    let t = s.push(']');
    let n = s.len() as int;
    lemma_first_closing(t, 0);
    lemma_mark_prefix(s, t, n);
    assert(closing(t, n));
    assert forall|k: int| 0 <= k < n implies !#[trigger] closing(s, k) by {
        lemma_mark_prefix(s, t, k);
        assert(!closing(t, k));
    }
}

proof fn lemma_mark_prefix(s: Seq<char>, t: Seq<char>, k: int)
    requires
        0 <= k <= s.len() <= t.len(),
        forall|i: int| 0 <= i < s.len() ==> #[trigger] t[i] == s[i],
    ensures
        mark_at(s, k) == mark_at(t, k),
    decreases k,
{
    if k > 0 {
        lemma_mark_prefix(s, t, k - 1);
        assert(t[k - 1] == s[k - 1]);
    }
}

// ---------------------------------------------------------------------------
// The spread argument

/// How the items of an argument are spread.
struct Form {
    inner: Seq<char>,
    base: Seq<char>,
    unit: Seq<char>,
}

spec fn form_wf(w: Form) -> bool {
    ready(w.inner) && blank(w.base) && blank(w.unit) && spread_inner(w).len() < usize::MAX
}

spec fn indent_of(w: Form) -> Seq<char> {
    w.base + w.unit
}

spec fn lines_to(w: Form, k: int) -> Seq<char> {
    item_lines(items(w.inner), trailing_comma(w.inner), indent_of(w), seq!['\n'], k)
}

/// What stands between the brackets of a spread argument.
spec fn spread_inner(w: Form) -> Seq<char> {
    seq!['\n'] + lines_to(w, items(w.inner).len() as int) + w.base
}

/// Where the line of item `k` starts.
spec fn off(w: Form, k: int) -> int {
    1 + lines_to(w, k).len() as int
}

/// Where item `k` starts.
spec fn put(w: Form, k: int) -> int {
    off(w, k) + indent_of(w).len()
}

/// The line of item `k`.
spec fn item_line(w: Form, k: int) -> Seq<char> {
    let list = items(w.inner);
    indent_of(w) + list[k] + separator(list, trailing_comma(w.inner), k) + seq!['\n']
}

proof fn lemma_lines_prefix(w: Form, k: int, n: int)
    requires
        0 <= k <= n,
    ensures
        lines_to(w, k).len() <= lines_to(w, n).len(),
        forall|i: int|
            0 <= i < lines_to(w, k).len() ==> #[trigger] lines_to(w, n)[i] == lines_to(w, k)[i],
    decreases n - k,
{
    if k < n {
        lemma_lines_prefix(w, k, n - 1);
        let a = lines_to(w, n - 1);
        let b = lines_to(w, n);
        assert(b =~= a + item_line(w, n - 1));
        assert forall|i: int| 0 <= i < lines_to(w, k).len() implies #[trigger] b[i] == lines_to(
            w,
            k,
        )[i] by {
            assert(b[i] == a[i]);
        }
    }
}

/// Where the line of item `k` stands.
proof fn lemma_line_place(w: Form, k: int)
    requires
        0 <= k < items(w.inner).len(),
    ensures
        ({
            let u = spread_inner(w);
            let line = item_line(w, k);
            &&& off(w, k + 1) == off(w, k) + line.len()
            &&& off(w, k + 1) <= u.len()
            &&& forall|i: int| 0 <= i < line.len() ==> #[trigger] line[i] == u[off(w, k) + i]
        }),
{
    let u = spread_inner(w);
    let line = item_line(w, k);
    let n = items(w.inner).len() as int;
    let a = lines_to(w, k);
    let b = lines_to(w, k + 1);
    let all = lines_to(w, n);
    assert(b =~= a + line);
    lemma_lines_prefix(w, k + 1, n);
    assert forall|i: int| 0 <= i < line.len() implies #[trigger] line[i] == u[off(w, k) + i] by {
        assert(b[a.len() + i] == line[i]);
        assert(all[a.len() + i] == b[a.len() + i]);
        assert(u[1 + (a.len() + i)] == all[a.len() + i]);
    }
}

/// The number of commas of an argument with respect to its items.
proof fn lemma_counts(s: Seq<char>)
    ensures
        trailing_comma(s) ==> items(s).len() == commas(s).len(),
        !trailing_comma(s) ==> items(s).len() == commas(s).len() + 1,
{
}

/// What is known where the line of an item starts, and where the last one ends.
#[verifier::rlimit(20)]
proof fn lemma_line_mark(w: Form, k: int)
    requires
        form_wf(w),
        0 <= k <= items(w.inner).len(),
    ensures
        k <= commas(w.inner).len() ==> mark_at(spread_inner(w), off(w, k)) == piece_mark(
            w.inner,
            k,
        ),
        k > commas(w.inner).len() ==> mark_at(spread_inner(w), off(w, k)) == mark_at(
            w.inner,
            w.inner.len() as int,
        ),
        !mark_at(spread_inner(w), off(w, k)).esc,
    decreases k,
{
    let u = spread_inner(w);
    let s = w.inner;
    let m = commas(s).len() as int;
    lemma_counts(s);
    if k == 0 {
        assert(lines_to(w, 0) =~= seq![]);
        assert(u[0] == '\n');
        assert(mark_at(u, 0) == start_mark());
        assert(mark_at(u, 1) == step(mark_at(u, 0), u[0]));
        assert(piece_start(commas(s), 0) == 0);
    } else {
        lemma_line_mark(w, k - 1);
        lemma_item_marks(w, k - 1, items(s)[k - 1].len() as int);
        lemma_line_place(w, k - 1);
        lemma_item(s, k - 1);
        let j = k - 1;
        let item = items(s)[j];
        let line = item_line(w, j);
        let d = indent_of(w).len() as int;
        let e = put(w, j) + item.len();
        let sep = separator(items(s), trailing_comma(s), j);
        if j < m {
            assert(sep == seq![',']);
            assert(line[d + item.len()] == ',');
            assert(u[e] == ',');
            assert(mark_at(u, e + 1) == step(mark_at(u, e), u[e]));
            assert(line[d + item.len() + 1] == '\n');
            assert(u[e + 1] == '\n');
            assert(mark_at(u, e + 2) == step(mark_at(u, e + 1), u[e + 1]));
            assert(off(w, k) == e + 2);
        } else {
            assert(sep == Seq::<char>::empty());
            assert(line[d + item.len()] == '\n');
            assert(u[e] == '\n');
            assert(mark_at(u, e + 1) == step(mark_at(u, e), u[e]));
            assert(off(w, k) == e + 1);
        }
    }
}

/// What is known in an item.
proof fn lemma_item_marks(w: Form, k: int, i: int)
    requires
        form_wf(w),
        0 <= k < items(w.inner).len(),
        0 <= i <= items(w.inner)[k].len(),
        k <= commas(w.inner).len(),
        mark_at(spread_inner(w), off(w, k)) == piece_mark(w.inner, k),
    ensures
        mark_at(spread_inner(w), put(w, k) + i) == run(
            piece_mark(w.inner, k),
            items(w.inner)[k],
            i,
        ),
        put(w, k) + i <= spread_inner(w).len(),
        forall|x: int| off(w, k) <= x < put(w, k) ==> white(#[trigger] spread_inner(w)[x]),
        forall|x: int|
            0 <= x < items(w.inner)[k].len() ==> #[trigger] items(w.inner)[k][x] == spread_inner(
                w,
            )[put(w, k) + x],
{
    let u = spread_inner(w);
    let item = items(w.inner)[k];
    let line = item_line(w, k);
    let d = indent_of(w).len() as int;
    lemma_line_place(w, k);
    lemma_item(w.inner, k);
    assert forall|x: int| off(w, k) <= x < put(w, k) implies white(#[trigger] u[x]) by {
        let y = x - off(w, k);
        assert(line[y] == indent_of(w)[y]);
        if y < w.base.len() {
            assert(indent_of(w)[y] == w.base[y]);
        } else {
            assert(indent_of(w)[y] == w.unit[y - w.base.len()]);
        }
    }
    lemma_mark_white(u, off(w, k), put(w, k));
    assert forall|x: int| 0 <= x < item.len() implies #[trigger] item[x] == u[put(w, k) + x] by {
        assert(line[d + x] == item[x]);
    }
    lemma_run_part(u, put(w, k), item, i);
}

/// The place of comma `k` in a spread argument.
spec fn comma_put(w: Form, k: int) -> int {
    put(w, k) + items(w.inner)[k].len()
}

/// Commas and closing brackets in the line of an item.
proof fn lemma_line_commas(w: Form, k: int, x: int)
    requires
        form_wf(w),
        0 <= k < items(w.inner).len(),
        off(w, k) <= x < off(w, k + 1),
    ensures
        separates(spread_inner(w), x) <==> k < commas(w.inner).len() && x == comma_put(w, k),
        !closing(spread_inner(w), x),
        spread_inner(w)[x] != '%',
{
    let u = spread_inner(w);
    let s = w.inner;
    let item = items(s)[k];
    let line = item_line(w, k);
    let d = indent_of(w).len() as int;
    let m = commas(s).len() as int;
    let a = item_start(s, k);
    lemma_counts(s);
    lemma_line_mark(w, k);
    lemma_line_place(w, k);
    lemma_item(s, k);
    lemma_item_marks(w, k, item.len() as int);
    if x < put(w, k) {
        assert(white(u[x]));
    } else if x < comma_put(w, k) {
        let i = x - put(w, k);
        lemma_item_marks(w, k, i);
        assert(item[i] == u[put(w, k) + i]);
        assert(item[i] == s[a + i]);
        lemma_run_part(s, a, item, i);
        lemma_commas(s, k);
        assert(!separates(s, a + i));
        lemma_end_mark(s);
        assert(!closing(s, a + i));
        assert(s[a + i] != '%');
    } else {
        let sep = separator(items(s), trailing_comma(s), k);
        let i = x - off(w, k);
        assert(line[i] == u[x]);
        if k < m {
            assert(sep == seq![',']);
            if x == comma_put(w, k) {
                assert(line[i] == ',');
                lemma_commas(s, k);
                assert(separates(s, piece_end(s, k)));
            } else {
                assert(line[i] == '\n');
            }
        } else {
            assert(sep == Seq::<char>::empty());
            assert(line[i] == '\n');
        }
    }
}

/// The line of an item that holds a place.
proof fn lemma_line_of(w: Form, x: int, n: int) -> (k: int)
    requires
        0 <= n <= items(w.inner).len(),
        1 <= x < off(w, n),
    ensures
        0 <= k < n,
        off(w, k) <= x < off(w, k + 1),
    decreases n,
{
    if n == 0 {
        assert(lines_to(w, 0) =~= seq![]);
        0
    } else if off(w, n - 1) <= x {
        n - 1
    } else {
        lemma_line_of(w, x, n - 1)
    }
}

/// Any place of a spread argument.
proof fn lemma_places(w: Form, x: int)
    requires
        form_wf(w),
        0 <= x < spread_inner(w).len(),
    ensures
        separates(spread_inner(w), x) ==> exists|k: int|
            0 <= k < commas(w.inner).len() && x == #[trigger] comma_put(w, k),
        !closing(spread_inner(w), x),
        spread_inner(w)[x] != '%',
{
    let u = spread_inner(w);
    let n = items(w.inner).len() as int;
    let all = lines_to(w, n);
    if x == 0 {
        assert(u[0] == '\n');
    } else if x < off(w, n) {
        let k = lemma_line_of(w, x, n);
        lemma_line_commas(w, k, x);
    } else {
        assert(u[x] == w.base[x - off(w, n)]);
        assert(white(u[x]));
    }
}

/// The commas of a spread argument are those of the argument.
spec fn comma_puts(w: Form) -> Seq<usize> {
    Seq::new(commas(w.inner).len(), |k: int| comma_put(w, k) as usize)
}

proof fn lemma_comma_place(w: Form, k: int)
    requires
        form_wf(w),
        0 <= k < commas(w.inner).len(),
    ensures
        off(w, k) <= comma_put(w, k) == off(w, k + 1) - 2,
        comma_put(w, k) < spread_inner(w).len(),
        separates(spread_inner(w), comma_put(w, k)),
{
    lemma_counts(w.inner);
    lemma_line_place(w, k);
    let sep = separator(items(w.inner), trailing_comma(w.inner), k);
    assert(sep == seq![',']);
    lemma_line_commas(w, k, comma_put(w, k));
}

proof fn lemma_off_ascends(w: Form, j: int, k: int)
    requires
        0 <= j <= k <= items(w.inner).len(),
    ensures
        off(w, j) <= off(w, k),
{
    lemma_lines_prefix(w, j, k);
}

proof fn lemma_spread_commas(w: Form)
    requires
        form_wf(w),
    ensures
        commas(spread_inner(w)) == comma_puts(w),
        uncommented_text(spread_inner(w)),
{
    let u = spread_inner(w);
    let p: spec_fn(int) -> bool = |k: int| comma_at(u, k);
    let cs = commas(u);
    let ps = comma_puts(w);
    lemma_counts(w.inner);
    assert forall|i: int| 0 <= i < u.len() implies #[trigger] u[i] != '%' by {
        lemma_places(w, i);
    }
    lemma_select(p, u.len() as int);
    assert forall|i: int, j: int| 0 <= i < j < ps.len() implies ps[i] < ps[j] by {
        lemma_comma_place(w, i);
        lemma_comma_place(w, j);
        lemma_off_ascends(w, i + 1, j);
    }
    assert forall|x: usize| cs.contains(x) <==> ps.contains(x) by {
        if cs.contains(x) {
            let i = choose|i: int| 0 <= i < cs.len() && cs[i] == x;
            assert(cs[i] < u.len());
            assert(p(cs[i] as int));
            lemma_separates(u, x as int);
            lemma_places(w, x as int);
            let k = choose|k: int|
                0 <= k < commas(w.inner).len() && x == #[trigger] comma_put(w, k);
            assert(ps[k] == x);
        }
        if ps.contains(x) {
            let k = choose|k: int| 0 <= k < ps.len() && ps[k] == x;
            lemma_comma_place(w, k);
            lemma_separates(u, x as int);
            assert(p(x as int));
        }
    }
    lemma_ascending_unique(cs, ps);
}

/// Where the piece before comma `j` starts in a spread argument.
proof fn lemma_piece_place(w: Form, j: int)
    requires
        form_wf(w),
        0 <= j <= commas(w.inner).len(),
    ensures
        piece_start(comma_puts(w), j) == off(w, j) - 1,
        0 <= off(w, j) - 1 < spread_inner(w).len(),
        spread_inner(w)[off(w, j) - 1] == '\n',
{
    lemma_counts(w.inner);
    if j > 0 {
        lemma_comma_place(w, j - 1);
        lemma_line_place(w, j - 1);
        let line = item_line(w, j - 1);
        assert(line[line.len() - 1] == '\n');
    } else {
        assert(lines_to(w, 0) =~= seq![]);
    }
}

/// Behind an item that no comma follows comes whitespace alone.
proof fn lemma_last_item(w: Form, x: int)
    requires
        form_wf(w),
        items(w.inner).len() == commas(w.inner).len() + 1,
        comma_put(w, commas(w.inner).len() as int) <= x < spread_inner(w).len(),
    ensures
        white(spread_inner(w)[x]),
{
    let u = spread_inner(w);
    let s = w.inner;
    let j = commas(s).len() as int;
    let n = items(s).len() as int;
    let line = item_line(w, j);
    let at = indent_of(w).len() + items(s)[j].len();
    lemma_counts(s);
    lemma_line_place(w, j);
    assert(separator(items(s), trailing_comma(s), j) == Seq::<char>::empty());
    if x == comma_put(w, j) {
        assert(line[at as int] == '\n');
        assert(line[at as int] == u[off(w, j) + at]);
    } else {
        assert(off(w, n) == comma_put(w, j) + 1);
        assert(u[x] == w.base[x - off(w, n)]);
    }
}

/// The pieces of a spread argument are the items of the argument.
#[verifier::rlimit(20)]
proof fn lemma_spread_piece(w: Form, j: int)
    requires
        form_wf(w),
        0 <= j <= commas(w.inner).len(),
        j < items(w.inner).len(),
    ensures
        piece(spread_inner(w), comma_puts(w), j) == items(w.inner)[j],
{
    let u = spread_inner(w);
    let s = w.inner;
    let ps = comma_puts(w);
    let m = commas(s).len() as int;
    let item = items(s)[j];
    lemma_counts(s);
    lemma_piece_place(w, j);
    lemma_item(s, j);
    lemma_line_mark(w, j);
    lemma_item_marks(w, j, item.len() as int);
    let start = off(w, j) - 1;
    let a = put(w, j);
    let b = comma_put(w, j);
    let end = if j < m {
        ps[j] as int
    } else {
        u.len() as int
    };
    if j < m {
        lemma_comma_place(w, j);
    }
    let raw = u.subrange(start, end);
    let front = raw.subrange(0, a - start);
    assert forall|x: int| 0 <= x < front.len() implies white(#[trigger] front[x]) by {
        assert(front[x] == u[start + x]);
    }
    let back = raw.subrange(b - start, raw.len() as int);
    assert forall|x: int| 0 <= x < back.len() implies white(#[trigger] back[x]) by {
        assert(back[x] == u[b + x]);
        lemma_last_item(w, b + x);
    }
    assert(item[0] == u[a + 0]);
    assert(item[item.len() - 1] == u[a + (item.len() - 1)]);
    assert(raw.subrange(a - start, b - start) =~= item);
    lemma_trimmed_unique(raw, a - start, b - start);
    assert(piece(u, ps, j) == trimmed(raw));
}

/// Behind a trailing comma a spread argument is blank.
proof fn lemma_spread_tail(w: Form)
    requires
        form_wf(w),
        trailing_comma(w.inner),
    ensures
        piece(spread_inner(w), comma_puts(w), commas(w.inner).len() as int).len() == 0,
{
    let u = spread_inner(w);
    let n = items(w.inner).len() as int;
    lemma_counts(w.inner);
    lemma_piece_place(w, n);
    let raw = u.subrange(off(w, n) - 1, u.len() as int);
    assert forall|x: int| 0 <= x < raw.len() implies white(#[trigger] raw[x]) by {
        assert(raw[x] == u[off(w, n) - 1 + x]);
        if x > 0 {
            assert(u[off(w, n) - 1 + x] == w.base[x - 1]);
        }
    }
    lemma_trimmed(raw);
}

/// A spread argument has the items of the argument, and is closed where it
/// ends.
proof fn lemma_respread(w: Form)
    requires
        form_wf(w),
    ensures
        splits(spread_inner(w)),
        items(spread_inner(w)) == items(w.inner),
        trailing_comma(spread_inner(w)) == trailing_comma(w.inner),
        first_close(spread_inner(w).push(']'), 0) == Some(spread_inner(w).len() as int),
        spread_inner(w).contains('\n'),
{
    let u = spread_inner(w);
    let s = w.inner;
    let m = commas(s).len() as int;
    let n = items(s).len() as int;
    lemma_spread_commas(w);
    lemma_counts(s);
    lemma_counts(u);
    if m < n {
        lemma_spread_piece(w, m);
        lemma_item(s, m);
    } else {
        lemma_spread_tail(w);
    }
    assert(trailing_comma(u) == trailing_comma(s));
    assert forall|j: int| 0 <= j < n implies #[trigger] items(u)[j] == items(s)[j] by {
        lemma_spread_piece(w, j);
    }
    assert(items(u) =~= items(s));
    assert(!has_comment(u)) by {
        if has_comment(u) {
            let k = choose|k: int| 0 <= k < u.len() && u[k] == '%' && !#[trigger] escaped_at(u, k);
            assert(u[k] != '%');
        }
    }
    assert(splits(u)) by {
        assert forall|j: int| 0 <= j < items(u).len() implies !bad_item(#[trigger] items(u)[j]) by {
            assert(!bad_item(items(s)[j]));
        }
    }
    assert(u[0] == '\n');
    // The end.
    lemma_line_mark(w, n);
    let t = u.push(']');
    let e = u.len() as int;
    assert forall|x: int| off(w, n) <= x < e implies white(#[trigger] u[x]) by {
        assert(u[x] == w.base[x - off(w, n)]);
    }
    lemma_mark_white(u, off(w, n), e);
    lemma_end_mark(s);
    if trailing_comma(s) {
        lemma_commas(s, m);
        lemma_tail_mark(s);
    }
    lemma_mark_prefix(u, t, e);
    assert(closing(t, e));
    assert forall|x: int| 0 <= x < e implies !#[trigger] closing(t, x) by {
        lemma_places(w, x);
        lemma_mark_prefix(u, t, x);
        assert(t[x] == u[x]);
    }
    assert(uncommented_text(t));
    lemma_closed_at(t, 0, e);
}

/// Behind a trailing comma nothing changes.
proof fn lemma_tail_mark(s: Seq<char>)
    requires
        ready(s),
        trailing_comma(s),
    ensures
        mark_at(s, s.len() as int) == piece_mark(s, commas(s).len() as int),
{
    let m = commas(s).len() as int;
    let ps = piece_start(commas(s), m);
    let n = s.len() as int;
    lemma_commas(s, m);
    let raw = s.subrange(ps, n);
    lemma_trimmed(raw);
    assert(piece(s, commas(s), m) == trimmed(raw));
    assert forall|x: int| ps <= x < n implies white(#[trigger] s[x]) by {
        assert(raw[x - ps] == s[x]);
    }
    if ps < n {
        assert(white(s[ps]));
        lemma_not_escaped(s, ps);
        lemma_mark_white(s, ps, n);
    }
}

// ---------------------------------------------------------------------------
// Places in a text

/// What is read depends on what stands before.
proof fn lemma_reading_prefix(s: Seq<char>, u: Seq<char>, k: int)
    requires
        0 <= k <= s.len(),
        k <= u.len(),
        forall|i: int| 0 <= i < k ==> #[trigger] s[i] == u[i],
    ensures
        reading_at(s, k) == reading_at(u, k),
        open_braces(s, k) == open_braces(u, k),
        open_brackets(s, k) == open_brackets(u, k),
    decreases k,
{
    if k > 0 {
        lemma_reading_prefix(s, u, k - 1);
        assert(s[k - 1] == u[k - 1]);
    }
}

/// Where an argument is closed depends on what stands before.
proof fn lemma_same_close(s: Seq<char>, u: Seq<char>, k: int, c: int)
    requires
        0 <= k <= s.len(),
        first_close(s, k) == Some(c),
        c < u.len(),
        forall|i: int| 0 <= i <= c ==> #[trigger] s[i] == u[i],
    ensures
        first_close(u, k) == Some(c),
    decreases s.len() - k,
{
    lemma_first_close(s, k);
    lemma_first_close(s, k + 1);
    lemma_reading_prefix(s, u, k);
    assert(s[k] == u[k]);
    if k < c {
        lemma_same_close(s, u, k + 1, c);
    }
}

/// A line starts behind every line feed before it.
proof fn lemma_line_behind(s: Seq<char>, y: int, i: int)
    requires
        0 <= y < i <= s.len(),
        s[y] == '\n',
    ensures
        line_start(s, i) > y,
    decreases i,
{
    if s[i - 1] != '\n' {
        lemma_line_behind(s, y, i - 1);
    }
}

/// A line takes in everything up to the line feed before it.
proof fn lemma_line_reaches(s: Seq<char>, z: int, i: int)
    requires
        0 <= z <= i <= s.len(),
        forall|k: int| z <= k < i ==> #[trigger] s[k] != '\n',
    ensures
        line_start(s, i) <= z,
    decreases i,
{
    lemma_line_start(s, i);
    if z < i {
        assert(s[i - 1] != '\n');
        lemma_line_reaches(s, z, i - 1);
    }
}

/// Where lines start in two texts of which one copies the other.
proof fn lemma_lines_alike(f: Seq<char>, p: int, t: Seq<char>, cursor: int, i: int)
    requires
        0 <= p,
        0 <= cursor,
        0 <= i,
        p + i <= f.len(),
        cursor + i <= t.len(),
        forall|k: int| 0 <= k < i ==> f[p + k] == #[trigger] t[cursor + k],
    ensures
        ({
            ||| line_start(t, cursor + i) == line_start(t, cursor) && line_start(f, p + i)
                == line_start(f, p)
            ||| line_start(t, cursor + i) > cursor && line_start(f, p + i) - p == line_start(
                t,
                cursor + i,
            ) - cursor
        }),
    decreases i,
{
    if i > 0 {
        assert(f[p + (i - 1)] == t[cursor + (i - 1)]);
        if t[cursor + (i - 1)] != '\n' {
            lemma_lines_alike(f, p, t, cursor, i - 1);
        }
    }
}

/// The next bracket in a copy of a text.
proof fn lemma_next_alike(f: Seq<char>, p: int, t: Seq<char>, cursor: int)
    requires
        0 <= p,
        0 <= cursor <= t.len(),
        p + (next_open(t, cursor) - cursor) <= f.len(),
        forall|k: int|
            cursor <= k < next_open(t, cursor) ==> f[p + (k - cursor)] == #[trigger] t[k],
        next_open(t, cursor) < t.len() ==> p + (next_open(t, cursor) - cursor) < f.len() && f[p
            + (next_open(t, cursor) - cursor)] == '[',
        next_open(t, cursor) == t.len() ==> p + (next_open(t, cursor) - cursor) == f.len(),
    ensures
        next_open(f, p) == p + (next_open(t, cursor) - cursor),
    decreases t.len() - cursor,
{
    lemma_next_open(t, cursor);
    if cursor < t.len() && t[cursor] != '[' {
        assert(f[p + (cursor - cursor)] == t[cursor]);
        assert forall|k: int| cursor + 1 <= k < next_open(t, cursor + 1) implies f[p + 1 + (k - (
        cursor + 1))] == #[trigger] t[k] by {
            assert(f[p + (k - cursor)] == t[k]);
        }
        lemma_next_alike(f, p + 1, t, cursor + 1);
    }
}

// ---------------------------------------------------------------------------
// Items that span lines

/// The piece of an argument that holds a place.
proof fn lemma_piece_of(s: Seq<char>, x: int, j: int) -> (i: int)
    requires
        s.len() <= usize::MAX,
        0 <= j <= commas(s).len(),
        0 <= x < piece_end(s, j),
        s[x] != ',',
    ensures
        0 <= i <= j,
        0 <= piece_start(commas(s), i) <= x < piece_end(s, i) <= s.len(),
    decreases j,
{
    let cs = commas(s);
    let p: spec_fn(int) -> bool = |k: int| comma_at(s, k);
    lemma_select(p, s.len() as int);
    if j < cs.len() {
        assert(cs[j] < s.len());
    }
    if piece_start(cs, j) <= x {
        j
    } else {
        assert(p(cs[j - 1] as int));
        lemma_piece_of(s, x, j - 1)
    }
}

/// An argument cannot be split if a line ends behind a bracket in an item.
proof fn lemma_no_split(s: Seq<char>, d: int, e: int)
    requires
        s.len() <= usize::MAX,
        0 <= d,
        d + 1 < e < s.len(),
        s[d] == '[',
        s[d + 1] == '\n',
        !white(s[e]),
        forall|k: int| d <= k <= e ==> #[trigger] s[k] != ',',
    ensures
        !splits(s),
{
    let cs = commas(s);
    let p: spec_fn(int) -> bool = |k: int| comma_at(s, k);
    lemma_select(p, s.len() as int);
    let j = lemma_piece_of(s, d, cs.len() as int);
    let ps = piece_start(cs, j);
    let pe = piece_end(s, j);
    if j < cs.len() {
        assert(p(cs[j] as int));
        assert(s[pe] == ',');
    }
    assert(e < pe);
    let raw = s.subrange(ps, pe);
    lemma_trimmed(raw);
    let a = first_ink(raw, 0);
    let b = ink_end(raw, a, raw.len() as int);
    assert(raw[d - ps] == s[d]);
    assert(raw[e - ps] == s[e]);
    let item = piece(s, cs, j);
    assert(item == trimmed(raw));
    assert(a <= d - ps && e - ps < b);
    assert(item[d + 1 - ps - a] == raw[d + 1 - ps]);
    assert(item.contains('\n'));
    assert(j < items(s).len());
    assert(bad_item(items(s)[j]));
}

// ---------------------------------------------------------------------------
// Copied text

/// What a bracket opens depends on its line.
proof fn lemma_opens_alike(f: Seq<char>, a: int, y: int)
    requires
        0 <= line_start(f, y) <= a <= y <= f.len(),
        forall|k: int| line_start(f, y) <= k < a ==> white(#[trigger] f[k]),
        a < y ==> !white(f[a]),
    ensures
        trimmed_start(line_prefix(f, y)) == f.subrange(a, y),
{
    let lp = line_prefix(f, y);
    let ls = line_start(f, y);
    lemma_first_ink(lp, 0);
    let i = first_ink(lp, 0);
    if i < a - ls {
        assert(lp[i] == f[ls + i]);
    }
    if i > a - ls {
        assert(lp[a - ls] == f[a]);
    }
    assert(lp.subrange(i, lp.len() as int) =~= f.subrange(a, y));
}

/// Nothing opens an argument on a line that starts with a closing bracket.
proof fn lemma_closed_line(f: Seq<char>, a: int, y: int)
    requires
        0 <= line_start(f, y) <= a < y <= f.len(),
        forall|k: int| line_start(f, y) <= k < a ==> white(#[trigger] f[k]),
        f[a] == ']',
    ensures
        !opens_argument(f, y),
{
    reveal_strlit("\\");
    lemma_opens_alike(f, a, y);
    let prefix = f.subrange(a, y);
    assert(prefix[0] == ']');
    if begins_with(prefix, "\\"@) {
        assert(prefix.subrange(0, 1)[0] == "\\"@[0]);
    }
}

/// The item that holds a bracket of a spread argument.
proof fn lemma_item_of(w: Form, x: int) -> (k: int)
    requires
        form_wf(w),
        0 <= x < spread_inner(w).len(),
        spread_inner(w)[x] == '[',
    ensures
        0 <= k < items(w.inner).len(),
        put(w, k) <= x < put(w, k) + items(w.inner)[k].len() <= spread_inner(w).len(),
{
    let u = spread_inner(w);
    let s = w.inner;
    let n = items(s).len() as int;
    assert(u[0] == '\n');
    if x >= off(w, n) {
        assert(u[x] == w.base[x - off(w, n)]);
        assert(white('[') == false);
    }
    let k = lemma_line_of(w, x, n);
    let line = item_line(w, k);
    lemma_counts(s);
    lemma_item(s, k);
    lemma_line_mark(w, k);
    lemma_item_marks(w, k, items(s)[k].len() as int);
    lemma_line_place(w, k);
    assert(line[x - off(w, k)] == u[off(w, k) + (x - off(w, k))]);
    k
}

/// Item `k` of a spread argument, and the whitespace before it.
proof fn lemma_item_place(w: Form, k: int)
    requires
        form_wf(w),
        0 <= k < items(w.inner).len(),
    ensures
        0 < off(w, k) <= put(w, k),
        put(w, k) + items(w.inner)[k].len() <= spread_inner(w).len(),
        spread_inner(w)[off(w, k) - 1] == '\n',
        forall|x: int| off(w, k) <= x < put(w, k) ==> white(#[trigger] spread_inner(w)[x]),
        spread_inner(w).subrange(put(w, k), put(w, k) + items(w.inner)[k].len()) == items(
            w.inner,
        )[k],
        items(w.inner)[k].len() > 0,
        !white(items(w.inner)[k][0]),
        forall|i: int| 0 <= i < items(w.inner)[k].len() ==> #[trigger] items(w.inner)[k][i] != '\n',
{
    let u = spread_inner(w);
    let item = items(w.inner)[k];
    lemma_counts(w.inner);
    lemma_item(w.inner, k);
    lemma_line_mark(w, k);
    lemma_item_marks(w, k, item.len() as int);
    lemma_item_line_start(w, k);
    assert forall|i: int| 0 <= i < item.len() implies #[trigger] item[i] != '\n' by {
        assert(item.contains(item[i]));
    }
    assert(u.subrange(put(w, k), put(w, k) + item.len()) =~= item);
}

/// An item that starts a line opens the same arguments as alone.
proof fn lemma_opens_in_item(f: Seq<char>, b: int, a: int, item: Seq<char>, i: int)
    requires
        0 <= b < a <= a + item.len() <= f.len(),
        f[b] == '\n',
        forall|k: int| b < k < a ==> white(#[trigger] f[k]),
        f.subrange(a, a + item.len()) == item,
        0 <= i < item.len(),
        !white(item[0]),
        forall|k: int| 0 <= k < item.len() ==> #[trigger] item[k] != '\n',
    ensures
        opens_argument(f, a + i) == opens_argument(item, i),
{
    let y = a + i;
    assert forall|k: int| a <= k < y implies #[trigger] f[k] != '\n' by {
        assert(item[k - a] == f[k]);
    }
    assert(item[0] == f[a]);
    lemma_line_behind(f, b, y);
    lemma_line_reaches(f, a, y);
    lemma_opens_alike(f, a, y);
    lemma_line_start(item, i);
    lemma_line_reaches(item, 0, i);
    lemma_opens_alike(item, 0, i);
    assert(f.subrange(a, y) =~= item.subrange(0, i));
}

/// The line of an item starts behind a line feed.
proof fn lemma_item_line_start(w: Form, k: int)
    requires
        0 <= k <= items(w.inner).len(),
    ensures
        0 < off(w, k) <= spread_inner(w).len(),
        spread_inner(w)[off(w, k) - 1] == '\n',
{
    let u = spread_inner(w);
    if k > 0 {
        lemma_line_place(w, k - 1);
        let line = item_line(w, k - 1);
        assert(line[line.len() - 1] == '\n');
        assert(line[line.len() - 1] == u[off(w, k - 1) + (line.len() - 1)]);
    } else {
        assert(lines_to(w, 0) =~= seq![]);
        assert(u[0] == '\n');
    }
}

/// A stretch in which no argument is spread is copied.
proof fn lemma_stretch(f: Seq<char>, unit: Seq<char>, from: int, to: int)
    requires
        0 <= from <= to <= f.len(),
        forall|y: int|
            from <= y < to && f[y] == '[' ==> #[trigger] argument_end(f, seq![], y) is None,
    ensures
        formatted_from(f, seq![], unit, seq!['\n'], from) == f.subrange(from, to)
            + formatted_from(f, seq![], unit, seq!['\n'], to),
    decreases f.len() - from,
{
    let n = f.len() as int;
    let rest = formatted_from(f, seq![], unit, seq!['\n'], to);
    if from == to {
        assert(f.subrange(from, to) + rest =~= rest);
    } else {
        lemma_next_open(f, from);
        let open = next_open(f, from);
        if open < to {
            assert(argument_end(f, seq![], open) is None);
            lemma_stretch(f, unit, open + 1, to);
            assert(f.subrange(from, open + 1) + (f.subrange(open + 1, to) + rest) =~= f.subrange(
                from,
                to,
            ) + rest);
        } else {
            lemma_open_from(f, from, to);
            if to == n {
                assert(f.subrange(from, to) + rest =~= f.subrange(from, n));
            } else if open < n {
                lemma_close_of(f, open);
                match argument_end(f, seq![], open) {
                    Some(close) => {
                        let sp = spread(
                            f.subrange(open + 1, close),
                            base_indent(f, open),
                            unit,
                            seq!['\n'],
                        );
                        let z = formatted_from(f, seq![], unit, seq!['\n'], close + 1);
                        assert(f.subrange(from, open) + sp + z =~= f.subrange(from, to) + (
                        f.subrange(to, open) + sp + z));
                    },
                    None => {
                        let z = formatted_from(f, seq![], unit, seq!['\n'], open + 1);
                        assert(f.subrange(from, open + 1) + z =~= f.subrange(from, to) + (
                        f.subrange(to, open + 1) + z));
                    },
                }
            } else {
                assert(f.subrange(from, to) + f.subrange(to, n) =~= f.subrange(from, n));
            }
        }
    }
}

/// The next bracket is the same from every place before it.
proof fn lemma_open_from(f: Seq<char>, from: int, to: int)
    requires
        0 <= from <= to <= next_open(f, from),
        to <= f.len(),
    ensures
        next_open(f, to) == next_open(f, from),
    decreases to - from,
{
    if from < to {
        lemma_open_from(f, from + 1, to);
    }
}

// ---------------------------------------------------------------------------
// Formatting twice

/// How the argument at `open` is spread.
spec fn form_at(t: Seq<char>, unit: Seq<char>, open: int, close: int) -> Form {
    Form { inner: t.subrange(open + 1, close), base: base_indent(t, open), unit }
}

proof fn lemma_form_at(t: Seq<char>, unit: Seq<char>, open: int, close: int)
    requires
        t.len() <= usize::MAX,
        uncommented_text(t),
        clean(t),
        blank(unit),
        0 <= open < t.len(),
        argument_end(t, seq![], open) == Some(close),
        spread_inner(form_at(t, unit, open, close)).len() < usize::MAX,
    ensures
        form_wf(form_at(t, unit, open, close)),
        open < close < t.len(),
        t[close] == ']',
        spread(t.subrange(open + 1, close), base_indent(t, open), unit, seq!['\n']) == seq!['[']
            + spread_inner(form_at(t, unit, open, close)) + seq![']'],
{
    let w = form_at(t, unit, open, close);
    let inner = w.inner;
    lemma_close_of(t, open);
    lemma_line_start(t, open);
    lemma_first_ink(line_prefix(t, open), 0);
    let rest = t.subrange(open + 1, t.len() as int);
    let short = inner.push(']');
    assert forall|i: int| 0 <= i <= inner.len() implies #[trigger] rest[i] == short[i] by {
        assert(rest[i] == t[open + 1 + i]);
    }
    lemma_same_close(rest, short, 0, inner.len() as int);
    assert forall|i: int| 0 <= i < inner.len() implies #[trigger] inner[i] != '%' by {
        assert(inner[i] == t[open + 1 + i]);
    }
    assert forall|i: int, j: int| 0 <= i && j == i + 1 && j < inner.len() implies !(
    #[trigger] inner[i] == '\\' && white(#[trigger] inner[j])) by {
        assert(inner[i] == t[open + 1 + i]);
        assert(inner[j] == t[open + 1 + j]);
    }
    assert(spread(inner, w.base, unit, seq!['\n']) =~= seq!['['] + spread_inner(w) + seq![']']);
}

/// The first item of a spread argument.
proof fn lemma_spread_head(w: Form)
    requires
        form_wf(w),
    ensures
        0 < put(w, 0) < spread_inner(w).len(),
        spread_inner(w)[0] == '\n',
        forall|x: int| 0 <= x < put(w, 0) ==> white(#[trigger] spread_inner(w)[x]),
        !white(spread_inner(w)[put(w, 0)]),
        spread_inner(w)[put(w, 0)] != ',',
        spread_inner(w)[put(w, 0)] != ']',
{
    let u = spread_inner(w);
    let s = w.inner;
    let item = items(s)[0];
    let a = item_start(s, 0);
    lemma_counts(s);
    lemma_item(s, 0);
    lemma_line_mark(w, 0);
    lemma_item_marks(w, 0, item.len() as int);
    assert(lines_to(w, 0) =~= seq![]);
    assert(u[0] == '\n');
    assert(item[0] == u[put(w, 0) + 0]);
    assert(item[0] == s[a + 0]);
    lemma_commas(s, 0);
    assert(!separates(s, a));
    lemma_end_mark(s);
    assert(!closing(s, a));
    assert(mark_at(s, 0) == start_mark());
}

/// Whether a text copies another from `cursor` on up to place `d`, where a line
/// feed and whitespace, up to an item at `e`, follow a bracket.
spec fn copies_to(g: Seq<char>, t: Seq<char>, cursor: int, d: int, e: int) -> bool {
    &&& 0 <= d
    &&& cursor + d < t.len()
    &&& d + 1 < e < g.len()
    &&& forall|i: int| 0 <= i < d ==> #[trigger] g[i] == t[cursor + i]
    &&& g[d] == '['
    &&& g[d + 1] == '\n'
    &&& forall|i: int| d < i < e ==> white(#[trigger] g[i])
    &&& !white(g[e])
    &&& g[e] != ','
    &&& g[e] != ']'
}

/// A spread argument behind a copy.
proof fn lemma_copies_here(
    t: Seq<char>,
    cursor: int,
    open: int,
    w: Form,
    g: Seq<char>,
    rest: Seq<char>,
)
    requires
        form_wf(w),
        0 <= cursor <= open < t.len(),
        g == t.subrange(cursor, open) + (seq!['['] + spread_inner(w) + seq![']']) + rest,
    ensures
        copies_to(g, t, cursor, open - cursor, open - cursor + 1 + put(w, 0)),
{
    let u = spread_inner(w);
    let head = t.subrange(cursor, open);
    let d = open - cursor;
    let e = d + 1 + put(w, 0);
    lemma_spread_head(w);
    assert(g.subrange(0, g.len() as int) =~= g);
    lemma_spread_place(g, 0, head, u, rest);
    assert forall|i: int| 0 <= i < d implies #[trigger] g[i] == t[cursor + i] by {
        assert(g.subrange(0, d)[i] == head[i]);
    }
    assert forall|x: int| 0 <= x < u.len() implies g[d + 1 + x] == #[trigger] u[x] by {
        assert(g.subrange(d + 1, d + 1 + u.len())[x] == u[x]);
    }
    assert(g[d + 1 + 0] == u[0]);
    assert(g[d + 1 + put(w, 0)] == u[put(w, 0)]);
    assert forall|i: int| d < i < e implies white(#[trigger] g[i]) by {
        assert(g[d + 1 + (i - d - 1)] == u[i - d - 1]);
    }
}

/// A copy behind a copy.
proof fn lemma_copies_later(
    t: Seq<char>,
    cursor: int,
    open: int,
    rest: Seq<char>,
    d: int,
    e: int,
)
    requires
        0 <= cursor <= open < t.len(),
        copies_to(rest, t, open + 1, d, e),
    ensures
        copies_to(
            t.subrange(cursor, open + 1) + rest,
            t,
            cursor,
            d + (open + 1 - cursor),
            e + (open + 1 - cursor),
        ),
{
    let k = open + 1 - cursor;
    let g = t.subrange(cursor, open + 1) + rest;
    assert forall|i: int| 0 <= i < d + k implies #[trigger] g[i] == t[cursor + i] by {
        if i >= k {
            assert(rest[i - k] == t[open + 1 + (i - k)]);
        }
    }
    assert(g[d + k] == rest[d]);
    assert(g[d + k + 1] == rest[d + 1]);
    assert(g[e + k] == rest[e]);
    assert forall|i: int| d + k < i < e + k implies white(#[trigger] g[i]) by {
        assert(g[i] == rest[i - k]);
    }
}

/// What is formatted starts with a copy, up to the first argument that is
/// spread.
proof fn lemma_first_spread(t: Seq<char>, unit: Seq<char>, cursor: int) -> (place: (int, int))
    requires
        t.len() <= usize::MAX,
        uncommented_text(t),
        clean(t),
        blank(unit),
        0 <= cursor <= t.len(),
        formatted_from(t, seq![], unit, seq!['\n'], cursor).len() <= usize::MAX,
    ensures
        ({
            let g = formatted_from(t, seq![], unit, seq!['\n'], cursor);
            g == t.subrange(cursor, t.len() as int) || copies_to(g, t, cursor, place.0, place.1)
        }),
    decreases t.len() - cursor,
{
    let n = t.len() as int;
    let g = formatted_from(t, seq![], unit, seq!['\n'], cursor);
    lemma_next_open(t, cursor);
    let open = next_open(t, cursor);
    if cursor == n {
        assert(g =~= t.subrange(cursor, n));
        (0, 0)
    } else if open == n {
        (0, 0)
    } else {
        lemma_close_of(t, open);
        match argument_end(t, seq![], open) {
            Some(close) => {
                let w = form_at(t, unit, open, close);
                let rest = formatted_from(t, seq![], unit, seq!['\n'], close + 1);
                let sp = spread(w.inner, w.base, unit, seq!['\n']);
                assert(sp =~= seq!['['] + spread_inner(w) + seq![']']);
                assert(g == t.subrange(cursor, open) + sp + rest);
                lemma_form_at(t, unit, open, close);
                lemma_copies_here(t, cursor, open, w, g, rest);
                (open - cursor, open - cursor + 1 + put(w, 0))
            },
            None => {
                let (d, e) = lemma_first_spread(t, unit, open + 1);
                let rest = formatted_from(t, seq![], unit, seq!['\n'], open + 1);
                assert(g == t.subrange(cursor, open + 1) + rest);
                if rest == t.subrange(open + 1, n) {
                    assert(g =~= t.subrange(cursor, n));
                } else {
                    lemma_copies_later(t, cursor, open, rest, d, e);
                }
                (d + (open + 1 - cursor), e + (open + 1 - cursor))
            },
        }
    }
}

/// A bracket that opens no argument to be spread opens none in what is
/// formatted either.
proof fn lemma_still_none(t: Seq<char>, f: Seq<char>, unit: Seq<char>, open: int, y: int)
    requires
        t.len() <= usize::MAX,
        f.len() <= usize::MAX,
        uncommented_text(t),
        clean(t),
        blank(unit),
        0 <= open < t.len(),
        0 <= y < f.len(),
        f.subrange(y + 1, f.len() as int) == formatted_from(t, seq![], unit, seq!['\n'], open + 1),
        line_prefix(f, y) == line_prefix(t, open),
        argument_end(t, seq![], open) is None,
    ensures
        argument_end(f, seq![], y) is None,
{
    if argument_end(f, seq![], y) is Some {
        let g = f.subrange(y + 1, f.len() as int);
        let rest = t.subrange(open + 1, t.len() as int);
        let close = argument_end(f, seq![], y)->0;
        let k = first_close(g, 0)->0;
        assert(close == y + 1 + k);
        lemma_first_close(g, 0);
        let inner = f.subrange(y + 1, close);
        assert(inner =~= g.subrange(0, k));
        let (d, e) = lemma_first_spread(t, unit, open + 1);
        if g == rest || k < d {
            if g != rest {
                assert forall|i: int| 0 <= i <= k implies #[trigger] g[i] == rest[i] by {
                    assert(g[i] == t[open + 1 + i]);
                }
            }
            lemma_same_close(g, rest, 0, k);
            assert(close_of(t, open) == Some(open + 1 + k));
            assert(t.subrange(open + 1, open + 1 + k) =~= rest.subrange(0, k));
            assert(rest.subrange(0, k) =~= inner);
            assert(!overlaps(Seq::<(int, int)>::empty(), open, open + 1 + k));
            assert(rewrites(t, seq![], open, open + 1 + k));
        } else {
            assert(k > e);
            assert(inner[d] == g[d] && inner[d + 1] == g[d + 1] && inner[e] == g[e]);
            assert forall|i: int| d <= i <= e implies #[trigger] inner[i] != ',' by {
                assert(inner[i] == g[i]);
            }
            lemma_no_split(inner, d, e);
        }
    }
}

/// Whether place `p` of a text stands on a line like that of place `cursor` of
/// another, or on one that the closing bracket at `a` starts.
spec fn in_step(t: Seq<char>, cursor: int, f: Seq<char>, p: int, a: int) -> bool {
    ||| line_prefix(f, p) == line_prefix(t, cursor)
    ||| {
        &&& line_start(f, p) <= a < p
        &&& f[a] == ']'
        &&& forall|k: int| line_start(f, p) <= k < a ==> white(#[trigger] f[k])
    }
}

proof fn lemma_in_step(t: Seq<char>, cursor: int, f: Seq<char>, p: int, a: int, i: int)
    requires
        0 <= cursor,
        0 <= p,
        0 <= i,
        cursor + i <= t.len(),
        p + i <= f.len(),
        f.subrange(p, p + i) == t.subrange(cursor, cursor + i),
        in_step(t, cursor, f, p, a),
    ensures
        in_step(t, cursor + i, f, p + i, a),
{
    assert forall|k: int| 0 <= k < i implies f[p + k] == #[trigger] t[cursor + k] by {
        assert(f.subrange(p, p + i)[k] == f[p + k]);
        assert(t.subrange(cursor, cursor + i)[k] == t[cursor + k]);
    }
    lemma_lines_alike(f, p, t, cursor, i);
    lemma_line_start(t, cursor);
    lemma_line_start(t, cursor + i);
    lemma_line_start(f, p);
    lemma_line_start(f, p + i);
    let x = line_prefix(f, p + i);
    let y = line_prefix(t, cursor + i);
    if line_start(t, cursor + i) > cursor {
        assert forall|k: int| 0 <= k < x.len() implies #[trigger] x[k] == y[k] by {
            let q = line_start(t, cursor + i) - cursor + k;
            assert(f[p + q] == t[cursor + q]);
        }
        assert(x =~= y);
    } else if line_prefix(f, p) == line_prefix(t, cursor) {
        let m = p - line_start(f, p);
        assert(line_prefix(f, p).len() == line_prefix(t, cursor).len());
        assert forall|k: int| 0 <= k < x.len() implies #[trigger] x[k] == y[k] by {
            if k < m {
                assert(line_prefix(f, p)[k] == line_prefix(t, cursor)[k]);
            } else {
                assert(f[p + (k - m)] == t[cursor + (k - m)]);
            }
        }
        assert(x =~= y);
    }
}

/// The line of the bracket that closes a spread argument starts with it.
proof fn lemma_step_behind(f: Seq<char>, at: int, w: Form)
    requires
        blank(w.base),
        0 <= at,
        at + spread_inner(w).len() < f.len(),
        f.subrange(at, at + spread_inner(w).len()) == spread_inner(w),
        f[at + spread_inner(w).len()] == ']',
    ensures
        ({
            let a = at + spread_inner(w).len();
            &&& line_start(f, a + 1) <= a
            &&& forall|k: int| line_start(f, a + 1) <= k < a ==> white(#[trigger] f[k])
        }),
{
    let u = spread_inner(w);
    let n = items(w.inner).len() as int;
    let a = at + u.len();
    let b = at + off(w, n) - 1;
    lemma_item_line_start(w, n);
    assert(u[off(w, n) - 1] == f[b]);
    lemma_line_behind(f, b, a + 1);
    lemma_line_start(f, a);
    assert forall|k: int| line_start(f, a + 1) <= k < a implies white(#[trigger] f[k]) by {
        assert(u[k - at] == f[k]);
        assert(u[k - at] == w.base[k - at - off(w, n)]);
    }
}

/// A spread argument is spread again, if its line is the same.
proof fn lemma_spread_again(w: Form, f: Seq<char>, y: int)
    requires
        form_wf(w),
        0 <= y,
        y + 1 + spread_inner(w).len() < f.len(),
        f.subrange(y + 1, y + 1 + spread_inner(w).len()) == spread_inner(w),
        f[y + 1 + spread_inner(w).len()] == ']',
        opens_argument(f, y),
    ensures
        argument_end(f, seq![], y) == Some(y + 1 + spread_inner(w).len()),
        spread(spread_inner(w), w.base, w.unit, seq!['\n']) == spread(
            w.inner,
            w.base,
            w.unit,
            seq!['\n'],
        ),
{
    let u = spread_inner(w);
    let n = u.len() as int;
    let tail = f.subrange(y + 1, f.len() as int);
    let short = u.push(']');
    lemma_respread(w);
    assert forall|i: int| 0 <= i <= n implies #[trigger] short[i] == tail[i] by {
        if i < n {
            assert(u[i] == f[y + 1 + i]);
        }
    }
    lemma_same_close(short, tail, 0, n);
    assert(f.subrange(y + 1, y + 1 + n) == u);
    assert(!overlaps(Seq::<(int, int)>::empty(), y, y + 1 + n));
    assert(rewrites(f, seq![], y, y + 1 + n));
}

/// Whether formatting comes to the bracket at `b` if it goes on from `cursor`.
/// It passes over the brackets in arguments that are spread.
pub open spec fn comes_to(text: Seq<char>, cursor: int, b: int) -> bool
    decreases text.len() - cursor,
{
    if 0 <= cursor < text.len() {
        proof {
            lemma_next_open(text, cursor);
        }
        let open = next_open(text, cursor);
        if open < text.len() {
            proof {
                lemma_close_of(text, open);
            }
            open == b || comes_to(
                text,
                match argument_end(text, seq![], open) {
                    Some(close) => close + 1,
                    None => open + 1,
                },
                b,
            )
        } else {
            false
        }
    } else {
        false
    }
}

/// Where what stands at place `b` of a text stands once the text is formatted.
pub open spec fn place_of(text: Seq<char>, unit: Seq<char>, b: int) -> int {
    formatted_from(text, seq![], unit, seq!['\n'], 0).len() - formatted_from(
        text,
        seq![],
        unit,
        seq!['\n'],
        b,
    ).len()
}

/// Whether, once a text is formatted, no bracket within the argument that was at
/// `b` holds an argument to be spread.
pub open spec fn stays(text: Seq<char>, unit: Seq<char>, b: int) -> bool {
    let f = formatted_from(text, seq![], unit, seq!['\n'], 0);
    let end = place_of(text, unit, argument_end(text, seq![], b)->0 + 1);
    forall|y: int|
        place_of(text, unit, b) < y < end && f[y] == '[' ==> #[trigger] argument_end(
            f,
            seq![],
            y,
        ) is None
}

/// Whether those spread arguments stay as they are that open no argument any
/// more once the text is formatted. These are the ones that open on a line on
/// which another one is closed: that line then starts with the closing bracket.
pub open spec fn settled(text: Seq<char>, unit: Seq<char>) -> bool {
    settled_from(text, unit, 0)
}

/// Whether the arguments that formatting comes to from `cursor` on stay as they
/// are.
pub open spec fn settled_from(text: Seq<char>, unit: Seq<char>, cursor: int) -> bool {
    let f = formatted_from(text, seq![], unit, seq!['\n'], 0);
    forall|b: int|
        {
            &&& #[trigger] comes_to(text, cursor, b)
            &&& argument_end(text, seq![], b) is Some
            &&& !opens_argument(f, place_of(text, unit, b))
        } ==> stays(text, unit, b)
}

/// A spread argument comes out as it is, or changes for good.
proof fn lemma_argument_again(
    t: Seq<char>,
    f: Seq<char>,
    unit: Seq<char>,
    p: int,
    open: int,
    y: int,
    a: int,
)
    requires
        t.len() <= usize::MAX,
        uncommented_text(t),
        clean(t),
        blank(unit),
        0 <= open < t.len(),
        argument_end(t, seq![], open) is Some,
        f == formatted_from(t, seq![], unit, seq!['\n'], 0),
        0 <= p <= y < f.len(),
        next_open(f, p) == y,
        place_of(t, unit, open) == y,
        in_step(t, open, f, y, a),
        ({
            let w = form_at(t, unit, open, argument_end(t, seq![], open)->0);
            let n = spread_inner(w).len();
            &&& n < usize::MAX
            &&& y + 1 + n < f.len()
            &&& f[y] == '['
            &&& f.subrange(y + 1, y + 1 + n) == spread_inner(w)
            &&& f[y + 1 + n] == ']'
            &&& place_of(t, unit, argument_end(t, seq![], open)->0 + 1) == y + 2 + n
        }),
    ensures
        ({
            let w = form_at(t, unit, open, argument_end(t, seq![], open)->0);
            let end = y + 2 + spread_inner(w).len();
            let kept = opens_argument(f, y) || stays(t, unit, open);
            let out = formatted_from(f, seq![], unit, seq!['\n'], p);
            &&& kept ==> out == f.subrange(p, end) + formatted_from(
                f,
                seq![],
                unit,
                seq!['\n'],
                end,
            )
            &&& !kept ==> out != f.subrange(p, f.len() as int)
        }),
{
    let close = argument_end(t, seq![], open)->0;
    let w = form_at(t, unit, open, close);
    let end = y + 2 + spread_inner(w).len();
    lemma_form_at(t, unit, open, close);
    lemma_line_start(f, y);
    if opens_argument(f, y) {
        if line_prefix(f, y) != line_prefix(t, open) {
            lemma_closed_line(f, a, y);
        }
        lemma_argument_spread(w, f, p, y);
    } else if stays(t, unit, open) {
        lemma_argument_copied(f, unit, p, y, end);
    } else {
        let x = choose|x: int|
            y < x < end && f[x] == '[' && #[trigger] argument_end(f, seq![], x) is Some;
        let z = lemma_first_rewritten(f, y + 1, x);
        lemma_argument_changed(w, f, p, y, z);
    }
}

/// The first bracket that holds an argument to be spread.
proof fn lemma_first_rewritten(f: Seq<char>, from: int, x: int) -> (z: int)
    requires
        0 <= from <= x < f.len(),
        f[x] == '[',
        argument_end(f, seq![], x) is Some,
    ensures
        from <= z <= x,
        f[z] == '[',
        argument_end(f, seq![], z) is Some,
        forall|k: int|
            from <= k < z && f[k] == '[' ==> #[trigger] argument_end(f, seq![], k) is None,
    decreases x - from,
{
    if f[from] == '[' && argument_end(f, seq![], from) is Some {
        from
    } else {
        lemma_first_rewritten(f, from + 1, x)
    }
}

/// Brackets outside braces are never all closed within an argument.
proof fn lemma_open_within(s: Seq<char>, k: int)
    requires
        ready(s),
        0 <= k <= s.len(),
    ensures
        mark_at(s, k).bracket >= 1,
    decreases k,
{
    lemma_end_mark(s);
    if k > 0 {
        lemma_open_within(s, k - 1);
        assert(!closing(s, k - 1));
    }
}

/// A bracket that opens an argument in an item does not end the last item.
proof fn lemma_not_last(s: Seq<char>, k: int)
    requires
        ready(s),
        0 <= k < items(s).len(),
        k == commas(s).len(),
        items(s)[k].last() == '[',
    ensures
        items(s)[k].len() > 1,
        items(s)[k][items(s)[k].len() - 2] == '\\',
{
    let item = items(s)[k];
    let n = item.len() as int;
    let a = item_start(s, k);
    lemma_item(s, k);
    lemma_end_mark(s);
    lemma_run_part(s, a, item, n - 1);
    lemma_open_within(s, a + n - 1);
    let m = mark_at(s, a + n - 1);
    assert(run(piece_mark(s, k), item, n) == step(run(piece_mark(s, k), item, n - 1), item[n - 1]));
    assert(m.esc);
    if n > 1 {
        assert(m == step(run(piece_mark(s, k), item, n - 2), item[n - 2]));
    }
}

/// No line ends behind a bracket that opens an argument in a spread argument.
proof fn lemma_no_line_end(w: Form, f: Seq<char>, at: int, y: int)
    requires
        form_wf(w),
        0 <= at <= y < at + spread_inner(w).len() < f.len(),
        f.subrange(at, at + spread_inner(w).len()) == spread_inner(w),
        f[y] == '[',
        opens_argument(f, y),
    ensures
        f[y + 1] != '\n',
{
    let u = spread_inner(w);
    assert(u[y - at] == f[y]);
    let k = lemma_item_of(w, y - at);
    let item = items(w.inner)[k];
    let a = at + put(w, k);
    let b = at + off(w, k) - 1;
    let i = y - a;
    lemma_item_place(w, k);
    assert(u[off(w, k) - 1] == f[b]);
    assert forall|q: int| b < q < a implies white(#[trigger] f[q]) by {
        assert(u[q - at] == f[q]);
    }
    assert(f.subrange(a, a + item.len()) =~= item) by {
        assert forall|q: int| 0 <= q < item.len() implies f[a + q] == #[trigger] item[q] by {
            assert(item[q] == u[put(w, k) + q]);
        }
    }
    assert(item[i] == f[y]);
    if i + 1 < item.len() {
        assert(item[i + 1] == f[y + 1]);
    } else {
        lemma_opens_in_item(f, b, a, item, i);
        lemma_counts(w.inner);
        if k == commas(w.inner).len() {
            lemma_not_last(w.inner, k);
            lemma_line_start(item, i);
            lemma_line_reaches(item, 0, i);
            lemma_opens_alike(item, 0, i);
            assert(item.subrange(0, i).last() == item[i - 1]);
        } else {
            lemma_comma_place(w, k);
            assert(u[comma_put(w, k)] == f[at + comma_put(w, k)]);
        }
    }
}

/// An argument in which a bracket comes to hold an argument to be spread does
/// not come out as it is.
proof fn lemma_argument_changed(w: Form, f: Seq<char>, p: int, y: int, z: int)
    requires
        form_wf(w),
        0 <= p <= y < z < y + 2 + spread_inner(w).len() <= f.len(),
        next_open(f, p) == y,
        !opens_argument(f, y),
        f.subrange(y + 1, y + 1 + spread_inner(w).len()) == spread_inner(w),
        f[y + 1 + spread_inner(w).len()] == ']',
        f[z] == '[',
        argument_end(f, seq![], z) is Some,
        forall|k: int|
            y + 1 <= k < z && f[k] == '[' ==> #[trigger] argument_end(f, seq![], k) is None,
    ensures
        formatted_from(f, seq![], w.unit, seq!['\n'], p) != f.subrange(p, f.len() as int),
{
    let close = argument_end(f, seq![], z)->0;
    let out = formatted_from(f, seq![], w.unit, seq!['\n'], p);
    let rest = formatted_from(f, seq![], w.unit, seq!['\n'], z);
    lemma_argument_copied(f, w.unit, p, y, z);
    lemma_no_line_end(w, f, y + 1, z);
    assert(next_open(f, z) == z);
    let sp = spread(f.subrange(z + 1, close), base_indent(f, z), w.unit, seq!['\n']);
    assert(sp[1] == '\n');
    let tail = formatted_from(f, seq![], w.unit, seq!['\n'], close + 1);
    assert(rest == f.subrange(z, z) + sp + tail);
    assert(rest[1] == '\n');
    assert(out[z - p + 1] == rest[1]);
    if out == f.subrange(p, f.len() as int) {
        assert(out[z - p + 1] == f[z + 1]);
    }
}

/// A spread argument is spread again.
proof fn lemma_argument_spread(w: Form, f: Seq<char>, p: int, y: int)
    requires
        form_wf(w),
        0 <= p <= y,
        next_open(f, p) == y,
        y + 1 + spread_inner(w).len() < f.len(),
        f[y] == '[',
        f.subrange(y + 1, y + 1 + spread_inner(w).len()) == spread_inner(w),
        f[y + 1 + spread_inner(w).len()] == ']',
        opens_argument(f, y),
        base_indent(f, y) == w.base,
    ensures
        ({
            let end = y + 2 + spread_inner(w).len();
            formatted_from(f, seq![], w.unit, seq!['\n'], p) == f.subrange(p, end)
                + formatted_from(f, seq![], w.unit, seq!['\n'], end)
        }),
{
    let u = spread_inner(w);
    let end = y + 2 + u.len();
    lemma_spread_again(w, f, y);
    let sp = spread(u, w.base, w.unit, seq!['\n']);
    assert(sp =~= seq!['['] + u + seq![']']);
    assert(f.subrange(p, end) =~= f.subrange(p, y) + sp) by {
        assert forall|k: int| 0 <= k < u.len() implies f[y + 1 + k] == #[trigger] u[k] by {
            assert(f.subrange(y + 1, y + 1 + u.len())[k] == u[k]);
        }
    }
}

/// An argument that is not spread again is copied.
proof fn lemma_argument_copied(f: Seq<char>, unit: Seq<char>, p: int, y: int, end: int)
    requires
        0 <= p <= y < end <= f.len(),
        next_open(f, p) == y,
        !opens_argument(f, y),
        forall|x: int|
            y < x < end && f[x] == '[' ==> #[trigger] argument_end(f, seq![], x) is None,
    ensures
        formatted_from(f, seq![], unit, seq!['\n'], p) == f.subrange(p, end) + formatted_from(
            f,
            seq![],
            unit,
            seq!['\n'],
            end,
        ),
{
    assert forall|x: int| p <= x < end && f[x] == '[' implies #[trigger] argument_end(
        f,
        seq![],
        x,
    ) is None by {
        if x < y {
            lemma_between(f, p, x);
        }
    }
    lemma_stretch(f, unit, p, end);
}

/// What stands before the next bracket is copied.
proof fn lemma_reached(t: Seq<char>, unit: Seq<char>, cursor: int)
    requires
        0 <= cursor <= t.len(),
    ensures
        formatted_from(t, seq![], unit, seq!['\n'], cursor).len() == next_open(t, cursor) - cursor
            + formatted_from(t, seq![], unit, seq!['\n'], next_open(t, cursor)).len(),
{
    lemma_next_open(t, cursor);
    let open = next_open(t, cursor);
    assert forall|x: int| cursor <= x < open && t[x] == '[' implies #[trigger] argument_end(
        t,
        seq![],
        x,
    ) is None by {
        lemma_between(t, cursor, x);
    }
    lemma_stretch(t, unit, cursor, open);
}

/// No bracket stands before the next one.
proof fn lemma_between(f: Seq<char>, p: int, x: int)
    requires
        0 <= p <= x < next_open(f, p),
        x < f.len(),
    ensures
        f[x] != '[',
    decreases x - p,
{
    if p < x {
        lemma_between(f, p + 1, x);
    }
}

/// Texts that start alike are equal if and only if they go on alike.
proof fn lemma_same_rest(g: Seq<char>, head: Seq<char>, rest: Seq<char>, other: Seq<char>)
    requires
        g == head + rest,
    ensures
        g == head + other <==> rest == other,
{
    if g == head + other {
        assert((head + rest).subrange(head.len() as int, g.len() as int) =~= rest);
        assert((head + other).subrange(head.len() as int, g.len() as int) =~= other);
    }
}

/// From a bracket that holds no argument to be spread, formatting goes on.
proof fn lemma_settled_behind(t: Seq<char>, unit: Seq<char>, cursor: int)
    requires
        0 <= cursor < t.len(),
        next_open(t, cursor) < t.len(),
    ensures
        ({
            let f = formatted_from(t, seq![], unit, seq!['\n'], 0);
            let open = next_open(t, cursor);
            settled_from(t, unit, cursor) <==> match argument_end(t, seq![], open) {
                Some(close) => (opens_argument(f, place_of(t, unit, open)) || stays(t, unit, open))
                    && settled_from(t, unit, close + 1),
                None => settled_from(t, unit, open + 1),
            }
        }),
{
    let open = next_open(t, cursor);
    let next = match argument_end(t, seq![], open) {
        Some(close) => close + 1,
        None => open + 1,
    };
    lemma_next_open(t, cursor);
    lemma_close_of(t, open);
    assert forall|b: int| #[trigger] comes_to(t, cursor, b) <==> b == open || comes_to(
        t,
        next,
        b,
    ) by {}
    if settled_from(t, unit, cursor) {
        assert(comes_to(t, cursor, open));
        assert forall|b: int|
            {
                &&& #[trigger] comes_to(t, next, b)
                &&& argument_end(t, seq![], b) is Some
                &&& !opens_argument(
                    formatted_from(t, seq![], unit, seq!['\n'], 0),
                    place_of(t, unit, b),
                )
            } implies stays(t, unit, b) by {
            assert(comes_to(t, cursor, b));
        }
    }
}

proof fn lemma_again(t: Seq<char>, f: Seq<char>, unit: Seq<char>, cursor: int, p: int, a: int)
    requires
        t.len() <= usize::MAX,
        f.len() <= usize::MAX,
        uncommented_text(t),
        clean(t),
        blank(unit),
        0 <= cursor <= t.len(),
        0 <= p <= f.len(),
        f == formatted_from(t, seq![], unit, seq!['\n'], 0),
        f.subrange(p, f.len() as int) == formatted_from(t, seq![], unit, seq!['\n'], cursor),
        in_step(t, cursor, f, p, a),
    ensures
        formatted_from(f, seq![], unit, seq!['\n'], p) == f.subrange(p, f.len() as int)
            <==> settled_from(t, unit, cursor),
    decreases t.len() - cursor,
{
    let n = t.len() as int;
    let g = f.subrange(p, f.len() as int);
    lemma_next_open(t, cursor);
    let open = next_open(t, cursor);
    let y = p + (open - cursor);
    if cursor == n {
        assert(g.len() == 0);
    } else if open == n {
        assert(g == t.subrange(cursor, n));
        assert forall|k: int| cursor <= k < n implies f[p + (k - cursor)] == #[trigger] t[k] by {
            assert(t.subrange(cursor, n)[k - cursor] == t[k]);
            assert(g[k - cursor] == f[p + (k - cursor)]);
        }
        lemma_next_alike(f, p, t, cursor);
    } else {
        lemma_close_of(t, open);
        lemma_settled_behind(t, unit, cursor);
        match argument_end(t, seq![], open) {
            None => {
                lemma_again_copied(t, f, unit, cursor, p, a);
                let rest = f.subrange(y + 1, f.len() as int);
                lemma_again(t, f, unit, open + 1, y + 1, a);
                assert(f.subrange(p, y + 1) + rest =~= g);
                lemma_same_rest(
                    g,
                    f.subrange(p, y + 1),
                    rest,
                    formatted_from(f, seq![], unit, seq!['\n'], y + 1),
                );
            },
            Some(close) => {
                let w = form_at(t, unit, open, close);
                let end = y + 2 + spread_inner(w).len();
                lemma_again_spread(t, f, unit, cursor, p, a);
                let rest = f.subrange(end, f.len() as int);
                lemma_again(t, f, unit, close + 1, end, end - 1);
                assert(f.subrange(p, end) + rest =~= g);
                lemma_same_rest(
                    g,
                    f.subrange(p, end),
                    rest,
                    formatted_from(f, seq![], unit, seq!['\n'], end),
                );
            },
        }
    }
}

/// Formatting again up to a bracket that holds no argument to be spread.
proof fn lemma_again_copied(
    t: Seq<char>,
    f: Seq<char>,
    unit: Seq<char>,
    cursor: int,
    p: int,
    a: int,
)
    requires
        t.len() <= usize::MAX,
        f.len() <= usize::MAX,
        uncommented_text(t),
        clean(t),
        blank(unit),
        0 <= cursor < t.len(),
        0 <= p <= f.len(),
        next_open(t, cursor) < t.len(),
        argument_end(t, seq![], next_open(t, cursor)) is None,
        f.subrange(p, f.len() as int) == formatted_from(t, seq![], unit, seq!['\n'], cursor),
        in_step(t, cursor, f, p, a),
    ensures
        ({
            let open = next_open(t, cursor);
            let y = p + (open - cursor);
            &&& y < f.len()
            &&& in_step(t, open + 1, f, y + 1, a)
            &&& f.subrange(y + 1, f.len() as int) == formatted_from(
                t,
                seq![],
                unit,
                seq!['\n'],
                open + 1,
            )
            &&& formatted_from(f, seq![], unit, seq!['\n'], p) == f.subrange(p, y + 1)
                + formatted_from(f, seq![], unit, seq!['\n'], y + 1)
        }),
{
    lemma_next_open(t, cursor);
    let open = next_open(t, cursor);
    let y = p + (open - cursor);
    let rest = formatted_from(t, seq![], unit, seq!['\n'], open + 1);
    let head = t.subrange(cursor, open + 1);
    lemma_copied_head(f, p, t, cursor, head, rest);
    lemma_next_alike(f, p, t, cursor);
    lemma_in_step(t, cursor, f, p, a, open - cursor);
    lemma_in_step(t, cursor, f, p, a, open + 1 - cursor);
    if line_prefix(f, y) == line_prefix(t, open) {
        lemma_still_none(t, f, unit, open, y);
    } else {
        lemma_line_start(f, y);
        lemma_closed_line(f, a, y);
    }
}

/// Formatting again over a spread argument.
proof fn lemma_again_spread(
    t: Seq<char>,
    f: Seq<char>,
    unit: Seq<char>,
    cursor: int,
    p: int,
    a: int,
)
    requires
        t.len() <= usize::MAX,
        f.len() <= usize::MAX,
        uncommented_text(t),
        clean(t),
        blank(unit),
        0 <= cursor < t.len(),
        0 <= p <= f.len(),
        next_open(t, cursor) < t.len(),
        argument_end(t, seq![], next_open(t, cursor)) is Some,
        f == formatted_from(t, seq![], unit, seq!['\n'], 0),
        f.subrange(p, f.len() as int) == formatted_from(t, seq![], unit, seq!['\n'], cursor),
        in_step(t, cursor, f, p, a),
    ensures
        ({
            let open = next_open(t, cursor);
            let close = argument_end(t, seq![], open)->0;
            let y = p + (open - cursor);
            let end = y + 2 + spread_inner(form_at(t, unit, open, close)).len();
            let kept = opens_argument(f, y) || stays(t, unit, open);
            let out = formatted_from(f, seq![], unit, seq!['\n'], p);
            &&& place_of(t, unit, open) == y
            &&& end <= f.len()
            &&& in_step(t, close + 1, f, end, end - 1)
            &&& f.subrange(end, f.len() as int) == formatted_from(
                t,
                seq![],
                unit,
                seq!['\n'],
                close + 1,
            )
            &&& kept ==> out == f.subrange(p, end) + formatted_from(
                f,
                seq![],
                unit,
                seq!['\n'],
                end,
            )
            &&& !kept ==> out != f.subrange(p, f.len() as int)
        }),
{
    lemma_next_open(t, cursor);
    let open = next_open(t, cursor);
    let close = argument_end(t, seq![], open)->0;
    let y = p + (open - cursor);
    let w = form_at(t, unit, open, close);
    let u = spread_inner(w);
    let rest = formatted_from(t, seq![], unit, seq!['\n'], close + 1);
    let sp = spread(w.inner, w.base, unit, seq!['\n']);
    let head = t.subrange(cursor, open);
    lemma_close_of(t, open);
    assert(sp =~= seq!['['] + u + seq![']']);
    assert(f.subrange(p, f.len() as int) == head + sp + rest);
    lemma_spread_place(f, p, head, u, rest);
    lemma_form_at(t, unit, open, close);
    assert(f.subrange(p, y) =~= head);
    assert forall|k: int| cursor <= k < open implies f[p + (k - cursor)] == #[trigger] t[k] by {
        assert(head[k - cursor] == t[k]);
        assert(f.subrange(p, y)[k - cursor] == head[k - cursor]);
    }
    lemma_next_alike(f, p, t, cursor);
    lemma_in_step(t, cursor, f, p, a, open - cursor);
    lemma_reached(t, unit, cursor);
    lemma_argument_again(t, f, unit, p, open, y, a);
    lemma_step_behind(f, y + 1, w);
}

/// Where a copy and what follows it stand.
proof fn lemma_copied_head(
    f: Seq<char>,
    p: int,
    t: Seq<char>,
    cursor: int,
    head: Seq<char>,
    rest: Seq<char>,
)
    requires
        0 <= p <= f.len(),
        0 <= cursor,
        0 < head.len(),
        cursor + head.len() <= t.len(),
        head == t.subrange(cursor, cursor + head.len()),
        f.subrange(p, f.len() as int) == head + rest,
    ensures
        p + head.len() <= f.len(),
        forall|k: int|
            cursor <= k < cursor + head.len() ==> f[p + (k - cursor)] == #[trigger] t[k],
        f.subrange(p, p + head.len()) == t.subrange(cursor, cursor + head.len()),
        f.subrange(p, p + head.len() - 1) == t.subrange(cursor, cursor + head.len() - 1),
        f.subrange(p + head.len(), f.len() as int) == rest,
{
    let g = f.subrange(p, f.len() as int);
    assert(g.len() == head.len() + rest.len());
    assert forall|k: int| cursor <= k < cursor + head.len() implies f[p + (k - cursor)]
        == #[trigger] t[k] by {
        assert(g[k - cursor] == head[k - cursor]);
    }
    assert forall|k: int| 0 <= k < rest.len() implies f[p + head.len() + k]
        == #[trigger] rest[k] by {
        assert(g[head.len() + k] == rest[k]);
    }
    assert(f.subrange(p + head.len(), f.len() as int) =~= rest);
    assert(f.subrange(p, p + head.len()) =~= t.subrange(cursor, cursor + head.len()));
    assert(f.subrange(p, p + head.len() - 1) =~= t.subrange(cursor, cursor + head.len() - 1));
}

/// Where a spread argument and what stands around it stand.
proof fn lemma_spread_place(
    f: Seq<char>,
    p: int,
    head: Seq<char>,
    u: Seq<char>,
    rest: Seq<char>,
)
    requires
        0 <= p <= f.len(),
        f.subrange(p, f.len() as int) == head + (seq!['['] + u + seq![']']) + rest,
    ensures
        p + head.len() + u.len() + 2 <= f.len(),
        f.subrange(p, p + head.len()) == head,
        f[p + head.len()] == '[',
        f.subrange(p + head.len() + 1, p + head.len() + 1 + u.len()) == u,
        f[p + head.len() + 1 + u.len()] == ']',
        f.subrange(p + head.len() + 2 + u.len(), f.len() as int) == rest,
{
    let g = f.subrange(p, f.len() as int);
    let y = p + head.len();
    assert(g.len() == head.len() + u.len() + 2 + rest.len());
    assert forall|k: int| 0 <= k < head.len() implies f[p + k] == #[trigger] head[k] by {
        assert(g[k] == head[k]);
    }
    assert(g[head.len() as int] == '[');
    assert forall|k: int| 0 <= k < u.len() implies f[y + 1 + k] == #[trigger] u[k] by {
        assert(g[head.len() + 1 + k] == u[k]);
    }
    assert(g[(head.len() + 1 + u.len()) as int] == ']');
    assert forall|k: int| 0 <= k < rest.len() implies f[y + 2 + u.len() + k]
        == #[trigger] rest[k] by {
        assert(g[head.len() + 2 + u.len() + k] == rest[k]);
    }
    assert(f.subrange(p, y) =~= head);
    assert(f.subrange(y + 1, y + 1 + u.len()) =~= u);
    assert(f.subrange(y + 2 + u.len(), f.len() as int) =~= rest);
}

/// Formatting the optional arguments of a formatted document changes nothing if
/// and only if the document is settled. The document has no comment, no backslash
/// before whitespace and no line whose layout is fixed.
pub proof fn law_options_are_stable(
    text: Seq<char>,
    args: Args,
    scans: Seq<LineScan>,
    again: Seq<LineScan>,
)
    requires
        text.len() <= usize::MAX,
        formatted(text, args, scans, seq!['\n']).len() <= usize::MAX,
        !text.contains('%'),
        clean(text),
        fixed_ranges(text, scans).len() == 0,
        fixed_ranges(formatted(text, args, scans, seq!['\n']), again).len() == 0,
    ensures
        formatted(formatted(text, args, scans, seq!['\n']), args, again, seq!['\n']) == formatted(
            text,
            args,
            scans,
            seq!['\n'],
        ) <==> settled(text, indent_unit(args)),
{
    let f = formatted(text, args, scans, seq!['\n']);
    let unit = indent_unit(args);
    assert forall|i: int| 0 <= i < text.len() implies #[trigger] text[i] != '%' by {
        assert(text.contains(text[i]));
    }
    assert(fixed_ranges(text, scans) =~= seq![]);
    assert(fixed_ranges(f, again) =~= seq![]);
    assert(f.subrange(0, f.len() as int) == f);
    assert(line_prefix(f, 0) =~= line_prefix(text, 0));
    lemma_again(text, f, unit, 0, 0, 0);
}

} // verus!
