//! What a line of a reflowed paragraph costs and which lines are chosen, said of
//! its characters and its length.

use vstd::prelude::*;

use crate::config::Args;
use crate::cost::{less, no_cost, sum, LayoutCost};
use crate::minimal::{
    anchors_of, best, breaks_of, byte_offsets, chosen, count_between, distance, edge, graph_of,
    graph_wf, indent_from, laid_out, layout_of, legal_break, lemma_anchors, lemma_best,
    lemma_breaks, lemma_chosen, line_cost, minimal, nearest, paragraph_text, sat, utf8_len, Graph,
    Paragraph,
};
use crate::optimal::{is_path, lemma_best_is_least, lemma_chosen_cost, lemma_path_prefix, path_cost};
use crate::reading::{inked, law_trimming, law_trimming_nothing, lemma_parts_of, space, spaces};
use crate::text::{ascending, lemma_select, select, trimmed, width};

verus! {

// ---------------------------------------------------------------------------
// Lengths

/// The number of characters from the first to the last that is no whitespace.
pub open spec fn measure(s: Seq<char>) -> nat
    decreases s.len(),
{
    if s.len() == 0 {
        0
    } else if space(s[0]) {
        measure(s.subrange(1, s.len() as int))
    } else if space(s[s.len() - 1]) {
        measure(s.subrange(0, s.len() - 1))
    } else {
        s.len()
    }
}

/// A number, or the greatest that fits in a machine word.
pub open spec fn capped(n: int) -> int {
    if n > usize::MAX {
        usize::MAX as int
    } else {
        n
    }
}

/// By how much one number exceeds another.
pub open spec fn excess(a: int, b: int) -> int {
    if a > b {
        a - b
    } else {
        0
    }
}

proof fn lemma_trimmed_parts(w: Seq<char>, t: Seq<char>, z: Seq<char>)
    requires
        spaces(w),
        spaces(z),
        t.len() == 0 || inked(t),
    ensures
        trimmed(w + t + z) == t,
{
    if t.len() > 0 {
        law_trimming(w, t, z);
    } else {
        let s = w + t + z;
        assert forall|i: int| 0 <= i < s.len() implies space(#[trigger] s[i]) by {
            if i < w.len() {
                assert(s[i] == w[i]);
            } else {
                assert(s[i] == z[i - w.len()]);
            }
        }
        law_trimming_nothing(s);
        assert(trimmed(s) =~= t);
    }
}

/// The width of a text is the number of characters from the first to the last
/// that is no whitespace.
pub proof fn law_width(s: Seq<char>)
    ensures
        width(s) == measure(s),
    decreases s.len(),
{
    let (w, t, z) = lemma_parts_of(s);
    if s.len() == 0 {
        law_trimming_nothing(s);
    } else if space(s[0]) {
        let r = s.subrange(1, s.len() as int);
        law_width(r);
        let (a, m, y) = lemma_parts_of(r);
        assert(s =~= seq![s[0]] + r);
        assert(seq![s[0]] + (a + m + y) =~= seq![s[0]] + a + m + y);
        assert(spaces(seq![s[0]] + a)) by {
            let u = seq![s[0]] + a;
            assert forall|i: int| 0 <= i < u.len() implies space(#[trigger] u[i]) by {
                if i > 0 {
                    assert(u[i] == a[i - 1]);
                }
            }
        }
        lemma_trimmed_parts(seq![s[0]] + a, m, y);
        assert(trimmed(s) == trimmed(r));
    } else if space(s[s.len() - 1]) {
        let r = s.subrange(0, s.len() - 1);
        let c = s[s.len() - 1];
        law_width(r);
        let (a, m, y) = lemma_parts_of(r);
        assert(s =~= r + seq![c]);
        assert((a + m + y) + seq![c] =~= a + m + (y + seq![c]));
        assert(spaces(y + seq![c])) by {
            let u = y + seq![c];
            assert forall|i: int| 0 <= i < u.len() implies space(#[trigger] u[i]) by {
                if i < y.len() {
                    assert(u[i] == y[i]);
                }
            }
        }
        lemma_trimmed_parts(a, m, y + seq![c]);
        assert(trimmed(s) == trimmed(r));
    } else {
        let e = Seq::<char>::empty();
        assert(s =~= e + s + e);
        lemma_trimmed_parts(e, s, e);
    }
}

/// The length of a line, indentation included.
pub open spec fn long(text: Seq<char>, start: int, end: int, indent: usize) -> int {
    capped(measure(text.subrange(start, end)) + indent)
}

/// A number as a machine word.
pub proof fn law_capped(n: int)
    ensures
        n >= 0 ==> sat(n) == capped(n),
        n < 0 ==> sat(n) == 0,
{
}

// ---------------------------------------------------------------------------
// The cost of a line

/// The number of entries of a list strictly between two positions.
pub open spec fn between(v: Seq<usize>, start: int, end: int) -> nat {
    v.filter(|a: usize| start < a < end).len()
}

proof fn lemma_between(v: Seq<usize>, n: int, start: int, end: int)
    requires
        0 <= n <= v.len(),
    ensures
        count_between(v, n, start, end) == between(v.take(n), start, end),
    decreases n,
{
    let f = |a: usize| start < a < end;
    let u = v.take(n);
    reveal(Seq::filter);
    if n > 0 {
        lemma_between(v, n - 1, start, end);
        assert(u.drop_last() =~= v.take(n - 1));
        assert(u.last() == v[n - 1]);
    } else {
        assert(u =~= seq![]);
    }
}

/// The position of a character in bytes.
pub open spec fn byte_of(text: Seq<char>, p: int) -> int {
    capped(utf8_len(text, p) as int)
}

/// How far two positions are apart.
pub open spec fn apart(a: int, b: int) -> int {
    if a < b {
        b - a
    } else {
        a - b
    }
}

proof fn lemma_nearest(p: usize, v: Seq<usize>)
    ensures
        v.len() == 0 ==> nearest(p, v) == 0,
        v.len() > 0 ==> exists|i: int|
            0 <= i < v.len() && nearest(p, v) == apart(#[trigger] v[i] as int, p as int),
        forall|i: int|
            0 <= i < v.len() ==> nearest(p, v) <= apart(#[trigger] v[i] as int, p as int),
    decreases v.len(),
{
    if v.len() == 1 {
        assert(nearest(p, v) == apart(v[0] as int, p as int));
    } else if v.len() > 1 {
        let w = v.drop_last();
        lemma_nearest(p, w);
        let i = choose|i: int|
            0 <= i < w.len() && nearest(p, w) == apart(#[trigger] w[i] as int, p as int);
        assert(w[i] == v[i]);
        assert(v[v.len() - 1] == v.last());
        assert forall|j: int| 0 <= j < v.len() implies nearest(p, v) <= apart(
            #[trigger] v[j] as int,
            p as int,
        ) by {
            if j < w.len() {
                assert(w[j] == v[j]);
            }
        }
        if distance(v.last(), p) < nearest(p, w) {
            assert(nearest(p, v) == apart(v[v.len() - 1] as int, p as int));
        } else {
            assert(nearest(p, v) == apart(v[i] as int, p as int));
        }
    }
}

/// The distance of a position from the nearest one of a list is that from some
/// position of the list, and no position of the list is nearer.
pub proof fn law_nearest(p: usize, v: Seq<usize>)
    ensures
        v.len() == 0 ==> nearest(p, v) == 0,
        v.len() > 0 ==> exists|i: int|
            0 <= i < v.len() && nearest(p, v) == apart(#[trigger] v[i] as int, p as int),
        forall|i: int|
            0 <= i < v.len() ==> nearest(p, v) <= apart(#[trigger] v[i] as int, p as int),
{
    lemma_nearest(p, v);
}

/// What a line costs. It exceeds the limit by what it is longer. If it is not the
/// last, it falls short of the target by what it is shorter, unless it reaches the
/// target with the next chunk, wherever it starts. Each authored break within the
/// line and a new break at its end is a change, and a new break is displaced by its
/// distance in bytes from the nearest authored one.
pub proof fn law_line_cost(
    par: Paragraph,
    start: int,
    end: int,
    next_end: Option<usize>,
    indent: usize,
)
    requires
        0 <= start <= end <= par.text.len() <= usize::MAX,
        next_end matches Some(next) ==> start <= next <= par.text.len(),
    ensures
        ({
            let cost = line_cost(par, start, end, next_end, indent);
            let n = long(par.text, start, end, indent);
            let last = end == par.text.len();
            let short = n < par.wrapmin && !(next_end matches Some(next) && long(
                par.text,
                start,
                next as int,
                indent,
            ) >= par.wrapmin);
            let fresh = !last && !exists|i: int|
                0 <= i < par.anchors.len() && #[trigger] par.anchors[i] == end;
            &&& cost.overflow == excess(n, par.wraplen as int)
            &&& !last && short ==> cost.underflow == par.wrapmin - n
            &&& last || !short ==> cost.underflow == 0
            &&& fresh ==> cost.changed_breaks == capped(between(par.anchors, start, end) as int + 1)
            &&& !fresh ==> cost.changed_breaks == capped(between(par.anchors, start, end) as int)
            &&& !fresh || par.anchors.len() == 0 ==> cost.displacement == 0
            &&& fresh && par.anchors.len() > 0 ==> exists|i: int|
                0 <= i < par.anchors.len() && cost.displacement == apart(
                    byte_of(par.text, #[trigger] par.anchors[i] as int),
                    byte_of(par.text, end),
                )
            &&& fresh ==> forall|i: int|
                0 <= i < par.anchors.len() ==> cost.displacement <= apart(
                    byte_of(par.text, #[trigger] par.anchors[i] as int),
                    byte_of(par.text, end),
                )
            &&& !last ==> cost.raggedness == apart(par.wrapmin as int, n)
            &&& last ==> cost.raggedness == 0
            &&& cost.lines == 1
        }),
{
    let text = par.text;
    law_width(text.subrange(start, end));
    if next_end is Some {
        law_width(text.subrange(start, next_end->0 as int));
    }
    lemma_between(par.anchors, par.anchors.len() as int, start, end);
    assert(par.anchors.take(par.anchors.len() as int) =~= par.anchors);
    let offsets = byte_offsets(text, par.anchors);
    let p = sat(utf8_len(text, end) as int);
    law_nearest(p, offsets);
    assert forall|i: int| 0 <= i < par.anchors.len() implies byte_of(
        text,
        #[trigger] par.anchors[i] as int,
    ) == offsets[i] by {}
    if exists|i: int| 0 <= i < par.anchors.len() && #[trigger] par.anchors[i] == end {
        let i = choose|i: int| 0 <= i < par.anchors.len() && #[trigger] par.anchors[i] == end;
        assert(par.anchors[i] == end as usize);
        assert(par.anchors.contains(end as usize));
    }
    if par.anchors.contains(end as usize) {
        let i = choose|i: int| 0 <= i < par.anchors.len() && par.anchors[i] == end as usize;
        assert(par.anchors[i] == end);
    }
    if par.anchors.len() > 0 {
        let i = choose|i: int|
            0 <= i < offsets.len() && nearest(p, offsets) == apart(
                #[trigger] offsets[i] as int,
                p as int,
            );
        assert(par.anchors[i] as int >= 0);
    }
}

/// The number of bytes of a text grows with each character.
pub proof fn law_bytes(text: Seq<char>, c: char, rest: Seq<char>)
    ensures
        utf8_len(text, 0) == 0,
        ({
            let n = text.len() as int;
            let before = utf8_len(text, n);
            let after = utf8_len(text.push(c) + rest, n + 1);
            &&& utf8_len(text.push(c) + rest, n) == before
            &&& c <= '\u{7f}' ==> after == before + 1
            &&& '\u{80}' <= c && c <= '\u{7ff}' ==> after == before + 2
            &&& '\u{800}' <= c && c <= '\u{ffff}' ==> after == before + 3
            &&& '\u{10000}' <= c ==> after == before + 4
        }),
{
    let n = text.len() as int;
    let more = text.push(c) + rest;
    lemma_bytes_same(text, more, n);
    assert(more[n] == c);
}

proof fn lemma_bytes_same(a: Seq<char>, b: Seq<char>, n: int)
    requires
        0 <= n <= a.len(),
        n <= b.len(),
        forall|i: int| 0 <= i < n ==> #[trigger] a[i] == b[i],
    ensures
        utf8_len(a, n) == utf8_len(b, n),
    decreases n,
{
    if n > 0 {
        lemma_bytes_same(a, b, n - 1);
        assert(a[n - 1] == b[n - 1]);
    }
}

/// Costs are compared field by field, and the fields are added one by one.
pub proof fn law_cost_fields(a: LayoutCost, b: LayoutCost)
    ensures
        less(a, b) <==> {
            ||| a.overflow < b.overflow
            ||| a.overflow == b.overflow && a.underflow < b.underflow
            ||| a.overflow == b.overflow && a.underflow == b.underflow && a.changed_breaks
                < b.changed_breaks
            ||| a.overflow == b.overflow && a.underflow == b.underflow && a.changed_breaks
                == b.changed_breaks && a.displacement < b.displacement
            ||| a.overflow == b.overflow && a.underflow == b.underflow && a.changed_breaks
                == b.changed_breaks && a.displacement == b.displacement && a.raggedness
                < b.raggedness
            ||| a.overflow == b.overflow && a.underflow == b.underflow && a.changed_breaks
                == b.changed_breaks && a.displacement == b.displacement && a.raggedness
                == b.raggedness && a.lines < b.lines
        },
        sum(a, b).overflow == capped(a.overflow + b.overflow),
        sum(a, b).underflow == capped(a.underflow + b.underflow),
        sum(a, b).changed_breaks == capped(a.changed_breaks + b.changed_breaks),
        sum(a, b).displacement == capped(a.displacement + b.displacement),
        sum(a, b).raggedness == capped(a.raggedness + b.raggedness),
        sum(a, b).lines == capped(a.lines + b.lines),
        no_cost().overflow == 0 && no_cost().underflow == 0 && no_cost().changed_breaks == 0
            && no_cost().displacement == 0 && no_cost().raggedness == 0 && no_cost().lines == 0,
{
}

// ---------------------------------------------------------------------------
// Paragraphs

/// A paragraph is joined from its trimmed lines with single spaces between them,
/// and the authored breaks are where the lines behind the first start.
pub proof fn law_paragraph_text(
    ls: Seq<Seq<char>>,
    k: int,
    w: Seq<char>,
    t: Seq<char>,
    z: Seq<char>,
)
    requires
        0 <= k < ls.len(),
        paragraph_text(ls, ls.len() as int).len() <= usize::MAX,
        ls[k] == w + t + z,
        spaces(w),
        spaces(z),
        t.len() == 0 || inked(t),
    ensures
        paragraph_text(ls, 0) == Seq::<char>::empty(),
        k == 0 ==> paragraph_text(ls, 1) == t,
        k > 0 ==> paragraph_text(ls, k + 1) == paragraph_text(ls, k) + seq![' '] + t,
        anchors_of(ls).len() == ls.len() - 1,
        k > 0 ==> anchors_of(ls)[k - 1] == paragraph_text(ls, k).len() + 1,
{
    lemma_trimmed_parts(w, t, z);
    lemma_anchors(ls);
}

/// A paragraph without lines has no text and no authored breaks.
pub proof fn law_no_paragraph(ls: Seq<Seq<char>>)
    requires
        ls.len() == 0,
    ensures
        paragraph_text(ls, 0).len() == 0,
        anchors_of(ls).len() == 0,
{
}

proof fn lemma_indent_behind(c: char, rest: Seq<char>, tabsize: u8, i: int)
    requires
        0 <= i <= rest.len(),
    ensures
        indent_from(seq![c] + rest, tabsize, i + 1) == indent_from(rest, tabsize, i),
    decreases rest.len() - i,
{
    if i < rest.len() {
        assert((seq![c] + rest)[i + 1] == rest[i]);
        lemma_indent_behind(c, rest, tabsize, i + 1);
    }
}

/// The indentation of a line is that of its first character and of what follows,
/// where a tab is as wide as a step of indentation, and ends at the first character
/// that is no ASCII whitespace.
pub proof fn law_indent(c: char, rest: Seq<char>, tabsize: u8)
    ensures
        indent_from(Seq::empty(), tabsize, 0) == 0,
        c == '\t' ==> indent_from(seq![c] + rest, tabsize, 0) == tabsize + indent_from(
            rest,
            tabsize,
            0,
        ),
        c == ' ' || c == '\n' || c == '\x0c' || c == '\r' ==> indent_from(
            seq![c] + rest,
            tabsize,
            0,
        ) == 1 + indent_from(rest, tabsize, 0),
        c != '\t' && c != ' ' && c != '\n' && c != '\x0c' && c != '\r' ==> indent_from(
            seq![c] + rest,
            tabsize,
            0,
        ) == 0,
{
    assert((seq![c] + rest)[0] == c);
    lemma_indent_behind(c, rest, tabsize, 0);
}

/// A joined paragraph may be broken at its ends, at authored breaks and behind
/// wrap characters, unless a backslash precedes the wrap character or a comment
/// begins at it or before it. The breaks are in order, and there are no others.
pub proof fn law_breaks(
    text: Seq<char>,
    anchors: Seq<usize>,
    comment: Option<usize>,
    wrap_chars: Seq<char>,
    p: usize,
)
    requires
        text.len() <= usize::MAX,
    ensures
        ascending(breaks_of(text, anchors, comment, wrap_chars)),
        breaks_of(text, anchors, comment, wrap_chars).contains(p) <==> {
            ||| p == 0
            ||| p == text.len()
            ||| p < text.len() && exists|i: int|
                0 <= i < anchors.len() && #[trigger] anchors[i] == p
            ||| exists|a: Seq<char>, c: char, b: Seq<char>|
                text == #[trigger] (a.push(c) + b) && a.len() + 1 == p && (exists|j: int|
                    0 <= j < wrap_chars.len() && #[trigger] wrap_chars[j] == c) && !(a.len() > 0
                    && a[a.len() - 1] == '\\') && (comment is None || comment->0 > a.len())
        },
{
    let f = |q: int| legal_break(text, anchors, comment, wrap_chars, q);
    let n = text.len() as int;
    let breaks = breaks_of(text, anchors, comment, wrap_chars);
    lemma_select(f, n + 1);
    assert(breaks == select(f, n + 1));
    assert(breaks.contains(p) <==> p <= n && legal_break(
        text,
        anchors,
        comment,
        wrap_chars,
        p as int,
    )) by {
        if breaks.contains(p) {
            let i = choose|i: int| 0 <= i < breaks.len() && breaks[i] == p;
            assert(f(breaks[i] as int));
        }
        if p <= n && f(p as int) {
            assert(breaks.contains(p));
        }
    }
    if 0 < p <= n {
        let a = text.subrange(0, p - 1);
        let c = text[p - 1];
        let b = text.subrange(p as int, n);
        assert(text =~= a.push(c) + b);
        assert(a.len() > 0 ==> a[a.len() - 1] == text[p - 2]);
    }
    if wrap_chars.contains(text[p - 1]) {
        let j = choose|j: int| 0 <= j < wrap_chars.len() && wrap_chars[j] == text[p - 1];
        assert(wrap_chars[j] == text[p - 1]);
    }
    if anchors.contains(p) {
        let i = choose|i: int| 0 <= i < anchors.len() && anchors[i] == p;
        assert(anchors[i] == p);
    }
    assert forall|a: Seq<char>, c: char, b: Seq<char>|
        text == #[trigger] (a.push(c) + b) && a.len() + 1 == p && (exists|j: int|
            0 <= j < wrap_chars.len() && #[trigger] wrap_chars[j] == c) && !(a.len() > 0
            && a[a.len() - 1] == '\\') && (comment is None || comment->0 > a.len())
        implies breaks.contains(p) by {
        assert(text[p - 1] == c);
        assert(a.len() > 0 ==> text[p - 2] == a[a.len() - 1]);
        let j = choose|j: int| 0 <= j < wrap_chars.len() && #[trigger] wrap_chars[j] == c;
        assert(wrap_chars.contains(wrap_chars[j]));
    }
}

/// A paragraph is measured with the limits that are set. The first line has the
/// indentation of the first authored line, and the lines behind it that of the
/// second, or of the first where there is no second.
pub proof fn law_graph(ls: Seq<Seq<char>>, comment: Option<usize>, args: Args)
    ensures
        ({
            let g = graph_of(ls, comment, args);
            &&& g.par.text == paragraph_text(ls, ls.len() as int)
            &&& g.par.anchors == anchors_of(ls)
            &&& g.par.wraplen == args.wraplen
            &&& g.par.wrapmin == args.wrapmin
            &&& g.breaks == breaks_of(g.par.text, g.par.anchors, comment, args.wrap_chars@)
            &&& ls.len() > 0 ==> g.first_indent == capped(
                indent_from(ls[0], args.tabsize, 0) as int,
            )
            &&& ls.len() > 1 ==> g.continuation_indent == capped(
                indent_from(ls[1], args.tabsize, 0) as int,
            )
            &&& ls.len() == 1 ==> g.continuation_indent == g.first_indent
            &&& ls.len() == 0 ==> g.first_indent == 0 && g.continuation_indent == 0
        }),
{
}

/// The cost of a line between two breaks is that of the text between them, with
/// the chunk up to the break behind it as the next.
pub proof fn law_edge(g: Graph, i: int, j: int)
    ensures
        i == 0 && j + 1 < g.breaks.len() ==> edge(g, i, j) == line_cost(
            g.par,
            g.breaks[i] as int,
            g.breaks[j] as int,
            Some(g.breaks[j + 1]),
            g.first_indent,
        ),
        i > 0 && j + 1 < g.breaks.len() ==> edge(g, i, j) == line_cost(
            g.par,
            g.breaks[i] as int,
            g.breaks[j] as int,
            Some(g.breaks[j + 1]),
            g.continuation_indent,
        ),
        i == 0 && j + 1 >= g.breaks.len() ==> edge(g, i, j) == line_cost(
            g.par,
            g.breaks[i] as int,
            g.breaks[j] as int,
            None,
            g.first_indent,
        ),
        i > 0 && j + 1 >= g.breaks.len() ==> edge(g, i, j) == line_cost(
            g.par,
            g.breaks[i] as int,
            g.breaks[j] as int,
            None,
            g.continuation_indent,
        ),
{
}

// ---------------------------------------------------------------------------
// The chosen lines

/// A layout is written line by line, each trimmed and with a line end.
pub proof fn law_laid_out(
    text: Seq<char>,
    cuts: Seq<usize>,
    p: usize,
    line_end: Seq<char>,
    w: Seq<char>,
    t: Seq<char>,
    z: Seq<char>,
)
    requires
        cuts.len() > 0,
        text.subrange(cuts.last() as int, p as int) == w + t + z,
        spaces(w),
        spaces(z),
        t.len() == 0 || inked(t),
    ensures
        laid_out(text, Seq::empty(), line_end) == Seq::<char>::empty(),
        laid_out(text, seq![p], line_end) == Seq::<char>::empty(),
        laid_out(text, cuts.push(p), line_end) == laid_out(text, cuts, line_end) + t + line_end,
{
    lemma_trimmed_parts(w, t, z);
    assert(cuts.push(p).drop_last() =~= cuts);
}

/// Minimal reflow lays out the joined text at the chosen breaks, and makes nothing
/// of nothing.
pub proof fn law_minimal(
    ls: Seq<Seq<char>>,
    comment: Option<usize>,
    args: Args,
    line_end: Seq<char>,
)
    ensures
        ({
            let g = graph_of(ls, comment, args);
            let path = chosen(g, g.breaks.len() - 1);
            let cuts = Seq::new(path.len(), |m: int| g.breaks[path[m]]);
            &&& layout_of(g) == cuts
            &&& g.par.text.len() == 0 ==> minimal(ls, comment, args, line_end).len() == 0
            &&& g.par.text.len() > 0 ==> minimal(ls, comment, args, line_end) == laid_out(
                g.par.text,
                cuts,
                line_end,
            )
        }),
{
    let g = graph_of(ls, comment, args);
    let path = chosen(g, g.breaks.len() - 1);
    assert(layout_of(g) =~= Seq::new(path.len(), |m: int| g.breaks[path[m]]));
}

proof fn lemma_first_of_best(g: Graph, k: int, n: int)
    requires
        graph_wf(g),
        0 < n <= k < g.breaks.len(),
    ensures
        best(g, k, n) is Some,
        forall|i: int|
            0 <= i < best(g, k, n)->0.prior ==> less(
                best(g, k, n)->0.cost,
                sum((#[trigger] best(g, i, i))->0.cost, edge(g, i, k)),
            ),
    decreases n,
{
    lemma_best(g, n - 1, n - 1);
    if n > 1 {
        lemma_first_of_best(g, k, n - 1);
        let before = best(g, k, n - 1)->0;
        let after = best(g, k, n)->0;
        assert forall|i: int| 0 <= i < after.prior implies less(
            after.cost,
            sum((#[trigger] best(g, i, i))->0.cost, edge(g, i, k)),
        ) by {
            let through = sum(best(g, i, i)->0.cost, edge(g, i, k));
            if after.prior == n - 1 && less(after.cost, before.cost) {
                lemma_best_is_least(g, k, n - 1, i);
                law_cost_fields(after.cost, before.cost);
                law_cost_fields(through, before.cost);
                law_cost_fields(after.cost, through);
            }
        }
    }
}

/// Of the ways to a break that go on from the chosen ways to the breaks before it,
/// the chosen one is the cheapest, and of several that are equally cheap the one
/// whose last line starts first.
pub proof fn law_chosen(g: Graph, k: int, i: int)
    requires
        graph_wf(g),
        0 <= i < k < g.breaks.len(),
    ensures
        chosen(g, 0) == seq![0int],
        ({
            let path = chosen(g, k);
            let q = path[path.len() - 2];
            &&& path.len() >= 2
            &&& 0 <= q < k
            &&& path == chosen(g, q).push(k)
            &&& !less(path_cost(g, chosen(g, i).push(k)), path_cost(g, path))
            &&& i < q ==> less(path_cost(g, path), path_cost(g, chosen(g, i).push(k)))
        }),
{
    lemma_best(g, k, k);
    lemma_best_is_least(g, k, k, i);
    lemma_first_of_best(g, k, k);
    lemma_chosen_cost(g, k);
    lemma_chosen_cost(g, i);
    let q = best(g, k, k)->0.prior;
    lemma_chosen(g, q);
    lemma_chosen(g, i);
    assert(chosen(g, k) == chosen(g, q).push(k));
    let other = chosen(g, i).push(k);
    assert(other.drop_last() =~= chosen(g, i));
    assert(other[other.len() - 2] == i);
    assert(path_cost(g, other) == sum(best(g, i, i)->0.cost, edge(g, i, k)));
}

/// Whether a line between two breaks keeps within the limit, and reaches the
/// target, by itself or with the next chunk, unless it is the last.
pub open spec fn good_line(g: Graph, i: int, j: int) -> bool {
    let start = g.breaks[i] as int;
    let end = g.breaks[j] as int;
    let indent = if i == 0 {
        g.first_indent
    } else {
        g.continuation_indent
    };
    &&& long(g.par.text, start, end, indent) <= g.par.wraplen
    &&& {
        ||| end == g.par.text.len()
        ||| long(g.par.text, start, end, indent) >= g.par.wrapmin
        ||| j + 1 < g.breaks.len() && long(g.par.text, start, g.breaks[j + 1] as int, indent)
            >= g.par.wrapmin
    }
}

proof fn lemma_good_line(g: Graph, i: int, j: int)
    requires
        graph_wf(g),
        g.par.text.len() <= usize::MAX,
        0 <= i < j < g.breaks.len(),
    ensures
        good_line(g, i, j) <==> edge(g, i, j).overflow == 0 && edge(g, i, j).underflow == 0,
{
    let n = g.breaks.len() - 1;
    assert(g.breaks[i] < g.breaks[j]);
    assert(j < n ==> g.breaks[j] < g.breaks[n]);
    let indent = if i == 0 {
        g.first_indent
    } else {
        g.continuation_indent
    };
    let next: Option<usize> = if j + 1 < g.breaks.len() {
        Some(g.breaks[j + 1])
    } else {
        None
    };
    if j + 1 < g.breaks.len() {
        assert(g.breaks[j] < g.breaks[j + 1]);
        assert(j + 1 < n ==> g.breaks[j + 1] < g.breaks[n]);
    }
    law_edge(g, i, j);
    law_line_cost(g.par, g.breaks[i] as int, g.breaks[j] as int, next, indent);
}

proof fn lemma_good_ways(g: Graph, path: Seq<int>, k: int)
    requires
        graph_wf(g),
        g.par.text.len() <= usize::MAX,
        0 <= k < g.breaks.len(),
        is_path(g, path, k),
        forall|m: int, l: int|
            0 <= m && l == m + 1 && l < path.len() ==> good_line(
                g,
                #[trigger] path[m],
                #[trigger] path[l],
            ),
    ensures
        best(g, k, k) is Some,
        best(g, k, k)->0.cost.overflow == 0,
        best(g, k, k)->0.cost.underflow == 0,
    decreases path.len(),
{
    lemma_best(g, k, k);
    let n = path.len() as int;
    if n >= 2 {
        lemma_path_prefix(g, path, k);
        let head = path.drop_last();
        let i = path[n - 2];
        assert forall|m: int, l: int| 0 <= m && l == m + 1 && l < head.len() implies good_line(
            g,
            #[trigger] head[m],
            #[trigger] head[l],
        ) by {
            assert(good_line(g, path[m], path[l]));
        }
        lemma_good_ways(g, head, i);
        assert(good_line(g, path[n - 2], path[n - 1]));
        lemma_good_line(g, i, k);
        lemma_best_is_least(g, k, k, i);
        let through = sum(best(g, i, i)->0.cost, edge(g, i, k));
        law_cost_fields(best(g, i, i)->0.cost, edge(g, i, k));
        law_cost_fields(through, best(g, k, k)->0.cost);
    }
}

proof fn lemma_free_lines(g: Graph, path: Seq<int>, m: int)
    requires
        path_cost(g, path).overflow == 0,
        path_cost(g, path).underflow == 0,
        0 < m < path.len(),
    ensures
        edge(g, path[m - 1], path[m]).overflow == 0,
        edge(g, path[m - 1], path[m]).underflow == 0,
    decreases path.len(),
{
    let n = path.len() as int;
    law_cost_fields(path_cost(g, path.drop_last()), edge(g, path[n - 2], path[n - 1]));
    if m < n - 1 {
        lemma_free_lines(g, path.drop_last(), m);
    }
}

/// If some choice of breaks keeps every line within the limit, with no line but the
/// last short of the target both by itself and with its next chunk, then minimal
/// reflow makes such a choice: every line it chooses keeps within the limit, and
/// none but the last falls short.
pub proof fn law_no_short_lines(
    ls: Seq<Seq<char>>,
    comment: Option<usize>,
    args: Args,
    path: Seq<int>,
    m: int,
)
    requires
        0 < paragraph_text(ls, ls.len() as int).len() <= usize::MAX,
        is_path(graph_of(ls, comment, args), path, graph_of(ls, comment, args).breaks.len() - 1),
        forall|m: int, l: int|
            0 <= m && l == m + 1 && l < path.len() ==> good_line(
                graph_of(ls, comment, args),
                #[trigger] path[m],
                #[trigger] path[l],
            ),
        0 < m < layout_of(graph_of(ls, comment, args)).len(),
    ensures
        ({
            let g = graph_of(ls, comment, args);
            let text = paragraph_text(ls, ls.len() as int);
            let cuts = layout_of(g);
            let path = chosen(g, g.breaks.len() - 1);
            let indent = if m == 1 {
                g.first_indent
            } else {
                g.continuation_indent
            };
            let n = long(text, cuts[m - 1] as int, cuts[m] as int, indent);
            &&& n <= args.wraplen
            &&& cuts[m] < text.len() && n < args.wrapmin ==> path[m] + 1 < g.breaks.len()
                && long(text, cuts[m - 1] as int, g.breaks[path[m] + 1] as int, indent)
                >= args.wrapmin
        }),
{
    let g = graph_of(ls, comment, args);
    let k = g.breaks.len() - 1;
    lemma_breaks(g.par.text, g.par.anchors, comment, args.wrap_chars@);
    lemma_good_ways(g, path, k);
    lemma_chosen_cost(g, k);
    lemma_chosen(g, k);
    let best_path = chosen(g, k);
    lemma_free_lines(g, best_path, m);
    assert(best_path[m - 1] < best_path[m]);
    assert(m > 1 ==> best_path[0] < best_path[m - 1]);
    lemma_good_line(g, best_path[m - 1], best_path[m]);
}

} // verus!
