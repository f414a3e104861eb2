//! Minimal reflow leaves a paragraph alone whose authored lines are fine.

use vstd::prelude::*;

use crate::config::Args;
use crate::cost::LayoutCost;
use crate::minimal::{
    anchors_of, best, chosen, count_between, edge, graph_of, graph_wf, indent_from, laid_out,
    layout_of, lemma_anchors, lemma_best, lemma_breaks, minimal, paragraph_text, positions, sat,
    Graph,
};
use crate::optimal::{is_path, lemma_best_is_least, lemma_chosen_cost, path_cost};
use crate::text::{ascending, blank, lemma_trimmed, lemma_trimmed_unique, trimmed, width};

verus! {

/// Whether a cost has neither overflow nor underflow nor changed breaks.
pub open spec fn faultless(c: LayoutCost) -> bool {
    c.overflow == 0 && c.underflow == 0 && c.changed_breaks == 0
}

/// The authored breaks of a paragraph, with its start and its end.
pub open spec fn authored_cuts(g: Graph) -> Seq<usize> {
    seq![0usize] + g.par.anchors + seq![g.par.text.len() as usize]
}

/// Whether the authored breaks of a graph ascend, lie inside its text and are
/// among its breaks.
pub open spec fn anchors_wf(g: Graph) -> bool {
    &&& g.par.text.len() <= usize::MAX
    &&& ascending(g.par.anchors)
    &&& forall|i: int|
        0 <= i < g.par.anchors.len() ==> 0 < #[trigger] g.par.anchors[i] < g.par.text.len()
            && g.breaks.contains(g.par.anchors[i])
}

/// The number of the break at a position.
pub open spec fn number_of(g: Graph, p: usize) -> int {
    choose|i: int| 0 <= i < g.breaks.len() && g.breaks[i] == p
}

proof fn lemma_count_between(v: Seq<usize>, n: int, start: int, end: int)
    requires
        0 <= n <= v.len(),
    ensures
        count_between(v, n, start, end) == 0 <==> forall|i: int|
            0 <= i < n ==> !(start < #[trigger] v[i] < end),
    decreases n,
{
    if n > 0 {
        lemma_count_between(v, n - 1, start, end);
    }
}

/// Two lists of positions that ascend and hold the same positions are equal.
pub proof fn lemma_ascending_unique(a: Seq<usize>, b: Seq<usize>)
    requires
        ascending(a),
        ascending(b),
        forall|x: usize| a.contains(x) <==> b.contains(x),
    ensures
        a == b,
    decreases a.len(),
{
    if a.len() == 0 {
        if b.len() > 0 {
            assert(b.contains(b[0]));
        }
        assert(a =~= b);
    } else {
        assert(a.contains(a[0]));
        assert(b.len() > 0);
        let x = a.last();
        let y = b.last();
        assert(a.contains(x));
        assert(b.contains(y));
        let i = choose|i: int| 0 <= i < b.len() && b[i] == x;
        let j = choose|j: int| 0 <= j < a.len() && a[j] == y;
        assert(i < b.len() - 1 ==> b[i] < b[b.len() - 1]);
        assert(j < a.len() - 1 ==> a[j] < a[a.len() - 1]);
        assert(x == y);
        let a1 = a.drop_last();
        let b1 = b.drop_last();
        assert forall|z: usize| a1.contains(z) <==> b1.contains(z) by {
            if a1.contains(z) {
                let k = choose|k: int| 0 <= k < a1.len() && a1[k] == z;
                assert(a[k] == z && a[k] < a[a.len() - 1]);
                assert(a.contains(z));
                let m = choose|m: int| 0 <= m < b.len() && b[m] == z;
                assert(b1[m] == z);
            }
            if b1.contains(z) {
                let k = choose|k: int| 0 <= k < b1.len() && b1[k] == z;
                assert(b[k] == z && b[k] < b[b.len() - 1]);
                assert(b.contains(z));
                let m = choose|m: int| 0 <= m < a.len() && a[m] == z;
                assert(a1[m] == z);
            }
        }
        lemma_ascending_unique(a1, b1);
        assert(a =~= a1.push(x));
        assert(b =~= b1.push(y));
    }
}

/// The authored cuts ascend, are breaks, and no authored break lies between
/// two that follow one another.
proof fn lemma_authored_cuts(g: Graph)
    requires
        graph_wf(g),
        anchors_wf(g),
    ensures
        ({
            let cuts = authored_cuts(g);
            &&& cuts.len() == g.par.anchors.len() + 2
            &&& ascending(cuts)
            &&& cuts[0] == 0
            &&& cuts.last() == g.par.text.len()
            &&& forall|j: int| 0 < j < cuts.len() - 1 ==> #[trigger] cuts[j] == g.par.anchors[j - 1]
            &&& forall|j: int| 0 <= j < cuts.len() ==> g.breaks.contains(#[trigger] cuts[j])
        }),
{
    let cuts = authored_cuts(g);
    let n = cuts.len() as int;
    assert(g.breaks.contains(g.breaks[0]));
    assert(g.breaks.contains(g.breaks[g.breaks.len() - 1]));
    assert forall|j: int| 0 < j < n - 1 implies #[trigger] cuts[j] == g.par.anchors[j - 1] by {}
    assert(cuts[n - 1] == g.par.text.len() as usize);
    assert(g.par.text.len() > 0) by {
        assert(g.breaks[0] < g.breaks[g.breaks.len() - 1]);
    }
    assert forall|i: int, j: int| 0 <= i < j < cuts.len() implies cuts[i] < cuts[j] by {
        if 0 < i && j < n - 1 {
            assert(g.par.anchors[i - 1] < g.par.anchors[j - 1]);
        } else if 0 < i {
            assert(g.par.anchors[i - 1] < g.par.text.len());
        } else if j < n - 1 {
            assert(0 < g.par.anchors[j - 1]);
        }
    }
    assert forall|j: int| 0 <= j < cuts.len() implies g.breaks.contains(#[trigger] cuts[j]) by {
        if 0 < j < n - 1 {
            assert(g.breaks.contains(g.par.anchors[j - 1]));
        }
    }
}

/// A line between two authored cuts that follow one another changes no break.
proof fn lemma_authored_line(g: Graph, j: int)
    requires
        graph_wf(g),
        anchors_wf(g),
        0 <= j < authored_cuts(g).len() - 1,
    ensures
        ({
            let cuts = authored_cuts(g);
            let a = number_of(g, cuts[j]);
            let b = number_of(g, cuts[j + 1]);
            &&& 0 <= a < b < g.breaks.len()
            &&& g.breaks[a] == cuts[j]
            &&& g.breaks[b] == cuts[j + 1]
            &&& edge(g, a, b).changed_breaks == 0
            &&& j == 0 ==> a == 0
            &&& j > 0 ==> a > 0
            &&& j + 1 == cuts.len() - 1 ==> b == g.breaks.len() - 1
        }),
{
    let cuts = authored_cuts(g);
    let anchors = g.par.anchors;
    lemma_authored_cuts(g);
    assert(g.breaks.contains(cuts[j]) && g.breaks.contains(cuts[j + 1]));
    let a = number_of(g, cuts[j]);
    let b = number_of(g, cuts[j + 1]);
    assert(cuts[j] < cuts[j + 1]);
    assert(a > b ==> g.breaks[b] < g.breaks[a]);
    assert(a > 0 ==> g.breaks[0] < g.breaks[a]);
    assert(j > 0 ==> cuts[0] < cuts[j]);
    assert(b < g.breaks.len() - 1 ==> g.breaks[b] < g.breaks[g.breaks.len() - 1]);
    assert forall|i: int| 0 <= i < anchors.len() implies !(cuts[j] < #[trigger] anchors[i] < cuts[j
        + 1]) by {
        assert(cuts[i + 1] == anchors[i]);
        assert(i + 1 < j ==> cuts[i + 1] < cuts[j]);
        assert(i + 1 > j + 1 ==> cuts[j + 1] < cuts[i + 1]);
    }
    lemma_count_between(anchors, anchors.len() as int, cuts[j] as int, cuts[j + 1] as int);
    if j + 1 < cuts.len() - 1 {
        assert(cuts[j + 1] == anchors[j]);
        assert(anchors.contains(cuts[j + 1]));
    }
}

/// Whether no line of the authored layout exceeds the limit or falls short of
/// the target.
pub open spec fn authored_fits(g: Graph) -> bool {
    forall|j: int|
        0 <= j < authored_cuts(g).len() - 1 ==> {
            let e = edge(
                g,
                number_of(g, #[trigger] authored_cuts(g)[j]),
                number_of(g, authored_cuts(g)[j + 1]),
            );
            e.overflow == 0 && e.underflow == 0
        }
}

proof fn lemma_faultless_to(g: Graph, j: int)
    requires
        graph_wf(g),
        anchors_wf(g),
        authored_fits(g),
        0 <= j < authored_cuts(g).len(),
    ensures
        ({
            let k = number_of(g, authored_cuts(g)[j]);
            &&& 0 <= k < g.breaks.len()
            &&& best(g, k, k) is Some
            &&& faultless(best(g, k, k)->0.cost)
        }),
    decreases j,
{
    let cuts = authored_cuts(g);
    lemma_authored_cuts(g);
    if j == 0 {
        lemma_authored_line(g, 0);
        lemma_best(g, 0, 0);
    } else {
        lemma_faultless_to(g, j - 1);
        lemma_authored_line(g, j - 1);
        let a = number_of(g, cuts[j - 1]);
        let b = number_of(g, cuts[j]);
        assert(edge(g, a, b).overflow == 0 && edge(g, a, b).underflow == 0);
        lemma_best_is_least(g, b, b, a);
    }
}

/// The lines of a layout without changed breaks change none.
proof fn lemma_no_change(g: Graph, path: Seq<int>, i: int)
    requires
        path_cost(g, path).changed_breaks == 0,
        0 < i < path.len(),
    ensures
        edge(g, path[i - 1], path[i]).changed_breaks == 0,
    decreases path.len(),
{
    if i < path.len() - 1 {
        lemma_no_change(g, path.drop_last(), i);
    }
}

/// Some two neighbouring entries of an ascending list enclose a position.
proof fn lemma_enclosed(l: Seq<usize>, p: usize, n: int) -> (i: int)
    requires
        0 < n < l.len(),
        l[0] <= p < l[n],
    ensures
        0 <= i < n,
        l[i] <= p < l[i + 1],
    decreases n,
{
    if l[n - 1] <= p {
        n - 1
    } else {
        lemma_enclosed(l, p, n - 1)
    }
}

/// Whether no entry of a list lies strictly between two positions.
spec fn none_between(v: Seq<usize>, start: usize, end: usize) -> bool {
    forall|a: int| 0 <= a < v.len() ==> !(start < #[trigger] v[a] < end)
}

/// Cuts at no other positions than those of a list, and at all of them, are the
/// list with its two ends.
proof fn lemma_same_cuts(l: Seq<usize>, anchors: Seq<usize>, cuts: Seq<usize>, end: usize)
    requires
        ascending(l),
        l.len() >= 2,
        l[0] == 0,
        l.last() == end,
        forall|i: int| 0 < i < l.len() ==> none_between(anchors, l[i - 1], #[trigger] l[i]),
        forall|i: int| 0 < i < l.len() - 1 ==> anchors.contains(#[trigger] l[i]),
        cuts == seq![0usize] + anchors + seq![end],
        ascending(cuts),
    ensures
        l == cuts,
{
    let n = cuts.len() as int;
    assert forall|x: usize| l.contains(x) implies cuts.contains(x) by {
        let i = choose|i: int| 0 <= i < l.len() && l[i] == x;
        if i == 0 {
            assert(cuts[0] == x);
        } else if i == l.len() - 1 {
            assert(cuts[n - 1] == x);
        } else {
            let a = choose|a: int| 0 <= a < anchors.len() && anchors[a] == l[i];
            assert(cuts[a + 1] == x);
        }
    }
    assert forall|x: usize| cuts.contains(x) implies l.contains(x) by {
        let j = choose|j: int| 0 <= j < cuts.len() && cuts[j] == x;
        if j == 0 {
            assert(l[0] == x);
        } else if j == n - 1 {
            assert(l[l.len() - 1] == x);
        } else {
            assert(anchors[j - 1] == x);
            assert(cuts[0] < cuts[j] < cuts[n - 1]);
            let i = lemma_enclosed(l, x, l.len() - 1);
            let m = i + 1;
            assert(none_between(anchors, l[m - 1], l[m]));
            assert(l[i] == x);
        }
    }
    lemma_ascending_unique(l, cuts);
}

/// A layout that changes no break has exactly the authored breaks.
pub proof fn lemma_unchanged_path(g: Graph, path: Seq<int>)
    requires
        graph_wf(g),
        anchors_wf(g),
        is_path(g, path, g.breaks.len() - 1),
        path_cost(g, path).changed_breaks == 0,
    ensures
        positions(g.breaks, path) == authored_cuts(g),
{
    let anchors = g.par.anchors;
    let l = positions(g.breaks, path);
    let k = g.breaks.len() - 1;
    let n = path.len() as int;
    assert(n >= 2);
    assert forall|i: int| 0 <= i < n implies 0 <= #[trigger] path[i] <= k by {
        assert(i > 0 ==> path[0] < path[i]);
        assert(i < n - 1 ==> path[i] < path[n - 1]);
    }
    assert forall|i: int, j: int| 0 <= i < j < l.len() implies l[i] < l[j] by {
        assert(path[i] < path[j]);
        assert(g.breaks[path[i]] < g.breaks[path[j]]);
    }
    assert(l[0] == g.breaks[path[0]]);
    assert(l[n - 1] == g.breaks[path[n - 1]]);
    assert forall|i: int| 0 < i < l.len() implies {
        &&& none_between(anchors, l[i - 1], #[trigger] l[i])
        &&& i < l.len() - 1 ==> anchors.contains(l[i])
    } by {
        lemma_no_change(g, path, i);
        assert(l[i - 1] == g.breaks[path[i - 1]]);
        assert(l[i] == g.breaks[path[i]]);
        lemma_count_between(anchors, anchors.len() as int, l[i - 1] as int, l[i] as int);
        assert(i < l.len() - 1 ==> l[i] < l[l.len() - 1]);
    }
    lemma_authored_cuts(g);
    lemma_same_cuts(l, anchors, authored_cuts(g), g.par.text.len() as usize);
}

/// If no line of the authored layout exceeds the limit or falls short of the
/// target, the chosen layout has exactly the authored breaks.
pub proof fn law_authored_layout_chosen(g: Graph)
    requires
        graph_wf(g),
        anchors_wf(g),
        authored_fits(g),
    ensures
        layout_of(g) == authored_cuts(g),
{
    let cuts = authored_cuts(g);
    let k = g.breaks.len() - 1;
    let n = cuts.len() as int;
    lemma_chosen_cost(g, k);
    assert(path_cost(g, chosen(g, k)).changed_breaks == 0) by {
        lemma_authored_cuts(g);
        lemma_authored_line(g, n - 2);
        lemma_faultless_to(g, n - 1);
    }
    lemma_unchanged_path(g, chosen(g, k));
}

// ---------------------------------------------------------------------------
// Lines

/// Where line `j` of a paragraph starts in the joined text.
pub open spec fn start_in_text(ls: Seq<Seq<char>>, j: int) -> int {
    if j <= 0 {
        0
    } else {
        paragraph_text(ls, j).len() as int + 1
    }
}

/// The joined text holds each line, trimmed, and a space behind all but the
/// last.
pub proof fn lemma_line_in_text(ls: Seq<Seq<char>>, n: int, j: int)
    requires
        0 <= j < n <= ls.len(),
    ensures
        ({
            let text = paragraph_text(ls, n);
            let end = paragraph_text(ls, j + 1).len() as int;
            &&& 0 <= start_in_text(ls, j) <= end <= text.len()
            &&& text.subrange(start_in_text(ls, j), end) == trimmed(ls[j])
            &&& j + 1 < n ==> end < text.len() && text[end] == ' '
        }),
    decreases n,
{
    let text = paragraph_text(ls, n);
    let start = start_in_text(ls, j);
    let end = paragraph_text(ls, j + 1).len() as int;
    if j == n - 1 {
        if n == 1 {
            assert(text.subrange(0, end) =~= text);
        } else {
            assert(text.subrange(start, end) =~= trimmed(ls[j]));
        }
    } else {
        lemma_line_in_text(ls, n - 1, j);
        let head = paragraph_text(ls, n - 1);
        assert(text.subrange(start, end) =~= head.subrange(start, end));
        if j + 1 < n - 1 {
            assert(text[end] == head[end]);
        }
    }
}

/// The lines of a paragraph, each trimmed and on a line of its own.
pub open spec fn kept(ls: Seq<Seq<char>>, line_end: Seq<char>, k: int) -> Seq<char>
    decreases k,
{
    if k <= 0 {
        seq![]
    } else {
        kept(ls, line_end, k - 1) + trimmed(ls[k - 1]) + line_end
    }
}

/// The length of an authored line. The first is measured with its own
/// indentation, the others with that of the second.
pub open spec fn authored_length(ls: Seq<Seq<char>>, args: Args, j: int) -> usize {
    sat(
        width(ls[j]) + sat(
            indent_from(
                ls[if j == 0 {
                    0
                } else {
                    1int
                }],
                args.tabsize,
                0,
            ) as int,
        ),
    )
}

/// Whether an authored line keeps within the limit and, unless it is the last,
/// reaches the target.
pub open spec fn line_is_fine(ls: Seq<Seq<char>>, args: Args, j: int) -> bool {
    &&& authored_length(ls, args, j) <= args.wraplen
    &&& j < ls.len() - 1 ==> authored_length(ls, args, j) >= args.wrapmin
}

/// The part of the joined text between two authored cuts is a line.
proof fn lemma_authored_part(ls: Seq<Seq<char>>, comment: Option<usize>, args: Args, j: int)
    requires
        0 <= j < ls.len(),
        trimmed(ls[j]).len() > 0,
        paragraph_text(ls, ls.len() as int).len() <= usize::MAX,
    ensures
        ({
            let g = graph_of(ls, comment, args);
            let cuts = authored_cuts(g);
            &&& cuts.len() == ls.len() + 1
            &&& 0 <= cuts[j] <= cuts[j + 1] <= g.par.text.len()
            &&& trimmed(g.par.text.subrange(cuts[j] as int, cuts[j + 1] as int)) == trimmed(ls[j])
        }),
{
    let g = graph_of(ls, comment, args);
    let text = g.par.text;
    let cuts = authored_cuts(g);
    let n = ls.len() as int;
    lemma_anchors(ls);
    lemma_line_in_text(ls, n, j);
    let start = start_in_text(ls, j);
    let end = paragraph_text(ls, j + 1).len() as int;
    if j > 0 {
        assert(cuts[j] == anchors_of(ls)[j - 1]);
    }
    assert(cuts[j] == start);
    let stop = cuts[j + 1] as int;
    if j + 1 < n {
        assert(cuts[j + 1] == anchors_of(ls)[j]);
        assert(stop == end + 1);
    } else {
        assert(stop == end);
    }
    let part = text.subrange(start, stop);
    let line = trimmed(ls[j]);
    lemma_trimmed(ls[j]);
    assert(part.subrange(0, line.len() as int) =~= line);
    assert(part[0] == line[0]);
    assert(part[line.len() - 1] == line[line.len() - 1]);
    assert(blank(part.subrange(line.len() as int, part.len() as int))) by {
        if j + 1 < n {
            assert(part[line.len() as int] == text[end]);
        }
    }
    assert(blank(part.subrange(0, 0)));
    lemma_trimmed_unique(part, 0, line.len() as int);
}

proof fn lemma_laid_out_kept(
    ls: Seq<Seq<char>>,
    comment: Option<usize>,
    args: Args,
    line_end: Seq<char>,
    k: int,
)
    requires
        0 <= k <= ls.len(),
        forall|j: int| 0 <= j < ls.len() ==> trimmed(#[trigger] ls[j]).len() > 0,
        paragraph_text(ls, ls.len() as int).len() <= usize::MAX,
    ensures
        ({
            let g = graph_of(ls, comment, args);
            laid_out(g.par.text, authored_cuts(g).take(k + 1), line_end) == kept(ls, line_end, k)
        }),
    decreases k,
{
    let g = graph_of(ls, comment, args);
    let cuts = authored_cuts(g);
    if k > 0 {
        lemma_laid_out_kept(ls, comment, args, line_end, k - 1);
        lemma_authored_part(ls, comment, args, k - 1);
        assert(cuts.take(k + 1).drop_last() == cuts.take(k));
        assert(cuts.take(k + 1)[k - 1] == cuts[k - 1]);
        assert(cuts.take(k + 1)[k] == cuts[k]);
    }
}

/// A paragraph whose authored lines all keep within the limit and, but for the
/// last, reach the target keeps its breaks: each line comes out trimmed, and
/// nothing else changes.
pub proof fn law_fine_lines_are_kept(
    ls: Seq<Seq<char>>,
    comment: Option<usize>,
    args: Args,
    line_end: Seq<char>,
)
    requires
        ls.len() > 0,
        paragraph_text(ls, ls.len() as int).len() <= usize::MAX,
        forall|j: int| 0 <= j < ls.len() ==> trimmed(#[trigger] ls[j]).len() > 0,
        forall|j: int| 0 <= j < ls.len() ==> #[trigger] line_is_fine(ls, args, j),
    ensures
        minimal(ls, comment, args, line_end) == kept(ls, line_end, ls.len() as int),
{
    let g = graph_of(ls, comment, args);
    let text = g.par.text;
    let anchors = g.par.anchors;
    let n = ls.len() as int;
    lemma_line_in_text(ls, n, 0);
    assert(text.len() > 0) by {
        assert(trimmed(ls[0]).len() > 0);
    }
    lemma_breaks(text, anchors, comment, args.wrap_chars@);
    lemma_anchors(ls);
    assert forall|i: int| 0 <= i < anchors.len() implies 0 < #[trigger] anchors[i] < text.len()
        && g.breaks.contains(anchors[i]) by {
        lemma_line_in_text(ls, n, i + 1);
        assert(trimmed(ls[i + 1]).len() > 0);
        assert(anchors.contains(anchors[i]));
        let p = anchors[i] as int;
        assert(anchors.contains(p as usize));
    }
    let cuts = authored_cuts(g);
    assert forall|j: int| 0 <= j < cuts.len() - 1 implies {
        let e = edge(g, number_of(g, #[trigger] cuts[j]), number_of(g, cuts[j + 1]));
        e.overflow == 0 && e.underflow == 0
    } by {
        assert(trimmed(ls[j]).len() > 0);
        lemma_authored_part(ls, comment, args, j);
        lemma_authored_line(g, j);
        assert(line_is_fine(ls, args, j));
    }
    law_authored_layout_chosen(g);
    lemma_laid_out_kept(ls, comment, args, line_end, n);
    assert(cuts.take(n + 1) =~= cuts);
}

} // verus!
