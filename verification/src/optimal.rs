//! What the layouts of minimal reflow guarantee.

use vstd::prelude::*;

use crate::config::Args;
use crate::cost::{
    law_cost_order_total, law_cost_order_transitive, law_cost_sum_monotone, less, no_cost, sum,
    sum_is_exact, LayoutCost,
};
use crate::minimal::{
    best, byte_offsets, chosen, count_between, edge, graph_of, graph_wf, laid_out, layout_of,
    lemma_best, lemma_breaks, lemma_chosen, line_length, minimal, nearest, paragraph_text,
    positions, sat, utf8_len, Graph,
};
use crate::text::lemma_trimmed;

verus! {

// ---------------------------------------------------------------------------
// Paths

/// Whether a list of breaks, by number, is a layout of the text up to break
/// `k`.
pub open spec fn is_path(g: Graph, path: Seq<int>, k: int) -> bool {
    &&& path.len() > 0
    &&& path[0] == 0
    &&& path.last() == k
    &&& forall|i: int, j: int| 0 <= i < j < path.len() ==> path[i] < path[j]
}

/// The cost of a layout.
pub open spec fn path_cost(g: Graph, path: Seq<int>) -> LayoutCost
    decreases path.len(),
{
    let n = path.len() as int;
    if n < 2 {
        no_cost()
    } else {
        sum(path_cost(g, path.drop_last()), edge(g, path[n - 2], path[n - 1]))
    }
}

/// Whether the cost of a layout fits in machine words.
pub open spec fn path_exact(g: Graph, path: Seq<int>) -> bool
    decreases path.len(),
{
    let n = path.len() as int;
    n >= 2 ==> path_exact(g, path.drop_last()) && sum_is_exact(
        path_cost(g, path.drop_last()),
        edge(g, path[n - 2], path[n - 1]),
    )
}

pub proof fn lemma_path_prefix(g: Graph, path: Seq<int>, k: int)
    requires
        is_path(g, path, k),
        path.len() >= 2,
    ensures
        is_path(g, path.drop_last(), path[path.len() - 2]),
        0 <= path[path.len() - 2] < k,
{
    let n = path.len() as int;
    let head = path.drop_last();
    assert(path[n - 2] < path[n - 1]);
    assert(n > 2 ==> path[0] < path[n - 2]);
    assert forall|i: int, j: int| 0 <= i < j < head.len() implies head[i] < head[j] by {
        assert(path[i] < path[j]);
    }
}

/// The cheaper of two costs is dearer than neither.
proof fn lemma_cheaper(a: LayoutCost, b: LayoutCost)
    ensures
        less(a, b) ==> !less(b, a),
        !less(a, a),
{
    law_cost_order_total(a, b);
    law_cost_order_total(a, a);
}

proof fn lemma_not_less_transitive(a: LayoutCost, b: LayoutCost, c: LayoutCost)
    requires
        !less(a, b),
        !less(b, c),
    ensures
        !less(a, c),
{
    law_cost_order_total(a, b);
    law_cost_order_total(b, c);
    law_cost_order_total(a, c);
    if less(a, c) {
        if a != b {
            law_cost_order_transitive(b, a, c);
        }
    }
}

/// With one more break to come from, the best way to a break is the cheaper one
/// of the way before and the way through that break.
proof fn lemma_best_step(g: Graph, k: int, n: int)
    requires
        0 < n <= k,
        best(g, n - 1, n - 1) is Some,
    ensures
        ({
            let through = sum(best(g, n - 1, n - 1)->0.cost, edge(g, n - 1, k));
            &&& best(g, k, n) is Some
            &&& match best(g, k, n - 1) {
                Some(before) => best(g, k, n)->0.cost == (if less(through, before.cost) {
                    through
                } else {
                    before.cost
                }),
                None => best(g, k, n)->0.cost == through,
            }
        }),
{
}

/// The best way to a break is no dearer than one through any of the breaks
/// before it.
pub proof fn lemma_best_is_least(g: Graph, k: int, n: int, i: int)
    requires
        graph_wf(g),
        0 < k < g.breaks.len(),
        0 <= i < n <= k,
    ensures
        best(g, i, i) is Some,
        best(g, k, n) is Some,
        !less(sum(best(g, i, i)->0.cost, edge(g, i, k)), best(g, k, n)->0.cost),
    decreases n,
{
    lemma_best(g, i, i);
    let ci = sum(best(g, i, i)->0.cost, edge(g, i, k));
    if i < n - 1 {
        lemma_best_is_least(g, k, n - 1, i);
        let before = best(g, k, n - 1)->0.cost;
        let after = best(g, k, n)->0.cost;
        lemma_best(g, n - 1, n - 1);
        lemma_best_step(g, k, n);
        lemma_cheaper(after, before);
        lemma_not_less_transitive(ci, before, after);
    } else {
        lemma_best_step(g, k, n);
        if best(g, k, n - 1) is Some {
            lemma_cheaper(ci, best(g, k, n - 1)->0.cost);
        } else {
            lemma_cheaper(ci, ci);
        }
    }
}

/// The chosen layout is a layout, and its cost is that of the best way to its
/// end.
pub proof fn lemma_chosen_cost(g: Graph, k: int)
    requires
        graph_wf(g),
        0 <= k < g.breaks.len(),
    ensures
        is_path(g, chosen(g, k), k),
        best(g, k, k) is Some,
        path_cost(g, chosen(g, k)) == best(g, k, k)->0.cost,
    decreases k,
{
    lemma_chosen(g, k);
    lemma_best(g, k, k);
    if k > 0 {
        let q = best(g, k, k)->0.prior;
        lemma_chosen(g, q);
        lemma_chosen_cost(g, q);
        assert(chosen(g, k).drop_last() == chosen(g, q));
    }
}

proof fn lemma_best_below_path(g: Graph, path: Seq<int>, k: int)
    requires
        graph_wf(g),
        0 <= k < g.breaks.len(),
        is_path(g, path, k),
        path_exact(g, path),
    ensures
        best(g, k, k) is Some,
        !less(path_cost(g, path), best(g, k, k)->0.cost),
    decreases path.len(),
{
    lemma_best(g, k, k);
    let n = path.len() as int;
    if n >= 2 {
        lemma_path_prefix(g, path, k);
        let i = path[n - 2];
        let head = path.drop_last();
        lemma_best_below_path(g, head, i);
        let b = best(g, i, i)->0.cost;
        lemma_best_is_least(g, k, k, i);
        law_cost_sum_monotone(b, path_cost(g, head), edge(g, i, k));
        lemma_not_less_transitive(
            path_cost(g, path),
            sum(b, edge(g, i, k)),
            best(g, k, k)->0.cost,
        );
    }
}

/// No layout is cheaper than the chosen one.
pub proof fn law_cheapest_of_all(g: Graph, path: Seq<int>)
    requires
        graph_wf(g),
        is_path(g, path, g.breaks.len() - 1),
        path_exact(g, path),
    ensures
        !less(path_cost(g, path), path_cost(g, chosen(g, g.breaks.len() - 1))),
{
    lemma_best_below_path(g, path, g.breaks.len() - 1);
    lemma_chosen_cost(g, g.breaks.len() - 1);
}

// ---------------------------------------------------------------------------
// Costs that fit in machine words

/// A bound for every field of the cost of a line.
pub open spec fn cost_bound(g: Graph) -> int {
    4 * g.par.text.len() + g.first_indent + g.continuation_indent + g.par.wrapmin
        + g.par.anchors.len() + 2
}

/// Whether the cost of every layout fits in machine words.
pub open spec fn costs_fit(g: Graph) -> bool {
    g.breaks.len() * cost_bound(g) <= usize::MAX
}

/// Whether no field of a cost exceeds a number.
spec fn bounded(c: LayoutCost, n: int) -> bool {
    &&& c.overflow <= n
    &&& c.underflow <= n
    &&& c.changed_breaks <= n
    &&& c.displacement <= n
    &&& c.raggedness <= n
    &&& c.lines <= n
}

proof fn lemma_utf8_bound(text: Seq<char>, i: int)
    requires
        0 <= i <= text.len(),
    ensures
        utf8_len(text, i) <= 4 * i,
    decreases i,
{
    if i > 0 {
        lemma_utf8_bound(text, i - 1);
    }
}

proof fn lemma_nearest_bound(p: usize, v: Seq<usize>, n: int)
    requires
        p <= n,
        forall|i: int| 0 <= i < v.len() ==> #[trigger] v[i] <= n,
    ensures
        nearest(p, v) <= n,
    decreases v.len(),
{
    if v.len() > 0 {
        assert(v[v.len() - 1] <= n);
        if v.len() > 1 {
            let w = v.drop_last();
            assert forall|i: int| 0 <= i < w.len() implies #[trigger] w[i] <= n by {
                assert(v[i] <= n);
            }
            lemma_nearest_bound(p, w, n);
        }
    }
}

proof fn lemma_count_bound(v: Seq<usize>, n: int, start: int, end: int)
    requires
        0 <= n,
    ensures
        count_between(v, n, start, end) <= n,
    decreases n,
{
    if n > 0 {
        lemma_count_bound(v, n - 1, start, end);
    }
}

proof fn lemma_edge_bound(g: Graph, i: int, j: int)
    requires
        graph_wf(g),
        0 <= i < j < g.breaks.len(),
        g.par.text.len() <= usize::MAX,
        forall|m: int|
            0 <= m < g.par.anchors.len() ==> #[trigger] g.par.anchors[m] <= g.par.text.len(),
    ensures
        bounded(edge(g, i, j), cost_bound(g)),
{
    let text = g.par.text;
    let n = text.len() as int;
    let (a, b) = (g.breaks[i] as int, g.breaks[j] as int);
    assert(g.breaks[i] < g.breaks[j]);
    assert(j < g.breaks.len() - 1 ==> g.breaks[j] < g.breaks[g.breaks.len() - 1]);
    lemma_trimmed(text.subrange(a, b));
    lemma_count_bound(g.par.anchors, g.par.anchors.len() as int, a, b);
    lemma_utf8_bound(text, b);
    let offsets = byte_offsets(text, g.par.anchors);
    assert forall|m: int| 0 <= m < offsets.len() implies #[trigger] offsets[m] <= 4 * n by {
        assert(g.par.anchors[m] <= text.len());
        lemma_utf8_bound(text, g.par.anchors[m] as int);
    }
    lemma_nearest_bound(sat(utf8_len(text, b) as int), offsets, 4 * n);
}

proof fn lemma_path_bound(g: Graph, path: Seq<int>, k: int)
    requires
        graph_wf(g),
        costs_fit(g),
        g.par.text.len() <= usize::MAX,
        forall|m: int|
            0 <= m < g.par.anchors.len() ==> #[trigger] g.par.anchors[m] <= g.par.text.len(),
        0 <= k < g.breaks.len(),
        is_path(g, path, k),
    ensures
        path.len() <= k + 1,
        bounded(path_cost(g, path), (path.len() - 1) * cost_bound(g)),
        path_exact(g, path),
    decreases path.len(),
{
    let n = path.len() as int;
    let c = cost_bound(g);
    if n >= 2 {
        let head = path.drop_last();
        let i = path[n - 2];
        assert(path[n - 2] < path[n - 1]);
        assert(n > 2 ==> path[0] < path[n - 2]);
        assert forall|a: int, b: int| 0 <= a < b < head.len() implies head[a] < head[b] by {
            assert(path[a] < path[b]);
        }
        lemma_path_bound(g, head, i);
        lemma_edge_bound(g, i, k);
        assert((n - 2) * c + c == (n - 1) * c) by (nonlinear_arith);
        assert((n - 1) * c <= g.breaks.len() * c) by (nonlinear_arith)
            requires
                n - 1 <= g.breaks.len(),
                0 <= c,
        ;
    } else {
        assert((n - 1) * c == 0) by (nonlinear_arith)
            requires
                n == 1,
        ;
    }
}

/// If all costs fit in machine words, no layout is cheaper than the chosen one.
pub proof fn law_cheapest_if_costs_fit(g: Graph, path: Seq<int>)
    requires
        graph_wf(g),
        costs_fit(g),
        g.par.text.len() <= usize::MAX,
        forall|m: int|
            0 <= m < g.par.anchors.len() ==> #[trigger] g.par.anchors[m] <= g.par.text.len(),
        is_path(g, path, g.breaks.len() - 1),
    ensures
        !less(path_cost(g, path), path_cost(g, chosen(g, g.breaks.len() - 1))),
{
    lemma_path_bound(g, path, g.breaks.len() - 1);
    law_cheapest_of_all(g, path);
}

// ---------------------------------------------------------------------------
// Lines within the limit

/// Whether some layout keeps every line within the limit.
pub open spec fn can_fit(g: Graph) -> bool {
    exists|path: Seq<int>|
        #![trigger is_path(g, path, g.breaks.len() - 1)]
        is_path(g, path, g.breaks.len() - 1) && path_cost(g, path).overflow == 0
}

proof fn lemma_least_overflow(g: Graph, path: Seq<int>, k: int)
    requires
        graph_wf(g),
        0 <= k < g.breaks.len(),
        is_path(g, path, k),
    ensures
        best(g, k, k) is Some,
        best(g, k, k)->0.cost.overflow <= path_cost(g, path).overflow,
    decreases path.len(),
{
    lemma_best(g, k, k);
    let n = path.len() as int;
    if n >= 2 {
        lemma_path_prefix(g, path, k);
        lemma_least_overflow(g, path.drop_last(), path[n - 2]);
        lemma_best_is_least(g, k, k, path[n - 2]);
    }
}

/// The hard limit comes first: no layout exceeds it by less than the chosen one,
/// whatever its other costs are.
pub proof fn law_least_overflow(g: Graph, path: Seq<int>)
    requires
        graph_wf(g),
        is_path(g, path, g.breaks.len() - 1),
    ensures
        path_cost(g, chosen(g, g.breaks.len() - 1)).overflow <= path_cost(g, path).overflow,
{
    lemma_least_overflow(g, path, g.breaks.len() - 1);
    lemma_chosen_cost(g, g.breaks.len() - 1);
}

/// If some layout keeps every line within the limit, the chosen one does.
pub proof fn law_fits_if_possible(g: Graph)
    requires
        graph_wf(g),
        can_fit(g),
    ensures
        path_cost(g, chosen(g, g.breaks.len() - 1)).overflow == 0,
{
    let q = choose|q: Seq<int>|
        #![trigger is_path(g, q, g.breaks.len() - 1)]
        is_path(g, q, g.breaks.len() - 1) && path_cost(g, q).overflow == 0;
    law_least_overflow(g, q);
}

/// The lines of a layout without overflow have none.
proof fn lemma_line_fits(g: Graph, path: Seq<int>, i: int)
    requires
        path_cost(g, path).overflow == 0,
        0 < i < path.len(),
    ensures
        edge(g, path[i - 1], path[i]).overflow == 0,
    decreases path.len(),
{
    if i < path.len() - 1 {
        lemma_line_fits(g, path.drop_last(), i);
    }
}

/// If some layout keeps every line within the limit, every line of the chosen
/// one does, indentation included.
pub proof fn law_lines_fit_if_possible(g: Graph, i: int)
    requires
        graph_wf(g),
        can_fit(g),
        0 < i < layout_of(g).len(),
    ensures
        line_length(
            g.par.text,
            layout_of(g)[i - 1] as int,
            layout_of(g)[i] as int,
            if i == 1 {
                g.first_indent
            } else {
                g.continuation_indent
            },
        ) <= g.par.wraplen,
{
    let k = g.breaks.len() - 1;
    let path = chosen(g, k);
    law_fits_if_possible(g);
    lemma_chosen(g, k);
    lemma_line_fits(g, path, i);
    assert(i > 1 ==> path[0] < path[i - 1]);
}

/// Minimal reflow lays out a paragraph at least as cheaply as any choice of
/// legal breaks does.
pub proof fn law_minimal_is_cheapest(
    ls: Seq<Seq<char>>,
    comment: Option<usize>,
    args: Args,
    line_end: Seq<char>,
    path: Seq<int>,
)
    requires
        0 < paragraph_text(ls, ls.len() as int).len() <= usize::MAX,
        is_path(graph_of(ls, comment, args), path, graph_of(ls, comment, args).breaks.len() - 1),
        path_exact(graph_of(ls, comment, args), path),
    ensures
        ({
            let g = graph_of(ls, comment, args);
            let cheapest = chosen(g, g.breaks.len() - 1);
            &&& minimal(ls, comment, args, line_end) == laid_out(
                g.par.text,
                positions(g.breaks, cheapest),
                line_end,
            )
            &&& is_path(g, cheapest, g.breaks.len() - 1)
            &&& !less(path_cost(g, path), path_cost(g, cheapest))
        }),
{
    let g = graph_of(ls, comment, args);
    lemma_breaks(g.par.text, g.par.anchors, comment, args.wrap_chars@);
    lemma_chosen_cost(g, g.breaks.len() - 1);
    law_cheapest_of_all(g, path);
}

} // verus!
