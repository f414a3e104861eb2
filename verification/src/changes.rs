//! What the cost of a layout counts: the breaks that it changes, and its lines.

use vstd::prelude::*;

use crate::minimal::{count_between, edge, graph_wf, positions, Graph};
use crate::optimal::{is_path, path_cost, path_exact};

verus! {

/// The number of the first `n` entries of a list that satisfy `f`.
pub open spec fn count_where(v: Seq<usize>, n: int, f: spec_fn(usize) -> bool) -> nat
    decreases n,
{
    if n <= 0 {
        0
    } else {
        count_where(v, n - 1, f) + (if f(v[n - 1]) {
            1nat
        } else {
            0nat
        })
    }
}

/// The number of authored breaks that are no cuts.
pub open spec fn removed_breaks(anchors: Seq<usize>, cuts: Seq<usize>) -> nat {
    count_where(anchors, anchors.len() as int, |a: usize| !cuts.contains(a))
}

/// The number of cuts, the two ends of the text aside, that are no authored
/// breaks.
pub open spec fn new_breaks(anchors: Seq<usize>, cuts: Seq<usize>) -> nat {
    count_where(cuts, cuts.len() - 1, |c: usize| c != 0 && !anchors.contains(c))
}

/// Two conditions that agree on the entries of a list hold of equally many.
proof fn lemma_count_same(
    v: Seq<usize>,
    w: Seq<usize>,
    n: int,
    f: spec_fn(usize) -> bool,
    h: spec_fn(usize) -> bool,
)
    requires
        0 <= n <= v.len(),
        n <= w.len(),
        forall|i: int| 0 <= i < n ==> f(#[trigger] v[i]) == h(w[i]),
    ensures
        count_where(v, n, f) == count_where(w, n, h),
    decreases n,
{
    if n > 0 {
        lemma_count_same(v, w, n - 1, f, h);
        assert(f(v[n - 1]) == h(w[n - 1]));
    }
}

/// Whether an authored break lies before the last cut and is none itself.
spec fn lost(cuts: Seq<usize>) -> spec_fn(usize) -> bool {
    |a: usize| a < cuts.last() && !cuts.contains(a)
}

/// A further cut loses the authored breaks between it and the cut before.
proof fn lemma_lost_step(anchors: Seq<usize>, n: int, cuts: Seq<usize>, end: usize)
    requires
        0 <= n <= anchors.len(),
        cuts.len() > 0,
        forall|i: int| 0 <= i < cuts.len() ==> #[trigger] cuts[i] <= cuts.last(),
        cuts.last() < end,
    ensures
        count_where(anchors, n, lost(cuts.push(end))) == count_where(anchors, n, lost(cuts))
            + count_between(anchors, n, cuts.last() as int, end as int),
    decreases n,
{
    if n > 0 {
        lemma_lost_step(anchors, n - 1, cuts, end);
        let a = anchors[n - 1];
        let more = cuts.push(end);
        assert(cuts.contains(cuts[cuts.len() - 1]));
        assert(more.contains(a) <==> cuts.contains(a) || a == end) by {
            if cuts.contains(a) {
                let i = choose|i: int| 0 <= i < cuts.len() && cuts[i] == a;
                assert(more[i] == a);
            }
            if a == end {
                assert(more[cuts.len() as int] == a);
            }
        }
        assert(cuts.contains(a) ==> a <= cuts.last());
    }
}

/// The changes of a layout up to the last of its cuts.
proof fn lemma_changes_to(g: Graph, path: Seq<int>, k: int)
    requires
        graph_wf(g),
        g.par.anchors.len() < usize::MAX,
        forall|i: int|
            0 <= i < g.par.anchors.len() ==> 0 < #[trigger] g.par.anchors[i] < g.par.text.len(),
        0 <= k < g.breaks.len(),
        is_path(g, path, k),
        path_exact(g, path),
    ensures
        ({
            let anchors = g.par.anchors;
            let cuts = positions(g.breaks, path);
            let end = g.par.text.len();
            let fresh = |c: usize| c != 0 && c != end && !anchors.contains(c);
            &&& path_cost(g, path).changed_breaks == count_where(
                anchors,
                anchors.len() as int,
                lost(cuts),
            ) + count_where(cuts, cuts.len() as int, fresh)
            &&& path_cost(g, path).lines == path.len() - 1
        }),
    decreases path.len(),
{
    let anchors = g.par.anchors;
    let all = anchors.len() as int;
    let cuts = positions(g.breaks, path);
    let end = g.par.text.len();
    let fresh = |c: usize| c != 0 && c != end && !anchors.contains(c);
    let n = path.len() as int;
    if n == 1 {
        assert(cuts[0] == 0);
        let none = |a: usize| false;
        assert forall|i: int| 0 <= i < all implies lost(cuts)(#[trigger] anchors[i]) == none(
            anchors[i],
        ) by {}
        lemma_count_same(anchors, anchors, all, lost(cuts), none);
        lemma_count_none(anchors, all);
        assert(count_where(cuts, 0, fresh) == 0);
    } else {
        let head = path.drop_last();
        let before = positions(g.breaks, head);
        let i = path[n - 2];
        assert(path[n - 2] < path[n - 1]);
        assert(n > 2 ==> path[0] < path[n - 2]);
        assert forall|a: int, b: int| 0 <= a < b < head.len() implies head[a] < head[b] by {
            assert(path[a] < path[b]);
        }
        lemma_changes_to(g, head, i);
        assert(cuts =~= before.push(g.breaks[k]));
        assert(before.last() == g.breaks[i]);
        assert forall|m: int| 0 <= m < before.len() implies #[trigger] before[m]
            <= before.last() by {
            assert(m < n - 2 ==> path[m] < path[n - 2]);
            assert(m > 0 ==> path[0] < path[m]);
            assert(m < n - 2 ==> g.breaks[path[m]] < g.breaks[path[n - 2]]);
        }
        assert(g.breaks[i] < g.breaks[k]);
        lemma_lost_step(anchors, all, before, g.breaks[k]);
        lemma_count_same(before, cuts, n - 1, fresh, fresh);
        lemma_count_between_bound(anchors, all, g.breaks[i] as int, g.breaks[k] as int);
        assert(edge(g, i, k).changed_breaks == count_between(
            anchors,
            all,
            g.breaks[i] as int,
            g.breaks[k] as int,
        ) + (if fresh(g.breaks[k]) {
            1int
        } else {
            0int
        }));
        assert(cuts[n - 1] == g.breaks[k]);
    }
}

proof fn lemma_count_none(v: Seq<usize>, n: int)
    ensures
        count_where(v, n, |a: usize| false) == 0,
    decreases n,
{
    if n > 0 {
        lemma_count_none(v, n - 1);
    }
}

proof fn lemma_count_between_bound(v: Seq<usize>, n: int, start: int, end: int)
    requires
        0 <= n,
    ensures
        count_between(v, n, start, end) <= n,
    decreases n,
{
    if n > 0 {
        lemma_count_between_bound(v, n - 1, start, end);
    }
}

/// The changed breaks of a layout are the authored breaks that it removes and
/// the breaks that it introduces, and its cost counts its lines.
pub proof fn law_cost_counts_changes(g: Graph, path: Seq<int>)
    requires
        graph_wf(g),
        g.par.anchors.len() < usize::MAX,
        forall|i: int|
            0 <= i < g.par.anchors.len() ==> 0 < #[trigger] g.par.anchors[i] < g.par.text.len(),
        is_path(g, path, g.breaks.len() - 1),
        path_exact(g, path),
    ensures
        ({
            let cuts = positions(g.breaks, path);
            &&& path_cost(g, path).changed_breaks == removed_breaks(g.par.anchors, cuts)
                + new_breaks(g.par.anchors, cuts)
            &&& path_cost(g, path).lines == path.len() - 1
        }),
{
    let anchors = g.par.anchors;
    let cuts = positions(g.breaks, path);
    let n = cuts.len() as int;
    let end = g.par.text.len();
    let k = g.breaks.len() - 1;
    lemma_changes_to(g, path, k);
    let kept = |a: usize| !cuts.contains(a);
    assert(cuts.last() == end);
    lemma_count_same(anchors, anchors, anchors.len() as int, lost(cuts), kept);
    let fresh = |c: usize| c != 0 && c != end && !anchors.contains(c);
    let inner = |c: usize| c != 0 && !anchors.contains(c);
    assert(!fresh(cuts[n - 1]));
    assert forall|i: int| 0 <= i < n - 1 implies fresh(#[trigger] cuts[i]) == inner(cuts[i]) by {
        assert(path[i] < path[n - 1]);
        assert(i > 0 ==> path[0] < path[i]);
        assert(g.breaks[path[i]] < g.breaks[path[n - 1]]);
    }
    lemma_count_same(cuts, cuts, n - 1, fresh, inner);
}

} // verus!
