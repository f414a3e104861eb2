//! Minimal reflow of its own result changes nothing.

use vstd::prelude::*;

use crate::authored::{authored_cuts, lemma_line_in_text, lemma_unchanged_path, start_in_text};
use crate::chars::white;
use crate::config::Args;
use crate::laws::law_minimal_breaks_are_legal;
use crate::minimal::{
    anchors_of, best, chosen, count_between, edge, graph_of, graph_wf, indent_from, laid_out,
    layout_of, legal_break, lemma_anchors, lemma_best, lemma_breaks, lemma_chosen, lemma_layout,
    minimal, paragraph_text, positions, Graph,
};
use crate::optimal::{is_path, lemma_best_is_least, lemma_chosen_cost};
use crate::pieces::{glued, lemma_lines_glued, one_line};
use crate::plain::tidy;
use crate::text::{ascending, blank, lemma_trimmed_unique, lines, select, trimmed};

verus! {

// ---------------------------------------------------------------------------
// The same paragraph with other breaks

/// Whether two graphs differ in nothing but the authored breaks.
spec fn same_but_anchors(g: Graph, h: Graph) -> bool {
    &&& g.par.text == h.par.text
    &&& g.par.wraplen == h.par.wraplen
    &&& g.par.wrapmin == h.par.wrapmin
    &&& g.breaks == h.breaks
    &&& g.first_indent == h.first_indent
    &&& g.continuation_indent == h.continuation_indent
}

/// Overflow and underflow of the best ways do not depend on the authored breaks.
proof fn lemma_same_widths(g: Graph, h: Graph, k: int, n: int)
    requires
        same_but_anchors(g, h),
    ensures
        best(g, k, n) is Some == best(h, k, n) is Some,
        best(g, k, n) is Some ==> {
            &&& best(g, k, n)->0.cost.overflow == best(h, k, n)->0.cost.overflow
            &&& best(g, k, n)->0.cost.underflow == best(h, k, n)->0.cost.underflow
        },
    decreases k, n,
{
    if 0 < k && 0 < n <= k {
        lemma_same_widths(g, h, k, n - 1);
        lemma_same_widths(g, h, n - 1, n - 1);
    }
}

/// A chosen layout, up to one of its breaks, is the one chosen up to there.
proof fn lemma_chosen_front(g: Graph, k: int, m: int)
    requires
        graph_wf(g),
        0 <= k < g.breaks.len(),
        0 <= m < chosen(g, k).len(),
    ensures
        chosen(g, chosen(g, k)[m]) == chosen(g, k).take(m + 1),
    decreases k,
{
    let path = chosen(g, k);
    lemma_chosen(g, k);
    if m == path.len() - 1 {
        assert(path.take(m + 1) =~= path);
    } else {
        lemma_best(g, k, k);
        let q = best(g, k, k)->0.prior;
        assert(path == chosen(g, q).push(k));
        lemma_chosen_front(g, q, m);
        assert(chosen(g, q).take(m + 1) =~= path.take(m + 1));
    }
}

/// Where the cuts of a layout are the authored breaks, its lines change none.
proof fn lemma_no_changes(g: Graph, full: Seq<int>, n: int)
    requires
        graph_wf(g),
        is_path(g, full, g.breaks.len() - 1),
        g.par.anchors == positions(g.breaks, full).subrange(1, full.len() - 1),
        0 < n < full.len(),
    ensures
        edge(g, full[n - 1], full[n]).changed_breaks == 0,
{
    let (i, j) = (full[n - 1], full[n]);
    let anchors = g.par.anchors;
    let all = anchors.len() as int;
    assert forall|m: int| 0 <= m < all implies !(g.breaks[i] < #[trigger] anchors[m]
        < g.breaks[j]) by {
        let p = full[m + 1];
        assert(anchors[m] == g.breaks[p]);
        lemma_in_range(g, full, m + 1);
        lemma_in_range(g, full, n - 1);
        lemma_in_range(g, full, n);
        assert(m + 1 < n - 1 ==> full[m + 1] < full[n - 1]);
        assert(m + 1 > n ==> full[n] < full[m + 1]);
        assert(p < i ==> g.breaks[p] < g.breaks[i]);
        assert(j < p ==> g.breaks[j] < g.breaks[p]);
    }
    lemma_none_counted(anchors, all, g.breaks[i] as int, g.breaks[j] as int);
    if n < full.len() - 1 {
        assert(anchors[n - 1] == g.breaks[j]);
        assert(anchors.contains(g.breaks[j]));
    } else {
        assert(j == g.breaks.len() - 1);
    }
}

/// Where the authored breaks are those that were chosen, the best way to each of
/// them changes none.
proof fn lemma_kept_to(g: Graph, h: Graph, m: int)
    requires
        graph_wf(g),
        same_but_anchors(g, h),
        h.par.anchors == layout_of(g).subrange(1, layout_of(g).len() - 1),
        0 <= m < chosen(g, g.breaks.len() - 1).len(),
    ensures
        ({
            let k = chosen(g, g.breaks.len() - 1)[m];
            &&& best(h, k, k) is Some
            &&& best(h, k, k)->0.cost.changed_breaks == 0
        }),
    decreases m,
{
    let full = chosen(g, g.breaks.len() - 1);
    let k = full[m];
    lemma_chosen_cost(g, g.breaks.len() - 1);
    lemma_in_range(g, full, m);
    if m > 0 {
        let q = full[m - 1];
        assert(full[m - 1] < full[m]);
        lemma_in_range(g, full, m - 1);
        lemma_kept_to(g, h, m - 1);
        lemma_chosen_front(g, g.breaks.len() - 1, m);
        lemma_best(g, k, k);
        let prior = best(g, k, k)->0.prior;
        lemma_chosen(g, prior);
        assert(full.take(m + 1) == chosen(g, prior).push(k));
        assert(full.take(m + 1)[m - 1] == q);
        assert(prior == q);
        lemma_no_changes(h, full, m);
        lemma_same_widths(g, h, q, q);
        lemma_same_widths(g, h, k, k);
        lemma_best_is_least(h, k, k, q);
    }
}

proof fn lemma_in_range(g: Graph, path: Seq<int>, i: int)
    requires
        is_path(g, path, g.breaks.len() - 1),
        0 <= i < path.len(),
    ensures
        0 <= path[i] <= g.breaks.len() - 1,
{
    assert(i > 0 ==> path[0] < path[i]);
    assert(i < path.len() - 1 ==> path[i] < path[path.len() - 1]);
}

proof fn lemma_none_counted(v: Seq<usize>, n: int, start: int, end: int)
    requires
        0 <= n <= v.len(),
        forall|i: int| 0 <= i < n ==> !(start < #[trigger] v[i] < end),
    ensures
        count_between(v, n, start, end) == 0,
    decreases n,
{
    if n > 0 {
        lemma_none_counted(v, n - 1, start, end);
    }
}

/// A paragraph whose authored breaks are those that were chosen for it keeps
/// them.
proof fn lemma_chosen_again(g: Graph, h: Graph)
    requires
        graph_wf(g),
        same_but_anchors(g, h),
        h.par.anchors == layout_of(g).subrange(1, layout_of(g).len() - 1),
    ensures
        layout_of(h) == layout_of(g),
{
    let k = g.breaks.len() - 1;
    let p = chosen(g, k);
    let l = layout_of(g);
    let n = l.len() as int;
    lemma_layout(g);
    lemma_chosen_cost(g, k);
    lemma_chosen_cost(h, k);
    assert forall|m: int| 0 <= m < h.par.anchors.len() implies 0
        < #[trigger] h.par.anchors[m] < h.par.text.len() && h.breaks.contains(h.par.anchors[m]) by {
        assert(h.par.anchors[m] == l[m + 1]);
        assert(l[0] < l[m + 1]);
        assert(l[m + 1] < l[n - 1]);
        lemma_in_range(g, p, m + 1);
        assert(l[m + 1] == g.breaks[p[m + 1]]);
    }
    assert forall|i: int, j: int| 0 <= i < j < h.par.anchors.len() implies h.par.anchors[i]
        < h.par.anchors[j] by {
        assert(l[i + 1] < l[j + 1]);
    }
    lemma_kept_to(g, h, p.len() - 1);
    lemma_unchanged_path(h, chosen(h, k));
    assert(authored_cuts(h) =~= l);
}

// ---------------------------------------------------------------------------
// Tidy paragraphs

/// Whether the lines of a paragraph are words with single spaces between them,
/// none of them around a line, and no line ends in a backslash.
pub open spec fn tidy_lines(ls: Seq<Seq<char>>) -> bool {
    forall|j: int|
        0 <= j < ls.len() ==> {
            &&& (#[trigger] ls[j]).len() > 0
            &&& tidy(ls[j])
            &&& !white(ls[j].last())
            &&& ls[j].last() != '\\'
        }
}

proof fn lemma_tidy_trimmed(s: Seq<char>)
    requires
        s.len() > 0,
        tidy(s),
        !white(s.last()),
    ensures
        trimmed(s) == s,
{
    let n = s.len() as int;
    assert(!white(s[0]));
    assert(blank(s.subrange(0, 0)));
    assert(blank(s.subrange(n, n)));
    lemma_trimmed_unique(s, 0, n);
    assert(s.subrange(0, n) =~= s);
}

/// The text of a paragraph of tidy lines is tidy.
proof fn lemma_tidy_text(ls: Seq<Seq<char>>, k: int)
    requires
        tidy_lines(ls),
        0 < k <= ls.len(),
    ensures
        tidy(paragraph_text(ls, k)),
        paragraph_text(ls, k).len() > 0,
        !white(paragraph_text(ls, k).last()),
    decreases k,
{
    let line = ls[k - 1];
    assert(line.len() > 0);
    lemma_tidy_trimmed(line);
    if k > 1 {
        lemma_tidy_text(ls, k - 1);
        let head = paragraph_text(ls, k - 1);
        let s = paragraph_text(ls, k);
        let h = head.len() as int;
        assert(s =~= head + seq![' '] + line);
        assert forall|i: int| 0 <= i < s.len() && white(#[trigger] s[i]) implies s[i] == ' ' by {
            if i < h {
                assert(s[i] == head[i]);
            } else if i > h {
                assert(s[i] == line[i - h - 1]);
            }
        }
        assert forall|i: int, j: int| 0 <= i && j == i + 1 && j < s.len() implies !(white(
            #[trigger] s[i],
        ) && white(#[trigger] s[j])) by {
            if j < h {
                assert(s[i] == head[i] && s[j] == head[j]);
            } else if j == h {
                assert(s[i] == head.last());
            } else if i == h {
                assert(s[j] == line[0]);
            } else {
                assert(s[i] == line[i - h - 1] && s[j] == line[j - h - 1]);
            }
        }
        assert(s[0] == head[0]);
        assert(s.last() == line.last());
    }
}

/// The parts of a text between cuts, each trimmed.
pub open spec fn cut_parts(text: Seq<char>, cuts: Seq<usize>) -> Seq<Seq<char>> {
    Seq::new(
        (cuts.len() - 1) as nat,
        |i: int| trimmed(text.subrange(cuts[i] as int, cuts[i + 1] as int)),
    )
}

proof fn lemma_laid_out_glued(text: Seq<char>, cuts: Seq<usize>, line_end: Seq<char>)
    requires
        cuts.len() > 0,
    ensures
        laid_out(text, cuts, line_end) == glued(cut_parts(text, cuts), line_end),
    decreases cuts.len(),
{
    let parts = cut_parts(text, cuts);
    if cuts.len() >= 2 {
        let head = cuts.drop_last();
        lemma_laid_out_glued(text, head, line_end);
        assert(parts.drop_last() =~= cut_parts(text, head));
        let g = glued(cut_parts(text, head), line_end);
        assert(g + parts.last() + line_end =~= g + (parts.last() + line_end));
    }
}

/// Whether cuts of a text lie at its ends or behind single spaces.
spec fn cuts_at_spaces(text: Seq<char>, cuts: Seq<usize>) -> bool {
    &&& cuts.len() >= 2
    &&& ascending(cuts)
    &&& cuts[0] == 0
    &&& cuts.last() == text.len()
    &&& forall|i: int| 0 < i < cuts.len() - 1 ==> text[#[trigger] cuts[i] - 1] == ' '
}

/// A part of a tidy text between two cuts.
proof fn lemma_cut_part(text: Seq<char>, cuts: Seq<usize>, i: int)
    requires
        tidy(text),
        text.len() > 0,
        !white(text.last()),
        cuts_at_spaces(text, cuts),
        0 <= i < cuts.len() - 1,
    ensures
        ({
            let stop = if i + 1 < cuts.len() - 1 {
                cuts[i + 1] - 1
            } else {
                text.len() as int
            };
            &&& cuts[i] < stop <= text.len()
            &&& cut_parts(text, cuts)[i] == text.subrange(cuts[i] as int, stop)
            &&& !white(text[cuts[i] as int])
            &&& !white(text[stop - 1])
        }),
{
    let n = cuts.len() as int;
    let a = cuts[i] as int;
    let b = cuts[i + 1] as int;
    let stop = if i + 1 < n - 1 {
        b - 1
    } else {
        text.len() as int
    };
    assert(cuts[i] < cuts[i + 1]);
    assert(i + 1 < n - 1 ==> cuts[i + 1] < cuts[n - 1]);
    if i > 0 {
        assert(text[cuts[i] - 1] == ' ');
    }
    assert(!white(text[a]));
    if i + 1 < n - 1 {
        assert(text[cuts[i + 1] - 1] == ' ');
        assert(white(text[b - 1]));
    } else {
        assert(text[text.len() - 1] == text.last());
    }
    let part = text.subrange(a, b);
    assert(part[0] == text[a]);
    assert(part[stop - a - 1] == text[stop - 1]);
    let tail = part.subrange(stop - a, part.len() as int);
    assert forall|m: int| 0 <= m < tail.len() implies white(#[trigger] tail[m]) by {
        assert(tail[m] == text[b - 1]);
    }
    assert(blank(part.subrange(0, 0)));
    lemma_trimmed_unique(part, 0, stop - a);
    assert(part.subrange(0, stop - a) =~= text.subrange(a, stop));
}

/// The parts of a tidy text, joined again, are the text, and its cuts are their
/// breaks.
proof fn lemma_rejoined(text: Seq<char>, cuts: Seq<usize>, k: int)
    requires
        tidy(text),
        text.len() > 0,
        !white(text.last()),
        cuts_at_spaces(text, cuts),
        0 < k < cuts.len(),
    ensures
        paragraph_text(cut_parts(text, cuts), k) == text.subrange(
            0,
            if k < cuts.len() - 1 {
                cuts[k] - 1
            } else {
                text.len() as int
            },
        ),
    decreases k,
{
    let parts = cut_parts(text, cuts);
    let p = parts[k - 1];
    lemma_cut_part(text, cuts, k - 1);
    lemma_tidy_part(text, cuts[k - 1] as int, cuts[k - 1] + p.len());
    lemma_tidy_trimmed(p);
    if k > 1 {
        lemma_rejoined(text, cuts, k - 1);
        assert(text[cuts[k - 1] - 1] == ' ');
        assert(cuts[0] < cuts[k - 1]);
        assert(paragraph_text(parts, k) =~= text.subrange(
            0,
            if k < cuts.len() - 1 {
                cuts[k] - 1
            } else {
                text.len() as int
            },
        ));
    }
}

proof fn lemma_tidy_part(text: Seq<char>, a: int, b: int)
    requires
        tidy(text),
        0 <= a < b <= text.len(),
        !white(text[a]),
    ensures
        tidy(text.subrange(a, b)),
{
    let s = text.subrange(a, b);
    assert forall|i: int| 0 <= i < s.len() && white(#[trigger] s[i]) implies s[i] == ' ' by {
        assert(s[i] == text[a + i]);
    }
    assert forall|i: int, j: int| 0 <= i && j == i + 1 && j < s.len() implies !(white(
        #[trigger] s[i],
    ) && white(#[trigger] s[j])) by {
        assert(s[i] == text[a + i] && s[j] == text[a + j]);
    }
}

proof fn lemma_select_same(f: spec_fn(int) -> bool, h: spec_fn(int) -> bool, n: int)
    requires
        forall|p: int| 0 <= p < n ==> #[trigger] f(p) == h(p),
    ensures
        select(f, n) == select(h, n),
    decreases n,
{
    if n > 0 {
        lemma_select_same(f, h, n - 1);
        assert(f(n - 1) == h(n - 1));
    }
}

/// Whether a text may be broken at `p` without an authored break there.
spec fn free_break(text: Seq<char>, w: Seq<char>, p: int) -> bool {
    ||| p == 0
    ||| p == text.len()
    ||| 0 < p && w.contains(text[p - 1]) && !(1 < p && text[p - 2] == '\\')
}

/// The authored breaks of a paragraph of tidy lines are breaks by themselves.
proof fn lemma_anchors_free(ls: Seq<Seq<char>>, w: Seq<char>, p: int)
    requires
        ls.len() > 0,
        tidy_lines(ls),
        w.contains(' '),
        paragraph_text(ls, ls.len() as int).len() <= usize::MAX,
        0 <= p <= paragraph_text(ls, ls.len() as int).len(),
        anchors_of(ls).contains(p as usize),
    ensures
        free_break(paragraph_text(ls, ls.len() as int), w, p),
{
    let n = ls.len() as int;
    let text = paragraph_text(ls, n);
    let anchors = anchors_of(ls);
    lemma_anchors(ls);
    let a = choose|a: int| 0 <= a < anchors.len() && anchors[a] == p as usize;
    lemma_line_in_text(ls, n, a);
    let line = ls[a];
    assert(line.len() > 0);
    lemma_tidy_trimmed(line);
    let s = start_in_text(ls, a);
    let e = paragraph_text(ls, a + 1).len() as int;
    assert(anchors[a] == e + 1);
    assert(text.subrange(s, e)[line.len() - 1] == text[e - 1]);
}

/// The chosen cuts of a paragraph of tidy lines are breaks by themselves, and
/// lie behind spaces.
proof fn lemma_cuts_free(ls: Seq<Seq<char>>, args: Args)
    requires
        ls.len() > 0,
        tidy_lines(ls),
        args.wrap_chars@ == seq![' '],
        0 < paragraph_text(ls, ls.len() as int).len() <= usize::MAX,
    ensures
        ({
            let g = graph_of(ls, None, args);
            let cuts = layout_of(g);
            &&& graph_wf(g)
            &&& cuts_at_spaces(g.par.text, cuts)
            &&& forall|i: int|
                0 <= i < cuts.len() ==> free_break(
                    g.par.text,
                    args.wrap_chars@,
                    #[trigger] cuts[i] as int,
                )
        }),
{
    let g = graph_of(ls, None, args);
    let text = g.par.text;
    let w = args.wrap_chars@;
    lemma_breaks(text, g.par.anchors, None, w);
    lemma_layout(g);
    let cuts = layout_of(g);
    assert(w[0] == ' ');
    assert forall|i: int| 0 <= i < cuts.len() implies free_break(
        text,
        w,
        #[trigger] cuts[i] as int,
    ) by {
        law_minimal_breaks_are_legal(ls, None, args, i);
        assert(i < cuts.len() - 1 ==> cuts[i] < cuts[cuts.len() - 1]);
        if anchors_of(ls).contains(cuts[i]) {
            lemma_anchors_free(ls, w, cuts[i] as int);
        }
    }
    assert forall|i: int| 0 < i < cuts.len() - 1 implies text[#[trigger] cuts[i] - 1] == ' ' by {
        assert(free_break(text, w, cuts[i] as int));
        assert(cuts[0] < cuts[i]);
        assert(cuts[i] < cuts[cuts.len() - 1]);
        let c = text[cuts[i] - 1];
        let m = choose|m: int| 0 <= m < w.len() && w[m] == c;
        assert(w[m] == ' ');
    }
}

/// The parts of a tidy text are single tidy lines.
proof fn lemma_parts_tidy(text: Seq<char>, cuts: Seq<usize>, i: int)
    requires
        tidy(text),
        text.len() > 0,
        !white(text.last()),
        cuts_at_spaces(text, cuts),
        0 <= i < cuts.len() - 1,
    ensures
        one_line(cut_parts(text, cuts)[i]),
        cut_parts(text, cuts)[i].len() > 0,
        tidy(cut_parts(text, cuts)[i]),
{
    let p = cut_parts(text, cuts)[i];
    let a = cuts[i] as int;
    lemma_cut_part(text, cuts, i);
    lemma_tidy_part(text, a, a + p.len());
    assert forall|j: int| 0 <= j < p.len() implies #[trigger] p[j] != '\n' && p[j] != '\r' by {
        assert(p[j] == text[a + j]);
        assert(white(text[a + j]) ==> text[a + j] == ' ');
    }
    assert(p.last() == p[p.len() - 1]);
}

/// The parts, joined again, have the cuts as their breaks.
proof fn lemma_rejoined_anchors(text: Seq<char>, cuts: Seq<usize>)
    requires
        tidy(text),
        text.len() > 0,
        !white(text.last()),
        cuts_at_spaces(text, cuts),
    ensures
        anchors_of(cut_parts(text, cuts)) == cuts.subrange(1, cuts.len() - 1),
{
    let ms = cut_parts(text, cuts);
    let a = anchors_of(ms);
    let b = cuts.subrange(1, cuts.len() - 1);
    assert forall|i: int| 0 <= i < a.len() implies #[trigger] a[i] == b[i] by {
        lemma_rejoined(text, cuts, i + 1);
        assert(cuts[0] < cuts[i + 1]);
        assert(cuts[i + 1] < cuts[cuts.len() - 1]);
    }
    assert(a =~= b);
}

/// The parts, joined again, are the same paragraph with the cuts as its breaks.
proof fn lemma_rejoined_graph(ls: Seq<Seq<char>>, args: Args)
    requires
        ls.len() > 0,
        tidy_lines(ls),
        args.wrap_chars@ == seq![' '],
        0 < paragraph_text(ls, ls.len() as int).len() <= usize::MAX,
    ensures
        ({
            let g = graph_of(ls, None, args);
            let cuts = layout_of(g);
            let h = graph_of(cut_parts(g.par.text, cuts), None, args);
            &&& h.par.text == g.par.text
            &&& h.par.anchors == cuts.subrange(1, cuts.len() - 1)
            &&& h.breaks == g.breaks
        }),
{
    let g = graph_of(ls, None, args);
    let text = g.par.text;
    let len = text.len() as int;
    let w = args.wrap_chars@;
    let cuts = layout_of(g);
    let ms = cut_parts(text, cuts);
    let h = graph_of(ms, None, args);
    lemma_tidy_text(ls, ls.len() as int);
    lemma_cuts_free(ls, args);
    lemma_rejoined(text, cuts, ms.len() as int);
    assert(text.subrange(0, len) =~= text);
    lemma_rejoined_anchors(text, cuts);
    let fa = |p: int| legal_break(text, g.par.anchors, None, w, p);
    let fb = |p: int| legal_break(text, h.par.anchors, None, w, p);
    assert(w[0] == ' ');
    assert forall|p: int| 0 <= p < len + 1 implies #[trigger] fa(p) == fb(p) by {
        if h.par.anchors.contains(p as usize) {
            let i = choose|i: int| 0 <= i < h.par.anchors.len() && h.par.anchors[i] == p as usize;
            assert(free_break(text, w, cuts[i + 1] as int));
        }
        if g.par.anchors.contains(p as usize) {
            lemma_anchors_free(ls, w, p);
        }
        assert(fa(p) == free_break(text, w, p));
        assert(fb(p) == free_break(text, w, p));
    }
    lemma_select_same(fa, fb, len + 1);
}

/// Minimal reflow of its own result changes nothing, if the lines of the
/// paragraph are words with single spaces between them, are not indented and
/// are broken at spaces.
pub proof fn law_minimal_is_stable(ls: Seq<Seq<char>>, args: Args)
    requires
        ls.len() > 0,
        tidy_lines(ls),
        args.wrap_chars@ == seq![' '],
        paragraph_text(ls, ls.len() as int).len() <= usize::MAX,
    ensures
        ({
            let out = minimal(ls, None, args, seq!['\n']);
            minimal(lines(out), None, args, seq!['\n']) == out
        }),
{
    let g = graph_of(ls, None, args);
    let text = g.par.text;
    let f = seq!['\n'];
    lemma_tidy_text(ls, ls.len() as int);
    lemma_cuts_free(ls, args);
    let cuts = layout_of(g);
    let ms = cut_parts(text, cuts);
    let h = graph_of(ms, None, args);
    lemma_laid_out_glued(text, cuts, f);
    assert forall|i: int| 0 <= i < ms.len() implies one_line(#[trigger] ms[i]) by {
        lemma_parts_tidy(text, cuts, i);
    }
    lemma_lines_glued(ms);
    lemma_rejoined_graph(ls, args);
    assert forall|j: int| 0 <= j < ms.len() implies (#[trigger] ms[j]).len() > 0 && tidy(ms[j]) by {
        lemma_parts_tidy(text, cuts, j);
    }
    lemma_no_indent(ls, args);
    lemma_no_indent(ms, args);
    lemma_chosen_again(g, h);
}

/// Tidy lines are not indented.
proof fn lemma_no_indent(ls: Seq<Seq<char>>, args: Args)
    requires
        forall|j: int| 0 <= j < ls.len() ==> (#[trigger] ls[j]).len() > 0 && tidy(ls[j]),
    ensures
        graph_of(ls, None, args).first_indent == 0,
        graph_of(ls, None, args).continuation_indent == 0,
{
    if ls.len() > 0 {
        assert(ls[0].len() > 0 && tidy(ls[0]));
        assert(!white(ls[0][0]));
        assert(indent_from(ls[0], args.tabsize, 0) == 0);
    }
    if ls.len() > 1 {
        assert(ls[1].len() > 0 && tidy(ls[1]));
        assert(!white(ls[1][0]));
        assert(indent_from(ls[1], args.tabsize, 0) == 0);
    }
}

} // verus!
