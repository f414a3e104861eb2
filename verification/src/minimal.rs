//! Reflow that keeps authored breaks unless the width limits force a change.
//!
//! The paragraph is joined into one text. The positions at which it may be
//! broken are the nodes of a graph whose edges are candidate lines, and the
//! layout is the cheapest path through that graph.

use std::collections::HashSet;
use vstd::prelude::*;
use vstd::slice::slice_subrange;

use crate::chars::{ascii_white, is_ascii_whitespace, len_utf8, utf8_width};
use crate::config::Args;
use crate::cost::{less, no_cost, sum, LayoutCost};
use crate::text::{
    ascending, contains_char, lemma_select, push_line, select, texts, trim, trimmed, trimmed_width,
    width,
};

verus! {

/// A number as a machine word, at its maximum if it does not fit.
pub open spec fn sat(n: int) -> usize {
    if n > usize::MAX {
        usize::MAX
    } else if n < 0 {
        0
    } else {
        n as usize
    }
}

// ---------------------------------------------------------------------------
// Joined paragraphs

/// The first `k` lines of a paragraph, trimmed and joined with single spaces.
pub open spec fn paragraph_text(ls: Seq<Seq<char>>, k: int) -> Seq<char>
    decreases k,
{
    if k <= 0 {
        seq![]
    } else if k == 1 {
        trimmed(ls[0])
    } else {
        paragraph_text(ls, k - 1) + seq![' '] + trimmed(ls[k - 1])
    }
}

/// Where the second and later lines start in the joined text.
pub open spec fn anchors_of(ls: Seq<Seq<char>>) -> Seq<usize> {
    Seq::new(
        if ls.len() > 0 {
            (ls.len() - 1) as nat
        } else {
            0
        },
        |i: int| (paragraph_text(ls, i + 1).len() + 1) as usize,
    )
}

/// Joins a paragraph and records the positions of its authored breaks.
pub fn join_paragraph(ls: &[Vec<char>]) -> (res: (Vec<char>, Vec<usize>))
    ensures
        res.0@ == paragraph_text(texts(ls@), ls@.len() as int),
        res.1@ == anchors_of(texts(ls@)),
{
    let mut text: Vec<char> = Vec::new();
    let mut anchors: Vec<usize> = Vec::new();
    let mut k: usize = 0;
    let ghost t = texts(ls@);
    while k < ls.len()
        invariant
            k <= ls@.len(),
            t == texts(ls@),
            text@ == paragraph_text(t, k as int),
            anchors@.len() == (if k == 0 {
                0
            } else {
                k - 1
            }),
            forall|i: int|
                0 <= i < anchors@.len() ==> #[trigger] anchors@[i] == anchors_of(t)[i],
        decreases ls@.len() - k,
    {
        let ghost before = text@;
        if k > 0 {
            text.push(' ');
            anchors.push(text.len());
        }
        let ghost mid = text@;
        let line = trim(ls[k].as_slice());
        assert(t[k as int] == ls@[k as int]@);
        text.extend_from_slice(line);
        proof {
            assert(text@ =~= mid + line@);
            assert(text@ =~= paragraph_text(t, k + 1));
        }
        k += 1;
    }
    assert(anchors@ =~= anchors_of(t));
    (text, anchors)
}

/// The width of the ASCII whitespace of a line from `i` on, up to the first
/// other character.
pub open spec fn indent_from(line: Seq<char>, tabsize: u8, i: int) -> nat
    decreases line.len() - i,
{
    if 0 <= i < line.len() && ascii_white(line[i]) {
        (if line[i] == '\t' {
            tabsize as nat
        } else {
            1
        }) + indent_from(line, tabsize, i + 1)
    } else {
        0
    }
}

/// Determines the width of the indentation of a line.
pub fn indent_width(line: &[char], tabsize: u8) -> (res: usize)
    ensures
        res == sat(indent_from(line@, tabsize, 0) as int),
{
    let mut res: usize = 0;
    let mut i: usize = 0;
    let ghost done: nat = 0;
    while i < line.len() && is_ascii_whitespace(line[i])
        invariant
            i <= line@.len(),
            res == sat(done as int),
            done + indent_from(line@, tabsize, i as int) == indent_from(line@, tabsize, 0),
        decreases line@.len() - i,
    {
        let step: usize = if line[i] == '\t' {
            tabsize as usize
        } else {
            1
        };
        res = res.saturating_add(step);
        proof {
            done = done + step as nat;
        }
        i += 1;
    }
    res
}

// ---------------------------------------------------------------------------
// Legal breaks

/// Whether the joined text may be broken at `p`: at its ends, at an authored
/// break, or behind a wrap character that is not escaped and not in a comment.
pub open spec fn legal_break(
    text: Seq<char>,
    anchors: Seq<usize>,
    comment: Option<usize>,
    wrap_chars: Seq<char>,
    p: int,
) -> bool {
    ||| p == 0
    ||| p == text.len()
    ||| anchors.contains(p as usize)
    ||| {
        &&& 0 < p
        &&& wrap_chars.contains(text[p - 1])
        &&& !(1 < p && text[p - 2] == '\\')
        &&& (comment matches Some(c) ==> p - 1 < c)
    }
}

/// The positions at which the joined text may be broken, in ascending order.
pub open spec fn breaks_of(
    text: Seq<char>,
    anchors: Seq<usize>,
    comment: Option<usize>,
    wrap_chars: Seq<char>,
) -> Seq<usize> {
    select(|p: int| legal_break(text, anchors, comment, wrap_chars, p), text.len() as int + 1)
}

/// Collects some positions in a set.
fn position_set(positions: &[usize]) -> (res: HashSet<usize>)
    ensures
        forall|p: usize| #[trigger] res@.contains(p) == positions@.contains(p),
{
    let mut res: HashSet<usize> = HashSet::new();
    let mut i: usize = 0;
    while i < positions.len()
        invariant
            i <= positions@.len(),
            forall|p: usize| #[trigger] res@.contains(p) == positions@.take(i as int).contains(p),
        decreases positions@.len() - i,
    {
        let at: usize = positions[i];
        let ghost before = res@;
        res.insert(at);
        proof {
            broadcast use vstd::std_specs::hash::group_hash_axioms;

            let head = positions@.take(i as int);
            let all = positions@.take(i + 1);
            assert(all =~= head.push(at));
            assert(res@ == before.insert(at));
            assert forall|p: usize| #[trigger] res@.contains(p) == all.contains(p) by {
                if head.contains(p) {
                    let k = choose|k: int| 0 <= k < head.len() && head[k] == p;
                    assert(all[k] == p);
                }
                assert(all[i as int] == at);
            }
        }
        i += 1;
    }
    assert(positions@.take(i as int) == positions@);
    res
}

/// Checks whether a set holds a position.
fn holds_position(set: &HashSet<usize>, p: usize) -> (res: bool)
    ensures
        res == set@.contains(p),
{
    proof {
        broadcast use vstd::std_specs::hash::group_hash_axioms;

    }
    set.contains(&p)
}

/// Enumerates the positions at which the joined text may be broken.
pub fn legal_breaks(
    text: &[char],
    anchors: &[usize],
    comment: Option<usize>,
    wrap_chars: &[char],
) -> (res: Vec<usize>)
    ensures
        res@ == breaks_of(text@, anchors@, comment, wrap_chars@),
        ascending(res@),
{
    let n: usize = text.len();
    let anchor_set = position_set(anchors);
    let mut res: Vec<usize> = Vec::new();
    let mut p: usize = 0;
    let ghost f = |p: int| legal_break(text@, anchors@, comment, wrap_chars@, p);
    while p < n
        invariant
            p <= n,
            n == text@.len(),
            f == (|p: int| legal_break(text@, anchors@, comment, wrap_chars@, p)),
            forall|q: usize| #[trigger] anchor_set@.contains(q) == anchors@.contains(q),
            res@ == select(f, p as int),
        decreases n - p,
    {
        let after_wrap = p > 0 && contains_char(wrap_chars, text[p - 1]) && !(p > 1 && text[p - 2]
            == '\\') && (match comment {
            Some(c) => p - 1 < c,
            None => true,
        });
        let legal = p == 0 || holds_position(&anchor_set, p) || after_wrap;
        assert(legal == f(p as int));
        if legal {
            res.push(p);
        }
        p += 1;
    }
    assert(f(n as int));
    res.push(n);
    proof {
        lemma_select(f, n + 1);
    }
    res
}

// ---------------------------------------------------------------------------
// Candidate lines

/// The number of bytes that the first `i` characters of a text take in UTF-8.
pub open spec fn utf8_len(text: Seq<char>, i: int) -> nat
    decreases i,
{
    if i <= 0 {
        0
    } else {
        utf8_len(text, i - 1) + utf8_width(text[i - 1])
    }
}

/// The byte position of each of some character positions.
pub open spec fn byte_offsets(text: Seq<char>, positions: Seq<usize>) -> Seq<usize> {
    Seq::new(positions.len(), |i: int| sat(utf8_len(text, positions[i] as int) as int))
}

/// The distance of two positions.
pub open spec fn distance(a: usize, b: usize) -> usize {
    if a < b {
        (b - a) as usize
    } else {
        (a - b) as usize
    }
}

/// The distance of a position from the nearest one of a list, or zero if the
/// list is empty.
pub open spec fn nearest(position: usize, v: Seq<usize>) -> usize
    decreases v.len(),
{
    if v.len() == 0 {
        0
    } else if v.len() == 1 {
        distance(v[0], position)
    } else {
        let d = nearest(position, v.drop_last());
        if distance(v.last(), position) < d {
            distance(v.last(), position)
        } else {
            d
        }
    }
}

/// The number of the first `n` entries of a list that lie strictly between two
/// positions.
pub open spec fn count_between(v: Seq<usize>, n: int, start: int, end: int) -> nat
    decreases n,
{
    if n <= 0 {
        0
    } else {
        count_between(v, n - 1, start, end) + (if start < v[n - 1] < end {
            1nat
        } else {
            0nat
        })
    }
}

/// The length of a line that spans `start..end`, indentation included.
pub open spec fn line_length(text: Seq<char>, start: int, end: int, indent: usize) -> usize {
    sat(width(text.subrange(start, end)) + indent)
}

/// A joined paragraph, and the limits for its lines.
pub struct Paragraph {
    pub text: Seq<char>,
    pub anchors: Seq<usize>,
    pub wraplen: usize,
    pub wrapmin: usize,
}

/// The cost of a line that spans `start..end`, if `next_end` is the legal break
/// behind it.
///
/// Falling short of the target costs nothing for the last line, nor for a line
/// that reaches the target with the next chunk. Removed authored breaks and a
/// new break at the end of the line count as changes, and a new break also
/// costs its distance, in bytes, to the nearest authored break.
pub open spec fn line_cost(
    par: Paragraph,
    start: int,
    end: int,
    next_end: Option<usize>,
    indent: usize,
) -> LayoutCost {
    let length = line_length(par.text, start, end, indent);
    let last = end == par.text.len();
    let reaches = next_end matches Some(next) && line_length(par.text, start, next as int, indent)
        >= par.wrapmin;
    let fresh = !last && !par.anchors.contains(end as usize);
    LayoutCost {
        overflow: sat(length - par.wraplen),
        underflow: if last || reaches {
            0
        } else {
            sat(par.wrapmin - length)
        },
        changed_breaks: sat(
            count_between(par.anchors, par.anchors.len() as int, start, end) + (if fresh {
                1int
            } else {
                0int
            }),
        ),
        displacement: if fresh {
            nearest(
                sat(utf8_len(par.text, end) as int),
                byte_offsets(par.text, par.anchors),
            )
        } else {
            0
        },
        raggedness: if last {
            0
        } else {
            distance(par.wrapmin, length)
        },
        lines: 1,
    }
}

/// The distance of a position from the nearest anchor.
pub fn nearest_anchor(position: usize, anchors: &[usize]) -> (res: usize)
    ensures
        res == nearest(position, anchors@),
{
    let mut res: usize = 0;
    let mut i: usize = 0;
    while i < anchors.len()
        invariant
            i <= anchors@.len(),
            res == nearest(position, anchors@.take(i as int)),
        decreases anchors@.len() - i,
    {
        let a: usize = anchors[i];
        let d: usize = if a < position {
            position - a
        } else {
            a - position
        };
        if i == 0 || d < res {
            res = d;
        }
        i += 1;
        assert(anchors@.take(i as int).drop_last() == anchors@.take(i - 1));
    }
    assert(anchors@.take(i as int) == anchors@);
    res
}

/// Paragraph data shared by the candidate lines.
pub struct LayoutContext<'a> {
    pub text: &'a [char],
    pub anchors: &'a [usize],
    pub anchor_set: &'a HashSet<usize>,
    /// The byte position of each character.
    pub offsets: &'a [usize],
    /// The byte position of each anchor.
    pub anchor_offsets: &'a [usize],
    pub wraplen: usize,
    pub wrapmin: usize,
}

impl<'a> LayoutContext<'a> {
    /// The paragraph that the context describes.
    pub open spec fn paragraph(self) -> Paragraph {
        Paragraph {
            text: self.text@,
            anchors: self.anchors@,
            wraplen: self.wraplen,
            wrapmin: self.wrapmin,
        }
    }

    /// Whether the tables of the context fit its text and its anchors.
    pub open spec fn wf(self) -> bool {
        &&& forall|p: usize| #[trigger]
            self.anchor_set@.contains(p) == self.anchors@.contains(p)
        &&& self.offsets@.len() == self.text@.len()
        &&& forall|p: int|
            0 <= p < self.text@.len() ==> #[trigger] self.offsets@[p] == sat(
                utf8_len(self.text@, p) as int,
            )
        &&& self.anchor_offsets@ == byte_offsets(self.text@, self.anchors@)
    }
}

/// Counts the anchors strictly between two positions.
fn count_anchors(anchors: &[usize], start: usize, end: usize) -> (res: usize)
    ensures
        res == count_between(anchors@, anchors@.len() as int, start as int, end as int),
{
    let mut res: usize = 0;
    let mut i: usize = 0;
    while i < anchors.len()
        invariant
            i <= anchors@.len(),
            res <= i,
            res == count_between(anchors@, i as int, start as int, end as int),
        decreases anchors@.len() - i,
    {
        if start < anchors[i] && anchors[i] < end {
            res += 1;
        }
        i += 1;
    }
    res
}

/// Determines the cost of a line that spans `start..end`.
pub fn transition_cost(
    context: &LayoutContext,
    start: usize,
    end: usize,
    next_end: Option<usize>,
    indent: usize,
) -> (res: LayoutCost)
    requires
        context.wf(),
        start <= end <= context.text@.len(),
        next_end matches Some(next) ==> start <= next <= context.text@.len(),
    ensures
        res == line_cost(context.paragraph(), start as int, end as int, next_end, indent),
{
    let length: usize = trimmed_width(context.text, start, end).saturating_add(indent);
    let final_line = end == context.text.len();
    let reaches_target_with_next_chunk = match next_end {
        Some(next) => trimmed_width(context.text, start, next).saturating_add(indent)
            >= context.wrapmin,
        None => false,
    };
    let removed_anchors: usize = count_anchors(context.anchors, start, end);
    let fresh = !final_line && !holds_position(context.anchor_set, end);
    let new_break: usize = if fresh {
        1
    } else {
        0
    };
    let displacement: usize = if fresh {
        nearest_anchor(context.offsets[end], context.anchor_offsets)
    } else {
        0
    };
    LayoutCost {
        overflow: length.saturating_sub(context.wraplen),
        underflow: if final_line || length >= context.wrapmin || reaches_target_with_next_chunk {
            0
        } else {
            context.wrapmin.saturating_sub(length)
        },
        changed_breaks: removed_anchors.saturating_add(new_break),
        displacement,
        raggedness: if final_line {
            0
        } else if context.wrapmin < length {
            length - context.wrapmin
        } else {
            context.wrapmin - length
        },
        lines: 1,
    }
}

// ---------------------------------------------------------------------------
// Layouts

/// A paragraph with the positions at which it may be broken. Laying out the
/// text between two of them as one line is an edge of the graph.
pub struct Graph {
    pub par: Paragraph,
    pub breaks: Seq<usize>,
    pub first_indent: usize,
    pub continuation_indent: usize,
}

/// The best way found to a break: its cost, and the break before it.
pub struct Step {
    pub cost: LayoutCost,
    pub prior: int,
}

/// The break behind break `j`.
pub open spec fn next_break(g: Graph, j: int) -> Option<usize> {
    if j + 1 < g.breaks.len() {
        Some(g.breaks[j + 1])
    } else {
        None
    }
}

/// The cost of the line from break `i` to break `j`.
pub open spec fn edge(g: Graph, i: int, j: int) -> LayoutCost {
    line_cost(
        g.par,
        g.breaks[i] as int,
        g.breaks[j] as int,
        next_break(g, j),
        if i == 0 {
            g.first_indent
        } else {
            g.continuation_indent
        },
    )
}

/// The cheapest way to break `k` whose last line starts at one of the first `n`
/// breaks. Of several that are equally cheap it is the one whose last line
/// starts first.
pub open spec fn best(g: Graph, k: int, n: int) -> Option<Step>
    decreases k, n,
{
    if k <= 0 {
        Some(Step { cost: no_cost(), prior: 0 })
    } else if n <= 0 || n > k {
        None
    } else {
        let before = best(g, k, n - 1);
        match best(g, n - 1, n - 1) {
            Some(base) => {
                let cost = sum(base.cost, edge(g, n - 1, k));
                match before {
                    Some(b) => if less(cost, b.cost) {
                        Some(Step { cost, prior: n - 1 })
                    } else {
                        before
                    },
                    None => Some(Step { cost, prior: n - 1 }),
                }
            },
            None => before,
        }
    }
}

/// The breaks of the chosen layout up to break `k`, by number.
pub open spec fn chosen(g: Graph, k: int) -> Seq<int>
    decreases k,
{
    if k <= 0 {
        seq![0]
    } else {
        match best(g, k, k) {
            Some(step) => if 0 <= step.prior < k {
                chosen(g, step.prior).push(k)
            } else {
                seq![0, k]
            },
            None => seq![0, k],
        }
    }
}

/// The positions of some breaks, given by number.
pub open spec fn positions(breaks: Seq<usize>, path: Seq<int>) -> Seq<usize> {
    Seq::new(path.len(), |i: int| breaks[path[i]])
}

/// A text, cut at some positions, each part trimmed and on a line of its own.
pub open spec fn laid_out(text: Seq<char>, cuts: Seq<usize>, line_end: Seq<char>) -> Seq<char>
    decreases cuts.len(),
{
    if cuts.len() < 2 {
        seq![]
    } else {
        let n = cuts.len() as int;
        laid_out(text, cuts.drop_last(), line_end) + trimmed(
            text.subrange(cuts[n - 2] as int, cuts[n - 1] as int),
        ) + line_end
    }
}

/// Whether the breaks of a graph ascend from the start to the end of its text.
pub open spec fn graph_wf(g: Graph) -> bool {
    &&& g.breaks.len() >= 2
    &&& ascending(g.breaks)
    &&& g.breaks[0] == 0
    &&& g.breaks.last() == g.par.text.len()
}

/// The graph of a paragraph.
pub open spec fn graph_of(ls: Seq<Seq<char>>, comment: Option<usize>, args: Args) -> Graph {
    let text = paragraph_text(ls, ls.len() as int);
    let anchors = anchors_of(ls);
    let first_indent = if ls.len() > 0 {
        sat(indent_from(ls[0], args.tabsize, 0) as int)
    } else {
        0
    };
    Graph {
        par: Paragraph { text, anchors, wraplen: args.wraplen, wrapmin: args.wrapmin },
        breaks: breaks_of(text, anchors, comment, args.wrap_chars@),
        first_indent,
        continuation_indent: if ls.len() > 1 {
            sat(indent_from(ls[1], args.tabsize, 0) as int)
        } else {
            first_indent
        },
    }
}

/// The positions at which a paragraph is broken.
pub open spec fn layout_of(g: Graph) -> Seq<usize> {
    positions(g.breaks, chosen(g, g.breaks.len() - 1))
}

/// A paragraph with its lines redistributed. The first line is measured with
/// the indentation of the first authored line, the others with that of the
/// second.
pub open spec fn minimal(
    ls: Seq<Seq<char>>,
    comment: Option<usize>,
    args: Args,
    line_end: Seq<char>,
) -> Seq<char> {
    let g = graph_of(ls, comment, args);
    if g.par.text.len() == 0 {
        seq![]
    } else {
        laid_out(g.par.text, layout_of(g), line_end)
    }
}

/// The breaks of a text that is not empty ascend from its start to its end,
/// and take in the authored ones.
pub proof fn lemma_breaks(
    text: Seq<char>,
    anchors: Seq<usize>,
    comment: Option<usize>,
    wrap_chars: Seq<char>,
)
    requires
        0 < text.len() <= usize::MAX,
    ensures
        ({
            let breaks = breaks_of(text, anchors, comment, wrap_chars);
            &&& breaks.len() >= 2
            &&& ascending(breaks)
            &&& breaks[0] == 0
            &&& breaks.last() == text.len()
            &&& forall|i: int| 0 <= i < breaks.len() ==> #[trigger] breaks[i] <= text.len()
            &&& forall|p: int|
                0 <= p <= text.len() && #[trigger] anchors.contains(p as usize)
                    ==> breaks.contains(p as usize)
        }),
{
    let f = |p: int| legal_break(text, anchors, comment, wrap_chars, p);
    let n = text.len() as int;
    let breaks = breaks_of(text, anchors, comment, wrap_chars);
    lemma_select(f, n + 1);
    assert(breaks == select(f, n + 1));
    assert(f(0) && f(n));
    assert(breaks.contains(0usize) && breaks.contains(n as usize));
    let i = choose|i: int| 0 <= i < breaks.len() && breaks[i] == 0;
    if i > 0 {
        assert(breaks[0] < breaks[i]);
    }
    let j = choose|j: int| 0 <= j < breaks.len() && breaks[j] == n as usize;
    if j < breaks.len() - 1 {
        assert(breaks[j] < breaks[breaks.len() - 1]);
    }
    assert forall|p: int|
        0 <= p <= text.len() && #[trigger] anchors.contains(
            p as usize,
        ) implies breaks.contains(p as usize) by {
        assert(f(p));
    }
}

/// Every break can be reached, and the best way to it goes through an earlier
/// one.
pub proof fn lemma_best(g: Graph, k: int, n: int)
    requires
        graph_wf(g),
        0 <= k < g.breaks.len(),
        0 <= n <= k,
    ensures
        n == k ==> best(g, k, n) is Some,
        k > 0 && best(g, k, n) is Some ==> {
            let step = best(g, k, n)->0;
            &&& 0 <= step.prior < n
            &&& best(g, step.prior, step.prior) is Some
            &&& step.cost == sum(
                best(g, step.prior, step.prior)->0.cost,
                edge(g, step.prior, k),
            )
        },
    decreases k, n,
{
    if k > 0 && n > 0 {
        lemma_best(g, k, n - 1);
        lemma_best(g, n - 1, n - 1);
    }
}

/// What the search knows of break `k` once the lines from the first `n` breaks
/// have been followed.
pub open spec fn knows(
    g: Graph,
    k: int,
    n: int,
    cost: Option<LayoutCost>,
    prior: Option<usize>,
) -> bool {
    match best(g, k, if n < k { n } else { k }) {
        Some(step) => cost == Some(step.cost) && (if k > 0 {
            prior matches Some(q) && q == step.prior
        } else {
            prior is None
        }),
        None => cost is None && prior is None,
    }
}

/// Whether `prior` is the break before break `k` on the cheapest way to it.
pub open spec fn leads_back(g: Graph, k: int, prior: Option<usize>) -> bool {
    if k <= 0 {
        prior is None
    } else {
        match prior {
            Some(q) => best(g, k, k) is Some && best(g, k, k)->0.prior == q && q < k,
            None => false,
        }
    }
}

/// The graph of a context.
pub open spec fn context_graph(
    context: LayoutContext,
    breaks: Seq<usize>,
    first_indent: usize,
    continuation_indent: usize,
) -> Graph {
    Graph { par: context.paragraph(), breaks, first_indent, continuation_indent }
}

/// Whether the search knows all breaks as they are once the lines from the
/// first `n` breaks have been followed, and the first `to` breaks one step
/// further.
pub open spec fn knows_all(
    g: Graph,
    n: int,
    to: int,
    costs: Seq<Option<LayoutCost>>,
    previous: Seq<Option<usize>>,
) -> bool {
    &&& costs.len() == g.breaks.len()
    &&& previous.len() == g.breaks.len()
    &&& forall|k: int| 0 <= k < to ==> #[trigger] knows(g, k, n + 1, costs[k], previous[k])
    &&& forall|k: int|
        to <= k < g.breaks.len() ==> #[trigger] knows(g, k, n, costs[k], previous[k])
}

/// Offers the line from break `s` to break `e`, and takes it if it is the
/// cheapest way to break `e` so far.
fn offer(
    s: usize,
    e: usize,
    base_cost: LayoutCost,
    segment_cost: LayoutCost,
    costs: &mut Vec<Option<LayoutCost>>,
    previous: &mut Vec<Option<usize>>,
    Ghost(g): Ghost<Graph>,
)
    requires
        s < e < g.breaks.len(),
        knows_all(g, s as int, e as int, old(costs)@, old(previous)@),
        best(g, s as int, s as int) is Some,
        base_cost == best(g, s as int, s as int)->0.cost,
        segment_cost == edge(g, s as int, e as int),
    ensures
        knows_all(g, s as int, e + 1, final(costs)@, final(previous)@),
{
    assert(knows(g, e as int, s as int, costs@[e as int], previous@[e as int]));
    let candidate = base_cost.add(segment_cost);
    let better = match costs[e] {
        Some(cost) => candidate < cost,
        None => true,
    };
    let ghost costs0 = costs@;
    let ghost previous0 = previous@;
    if better {
        costs.set(e, Some(candidate));
        previous.set(e, Some(s));
    }
    assert(knows(g, e as int, s + 1, costs@[e as int], previous@[e as int]));
    assert forall|k: int| 0 <= k < e + 1 implies #[trigger] knows(
        g,
        k,
        s + 1,
        costs@[k],
        previous@[k],
    ) by {
        if k < e {
            assert(knows(g, k, s + 1, costs0[k], previous0[k]));
        }
    }
    assert forall|k: int| e + 1 <= k < g.breaks.len() implies #[trigger] knows(
        g,
        k,
        s as int,
        costs@[k],
        previous@[k],
    ) by {
        assert(knows(g, k, s as int, costs0[k], previous0[k]));
    }
}

/// Follows the lines from break `s`.
fn relax(
    context: &LayoutContext,
    breaks: &[usize],
    s: usize,
    base_cost: LayoutCost,
    indent: usize,
    costs: &mut Vec<Option<LayoutCost>>,
    previous: &mut Vec<Option<usize>>,
    Ghost(g): Ghost<Graph>,
)
    requires
        context.wf(),
        graph_wf(g),
        g.par == context.paragraph(),
        g.breaks == breaks@,
        s < breaks@.len() - 1,
        indent == (if s == 0 {
            g.first_indent
        } else {
            g.continuation_indent
        }),
        best(g, s as int, s as int) is Some,
        base_cost == best(g, s as int, s as int)->0.cost,
        knows_all(g, s as int, s + 1, old(costs)@, old(previous)@),
    ensures
        knows_all(g, s + 1, 0, final(costs)@, final(previous)@),
{
    let m: usize = breaks.len();
    let mut e: usize = s + 1;
    while e < m
        invariant
            s < e <= m,
            m == breaks@.len(),
            context.wf(),
            graph_wf(g),
            g.par == context.paragraph(),
            g.breaks == breaks@,
            indent == (if s == 0 {
                g.first_indent
            } else {
                g.continuation_indent
            }),
            best(g, s as int, s as int) is Some,
            base_cost == best(g, s as int, s as int)->0.cost,
            knows_all(g, s as int, e as int, costs@, previous@),
        decreases m - e,
    {
        proof {
            assert(breaks@[s as int] < breaks@[e as int]);
            assert(e < m - 1 ==> breaks@[e as int] < breaks@[m - 1]);
            assert(e + 1 < m ==> breaks@[e as int] < breaks@[e + 1]);
            assert(e + 1 < m - 1 ==> breaks@[e + 1] < breaks@[m - 1]);
        }
        let next_end: Option<usize> = if e < m - 1 {
            Some(breaks[e + 1])
        } else {
            None
        };
        let segment_cost = transition_cost(context, breaks[s], breaks[e], next_end, indent);
        assert(segment_cost == edge(g, s as int, e as int));
        offer(s, e, base_cost, segment_cost, costs, previous, Ghost(g));
        e += 1;
    }
}

/// Finds, for each break, the one before it on the cheapest way.
fn search(
    context: &LayoutContext,
    breaks: &[usize],
    first_indent: usize,
    continuation_indent: usize,
) -> (res: Vec<Option<usize>>)
    requires
        context.wf(),
        graph_wf(context_graph(*context, breaks@, first_indent, continuation_indent)),
    ensures
        res@.len() == breaks@.len(),
        forall|k: int|
            0 <= k < res@.len() ==> leads_back(
                context_graph(*context, breaks@, first_indent, continuation_indent),
                k,
                #[trigger] res@[k],
            ),
{
    let ghost g = context_graph(*context, breaks@, first_indent, continuation_indent);
    let m: usize = breaks.len();
    let mut costs: Vec<Option<LayoutCost>> = Vec::new();
    let mut previous: Vec<Option<usize>> = Vec::new();
    costs.push(Some(LayoutCost::default()));
    previous.push(None);
    let mut i: usize = 1;
    while i < m
        invariant
            1 <= i <= m,
            costs@.len() == i,
            previous@.len() == i,
            forall|k: int| 0 <= k < i ==> #[trigger] knows(g, k, 0, costs@[k], previous@[k]),
        decreases m - i,
    {
        costs.push(None);
        previous.push(None);
        assert(knows(g, i as int, 0, costs@[i as int], previous@[i as int]));
        i += 1;
    }
    let mut s: usize = 0;
    assert(knows_all(g, 0, 0, costs@, previous@));
    while s < m - 1
        invariant
            s < m,
            m == breaks@.len(),
            context.wf(),
            g == context_graph(*context, breaks@, first_indent, continuation_indent),
            graph_wf(g),
            knows_all(g, s as int, 0, costs@, previous@),
        decreases m - s,
    {
        proof {
            lemma_best(g, s as int, s as int);
            assert(knows(g, s as int, s as int, costs@[s as int], previous@[s as int]));
            assert forall|k: int| 0 <= k < s + 1 implies #[trigger] knows(
                g,
                k,
                s + 1,
                costs@[k],
                previous@[k],
            ) by {
                assert(knows(g, k, s as int, costs@[k], previous@[k]));
            }
        }
        if let Some(base_cost) = costs[s] {
            let indent: usize = if s == 0 {
                first_indent
            } else {
                continuation_indent
            };
            relax(
                context,
                breaks,
                s,
                base_cost,
                indent,
                &mut costs,
                &mut previous,
                Ghost(g),
            );
        }
        s += 1;
    }
    proof {
        assert forall|k: int| 0 <= k < previous@.len() implies leads_back(
            g,
            k,
            #[trigger] previous@[k],
        ) by {
            assert(knows(g, k, s as int, costs@[k], previous@[k]));
            lemma_best(g, k, k);
        }
    }
    previous
}

/// Follows the cheapest way back from the end of a paragraph, and returns its
/// breaks in ascending order.
fn trace(breaks: &[usize], previous: &[Option<usize>], Ghost(g): Ghost<Graph>) -> (res: Vec<usize>)
    requires
        graph_wf(g),
        g.breaks == breaks@,
        previous@.len() == breaks@.len(),
        forall|k: int|
            0 <= k < previous@.len() ==> leads_back(g, k, #[trigger] previous@[k]),
    ensures
        res@ == layout_of(g),
{
    let m: usize = breaks.len();
    let mut back: Vec<usize> = Vec::new();
    let mut cursor: usize = m - 1;
    let ghost mut tail: Seq<int> = seq![];
    let ghost whole = chosen(g, m - 1);
    assert(whole =~= chosen(g, cursor as int) + tail);
    while cursor > 0
        invariant
            cursor < m == breaks@.len(),
            g.breaks == breaks@,
            previous@.len() == m,
            forall|k: int|
                0 <= k < previous@.len() ==> leads_back(g, k, #[trigger] previous@[k]),
            whole == chosen(g, cursor as int) + tail,
            back@.len() == tail.len(),
            forall|i: int|
                0 <= i < back@.len() ==> #[trigger] back@[i] == breaks@[tail[tail.len() - 1 - i]],
        decreases cursor,
    {
        assert(leads_back(g, cursor as int, previous@[cursor as int]));
        if let Some(prior) = previous[cursor] {
            let ghost tail0 = tail;
            proof {
                tail = seq![cursor as int] + tail;
                assert(chosen(g, cursor as int) == chosen(g, prior as int).push(cursor as int));
                assert(chosen(g, prior as int).push(cursor as int) + tail0 =~= chosen(
                    g,
                    prior as int,
                ) + tail);
            }
            back.push(breaks[cursor]);
            proof {
                assert forall|i: int| 0 <= i < back@.len() implies #[trigger] back@[i]
                    == breaks@[tail[tail.len() - 1 - i]] by {
                    if i < tail0.len() {
                        assert(tail[tail.len() - 1 - i] == tail0[tail0.len() - 1 - i]);
                    }
                }
            }
            cursor = prior;
        }
    }
    back.push(breaks[0]);
    assert(whole =~= seq![0int] + tail);
    let mut res: Vec<usize> = Vec::new();
    let mut i: usize = back.len();
    while i > 0
        invariant
            i <= back@.len(),
            g.breaks == breaks@,
            back@.len() == whole.len(),
            forall|j: int|
                0 <= j < back@.len() ==> #[trigger] back@[j] == breaks@[whole[whole.len() - 1
                    - j]],
            res@.len() == back@.len() - i,
            forall|j: int| 0 <= j < res@.len() ==> #[trigger] res@[j] == breaks@[whole[j]],
        decreases i,
    {
        i -= 1;
        res.push(back[i]);
    }
    assert(res@ =~= positions(g.breaks, whole));
    res
}

/// Appends a text, cut at some positions, each part trimmed and on a line of
/// its own.
pub fn push_layout(out: &mut String, text: &[char], cuts: &[usize], line_end: &str)
    requires
        ascending(cuts@),
        cuts@.len() > 0 ==> cuts@.last() <= text@.len(),
    ensures
        final(out)@ == old(out)@ + laid_out(text@, cuts@, line_end@),
{
    let mut k: usize = 1;
    let ghost start = out@;
    assert(laid_out(text@, cuts@.take(0), line_end@) =~= seq![]);
    assert(cuts@.len() > 0 ==> laid_out(text@, cuts@.take(1), line_end@) =~= seq![]);
    assert(start + Seq::<char>::empty() =~= start);
    while k < cuts.len()
        invariant
            ascending(cuts@),
            cuts@.len() > 0 ==> cuts@.last() <= text@.len(),
            1 <= k,
            cuts@.len() > 0 ==> k <= cuts@.len(),
            cuts@.len() == 0 ==> k == 1,
            cuts@.len() > 0 ==> out@ == start + laid_out(text@, cuts@.take(k as int), line_end@),
            cuts@.len() == 0 ==> out@ == start,
        decreases cuts@.len() - k,
    {
        assert(cuts@[k - 1] < cuts@[k as int]);
        assert(k < cuts@.len() - 1 ==> cuts@[k as int] < cuts@[cuts@.len() - 1]);
        let ghost before = out@;
        let part = trim(slice_subrange(text, cuts[k - 1], cuts[k]));
        push_line(out, part, line_end);
        k += 1;
        proof {
            let c = cuts@.take(k as int);
            assert(c.drop_last() == cuts@.take(k - 1));
            assert(out@ =~= start + (laid_out(text@, cuts@.take(k - 1), line_end@) + part@
                + line_end@));
        }
    }
    if cuts.len() == 0 {
        assert(cuts@.take(0) =~= cuts@);
    } else {
        assert(cuts@.take(k as int) == cuts@);
    }
}

/// The byte position of each character of a text.
fn byte_positions(text: &[char]) -> (res: Vec<usize>)
    ensures
        res@.len() == text@.len(),
        forall|p: int|
            0 <= p < text@.len() ==> #[trigger] res@[p] == sat(utf8_len(text@, p) as int),
{
    let mut res: Vec<usize> = Vec::new();
    let mut at: usize = 0;
    let mut i: usize = 0;
    while i < text.len()
        invariant
            i <= text@.len(),
            at == sat(utf8_len(text@, i as int) as int),
            res@.len() == i,
            forall|p: int| 0 <= p < i ==> #[trigger] res@[p] == sat(utf8_len(text@, p) as int),
        decreases text@.len() - i,
    {
        res.push(at);
        at = at.saturating_add(len_utf8(text[i]));
        i += 1;
    }
    res
}

/// The byte positions of some anchors.
fn anchor_bytes(text: &[char], anchors: &[usize], offsets: &[usize]) -> (res: Vec<usize>)
    requires
        offsets@.len() == text@.len(),
        forall|p: int|
            0 <= p < text@.len() ==> #[trigger] offsets@[p] == sat(utf8_len(text@, p) as int),
        forall|i: int| 0 <= i < anchors@.len() ==> #[trigger] anchors@[i] <= text@.len(),
    ensures
        res@ == byte_offsets(text@, anchors@),
{
    let mut res: Vec<usize> = Vec::new();
    let mut i: usize = 0;
    while i < anchors.len()
        invariant
            i <= anchors@.len(),
            offsets@.len() == text@.len(),
            forall|p: int|
                0 <= p < text@.len() ==> #[trigger] offsets@[p] == sat(utf8_len(text@, p) as int),
            forall|k: int| 0 <= k < anchors@.len() ==> #[trigger] anchors@[k] <= text@.len(),
            res@.len() == i,
            forall|k: int|
                0 <= k < i ==> #[trigger] res@[k] == byte_offsets(text@, anchors@)[k],
        decreases anchors@.len() - i,
    {
        let a: usize = anchors[i];
        let at: usize = if a < text.len() {
            offsets[a]
        } else if a > 0 {
            offsets[a - 1].saturating_add(len_utf8(text[a - 1]))
        } else {
            0
        };
        res.push(at);
        i += 1;
    }
    assert(res@ =~= byte_offsets(text@, anchors@));
    res
}

/// The anchors of a paragraph ascend and lie within its text.
pub proof fn lemma_anchors(ls: Seq<Seq<char>>)
    requires
        paragraph_text(ls, ls.len() as int).len() <= usize::MAX,
    ensures
        ascending(anchors_of(ls)),
        forall|i: int|
            0 <= i < anchors_of(ls).len() ==> 0 < #[trigger] anchors_of(ls)[i] <= paragraph_text(
                ls,
                ls.len() as int,
            ).len(),
        forall|i: int|
            0 <= i < anchors_of(ls).len() ==> #[trigger] anchors_of(ls)[i] == paragraph_text(
                ls,
                i + 1,
            ).len() + 1,
{
    let n = ls.len() as int;
    assert forall|i: int| 0 <= i < anchors_of(ls).len() implies 0 < #[trigger] anchors_of(ls)[i]
        <= paragraph_text(ls, n).len() && anchors_of(ls)[i] == paragraph_text(ls, i + 1).len()
        + 1 by {
        lemma_paragraph_grows(ls, i + 1, n);
    }
    assert forall|i: int, j: int| 0 <= i < j < anchors_of(ls).len() implies anchors_of(ls)[i]
        < anchors_of(ls)[j] by {
        lemma_paragraph_grows(ls, i + 1, j + 1);
    }
}

/// Each further line adds at least a space to the joined text.
pub proof fn lemma_paragraph_grows(ls: Seq<Seq<char>>, i: int, j: int)
    requires
        1 <= i < j <= ls.len(),
    ensures
        paragraph_text(ls, i).len() + 1 <= paragraph_text(ls, j).len(),
    decreases j - i,
{
    if i + 1 < j {
        lemma_paragraph_grows(ls, i, j - 1);
    }
}

/// The chosen breaks ascend from the first to break `k`.
pub proof fn lemma_chosen(g: Graph, k: int)
    requires
        graph_wf(g),
        0 <= k < g.breaks.len(),
    ensures
        ({
            let path = chosen(g, k);
            &&& path.len() > 0
            &&& path[0] == 0
            &&& path.last() == k
            &&& k > 0 ==> path.len() > 1
            &&& forall|i: int, j: int| 0 <= i < j < path.len() ==> path[i] < path[j]
            &&& forall|i: int| 0 <= i < path.len() ==> 0 <= #[trigger] path[i] <= k
        }),
    decreases k,
{
    if k > 0 {
        lemma_best(g, k, k);
        lemma_chosen(g, best(g, k, k)->0.prior);
    }
}

/// The chosen layout cuts the text from its start to its end.
pub proof fn lemma_layout(g: Graph)
    requires
        graph_wf(g),
    ensures
        ascending(layout_of(g)),
        layout_of(g).len() >= 2,
        layout_of(g)[0] == 0,
        layout_of(g).last() == g.par.text.len(),
{
    let k = g.breaks.len() - 1;
    lemma_chosen(g, k);
    let path = chosen(g, k);
    assert forall|i: int, j: int| 0 <= i < j < path.len() implies layout_of(g)[i] < layout_of(
        g,
    )[j] by {
        assert(path[i] < path[j]);
        assert(g.breaks[path[i]] < g.breaks[path[j]]);
    }
}

/// Reflows a paragraph while treating its authored breaks as preferred.
pub fn minimally_reflow(
    ls: &[Vec<char>],
    comment: Option<usize>,
    args: &Args,
    line_end: &str,
) -> (res: String)
    ensures
        res@ == minimal(texts(ls@), comment, *args, line_end@),
{
    let (text, anchors) = join_paragraph(ls);
    let mut out = String::new();
    if text.len() == 0 {
        return out;
    }
    let ghost t = texts(ls@);
    let breaks = legal_breaks(
        text.as_slice(),
        anchors.as_slice(),
        comment,
        args.wrap_chars.as_slice(),
    );
    let first_indent: usize = if ls.len() > 0 {
        assert(t[0] == ls@[0]@);
        indent_width(ls[0].as_slice(), args.tabsize)
    } else {
        0
    };
    let continuation_indent: usize = if ls.len() > 1 {
        assert(t[1] == ls@[1]@);
        indent_width(ls[1].as_slice(), args.tabsize)
    } else {
        first_indent
    };
    let anchor_set = position_set(anchors.as_slice());
    let offsets = byte_positions(text.as_slice());
    proof {
        lemma_anchors(t);
        lemma_breaks(text@, anchors@, comment, args.wrap_chars@);
    }
    let anchor_offsets = anchor_bytes(text.as_slice(), anchors.as_slice(), offsets.as_slice());
    let context = LayoutContext {
        text: text.as_slice(),
        anchors: anchors.as_slice(),
        anchor_set: &anchor_set,
        offsets: offsets.as_slice(),
        anchor_offsets: anchor_offsets.as_slice(),
        wraplen: args.wraplen,
        wrapmin: args.wrapmin,
    };
    let ghost g = graph_of(t, comment, *args);
    assert(g == context_graph(context, breaks@, first_indent, continuation_indent));
    let previous = search(&context, breaks.as_slice(), first_indent, continuation_indent);
    let cuts = trace(breaks.as_slice(), previous.as_slice(), Ghost(g));
    proof {
        lemma_layout(g);
    }
    push_layout(&mut out, text.as_slice(), cuts.as_slice(), line_end);
    assert(out@ =~= laid_out(text@, cuts@, line_end@));
    out
}

} // verus!
