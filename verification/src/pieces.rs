//! Documents as lines, one behind the other.

use vstd::prelude::*;

use crate::chars::white;
use crate::text::{
    blank, ends_in, first_ink, ink_end, lemma_line_stop, lemma_span, lemma_trimmed,
    lemma_trimmed_unique, line_body, line_spans, line_stop, lines, spans_from, trimmed,
};

verus! {

/// Some lines, each with its terminator.
pub open spec fn glued(parts: Seq<Seq<char>>, line_end: Seq<char>) -> Seq<char>
    decreases parts.len(),
{
    if parts.len() == 0 {
        seq![]
    } else {
        glued(parts.drop_last(), line_end) + (parts.last() + line_end)
    }
}

/// Whether a text ends in `tail`.
pub open spec fn has_tail(s: Seq<char>, tail: Seq<char>) -> bool {
    tail.len() <= s.len() && s.subrange(s.len() - tail.len(), s.len() as int) == tail
}

/// Whether what is appended to a text starts a line: the text is empty or ends
/// in a terminator.
pub open spec fn at_line_start(s: Seq<char>, line_end: Seq<char>) -> bool {
    s.len() == 0 || has_tail(s, line_end)
}

pub proof fn lemma_tail(a: Seq<char>, b: Seq<char>, tail: Seq<char>)
    requires
        has_tail(b, tail),
    ensures
        has_tail(a + b, tail),
{
    let s = a + b;
    assert(s.subrange(s.len() - tail.len(), s.len() as int) =~= b.subrange(
        b.len() - tail.len(),
        b.len() as int,
    ));
}

/// Two texts at whose ends lines start, one behind the other.
pub proof fn lemma_line_starts(a: Seq<char>, b: Seq<char>, line_end: Seq<char>)
    requires
        at_line_start(a, line_end),
        at_line_start(b, line_end),
    ensures
        at_line_start(a + b, line_end),
{
    if b.len() == 0 {
        assert(a + b =~= a);
    } else {
        lemma_tail(a, b, line_end);
    }
}

pub proof fn lemma_line_ends(a: Seq<char>, line_end: Seq<char>)
    ensures
        has_tail(a + line_end, line_end),
{
    let s = a + line_end;
    assert(s.subrange(s.len() - line_end.len(), s.len() as int) =~= line_end);
}

// ---------------------------------------------------------------------------
// Lines of two texts

proof fn lemma_stop_in_front(a: Seq<char>, b: Seq<char>, i: int)
    requires
        0 <= i < a.len(),
        a.last() == '\n',
    ensures
        line_stop(a + b, i) == line_stop(a, i),
    decreases a.len() - i,
{
    assert((a + b)[i] == a[i]);
    if a[i] != '\n' {
        lemma_stop_in_front(a, b, i + 1);
    }
}

proof fn lemma_stop_behind(a: Seq<char>, b: Seq<char>, i: int)
    requires
        0 <= i <= b.len(),
    ensures
        line_stop(a + b, a.len() + i) == a.len() + line_stop(b, i),
    decreases b.len() - i,
{
    if i < b.len() {
        assert((a + b)[a.len() + i] == b[i]);
        if b[i] != '\n' {
            lemma_stop_behind(a, b, i + 1);
        }
    }
}

pub open spec fn shifted(spans: Seq<(int, int)>, d: int) -> Seq<(int, int)> {
    Seq::new(spans.len(), |k: int| (spans[k].0 + d, spans[k].1 + d))
}

proof fn lemma_spans_behind(a: Seq<char>, b: Seq<char>, i: int)
    requires
        0 <= i <= b.len(),
    ensures
        spans_from(a + b, a.len() + i) == shifted(spans_from(b, i), a.len() as int),
    decreases b.len() - i,
{
    let n = a.len() as int;
    if i < b.len() {
        lemma_line_stop(b, i);
        lemma_stop_behind(a, b, i);
        lemma_spans_behind(a, b, line_stop(b, i));
        assert(spans_from(a + b, n + i) =~= shifted(spans_from(b, i), n));
    } else {
        assert(spans_from(a + b, n + i) =~= shifted(spans_from(b, i), n));
    }
}

pub proof fn lemma_spans_add(a: Seq<char>, b: Seq<char>, i: int)
    requires
        0 <= i <= a.len(),
        a.len() == 0 || a.last() == '\n',
    ensures
        spans_from(a + b, i) == spans_from(a, i) + shifted(spans_from(b, 0), a.len() as int),
    decreases a.len() - i,
{
    let n = a.len() as int;
    let tail = shifted(spans_from(b, 0), n);
    if i < n {
        lemma_line_stop(a, i);
        lemma_stop_in_front(a, b, i);
        let e = line_stop(a, i);
        lemma_spans_add(a, b, e);
        assert(spans_from(a + b, i) =~= seq![(i, e)] + (spans_from(a, e) + tail));
        assert(spans_from(a, i) + tail =~= seq![(i, e)] + (spans_from(a, e) + tail));
    } else {
        lemma_spans_behind(a, b, 0);
        assert(spans_from(a, i) + tail =~= tail);
    }
}

/// The lines of two texts, the first of which is empty or ends in a line feed.
pub proof fn lemma_lines_add(a: Seq<char>, b: Seq<char>)
    requires
        a.len() == 0 || a.last() == '\n',
    ensures
        lines(a + b) == lines(a) + lines(b),
{
    lemma_spans_add(a, b, 0);
    let s = a + b;
    let n = line_spans(a).len() as int;
    assert forall|k: int| 0 <= k < lines(s).len() implies #[trigger] lines(s)[k] == (lines(a)
        + lines(b))[k] by {
        let (x, y) = line_spans(s)[k];
        if k < n {
            lemma_span(a, k);
            assert(s.subrange(x, y) =~= a.subrange(x, y));
        } else {
            lemma_span(b, k - n);
            let (u, v) = line_spans(b)[k - n];
            assert(s.subrange(x, y) =~= b.subrange(u, v));
        }
    }
    assert(lines(s) =~= lines(a) + lines(b));
}

/// A text that is not empty has a line.
pub proof fn lemma_some_line(s: Seq<char>)
    requires
        s.len() > 0,
    ensures
        lines(s).len() > 0,
{
    lemma_line_stop(s, 0);
    assert(line_spans(s) == spans_from(s, 0));
}

/// Whether a text is a single line that stays the same when a line feed behind
/// it is dropped.
pub open spec fn one_line(s: Seq<char>) -> bool {
    !s.contains('\n') && !ends_in(s, '\r')
}

/// A line with a line feed behind it.
pub proof fn lemma_one_line(p: Seq<char>)
    requires
        one_line(p),
    ensures
        lines(p + seq!['\n']) == seq![p],
{
    let s = p + seq!['\n'];
    let n = p.len() as int;
    lemma_stop_of_one(p, 0);
    assert(spans_from(s, n + 1) =~= seq![]);
    assert(line_spans(s) =~= seq![(0int, n + 1)]);
    let raw = s.subrange(0, n + 1);
    assert(raw =~= s);
    assert(raw.last() == '\n');
    assert(raw.drop_last() =~= p);
    assert(line_body(raw) == p);
    assert(lines(s) =~= seq![p]);
}

pub proof fn lemma_stop_of_one(p: Seq<char>, i: int)
    requires
        !p.contains('\n'),
        0 <= i <= p.len(),
    ensures
        line_stop(p + seq!['\n'], i) == p.len() + 1,
    decreases p.len() - i,
{
    let s = p + seq!['\n'];
    if i < p.len() {
        assert(s[i] == p[i]);
        assert(p.contains(p[i]));
        lemma_stop_of_one(p, i + 1);
    } else {
        assert(s[i] == '\n');
    }
}

/// Lines that are put one behind the other are the lines of what results.
pub proof fn lemma_lines_glued(parts: Seq<Seq<char>>)
    requires
        forall|k: int| 0 <= k < parts.len() ==> one_line(#[trigger] parts[k]),
    ensures
        lines(glued(parts, seq!['\n'])) == parts,
        glued(parts, seq!['\n']).len() == 0 || glued(parts, seq!['\n']).last() == '\n',
    decreases parts.len(),
{
    if parts.len() == 0 {
        assert(lines(glued(parts, seq!['\n'])) =~= parts);
    } else {
        let head = parts.drop_last();
        let p = parts.last();
        assert forall|k: int| 0 <= k < head.len() implies one_line(#[trigger] head[k]) by {
            assert(one_line(parts[k]));
        }
        lemma_lines_glued(head);
        assert(one_line(parts[parts.len() - 1]));
        lemma_one_line(p);
        lemma_lines_add(glued(head, seq!['\n']), p + seq!['\n']);
        assert(lines(glued(parts, seq!['\n'])) =~= head + seq![p]);
        assert(head + seq![p] =~= parts);
    }
}

/// Whether a text ends a line: it is a line feed, or a carriage return and a
/// line feed.
pub open spec fn ends_line(line_end: Seq<char>) -> bool {
    line_end == seq!['\n'] || line_end == seq!['\r', '\n']
}

/// A line with its terminator.
pub proof fn lemma_ended_line(p: Seq<char>, line_end: Seq<char>)
    requires
        !p.contains('\n'),
        ends_line(line_end),
    ensures
        lines(p + line_end) == seq![line_body(p + line_end)],
        (p + line_end).last() == '\n',
        trimmed(line_body(p + line_end)) == trimmed(p),
{
    let s = p + line_end;
    let n = s.len() as int;
    let q = s.drop_last();
    assert forall|i: int| 0 <= i < q.len() implies #[trigger] q[i] != '\n' by {
        if i < p.len() {
            assert(q[i] == p[i]);
            assert(p.contains(p[i]));
        }
    }
    assert(s =~= q + seq!['\n']);
    lemma_stop_of_one(q, 0);
    assert(spans_from(s, n) =~= seq![]);
    assert(line_spans(s) =~= seq![(0int, n)]);
    assert(s.subrange(0, n) =~= s);
    assert(lines(s) =~= seq![line_body(s)]);
    let body = line_body(s);
    assert(s.subrange(0, p.len() as int) =~= p);
    assert(s.subrange(0, body.len() as int) =~= body);
    assert(blank(s.subrange(p.len() as int, n)));
    assert(blank(s.subrange(body.len() as int, n)));
    lemma_trimmed_front(s, p.len() as int);
    lemma_trimmed_front(s, body.len() as int);
}

/// Whitespace behind a text is trimmed.
proof fn lemma_trimmed_front(s: Seq<char>, k: int)
    requires
        0 <= k <= s.len(),
        blank(s.subrange(k, s.len() as int)),
    ensures
        trimmed(s.subrange(0, k)) == trimmed(s),
{
    let t = s.subrange(0, k);
    let tail = s.subrange(k, s.len() as int);
    lemma_trimmed(s);
    lemma_trimmed(t);
    let a = first_ink(t, 0);
    let b = ink_end(t, a, k);
    if a < b {
        assert(blank(s.subrange(0, a)));
        let back = s.subrange(b, s.len() as int);
        assert forall|i: int| 0 <= i < back.len() implies white(#[trigger] back[i]) by {
            if b + i < k {
                assert(t[b + i] == s[b + i]);
            } else {
                assert(tail[b + i - k] == s[b + i]);
            }
        }
        lemma_trimmed_unique(s, a, b);
        assert(t.subrange(a, b) =~= s.subrange(a, b));
    } else {
        assert forall|i: int| 0 <= i < s.len() implies white(#[trigger] s[i]) by {
            if i < k {
                assert(t[i] == s[i]);
            } else {
                assert(tail[i - k] == s[i]);
            }
        }
        assert(trimmed(s) =~= trimmed(t));
    }
}

/// Lines that are put one behind the other are the lines of what results, up to
/// whitespace.
pub proof fn lemma_lines_ended(parts: Seq<Seq<char>>, line_end: Seq<char>)
    requires
        ends_line(line_end),
        forall|k: int| 0 <= k < parts.len() ==> !(#[trigger] parts[k]).contains('\n'),
    ensures
        lines(glued(parts, line_end)).len() == parts.len(),
        forall|k: int|
            0 <= k < parts.len() ==> trimmed(#[trigger] lines(glued(parts, line_end))[k])
                == trimmed(parts[k]),
        glued(parts, line_end).len() == 0 || glued(parts, line_end).last() == '\n',
    decreases parts.len(),
{
    if parts.len() > 0 {
        let head = parts.drop_last();
        let p = parts.last();
        assert forall|k: int| 0 <= k < head.len() implies !(#[trigger] head[k]).contains('\n') by {
            assert(!parts[k].contains('\n'));
        }
        lemma_lines_ended(head, line_end);
        assert(!parts[parts.len() - 1].contains('\n'));
        lemma_ended_line(p, line_end);
        lemma_lines_add(glued(head, line_end), p + line_end);
        let ls = lines(glued(parts, line_end));
        assert(ls == lines(glued(head, line_end)) + seq![line_body(p + line_end)]);
        assert forall|k: int| 0 <= k < parts.len() implies trimmed(#[trigger] ls[k]) == trimmed(
            parts[k],
        ) by {
            if k < head.len() {
                assert(ls[k] == lines(glued(head, line_end))[k]);
                assert(head[k] == parts[k]);
            }
        }
    }
}

/// The lines of a text hold no other characters than the text.
pub proof fn lemma_line_chars(s: Seq<char>, k: int, c: char)
    requires
        0 <= k < lines(s).len(),
        !s.contains(c),
    ensures
        !lines(s)[k].contains(c),
{
    lemma_span(s, k);
    let (x, y) = line_spans(s)[k];
    let l = lines(s)[k];
    assert forall|i: int| 0 <= i < l.len() implies #[trigger] l[i] != c by {
        assert(l[i] == s[x + i]);
        assert(s.contains(s[x + i]));
    }
}

} // verus!
