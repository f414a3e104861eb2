//! What it means to trim, search and split a text, said of its characters.

use vstd::prelude::*;

use crate::chars::{ascii_white, digit, lower, white};
use crate::pieces::{lemma_ended_line, lemma_lines_add, lemma_spans_add, lemma_stop_of_one, shifted};
use crate::text::{
    begins_with, blank, ends_in, first_ink, holds, ink_end, lemma_first_ink, lemma_ink_end,
    lemma_trimmed, lemma_trimmed_unique, line_body, line_spans, line_stop, lines, occurs_at,
    spans_from, trimmed, trimmed_end, trimmed_start, width,
};

verus! {

// ---------------------------------------------------------------------------
// Whitespace

/// The characters that count as whitespace.
pub open spec fn space(c: char) -> bool {
    ||| c == ' ' || c == '\t' || c == '\n' || c == '\x0b' || c == '\x0c' || c == '\r'
    ||| c == '\u{85}' || c == '\u{a0}' || c == '\u{1680}'
    ||| '\u{2000}' <= c && c <= '\u{200a}'
    ||| c == '\u{2028}' || c == '\u{2029}' || c == '\u{202f}' || c == '\u{205f}'
    ||| c == '\u{3000}'
}

/// Whether a text holds nothing but whitespace.
pub open spec fn spaces(s: Seq<char>) -> bool {
    forall|i: int| 0 <= i < s.len() ==> space(#[trigger] s[i])
}

/// Whether a text starts and ends in something other than whitespace.
pub open spec fn inked(t: Seq<char>) -> bool {
    t.len() > 0 && !space(t[0]) && !space(t[t.len() - 1])
}

/// Which characters are whitespace.
pub proof fn law_whitespace(c: char)
    ensures
        white(c) == space(c),
{
}

/// Which characters are ASCII whitespace and digits, and which differ in case alone.
pub proof fn law_ascii(a: char, b: char)
    ensures
        ascii_white(a) <==> a == ' ' || a == '\t' || a == '\n' || a == '\x0c' || a == '\r',
        digit(a) <==> a == '0' || a == '1' || a == '2' || a == '3' || a == '4' || a == '5' || a
            == '6' || a == '7' || a == '8' || a == '9',
        lower(a) == lower(b) <==> {
            ||| a == b
            ||| 'A' <= a && a <= 'Z' && (a as u32) + 32 == b as u32
            ||| 'A' <= b && b <= 'Z' && (b as u32) + 32 == a as u32
        },
{
    if 'A' <= a && a <= 'Z' {
        let m = ((a as u32) + 32) as u32;
        assert((m as char) as u32 == m);
    }
    if 'A' <= b && b <= 'Z' {
        let m = ((b as u32) + 32) as u32;
        assert((m as char) as u32 == m);
    }
}

/// What is left of a text without the whitespace around it.
pub proof fn law_trimming(w: Seq<char>, t: Seq<char>, z: Seq<char>)
    requires
        spaces(w),
        inked(t),
        spaces(z),
    ensures
        trimmed(w + t + z) == t,
        trimmed_start(w + t + z) == t + z,
        trimmed_end(w + t + z) == w + t,
        width(w + t + z) == t.len(),
        !blank(w + t + z),
{
    let s = w + t + z;
    let a = w.len() as int;
    let b = a + t.len();
    let n = s.len() as int;
    assert(s[a] == t[0]);
    assert(s[b - 1] == t[t.len() - 1]);
    law_whitespace(s[a]);
    law_whitespace(s[b - 1]);
    assert forall|i: int| 0 <= i < a implies white(#[trigger] s[i]) by {
        assert(s[i] == w[i]);
        law_whitespace(w[i]);
    }
    assert forall|i: int| b <= i < n implies white(#[trigger] s[i]) by {
        assert(s[i] == z[i - b]);
        law_whitespace(z[i - b]);
    }
    assert(blank(s.subrange(0, a)));
    assert(blank(s.subrange(b, n)));
    lemma_trimmed_unique(s, a, b);
    assert(s.subrange(a, b) =~= t);
    lemma_first_ink(s, 0);
    assert(first_ink(s, 0) == a);
    assert(s.subrange(a, n) =~= t + z);
    lemma_ink_end(s, 0, n);
    assert(ink_end(s, 0, n) == b);
    assert(s.subrange(0, b) =~= w + t);
}

/// Nothing is left of a text of whitespace.
pub proof fn law_trimming_nothing(w: Seq<char>)
    ensures
        blank(w) == spaces(w),
        spaces(w) ==> trimmed(w).len() == 0 && width(w) == 0,
        spaces(w) ==> trimmed_start(w).len() == 0 && trimmed_end(w).len() == 0,
{
    assert(blank(w) == spaces(w)) by {
        if spaces(w) {
            assert forall|i: int| 0 <= i < w.len() implies white(#[trigger] w[i]) by {
                law_whitespace(w[i]);
            }
        }
        if blank(w) {
            assert forall|i: int| 0 <= i < w.len() implies space(#[trigger] w[i]) by {
                law_whitespace(w[i]);
            }
        }
    }
    lemma_trimmed(w);
    lemma_first_ink(w, 0);
    lemma_ink_end(w, 0, w.len() as int);
}

/// Every text is whitespace, or something between whitespace.
pub proof fn lemma_parts_of(s: Seq<char>) -> (parts: (Seq<char>, Seq<char>, Seq<char>))
    ensures
        s == parts.0 + parts.1 + parts.2,
        spaces(parts.0),
        spaces(parts.2),
        parts.1.len() == 0 || inked(parts.1),
        parts.1.len() == 0 <==> spaces(s),
        parts.1 == trimmed(s),
{
    lemma_trimmed(s);
    law_trimming_nothing(s);
    let n = s.len() as int;
    let a = first_ink(s, 0);
    let b = ink_end(s, a, n);
    let w = s.subrange(0, a);
    let t = s.subrange(a, b);
    let z = s.subrange(b, n);
    assert(s =~= w + t + z);
    assert forall|i: int| 0 <= i < w.len() implies space(#[trigger] w[i]) by {
        law_whitespace(s[i]);
    }
    assert forall|i: int| 0 <= i < z.len() implies space(#[trigger] z[i]) by {
        law_whitespace(s[b + i]);
    }
    if a < b {
        assert(t[0] == s[a] && t[t.len() - 1] == s[b - 1]);
        law_whitespace(s[a]);
        law_whitespace(s[b - 1]);
    }
    (w, t, z)
}

// ---------------------------------------------------------------------------
// Searching

/// What a text begins with, holds and ends in.
pub proof fn law_searching(s: Seq<char>, p: Seq<char>, c: char)
    ensures
        begins_with(s, p) <==> exists|r: Seq<char>| s == #[trigger] (p + r),
        holds(s, p) <==> exists|a: Seq<char>, b: Seq<char>| s == #[trigger] (a + p + b),
        ends_in(s, c) <==> exists|a: Seq<char>| s == #[trigger] a.push(c),
{
    if begins_with(s, p) {
        let r = s.subrange(p.len() as int, s.len() as int);
        assert(s =~= p + r);
    }
    if exists|r: Seq<char>| s == #[trigger] (p + r) {
        let r = choose|r: Seq<char>| s == #[trigger] (p + r);
        assert(s.subrange(0, p.len() as int) =~= p);
    }
    if holds(s, p) {
        let i = choose|i: int| occurs_at(s, p, i);
        let a = s.subrange(0, i);
        let b = s.subrange(i + p.len(), s.len() as int);
        assert(s =~= a + p + b);
    }
    if exists|a: Seq<char>, b: Seq<char>| s == #[trigger] (a + p + b) {
        let (a, b) = choose|a: Seq<char>, b: Seq<char>| s == #[trigger] (a + p + b);
        let i = a.len() as int;
        assert(s.subrange(i, i + p.len()) =~= p);
        assert(occurs_at(s, p, i));
    }
    if ends_in(s, c) {
        assert(s =~= s.drop_last().push(c));
    }
}

/// Where a text occurs in another.
pub proof fn law_occurring(a: Seq<char>, p: Seq<char>, b: Seq<char>, i: int)
    ensures
        occurs_at(a + p + b, p, a.len() as int),
        occurs_at(a, p, i) <==> 0 <= i && i + p.len() <= a.len() && forall|k: int|
            0 <= k < p.len() ==> #[trigger] p[k] == a[i + k],
{
    let s = a + p + b;
    let n = a.len() as int;
    assert(s.subrange(n, n + p.len()) =~= p);
    if 0 <= i && i + p.len() <= a.len() {
        if forall|k: int| 0 <= k < p.len() ==> #[trigger] p[k] == a[i + k] {
            assert(a.subrange(i, i + p.len()) =~= p);
        }
        if occurs_at(a, p, i) {
            assert forall|k: int| 0 <= k < p.len() implies #[trigger] p[k] == a[i + k] by {
                assert(a.subrange(i, i + p.len())[k] == a[i + k]);
            }
        }
    }
}

// ---------------------------------------------------------------------------
// Lines

/// A line without the carriage return at its end.
pub open spec fn returned(p: Seq<char>) -> Seq<char> {
    if p.len() > 0 && p[p.len() - 1] == '\r' {
        p.subrange(0, p.len() - 1)
    } else {
        p
    }
}

/// The first line of a text goes up to its first line feed, and a carriage
/// return before that belongs to the terminator.
pub proof fn law_first_line(p: Seq<char>, rest: Seq<char>)
    requires
        !p.contains('\n'),
    ensures
        lines(p + seq!['\n'] + rest) == seq![returned(p)] + lines(rest),
        line_spans(p + seq!['\n'] + rest).len() == line_spans(rest).len() + 1,
        line_spans(p + seq!['\n'] + rest)[0] == (0int, p.len() as int + 1),
        forall|k: int|
            0 <= k < line_spans(rest).len() ==> line_spans(p + seq!['\n'] + rest)[k + 1] == (
                (#[trigger] line_spans(rest)[k]).0 + p.len() + 1,
                line_spans(rest)[k].1 + p.len() + 1,
            ),
{
    let head = p + seq!['\n'];
    lemma_ended_line(p, seq!['\n']);
    lemma_lines_add(head, rest);
    assert(head.drop_last() =~= p);
    assert(line_body(head) =~= returned(p)) by {
        if ends_in(p, '\r') {
            assert(p.drop_last() =~= p.subrange(0, p.len() - 1));
        }
    }
    lemma_spans_add(head, rest, 0);
    lemma_stop_of_one(p, 0);
    assert(spans_from(head, head.len() as int) =~= seq![]);
    assert(spans_from(head, 0) =~= seq![(0int, p.len() as int + 1)]);
    let tail = shifted(spans_from(rest, 0), head.len() as int);
    assert forall|k: int| 0 <= k < line_spans(rest).len() implies line_spans(head + rest)[k + 1]
        == ((#[trigger] line_spans(rest)[k]).0 + p.len() + 1, line_spans(rest)[k].1 + p.len()
        + 1) by {
        assert(line_spans(head + rest)[k + 1] == tail[k]);
    }
}

/// The last line of a text may lack a terminator.
pub proof fn law_last_line(p: Seq<char>)
    requires
        !p.contains('\n'),
    ensures
        p.len() == 0 ==> lines(p).len() == 0 && line_spans(p).len() == 0,
        p.len() > 0 ==> lines(p) == seq![p] && line_spans(p) == seq![(0int, p.len() as int)],
{
    let n = p.len() as int;
    if n > 0 {
        lemma_no_stop(p, 0);
        assert(spans_from(p, n) =~= seq![]);
        assert(line_spans(p) =~= seq![(0int, n)]);
        assert(p.subrange(0, n) =~= p);
        assert(p.contains(p[n - 1]));
        assert(lines(p) =~= seq![p]);
    }
}

proof fn lemma_no_stop(p: Seq<char>, i: int)
    requires
        !p.contains('\n'),
        0 <= i <= p.len(),
    ensures
        line_stop(p, i) == p.len(),
    decreases p.len() - i,
{
    if i < p.len() {
        assert(p.contains(p[i]));
        lemma_no_stop(p, i + 1);
    }
}

} // verus!
