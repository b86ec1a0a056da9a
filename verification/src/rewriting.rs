//! A list with a part of it rewritten reads as the list with that part exchanged.

use crate::chars::blank;
use crate::grammar::{
    before, between, ended, lemma_atom_end, lemma_atom_end_is, lemma_close_is, lemma_lex_node,
    lemma_reads_blank, lemma_reads_both, reads,
};
use crate::scan::{lex, lex_step, CLOSE, OPEN, QUOTE};
use crate::sexp::{
    atom_end, ends_atom, escaped, parse_items, parse_node, string_close, unescaped, ParseError, Sexp,
};
use crate::substitution::lemma_same_range;
use crate::text::matches_at;
use vstd::prelude::*;

verus! {

// ─── What is read depends only on what is read ───────────────────────────────

/// Escapes depend only on the bytes of the string.
pub proof fn lemma_escapes_moved(s: Seq<u8>, t: Seq<u8>, from: int, to: int, d: int)
    requires
        forall|k: int| from <= k < to ==> #[trigger] s[k] == t[k + d],
    ensures
        escaped(s, from, to) == escaped(t, from + d, to + d),
        unescaped(s, from, to) == unescaped(t, from + d, to + d),
    decreases to - from,
{
    if from < to {
        lemma_escapes_moved(s, t, from, to - 1, d);
        assert(s[to - 1] == t[to - 1 + d]);
    }
}

/// A string closes where it did.
proof fn lemma_string_moved(s: Seq<u8>, t: Seq<u8>, from: int, i: int, e: int, d: int)
    requires
        0 <= from <= i <= e < s.len(),
        0 <= from + d,
        e + d < t.len(),
        string_close(s, from, i, s.len() as int) == Some(e),
        forall|k: int| from <= k <= e ==> #[trigger] s[k] == t[k + d],
    ensures
        string_close(t, from + d, i + d, t.len() as int) == Some(e + d),
    decreases e - i,
{
    lemma_escapes_moved(s, t, from, i, d);
    assert(s[i] == t[i + d]);
    if i < e {
        assert(!(s[i] == QUOTE && !escaped(s, from, i)));
        lemma_string_moved(s, t, from, i + 1, e, d);
    } else {
        lemma_close_is(s, from, i, s.len() as int);
    }
}

/// An expression reads the same wherever its bytes stand, and ends where they end; a
/// bare word only before something that ends it.
pub proof fn lemma_node_moved(s: Seq<u8>, t: Seq<u8>, i: int, d: int)
    requires
        0 <= i,
        0 <= i + d,
        parse_node(s, i) is Ok,
        !blank(s[i]),
        parse_node(s, i)->Ok_0.1 + d <= t.len(),
        forall|k: int| i <= k < parse_node(s, i)->Ok_0.1 ==> #[trigger] s[k] == t[k + d],
        s[i] != OPEN && s[i] != QUOTE ==> parse_node(s, i)->Ok_0.1 + d == t.len() || ends_atom(
            t[parse_node(s, i)->Ok_0.1 + d],
        ),
    ensures
        parse_node(t, i + d) == Ok::<(Sexp, int), ParseError>(
            (parse_node(s, i)->Ok_0.0, parse_node(s, i)->Ok_0.1 + d),
        ),
        i < parse_node(s, i)->Ok_0.1 <= s.len(),
    decreases s.len() - i, 0int,
{
    let (n, j) = parse_node(s, i)->Ok_0;
    if s[i] == OPEN {
        lemma_items_end(s, i + 1);
        assert(s[i] == t[i + d]);
        lemma_items_moved(s, t, i + 1, d);
    } else if s[i] == QUOTE {
        lemma_close_is(s, i + 1, i + 1, s.len() as int);
        assert(s[i] == t[i + d]);
        lemma_string_moved(s, t, i + 1, i + 1, j - 1, d);
        lemma_escapes_moved(s, t, i + 1, j - 1, d);
    } else {
        lemma_atom_end_is(s, i);
        lemma_atom_end_is(s, i + 1);
        assert(!ends_atom(s[i]));
        assert(s[i] == t[i + d]);
        assert forall|k: int| i + d <= k < j + d implies !ends_atom(#[trigger] t[k]) by {
            assert(s[k - d] == t[k - d + d]);
            assert(!ends_atom(s[k - d]));
        }
        lemma_atom_end(t, i + d, j + d);
        lemma_same_range(s, t, i, j, d);
    }
}

/// A list that is read ends behind where it begins, in the text.
pub proof fn lemma_items_end(s: Seq<u8>, i: int)
    requires
        parse_items(s, i) is Ok,
    ensures
        0 <= i < parse_items(s, i)->Ok_0.1 <= s.len(),
        s[parse_items(s, i)->Ok_0.1 - 1] == CLOSE,
    decreases s.len() - i,
{
    if blank(s[i]) {
        lemma_items_end(s, i + 1);
    } else if s[i] != CLOSE {
        let j = parse_node(s, i)->Ok_0.1;
        lemma_items_end(s, j);
    }
}

/// What an atom is followed by ends it.
proof fn lemma_atom_ends(s: Seq<u8>, i: int)
    requires
        0 <= i <= s.len(),
    ensures
        atom_end(s, i) < s.len() ==> ends_atom(s[atom_end(s, i)]),
    decreases s.len() - i,
{
    if i < s.len() && !ends_atom(s[i]) {
        lemma_atom_ends(s, i + 1);
    }
}

/// The rest of a list reads the same wherever its bytes stand.
pub proof fn lemma_items_moved(s: Seq<u8>, t: Seq<u8>, i: int, d: int)
    requires
        0 <= i,
        0 <= i + d,
        parse_items(s, i) is Ok,
        parse_items(s, i)->Ok_0.1 + d <= t.len(),
        forall|k: int| i <= k < parse_items(s, i)->Ok_0.1 ==> #[trigger] s[k] == t[k + d],
    ensures
        parse_items(t, i + d) == Ok::<(Seq<Sexp>, int), ParseError>(
            (parse_items(s, i)->Ok_0.0, parse_items(s, i)->Ok_0.1 + d),
        ),
    decreases s.len() - i, 1int,
{
    lemma_items_end(s, i);
    let (ns, e) = parse_items(s, i)->Ok_0;
    assert(s[i] == t[i + d]);
    if blank(s[i]) {
        lemma_items_moved(s, t, i + 1, d);
    } else if s[i] != CLOSE {
        let (n, j) = parse_node(s, i)->Ok_0;
        lemma_items_end(s, j);
        if s[i] != OPEN && s[i] != QUOTE {
            lemma_atom_ends(s, i);
            assert(s[j] == t[j + d]);
        }
        lemma_node_moved(s, t, i, d);
        lemma_items_moved(s, t, j, d);
    }
}

// ─── Taking a list apart ─────────────────────────────────────────────────────

/// Inside a string a scan is inside a string.
pub proof fn lemma_inside_string(s: Seq<u8>, start: int, from: int, i: int, e: int)
    requires
        0 <= start < from <= i <= e < s.len(),
        string_close(s, from, i, s.len() as int) == Some(e),
        lex(s, start, i).in_string,
        lex(s, start, i).escape == escaped(s, from, i),
    ensures
        forall|k: int| i <= k <= e ==> (#[trigger] lex(s, start, k)).in_string,
    decreases e - i,
{
    assert(lex(s, start, i + 1) == lex_step(lex(s, start, i), s[i]));
    if i < e {
        assert(!(s[i] == QUOTE && !escaped(s, from, i)));
        lemma_inside_string(s, start, from, i + 1, e);
    }
}

/// A point between two expressions, where no bare word goes on, is not inside an
/// expression that began before it.
proof fn lemma_not_inside(s: Seq<u8>, start: int, i: int, a: int)
    requires
        0 <= start <= i < a < s.len(),
        parse_node(s, i) is Ok,
        !blank(s[i]),
        between(lex(s, start, i)),
        lex(s, start, a) == lex(s, start, i),
        ends_atom(s[a]),
    ensures
        parse_node(s, i)->Ok_0.1 <= a,
{
    let j = parse_node(s, i)->Ok_0.1;
    lemma_lex_node(s, start, i);
    if a < j {
        if s[i] == OPEN {
            assert(lex(s, start, a).depth > lex(s, start, i).depth);
        } else if s[i] == QUOTE {
            lemma_close_is(s, i + 1, i + 1, s.len() as int);
            assert(lex(s, start, i + 1) == lex_step(lex(s, start, i), s[i]));
            lemma_inside_string(s, start, i + 1, i + 1, j - 1);
            assert(lex(s, start, a).in_string);
        } else {
            lemma_atom_end_is(s, i);
            assert(!ends_atom(s[a]));
        }
    }
}

/// The bytes of an expression read as it.
pub proof fn lemma_node_reads(s: Seq<u8>, i: int)
    requires
        0 <= i,
        parse_node(s, i) is Ok,
        !blank(s[i]),
    ensures
        i < parse_node(s, i)->Ok_0.1 <= s.len(),
        reads(
            s.subrange(i, parse_node(s, i)->Ok_0.1),
            seq![parse_node(s, i)->Ok_0.0],
            s[i] == OPEN || s[i] == QUOTE,
        ),
{
    let (n, j) = parse_node(s, i)->Ok_0;
    if s[i] == OPEN {
        lemma_items_end(s, i + 1);
    } else if s[i] == QUOTE {
        lemma_close_is(s, i + 1, i + 1, s.len() as int);
    } else {
        lemma_atom_end_is(s, i);
        lemma_atom_end_is(s, i + 1);
        assert(!ends_atom(s[i]));
    }
    let w = s.subrange(i, j);
    let loose = s[i] == OPEN || s[i] == QUOTE;
    assert forall|t: Seq<u8>, p: int| #[trigger] matches_at(t, p, w) && (loose || ended(t, p + w.len()))
        implies parse_items(t, p) == before(seq![n], parse_items(t, p + w.len())) by {
        assert forall|k: int| i <= k < j implies #[trigger] s[k] == t[k + (p - i)] by {
            assert(t.subrange(p, p + w.len())[k - i] == w[k - i]);
        }
        assert(s[i] == t[i + (p - i)]);
        lemma_node_moved(s, t, i, p - i);
        assert(parse_node(t, p) == Ok::<(Sexp, int), ParseError>((n, p + w.len())));
    }
}

/// What reads so everywhere reads so before the end of a bare word.
proof fn lemma_reads_less(t: Seq<u8>, ns: Seq<Sexp>, loose: bool)
    requires
        reads(t, ns, loose),
    ensures
        reads(t, ns, false),
{
}

/// Nothing reads as nothing.
proof fn lemma_reads_nothing(t: Seq<u8>)
    requires
        t.len() == 0,
    ensures
        reads(t, Seq::empty(), true),
{
    lemma_reads_blank(t);
}

/// Two texts one after the other read as both their readings; the second may be
/// empty.
proof fn lemma_reads_on(a: Seq<u8>, x: Seq<Sexp>, la: bool, b: Seq<u8>, y: Seq<Sexp>)
    requires
        reads(a, x, la),
        reads(b, y, false),
        b.len() > 0 ==> la || ends_atom(b[0]),
        b.len() == 0 ==> y.len() == 0,
    ensures
        reads(a + b, x + y, false),
{
    if b.len() > 0 {
        lemma_reads_both(a, x, la, b, y, false);
    } else {
        assert(a + b =~= a);
        assert(x + y =~= x);
        lemma_reads_less(a, x, la);
    }
}

/// A list taken apart at a point between two of its expressions: what stands before
/// the point reads as the first `k`, and the list goes on there with the others.
pub proof fn lemma_take_apart(s: Seq<u8>, start: int, i: int, a: int) -> (k: int)
    requires
        0 <= start <= i <= a,
        parse_items(s, i) is Ok,
        a < parse_items(s, i)->Ok_0.1,
        between(lex(s, start, i)),
        lex(s, start, i).depth > 0,
        lex(s, start, a) == lex(s, start, i),
        ends_atom(s[a]),
    ensures
        0 <= k <= parse_items(s, i)->Ok_0.0.len(),
        parse_items(s, a) == Ok::<(Seq<Sexp>, int), ParseError>(
            (parse_items(s, i)->Ok_0.0.skip(k), parse_items(s, i)->Ok_0.1),
        ),
        reads(s.subrange(i, a), parse_items(s, i)->Ok_0.0.take(k), false),
        i == a ==> k == 0,
    decreases a - i,
{
    let (ns, e) = parse_items(s, i)->Ok_0;
    lemma_items_end(s, i);
    if i == a {
        assert(ns.skip(0) =~= ns);
        assert(ns.take(0) =~= Seq::<Sexp>::empty());
        lemma_reads_nothing(s.subrange(i, a));
        lemma_reads_less(s.subrange(i, a), Seq::empty(), true);
        0
    } else if blank(s[i]) {
        assert(lex(s, start, i + 1) == lex_step(lex(s, start, i), s[i]));
        let k = lemma_take_apart(s, start, i + 1, a);
        let one = s.subrange(i, i + 1);
        let rest = s.subrange(i + 1, a);
        assert forall|m: int| 0 <= m < one.len() implies blank(#[trigger] one[m]) by {
            assert(one[m] == s[i]);
        }
        lemma_reads_blank(one);
        assert(one + rest =~= s.subrange(i, a));
        assert(Seq::<Sexp>::empty() + ns.take(k) =~= ns.take(k));
        if rest.len() == 0 {
            assert(ns.take(k) =~= Seq::<Sexp>::empty());
        }
        lemma_reads_on(one, Seq::empty(), true, rest, ns.take(k));
        k
    } else {
        // A close would end the list before the point.
        assert(s[i] != CLOSE);
        let (n, j) = parse_node(s, i)->Ok_0;
        lemma_not_inside(s, start, i, a);
        lemma_lex_node(s, start, i);
        lemma_node_reads(s, i);
        let k = lemma_take_apart(s, start, j, a);
        let more = parse_items(s, j)->Ok_0.0;
        assert(ns == seq![n] + more);
        assert(ns.skip(k + 1) =~= more.skip(k));
        assert(ns.take(k + 1) =~= seq![n] + more.take(k));
        let one = s.subrange(i, j);
        let rest = s.subrange(j, a);
        assert(one + rest =~= s.subrange(i, a));
        if s[i] != OPEN && s[i] != QUOTE {
            lemma_atom_ends(s, i);
            if rest.len() > 0 {
                assert(rest[0] == s[j]);
            }
        }
        if rest.len() == 0 {
            assert(more.take(k) =~= Seq::<Sexp>::empty());
        }
        lemma_reads_on(one, seq![n], s[i] == OPEN || s[i] == QUOTE, rest, more.take(k));
        k + 1
    }
}

// ─── Putting it together again ───────────────────────────────────────────────

/// A list with the bytes `a..b` rewritten reads as the list with the expressions
/// that stood there exchanged for those that stand there now.
pub proof fn lemma_rewrite(
    s: Seq<u8>,
    i: int,
    a: int,
    b: int,
    m: Seq<u8>,
    head: Seq<Sexp>,
    new: Seq<Sexp>,
    tail: Seq<Sexp>,
    e: int,
)
    requires
        0 <= i <= a <= b < e <= s.len(),
        reads(s.subrange(i, a), head, false),
        reads(m, new, true),
        m.len() > 0 ==> ends_atom(m[0]),
        m.len() == 0 ==> ends_atom(s[b]),
        parse_items(s, b) == Ok::<(Seq<Sexp>, int), ParseError>((tail, e)),
    ensures
        parse_items(s.take(a) + m + s.skip(b), i) == Ok::<(Seq<Sexp>, int), ParseError>(
            (head + new + tail, e - b + a + m.len()),
        ),
{
    let t = s.take(a) + m + s.skip(b);
    let d = a + m.len() - b;
    assert forall|k: int| b <= k < e implies #[trigger] s[k] == t[k + d] by {}
    lemma_items_moved(s, t, b, d);
    assert(t.subrange(a, a + m.len()) =~= m);
    assert(matches_at(t, a, m));
    assert(parse_items(t, a) == before(new, parse_items(t, a + m.len())));
    let h = s.subrange(i, a);
    assert(t.subrange(i, i + h.len()) =~= h);
    assert(matches_at(t, i, h));
    assert(ended(t, a)) by {
        if m.len() > 0 {
            assert(t[a] == m[0]);
        } else {
            assert(s[b] == t[b + d]);
        }
    }
    assert(parse_items(t, i) == before(head, parse_items(t, i + h.len())));
    assert(head + (new + tail) =~= head + new + tail);
}

/// The same with two parts of the list rewritten.
pub proof fn lemma_rewrite_two(
    s: Seq<u8>,
    i: int,
    a: int,
    b: int,
    m: Seq<u8>,
    p: int,
    q: int,
    n: Seq<u8>,
    head: Seq<Sexp>,
    first: Seq<Sexp>,
    mid: Seq<Sexp>,
    second: Seq<Sexp>,
    tail: Seq<Sexp>,
    e: int,
)
    requires
        0 <= i <= a <= b <= p <= q < e <= s.len(),
        reads(s.subrange(i, a), head, false),
        reads(s.subrange(b, p), mid, false),
        reads(m, first, true),
        m.len() > 0,
        ends_atom(m[0]),
        reads(n, second, true),
        n.len() > 0 ==> ends_atom(n[0]),
        n.len() == 0 ==> ends_atom(s[q]),
        parse_items(s, q) == Ok::<(Seq<Sexp>, int), ParseError>((tail, e)),
    ensures
        parse_items(s.take(a) + m + s.subrange(b, p) + n + s.skip(q), i) == Ok::<
            (Seq<Sexp>, int),
            ParseError,
        >((head + first + mid + second + tail, e - q + p + n.len() - b + a + m.len())),
{
    let t = s.take(p) + n + s.skip(q);
    let f = e - q + p + n.len();
    lemma_rewrite(s, b, p, q, n, mid, second, tail, e);
    assert(t.subrange(i, a) =~= s.subrange(i, a));
    lemma_rewrite(t, i, a, b, m, head, first, mid + second + tail, f);
    assert(t.take(a) + m + t.skip(b) =~= s.take(a) + m + s.subrange(b, p) + n + s.skip(q));
    assert(head + first + (mid + second + tail) =~= head + first + mid + second + tail);
}

} // verus!
