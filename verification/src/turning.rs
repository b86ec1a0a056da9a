//! A position inside a footprint exchanged for another, and how the footprints of the
//! board read afterwards: what they are known by, and the numbers of every position.

#[allow(unused_imports)]
use crate::at_node::{at_node, At};
#[allow(unused_imports)]
use crate::blocks::{
    bare_end, children, children_from, law_children_are_direct, skip_to, tag_byte, tag_end, tag_text,
    tagged_child, token_at,
};
#[allow(unused_imports)]
use crate::chars::blank;
#[allow(unused_imports)]
use crate::field_laws::{lemma_escaped_same, lemma_stays_in_string};
#[allow(unused_imports)]
use crate::footprint::{
    board_footprints, footprint_at, footprint_header, lemma_tag_stands, nested_at, property_at,
    quoted_token, token_text, with_child, with_children, Footprint,
};
#[allow(unused_imports)]
use crate::grammar::between;
#[allow(unused_imports)]
use crate::moving::{
    known_by, laid, lemma_at_is_laid, lemma_children_shift, lemma_escaped_shift, lemma_laid_closes,
    lemma_laid_is_at, lemma_laid_shift, lemma_laid_tag, lemma_number_in, lemma_plain_lex,
    lemma_children_order, lemma_footprint_word, lemma_footprints_are, lemma_item_closes, lemma_start_is,
    lemma_tag_text_shift, lemma_token_shift, lemma_window, number_byte, shifted,
};
#[allow(unused_imports)]
use crate::placing::{lemma_root, lemma_skip_blank_is};
#[allow(unused_imports)]
use crate::scan::{
    block_end, closes_at, is_document, lemma_block_end, lemma_block_end_is, lemma_block_moved,
    lemma_depth_bound, lemma_lex_shift, lex, lex_step, outside, skip_blank, tag_opens,
    top_level_starts, CLOSE, OPEN, QUOTE,
};
#[allow(unused_imports)]
use crate::sexp::{escaped, string_close};
#[allow(unused_imports)]
use crate::substitution::{
    lemma_between_inside, lemma_same_range, lemma_swap_children, lemma_swap_closes,
    lemma_swap_starts, lemma_swap_tag, lemma_swap_text, lemma_tag_end_before, moved, moved_all,
    moved_starts, swap, swaps,
};
#[allow(unused_imports)]
use crate::text::{
    boundary, bytes, lemma_ascii_boundary, lemma_between_cuts, lemma_bytes_ascii, text_of,
};
use vstd::prelude::*;
use vstd::string::*;

verus! {

// ─── Tokens before a block ───────────────────────────────────────────────────

proof fn lemma_skip_front(s: Seq<u8>, t: Seq<u8>, i: int, a: int, stop: int, other: int)
    requires
        0 <= i <= a < stop,
        a < other,
        !blank(s[a]),
        forall|k: int| i <= k <= a ==> #[trigger] s[k] == t[k],
    ensures
        skip_to(s, i, stop) == skip_to(t, i, other),
        i <= skip_to(s, i, stop) <= a,
        forall|k: int| i <= k < skip_to(s, i, stop) ==> blank(#[trigger] s[k]),
    decreases a - i,
{
    assert(s[i] == t[i]);
    if blank(s[i]) {
        lemma_skip_front(s, t, i + 1, a, stop, other);
    }
}

proof fn lemma_bare_front(s: Seq<u8>, t: Seq<u8>, i: int, a: int, stop: int, other: int)
    requires
        0 <= i <= a < stop,
        a < other,
        s[a] == OPEN,
        forall|k: int| i <= k <= a ==> #[trigger] s[k] == t[k],
    ensures
        bare_end(s, i, stop) == bare_end(t, i, other),
        i <= bare_end(s, i, stop) <= a,
        ({
            let j = bare_end(s, i, stop);
            blank(s[j]) || s[j] == OPEN || s[j] == CLOSE
        }),
        forall|k: int| i <= k < bare_end(s, i, stop) ==> #[trigger] s[k] != OPEN && s[k] != CLOSE,
    decreases a - i,
{
    assert(s[i] == t[i]);
    if !blank(s[i]) && s[i] != OPEN && s[i] != CLOSE {
        lemma_bare_front(s, t, i + 1, a, stop, other);
    }
}

proof fn lemma_close_front(s: Seq<u8>, t: Seq<u8>, from: int, i: int, a: int, stop: int, other: int) -> (e:
    int)
    requires
        0 <= from <= i <= a < stop,
        a < other,
        forall|k: int| from <= k <= a ==> #[trigger] s[k] == t[k + 0],
        forall|k: int| from <= k < i && #[trigger] s[k] == QUOTE ==> escaped(s, from, k),
        exists|k: int| i <= k < a && #[trigger] s[k] == QUOTE && !escaped(s, from, k),
    ensures
        i <= e < a,
        string_close(s, from, i, stop) == Some(e),
        string_close(t, from, i, other) == Some(e),
        s[e] == QUOTE,
        !escaped(s, from, e),
        forall|k: int| from <= k < e && #[trigger] s[k] == QUOTE ==> escaped(s, from, k),
    decreases a - i,
{
    assert(s[i] == t[i + 0]);
    lemma_escaped_same(s, t, from, i, 0);
    if s[i] == QUOTE && !escaped(s, from, i) {
        i
    } else {
        lemma_close_front(s, t, from, i + 1, a, stop, other)
    }
}

/// A token that stands before a block depends on nothing behind where that opens.
proof fn lemma_token_front(
    s: Seq<u8>,
    t: Seq<u8>,
    st: int,
    from: int,
    a: int,
    stop: int,
    other: int,
)
    requires
        0 <= st <= from <= a < stop <= s.len(),
        a < other <= t.len(),
        s[a] == OPEN,
        forall|k: int| from <= k <= a ==> #[trigger] s[k] == t[k],
        between(lex(s, st, from)),
        between(lex(s, st, a)),
    ensures
        token_at(s, from, stop) == token_at(t, from, other),
        token_at(s, from, stop) matches Some((x, i, j)) ==> {
            &&& from <= i < j <= a
            &&& forall|k: int| from <= k < i ==> blank(#[trigger] s[k])
            &&& s[i] != QUOTE ==> x == text_of(s.subrange(i, j)) && (blank(s[j]) || s[j] == OPEN || s[j]
                == CLOSE)
            &&& s[i] == QUOTE || (forall|k: int| i <= k < j ==> #[trigger] s[k] != QUOTE) ==> between(
                lex(s, st, j),
            )
        },
        quoted_token(s, from, stop) == quoted_token(t, from, other),
{
    lemma_skip_front(s, t, from, a, stop, other);
    let i = skip_to(s, from, stop);
    lemma_calm(s, st, from, i);
    assert(s[i] == t[i]);
    if s[i] == QUOTE {
        assert(i < a);
        assert(lex(s, st, i + 1) == lex_step(lex(s, st, i), s[i]));
        if forall|k: int| i + 1 <= k < a && #[trigger] s[k] == QUOTE ==> escaped(s, i + 1, k) {
            lemma_stays_in_string(s, st, i + 1, a);
            assert(false);
        }
        let k = choose|k: int| i + 1 <= k < a && #[trigger] s[k] == QUOTE && !escaped(s, i + 1, k);
        assert forall|k: int| i + 1 <= k <= a implies #[trigger] s[k] == t[k + 0] by {}
        let e = lemma_close_front(s, t, i + 1, i + 1, a, stop, other);
        lemma_escaped_shift(s, t, i + 1, e, 0);
        lemma_stays_in_string(s, st, i + 1, e);
        assert(lex(s, st, e + 1) == lex_step(lex(s, st, e), s[e]));
    } else {
        lemma_bare_front(s, t, i, a, stop, other);
        let j = bare_end(s, i, stop);
        assert(s.subrange(i, j) =~= t.subrange(i, j));
        if forall|k: int| i <= k < j ==> #[trigger] s[k] != QUOTE {
            lemma_calm(s, st, i, j);
        }
    }
}

/// Bytes that open, close and quote nothing leave a scan as it is.
proof fn lemma_calm(s: Seq<u8>, st: int, i: int, j: int)
    requires
        st <= i <= j,
        between(lex(s, st, i)),
        forall|k: int| i <= k < j ==> #[trigger] s[k] != OPEN && s[k] != CLOSE && s[k] != QUOTE,
    ensures
        lex(s, st, j) == lex(s, st, i),
    decreases j - i,
{
    if i < j {
        lemma_calm(s, st, i, j - 1);
        assert(s[j - 1] != OPEN);
    }
}

// ─── The exchange ────────────────────────────────────────────────────────────

/// A position in a text and another to stand in its place.
pub struct Exchange {
    /// The text.
    pub c: Seq<char>,
    /// Where the position stands, and where its numbers are.
    pub a: int,
    pub b: int,
    pub r: Seq<(int, int)>,
    /// What it is exchanged for, and where its numbers are in that.
    pub w: Seq<char>,
    pub q: Seq<(int, int)>,
}

impl Exchange {
    pub open spec fn s(self) -> Seq<u8> {
        bytes(self.c)
    }

    pub open spec fn n(self) -> int {
        bytes(self.w).len() as int
    }

    /// The bytes after the exchange.
    #[verifier::opaque]
    pub open spec fn t(self) -> Seq<u8> {
        swap(self.s(), self.a, self.b, bytes(self.w))
    }

    /// Where a position goes that is not inside the exchanged bytes.
    pub open spec fn to(self, k: int) -> int {
        moved(k, self.a, self.b, self.n())
    }

    #[verifier::opaque]
    pub open spec fn ok(self) -> bool {
        &&& laid(self.s(), self.a, self.b, self.r)
        &&& laid(bytes(self.w), 0, self.n(), self.q)
        &&& between(lex(self.s(), 0, self.a))
    }
}

pub proof fn lemma_laid_inner(s: Seq<u8>, a: int, e: int, r: Seq<(int, int)>)
    requires
        laid(s, a, e, r),
    ensures
        forall|i: int| a < i < e - 1 ==> #[trigger] s[i] != OPEN && s[i] != CLOSE && s[i] != QUOTE,
        a + 4 < e,
        s[a] == OPEN,
        s[e - 1] == CLOSE,
{
    lemma_number_in(s, r[0]);
    lemma_number_in(s, r[1]);
    if r.len() == 3 {
        lemma_number_in(s, r[2]);
    }
    assert forall|i: int| a < i < e - 1 implies #[trigger] s[i] != OPEN && s[i] != CLOSE && s[i]
        != QUOTE by {
        if i < a + 3 {
        } else {
            assert(blank(s[i]) || number_byte(s[i]));
        }
    }
}

#[verifier::rlimit(30)]
proof fn lemma_ok(x: Exchange)
    requires
        x.ok(),
    ensures
        swaps(x.s(), x.a, x.b, bytes(x.w)),
        bytes(text_of(x.t())) == x.t(),
        laid(x.t(), x.a, x.a + x.n(), shifted(x.q, x.a)),
        tag_text(x.s(), x.a) == "at"@,
        tag_text(x.t(), x.a) == "at"@,
        x.s()[x.a] == OPEN,
        x.t()[x.a] == OPEN,
        0 <= x.a,
        x.a + 4 < x.b <= x.s().len(),
        4 < x.n(),
        x.t().len() == x.s().len() - x.b + x.a + x.n(),
{
    reveal(Exchange::t);
    reveal(Exchange::ok);
    let s = x.s();
    let t = x.t();
    let w = bytes(x.w);
    lemma_laid_closes(s, x.a, x.b, x.r);
    lemma_laid_closes(w, 0, x.n(), x.q);
    lemma_laid_inner(s, x.a, x.b, x.r);
    lemma_laid_inner(w, 0, x.n(), x.q);
    lemma_laid_tag(s, x.a, x.b, x.r);
    assert(bytes(text_of(t)) == t) by {
        lemma_swap_text(x.c, x.a, x.b, x.w);
    }
    assert(laid(t, x.a, x.a + x.n(), shifted(x.q, x.a))) by {
        lemma_window(s, x.a, x.b, w);
        lemma_laid_shift(w, t, 0, x.n(), x.q, x.a);
    }
    lemma_laid_tag(t, x.a, x.a + x.n(), shifted(x.q, x.a));
    lemma_laid_inner(t, x.a, x.a + x.n(), shifted(x.q, x.a));
}

/// The numbers at ranges.
pub open spec fn numbers(s: Seq<u8>, r: Seq<(int, int)>) -> Seq<Seq<u8>> {
    Seq::new(r.len(), |i: int| s.subrange(r[i].0, r[i].1))
}

/// A position before the exchange and after it: the exchanged one has its new numbers,
/// and any other the numbers it had.
#[verifier::opaque]
pub open spec fn same_at(x: Exchange, p: At, o: At) -> bool {
    &&& laid(x.s(), p.start, p.end, p.tokens)
    &&& laid(x.t(), o.start, o.end, o.tokens)
    &&& o.start == x.to(p.start)
    &&& o.end == x.to(p.end)
    &&& if p.start == x.a {
        p.end == x.b && o.tokens == shifted(x.q, x.a)
    } else {
        &&& p.end <= x.a || x.b <= p.start
        &&& o.tokens == shifted(p.tokens, o.start - p.start)
        &&& numbers(x.t(), o.tokens) == numbers(x.s(), p.tokens)
    }
}

pub open spec fn same_at_opt(x: Exchange, p: Option<At>, o: Option<At>) -> bool {
    match (p, o) {
        (Some(u), Some(v)) => same_at(x, u, v),
        (None, None) => true,
        _ => false,
    }
}

/// How a block lies to the exchanged position.
proof fn lemma_where(x: Exchange, p: int, g: int)
    requires
        x.ok(),
        closes_at(x.s(), p, g),
        between(lex(x.s(), 0, p)),
    ensures
        (p < x.a && g <= x.a) || (p < x.a && x.b < g && between(lex(x.s(), p, x.a))) || (p == x.a && g
            == x.b) || x.b <= p,
{
    let s = x.s();
    lemma_ok(x);
    reveal(Exchange::ok);
    lemma_laid_inner(s, x.a, x.b, x.r);
    if p == x.a {
        lemma_block_end(s, p, g);
        lemma_block_end(s, x.a, x.b);
    }
    if p < x.a < g {
        lemma_between_inside(s, 0, p, x.a, g);
        lemma_swap_closes(s, x.a, x.b, bytes(x.w), p, g);
    }
}

/// The bytes beside the exchanged position, moved along.
proof fn lemma_beside(x: Exchange, p: int, g: int)
    requires
        x.ok(),
        0 <= p <= g <= x.s().len(),
        g <= x.a || x.b <= p,
    ensures
        ({
            let d = if g <= x.a {
                0
            } else {
                x.a + x.n() - x.b
            };
            &&& forall|k: int| p <= k < g ==> #[trigger] x.s()[k] == x.t()[k + d]
            &&& 0 <= p + d
            &&& g + d <= x.t().len()
            &&& p < g ==> x.to(p) == p + d
            &&& p < g ==> x.to(g) == g + d
        }),
{
    lemma_ok(x);
    let d = if g <= x.a {
        0
    } else {
        x.a + x.n() - x.b
    };
    assert forall|k: int| p <= k < g implies #[trigger] x.s()[k] == x.t()[k + d] by {
        reveal(Exchange::t);
    }
}

/// A block around the exchanged position closes after it.
proof fn lemma_around(x: Exchange, p: int, g: int)
    requires
        x.ok(),
        closes_at(x.s(), p, g),
        p < x.a,
        x.b < g,
        between(lex(x.s(), p, x.a)),
    ensures
        closes_at(x.t(), p, x.to(g)),
        x.to(p) == p,
        x.to(g) == g - x.b + x.a + x.n(),
        forall|k: int| 0 <= k <= x.a ==> #[trigger] x.s()[k] == x.t()[k],
{
    lemma_ok(x);
    lemma_swap_closes(x.s(), x.a, x.b, bytes(x.w), p, g);
    assert forall|k: int| 0 <= k <= x.a implies #[trigger] x.s()[k] == x.t()[k] by {
        reveal(Exchange::t);
    }
    reveal(Exchange::t);
}

proof fn lemma_kids_around(x: Exchange, q: int, f: int)
    requires
        x.ok(),
        closes_at(x.s(), q, f),
        q < x.a,
        x.b < f,
        between(lex(x.s(), q, x.a)),
        lex(x.s(), q, q + 1).depth == 1,
    ensures
        children(x.t(), q, x.to(f)) == moved_all(children(x.s(), q, f), x.a, x.b, x.n()),
        closes_at(x.t(), q, x.to(f)),
{
    lemma_ok(x);
    lemma_around(x, q, f);
    lemma_swap_children(x.s(), x.a, x.b, bytes(x.w), q, q + 1, f);
    reveal(Exchange::t);
}

/// The bytes of a position beside the exchanged one are laid out the same after it.
proof fn lemma_at_beside(s: Seq<u8>, c: Seq<char>, d: Seq<char>, p: int, g: int, e: int)
    requires
        s == bytes(c),
        closes_at(bytes(c), p, g),
        0 <= p + e,
        g + e <= bytes(d).len(),
        forall|k: int| p <= k < g ==> #[trigger] bytes(c)[k] == bytes(d)[k + e],
        at_node(bytes(c), p) is Some,
    ensures
        ({
            let at = at_node(bytes(c), p)->0;
            &&& at.start == p
            &&& at.end == g
            &&& laid(bytes(c), p, g, at.tokens)
            &&& laid(bytes(d), p + e, g + e, shifted(at.tokens, e))
            &&& at_node(bytes(d), p + e) == Some(
                At { start: p + e, end: g + e, tokens: shifted(at.tokens, e) },
            )
            &&& numbers(bytes(d), shifted(at.tokens, e)) == numbers(bytes(c), at.tokens)
        }),
{
    let at = at_node(s, p)->0;
    crate::text::lemma_first_byte(s, OPEN, p);
    lemma_block_end(s, p, g);
    lemma_at_is_laid(c, p);
    lemma_laid_shift(s, bytes(d), p, g, at.tokens, e);
    lemma_laid_is_at(d, p + e, g + e, shifted(at.tokens, e));
    let r = at.tokens;
    let o = shifted(r, e);
    assert forall|i: int| 0 <= i < r.len() implies #[trigger] numbers(bytes(d), o)[i] == numbers(s, r)[i] by {
        assert(i == 0 || i == 1 || i == 2);
        assert(p <= r[i].0 <= r[i].1 <= g);
        lemma_same_range(s, bytes(d), r[i].0, r[i].1, e);
    }
    assert(numbers(bytes(d), o) =~= numbers(s, r));
}

/// The exchanged position reads before and after.
proof fn lemma_at_own(x: Exchange)
    requires
        x.ok(),
    ensures
        same_at_opt(x, at_node(x.s(), x.a), at_node(x.t(), x.a)),
{
    reveal(Exchange::ok);
    reveal(same_at);
    lemma_ok(x);
    lemma_laid_is_at(x.c, x.a, x.b, x.r);
    lemma_laid_is_at(text_of(x.t()), x.a, x.a + x.n(), shifted(x.q, x.a));
}

/// A block beside the exchanged position reads as it did.
proof fn lemma_at_other(x: Exchange, p: int, g: int)
    requires
        x.ok(),
        closes_at(x.s(), p, g),
        g <= x.a || x.b <= p,
    ensures
        same_at_opt(x, at_node(x.s(), p), at_node(x.t(), x.to(p))),
{
    let s = x.s();
    let t = x.t();
    let tc = text_of(t);
    reveal(same_at);
    assert(bytes(tc) == t && x.a < x.b) by {
        lemma_ok(x);
    }
    lemma_beside(x, p, g);
    let d = x.to(p) - p;
    if at_node(s, p) is Some {
        lemma_at_beside(s, x.c, tc, p, g, d);
    } else if at_node(t, p + d) is Some {
        lemma_block_moved(s, t, p, g, d);
        assert forall|k: int| p + d <= k < g + d implies #[trigger] t[k] == s[k + (-d)] by {
            assert(s[k - d] == t[k - d + d]);
        }
        lemma_at_beside(t, tc, x.c, p + d, g + d, -d);
    }
}

/// A block that holds another block is no position.
proof fn lemma_no_at(c: Seq<char>, p: int, g: int, a: int)
    requires
        closes_at(bytes(c), p, g),
        p < a < g - 1,
        bytes(c)[a] == OPEN,
    ensures
        at_node(bytes(c), p) is None,
{
    let s = bytes(c);
    if at_node(s, p) is Some {
        lemma_at_is_laid(c, p);
        let at = at_node(s, p)->0;
        crate::text::lemma_first_byte(s, OPEN, p);
        lemma_block_end(s, p, g);
        lemma_laid_inner(s, p, g, at.tokens);
    }
}

/// A block reads as a position after the exchange if it did before, and only then.
proof fn lemma_at_step(x: Exchange, p: int, g: int)
    requires
        x.ok(),
        closes_at(x.s(), p, g),
        between(lex(x.s(), 0, p)),
    ensures
        same_at_opt(x, at_node(x.s(), p), at_node(x.t(), x.to(p))),
{
    lemma_where(x, p, g);
    if p == x.a {
        lemma_at_own(x);
    } else if g <= x.a || x.b <= p {
        lemma_at_other(x, p, g);
    } else {
        lemma_ok(x);
        lemma_around(x, p, g);
        lemma_no_at(x.c, p, g, x.a);
        lemma_no_at(text_of(x.t()), p, x.to(g), x.a);
    }
}

/// A block has the tag it had.
proof fn lemma_tag_step(x: Exchange, p: int, g: int)
    requires
        x.ok(),
        closes_at(x.s(), p, g),
        between(lex(x.s(), 0, p)),
    ensures
        tag_text(x.s(), p) == tag_text(x.t(), x.to(p)),
{
    let s = x.s();
    let t = x.t();
    lemma_ok(x);
    lemma_where(x, p, g);
    if p == x.a {
    } else if g <= x.a || x.b <= p {
        lemma_beside(x, p, g);
        lemma_tag_text_shift(s, t, p, g, x.to(p) - p);
    } else {
        assert forall|k: int| p + 1 <= k < x.a implies #[trigger] s[k] == t[k] by {
            reveal(Exchange::t);
        }
        lemma_tag_end_before(s, t, p + 1, x.a);
        assert(s.subrange(p + 1, tag_end(s, p + 1)) =~= t.subrange(p + 1, tag_end(s, p + 1)));
    }
}

// ─── Children ────────────────────────────────────────────────────────────────

/// The children of a block, each outside every string.
proof fn lemma_kids(s: Seq<u8>, q: int, f: int)
    requires
        closes_at(s, q, f),
        between(lex(s, 0, q)),
    ensures
        lex(s, q, q + 1).depth == 1,
        forall|i: int|
            #![trigger children(s, q, f)[i]]
            0 <= i < children(s, q, f).len() ==> {
                let k = children(s, q, f)[i];
                &&& q < k.0
                &&& k.1 < f
                &&& closes_at(s, k.0, k.1)
                &&& between(lex(s, 0, k.0))
            },
{
    assert(lex(s, q, q) == outside());
    assert(lex(s, q, q + 1) == lex_step(outside(), s[q]));
    law_children_are_direct(s, q, q + 1, f);
    assert forall|i: int|
        #![trigger children(s, q, f)[i]]
        0 <= i < children(s, q, f).len() implies ({
        let k = children(s, q, f)[i];
        &&& q < k.0
        &&& k.1 < f
        &&& closes_at(s, k.0, k.1)
        &&& between(lex(s, 0, k.0))
    }) by {
        let k = children_from(s, q, q + 1, f)[i];
        lemma_depth_bound(s, q, k.0);
        lemma_lex_shift(s, 0, q, k.0);
    }
}

/// The children of a block are the same after the exchange, moved along.
proof fn lemma_kids_step(x: Exchange, q: int, f: int)
    requires
        x.ok(),
        closes_at(x.s(), q, f),
        between(lex(x.s(), 0, q)),
        q != x.a,
    ensures
        children(x.t(), x.to(q), x.to(f)) == moved_all(children(x.s(), q, f), x.a, x.b, x.n()),
        closes_at(x.t(), x.to(q), x.to(f)),
{
    let s = x.s();
    let t = x.t();
    lemma_where(x, q, f);
    lemma_kids(s, q, f);
    let kids = children(s, q, f);
    if f <= x.a || x.b <= q {
        lemma_beside(x, q, f);
        let d = x.to(q) - q;
        lemma_children_shift(s, t, q, q + 1, f, d);
        lemma_block_moved(s, t, q, f, d);
        let mine = children(t, q + d, f + d);
        assert forall|i: int| 0 <= i < mine.len() implies mine[i] == moved_all(kids, x.a, x.b, x.n())[i] by {
            let k = kids[i];
            assert(children_from(t, q + d, q + 1 + d, f + d)[i] == (
                children_from(s, q, q + 1, f)[i].0 + d,
                children_from(s, q, q + 1, f)[i].1 + d,
            ));
            lemma_block_end_is(s, k.0);
            lemma_block_end(s, k.0, k.1);
        }
        assert(mine =~= moved_all(kids, x.a, x.b, x.n()));
    } else {
        lemma_kids_around(x, q, f);
    }
}

proof fn lemma_tagged_step(x: Exchange, q: int, f: int, tag: Seq<char>, k: int)
    requires
        x.ok(),
        closes_at(x.s(), q, f),
        between(lex(x.s(), 0, q)),
        0 <= k,
    ensures
        ({
            let kids = children(x.s(), q, f);
            match tagged_child(x.s(), kids, tag, k) {
                Some(p) => tagged_child(x.t(), moved_all(kids, x.a, x.b, x.n()), tag, k) == Some(
                    x.to(p),
                ) && exists|i: int| 0 <= i < kids.len() && (#[trigger] kids[i]).0 == p,
                None => tagged_child(x.t(), moved_all(kids, x.a, x.b, x.n()), tag, k) is None,
            }
        }),
    decreases children(x.s(), q, f).len() - k,
{
    let kids = children(x.s(), q, f);
    if k < kids.len() {
        lemma_kids(x.s(), q, f);
        lemma_tag_step(x, kids[k].0, kids[k].1);
        lemma_tagged_step(x, q, f, tag, k + 1);
    }
}

/// The position directly inside a block is the same after the exchange, or exchanged.
proof fn lemma_nested_step(x: Exchange, q: int, f: int)
    requires
        x.ok(),
        closes_at(x.s(), q, f),
        between(lex(x.s(), 0, q)),
        q != x.a,
    ensures
        same_at_opt(x, nested_at(x.s(), q, f), nested_at(x.t(), x.to(q), x.to(f))),
{
    let kids = children(x.s(), q, f);
    lemma_kids_step(x, q, f);
    lemma_tagged_step(x, q, f, "at"@, 0);
    match tagged_child(x.s(), kids, "at"@, 0) {
        Some(p) => {
            let i = choose|i: int| 0 <= i < kids.len() && (#[trigger] kids[i]).0 == p;
            lemma_kids(x.s(), q, f);
            lemma_at_step(x, kids[i].0, kids[i].1);
        },
        None => {},
    }
}

// ─── What a child adds ───────────────────────────────────────────────────────

/// Where the tag of a block stands, and that a block inside opens behind it.
proof fn lemma_after_tag(c: Seq<char>, p: int, g: int, a: int, tag: Seq<char>)
    requires
        closes_at(bytes(c), p, g),
        tag_text(bytes(c), p) == tag,
        vstd::utf8::is_ascii_chars(tag),
        p < a < g,
        bytes(c)[a] == OPEN,
    ensures
        p + 1 + tag.len() <= a,
        boundary(bytes(c), p + 1 + tag.len()),
        between(lex(bytes(c), p, p + 1 + tag.len())),
{
    let s = bytes(c);
    lemma_tag_stands(c, p, g, tag);
    lemma_tag_is(c, p, g, tag);
    let j = p + 1 + tag.len();
    assert forall|k: int| p + 1 <= k < j implies #[trigger] s[k] != OPEN && s[k] != CLOSE && s[k]
        != QUOTE by {
        assert(tag_byte(s[k]));
    }
    if a < j {
        assert(tag_byte(s[a]));
    }
    lemma_plain_lex(s, p, j);
}

proof fn lemma_tag_is(c: Seq<char>, p: int, g: int, tag: Seq<char>)
    requires
        closes_at(bytes(c), p, g),
        tag_text(bytes(c), p) == tag,
        vstd::utf8::is_ascii_chars(tag),
    ensures
        forall|k: int| p + 1 <= k < p + 1 + tag.len() ==> tag_byte(#[trigger] bytes(c)[k]),
{
    let s = bytes(c);
    let e = tag_end(s, p + 1);
    lemma_tag_run(s, p + 1);
    lemma_block_end(s, p, g);
    lemma_block_end_is(s, p);
    crate::scan::lemma_block_cuttable(c, p, g);
    lemma_bytes_ascii(tag);
    lemma_run_cuts(c, p + 1, e);
    lemma_between_cuts(c, p + 1, e);
    assert(bytes(tag) == s.subrange(p + 1, e));
}

proof fn lemma_tag_run(s: Seq<u8>, i: int)
    requires
        0 <= i <= s.len(),
    ensures
        i <= tag_end(s, i) <= s.len(),
        forall|k: int| i <= k < tag_end(s, i) ==> tag_byte(#[trigger] s[k]),
    decreases s.len() - i,
{
    if i < s.len() && tag_byte(s[i]) {
        lemma_tag_run(s, i + 1);
    }
}

proof fn lemma_run_cuts(c: Seq<char>, i: int, e: int)
    requires
        0 <= i <= e <= bytes(c).len(),
        boundary(bytes(c), i),
        forall|k: int| i <= k < e ==> tag_byte(#[trigger] bytes(c)[k]),
    ensures
        boundary(bytes(c), e),
{
    if i < e {
        assert(tag_byte(bytes(c)[e - 1]));
        lemma_ascii_boundary(c, e - 1);
    }
}

/// A token after a tag is the same after the exchange.
proof fn lemma_token_step(x: Exchange, p: int, g: int, tag: Seq<char>)
    requires
        x.ok(),
        closes_at(x.s(), p, g),
        between(lex(x.s(), 0, p)),
        p != x.a,
        tag_text(x.s(), p) == tag,
        vstd::utf8::is_ascii_chars(tag),
    ensures
        token_text(x.s(), p + 1 + tag.len(), g) == token_text(
            x.t(),
            x.to(p) + 1 + tag.len(),
            x.to(g),
        ),
{
    let s = x.s();
    let t = x.t();
    let from = p + 1 + tag.len();
    lemma_where(x, p, g);
    lemma_ok(x);
    if g <= x.a || x.b <= p {
        lemma_beside(x, p, g);
        lemma_tag_stands(x.c, p, g, tag);
        lemma_token_shift(s, t, from, g, x.to(p) - p);
    } else {
        lemma_around(x, p, g);
        lemma_after_tag(x.c, p, g, x.a, tag);
        lemma_token_front(s, t, p, from, x.a, g, x.to(g));
    }
}

/// A property before the exchange and after it.
spec fn same_property(x: Exchange, p: int, g: int) -> bool {
    match (property_at(x.s(), p, g), property_at(x.t(), x.to(p), x.to(g))) {
        (Some(u), Some(v)) => {
            &&& u.name == v.name
            &&& u.name == "Reference"@ ==> u.value == v.value
            &&& same_at_opt(x, u.at, v.at)
        },
        (None, None) => true,
        _ => false,
    }
}

proof fn lemma_property_beside(x: Exchange, p: int, g: int)
    requires
        x.ok(),
        closes_at(x.s(), p, g),
        between(lex(x.s(), 0, p)),
        g <= x.a || x.b <= p,
        tag_text(x.s(), p) == "property"@,
    ensures
        same_property(x, p, g),
{
    let s = x.s();
    let t = x.t();
    lemma_ok(x);
    assert(p + 9 < g) by {
        reveal_strlit("property");
        lemma_tag_stands(x.c, p, g, "property"@);
    }
    lemma_nested_step(x, p, g);
    let d = x.to(p) - p;
    assert(same_texts(s, p, g, t, p + d, g + d)) by {
        lemma_beside(x, p, g);
        lemma_texts_shift(s, t, p, g, d);
    }
    assert(x.to(g) == g + d) by {
        lemma_beside(x, p, g);
    }
    lemma_same_texts(s, p, g, t, p + d, g + d);
}

/// What two properties state, but for their positions.
spec fn same_texts(s: Seq<u8>, p: int, g: int, t: Seq<u8>, q: int, h: int) -> bool {
    match (token_at(s, p + 9, g), token_at(t, q + 9, h)) {
        (Some((u, _, e)), Some((v, _, f))) => u == v && match (quoted_token(s, e, g), quoted_token(t, f, h)) {
            (Some((k, _, _)), Some((l, _, _))) => k == l,
            (None, None) => true,
            _ => false,
        },
        (None, None) => true,
        _ => false,
    }
}

proof fn lemma_texts_shift(s: Seq<u8>, t: Seq<u8>, p: int, g: int, d: int)
    requires
        0 <= p,
        p + 9 < g <= s.len(),
        0 <= p + d,
        g + d <= t.len(),
        forall|k: int| p <= k < g ==> #[trigger] s[k] == t[k + d],
    ensures
        same_texts(s, p, g, t, p + d, g + d),
{
    lemma_token_shift(s, t, p + 9, g, d);
    if let Some((_, _, e)) = token_at(s, p + 9, g) {
        lemma_token_shift(s, t, e, g, d);
    }
}

proof fn lemma_same_texts(s: Seq<u8>, p: int, g: int, t: Seq<u8>, q: int, h: int)
    requires
        same_texts(s, p, g, t, q, h),
    ensures
        match (property_at(s, p, g), property_at(t, q, h)) {
            (Some(u), Some(v)) => u.name == v.name && u.value == v.value && u.at == nested_at(s, p, g)
                && v.at == nested_at(t, q, h),
            (None, None) => true,
            _ => false,
        },
{
}

proof fn lemma_property_around(x: Exchange, p: int, g: int)
    requires
        x.ok(),
        closes_at(x.s(), p, g),
        between(lex(x.s(), 0, p)),
        p < x.a,
        x.b < g,
        between(lex(x.s(), p, x.a)),
        tag_text(x.s(), p) == "property"@,
    ensures
        same_property(x, p, g),
{
    let s = x.s();
    let t = x.t();
    lemma_ok(x);
    reveal_strlit("property");
    lemma_around(x, p, g);
    lemma_after_tag(x.c, p, g, x.a, "property"@);
    lemma_nested_step(x, p, g);
    lemma_token_front(s, t, p, p + 9, x.a, g, x.to(g));
    if let Some((name, i, j)) = token_at(s, p + 9, g) {
        if name == "Reference"@ {
            if s[i] != QUOTE {
                lemma_bare_name(x.c, p + 9, i, j);
            }
            lemma_token_front(s, t, p, j, x.a, g, x.to(g));
        }
    }
}

/// A bare word that reads as the designator's name holds no quote.
proof fn lemma_bare_name(c: Seq<char>, from: int, i: int, j: int)
    requires
        0 <= from <= i < j < bytes(c).len(),
        boundary(bytes(c), from),
        forall|k: int| from <= k < i ==> blank(#[trigger] bytes(c)[k]),
        blank(bytes(c)[j]) || bytes(c)[j] == OPEN || bytes(c)[j] == CLOSE,
        text_of(bytes(c).subrange(i, j)) == "Reference"@,
    ensures
        forall|k: int| i <= k < j ==> #[trigger] bytes(c)[k] != QUOTE,
{
    let s = bytes(c);
    if from < i {
        assert(blank(s[i - 1]));
        lemma_ascii_boundary(c, i - 1);
    }
    lemma_ascii_boundary(c, j);
    lemma_between_cuts(c, i, j);
    reveal_strlit("Reference");
    lemma_bytes_ascii("Reference"@);
    let v = s.subrange(i, j);
    assert(bytes("Reference"@) == v);
    assert forall|k: int| i <= k < j implies #[trigger] s[k] != QUOTE by {
        assert(v[k - i] == s[k]);
        assert(bytes("Reference"@)[k - i] == "Reference"@[k - i] as u8);
    }
}

proof fn lemma_property_step(x: Exchange, p: int, g: int)
    requires
        x.ok(),
        closes_at(x.s(), p, g),
        between(lex(x.s(), 0, p)),
        p != x.a,
        tag_text(x.s(), p) == "property"@,
    ensures
        same_property(x, p, g),
{
    lemma_where(x, p, g);
    if g <= x.a || x.b <= p {
        lemma_property_beside(x, p, g);
    } else {
        lemma_property_around(x, p, g);
    }
}

/// A footprint before the exchange and after it.
pub open spec fn same_footprint(x: Exchange, u: Footprint, v: Footprint) -> bool {
    &&& known_by(u) == known_by(v)
    &&& u.child_at_tags == v.child_at_tags
    &&& u.child_ats.len() == v.child_ats.len()
    &&& u.child_ats.len() == u.child_at_tags.len()
    &&& forall|i: int| 0 <= i < u.child_ats.len() ==> same_at(x, #[trigger] u.child_ats[i], v.child_ats[i])
    &&& same_at_opt(x, u.at, v.at)
}

/// A footprint after one more child.
proof fn lemma_child_step(x: Exchange, u: Footprint, v: Footprint, p: int, g: int)
    requires
        x.ok(),
        same_footprint(x, u, v),
        closes_at(x.s(), p, g),
        between(lex(x.s(), 0, p)),
    ensures
        same_footprint(x, with_child(x.s(), u, p, g), with_child(x.t(), v, x.to(p), x.to(g))),
{
    let s = x.s();
    let t = x.t();
    lemma_tag_step(x, p, g);
    let tag = tag_text(s, p);
    lemma_ok(x);
    let u2 = with_child(s, u, p, g);
    let v2 = with_child(t, v, x.to(p), x.to(g));
    if tag == "at"@ {
        lemma_at_step(x, p, g);
    } else if tag == "uuid"@ {
        reveal_strlit("uuid");
        lemma_token_step(x, p, g, tag);
    } else if tag == "layer"@ {
    } else if tag == "property"@ {
        lemma_property_step(x, p, g);
    } else {
        lemma_nested_step(x, p, g);
    }
    assert forall|i: int| 0 <= i < u2.child_ats.len() implies same_at(
        x,
        #[trigger] u2.child_ats[i],
        v2.child_ats[i],
    ) by {
        if i < u.child_ats.len() {
            assert(same_at(x, u.child_ats[i], v.child_ats[i]));
        }
    }
}

proof fn lemma_children_step(x: Exchange, u: Footprint, v: Footprint, q: int, f: int, n: int)
    requires
        x.ok(),
        same_footprint(x, u, v),
        closes_at(x.s(), q, f),
        between(lex(x.s(), 0, q)),
        0 <= n <= children(x.s(), q, f).len(),
    ensures
        ({
            let kids = children(x.s(), q, f);
            same_footprint(
                x,
                with_children(x.s(), u, kids, n),
                with_children(x.t(), v, moved_all(kids, x.a, x.b, x.n()), n),
            )
        }),
    decreases n,
{
    if n > 0 {
        let kids = children(x.s(), q, f);
        lemma_children_step(x, u, v, q, f, n - 1);
        lemma_kids(x.s(), q, f);
        lemma_child_step(
            x,
            with_children(x.s(), u, kids, n - 1),
            with_children(x.t(), v, moved_all(kids, x.a, x.b, x.n()), n - 1),
            kids[n - 1].0,
            kids[n - 1].1,
        );
    }
}

/// A footprint reads the same after the exchange but for the exchanged position.
proof fn lemma_footprint_step(x: Exchange, q: int, f: int)
    requires
        x.ok(),
        closes_at(x.s(), q, f),
        between(lex(x.s(), 0, q)),
        q != x.a,
    ensures
        same_footprint(x, footprint_at(x.s(), q, f), footprint_at(x.t(), x.to(q), x.to(f))),
        closes_at(x.t(), x.to(q), x.to(f)),
{
    let kids = children(x.s(), q, f);
    lemma_kids_step(x, q, f);
    lemma_children_step(
        x,
        footprint_header(x.s(), q, f),
        footprint_header(x.t(), x.to(q), x.to(f)),
        q,
        f,
        kids.len() as int,
    );
}

// ─── The board ───────────────────────────────────────────────────────────────

/// A board is one document after the exchange.
proof fn lemma_document_step(x: Exchange)
    requires
        x.ok(),
        is_document(x.s(), bytes("kicad_pcb"@)),
        lex(x.s(), 0, x.a).depth > 1,
    ensures
        is_document(x.t(), bytes("kicad_pcb"@)),
{
    let s = x.s();
    let t = x.t();
    let tag = bytes("kicad_pcb"@);
    let root = skip_blank(s, 0);
    let e = block_end(s, root)->0;
    lemma_ok(x);
    lemma_root(s, tag);
    if x.a <= root {
        assert(lex(s, 0, x.a) == outside());
    }
    assert(lex(s, 0, root) == outside());
    lemma_where(x, root, e);
    if e <= x.a {
        assert(blank(s[x.a]));
    }
    lemma_around(x, root, e);
    lemma_block_end(t, root, x.to(e));
    assert(tag_opens(t, root, tag)) by {
        reveal_strlit("kicad_pcb");
        crate::placing::lemma_tag_chars("kicad_pcb"@);
        lemma_swap_tag(x.c, x.a, x.b, x.w, root, "kicad_pcb"@);
        reveal(Exchange::t);
    }
    assert forall|k: int| 0 <= k < root implies blank(#[trigger] t[k]) by {
        assert(s[k] == t[k]);
        assert(blank(s[k]));
    }
    assert(s[root] == t[root]);
    lemma_skip_blank_is(t, 0, root);
    lemma_beside(x, e, s.len() as int);
    let d = x.a + x.n() - x.b;
    assert forall|k: int| e + d <= k < t.len() implies blank(#[trigger] t[k]) by {
        assert(s[k - d] == t[k - d + d]);
        assert(blank(s[k - d]));
    }
    lemma_skip_blank_is(t, e + d, t.len() as int);
}

/// The footprints of a board read the same after the exchange but for the exchanged
/// position.
pub proof fn lemma_board_step(x: Exchange)
    requires
        x.ok(),
        is_document(x.s(), bytes("kicad_pcb"@)),
        lex(x.s(), 0, x.a).depth > 1,
    ensures
        bytes(text_of(x.t())) == x.t(),
        is_document(x.t(), bytes("kicad_pcb"@)),
        board_footprints(x.t()).len() == board_footprints(x.s()).len(),
        forall|i: int|
            0 <= i < board_footprints(x.s()).len() ==> same_footprint(
                x,
                #[trigger] board_footprints(x.s())[i],
                board_footprints(x.t())[i],
            ),
{
    let s = x.s();
    let t = x.t();
    let tag = bytes("footprint"@);
    let starts = top_level_starts(s, tag, s.len() as int);
    let mine = moved_starts(starts, x.a, x.b, x.n());
    lemma_ok(x);
    lemma_document_step(x);
    assert(top_level_starts(t, tag, t.len() as int) == mine) by {
        reveal(Exchange::t);
        reveal(Exchange::ok);
        lemma_footprint_word();
        lemma_swap_starts(x.c, x.a, x.b, x.w, "footprint"@, s.len() as int);
    }
    assert forall|i: int| 0 <= i < starts.len() implies block_end(s, #[trigger] starts[i]) is Some
        && block_end(t, mine[i]) is Some && same_footprint(
        x,
        footprint_at(s, starts[i], block_end(s, starts[i])->0),
        footprint_at(t, mine[i], block_end(t, mine[i])->0),
    ) by {
        let q = starts[i];
        lemma_start_is(s, tag, s.len() as int, i);
        lemma_item_closes(s, bytes("kicad_pcb"@), tag, q);
        let f = block_end(s, q)->0;
        lemma_footprint_step(x, q, f);
        lemma_block_end(t, x.to(q), x.to(f));
    }
    lemma_footprints_are(s, starts, starts.len() as int);
    assert forall|i: int| 0 <= i < mine.len() implies block_end(t, #[trigger] mine[i]) is Some by {
        assert(block_end(s, starts[i]) is Some);
    }
    lemma_footprints_are(t, mine, mine.len() as int);
    assert forall|i: int| 0 <= i < board_footprints(s).len() implies same_footprint(
        x,
        #[trigger] board_footprints(s)[i],
        board_footprints(t)[i],
    ) by {
        assert(block_end(s, starts[i]) is Some);
    }
}

// ─── Where positions stand ───────────────────────────────────────────────────

/// A position inside a footprint of the board, outside every string.
#[verifier::opaque]
pub open spec fn at_inside(s: Seq<u8>, at: At) -> bool {
    &&& laid(s, at.start, at.end, at.tokens)
    &&& between(lex(s, 0, at.start))
    &&& lex(s, 0, at.start).depth > 1
    &&& closes_at(s, at.start, at.end)
}

/// Where the positions of a footprint stand once its first `n` children are read: its
/// own is one of them, and each of the others is inside one of them, further on than
/// those before.
#[verifier::opaque]
spec fn placed_in(s: Seq<u8>, kids: Seq<(int, int)>, n: int, fp: Footprint) -> bool {
    &&& fp.child_ats.len() == fp.child_at_tags.len()
    &&& forall|i: int|
        0 <= i < fp.child_ats.len() ==> at_inside(s, #[trigger] fp.child_ats[i]) && in_kid(
            s,
            kids,
            n,
            fp.child_ats[i],
        )
    &&& forall|i: int, j: int|
        0 <= i < j < fp.child_ats.len() ==> (#[trigger] fp.child_ats[i]).start < (
        #[trigger] fp.child_ats[j]).start
    &&& fp.at matches Some(at) ==> at_inside(s, at) && is_kid(s, kids, n, at)
}

/// A position inside one of the first `n` children, which is none itself.
spec fn in_kid(s: Seq<u8>, kids: Seq<(int, int)>, n: int, at: At) -> bool {
    exists|k: int|
        0 <= k < n && (#[trigger] kids[k]).0 < at.start && at.end < kids[k].1 && tag_text(s, kids[k].0)
            != "at"@
}

/// A position that is one of the first `n` children.
spec fn is_kid(s: Seq<u8>, kids: Seq<(int, int)>, n: int, at: At) -> bool {
    exists|k: int|
        0 <= k < n && (#[trigger] kids[k]).0 == at.start && tag_text(s, kids[k].0) == "at"@
}

/// The position directly inside a block stands inside it.
proof fn lemma_nested_inside(c: Seq<char>, q: int, f: int)
    requires
        closes_at(bytes(c), q, f),
        between(lex(bytes(c), 0, q)),
        lex(bytes(c), 0, q).depth > 0,
    ensures
        nested_at(bytes(c), q, f) matches Some(at) ==> at_inside(bytes(c), at) && q < at.start && at.end
            < f,
{
    let s = bytes(c);
    let kids = children(s, q, f);
    lemma_kids(s, q, f);
    lemma_tagged_in(s, kids, "at"@, 0);
    if let Some(p) = tagged_child(s, kids, "at"@, 0) {
        let i = choose|i: int| 0 <= i < kids.len() && (#[trigger] kids[i]).0 == p;
        lemma_kid_depth(s, q, f, p);
        lemma_at_inside(c, p, kids[i].1);
    }
}

proof fn lemma_tagged_in(s: Seq<u8>, kids: Seq<(int, int)>, tag: Seq<char>, k: int)
    requires
        0 <= k,
    ensures
        tagged_child(s, kids, tag, k) matches Some(p) ==> exists|i: int|
            0 <= i < kids.len() && (#[trigger] kids[i]).0 == p,
    decreases kids.len() - k,
{
    if k < kids.len() {
        lemma_tagged_in(s, kids, tag, k + 1);
    }
}

/// A child is deeper in the text than its block.
proof fn lemma_kid_depth(s: Seq<u8>, q: int, f: int, p: int)
    requires
        closes_at(s, q, f),
        between(lex(s, 0, q)),
        q < p < f,
    ensures
        lex(s, 0, p).depth > lex(s, 0, q).depth,
{
    lemma_lex_shift(s, 0, q, p);
    assert(lex(s, q, p).depth > 0);
}

/// A block that reads as a position is one.
proof fn lemma_at_inside(c: Seq<char>, p: int, g: int)
    requires
        closes_at(bytes(c), p, g),
        between(lex(bytes(c), 0, p)),
        lex(bytes(c), 0, p).depth > 1,
    ensures
        at_node(bytes(c), p) matches Some(at) ==> at_inside(bytes(c), at) && at.start == p && at.end
            == g,
{
    reveal(at_inside);
    let s = bytes(c);
    if at_node(s, p) is Some {
        lemma_at_is_laid(c, p);
        crate::text::lemma_first_byte(s, OPEN, p);
        lemma_block_end(s, p, g);
    }
}

/// A position in one of the first children is in one of more.
proof fn lemma_in_more(s: Seq<u8>, kids: Seq<(int, int)>, n: int, at: At)
    requires
        in_kid(s, kids, n, at),
    ensures
        in_kid(s, kids, n + 1, at),
{
    let k = choose|k: int|
        0 <= k < n && (#[trigger] kids[k]).0 < at.start && at.end < kids[k].1 && tag_text(s, kids[k].0)
            != "at"@;
    assert(kids[k].0 < at.start);
}

/// A position in one of the first children stands before the next child.
proof fn lemma_in_before(s: Seq<u8>, q: int, f: int, n: int, at: At)
    requires
        closes_at(s, q, f),
        between(lex(s, 0, q)),
        0 <= n < children(s, q, f).len(),
        in_kid(s, children(s, q, f), n, at),
    ensures
        at.end < children(s, q, f)[n].0,
{
    let kids = children(s, q, f);
    let k = choose|k: int|
        0 <= k < n && (#[trigger] kids[k]).0 < at.start && at.end < kids[k].1 && tag_text(s, kids[k].0)
            != "at"@;
    lemma_kids(s, q, f);
    lemma_children_order(s, q, q + 1, f);
    assert(kids[k].1 <= kids[n].0);
}

/// One more child keeps the positions in their places.
proof fn lemma_child_placed(c: Seq<char>, q: int, f: int, n: int, fp: Footprint)
    requires
        closes_at(bytes(c), q, f),
        between(lex(bytes(c), 0, q)),
        lex(bytes(c), 0, q).depth > 0,
        0 <= n < children(bytes(c), q, f).len(),
        placed_in(bytes(c), children(bytes(c), q, f), n, fp),
    ensures
        ({
            let kids = children(bytes(c), q, f);
            placed_in(bytes(c), kids, n + 1, with_child(bytes(c), fp, kids[n].0, kids[n].1))
        }),
{
    reveal(placed_in);
    let s = bytes(c);
    let kids = children(s, q, f);
    let (p, g) = kids[n];
    lemma_kids(s, q, f);
    lemma_kid_depth(s, q, f, p);
    let now = with_child(s, fp, p, g);
    let tag = tag_text(s, p);
    if tag == "at"@ {
        lemma_at_inside(c, p, g);
    } else {
        lemma_nested_inside(c, p, g);
    }
    assert forall|i: int| 0 <= i < now.child_ats.len() implies at_inside(s, #[trigger] now.child_ats[i])
        && in_kid(s, kids, n + 1, now.child_ats[i]) by {
        if i < fp.child_ats.len() {
            lemma_in_more(s, kids, n, fp.child_ats[i]);
        } else {
            assert(kids[n].0 < now.child_ats[i].start);
        }
    }
    assert forall|i: int, j: int| 0 <= i < j < now.child_ats.len() implies (
    #[trigger] now.child_ats[i]).start < (#[trigger] now.child_ats[j]).start by {
        if j == fp.child_ats.len() {
            lemma_in_before(s, q, f, n, fp.child_ats[i]);
            reveal(at_inside);
            assert(at_inside(s, fp.child_ats[i]));
        }
    }
    if let Some(at) = now.at {
        if tag == "at"@ {
            assert(kids[n].0 == at.start);
        } else {
            assert(is_kid(s, kids, n, at));
            let k = choose|k: int|
                0 <= k < n && (#[trigger] kids[k]).0 == at.start && tag_text(s, kids[k].0) == "at"@;
            assert(kids[k].0 == at.start);
        }
    }
}

proof fn lemma_children_placed(c: Seq<char>, q: int, f: int, n: int)
    requires
        closes_at(bytes(c), q, f),
        between(lex(bytes(c), 0, q)),
        lex(bytes(c), 0, q).depth > 0,
        0 <= n <= children(bytes(c), q, f).len(),
    ensures
        ({
            let s = bytes(c);
            let kids = children(s, q, f);
            placed_in(s, kids, n, with_children(s, footprint_header(s, q, f), kids, n))
        }),
    decreases n,
{
    let s = bytes(c);
    let kids = children(s, q, f);
    if n > 0 {
        lemma_children_placed(c, q, f, n - 1);
        lemma_child_placed(c, q, f, n - 1, with_children(s, footprint_header(s, q, f), kids, n - 1));
    } else {
        reveal(placed_in);
    }
}

/// The positions of a footprint: its own first, then those of its children.
pub open spec fn position_at(fp: Footprint, i: int) -> At {
    if i == 0 {
        fp.at->0
    } else {
        fp.child_ats[i - 1]
    }
}

/// The positions of a footprint on a board stand inside it, each in a place of its own.
pub proof fn lemma_positions(c: Seq<char>, j: int)
    requires
        is_document(bytes(c), bytes("kicad_pcb"@)),
        0 <= j < board_footprints(bytes(c)).len(),
        board_footprints(bytes(c))[j].at is Some,
    ensures
        ({
            let s = bytes(c);
            let fp = board_footprints(s)[j];
            &&& fp.child_ats.len() == fp.child_at_tags.len()
            &&& forall|i: int|
                0 <= i <= fp.child_ats.len() ==> at_inside(s, #[trigger] position_at(fp, i))
            &&& forall|i: int, k: int|
                0 <= i < k <= fp.child_ats.len() ==> (#[trigger] position_at(fp, i)).start != (
                #[trigger] position_at(fp, k)).start
        }),
{
    let s = bytes(c);
    let tag = bytes("footprint"@);
    let starts = top_level_starts(s, tag, s.len() as int);
    assert forall|i: int| 0 <= i < starts.len() implies block_end(s, #[trigger] starts[i]) is Some by {
        lemma_start_is(s, tag, s.len() as int, i);
        lemma_item_closes(s, bytes("kicad_pcb"@), tag, starts[i]);
    }
    lemma_footprints_are(s, starts, starts.len() as int);
    let q = starts[j];
    lemma_start_is(s, tag, s.len() as int, j);
    lemma_item_closes(s, bytes("kicad_pcb"@), tag, q);
    let f = block_end(s, q)->0;
    let kids = children(s, q, f);
    let n = kids.len() as int;
    lemma_children_placed(c, q, f, n);
    let fp = board_footprints(s)[j];
    assert(fp == with_children(s, footprint_header(s, q, f), kids, n));
    reveal(placed_in);
    lemma_kids(s, q, f);
    lemma_children_order(s, q, q + 1, f);
    assert forall|i: int, k: int| 0 <= i < k <= fp.child_ats.len() implies (
    #[trigger] position_at(fp, i)).start != (#[trigger] position_at(fp, k)).start by {
        if i == 0 {
            let at = fp.at->0;
            let o = fp.child_ats[k - 1];
            assert(at_inside(s, o));
            assert(o.start < o.end) by {
                reveal(at_inside);
            }
            assert(is_kid(s, kids, n, at));
            let m = choose|m: int|
                0 <= m < n && (#[trigger] kids[m]).0 == at.start && tag_text(s, kids[m].0) == "at"@;
            assert(in_kid(s, kids, n, o));
            let l = choose|l: int|
                0 <= l < n && (#[trigger] kids[l]).0 < o.start && o.end < kids[l].1 && tag_text(
                    s,
                    kids[l].0,
                ) != "at"@;
            if m < l {
                assert(kids[m].1 <= kids[l].0);
            } else if l < m {
                assert(kids[l].1 <= kids[m].0);
            }
        } else {
            assert(fp.child_ats[i - 1].start < fp.child_ats[k - 1].start);
        }
    }
    assert forall|i: int| 0 <= i <= fp.child_ats.len() implies at_inside(s, #[trigger] position_at(fp, i)) by {
        if i > 0 {
            assert(at_inside(s, fp.child_ats[i - 1]));
        }
    }
}

} // verus!
