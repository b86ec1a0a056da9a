//! One block of a text exchanged for another: what stands before it stays where it
//! is, what stands behind it moves along, and neither reads differently.

use crate::blocks::{children_from, tag_byte, tag_end};
use crate::grammar::between;
use crate::placing::{is_tag, lemma_inner_closes, lemma_tag_ends, lemma_tag_same, starts_item};
use crate::scan::{
    block_end, closes_at, lemma_block_end, lemma_block_moved, lemma_depth_bound, lemma_lex_over_block,
    lemma_lex_same, lemma_lex_shift, lex, lex_step, tag_opens, top_level_starts, OPEN,
};
use crate::text::{
    bytes, lemma_ascii_boundary, lemma_between_cuts, lemma_bytes_valid, lemma_ends, text_of,
};
use vstd::prelude::*;
use vstd::utf8::*;

verus! {

/// `s` with the bytes `a..b` exchanged for `w`.
pub open spec fn swap(s: Seq<u8>, a: int, b: int, w: Seq<u8>) -> Seq<u8> {
    s.take(a) + w + s.skip(b)
}

/// Where a position goes that is not inside the exchanged bytes.
pub open spec fn moved(k: int, a: int, b: int, n: int) -> int {
    if k <= a {
        k
    } else {
        k - b + a + n
    }
}

/// A block is exchanged for a block.
pub open spec fn swaps(s: Seq<u8>, a: int, b: int, w: Seq<u8>) -> bool {
    closes_at(s, a, b) && closes_at(w, 0, w.len() as int)
}

/// A position that is not inside the exchanged bytes.
pub open spec fn clear(k: int, a: int, b: int) -> bool {
    k <= a || b <= k
}

pub proof fn lemma_swap_bytes(s: Seq<u8>, a: int, b: int, w: Seq<u8>)
    requires
        swaps(s, a, b, w),
    ensures
        swap(s, a, b, w).len() == moved(s.len() as int, a, b, w.len() as int),
        forall|k: int| 0 <= k < a ==> #[trigger] s[k] == swap(s, a, b, w)[k],
        forall|k: int|
            b <= k < s.len() ==> #[trigger] s[k] == swap(s, a, b, w)[k + (a + w.len() - b)],
        forall|k: int| 0 <= k < w.len() ==> #[trigger] w[k] == swap(s, a, b, w)[k + a],
        closes_at(swap(s, a, b, w), a, a + w.len()),
        swap(s, a, b, w)[a] == OPEN,
        s[a] == OPEN,
        a < b <= s.len(),
        w.len() > 0,
{
    let t = swap(s, a, b, w);
    assert forall|k: int| 0 <= k < w.len() implies #[trigger] w[k] == t[k + a] by {}
    lemma_block_moved(w, t, 0, w.len() as int, a);
}

/// Ranges with the same bytes, moved along.
pub proof fn lemma_same_range(s: Seq<u8>, t: Seq<u8>, x: int, y: int, d: int)
    requires
        0 <= x <= y <= s.len(),
        0 <= x + d,
        y + d <= t.len(),
        forall|k: int| x <= k < y ==> #[trigger] s[k] == t[k + d],
    ensures
        s.subrange(x, y) == t.subrange(x + d, y + d),
{
    let u = s.subrange(x, y);
    let v = t.subrange(x + d, y + d);
    assert forall|i: int| 0 <= i < u.len() implies #[trigger] u[i] == v[i] by {
        assert(s[x + i] == t[x + i + d]);
    }
    assert(u =~= v);
}

/// A scan that begins outside the exchanged block finds the same.
pub proof fn lemma_swap_lex(s: Seq<u8>, a: int, b: int, w: Seq<u8>, st: int, k: int)
    requires
        swaps(s, a, b, w),
        0 <= st <= k <= s.len(),
        clear(st, a, b),
        clear(k, a, b),
        st <= a < k ==> between(lex(s, st, a)),
    ensures
        lex(
            swap(s, a, b, w),
            moved(st, a, b, w.len() as int),
            moved(k, a, b, w.len() as int),
        ) == lex(s, st, k),
    decreases k,
{
    let t = swap(s, a, b, w);
    let n = w.len() as int;
    let d = a + n - b;
    lemma_swap_bytes(s, a, b, w);
    if k <= a {
        lemma_lex_same(s, t, st, k, 0);
    } else if st >= b {
        lemma_lex_same(s, t, st, k, d);
    } else {
        lemma_lex_same(s, t, st, a, 0);
        lemma_lex_over_block(s, st, a, b);
        lemma_lex_over_block(t, st, a, a + n);
        if k > b {
            lemma_swap_lex(s, a, b, w, st, k - 1);
            assert(s[k - 1] == t[k - 1 + d]);
            assert(lex(s, st, k) == lex_step(lex(s, st, k - 1), s[k - 1]));
            assert(lex(t, st, k + d) == lex_step(lex(t, st, k + d - 1), t[k + d - 1]));
        }
    }
}

/// A block that is open at `a` is between two expressions there, where the block
/// around it is.
pub proof fn lemma_between_inside(s: Seq<u8>, st: int, q: int, a: int, e: int)
    requires
        0 <= st <= q < a < e,
        closes_at(s, q, e),
        between(lex(s, st, q)),
        between(lex(s, st, a)),
    ensures
        between(lex(s, q, a)),
{
    assert forall|k: int| q < k < a implies (#[trigger] lex(s, q, k)).depth > 0 by {}
    lemma_lex_shift(s, st, q, a);
}

/// Another block closes where it did: before the exchanged one, behind it, or
/// around it.
pub proof fn lemma_swap_closes(s: Seq<u8>, a: int, b: int, w: Seq<u8>, q: int, e: int)
    requires
        swaps(s, a, b, w),
        closes_at(s, q, e),
        q < a || b <= q,
        q < a < e ==> between(lex(s, q, a)),
    ensures
        clear(e, a, b),
        e != b,
        q < a < e ==> b < e,
        closes_at(
            swap(s, a, b, w),
            moved(q, a, b, w.len() as int),
            moved(e, a, b, w.len() as int),
        ),
{
    let t = swap(s, a, b, w);
    let n = w.len() as int;
    let d = a + n - b;
    lemma_swap_bytes(s, a, b, w);
    if q >= b {
        lemma_block_moved(s, t, q, e, d);
    } else if e <= a {
        lemma_block_moved(s, t, q, e, 0);
    } else {
        lemma_lex_over_block(s, q, a, b);
        assert(lex(s, q, a).depth > 0);
        if e <= b {
            if e < b {
                assert(lex(s, q, e).depth > lex(s, q, a).depth);
            }
            assert(false);
        }
        lemma_swap_lex(s, a, b, w, q, e);
        lemma_swap_lex(s, a, b, w, q, a);
        lemma_lex_over_block(t, q, a, a + n);
        assert forall|k: int| q < k < e + d implies (#[trigger] lex(t, q, k)).depth > 0 by {
            if k <= a {
                lemma_swap_lex(s, a, b, w, q, k);
                assert(lex(s, q, k).depth > 0);
            } else if k < a + n {
                assert(lex(t, q, k).depth > lex(t, q, a).depth);
            } else {
                lemma_swap_lex(s, a, b, w, q, k - d);
                assert(lex(s, q, k - d).depth > 0);
            }
        }
        assert(t[q] == s[q]);
    }
}

/// Ranges after an exchange.
pub open spec fn moved_all(v: Seq<(int, int)>, a: int, b: int, n: int) -> Seq<(int, int)> {
    Seq::new(v.len(), |i: int| (moved(v[i].0, a, b, n), moved(v[i].1, a, b, n)))
}

/// The children of a block around the exchanged one are the same, moved along.
#[verifier::rlimit(40)]
pub proof fn lemma_swap_children(
    s: Seq<u8>,
    a: int,
    b: int,
    w: Seq<u8>,
    st: int,
    pos: int,
    e: int,
)
    requires
        swaps(s, a, b, w),
        closes_at(s, st, e),
        st < a < e,
        between(lex(s, st, a)),
        st < pos <= e,
        clear(pos, a, b),
        pos < e ==> lex(s, st, pos).depth == 1,
    ensures
        children_from(
            swap(s, a, b, w),
            st,
            moved(pos, a, b, w.len() as int),
            moved(e, a, b, w.len() as int),
        ) == moved_all(children_from(s, st, pos, e), a, b, w.len() as int),
    decreases e - pos,
{
    let t = swap(s, a, b, w);
    let n = w.len() as int;
    let d = a + n - b;
    let mp = moved(pos, a, b, n);
    let me = moved(e, a, b, n);
    lemma_swap_bytes(s, a, b, w);
    lemma_swap_closes(s, a, b, w, st, e);
    let kids = children_from(s, st, pos, e);
    if pos >= e {
        assert(children_from(t, st, mp, me) =~= moved_all(kids, a, b, n));
    } else {
        let l = lex(s, st, pos);
        lemma_depth_bound(s, st, pos);
        lemma_swap_lex(s, a, b, w, st, pos);
        assert(t[mp] == s[pos]) by {
            if pos > a {
                assert(s[pos] == t[pos + d]);
            }
        }
        if s[pos] == OPEN && !l.in_string {
            lemma_inner_closes(s, st, e, pos);
            let f = block_end(s, pos).unwrap();
            lemma_lex_over_block(s, st, pos, f);
            let mf = moved(f, a, b, n);
            if pos == a {
                lemma_block_end(s, a, b);
                assert(f == b);
                assert(closes_at(t, mp, mf));
            } else {
                if pos < a < f {
                    lemma_between_inside(s, st, pos, a, f);
                }
                lemma_swap_closes(s, a, b, w, pos, f);
            }
            lemma_block_end(t, mp, mf);
            lemma_swap_children(s, a, b, w, st, f, e);
            let rest = children_from(s, st, f, e);
            assert(kids == seq![(pos, f)] + rest);
            assert(children_from(t, st, mp, me) =~= seq![(mp, mf)] + children_from(t, st, mf, me));
            assert(moved_all(kids, a, b, n) =~= seq![(mp, mf)] + moved_all(rest, a, b, n));
        } else {
            assert(lex(s, st, pos + 1) == lex_step(l, s[pos]));
            if pos + 1 < e {
                assert(lex(s, st, pos + 1).depth > 0);
            }
            assert(pos != a) by {
                if pos == a {
                    assert(s[a] == OPEN);
                }
            }
            lemma_swap_children(s, a, b, w, st, pos + 1, e);
        }
    }
}

// ─── Tags ────────────────────────────────────────────────────────────────────

/// The exchanged text is text.
pub proof fn lemma_swap_text(c: Seq<char>, a: int, b: int, w: Seq<char>)
    requires
        swaps(bytes(c), a, b, bytes(w)),
    ensures
        bytes(text_of(swap(bytes(c), a, b, bytes(w)))) == swap(bytes(c), a, b, bytes(w)),
{
    let s = bytes(c);
    crate::scan::lemma_block_cuttable(c, a, b);
    lemma_ends(c);
    lemma_between_cuts(c, 0, a);
    lemma_between_cuts(c, b, s.len() as int);
    lemma_bytes_valid(w);
    let u = s.subrange(0, a);
    let v = s.subrange(b, s.len() as int);
    valid_utf8_concat(u, bytes(w));
    valid_utf8_concat(u + bytes(w), v);
    assert(swap(s, a, b, bytes(w)) =~= u + bytes(w) + v);
    decode_utf8_encode_utf8(swap(s, a, b, bytes(w)));
}

/// The tags of other blocks stay.
pub proof fn lemma_swap_tag(c: Seq<char>, a: int, b: int, w: Seq<char>, q: int, tag: Seq<char>)
    requires
        swaps(bytes(c), a, b, bytes(w)),
        0 <= q < bytes(c).len(),
        q < a || b <= q,
        bytes(c)[q] == OPEN,
        is_tag(tag),
    ensures
        tag_opens(bytes(c), q, bytes(tag)) == tag_opens(
            swap(bytes(c), a, b, bytes(w)),
            moved(q, a, b, bytes(w).len() as int),
            bytes(tag),
        ),
{
    let s = bytes(c);
    let t = swap(s, a, b, bytes(w));
    let n = bytes(w).len() as int;
    let d = a + n - b;
    let g = bytes(tag);
    lemma_swap_bytes(s, a, b, bytes(w));
    lemma_swap_text(c, a, b, w);
    let dc = text_of(t);
    if q < a {
        lemma_tag_ends(c, a);
        lemma_tag_ends(dc, a);
        lemma_tag_same(c, dc, q, a, tag);
        lemma_tag_same(dc, c, q, a, tag);
    } else {
        assert(t[q + d] == s[q]);
        lemma_ascii_boundary(c, q);
        lemma_ascii_boundary(dc, q + d);
        let after = q + 1 + g.len();
        if after <= s.len() {
            lemma_same_range(s, t, q + 1, after, d);
            lemma_same_range(s, t, after, s.len() as int, d);
        }
    }
}

pub proof fn lemma_tag_end_before(s: Seq<u8>, t: Seq<u8>, i: int, p: int)
    requires
        0 <= i <= p,
        p < s.len(),
        p < t.len(),
        forall|k: int| i <= k < p ==> #[trigger] s[k] == t[k],
        !tag_byte(s[p]),
        !tag_byte(t[p]),
    ensures
        tag_end(s, i) == tag_end(t, i),
        i <= tag_end(s, i) <= p,
    decreases p - i,
{
    if i < p {
        assert(s[i] == t[i]);
        if tag_byte(s[i]) {
            lemma_tag_end_before(s, t, i + 1, p);
        }
    }
}

proof fn lemma_tag_end_after(s: Seq<u8>, t: Seq<u8>, i: int, d: int)
    requires
        0 <= i <= s.len(),
        0 <= i + d,
        s.len() + d == t.len(),
        forall|k: int| i <= k < s.len() ==> #[trigger] s[k] == t[k + d],
    ensures
        tag_end(s, i) + d == tag_end(t, i + d),
        i <= tag_end(s, i) <= s.len(),
    decreases s.len() - i,
{
    if i < s.len() {
        assert(s[i] == t[i + d]);
        if tag_byte(s[i]) {
            lemma_tag_end_after(s, t, i + 1, d);
        }
    }
}

// ─── Top-level items ─────────────────────────────────────────────────────────

/// Positions after an exchange.
pub open spec fn moved_starts(v: Seq<int>, a: int, b: int, n: int) -> Seq<int> {
    Seq::new(v.len(), |i: int| moved(v[i], a, b, n))
}

/// Exchanging a block inside a top-level item leaves the top-level items where they
/// are, moved along.
#[verifier::rlimit(40)]
pub proof fn lemma_swap_starts(
    c: Seq<char>,
    a: int,
    b: int,
    w: Seq<char>,
    tag: Seq<char>,
    n: int,
)
    requires
        swaps(bytes(c), a, b, bytes(w)),
        is_tag(tag),
        between(lex(bytes(c), 0, a)),
        lex(bytes(c), 0, a).depth > 1,
        0 <= n <= bytes(c).len(),
        clear(n, a, b),
    ensures
        top_level_starts(
            swap(bytes(c), a, b, bytes(w)),
            bytes(tag),
            moved(n, a, b, bytes(w).len() as int),
        ) == moved_starts(
            top_level_starts(bytes(c), bytes(tag), n),
            a,
            b,
            bytes(w).len() as int,
        ),
        forall|i: int|
            0 <= i < top_level_starts(bytes(c), bytes(tag), n).len() ==> {
                let q = #[trigger] top_level_starts(bytes(c), bytes(tag), n)[i];
                0 <= q < n && (q < a || b <= q)
            },
    decreases n,
{
    let s = bytes(c);
    let wb = bytes(w);
    let t = swap(s, a, b, wb);
    let m = wb.len() as int;
    let d = a + m - b;
    let g = bytes(tag);
    lemma_swap_bytes(s, a, b, wb);
    if n <= 0 {
        assert(top_level_starts(t, g, n) =~= moved_starts(top_level_starts(s, g, n), a, b, m));
    } else if n == b {
        lemma_swap_starts(c, a, b, w, tag, a);
        lemma_lex_over_block(s, 0, a, b);
        lemma_swap_lex(s, a, b, wb, 0, a);
        lemma_lex_over_block(t, 0, a, a + m);
        assert forall|q: int| a <= q < b implies !#[trigger] starts_item(s, g, q) by {
            if q > a {
                assert(lex(s, 0, q).depth > lex(s, 0, a).depth);
            }
        }
        assert forall|q: int| a <= q < a + m implies !#[trigger] starts_item(t, g, q) by {
            if q > a {
                assert(lex(t, 0, q).depth > lex(t, 0, a).depth);
            }
        }
        crate::placing::lemma_no_starts(s, g, a, b);
        crate::placing::lemma_no_starts(t, g, a, a + m);
    } else {
        lemma_swap_starts(c, a, b, w, tag, n - 1);
        let q = n - 1;
        let mq = moved(q, a, b, m);
        lemma_swap_lex(s, a, b, wb, 0, q);
        assert(t[mq] == s[q]) by {
            if q >= b {
                assert(s[q] == t[q + d]);
            }
        }
        if s[q] == OPEN {
            lemma_swap_tag(c, a, b, w, q, tag);
        }
        assert(starts_item(s, g, q) == starts_item(t, g, mq));
        let before = top_level_starts(s, g, n - 1);
        assert(moved(n, a, b, m) == mq + 1);
        assert(moved_starts(before.push(q), a, b, m) =~= moved_starts(before, a, b, m).push(mq));
        let all = top_level_starts(s, g, n);
        assert forall|i: int| 0 <= i < all.len() implies ({
            let x = #[trigger] all[i];
            0 <= x < n && (x < a || b <= x)
        }) by {
            if i < before.len() {
                assert(all[i] == before[i]);
            }
        }
    }
}

} // verus!
