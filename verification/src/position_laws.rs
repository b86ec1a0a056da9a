//! The position of a placed symbol exchanged for another: where symbols stand and how
//! their positions read afterwards.

#[allow(unused_imports)]
use crate::chars::blank;
#[allow(unused_imports)]
use crate::field_laws::lemma_symbol_words;
#[allow(unused_imports)]
use crate::grammar::between;
#[allow(unused_imports)]
use crate::placing::{is_tag, lemma_root, lemma_skip_blank_is};
#[allow(unused_imports)]
use crate::scan::{
    block_end, block_starts, closes_at, enclosing_block, enclosing_from, is_document, law_block_starts,
    lemma_block_cuttable, lemma_block_end, lemma_block_end_is, lemma_depth_bound, lemma_enclosing_skip,
    lemma_lex_same, lex, lex_step, opens, outside, skip_blank, tag_opens, CLOSE, OPEN, QUOTE,
};
#[allow(unused_imports)]
use crate::schematic::{instance_from, is_placed, reference_text};
#[allow(unused_imports)]
use crate::substitution::{
    lemma_between_inside, lemma_swap_bytes, lemma_swap_closes, lemma_swap_lex, lemma_swap_tag,
    lemma_swap_text, moved, swap, swaps,
};
#[allow(unused_imports)]
use crate::text::{
    bytes, first_match, lemma_between_cuts, lemma_bytes_ascii, lemma_bytes_concat, lemma_first_match,
    lemma_first_match_is, matches_at, text_of,
};
use vstd::prelude::*;
use vstd::string::*;

verus! {

// ─── A position ──────────────────────────────────────────────────────────────

/// `(at …)` with no string and no other block in it, in `a..b`, outside every string.
pub open spec fn at_block(s: Seq<u8>, a: int, b: int) -> bool {
    &&& matches_at(s, a, bytes("(at "@))
    &&& a + 4 < b <= s.len()
    &&& s[b - 1] == CLOSE
    &&& between(lex(s, 0, a))
    &&& forall|k: int| a < k < b - 1 ==> #[trigger] s[k] != OPEN && s[k] != CLOSE && s[k] != QUOTE
}

/// A position in a text is exchanged for another position.
pub open spec fn exchanges(c: Seq<char>, a: int, b: int, w: Seq<char>) -> bool {
    at_block(bytes(c), a, b) && at_block(bytes(w), 0, bytes(w).len() as int)
}

pub proof fn lemma_at_bytes(s: Seq<u8>, a: int)
    requires
        matches_at(s, a, bytes("(at "@)),
    ensures
        bytes("(at "@).len() == 4,
        s[a] == OPEN,
        s[a + 1] == 97,
        s[a + 2] == 116,
        s[a + 3] == 32,
        bytes("(at "@)[0] == OPEN,
        bytes("(at "@)[1] == 97,
        bytes("(at "@)[2] == 116,
        bytes("(at "@)[3] == 32,
{
    reveal_strlit("(at ");
    lemma_bytes_ascii("(at "@);
    let p = bytes("(at "@);
    let v = s.subrange(a, a + 4);
    assert(v[0] == p[0] && v[1] == p[1] && v[2] == p[2] && v[3] == p[3]);
}

proof fn lemma_at_scan(s: Seq<u8>, a: int, b: int, k: int)
    requires
        at_block(s, a, b),
        a < k < b,
    ensures
        lex(s, a, k).depth == 1,
        between(lex(s, a, k)),
    decreases k,
{
    lemma_at_bytes(s, a);
    assert(lex(s, a, a) == outside());
    assert(lex(s, a, k) == lex_step(lex(s, a, k - 1), s[k - 1]));
    if k > a + 1 {
        lemma_at_scan(s, a, b, k - 1);
    }
}

/// A position is a block.
pub proof fn lemma_at_closes(s: Seq<u8>, a: int, b: int)
    requires
        at_block(s, a, b),
    ensures
        closes_at(s, a, b),
{
    lemma_at_bytes(s, a);
    lemma_at_scan(s, a, b, b - 1);
    assert(lex(s, a, b) == lex_step(lex(s, a, b - 1), s[b - 1]));
    assert forall|k: int| a < k < b implies (#[trigger] lex(s, a, k)).depth > 0 by {
        lemma_at_scan(s, a, b, k);
    }
}

pub proof fn lemma_exchange(c: Seq<char>, a: int, b: int, w: Seq<char>)
    requires
        exchanges(c, a, b, w),
    ensures
        ({
            let s = bytes(c);
            let n = bytes(w).len() as int;
            let t = swap(s, a, b, bytes(w));
            let v = text_of(s.subrange(a, b));
            &&& swaps(s, a, b, bytes(w))
            &&& bytes(text_of(t)) == t
            &&& bytes(v) == s.subrange(a, b)
            &&& exchanges(text_of(t), a, a + n, v)
            &&& swap(t, a, a + n, bytes(v)) == s
        }),
{
    let s = bytes(c);
    let r = bytes(w);
    let n = r.len() as int;
    let t = swap(s, a, b, r);
    lemma_at_closes(s, a, b);
    lemma_at_closes(r, 0, n);
    lemma_swap_text(c, a, b, w);
    lemma_swap_bytes(s, a, b, r);
    lemma_block_cuttable(c, a, b);
    lemma_between_cuts(c, a, b);
    let o = s.subrange(a, b);
    assert(t.subrange(a, a + 4) =~= r.subrange(0, 4));
    lemma_at_bytes(r, 0);
    lemma_at_bytes(s, a);
    lemma_lex_same(s, t, 0, a, 0);
    assert forall|k: int| a < k < a + n - 1 implies #[trigger] t[k] != OPEN && t[k] != CLOSE && t[k]
        != QUOTE by {
        assert(t[k] == r[k - a]);
    }
    assert(t[a + n - 1] == r[n - 1]);
    assert(at_block(t, a, a + n));
    assert(o.subrange(0, 4) =~= s.subrange(a, a + 4));
    assert forall|k: int| 0 < k < o.len() - 1 implies #[trigger] o[k] != OPEN && o[k] != CLOSE && o[k]
        != QUOTE by {
        assert(o[k] == s[a + k]);
    }
    assert(lex(o, 0, 0) == outside());
    assert(at_block(o, 0, o.len() as int));
    assert(swap(t, a, a + n, o) =~= s);
}

// ─── Blocks around and beside it ─────────────────────────────────────────────

/// What a position opens, and how far that reaches, before and after.
proof fn lemma_opening(c: Seq<char>, a: int, b: int, w: Seq<char>, q: int, tag: Seq<char>)
    requires
        exchanges(c, a, b, w),
        0 <= q < bytes(c).len(),
        q < a || b <= q,
        is_tag(tag),
    ensures
        ({
            let s = bytes(c);
            let n = bytes(w).len() as int;
            let t = swap(s, a, b, bytes(w));
            let r = moved(q, a, b, n);
            &&& opens(s, q) == opens(t, r)
            &&& opens(s, q) ==> tag_opens(s, q, bytes(tag)) == tag_opens(t, r, bytes(tag))
            &&& opens(s, q) ==> match block_end(s, q) {
                Some(e) => block_end(t, r) == Some(moved(e, a, b, n)) && (e <= a || b < e),
                None => block_end(t, r).is_none(),
            }
        }),
{
    let s = bytes(c);
    let n = bytes(w).len() as int;
    let t = swap(s, a, b, bytes(w));
    let r = moved(q, a, b, n);
    lemma_exchange(c, a, b, w);
    lemma_swap_bytes(s, a, b, bytes(w));
    lemma_swap_lex(s, a, b, bytes(w), 0, q);
    if q < a {
        assert(s[q] == t[q]);
    } else {
        assert(s[q] == t[q + (a + n - b)]);
    }
    if opens(s, q) {
        lemma_swap_tag(c, a, b, w, q, tag);
        lemma_block_end_is(s, q);
        lemma_block_end_is(t, r);
        match block_end(s, q) {
            Some(e) => {
                lemma_closes_along(c, a, b, w, q, e);
            },
            None => {
                if let Some(f) = block_end(t, r) {
                    let v = text_of(s.subrange(a, b));
                    lemma_closes_along(text_of(t), a, a + n, v, r, f);
                }
            },
        }
    }
}

proof fn lemma_closes_along(c: Seq<char>, a: int, b: int, w: Seq<char>, q: int, e: int)
    requires
        exchanges(c, a, b, w),
        q < a || b <= q,
        opens(bytes(c), q),
        closes_at(bytes(c), q, e),
    ensures
        ({
            let n = bytes(w).len() as int;
            let t = swap(bytes(c), a, b, bytes(w));
            &&& closes_at(t, moved(q, a, b, n), moved(e, a, b, n))
            &&& block_end(t, moved(q, a, b, n)) == Some(moved(e, a, b, n))
            &&& e <= a || b < e
            &&& q < a < e ==> between(lex(bytes(c), q, a))
        }),
{
    let s = bytes(c);
    let n = bytes(w).len() as int;
    let t = swap(s, a, b, bytes(w));
    lemma_exchange(c, a, b, w);
    if q < a < e {
        lemma_depth_bound(s, 0, q);
        lemma_between_inside(s, 0, q, a, e);
    }
    lemma_swap_closes(s, a, b, bytes(w), q, e);
    lemma_block_end(t, moved(q, a, b, n), moved(e, a, b, n));
}

/// Nothing but the position itself opens where it stands.
proof fn lemma_only_at(s: Seq<u8>, a: int, b: int, tag: Seq<u8>)
    requires
        at_block(s, a, b),
        tag.len() > 0,
        tag[0] != 97,
    ensures
        forall|k: int| a - 1 < k <= b - 1 ==> !(#[trigger] opens(s, k) && tag_opens(s, k, tag)),
{
    lemma_at_bytes(s, a);
    assert forall|k: int| a - 1 < k <= b - 1 implies !(#[trigger] opens(s, k) && tag_opens(s, k, tag)) by {
        if k == a {
            if tag_opens(s, a, tag) {
                assert(s.subrange(a + 1, a + 1 + tag.len())[0] == s[a + 1]);
            }
        }
    }
}

/// A pair of positions after the exchange.
pub open spec fn moved_pair(r: Option<(int, int)>, a: int, b: int, n: int) -> Option<(int, int)> {
    match r {
        Some((x, y)) => Some((moved(x, a, b, n), moved(y, a, b, n))),
        None => None,
    }
}

/// The block around a position is the one it was.
proof fn lemma_enclosing_along(
    c: Seq<char>,
    a: int,
    b: int,
    w: Seq<char>,
    tag: Seq<char>,
    p: int,
    pos: int,
)
    requires
        exchanges(c, a, b, w),
        p < a || b - 1 <= p < bytes(c).len(),
        0 <= pos < bytes(c).len(),
        pos < a || b <= pos,
        is_tag(tag),
        bytes(tag)[0] != 97,
    ensures
        enclosing_from(
            swap(bytes(c), a, b, bytes(w)),
            bytes(tag),
            if p < a {
                p
            } else {
                p + (a + bytes(w).len() - b)
            },
            moved(pos, a, b, bytes(w).len() as int),
        ) == moved_pair(
            enclosing_from(bytes(c), bytes(tag), p, pos),
            a,
            b,
            bytes(w).len() as int,
        ),
        enclosing_from(bytes(c), bytes(tag), p, pos) matches Some((x, y)) ==> {
            &&& opens(bytes(c), x)
            &&& closes_at(bytes(c), x, y)
            &&& x < a || b <= x
            &&& y <= a || b < y
            &&& x <= p
            &&& pos < y
        },
    decreases p + 1,
{
    let s = bytes(c);
    let g = bytes(tag);
    let n = bytes(w).len() as int;
    let t = swap(s, a, b, bytes(w));
    let q = moved(pos, a, b, n);
    if p < 0 {
    } else if p == b - 1 {
        lemma_exchange(c, a, b, w);
        lemma_bytes_ascii(tag);
        lemma_only_at(s, a, b, g);
        lemma_only_at(t, a, a + n, g);
        lemma_enclosing_skip(s, g, b - 1, a - 1, pos);
        lemma_enclosing_skip(t, g, a + n - 1, a - 1, q);
        lemma_enclosing_along(c, a, b, w, tag, a - 1, pos);
    } else {
        lemma_opening(c, a, b, w, p, tag);
        lemma_block_end_is(s, p);
        lemma_enclosing_along(c, a, b, w, tag, p - 1, pos);
    }
}

// ─── Placed symbols ──────────────────────────────────────────────────────────

proof fn lemma_symbol_tags()
    ensures
        is_tag("symbol"@),
        is_tag("lib_id"@),
        bytes("symbol"@)[0] != 97,
        bytes("lib_id"@)[0] != 97,
        bytes("symbol"@).len() > 0,
        bytes("lib_id"@).len() > 0,
{
    lemma_symbol_words();
    reveal_strlit("symbol");
    reveal_strlit("lib_id");
    lemma_bytes_ascii("symbol"@);
    lemma_bytes_ascii("lib_id"@);
}

/// A block that has a `lib_id` still has it.
proof fn lemma_placed_in(c: Seq<char>, a: int, b: int, w: Seq<char>)
    requires
        exchanges(c, a, b, w),
        is_placed(bytes(c)),
    ensures
        is_placed(swap(bytes(c), a, b, bytes(w))),
{
    let s = bytes(c);
    let n = bytes(w).len() as int;
    let t = swap(s, a, b, bytes(w));
    let tag = bytes("lib_id"@);
    lemma_symbol_tags();
    law_block_starts(s, tag, s.len() as int);
    law_block_starts(t, tag, t.len() as int);
    let p = block_starts(s, tag, s.len() as int)[0];
    assert(block_starts(s, tag, s.len() as int).contains(p));
    lemma_only_at(s, a, b, tag);
    assert(p < a || b <= p);
    lemma_opening(c, a, b, w, p, "lib_id"@);
    lemma_exchange(c, a, b, w);
    lemma_swap_bytes(s, a, b, bytes(w));
    assert(block_starts(t, tag, t.len() as int).contains(moved(p, a, b, n)));
}

/// A position of a text is one of the block that it stands in.
proof fn lemma_at_cut(s: Seq<u8>, x: int, y: int, a: int, b: int)
    requires
        at_block(s, a, b),
        0 <= x <= a,
        b <= y <= s.len(),
        between(lex(s, x, a)),
    ensures
        at_block(s.subrange(x, y), a - x, b - x),
{
    let t = s.subrange(x, y);
    assert forall|i: int| 0 <= i < t.len() implies #[trigger] t[i] == s[i + x] by {}
    lemma_lex_same(t, s, 0, a - x, x);
    lemma_at_bytes(s, a);
    assert(t.subrange(a - x, a - x + 4) =~= s.subrange(a, a + 4));
}

/// A placed symbol stays one, and nothing else becomes one.
proof fn lemma_placed_along(c: Seq<char>, a: int, b: int, w: Seq<char>, x: int, y: int)
    requires
        exchanges(c, a, b, w),
        x < a || b <= x,
        opens(bytes(c), x),
        closes_at(bytes(c), x, y),
    ensures
        is_placed(bytes(c).subrange(x, y)) == is_placed(
            swap(bytes(c), a, b, bytes(w)).subrange(
                moved(x, a, b, bytes(w).len() as int),
                moved(y, a, b, bytes(w).len() as int),
            ),
        ),
{
    let s = bytes(c);
    let n = bytes(w).len() as int;
    let t = swap(s, a, b, bytes(w));
    let x2 = moved(x, a, b, n);
    let y2 = moved(y, a, b, n);
    lemma_closes_along(c, a, b, w, x, y);
    let v = s.subrange(x, y);
    let r = t.subrange(x2, y2);
    if y <= a || b <= x {
        assert(v =~= r);
    } else {
        if is_placed(v) {
            lemma_placed_around(c, a, b, w, x, y);
        }
        if is_placed(r) {
            lemma_exchange(c, a, b, w);
            assert(lex(s, x, a) == lex(t, x, a)) by {
                lemma_lex_same(s, t, x, a, 0);
            }
            let o = text_of(s.subrange(a, b));
            assert(moved(y2, a, a + n, b - a) == y);
            lemma_placed_around(text_of(t), a, a + n, o, x, y2);
        }
    }
}

/// A block around the position that is a placed symbol is one after the exchange.
proof fn lemma_placed_around(c: Seq<char>, a: int, b: int, w: Seq<char>, x: int, y: int)
    requires
        exchanges(c, a, b, w),
        x < a,
        b < y,
        closes_at(bytes(c), x, y),
        between(lex(bytes(c), x, a)),
        is_placed(bytes(c).subrange(x, y)),
    ensures
        is_placed(
            swap(bytes(c), a, b, bytes(w)).subrange(x, moved(y, a, b, bytes(w).len() as int)),
        ),
{
    lemma_cut_exchange(c, a, b, w, x, y);
    lemma_placed_in(text_of(bytes(c).subrange(x, y)), a - x, b - x, w);
}

/// The exchange as the block around it sees it.
proof fn lemma_cut_exchange(c: Seq<char>, a: int, b: int, w: Seq<char>, x: int, y: int)
    requires
        exchanges(c, a, b, w),
        x < a,
        b < y,
        closes_at(bytes(c), x, y),
        between(lex(bytes(c), x, a)),
    ensures
        ({
            let s = bytes(c);
            let v = s.subrange(x, y);
            &&& bytes(text_of(v)) == v
            &&& exchanges(text_of(v), a - x, b - x, w)
            &&& swap(v, a - x, b - x, bytes(w)) == swap(s, a, b, bytes(w)).subrange(
                x,
                moved(y, a, b, bytes(w).len() as int),
            )
        }),
{
    let s = bytes(c);
    let v = s.subrange(x, y);
    lemma_at_cut(s, x, y, a, b);
    lemma_block_cuttable(c, x, y);
    lemma_between_cuts(c, x, y);
    assert(swap(v, a - x, b - x, bytes(w)) =~= swap(s, a, b, bytes(w)).subrange(
        x,
        moved(y, a, b, bytes(w).len() as int),
    ));
}

// ─── Finding a symbol by its designator ──────────────────────────────────────

/// A designator without an opening parenthesis.
pub open spec fn is_name(reference: Seq<char>) -> bool {
    forall|k: int| 0 <= k < bytes(reference).len() ==> #[trigger] bytes(reference)[k] != OPEN
}

proof fn lemma_name_bytes(reference: Seq<char>)
    requires
        is_name(reference),
    ensures
        ({
            let pat = bytes(reference_text(reference));
            &&& pat.len() > 2
            &&& pat[0] == OPEN
            &&& pat[1] != 97
            &&& forall|k: int| 0 < k < pat.len() ==> #[trigger] pat[k] != OPEN
        }),
{
    reveal_strlit("(property \"Reference\" \"");
    reveal_strlit("\"");
    let h = "(property \"Reference\" \""@;
    lemma_bytes_concat(h + reference, "\""@);
    lemma_bytes_concat(h, reference);
    lemma_bytes_ascii(h);
    lemma_bytes_ascii("\""@);
    let pat = bytes(reference_text(reference));
    let b = bytes(h);
    assert(b.len() == 23);
    assert(pat =~= b + bytes(reference) + bytes("\""@));
    assert forall|k: int| 0 < k < pat.len() implies #[trigger] pat[k] != OPEN by {
        if k < 23 {
            assert(pat[k] == b[k]);
            assert(b[k] == h[k] as u8);
            assert(h[k] != '(');
        } else if k < 23 + bytes(reference).len() {
            assert(pat[k] == bytes(reference)[k - 23]);
        } else {
            assert(pat[k] == bytes("\""@)[k - 23 - bytes(reference).len()]);
        }
    }
    assert(b[0] == h[0] as u8);
    assert(b[1] == h[1] as u8);
}

/// A text that opens once, and not a position, stands where it stood.
proof fn lemma_text_along(c: Seq<char>, a: int, b: int, w: Seq<char>, pat: Seq<u8>, j: int)
    requires
        exchanges(c, a, b, w),
        pat.len() > 1,
        pat[0] == OPEN,
        pat[1] != 97,
        forall|k: int| 0 < k < pat.len() ==> #[trigger] pat[k] != OPEN,
        matches_at(bytes(c), j, pat),
    ensures
        j + pat.len() <= a || b <= j,
        matches_at(swap(bytes(c), a, b, bytes(w)), moved(j, a, b, bytes(w).len() as int), pat),
{
    let s = bytes(c);
    let n = bytes(w).len() as int;
    let t = swap(s, a, b, bytes(w));
    let m = pat.len() as int;
    lemma_at_bytes(s, a);
    let v = s.subrange(j, j + m);
    if a < j < b {
        assert(v[0] == s[j]);
    }
    if j <= a < j + m {
        assert(v[a - j] == s[a]);
        assert(j == a);
        assert(v[1] == s[a + 1]);
    }
    if j < a {
        assert(t.subrange(j, j + m) =~= v);
    } else {
        let d = a + n - b;
        assert(t.subrange(j + d, j + d + m) =~= v);
    }
}

/// The first of such texts is the one it was.
proof fn lemma_first_along(c: Seq<char>, a: int, b: int, w: Seq<char>, pat: Seq<u8>, i: int)
    requires
        exchanges(c, a, b, w),
        pat.len() > 1,
        pat[0] == OPEN,
        pat[1] != 97,
        forall|k: int| 0 < k < pat.len() ==> #[trigger] pat[k] != OPEN,
        0 <= i <= a || b <= i,
    ensures
        first_match(swap(bytes(c), a, b, bytes(w)), pat, moved(i, a, b, bytes(w).len() as int))
            == match first_match(bytes(c), pat, i) {
            Some(p) => Some(moved(p, a, b, bytes(w).len() as int)),
            None => None,
        },
{
    let s = bytes(c);
    let n = bytes(w).len() as int;
    let t = swap(s, a, b, bytes(w));
    let i2 = moved(i, a, b, n);
    lemma_exchange(c, a, b, w);
    let v = text_of(s.subrange(a, b));
    lemma_at_bytes(s, a);
    lemma_first_match(s, pat, i);
    lemma_first_match(t, pat, i2);
    match first_match(s, pat, i) {
        Some(p) => {
            lemma_text_along(c, a, b, w, pat, p);
            let p2 = moved(p, a, b, n);
            assert forall|j: int| i2 <= j < p2 implies !#[trigger] matches_at(t, j, pat) by {
                if matches_at(t, j, pat) {
                    lemma_text_along(text_of(t), a, a + n, v, pat, j);
                    let k = moved(j, a, a + n, b - a);
                    assert(matches_at(s, k, pat));
                    assert(i <= k < p);
                }
            }
            lemma_first_match_is(t, pat, i2, p2);
        },
        None => {
            if let Some(j) = first_match(t, pat, i2) {
                lemma_text_along(text_of(t), a, a + n, v, pat, j);
                let k = moved(j, a, a + n, b - a);
                assert(matches_at(s, k, pat));
                assert(i <= k);
            }
        },
    }
}

/// The symbol with the designator is the one it was.
#[verifier::rlimit(40)]
pub proof fn lemma_instance_along(
    c: Seq<char>,
    a: int,
    b: int,
    w: Seq<char>,
    reference: Seq<char>,
    i: int,
)
    requires
        exchanges(c, a, b, w),
        is_name(reference),
        0 <= i <= a || b <= i <= bytes(c).len(),
    ensures
        instance_from(
            swap(bytes(c), a, b, bytes(w)),
            reference,
            moved(i, a, b, bytes(w).len() as int),
        ) == moved_pair(instance_from(bytes(c), reference, i), a, b, bytes(w).len() as int),
        instance_from(bytes(c), reference, i) matches Some((x, y)) ==> {
            &&& opens(bytes(c), x)
            &&& closes_at(bytes(c), x, y)
            &&& x < a || b <= x
            &&& y <= a || b < y
        },
    decreases bytes(c).len() - i,
{
    let s = bytes(c);
    let n = bytes(w).len() as int;
    let t = swap(s, a, b, bytes(w));
    let pat = bytes(reference_text(reference));
    let i2 = moved(i, a, b, n);
    lemma_name_bytes(reference);
    lemma_first_along(c, a, b, w, pat, i);
    lemma_first_match(s, pat, i);
    lemma_first_match(t, pat, i2);
    if let Some(p) = first_match(s, pat, i) {
        let p2 = moved(p, a, b, n);
        lemma_text_along(c, a, b, w, pat, p);
        lemma_symbol_tags();
        lemma_enclosing_along(c, a, b, w, "symbol"@, p, p);
        let next = p + pat.len();
        lemma_instance_along(c, a, b, w, reference, next);
        assert(moved(next, a, b, n) == p2 + pat.len());
        if let Some((x, y)) = enclosing_block(s, bytes("symbol"@), p) {
            lemma_placed_along(c, a, b, w, x, y);
        }
    }
}

// ─── The document ────────────────────────────────────────────────────────────

/// A document is one after the exchange.
pub proof fn lemma_document_along(c: Seq<char>, a: int, b: int, w: Seq<char>, tag: Seq<char>)
    requires
        exchanges(c, a, b, w),
        is_document(bytes(c), bytes(tag)),
        is_tag(tag),
        bytes(tag)[0] != 97,
    ensures
        is_document(swap(bytes(c), a, b, bytes(w)), bytes(tag)),
{
    let s = bytes(c);
    let n = bytes(w).len() as int;
    let t = swap(s, a, b, bytes(w));
    let root = skip_blank(s, 0);
    let e = block_end(s, root)->0;
    lemma_root(s, bytes(tag));
    lemma_at_bytes(s, a);
    lemma_bytes_ascii(tag);
    lemma_exchange(c, a, b, w);
    if a < root {
        assert(blank(s[a]));
    }
    lemma_only_at(s, a, b, bytes(tag));
    assert(opens(s, root));
    assert(root < a);
    lemma_opening(c, a, b, w, root, tag);
    assert(s[root] == t[root]);
    assert forall|k: int| 0 <= k < root implies blank(#[trigger] t[k]) by {
        assert(t[k] == s[k]);
        assert(blank(s[k]));
    }
    lemma_skip_blank_is(t, 0, root);
    let f = moved(e, a, b, n);
    assert(b < e) by {
        if e <= a {
            assert(blank(s[a]));
        }
    }
    assert forall|k: int| f <= k < t.len() implies blank(#[trigger] t[k]) by {
        assert(t[k] == s[k - (a + n - b)]);
        assert(blank(s[k - (a + n - b)]));
    }
    lemma_skip_blank_is(t, f, t.len() as int);
}

} // verus!
