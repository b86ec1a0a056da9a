//! What is read back of a placed symbol whose field was rewritten.

use crate::blocks::tag_byte;
use crate::grammar::{between, is_plain};
use crate::net_laws::lemma_plain_bytes;
use crate::placing::{is_tag, lemma_first_char, lemma_tag_chars};
use crate::scan::{
    block_end, block_starts, closes_at, enclosing_block, enclosing_from, law_block_starts,
    lemma_block_cuttable, lemma_block_end, lemma_block_end_is,
    lemma_block_moved, lemma_depth_bound, lemma_enclosing_skip, lemma_lex_same, lemma_lex_shift, lex,
    lex_step, opens, tag_opens, BACKSLASH, QUOTE,
};
use crate::sch_components::{field_place, lib_id_place, with_field};
use crate::schematic::{instance_from, is_placed, reference_text, symbol_instance};
use crate::sexp::{escaped, is_quotable, string_close, value_end};
use crate::substitution::lemma_same_range;
use crate::text::{
    boundary, bytes, first_match, lemma_ascii_boundary, lemma_between_cuts, lemma_bytes_ascii,
    lemma_bytes_concat, lemma_bytes_injective, lemma_bytes_valid, lemma_ends, lemma_first_match,
    lemma_first_match_is, lemma_match_boundary, matches_at, replaced, text_of,
};
use vstd::prelude::*;

verus! {

// ─── A string's content exchanged ────────────────────────────────────────────

/// A string stands at `a..b` for a scan from `st`: its quotes are just outside, and
/// the one behind it is the first that closes it.
pub open spec fn string_at(s: Seq<u8>, st: int, a: int, b: int) -> bool {
    &&& 0 <= st < a <= b < s.len()
    &&& s[a - 1] == QUOTE
    &&& s[b] == QUOTE
    &&& between(lex(s, st, a - 1))
    &&& forall|k: int| a <= k < b && #[trigger] s[k] == QUOTE ==> escaped(s, a, k)
    &&& !escaped(s, a, b)
}

/// Two texts that differ in the content of one string.
pub open spec fn differ_in(s: Seq<u8>, t: Seq<u8>, a: int, b: int, c: int) -> bool {
    &&& string_at(s, 0, a, b)
    &&& string_at(t, 0, a, c)
    &&& s.len() - b == t.len() - c
    &&& forall|k: int| 0 <= k < a ==> #[trigger] s[k] == t[k + 0]
    &&& forall|k: int| b <= k < s.len() ==> #[trigger] s[k] == t[k + (c - b)]
}

/// Where a position outside the string goes.
pub open spec fn along(k: int, a: int, b: int, c: int) -> int {
    if k <= a {
        k
    } else {
        k + (c - b)
    }
}

/// A position outside the string.
pub open spec fn out_of(k: int, a: int, b: int) -> bool {
    k < a || b < k
}

pub proof fn lemma_differ_back(s: Seq<u8>, t: Seq<u8>, a: int, b: int, c: int)
    requires
        differ_in(s, t, a, b, c),
    ensures
        differ_in(t, s, a, c, b),
{
    assert forall|k: int| 0 <= k < a implies #[trigger] t[k] == s[k + 0] by {
        assert(s[k] == t[k + 0]);
    }
    assert forall|k: int| c <= k < t.len() implies #[trigger] t[k] == s[k + (b - c)] by {
        assert(s[k + (b - c)] == t[k + (b - c) + (c - b)]);
    }
}

/// Inside a string the scan stays in it.
pub proof fn lemma_in_string(s: Seq<u8>, st: int, a: int, b: int, k: int)
    requires
        string_at(s, st, a, b),
        a <= k <= b,
    ensures
        lex(s, st, k).in_string,
        lex(s, st, k).depth == lex(s, st, a - 1).depth,
        lex(s, st, k).escape == escaped(s, a, k),
    decreases k,
{
    if k == a {
        assert(lex(s, st, a) == lex_step(lex(s, st, a - 1), s[a - 1]));
    } else {
        lemma_in_string(s, st, a, b, k - 1);
        assert(s[k - 1] == QUOTE ==> escaped(s, a, k - 1));
        assert(lex(s, st, k) == lex_step(lex(s, st, k - 1), s[k - 1]));
    }
}

/// A scan stays in a string as long as every quote is escaped.
pub proof fn lemma_stays_in_string(s: Seq<u8>, st: int, a: int, k: int)
    requires
        st <= a <= k,
        lex(s, st, a).in_string,
        !lex(s, st, a).escape,
        forall|i: int| a <= i < k && #[trigger] s[i] == QUOTE ==> escaped(s, a, i),
    ensures
        lex(s, st, k).in_string,
        lex(s, st, k).depth == lex(s, st, a).depth,
        lex(s, st, k).escape == escaped(s, a, k),
    decreases k - a,
{
    if a < k {
        lemma_stays_in_string(s, st, a, k - 1);
        assert(s[k - 1] == QUOTE ==> escaped(s, a, k - 1));
        assert(lex(s, st, k) == lex_step(lex(s, st, k - 1), s[k - 1]));
    }
}

/// Escapes depend only on the bytes of the string.
pub proof fn lemma_escaped_same(s: Seq<u8>, t: Seq<u8>, a: int, k: int, d: int)
    requires
        forall|i: int| a <= i < k ==> #[trigger] s[i] == t[i + d],
    ensures
        escaped(s, a, k) == escaped(t, a + d, k + d),
    decreases k - a,
{
    if k > a {
        lemma_escaped_same(s, t, a, k - 1, d);
        assert(s[k - 1] == t[k - 1 + d]);
    }
}

/// Without backslashes nothing is escaped.
pub proof fn lemma_escaped_plain(s: Seq<u8>, a: int, k: int)
    requires
        forall|i: int| a <= i < k ==> #[trigger] s[i] != QUOTE && s[i] != BACKSLASH,
    ensures
        !escaped(s, a, k),
{
    if k > a {
        assert(s[k - 1] != BACKSLASH);
    }
}

/// A string reads up to its closing quote.
pub proof fn lemma_value_end(s: Seq<u8>, a: int, b: int, i: int)
    requires
        a <= i <= b < s.len(),
        s[b] == QUOTE,
        forall|k: int| a <= k < b && #[trigger] s[k] == QUOTE ==> escaped(s, a, k),
        !escaped(s, a, b),
    ensures
        string_close(s, a, i, s.len() as int) == Some(b),
    decreases b - i,
{
    if i < b {
        assert(s[i] == QUOTE ==> escaped(s, a, i));
        lemma_value_end(s, a, b, i + 1);
    }
}

/// Where a string ends, every quote before is escaped.
pub proof fn lemma_value_is(s: Seq<u8>, a: int, i: int)
    requires
        0 <= a <= i,
    ensures
        string_close(s, a, i, s.len() as int) matches Some(b) ==> {
            &&& i <= b < s.len()
            &&& s[b] == QUOTE
            &&& !escaped(s, a, b)
            &&& forall|k: int| i <= k < b && #[trigger] s[k] == QUOTE ==> escaped(s, a, k)
        },
    decreases s.len() - i,
{
    if i < s.len() && !(s[i] == QUOTE && !escaped(s, a, i)) {
        lemma_value_is(s, a, i + 1);
    }
}

/// A scan finds the same outside the string.
proof fn lemma_along_lex(s: Seq<u8>, t: Seq<u8>, st: int, a: int, b: int, c: int, k: int)
    requires
        differ_in(s, t, a, b, c),
        string_at(s, st, a, b),
        string_at(t, st, a, c),
        st <= k <= a || b <= k <= s.len(),
    ensures
        k <= a ==> lex(t, st, k) == lex(s, st, k),
        b <= k ==> lex(t, st, k + (c - b)) == lex(s, st, k),
    decreases k,
{
    if k <= a {
        lemma_lex_same(s, t, st, k, 0);
    }
    if k >= b {
        lemma_in_string(s, st, a, b, b);
        lemma_in_string(t, st, a, c, c);
        lemma_lex_same(s, t, st, a - 1, 0);
        if k > b {
            lemma_along_lex(s, t, st, a, b, c, k - 1);
            assert(s[k - 1] == t[k - 1 + (c - b)]);
            assert(lex(s, st, k) == lex_step(lex(s, st, k - 1), s[k - 1]));
            assert(lex(t, st, k + (c - b)) == lex_step(lex(t, st, k - 1 + (c - b)), t[k - 1 + (c - b)]));
        }
    }
}

/// Nothing opens in the string, and a block that opens before it and closes behind it
/// sees the string too.
pub proof fn lemma_string_in_block(s: Seq<u8>, a: int, b: int, q: int, e: int)
    requires
        string_at(s, 0, a, b),
        opens(s, q),
        closes_at(s, q, e),
    ensures
        out_of(q, a, b),
        q != a - 1,
        e < a || b + 1 < e,
        q < a && b < e ==> string_at(s, q, a, b),
{
    if a <= q <= b {
        lemma_in_string(s, 0, a, b, q);
    }
    lemma_depth_bound(s, 0, q);
    lemma_block_end(s, q, e);
    lemma_block_end_is(s, q);
    // The close is outside every string.
    lemma_lex_shift(s, 0, q, e - 1);
    assert(lex(s, q, e) == lex_step(lex(s, q, e - 1), s[e - 1]));
    assert(lex(s, q, e - 1).depth > 0);
    if a <= e - 1 <= b {
        lemma_in_string(s, 0, a, b, e - 1);
        assert(false);
    }
    if q < a && b < e {
        assert forall|k: int| q < k < a - 1 implies (#[trigger] lex(s, q, k)).depth > 0 by {}
        lemma_lex_shift(s, 0, q, a - 1);
        assert forall|k: int| q < k < b implies (#[trigger] lex(s, q, k)).depth > 0 by {}
        lemma_lex_shift(s, 0, q, b);
    }
}

/// A block closes where it did.
proof fn lemma_along_closes(s: Seq<u8>, t: Seq<u8>, a: int, b: int, c: int, q: int, e: int)
    requires
        differ_in(s, t, a, b, c),
        opens(s, q),
        closes_at(s, q, e),
    ensures
        closes_at(t, along(q, a, b, c), along(e, a, b, c)),
        block_end(t, along(q, a, b, c)) == Some(along(e, a, b, c)),
        opens(t, along(q, a, b, c)),
{
    lemma_string_in_block(s, a, b, q, e);
    lemma_along_lex(s, t, 0, a, b, c, q);
    if e < a {
        lemma_block_moved(s, t, q, e, 0);
    } else if b < q {
        lemma_block_moved(s, t, q, e, c - b);
    } else {
        lemma_same_string(s, t, q, a, b, c);
        let f = e + (c - b);
        lemma_along_lex(s, t, q, a, b, c, e);
        assert forall|k: int| q < k < f implies (#[trigger] lex(t, q, k)).depth > 0 by {
            if k <= a {
                lemma_along_lex(s, t, q, a, b, c, k);
                assert(lex(s, q, k).depth > 0);
            } else if k <= c {
                lemma_in_string(t, q, a, c, k);
                lemma_along_lex(s, t, q, a, b, c, a - 1);
                assert(lex(s, q, a - 1).depth > 0);
            } else {
                lemma_along_lex(s, t, q, a, b, c, k - (c - b));
                assert(lex(s, q, k - (c - b)).depth > 0);
            }
        }
        assert(s[q] == t[q + 0]);
        lemma_block_end(t, q, f);
    }
}

/// The string is one for a scan from the same place in the other text.
proof fn lemma_same_string(s: Seq<u8>, t: Seq<u8>, q: int, a: int, b: int, c: int)
    requires
        differ_in(s, t, a, b, c),
        opens(s, q),
        q < a - 1,
        string_at(s, q, a, b),
        forall|k: int| q < k <= a - 1 ==> (#[trigger] lex(s, q, k)).depth > 0,
    ensures
        string_at(t, q, a, c),
{
    lemma_lex_same(s, t, q, a - 1, 0);
}

// ─── Enclosing blocks ────────────────────────────────────────────────────────

/// Texts that agree up to a cut behind a quote agree on the tags before it.
proof fn lemma_tag_before(u: Seq<char>, w: Seq<char>, q: int, p: int, tag: Seq<char>)
    requires
        0 <= q < p - 1,
        p <= bytes(u).len(),
        p <= bytes(w).len(),
        bytes(u)[p - 1] == QUOTE,
        forall|k: int| 0 <= k < p ==> #[trigger] bytes(u)[k] == bytes(w)[k + 0],
        bytes(u)[q] < 128,
        is_tag(tag),
    ensures
        tag_opens(bytes(u), q, bytes(tag)) ==> tag_opens(bytes(w), q, bytes(tag)),
{
    let s = bytes(u);
    let t = bytes(w);
    let g = bytes(tag);
    if tag_opens(s, q, g) {
        lemma_bytes_ascii(tag);
        let after = q + 1 + g.len();
        assert(s[q] == t[q + 0]);
        assert(s[p - 1] == t[p - 1 + 0]);
        lemma_ascii_boundary(w, q);
        lemma_ascii_boundary(u, p - 1);
        lemma_ascii_boundary(w, p - 1);
        assert forall|k: int| q + 1 <= k < after implies #[trigger] s[k] == g[k - q - 1] by {
            assert(s.subrange(q + 1, after)[k - q - 1] == s[k]);
        }
        if after > p - 1 {
            assert(s[p - 1] == g[p - 1 - q - 1]);
            assert(tag_byte(g[p - 1 - q - 1]));
        }
        assert forall|k: int| q + 1 <= k < after implies #[trigger] t[k] == g[k - q - 1] by {
            assert(s[k] == t[k + 0]);
        }
        assert(t.subrange(q + 1, after) =~= g);
        lemma_match_boundary(u, q + 1, tag);
        lemma_match_boundary(w, q + 1, tag);
        lemma_first_char(u, after, p);
        lemma_first_char(w, after, p);
        assert(s.subrange(after, p) =~= t.subrange(after, p)) by {
            assert forall|k: int| after <= k < p implies #[trigger] s[k] == t[k] by {
                assert(s[k] == t[k + 0]);
            }
        }
    }
}

/// A block has the tag it had.
proof fn lemma_along_tag(u: Seq<char>, w: Seq<char>, a: int, b: int, c: int, q: int, tag: Seq<char>)
    requires
        differ_in(bytes(u), bytes(w), a, b, c),
        opens(bytes(u), q),
        is_tag(tag),
    ensures
        out_of(q, a, b),
        q != a - 1,
        tag_opens(bytes(u), q, bytes(tag)) == tag_opens(
            bytes(w),
            along(q, a, b, c),
            bytes(tag),
        ),
{
    let s = bytes(u);
    let t = bytes(w);
    let d = c - b;
    let g = bytes(tag);
    if a <= q <= b {
        lemma_in_string(s, 0, a, b, q);
    }
    if q < a {
        lemma_tag_before(u, w, q, a, tag);
        lemma_differ_back(s, t, a, b, c);
        assert(s[q] == t[q + 0]);
        assert(s[a - 1] == t[a - 1 + 0]);
        lemma_tag_before(w, u, q, a, tag);
    } else {
        assert(s[q] == t[q + d]);
        lemma_ascii_boundary(u, q);
        lemma_ascii_boundary(w, q + d);
        let after = q + 1 + g.len();
        if after <= s.len() {
            lemma_same_range(s, t, q + 1, after, d);
            lemma_same_range(s, t, after, s.len() as int, d);
        }
    }
}

/// What a position opens, and how far that reaches, before and after.
proof fn lemma_along_opening(u: Seq<char>, w: Seq<char>, a: int, b: int, c: int, q: int, tag: Seq<char>)
    requires
        differ_in(bytes(u), bytes(w), a, b, c),
        out_of(q, a, b),
        0 <= q < bytes(u).len(),
        is_tag(tag),
    ensures
        ({
            let s = bytes(u);
            let t = bytes(w);
            let r = along(q, a, b, c);
            &&& opens(s, q) == opens(t, r)
            &&& opens(s, q) ==> tag_opens(s, q, bytes(tag)) == tag_opens(t, r, bytes(tag))
            &&& opens(s, q) ==> match block_end(s, q) {
                Some(e) => block_end(t, r) == Some(along(e, a, b, c)) && (e < a || b < e),
                None => block_end(t, r).is_none(),
            }
        }),
{
    let s = bytes(u);
    let t = bytes(w);
    let r = along(q, a, b, c);
    lemma_along_lex(s, t, 0, a, b, c, q);
    if q < a {
        assert(s[q] == t[q + 0]);
    } else {
        assert(s[q] == t[q + (c - b)]);
    }
    if opens(s, q) {
        lemma_along_tag(u, w, a, b, c, q, tag);
        lemma_block_end_is(s, q);
        lemma_block_end_is(t, r);
        match block_end(s, q) {
            Some(e) => {
                lemma_string_in_block(s, a, b, q, e);
                lemma_along_closes(s, t, a, b, c, q, e);
            },
            None => {
                if let Some(f) = block_end(t, r) {
                    lemma_differ_back(s, t, a, b, c);
                    lemma_along_closes(t, s, a, c, b, r, f);
                    assert(along(r, a, c, b) == q);
                }
            },
        }
    }
}

/// A pair of positions after the exchange.
pub open spec fn along_pair(r: Option<(int, int)>, a: int, b: int, c: int) -> Option<(int, int)> {
    match r {
        Some((x, y)) => Some((along(x, a, b, c), along(y, a, b, c))),
        None => None,
    }
}

/// The block around a position is the one it was.
pub proof fn lemma_along_enclosing(
    u: Seq<char>,
    w: Seq<char>,
    a: int,
    b: int,
    c: int,
    tag: Seq<char>,
    p: int,
    pos: int,
)
    requires
        differ_in(bytes(u), bytes(w), a, b, c),
        p < a || b <= p < bytes(u).len(),
        0 <= pos < bytes(u).len(),
        out_of(pos, a, b),
        is_tag(tag),
    ensures
        enclosing_from(bytes(w), bytes(tag), if p < a {
            p
        } else {
            p + (c - b)
        }, along(pos, a, b, c)) == along_pair(enclosing_from(bytes(u), bytes(tag), p, pos), a, b, c),
        enclosing_from(bytes(u), bytes(tag), p, pos) matches Some((x, y)) ==> {
            &&& opens(bytes(u), x)
            &&& closes_at(bytes(u), x, y)
        },
    decreases p + 1,
{
    let s = bytes(u);
    let t = bytes(w);
    let g = bytes(tag);
    let q = along(pos, a, b, c);
    if p < 0 {
    } else if p == b {
        assert forall|k: int| a - 1 < k <= b implies !(#[trigger] opens(s, k) && tag_opens(s, k, g)) by {
            lemma_in_string(s, 0, a, b, k);
        }
        assert forall|k: int| a - 1 < k <= c implies !(#[trigger] opens(t, k) && tag_opens(t, k, g)) by {
            lemma_in_string(t, 0, a, c, k);
        }
        lemma_enclosing_skip(s, g, b, a - 1, pos);
        lemma_enclosing_skip(t, g, c, a - 1, q);
        lemma_along_enclosing(u, w, a, b, c, tag, a - 1, pos);
    } else {
        lemma_along_opening(u, w, a, b, c, p, tag);
        lemma_block_end_is(s, p);
        lemma_along_enclosing(u, w, a, b, c, tag, p - 1, pos);
    }
}

// ─── Texts that are looked for ───────────────────────────────────────────────

/// A string of a text is one of the block that it stands in.
proof fn lemma_string_cut(s: Seq<u8>, x: int, y: int, a: int, b: int)
    requires
        string_at(s, x, a, b),
        b < y <= s.len(),
    ensures
        string_at(s.subrange(x, y), 0, a - x, b - x),
{
    let t = s.subrange(x, y);
    assert forall|i: int| 0 <= i < t.len() implies #[trigger] t[i] == s[i + x] by {}
    lemma_lex_same(t, s, 0, a - 1 - x, x);
    assert forall|k: int| a <= k <= b implies escaped(t, a - x, k - x) == #[trigger] escaped(s, a, k) by {
        assert forall|i: int| a - x <= i < k - x implies #[trigger] t[i] == s[i + x] by {}
        lemma_escaped_same(t, s, a - x, k - x, x);
    }
    assert(escaped(t, a - x, b - x) == escaped(s, a, b));
    assert forall|k: int| a - x <= k < b - x && #[trigger] t[k] == QUOTE implies escaped(t, a - x, k) by {
        assert(s[k + x] == QUOTE);
        assert(escaped(t, a - x, k + x - x) == escaped(s, a, k + x));
    }
}

/// In two texts that differ in one string, the same blocks open.
proof fn lemma_placed_in(u: Seq<char>, w: Seq<char>, a: int, b: int, c: int)
    requires
        differ_in(bytes(u), bytes(w), a, b, c),
        is_placed(bytes(u)),
    ensures
        is_placed(bytes(w)),
{
    let s = bytes(u);
    let t = bytes(w);
    let tag = bytes("lib_id"@);
    lemma_symbol_words();
    law_block_starts(s, tag, s.len() as int);
    law_block_starts(t, tag, t.len() as int);
    let p = block_starts(s, tag, s.len() as int)[0];
    assert(block_starts(s, tag, s.len() as int).contains(p));
    lemma_along_tag(u, w, a, b, c, p, "lib_id"@);
    lemma_along_opening(u, w, a, b, c, p, "lib_id"@);
    assert(block_starts(t, tag, t.len() as int).contains(along(p, a, b, c)));
}

/// A placed symbol stays one, and nothing else becomes one.
pub proof fn lemma_placed_along(u: Seq<char>, w: Seq<char>, a: int, b: int, c: int, x: int, y: int)
    requires
        differ_in(bytes(u), bytes(w), a, b, c),
        opens(bytes(u), x),
        closes_at(bytes(u), x, y),
    ensures
        is_placed(bytes(u).subrange(x, y)) == is_placed(
            bytes(w).subrange(along(x, a, b, c), along(y, a, b, c)),
        ),
{
    let s = bytes(u);
    let t = bytes(w);
    let d = c - b;
    let x2 = along(x, a, b, c);
    let y2 = along(y, a, b, c);
    lemma_string_in_block(s, a, b, x, y);
    lemma_along_closes(s, t, a, b, c, x, y);
    let v = s.subrange(x, y);
    let r = t.subrange(x2, y2);
    if y < a {
        assert forall|k: int| 0 <= k < v.len() implies v[k] == r[k] by {
            assert(s[x + k] == t[x + k + 0]);
        }
        assert(v =~= r);
    } else if b < x {
        assert forall|k: int| 0 <= k < v.len() implies v[k] == r[k] by {
            assert(s[x + k] == t[x + k + d]);
        }
        assert(v =~= r);
    } else {
        lemma_same_string(s, t, x, a, b, c);
        lemma_string_cut(s, x, y, a, b);
        lemma_string_cut(t, x, y2, a, c);
        assert forall|k: int| 0 <= k < a - x implies #[trigger] v[k] == r[k + 0] by {
            assert(s[x + k] == t[x + k + 0]);
        }
        assert forall|k: int| b - x <= k < v.len() implies #[trigger] v[k] == r[k + (c - x - (b - x))] by {
            assert(s[x + k] == t[x + k + d]);
        }
        assert(differ_in(v, r, a - x, b - x, c - x));
        lemma_differ_back(v, r, a - x, b - x, c - x);
        lemma_block_cuttable(u, x, y);
        lemma_block_cuttable(w, x2, y2);
        lemma_between_cuts(u, x, y);
        lemma_between_cuts(w, x2, y2);
        if is_placed(v) {
            lemma_placed_in(text_of(v), text_of(r), a - x, b - x, c - x);
        }
        if is_placed(r) {
            lemma_placed_in(text_of(r), text_of(v), a - x, c - x, b - x);
        }
    }
}

/// The head of a property before its value.
pub open spec fn property_head(field: Seq<char>) -> Seq<char> {
    "(property \""@ + field + "\" \""@
}

/// How the text that a designator stands in is made up.
pub proof fn lemma_reference_bytes(reference: Seq<char>)
    requires
        is_plain(reference),
    ensures
        ({
            let pat = bytes(reference_text(reference));
            let n = pat.len() as int;
            &&& n == 24 + bytes(reference).len()
            &&& pat.subrange(0, 10) == bytes("(property "@)
            &&& pat[0] == 40
            &&& pat[8] == 121
            &&& pat[9] == 32
            &&& pat[10] == QUOTE
            &&& pat.subrange(11, 20) == bytes("Reference"@)
            &&& pat[19] == 101
            &&& pat[20] == QUOTE
            &&& pat[21] == 32
            &&& pat[22] == QUOTE
            &&& pat[n - 1] == QUOTE
            &&& forall|k: int|
                0 <= k < n && #[trigger] pat[k] == QUOTE ==> k == 10 || k == 20 || k == 22 || k == n - 1
        }),
{
    reveal_strlit("(property \"Reference\" \"");
    reveal_strlit("\"");
    reveal_strlit("(property ");
    reveal_strlit("Reference");
    let h = "(property \"Reference\" \""@;
    let pat = bytes(reference_text(reference));
    lemma_bytes_concat(h + reference, "\""@);
    lemma_bytes_concat(h, reference);
    lemma_bytes_ascii(h);
    lemma_bytes_ascii("\""@);
    lemma_bytes_ascii("(property "@);
    lemma_bytes_ascii("Reference"@);
    lemma_plain_bytes(reference);
    let b = bytes(h);
    assert(b.len() == 23);
    assert(pat =~= b + bytes(reference) + bytes("\""@));
    assert(pat.subrange(0, 10) =~= bytes("(property "@)) by {
        assert forall|k: int| 0 <= k < 10 implies h[k] == "(property "@[k] by {}
    }
    assert(pat.subrange(11, 20) =~= bytes("Reference"@)) by {
        assert forall|k: int| 0 <= k < 9 implies h[k + 11] == "Reference"@[k] by {}
    }
    assert(pat[10] == b[10] && pat[20] == b[20] && pat[22] == b[22] && pat[21] == b[21]);
    assert(b[0] == 40 && b[8] == 121 && b[9] == 32 && b[19] == 101);
    let n = pat.len() as int;
    assert forall|k: int| 0 <= k < n && #[trigger] pat[k] == QUOTE implies k == 10 || k == 20 || k == 22
        || k == n - 1 by {
        if k < 23 {
            assert(pat[k] == b[k]);
            assert(b[k] == h[k] as u8);
            assert(h[k] != '"' ==> h[k] as u8 != QUOTE);
        } else if k < n - 1 {
            assert(pat[k] == bytes(reference)[k - 23]);
        }
    }
}

/// What stands before a value: the property's name between quotes, a space and the
/// value's quote.
proof fn lemma_head_bytes(s: Seq<u8>, a: int, field: Seq<char>)
    requires
        is_plain(field),
        matches_at(s, a - bytes(property_head(field)).len(), bytes(property_head(field))),
    ensures
        ({
            let f = bytes(field);
            let n = f.len() as int;
            &&& 14 + n <= a <= s.len()
            &&& bytes(property_head(field)).len() == 14 + n
            &&& s[a - 1] == QUOTE
            &&& s[a - 2] == 32
            &&& s[a - 3] == QUOTE
            &&& s.subrange(a - 3 - n, a - 3) == f
            &&& s[a - 4 - n] == QUOTE
            &&& forall|k: int| 0 <= k < n ==> #[trigger] f[k] != QUOTE
        }),
{
    reveal_strlit("(property \"");
    reveal_strlit("\" \"");
    let f = bytes(field);
    let n = f.len() as int;
    let h = bytes(property_head(field));
    let x = "(property \""@;
    let y = "\" \""@;
    lemma_bytes_concat(x + field, y);
    lemma_bytes_concat(x, field);
    lemma_bytes_ascii(x);
    lemma_bytes_ascii(y);
    lemma_plain_bytes(field);
    assert(h =~= bytes(x) + f + bytes(y));
    assert(bytes(x).len() == 11 && bytes(y).len() == 3);
    let p = a - h.len();
    let w = s.subrange(p, p + h.len());
    assert(w == h);
    assert forall|k: int| 0 <= k < h.len() implies #[trigger] h[k] == s[p + k] by {
        assert(w[k] == s[p + k]);
    }
    assert(h[10] == bytes(x)[10] && h[11 + n] == bytes(y)[0] && h[12 + n] == bytes(y)[1] && h[13 + n]
        == bytes(y)[2]);
    assert(h[10] == s[p + 10] && h[11 + n] == s[p + (11 + n)] && h[12 + n] == s[p + (12 + n)] && h[13 + n]
        == s[p + (13 + n)]);
    assert forall|k: int| 0 <= k < n implies #[trigger] s.subrange(a - 3 - n, a - 3)[k] == f[k] by {
        assert(h[11 + k] == f[k]);
        assert(h[11 + k] == s[p + (11 + k)]);
    }
    assert(s.subrange(a - 3 - n, a - 3) =~= f);
}

/// A value that does not end in the beginning of a property.
pub open spec fn ends_plainly(v: Seq<u8>) -> bool {
    !(v.len() >= 10 && v.subrange(v.len() - 10, v.len() as int) == bytes("(property "@))
}

/// What stands before a string is not what a designator stands in: a space and the
/// string's quote, and before them neither `(property` nor the designator's name.
pub open spec fn off_reference(s: Seq<u8>, a: int) -> bool {
    &&& 3 <= a <= s.len()
    &&& s[a - 1] == QUOTE
    &&& s[a - 2] == 32
    &&& s[a - 3] != 121
    &&& !(13 <= a && s[a - 3] == QUOTE && s.subrange(a - 12, a - 3) == bytes("Reference"@) && s[a - 13]
        == QUOTE)
}

/// Before the value of another field stands no designator.
proof fn lemma_field_is_off(s: Seq<u8>, a: int, field: Seq<char>)
    requires
        is_plain(field),
        field != "Reference"@,
        matches_at(s, a - bytes(property_head(field)).len(), bytes(property_head(field))),
    ensures
        off_reference(s, a),
{
    let f = bytes(field);
    let l = f.len() as int;
    lemma_head_bytes(s, a, field);
    lemma_reference_word();
    let r = bytes("Reference"@);
    if 13 <= a && s[a - 3] == QUOTE && s.subrange(a - 12, a - 3) == r && s[a - 13] == QUOTE {
        if l > 9 {
            assert(s.subrange(a - 3 - l, a - 3)[l - 10] == s[a - 13]);
        } else if l < 9 {
            assert(s.subrange(a - 12, a - 3)[8 - l] == s[a - 4 - l]);
            assert(r[8 - l] == QUOTE);
        } else {
            assert(f =~= r);
            lemma_bytes_injective(field, "Reference"@);
        }
        assert(false);
    }
}

/// The text of a designator does not reach into such a string.
pub proof fn lemma_reference_apart(s: Seq<u8>, a: int, b: int, reference: Seq<char>, j: int)
    requires
        string_at(s, 0, a, b),
        is_plain(reference),
        off_reference(s, a),
        ends_plainly(s.subrange(a, b)),
        matches_at(s, j, bytes(reference_text(reference))),
    ensures
        out_of(j, a, b),
        j < a ==> j + bytes(reference_text(reference)).len() <= a,
{
    let pat = bytes(reference_text(reference));
    let n = pat.len() as int;
    lemma_reference_bytes(reference);
    let w = s.subrange(j, j + n);
    assert(w == pat);
    assert forall|k: int| 0 <= k < n implies #[trigger] pat[k] == s[j + k] by {
        assert(w[k] == s[j + k]);
    }
    if a <= j <= b {
        assert(pat[0] == s[j + 0]);
        assert(pat[10] == s[j + 10]);
        if j + 10 < b {
            assert(pat[9] == s[j + 9]);
            assert(escaped(s, a, j + 10));
        }
        if b < j + 10 {
            assert(pat[b - j] == s[j + (b - j)]);
        }
        assert(b == j + 10);
        let v = s.subrange(a, b);
        let tail = v.subrange(v.len() - 10, v.len() as int);
        assert forall|k: int| 0 <= k < 10 implies #[trigger] tail[k] == pat.subrange(0, 10)[k] by {
            assert(pat[k] == s[j + k]);
        }
        assert(tail =~= bytes("(property "@));
        assert(false);
    }
    if j < a && j + n > a {
        let k = a - 1 - j;
        assert(pat[k] == s[j + k]);
        assert(pat[k] == QUOTE);
        if k == 10 {
            assert(pat[8] == s[j + 8]);
        } else if k == 20 {
            assert(pat[19] == s[j + 19]);
        } else {
            assert(k == 22);
            assert(pat[10] == s[j + 10] && pat[20] == s[j + 20]);
            assert forall|i: int| 0 <= i < 9 implies #[trigger] s.subrange(a - 12, a - 3)[i]
                == pat.subrange(11, 20)[i] by {
                assert(pat[11 + i] == s[j + (11 + i)]);
            }
            lemma_reference_word();
            assert(s.subrange(a - 12, a - 3) =~= bytes("Reference"@));
        }
        assert(false);
    }
}

proof fn lemma_reference_word()
    ensures
        bytes("Reference"@).len() == 9,
        forall|k: int| 0 <= k < 9 ==> #[trigger] bytes("Reference"@)[k] != QUOTE,
{
    reveal_strlit("Reference");
    lemma_bytes_ascii("Reference"@);
    assert(is_plain("Reference"@));
    lemma_plain_bytes("Reference"@);
}

/// What is needed of a rewritten value and of the one it is written over.
pub open spec fn other_value(s: Seq<u8>, t: Seq<u8>, a: int, b: int, c: int, reference: Seq<char>) -> bool {
    &&& differ_in(s, t, a, b, c)
    &&& is_plain(reference)
    &&& off_reference(s, a)
    &&& ends_plainly(s.subrange(a, b))
    &&& ends_plainly(t.subrange(a, c))
}

proof fn lemma_other_back(s: Seq<u8>, t: Seq<u8>, a: int, b: int, c: int, reference: Seq<char>)
    requires
        other_value(s, t, a, b, c, reference),
    ensures
        other_value(t, s, a, c, b, reference),
{
    lemma_differ_back(s, t, a, b, c);
    assert(s[a - 1] == t[a - 1 + 0] && s[a - 2] == t[a - 2 + 0] && s[a - 3] == t[a - 3 + 0]);
    if 13 <= a {
        assert(s[a - 13] == t[a - 13 + 0]);
        assert(s.subrange(a - 12, a - 3) =~= t.subrange(a - 12, a - 3)) by {
            assert forall|k: int| a - 12 <= k < a - 3 implies #[trigger] s[k] == t[k] by {
                assert(s[k] == t[k + 0]);
            }
        }
    }
}

/// The text of a designator stands where it stood.
proof fn lemma_reference_along(
    s: Seq<u8>,
    t: Seq<u8>,
    a: int,
    b: int,
    c: int,
    reference: Seq<char>,
    j: int,
)
    requires
        other_value(s, t, a, b, c, reference),
        matches_at(s, j, bytes(reference_text(reference))),
    ensures
        out_of(j, a, b),
        j < a ==> j + bytes(reference_text(reference)).len() <= a,
        matches_at(t, along(j, a, b, c), bytes(reference_text(reference))),
{
    let n = bytes(reference_text(reference)).len() as int;
    lemma_reference_apart(s, a, b, reference, j);
    if j < a {
        lemma_same_range(s, t, j, j + n, 0);
    } else {
        lemma_same_range(s, t, j, j + n, c - b);
    }
}

/// The first of them is the one it was.
proof fn lemma_first_along(
    s: Seq<u8>,
    t: Seq<u8>,
    a: int,
    b: int,
    c: int,
    reference: Seq<char>,
    i: int,
)
    requires
        other_value(s, t, a, b, c, reference),
        0 <= i <= a || b < i,
    ensures
        first_match(t, bytes(reference_text(reference)), along(i, a, b, c)) == match first_match(
            s,
            bytes(reference_text(reference)),
            i,
        ) {
            Some(p) => Some(along(p, a, b, c)),
            None => None,
        },
{
    let pat = bytes(reference_text(reference));
    let i2 = along(i, a, b, c);
    lemma_other_back(s, t, a, b, c, reference);
    lemma_first_match(s, pat, i);
    lemma_first_match(t, pat, i2);
    match first_match(s, pat, i) {
        Some(p) => {
            lemma_reference_along(s, t, a, b, c, reference, p);
            let p2 = along(p, a, b, c);
            assert forall|j: int| i2 <= j < p2 implies !#[trigger] matches_at(t, j, pat) by {
                if matches_at(t, j, pat) {
                    lemma_reference_along(t, s, a, c, b, reference, j);
                    let k = along(j, a, c, b);
                    assert(matches_at(s, k, pat));
                    assert(i <= k < p);
                }
            }
            lemma_first_match_is(t, pat, i2, p2);
        },
        None => {
            if let Some(j) = first_match(t, pat, i2) {
                lemma_reference_along(t, s, a, c, b, reference, j);
                let k = along(j, a, c, b);
                assert(matches_at(s, k, pat));
                assert(i <= k);
            }
        },
    }
}

// ─── The placed symbol ───────────────────────────────────────────────────────

pub proof fn lemma_symbol_words()
    ensures
        is_tag("symbol"@),
        is_tag("lib_id"@),
{
    reveal_strlit("symbol");
    reveal_strlit("lib_id");
    lemma_tag_chars("symbol"@);
    lemma_tag_chars("lib_id"@);
}

/// The symbol with the designator is the one it was.
#[verifier::rlimit(40)]
proof fn lemma_instance_along(
    u: Seq<char>,
    w: Seq<char>,
    a: int,
    b: int,
    c: int,
    reference: Seq<char>,
    i: int,
)
    requires
        other_value(bytes(u), bytes(w), a, b, c, reference),
        0 <= i <= a || b < i <= bytes(u).len(),
    ensures
        instance_from(bytes(w), reference, along(i, a, b, c)) == along_pair(
            instance_from(bytes(u), reference, i),
            a,
            b,
            c,
        ),
        instance_from(bytes(u), reference, i) matches Some((x, y)) ==> {
            &&& opens(bytes(u), x)
            &&& closes_at(bytes(u), x, y)
        },
    decreases bytes(u).len() - i,
{
    let s = bytes(u);
    let t = bytes(w);
    let pat = bytes(reference_text(reference));
    let i2 = along(i, a, b, c);
    lemma_reference_bytes(reference);
    lemma_first_along(s, t, a, b, c, reference, i);
    lemma_first_match(s, pat, i);
    lemma_first_match(t, pat, i2);
    if let Some(p) = first_match(s, pat, i) {
        let p2 = along(p, a, b, c);
        lemma_reference_along(s, t, a, b, c, reference, p);
        lemma_symbol_words();
        lemma_along_enclosing(u, w, a, b, c, "symbol"@, p, p);
        let next = p + pat.len();
        lemma_instance_along(u, w, a, b, c, reference, next);
        assert(along(next, a, b, c) == p2 + pat.len());
        if let Some((x, y)) = enclosing_block(s, bytes("symbol"@), p) {
            lemma_placed_along(u, w, a, b, c, x, y);
        }
    }
}

// ─── The law ─────────────────────────────────────────────────────────────────

/// A field whose value may be rewritten in place: the value stands in a string of its
/// own, the names hold no quotes or backslashes, and neither the old value nor the new
/// one looks like the text by which a symbol is found.
pub open spec fn rewritable(s: Seq<u8>, reference: Seq<char>, field: Seq<char>, value: Seq<char>) -> bool {
    match field_place(s, reference, field) {
        Err(_) => false,
        Ok((a, b)) => {
            &&& may_hold(s, reference, a, b, value)
            &&& is_plain(field)
            &&& field != "Reference"@
        },
    }
}

/// Where the value of a field is found, taken apart.
proof fn lemma_field_place(s: Seq<u8>, reference: Seq<char>, field: Seq<char>)
    requires
        field_place(s, reference, field) is Ok,
    ensures
        ({
            let (a, b) = field_place(s, reference, field)->Ok_0;
            let (x, y) = symbol_instance(s, reference).unwrap();
            let h = bytes(property_head(field));
            &&& symbol_instance(s, reference).is_some()
            &&& a <= b < s.len()
            &&& s[b] == QUOTE
            &&& forall|k: int| a <= k < b && #[trigger] s[k] == QUOTE ==> escaped(s, a, k)
            &&& !escaped(s, a, b)
            &&& 0 <= a - h.len() - x
            &&& first_match(s.subrange(x, y), h, 0) == Some(a - h.len() - x)
            &&& matches_at(s.subrange(x, y), a - h.len() - x, h)
        }),
{
    let (x, y) = symbol_instance(s, reference).unwrap();
    let h = bytes(property_head(field));
    lemma_first_match(s.subrange(x, y), h, 0);
    let o = first_match(s.subrange(x, y), h, 0).unwrap();
    lemma_instance_is(s, reference, 0);
    lemma_value_is(s, x + o + h.len(), x + o + h.len());
}

proof fn lemma_instance_is(s: Seq<u8>, reference: Seq<char>, i: int)
    requires
        0 <= i,
    ensures
        instance_from(s, reference, i) matches Some((x, y)) ==> 0 <= x && x <= y <= s.len(),
    decreases s.len() - i,
{
    let pat = bytes(reference_text(reference));
    lemma_first_match(s, pat, i);
    if let Some(p) = first_match(s, pat, i) {
        if !(p < i || pat.len() == 0 || p + pat.len() > s.len()) {
            lemma_enclosing_is(s, bytes("symbol"@), p, p);
            lemma_instance_is(s, reference, p + pat.len());
        }
    }
}

pub proof fn lemma_enclosing_is(s: Seq<u8>, tag: Seq<u8>, p: int, pos: int)
    ensures
        enclosing_from(s, tag, p, pos) matches Some((x, y)) ==> closes_at(s, x, y),
    decreases p + 1,
{
    if p >= 0 {
        lemma_block_end_is(s, p);
        lemma_enclosing_is(s, tag, p - 1, pos);
    }
}

/// A string whose content may be rewritten without another symbol being found, or the
/// same symbol in another place.
pub open spec fn may_hold(s: Seq<u8>, reference: Seq<char>, a: int, b: int, value: Seq<char>) -> bool {
    &&& string_at(s, 0, a, b)
    &&& is_plain(reference)
    &&& is_plain(value)
    &&& ends_plainly(s.subrange(a, b))
    &&& ends_plainly(bytes(value))
}

/// A plain text needs no escapes between quotes.
proof fn lemma_plain_is_quotable(value: Seq<char>)
    requires
        is_plain(value),
    ensures
        is_quotable(bytes(value)),
{
    lemma_plain_bytes(value);
    lemma_escaped_plain(bytes(value), 0, bytes(value).len() as int);
}

/// Two files that differ in the content of one string, which is plain in the second.
pub proof fn lemma_content_differs(c: Seq<char>, a: int, b: int, value: Seq<char>)
    requires
        string_at(bytes(c), 0, a, b),
        is_quotable(bytes(value)),
    ensures
        ({
            let s = bytes(c);
            let t = replaced(s, a, b, bytes(value));
            let n = a + bytes(value).len();
            &&& differ_in(s, t, a, b, n)
            &&& t.subrange(a, n) == bytes(value)
            &&& bytes(text_of(t)) == t
            &&& boundary(s, a)
            &&& boundary(s, b)
        }),
{
    let s = bytes(c);
    let v = bytes(value);
    let t = replaced(s, a, b, v);
    let n = a + v.len();
    assert(t.subrange(a, n) =~= v);
    assert forall|k: int| 0 <= k < a implies #[trigger] s[k] == t[k + 0] by {}
    assert forall|k: int| b <= k < s.len() implies #[trigger] s[k] == t[k + (n - b)] by {}
    assert(s[a - 1] == t[a - 1 + 0]);
    assert(s[b] == t[b + (n - b)]);
    lemma_lex_same(s, t, 0, a - 1, 0);
    assert forall|k: int| 0 <= k < v.len() implies #[trigger] v[k] == t[k + a] by {}
    assert forall|k: int| a <= k < n && #[trigger] t[k] == QUOTE implies escaped(t, a, k) by {
        assert(v[k - a] == QUOTE);
        lemma_escaped_same(v, t, 0, k - a, a);
    }
    lemma_escaped_same(v, t, 0, v.len() as int, a);
    assert(string_at(t, 0, a, n));
    lemma_ascii_boundary(c, a - 1);
    lemma_ascii_boundary(c, b);
    lemma_ends(c);
    lemma_between_cuts(c, 0, a);
    lemma_between_cuts(c, b, s.len() as int);
    let l = text_of(s.subrange(0, a));
    let r = text_of(s.subrange(b, s.len() as int));
    lemma_bytes_concat(l + value, r);
    lemma_bytes_concat(l, value);
    assert(bytes(l + value + r) =~= t);
    lemma_bytes_valid(l + value + r);
}

/// The two files differ in the one value.
proof fn lemma_value_differs(c: Seq<char>, reference: Seq<char>, a: int, b: int, value: Seq<char>)
    requires
        may_hold(bytes(c), reference, a, b, value),
        off_reference(bytes(c), a),
    ensures
        ({
            let s = bytes(c);
            let t = replaced(s, a, b, bytes(value));
            let n = a + bytes(value).len();
            &&& other_value(s, t, a, b, n, reference)
            &&& t.subrange(a, n) == bytes(value)
            &&& bytes(text_of(t)) == t
            &&& boundary(s, a)
            &&& boundary(s, b)
        }),
{
    lemma_plain_is_quotable(value);
    lemma_content_differs(c, a, b, value);
}

/// What is looked for in the symbol's block, and the quote that ends the value, are
/// found where they were.
#[verifier::rlimit(40)]
proof fn lemma_found_again(
    c: Seq<char>,
    reference: Seq<char>,
    x: int,
    y: int,
    h: Seq<u8>,
    o: int,
    b: int,
    value: Seq<char>,
)
    requires
        symbol_instance(bytes(c), reference) == Some((x, y)),
        first_match(bytes(c).subrange(x, y), h, 0) == Some(o),
        may_hold(bytes(c), reference, x + o + h.len(), b, value),
        off_reference(bytes(c), x + o + h.len()),
    ensures
        ({
            let s = bytes(c);
            let a = x + o + h.len();
            let n = a + bytes(value).len();
            let t = replaced(s, a, b, bytes(value));
            let y2 = y + (n - b);
            &&& 0 <= x
            &&& symbol_instance(t, reference) == Some((x, y2))
            &&& along_pair(Some((x, y)), a, b, n) == Some((x, y2))
            &&& first_match(t.subrange(x, y2), h, 0) == Some(o)
            &&& value_end(t, a) == Some(n)
            &&& t.subrange(a, n) == bytes(value)
            &&& bytes(text_of(s.subrange(a, b))) == s.subrange(a, b)
            &&& replaced(t, a, n, s.subrange(a, b)) == s
        }),
{
    let s = bytes(c);
    let a = x + o + h.len();
    let v = bytes(value);
    let n = a + v.len();
    let t = replaced(s, a, b, v);
    let y2 = y + (n - b);
    lemma_value_differs(c, reference, a, b, value);
    lemma_instance_along(c, text_of(t), a, b, n, reference, 0);
    lemma_first_match(s.subrange(x, y), h, 0);
    lemma_string_in_block(s, a, b, x, y);
    let w = s.subrange(x, y);
    let w2 = t.subrange(x, y2);
    assert forall|k: int| 0 <= k < o + h.len() implies #[trigger] w[k] == w2[k] by {
        assert(s[x + k] == t[x + k + 0]);
    }
    assert(w.subrange(o, o + h.len()) =~= w2.subrange(o, o + h.len()));
    assert forall|k: int| 0 <= k < o implies !#[trigger] matches_at(w2, k, h) by {
        assert(!matches_at(w, k, h));
        assert(w.subrange(k, k + h.len()) =~= w2.subrange(k, k + h.len()));
    }
    lemma_first_match_is(w2, h, 0, o);
    lemma_value_end(t, a, n, a);
    lemma_between_cuts(c, a, b);
    assert(replaced(t, a, n, s.subrange(a, b)) =~= s);
}

/// A field that is rewritten reads back as the new value, in the same symbol, and
/// writing the old value again restores the file byte for byte.
pub proof fn law_rewritten_field_reads_back(
    c: Seq<char>,
    reference: Seq<char>,
    field: Seq<char>,
    value: Seq<char>,
)
    requires
        rewritable(bytes(c), reference, field, value),
    ensures
        ({
            let s = bytes(c);
            let (a, b) = field_place(s, reference, field)->Ok_0;
            let n = a + bytes(value).len();
            let was = text_of(s.subrange(a, b));
            let t = with_field(s, reference, field, value)->Ok_0;
            &&& with_field(s, reference, field, value) is Ok
            &&& field_place(t, reference, field) == Ok::<(int, int), Seq<char>>((a, n))
            &&& t.subrange(a, n) == bytes(value)
            &&& symbol_instance(t, reference) == along_pair(symbol_instance(s, reference), a, b, n)
            &&& with_field(t, reference, field, was) == Ok::<Seq<u8>, Seq<char>>(s)
        }),
{
    let s = bytes(c);
    let (a, b) = field_place(s, reference, field)->Ok_0;
    lemma_field_place(s, reference, field);
    lemma_instance_is(s, reference, 0);
    let (x, y) = symbol_instance(s, reference).unwrap();
    let h = bytes(property_head(field));
    let o = a - h.len() - x;
    assert(matches_at(s, a - h.len(), h)) by {
        assert(s.subrange(x, y).subrange(o, o + h.len()) =~= s.subrange(a - h.len(), a));
    }
    lemma_field_is_off(s, a, field);
    lemma_found_again(c, reference, x, y, h, o, b, value);
}

// ─── The library symbol ──────────────────────────────────────────────────────

/// The library symbol of a placed symbol, exchanged for another, reads back as the
/// other, in the same symbol, and putting the old one back restores the file byte for
/// byte.
pub proof fn law_replaced_lib_id_reads_back(c: Seq<char>, reference: Seq<char>, lib_id: Seq<char>)
    requires
        lib_id_place(bytes(c), reference) matches Ok((a, b)) && may_hold(bytes(c), reference, a, b, lib_id),
    ensures
        ({
            let s = bytes(c);
            let (a, b) = lib_id_place(s, reference)->Ok_0;
            let n = a + bytes(lib_id).len();
            let t = replaced(s, a, b, bytes(lib_id));
            &&& lib_id_place(t, reference) == Ok::<(int, int), Seq<char>>((a, n))
            &&& t.subrange(a, n) == bytes(lib_id)
            &&& symbol_instance(t, reference) == along_pair(symbol_instance(s, reference), a, b, n)
            &&& replaced(t, a, n, s.subrange(a, b)) == s
        }),
{
    let s = bytes(c);
    let (a, b) = lib_id_place(s, reference)->Ok_0;
    let (x, y) = symbol_instance(s, reference).unwrap();
    reveal_strlit("(lib_id \"");
    lemma_bytes_ascii("(lib_id \""@);
    let h = bytes("(lib_id \""@);
    let o = a - 9 - x;
    lemma_instance_is(s, reference, 0);
    lemma_first_match(s.subrange(x, y), h, 0);
    let w = s.subrange(x, y).subrange(o, o + 9);
    assert(w == h);
    assert(h[8] == 34 && h[7] == 32 && h[6] == 100);
    assert(s[a - 1] == w[8] && s[a - 2] == w[7] && s[a - 3] == w[6]);
    assert(off_reference(s, a));
    lemma_found_again(c, reference, x, y, h, o, b, lib_id);
}

} // verus!
