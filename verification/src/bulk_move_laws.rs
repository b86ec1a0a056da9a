//! Moving many components at once, told by where each of them stands afterwards.

#[allow(unused_imports)]
use crate::chars::{is_white, texts};
#[allow(unused_imports)]
use crate::edit::{
    edited, edits_fit, in_line, lemma_sort_keeps, lemma_sorted_in_line, patched, sort_edits, Splice,
};
#[allow(unused_imports)]
use crate::label_laws::rising;
#[allow(unused_imports)]
use crate::moving::{lemma_number_bytes, number_byte};
#[allow(unused_imports)]
use crate::number::is_number;
#[allow(unused_imports)]
use crate::position_laws::{
    at_block, exchanges, is_name, lemma_at_bytes, lemma_document_along, lemma_exchange,
    lemma_instance_along,
};
#[allow(unused_imports)]
use crate::rename_laws::{lemma_patched_split, lemma_sorted_rises};
#[allow(unused_imports)]
use crate::scan::{closes_at, is_document, lex, CLOSE, OPEN, QUOTE};
#[allow(unused_imports)]
use crate::sch_batch::{
    finished, move_target, moves, number_or_zero, white_words, white_words_and_rest, BatchOutcome,
    NewPlace, Target,
};
#[allow(unused_imports)]
use crate::schematic::symbol_instance;
#[allow(unused_imports)]
use crate::substitution::{lemma_swap_bytes, lemma_swap_lex, moved, swap};
#[allow(unused_imports)]
use crate::text::{
    bytes, first_byte, first_match, lemma_ascii_boundary, lemma_bytes_ascii, lemma_bytes_concat,
    lemma_bytes_valid, lemma_first_byte, lemma_first_match, lemma_first_match_is, matches_at,
    replaced, text_of,
};
use vstd::prelude::*;
use vstd::string::*;
use vstd::utf8::*;

verus! {

// ─── Numbers with spaces between them ────────────────────────────────────────

/// A text without white space.
spec fn solid(t: Seq<char>) -> bool {
    t.len() > 0 && forall|k: int| 0 <= k < t.len() ==> !is_white(#[trigger] t[k])
}

proof fn lemma_words_more(u: Seq<char>, v: Seq<char>)
    requires
        forall|k: int| 0 <= k < v.len() ==> !is_white(#[trigger] v[k]),
    ensures
        white_words_and_rest(u + v) == (white_words_and_rest(u).0, white_words_and_rest(u).1 + v),
    decreases v.len(),
{
    if v.len() == 0 {
        assert(u + v =~= u);
        assert(white_words_and_rest(u).1 + v =~= white_words_and_rest(u).1);
    } else {
        let w = v.drop_last();
        assert forall|k: int| 0 <= k < w.len() implies !is_white(#[trigger] w[k]) by {
            assert(w[k] == v[k]);
        }
        lemma_words_more(u, w);
        assert((u + v).drop_last() =~= u + w);
        assert((u + v).last() == v.last());
        assert(!is_white(v[v.len() - 1]));
        assert((white_words_and_rest(u).1 + w).push(v.last()) =~= white_words_and_rest(u).1 + v);
    }
}

proof fn lemma_words_space(u: Seq<char>)
    requires
        white_words_and_rest(u).1.len() > 0,
    ensures
        white_words_and_rest(u + " "@) == (
            white_words_and_rest(u).0.push(white_words_and_rest(u).1),
            Seq::<char>::empty(),
        ),
{
    reveal_strlit(" ");
    let t = u + " "@;
    assert(t.drop_last() =~= u);
    assert(t.last() == ' ');
}

/// Three words with a space between them.
proof fn lemma_three_words(x: Seq<char>, y: Seq<char>, z: Seq<char>)
    requires
        solid(x),
        solid(y),
        solid(z),
    ensures
        white_words(x + " "@ + y + " "@ + z) == seq![x, y, z],
{
    let e = Seq::<char>::empty();
    let none = Seq::<Seq<char>>::empty();
    assert(white_words_and_rest(e) == (none, e));
    lemma_words_more(e, x);
    assert(e + x =~= x);
    lemma_words_space(x);
    lemma_words_more(x + " "@, y);
    assert(e + y =~= y);
    lemma_words_space(x + " "@ + y);
    lemma_words_more(x + " "@ + y + " "@, z);
    assert(e + z =~= z);
    assert(none.push(x).push(y).push(z) =~= seq![x, y, z]);
}

/// A number is a word of characters that open, close and quote nothing.
proof fn lemma_number_solid(x: Seq<char>)
    requires
        is_number(bytes(x)),
    ensures
        solid(x),
        forall|k: int| 0 <= k < bytes(x).len() ==> number_byte(#[trigger] bytes(x)[k]),
        bytes(x).len() > 0,
{
    let w = bytes(x);
    lemma_number_bytes(w);
    let t = Seq::new(w.len(), |k: int| w[k] as char);
    assert(is_ascii_chars(t)) by {
        assert forall|i: int| 0 <= i < t.len() implies '\0' <= #[trigger] t[i] <= '\u{7f}' by {
            assert(number_byte(w[i]));
        }
    }
    lemma_bytes_ascii(t);
    assert forall|k: int| 0 <= k < w.len() implies #[trigger] bytes(t)[k] == w[k] by {
        assert(bytes(t)[k] == t[k] as u8);
        assert(number_byte(w[k]));
    }
    assert(bytes(t) =~= w);
    crate::text::lemma_bytes_injective(t, x);
    assert forall|k: int| 0 <= k < x.len() implies !is_white(#[trigger] x[k]) by {
        assert(number_byte(w[k]));
    }
}

// ─── One position ────────────────────────────────────────────────────────────

/// Where a component is to stand, as it is written.
pub open spec fn place_text(to: NewPlace) -> Seq<char> {
    to.x@ + " "@ + to.y@ + " "@ + to.rotation@
}

/// A place that is written in numbers.
pub open spec fn in_numbers(to: NewPlace) -> bool {
    is_number(bytes(to.x@)) && is_number(bytes(to.y@)) && is_number(bytes(to.rotation@))
}

/// The component with the designator stands somewhere: in an `(at …)` of its own.
pub open spec fn stands(s: Seq<u8>, reference: Seq<char>) -> bool {
    move_target(s, reference) matches Target::At { start, end, .. } && start < end && at_block(
        s,
        start - 4,
        end + 1,
    )
}

/// The component reads as standing at the place.
pub open spec fn reads_at(s: Seq<u8>, reference: Seq<char>, to: NewPlace) -> bool {
    move_target(s, reference) matches Target::At { x, y, rotation, .. } && x == to.x@ && y == to.y@
        && rotation == to.rotation@
}

proof fn lemma_place_bytes(to: NewPlace)
    requires
        in_numbers(to),
    ensures
        ({
            let v = bytes(place_text(to));
            let w = bytes("(at "@ + place_text(to) + ")"@);
            &&& v.len() > 0
            &&& forall|k: int|
                0 <= k < v.len() ==> #[trigger] v[k] != OPEN && v[k] != CLOSE && v[k] != QUOTE
            &&& w == bytes("(at "@) + v + seq![CLOSE]
            &&& at_block(w, 0, w.len() as int)
            &&& white_words(place_text(to)) == seq![to.x@, to.y@, to.rotation@]
        }),
{
    lemma_number_solid(to.x@);
    lemma_number_solid(to.y@);
    lemma_number_solid(to.rotation@);
    lemma_three_words(to.x@, to.y@, to.rotation@);
    reveal_strlit(" ");
    reveal_strlit(")");
    reveal_strlit("(at ");
    lemma_bytes_ascii(" "@);
    lemma_bytes_ascii(")"@);
    lemma_bytes_ascii("(at "@);
    let t = place_text(to);
    lemma_bytes_concat(to.x@ + " "@ + to.y@ + " "@, to.rotation@);
    lemma_bytes_concat(to.x@ + " "@ + to.y@, " "@);
    lemma_bytes_concat(to.x@ + " "@, to.y@);
    lemma_bytes_concat(to.x@, " "@);
    let (x, y, z) = (bytes(to.x@), bytes(to.y@), bytes(to.rotation@));
    let sp = bytes(" "@);
    let v = bytes(t);
    assert(v == x + sp + y + sp + z);
    assert forall|k: int| 0 <= k < v.len() implies #[trigger] v[k] != OPEN && v[k] != CLOSE && v[k]
        != QUOTE by {
        if k < x.len() {
            assert(number_byte(x[k]));
        } else if k == x.len() {
        } else if k < x.len() + 1 + y.len() {
            assert(number_byte(y[k - x.len() - 1]));
        } else if k == x.len() + 1 + y.len() {
        } else {
            assert(number_byte(z[k - x.len() - y.len() - 2]));
        }
    }
    lemma_bytes_concat("(at "@ + t, ")"@);
    lemma_bytes_concat("(at "@, t);
    let w = bytes("(at "@ + t + ")"@);
    assert(bytes(")"@) =~= seq![CLOSE]);
    assert(w =~= bytes("(at "@) + v + seq![CLOSE]);
    assert(w.subrange(0, 4) =~= bytes("(at "@));
    assert(lex(w, 0, 0) == crate::scan::outside());
    assert forall|k: int| 0 < k < w.len() - 1 implies #[trigger] w[k] != OPEN && w[k] != CLOSE && w[k]
        != QUOTE by {
        if k < 4 {
            assert(w[k] == bytes("(at "@)[k]);
            assert(bytes("(at "@)[k] == "(at "@[k] as u8);
        } else {
            assert(w[k] == v[k - 4]);
        }
    }
}

/// Another position begins before this one or behind it.
proof fn lemma_at_apart(s: Seq<u8>, a: int, b: int, j: int)
    requires
        at_block(s, a, b),
        matches_at(s, j, bytes("(at "@)),
    ensures
        j + 4 <= a || j == a || b <= j,
{
    lemma_at_bytes(s, a);
    lemma_at_bytes(s, j);
}

/// Where a position begins it begins after the exchange, the exchanged one too.
proof fn lemma_at_text_along(c: Seq<char>, a: int, b: int, w: Seq<char>, j: int)
    requires
        exchanges(c, a, b, w),
        matches_at(bytes(c), j, bytes("(at "@)),
    ensures
        j + 4 <= a || j == a || b <= j,
        matches_at(
            swap(bytes(c), a, b, bytes(w)),
            moved(j, a, b, bytes(w).len() as int),
            bytes("(at "@),
        ),
{
    let s = bytes(c);
    let n = bytes(w).len() as int;
    let t = swap(s, a, b, bytes(w));
    lemma_at_apart(s, a, b, j);
    lemma_at_bytes(s, j);
    if j == a {
        lemma_exchange(c, a, b, w);
    } else if j < a {
        assert(t.subrange(j, j + 4) =~= s.subrange(j, j + 4));
    } else {
        let d = a + n - b;
        assert(t.subrange(j + d, j + d + 4) =~= s.subrange(j, j + 4));
    }
}

/// The first position in a block is the first after the exchange.
proof fn lemma_first_at_along(c: Seq<char>, a: int, b: int, w: Seq<char>, x: int, y: int, o: int)
    requires
        exchanges(c, a, b, w),
        0 <= x <= y <= bytes(c).len(),
        x < a || b <= x,
        y <= a || b < y,
        first_match(bytes(c).subrange(x, y), bytes("(at "@), 0) == Some(o),
    ensures
        ({
            let n = bytes(w).len() as int;
            let t = swap(bytes(c), a, b, bytes(w));
            first_match(
                t.subrange(moved(x, a, b, n), moved(y, a, b, n)),
                bytes("(at "@),
                0,
            ) == Some(moved(x + o, a, b, n) - moved(x, a, b, n))
        }),
{
    let s = bytes(c);
    let n = bytes(w).len() as int;
    let t = swap(s, a, b, bytes(w));
    let pat = bytes("(at "@);
    let v = s.subrange(x, y);
    let x2 = moved(x, a, b, n);
    let y2 = moved(y, a, b, n);
    let r = t.subrange(x2, y2);
    lemma_first_match(v, pat, 0);
    lemma_at_bytes(v, o);
    lemma_match_cut(s, x, y, o, pat);
    lemma_at_text_along(c, a, b, w, x + o);
    let p2 = moved(x + o, a, b, n) - x2;
    assert(t.len() == s.len() + (a + n - b) && 0 <= a < b <= s.len() && n > 4) by {
        lemma_exchange(c, a, b, w);
        lemma_swap_bytes(s, a, b, bytes(w));
        lemma_at_bytes(bytes(w), 0);
    }
    assert(0 <= x2 <= y2 <= t.len());
    assert(0 <= p2 && x2 + p2 + 4 <= y2);
    lemma_match_cut(t, x2, y2, p2, pat);
    assert forall|k: int| 0 <= k < p2 implies !#[trigger] matches_at(r, k, pat) by {
        lemma_match_cut(t, x2, y2, k, pat);
        if matches_at(r, k, pat) {
            let j = lemma_at_text_back(c, a, b, w, x2 + k);
            assert(x <= j < x + o);
            lemma_match_cut(s, x, y, j - x, pat);
            assert(matches_at(v, j - x, pat));
        }
    }
    lemma_first_match_is(r, pat, 0, p2);
}

/// What stands in a part of a text stands in the text.
proof fn lemma_match_cut(s: Seq<u8>, x: int, y: int, k: int, pat: Seq<u8>)
    requires
        0 <= x <= y <= s.len(),
        0 <= k,
    ensures
        matches_at(s.subrange(x, y), k, pat) == (x + k + pat.len() <= y && matches_at(s, x + k, pat)),
{
    if x + k + pat.len() <= y {
        assert(s.subrange(x, y).subrange(k, k + pat.len()) =~= s.subrange(x + k, x + k + pat.len()));
    }
}

/// Where a position begins after the exchange one began before.
proof fn lemma_at_text_back(c: Seq<char>, a: int, b: int, w: Seq<char>, i: int) -> (j: int)
    requires
        exchanges(c, a, b, w),
        matches_at(swap(bytes(c), a, b, bytes(w)), i, bytes("(at "@)),
    ensures
        j <= a || b <= j,
        i == moved(j, a, b, bytes(w).len() as int),
        matches_at(bytes(c), j, bytes("(at "@)),
{
    let s = bytes(c);
    let n = bytes(w).len() as int;
    lemma_exchange(c, a, b, w);
    let t = swap(s, a, b, bytes(w));
    lemma_at_text_along(text_of(t), a, a + n, text_of(s.subrange(a, b)), i);
    moved(i, a, a + n, b - a)
}

/// The closing parenthesis of a position is the first behind its beginning.
proof fn lemma_first_close(v: Seq<u8>, o: int, e: int, from: int)
    requires
        0 <= o <= from <= e < v.len(),
        v[e] == CLOSE,
        forall|k: int| o <= k < e ==> #[trigger] v[k] != CLOSE,
    ensures
        first_byte(v, CLOSE, from) == Some(e),
    decreases e - from,
{
    if from < e {
        assert(v[from] != CLOSE);
        lemma_first_close(v, o, e, from + 1);
    }
}

/// What a target reads as, from where its position stands.
proof fn lemma_target_is(s: Seq<u8>, reference: Seq<char>, x: int, y: int, o: int, b: int)
    requires
        symbol_instance(s, reference) == Some((x, y)),
        0 <= x,
        y <= s.len(),
        first_match(s.subrange(x, y), bytes("(at "@), 0) == Some(o),
        at_block(s, x + o, b),
        b <= y,
        0 <= o,
    ensures
        ({
            let words = white_words(text_of(s.subrange(x + o + 4, b - 1)));
            move_target(s, reference) == (Target::At {
                start: x + o + 4,
                end: b - 1,
                x: number_or_zero(words, 0),
                y: number_or_zero(words, 1),
                rotation: number_or_zero(words, 2),
            })
        }),
{
    let v = s.subrange(x, y);
    lemma_at_bytes(s, x + o);
    assert forall|k: int| o <= k < b - 1 - x implies #[trigger] v[k] != CLOSE by {
        assert(v[k] == s[x + k]);
    }
    lemma_first_close(v, o, b - 1 - x, o);
}

/// How a component that stands somewhere was found.
proof fn lemma_stands(s: Seq<u8>, reference: Seq<char>)
    requires
        stands(s, reference),
        symbol_instance(s, reference) matches Some((x, y)) && closes_at(s, x, y),
    ensures
        ({
            let (x, y) = symbol_instance(s, reference)->0;
            let o = move_target(s, reference)->start - 4 - x;
            &&& 0 <= o
            &&& first_match(s.subrange(x, y), bytes("(at "@), 0) == Some(o)
            &&& move_target(s, reference)->end + 1 <= y
        }),
{
    let (x, y) = symbol_instance(s, reference)->0;
    let v = s.subrange(x, y);
    lemma_first_match(v, bytes("(at "@), 0);
    let o = first_match(v, bytes("(at "@), 0)->0;
    lemma_first_byte(v, CLOSE, o);
}

/// Another component stands where it stood, and reads the same.
#[verifier::rlimit(40)]
proof fn lemma_others_stay(c: Seq<char>, a: int, b: int, w: Seq<char>, reference: Seq<char>)
    requires
        exchanges(c, a, b, w),
        is_name(reference),
        stands(bytes(c), reference),
        move_target(bytes(c), reference)->start != a + 4,
    ensures
        ({
            let s = bytes(c);
            let n = bytes(w).len() as int;
            let t = swap(s, a, b, bytes(w));
            &&& stands(t, reference)
            &&& move_target(t, reference)->start == moved(move_target(s, reference)->start, a, b, n)
            &&& move_target(t, reference)->end == moved(move_target(s, reference)->end, a, b, n)
            &&& move_target(t, reference)->x == move_target(s, reference)->x
            &&& move_target(t, reference)->y == move_target(s, reference)->y
            &&& move_target(t, reference)->rotation == move_target(s, reference)->rotation
            &&& move_target(s, reference)->end < a || b + 4 <= move_target(s, reference)->start
        }),
{
    let s = bytes(c);
    let n = bytes(w).len() as int;
    let t = swap(s, a, b, bytes(w));
    assert(t.len() == s.len() + (a + n - b));
    lemma_instance_along(c, a, b, w, reference, 0);
    let (x, y) = symbol_instance(s, reference)->0;
    lemma_stands(s, reference);
    let o = move_target(s, reference)->start - 4 - x;
    let p = x + o;
    let q = move_target(s, reference)->end + 1;
    lemma_first_at_along(c, a, b, w, x, y, o);
    let x2 = moved(x, a, b, n);
    let p2 = moved(p, a, b, n);
    let q2 = moved(q, a, b, n);
    lemma_at_along(c, a, b, w, p, q);
    lemma_target_is(s, reference, x, y, o, q);
    lemma_target_is(t, reference, x2, moved(y, a, b, n), p2 - x2, q2);
}

/// Another position is one after the exchange.
proof fn lemma_at_along(c: Seq<char>, a: int, b: int, w: Seq<char>, p: int, q: int)
    requires
        exchanges(c, a, b, w),
        at_block(bytes(c), p, q),
        p != a,
    ensures
        q <= a || b <= p,
        ({
            let n = bytes(w).len() as int;
            let t = swap(bytes(c), a, b, bytes(w));
            &&& at_block(t, moved(p, a, b, n), moved(q, a, b, n))
            &&& t.subrange(moved(p, a, b, n) + 4, moved(q, a, b, n) - 1) == bytes(c).subrange(
                p + 4,
                q - 1,
            )
        }),
{
    let s = bytes(c);
    let n = bytes(w).len() as int;
    let t = swap(s, a, b, bytes(w));
    lemma_at_apart(s, a, b, p);
    lemma_at_apart(s, p, q, a);
    lemma_at_bytes(s, a);
    lemma_at_bytes(s, p);
    let p2 = moved(p, a, b, n);
    let q2 = moved(q, a, b, n);
    let d = p2 - p;
    assert(q <= a || b <= p);
    assert(t.len() == s.len() + (a + n - b));
    assert(t.subrange(p2, p2 + 4) =~= s.subrange(p, p + 4));
    assert(t.subrange(p2 + 4, q2 - 1) =~= s.subrange(p + 4, q - 1));
    assert forall|k: int| p2 < k < q2 - 1 implies #[trigger] t[k] != OPEN && t[k] != CLOSE && t[k]
        != QUOTE by {
        assert(t[k] == s[k - d]);
    }
    assert(t[q2 - 1] == s[q - 1]);
    assert(lex(t, 0, p2) == lex(s, 0, p)) by {
        lemma_exchange(c, a, b, w);
        lemma_swap_lex(s, a, b, bytes(w), 0, p);
    }
}

/// A component whose position is exchanged stands at the new place.
#[verifier::rlimit(40)]
proof fn lemma_moved_reads(c: Seq<char>, reference: Seq<char>, to: NewPlace)
    requires
        is_name(reference),
        stands(bytes(c), reference),
        in_numbers(to),
    ensures
        ({
            let s = bytes(c);
            let (p, q) = (move_target(s, reference)->start, move_target(s, reference)->end);
            let w = "(at "@ + place_text(to) + ")"@;
            let t = swap(s, p - 4, q + 1, bytes(w));
            &&& exchanges(c, p - 4, q + 1, w)
            &&& t == replaced(s, p, q, bytes(place_text(to)))
            &&& reads_at(t, reference, to)
            &&& stands(t, reference)
            &&& move_target(t, reference)->start == p
        }),
{
    let s = bytes(c);
    let (p, q) = (move_target(s, reference)->start, move_target(s, reference)->end);
    let v = bytes(place_text(to));
    let w = "(at "@ + place_text(to) + ")"@;
    let (a, b) = (p - 4, q + 1);
    let n = bytes(w).len() as int;
    lemma_place_bytes(to);
    let t = swap(s, a, b, bytes(w));
    lemma_exchange(c, a, b, w);
    lemma_swap_bytes(s, a, b, bytes(w));
    lemma_at_bytes(s, a);
    assert(s.subrange(a, a + 4) == bytes("(at "@));
    assert forall|k: int| 0 <= k < 4 implies #[trigger] s[a + k] == bytes("(at "@)[k] by {
        assert(s.subrange(a, a + 4)[k] == s[a + k]);
    }
    assert(t =~= replaced(s, p, q, v)) by {
        assert forall|k: int| 0 <= k < t.len() implies t[k] == replaced(s, p, q, v)[k] by {
            if a <= k < a + 4 {
                assert(t[k] == bytes(w)[k - a]);
                assert(s[a + (k - a)] == bytes("(at "@)[k - a]);
            } else if a + 4 <= k < a + n {
                assert(t[k] == bytes(w)[k - a]);
            }
        }
    }
    lemma_instance_along(c, a, b, w, reference, 0);
    let (x, y) = symbol_instance(s, reference)->0;
    lemma_stands(s, reference);
    let o = a - x;
    lemma_first_at_along(c, a, b, w, x, y, o);
    assert(x < a) by {
        if x == a {
            assert(closes_at(s, x, y));
        }
    }
    lemma_target_is(t, reference, x, moved(y, a, b, n), o, a + n);
    assert(t.subrange(p, a + n - 1) =~= v);
    lemma_bytes_valid(place_text(to));
}

// ─── All of them ─────────────────────────────────────────────────────────────

/// What a move writes, and over which bytes.
spec fn edit_at(s: Seq<u8>, reference: Seq<char>, to: NewPlace) -> Splice {
    Splice {
        start: move_target(s, reference)->start,
        end: move_target(s, reference)->end,
        bytes: bytes(place_text(to)),
    }
}

/// What a component that cannot be moved is answered.
pub open spec fn move_fault(s: Seq<u8>, reference: Seq<char>, why: Seq<char>) -> bool {
    &&& move_target(s, reference) is NotFound ==> why == "'"@ + reference + "' not found"@
    &&& move_target(s, reference) is NoPosition ==> why == "No (at) in symbol '"@ + reference + "'"@
}

/// Each position below `n` is in exactly one of the two lists: in the first where its
/// component has a position, in the second where it has none.
pub open spec fn parted(s: Seq<u8>, refs: Seq<Seq<char>>, n: int, with: Seq<int>, without: Seq<int>) -> bool {
    &&& rising(with, n)
    &&& rising(without, n)
    &&& with.len() + without.len() == n
    &&& forall|k: int|
        0 <= k < n ==> with.contains(k) == (move_target(s, #[trigger] refs[k]) is At)
    &&& forall|k: int|
        0 <= k < n ==> without.contains(k) == !(move_target(s, #[trigger] refs[k]) is At)
}

/// The moves collected for the first `n` components.
proof fn lemma_moves(s: Seq<u8>, refs: Seq<Seq<char>>, to: Seq<NewPlace>, n: int) -> (r: (
    Seq<int>,
    Seq<int>,
))
    requires
        0 <= n <= refs.len(),
    ensures
        ({
            let b = moves(s, refs, to, n);
            let (with, without) = r;
            &&& parted(s, refs, n, with, without)
            &&& b.edits.len() == with.len()
            &&& b.done.len() == with.len()
            &&& b.errors.len() == without.len()
            &&& forall|i: int|
                0 <= i < with.len() ==> b.done[i] == refs[#[trigger] with[i]] && b.edits[i] == edit_at(
                    s,
                    refs[with[i]],
                    to[with[i]],
                )
            &&& forall|i: int|
                0 <= i < without.len() ==> move_fault(s, refs[#[trigger] without[i]], b.errors[i])
        }),
    decreases n,
{
    let b = moves(s, refs, to, n);
    if n <= 0 {
        (Seq::empty(), Seq::empty())
    } else {
        let before = moves(s, refs, to, n - 1);
        let (with, without) = lemma_moves(s, refs, to, n - 1);
        crate::label_laws::lemma_contains_push(with, n - 1);
        crate::label_laws::lemma_contains_push(without, n - 1);
        assert(!with.contains(n - 1));
        assert(!without.contains(n - 1));
        if move_target(s, refs[n - 1]) is At {
            let more = with.push(n - 1);
            assert forall|i: int| 0 <= i < more.len() implies b.done[i] == refs[#[trigger] more[i]]
                && b.edits[i] == edit_at(s, refs[more[i]], to[more[i]]) by {
                if i < with.len() {
                    assert(more[i] == with[i]);
                }
            }
            (more, without)
        } else {
            let more = without.push(n - 1);
            assert forall|i: int| 0 <= i < more.len() implies move_fault(
                s,
                refs[#[trigger] more[i]],
                b.errors[i],
            ) by {
                if i < without.len() {
                    assert(more[i] == without[i]);
                }
            }
            (with, more)
        }
    }
}

/// Components that can be moved together: each has a designator without an opening
/// parenthesis and goes to a place written in numbers, each position that is found is
/// one of its own, and no two of them are the same.
pub open spec fn movable_together(s: Seq<u8>, refs: Seq<Seq<char>>, to: Seq<NewPlace>) -> bool {
    &&& refs.len() == to.len()
    &&& forall|i: int|
        #![trigger refs[i]]
        0 <= i < refs.len() ==> is_name(refs[i]) && in_numbers(to[i]) && (move_target(
            s,
            refs[i],
        ) is At ==> stands(s, refs[i]))
    &&& forall|i: int, j: int|
        #![trigger refs[i], refs[j]]
        0 <= i < j < refs.len() && move_target(s, refs[i]) is At && move_target(s, refs[j]) is At
            ==> move_target(s, refs[i])->start != move_target(s, refs[j])->start
}

/// Component `i` once the edits from byte `limit` on are made: it stands where it
/// stood, or at its new place.
#[verifier::opaque]
spec fn on_the_way(
    s: Seq<u8>,
    u: Seq<u8>,
    reference: Seq<char>,
    to: NewPlace,
    limit: int,
) -> bool {
    &&& stands(u, reference)
    &&& if move_target(s, reference)->start < limit {
        move_target(u, reference) == move_target(s, reference)
    } else {
        reads_at(u, reference, to) && move_target(u, reference)->start >= limit
    }
}

spec fn limit_of(s: Seq<u8>, d: Seq<Splice>, k: int) -> int {
    if k < d.len() {
        d[k].start
    } else {
        s.len() as int + 1
    }
}

/// The edits are exactly the moves, in order.
#[verifier::opaque]
spec fn are_moves(s: Seq<u8>, refs: Seq<Seq<char>>, to: Seq<NewPlace>, d: Seq<Splice>) -> bool {
    &&& in_line(s, d, 0)
    &&& forall|i: int, j: int| 0 <= i < j < d.len() ==> (#[trigger] d[i]).start < (#[trigger] d[j]).start
    &&& forall|m: int| 0 <= m < d.len() ==> moves_one(s, refs, to, #[trigger] d[m])
    &&& forall|i: int|
        0 <= i < refs.len() && move_target(s, #[trigger] refs[i]) is At ==> d.contains(
            edit_at(s, refs[i], to[i]),
        )
}

/// An edit that moves a component.
spec fn moves_one(s: Seq<u8>, refs: Seq<Seq<char>>, to: Seq<NewPlace>, e: Splice) -> bool {
    exists|i: int|
        0 <= i < refs.len() && move_target(s, #[trigger] refs[i]) is At && e == edit_at(
            s,
            refs[i],
            to[i],
        )
}

/// With the edits from `k` on made, the one before them is made on top.
pub proof fn lemma_one_patch(s: Seq<u8>, d: Seq<Splice>, k: int)
    requires
        in_line(s, d, 0),
        0 <= k < d.len(),
    ensures
        patched(s, d.skip(k), 0) == replaced(
            patched(s, d.skip(k + 1), 0),
            d[k].start,
            d[k].end,
            d[k].bytes,
        ),
        d[k].end <= patched(s, d.skip(k + 1), 0).len(),
{
    let e = d[k];
    let f = d.skip(k + 1);
    let u = patched(s, f, 0);
    assert(crate::scan::cuttable(s, e.start, e.end));
    if f.len() > 0 {
        assert(f[0] == d[k + 1]);
        assert(d[k].end <= d[k + 1].start);
        assert(crate::scan::cuttable(s, d[k + 1].start, d[k + 1].end));
    }
    lemma_patched_split(s, f, e.end);
    assert(d.skip(k)[0] == e);
    assert(d.skip(k).drop_first() =~= f);
    assert(patched(s, d.skip(k), 0) =~= replaced(u, e.start, e.end, e.bytes));
}

proof fn lemma_sheet_tag()
    ensures
        crate::placing::is_tag("kicad_sch"@),
        bytes("kicad_sch"@)[0] != 97,
{
    reveal_strlit("kicad_sch");
    crate::placing::lemma_tag_chars("kicad_sch"@);
    lemma_bytes_ascii("kicad_sch"@);
}

/// The component that an edit moves.
proof fn lemma_mover(s: Seq<u8>, refs: Seq<Seq<char>>, to: Seq<NewPlace>, d: Seq<Splice>, k: int) -> (m:
    int)
    requires
        are_moves(s, refs, to, d),
        0 <= k < d.len(),
    ensures
        0 <= m < refs.len(),
        move_target(s, refs[m]) is At,
        d[k] == edit_at(s, refs[m], to[m]),
        in_line(s, d, 0),
        0 <= d[k].start < limit_of(s, d, k + 1),
{
    reveal(are_moves);
    assert(crate::scan::cuttable(s, d[k].start, d[k].end));
    if k + 1 < d.len() {
        assert(d[k].start < d[k + 1].start);
    }
    assert(moves_one(s, refs, to, d[k]));
    choose|m: int|
        0 <= m < refs.len() && move_target(s, #[trigger] refs[m]) is At && d[k] == edit_at(
            s,
            refs[m],
            to[m],
        )
}

/// A component that is moved before the edits from `k + 1` on, and not by edit `k`, is
/// moved before edit `k`.
proof fn lemma_before(s: Seq<u8>, refs: Seq<Seq<char>>, to: Seq<NewPlace>, d: Seq<Splice>, k: int, i: int)
    requires
        are_moves(s, refs, to, d),
        0 <= k < d.len(),
        0 <= i < refs.len(),
        move_target(s, refs[i]) is At,
        move_target(s, refs[i])->start < limit_of(s, d, k + 1),
    ensures
        move_target(s, refs[i])->start <= d[k].start,
{
    reveal(are_moves);
    assert(d.contains(edit_at(s, refs[i], to[i])));
    let x = choose|x: int| 0 <= x < d.len() && #[trigger] d[x] == edit_at(s, refs[i], to[i]);
    if x > k + 1 {
        assert(d[k + 1].start < d[x].start);
    } else if x < k {
        assert(d[x].start < d[k].start);
    }
}

/// A component that is on the way stays so when the position of another is exchanged.
proof fn lemma_other_on(
    s: Seq<u8>,
    c: Seq<char>,
    a: int,
    b: int,
    w: Seq<char>,
    reference: Seq<char>,
    to: NewPlace,
    limit: int,
)
    requires
        exchanges(c, a, b, w),
        is_name(reference),
        on_the_way(s, bytes(c), reference, to, limit),
        move_target(s, reference)->start < limit ==> move_target(s, reference)->start < a + 4,
        a + 4 < limit,
        move_target(s, reference)->start != a + 4,
    ensures
        on_the_way(s, swap(bytes(c), a, b, bytes(w)), reference, to, a + 4),
{
    reveal(on_the_way);
    let u = bytes(c);
    lemma_others_stay(c, a, b, w, reference);
    assert(bytes(w).len() > 4);
}

/// A component whose own position is exchanged is at its new place.
proof fn lemma_own_on(s: Seq<u8>, c: Seq<char>, reference: Seq<char>, to: NewPlace, e: Splice, limit: int)
    requires
        is_name(reference),
        in_numbers(to),
        on_the_way(s, bytes(c), reference, to, limit),
        e == edit_at(s, reference, to),
        e.start < limit,
        move_target(s, reference) is At,
    ensures
        ({
            let w = "(at "@ + place_text(to) + ")"@;
            let t = replaced(bytes(c), e.start, e.end, e.bytes);
            &&& exchanges(c, e.start - 4, e.end + 1, w)
            &&& t == swap(bytes(c), e.start - 4, e.end + 1, bytes(w))
            &&& on_the_way(s, t, reference, to, e.start)
        }),
{
    reveal(on_the_way);
    lemma_moved_reads(c, reference, to);
}

/// With the edits from `k` on made, every component is on the way.
proof fn lemma_on_the_way(
    c: Seq<char>,
    refs: Seq<Seq<char>>,
    to: Seq<NewPlace>,
    d: Seq<Splice>,
    k: int,
)
    requires
        movable_together(bytes(c), refs, to),
        are_moves(bytes(c), refs, to, d),
        is_document(bytes(c), bytes("kicad_sch"@)),
        0 <= k <= d.len(),
    ensures
        ({
            let u = patched(bytes(c), d.skip(k), 0);
            &&& bytes(text_of(u)) == u
            &&& is_document(u, bytes("kicad_sch"@))
            &&& forall|i: int|
                0 <= i < refs.len() && move_target(bytes(c), #[trigger] refs[i]) is At ==> on_the_way(
                    bytes(c),
                    u,
                    refs[i],
                    to[i],
                    limit_of(bytes(c), d, k),
                )
        }),
    decreases d.len() - k,
{
    let s = bytes(c);
    if k == d.len() {
        let u = patched(s, d.skip(k), 0);
        assert(u =~= s);
        lemma_bytes_valid(c);
        assert forall|i: int| 0 <= i < refs.len() && move_target(s, #[trigger] refs[i]) is At implies on_the_way(
            s,
            u,
            refs[i],
            to[i],
            limit_of(s, d, k),
        ) by {
            reveal(on_the_way);
            assert(stands(s, refs[i]));
        }
    } else {
        lemma_on_the_way(c, refs, to, d, k + 1);
        let u = patched(s, d.skip(k + 1), 0);
        let e = d[k];
        let m = lemma_mover(s, refs, to, d, k);
        lemma_one_patch(s, d, k);
        assert(is_name(refs[m]) && in_numbers(to[m]));
        lemma_own_on(s, text_of(u), refs[m], to[m], e, limit_of(s, d, k + 1));
        let w = "(at "@ + place_text(to[m]) + ")"@;
        let (a, b) = (e.start - 4, e.end + 1);
        let t = patched(s, d.skip(k), 0);
        assert forall|i: int| 0 <= i < refs.len() && move_target(s, #[trigger] refs[i]) is At implies on_the_way(
            s,
            t,
            refs[i],
            to[i],
            limit_of(s, d, k),
        ) by {
            if i != m {
                assert(is_name(refs[i]));
                if move_target(s, refs[i])->start < limit_of(s, d, k + 1) {
                    lemma_before(s, refs, to, d, k, i);
                }
                lemma_other_on(s, text_of(u), a, b, w, refs[i], to[i], limit_of(s, d, k + 1));
            }
        }
        lemma_exchange(text_of(u), a, b, w);
        lemma_sheet_tag();
        lemma_document_along(text_of(u), a, b, w, "kicad_sch"@);
    }
}

/// Two components that stand in different places stand apart.
proof fn lemma_stand_apart(c: Seq<char>, one: Seq<char>, other: Seq<char>)
    requires
        stands(bytes(c), one),
        stands(bytes(c), other),
        move_target(bytes(c), one)->start != move_target(bytes(c), other)->start,
    ensures
        move_target(bytes(c), one)->end <= move_target(bytes(c), other)->start || move_target(
            bytes(c),
            other,
        )->end <= move_target(bytes(c), one)->start,
        crate::scan::cuttable(
            bytes(c),
            move_target(bytes(c), one)->start,
            move_target(bytes(c), one)->end,
        ),
{
    let s = bytes(c);
    let (a, b) = (move_target(s, one)->start - 4, move_target(s, one)->end + 1);
    let (p, q) = (move_target(s, other)->start - 4, move_target(s, other)->end + 1);
    lemma_at_apart(s, a, b, p);
    lemma_at_apart(s, p, q, a);
    lemma_stands_cut(c, one);
}

proof fn lemma_stands_cut(c: Seq<char>, reference: Seq<char>)
    requires
        stands(bytes(c), reference),
    ensures
        crate::scan::cuttable(
            bytes(c),
            move_target(bytes(c), reference)->start,
            move_target(bytes(c), reference)->end,
        ),
{
    let s = bytes(c);
    let (p, q) = (move_target(s, reference)->start, move_target(s, reference)->end);
    lemma_at_bytes(s, p - 4);
    lemma_ascii_boundary(c, p - 1);
    lemma_ascii_boundary(c, q);
}

/// The moves fit the schematic.
proof fn lemma_moves_fit(c: Seq<char>, refs: Seq<Seq<char>>, to: Seq<NewPlace>)
    requires
        movable_together(bytes(c), refs, to),
    ensures
        ({
            let es = moves(bytes(c), refs, to, refs.len() as int).edits;
            &&& edits_fit(bytes(c), es)
            &&& forall|i: int, j: int|
                0 <= i < j < es.len() ==> (#[trigger] es[i]).start != (#[trigger] es[j]).start
        }),
{
    let s = bytes(c);
    let n = refs.len() as int;
    let es = moves(s, refs, to, n).edits;
    let (with, _) = lemma_moves(s, refs, to, n);
    assert forall|i: int| 0 <= i < es.len() implies crate::scan::cuttable(
        s,
        (#[trigger] es[i]).start,
        es[i].end,
    ) by {
        let k = with[i];
        assert(with.contains(k));
        assert(stands(s, refs[k]));
        lemma_stands_cut(c, refs[k]);
    }
    assert forall|i: int, j: int| 0 <= i < j < es.len() implies crate::edit::apart(
        #[trigger] es[i],
        #[trigger] es[j],
    ) && es[i].start != es[j].start by {
        let (k, l) = (with[i], with[j]);
        assert(with.contains(k) && with.contains(l));
        assert(k < l);
        assert(stands(s, refs[k]) && stands(s, refs[l]));
        lemma_stand_apart(c, refs[k], refs[l]);
    }
}

/// An edit among those that are sorted moves a component.
proof fn lemma_edit_moves(s: Seq<u8>, refs: Seq<Seq<char>>, to: Seq<NewPlace>, d: Seq<Splice>, m: int) -> (i:
    int)
    requires
        forall|x: Splice| #[trigger]
            d.contains(x) ==> moves(s, refs, to, refs.len() as int).edits.contains(x),
        0 <= m < d.len(),
    ensures
        0 <= i < refs.len(),
        move_target(s, refs[i]) is At,
        d[m] == edit_at(s, refs[i], to[i]),
{
    let es = moves(s, refs, to, refs.len() as int).edits;
    let (with, _) = lemma_moves(s, refs, to, refs.len() as int);
    assert(d.contains(d[m]));
    let x = choose|x: int| 0 <= x < es.len() && es[x] == d[m];
    assert(with.contains(with[x]));
    with[x]
}

/// A component with a position is moved by an edit among those that are sorted.
proof fn lemma_moved_by(s: Seq<u8>, refs: Seq<Seq<char>>, to: Seq<NewPlace>, i: int) -> (m: int)
    requires
        0 <= i < refs.len(),
        move_target(s, refs[i]) is At,
    ensures
        ({
            let d = sort_edits(moves(s, refs, to, refs.len() as int).edits);
            0 <= m < d.len() && d[m] == edit_at(s, refs[i], to[i])
        }),
{
    let es = moves(s, refs, to, refs.len() as int).edits;
    let d = sort_edits(es);
    let (with, _) = lemma_moves(s, refs, to, refs.len() as int);
    assert(with.contains(i));
    let x = choose|x: int| 0 <= x < with.len() && with[x] == i;
    assert(es[x] == edit_at(s, refs[with[x]], to[with[x]]));
    assert(es.contains(es[x]));
    lemma_sort_keeps(es, es[x]);
    choose|m: int| 0 <= m < d.len() && d[m] == es[x]
}

/// The moves are the edits that are made.
proof fn lemma_moves_sorted(c: Seq<char>, refs: Seq<Seq<char>>, to: Seq<NewPlace>)
    requires
        movable_together(bytes(c), refs, to),
    ensures
        are_moves(
            bytes(c),
            refs,
            to,
            sort_edits(moves(bytes(c), refs, to, refs.len() as int).edits),
        ),
{
    reveal(are_moves);
    let s = bytes(c);
    let es = moves(s, refs, to, refs.len() as int).edits;
    lemma_moves_fit(c, refs, to);
    crate::text::lemma_ends(c);
    let d = sort_edits(es);
    lemma_sorted_in_line(s, es);
    lemma_sorted_rises(s, es);
    assert forall|m: int| 0 <= m < d.len() implies moves_one(s, refs, to, #[trigger] d[m]) by {
        let i = lemma_edit_moves(s, refs, to, d, m);
        assert(move_target(s, refs[i]) is At);
    }
    assert forall|i: int| 0 <= i < refs.len() && move_target(s, #[trigger] refs[i]) is At implies d.contains(
        edit_at(s, refs[i], to[i]),
    ) by {
        let m = lemma_moved_by(s, refs, to, i);
        assert(d[m] == edit_at(s, refs[i], to[i]));
    }
}

/// Every component is accounted for: those that have a position are reported as moved,
/// in order, and each of the others has its error, in order.
pub proof fn law_every_component_is_accounted_for(
    s: Seq<u8>,
    refs: Seq<Seq<char>>,
    to: Seq<NewPlace>,
    file: Seq<char>,
    r: Result<BatchOutcome, String>,
) -> (parts: (Seq<int>, Seq<int>))
    requires
        finished(r, moves(s, refs, to, refs.len() as int), s, file),
        r is Ok,
    ensures
        ({
            let (with, without) = parts;
            &&& parted(s, refs, refs.len() as int, with, without)
            &&& r->Ok_0.done@.len() == with.len()
            &&& r->Ok_0.errors@.len() == without.len()
            &&& r->Ok_0.content is None == (with.len() == 0)
            &&& forall|i: int| 0 <= i < with.len() ==> r->Ok_0.done@[i]@ == refs[#[trigger] with[i]]
            &&& forall|i: int|
                0 <= i < without.len() ==> move_fault(
                    s,
                    refs[#[trigger] without[i]],
                    r->Ok_0.errors@[i]@,
                )
        }),
{
    let (with, without) = lemma_moves(s, refs, to, refs.len() as int);
    let (done, errors) = (r->Ok_0.done@, r->Ok_0.errors@);
    assert(texts(done).len() == done.len() && texts(errors).len() == errors.len());
    assert forall|i: int| 0 <= i < with.len() implies done[i]@ == refs[#[trigger] with[i]] by {
        assert(texts(done)[i] == done[i]@);
    }
    assert forall|i: int| 0 <= i < without.len() implies move_fault(
        s,
        refs[#[trigger] without[i]],
        errors[i]@,
    ) by {
        assert(texts(errors)[i] == errors[i]@);
    }
    (with, without)
}

/// After components are moved together, each of them that had a position is found by
/// its designator again and reads as standing at the place it was sent to, turned as
/// it was asked to be. Nothing but the schematic's own faults stops the move.
pub proof fn law_moved_components_read_back(
    c: Seq<char>,
    refs: Seq<Seq<char>>,
    to: Seq<NewPlace>,
    file: Seq<char>,
    r: Result<BatchOutcome, String>,
)
    requires
        finished(r, moves(bytes(c), refs, to, refs.len() as int), bytes(c), file),
        movable_together(bytes(c), refs, to),
        is_document(bytes(c), bytes("kicad_sch"@)),
    ensures
        r is Ok,
        forall|i: int|
            0 <= i < refs.len() && move_target(bytes(c), #[trigger] refs[i]) is At ==> (
            r->Ok_0.content matches Some(t) && reads_at(bytes(t@), refs[i], to[i])),
{
    let s = bytes(c);
    let b = moves(s, refs, to, refs.len() as int);
    let (with, _) = lemma_moves(s, refs, to, refs.len() as int);
    if b.edits.len() > 0 {
        lemma_moves_fit(c, refs, to);
        lemma_moves_sorted(c, refs, to);
        let d = sort_edits(b.edits);
        lemma_on_the_way(c, refs, to, d, 0);
        assert(d.skip(0) =~= d);
        crate::text::lemma_ends(c);
        lemma_sorted_in_line(s, b.edits);
        assert forall|i: int| 0 <= i < refs.len() && move_target(s, #[trigger] refs[i]) is At implies reads_at(
            edited(s, b.edits),
            refs[i],
            to[i],
        ) by {
            lemma_from_first(s, refs, to, d, i);
            reveal(on_the_way);
        }
    } else {
        assert forall|i: int| 0 <= i < refs.len() implies !(move_target(s, #[trigger] refs[i]) is At) by {
            assert(!with.contains(i));
        }
    }
}

/// No component is moved before the first edit.
proof fn lemma_from_first(s: Seq<u8>, refs: Seq<Seq<char>>, to: Seq<NewPlace>, d: Seq<Splice>, i: int)
    requires
        are_moves(s, refs, to, d),
        d.len() > 0,
        0 <= i < refs.len(),
        move_target(s, refs[i]) is At,
    ensures
        move_target(s, refs[i])->start >= limit_of(s, d, 0),
{
    reveal(are_moves);
    assert(d.contains(edit_at(s, refs[i], to[i])));
    let x = choose|x: int| 0 <= x < d.len() && #[trigger] d[x] == edit_at(s, refs[i], to[i]);
    if x > 0 {
        assert(d[0].start < d[x].start);
    }
}

} // verus!
