//! Moving a footprint changes nothing but its own position, so that moving it
//! there and back leaves the board's file as it was, byte for byte.

use crate::at_node::{all_numbers, at_node, word_end, words_in, At};
use crate::blocks::{
    bare_end, children, children_from, skip_to, tag_byte, tag_end, tag_text, token_at,
};
use crate::chars::{blank, digit, digit_run, is_white};
use crate::components::{footprint_named, moved_board, key_index, present, Key};
use crate::edit::{edited, edits_fit, law_one_edit, law_two_edits, Splice};
use crate::footprint::{
    board_footprints, footprint_at, footprint_header, footprints_of, quoted_token, token_text,
    with_child, with_children, Footprint,
};
use crate::grammar::between;
use crate::number::{is_decimal, is_number, lower, sign};
use crate::placing::{
    is_tag, lemma_ascii_char, lemma_first_char, lemma_inner_closes, lemma_kicad_pcb, lemma_root,
    lemma_skip_blank_is, starts_item,
};
use crate::scan::{
    block_end, closes_at, cuttable, is_document, lemma_block_end, lemma_block_end_is,
    lemma_block_moved, lemma_depth_bound, lemma_lex_over_block, lemma_lex_same, lex, lex_step, outside,
    skip_blank, top_level_starts, Lex, CLOSE, OPEN, QUOTE,
};
use crate::sexp::{escaped, string_close, unescaped};
use crate::substitution::{
    lemma_same_range, lemma_swap_children, lemma_swap_closes, lemma_swap_starts, lemma_swap_tag,
    lemma_swap_text, moved, moved_all, moved_starts, swap, swaps,
};
use crate::text::{
    bytes, first_byte, lemma_ascii_boundary, lemma_between_cuts, lemma_bytes_ascii, lemma_bytes_valid,
    lemma_first_byte, matches_at, text_of,
};
use vstd::prelude::*;
use vstd::utf8::*;

verus! {

// ─── Numbers ─────────────────────────────────────────────────────────────────

proof fn lemma_digit_run(s: Seq<u8>, from: int)
    requires
        0 <= from <= s.len(),
    ensures
        0 <= digit_run(s, from) <= s.len() - from,
        forall|k: int| from <= k < from + digit_run(s, from) ==> digit(#[trigger] s[k]),
    decreases s.len() - from,
{
    if from < s.len() && digit(s[from]) {
        lemma_digit_run(s, from + 1);
    }
}

/// A byte that can stand in a number.
pub open spec fn number_byte(b: u8) -> bool {
    digit(b) || sign(b) || b == 46 || (65 <= b <= 90) || (97 <= b <= 122)
}

proof fn lemma_word_bytes(s: Seq<u8>, from: int, word: Seq<char>)
    requires
        0 <= from <= s.len(),
        crate::number::is_word(s, from, bytes(word)),
        forall|k: int| 0 <= k < bytes(word).len() ==> 97 <= #[trigger] bytes(word)[k] <= 122,
    ensures
        forall|k: int| from <= k < s.len() ==> number_byte(#[trigger] s[k]),
{
    assert forall|k: int| from <= k < s.len() implies number_byte(#[trigger] s[k]) by {
        assert(lower(s[from + (k - from)]) == bytes(word)[k - from]);
    }
}

/// A number is made of digits, signs, points and letters.
pub proof fn lemma_number_bytes(s: Seq<u8>)
    requires
        is_number(s),
    ensures
        s.len() > 0,
        forall|k: int| 0 <= k < s.len() ==> number_byte(#[trigger] s[k]),
{
    let from: int = if s.len() > 0 && sign(s[0]) {
        1
    } else {
        0
    };
    reveal_strlit("inf");
    reveal_strlit("infinity");
    reveal_strlit("nan");
    lemma_letters("inf"@);
    lemma_letters("infinity"@);
    lemma_letters("nan"@);
    if is_decimal(s, from) {
        let whole = digit_run(s, from);
        lemma_digit_run(s, from);
        let point = from + whole;
        let dotted = point < s.len() && s[point] == 46;
        if dotted {
            lemma_digit_run(s, point + 1);
        }
        let end = if dotted {
            point + 1 + digit_run(s, point + 1)
        } else {
            point
        };
        assert forall|k: int| 0 <= k < end implies number_byte(#[trigger] s[k]) by {
            if k >= from && k < point {
                assert(digit(s[k]));
            } else if k > point {
                assert(digit(s[k]));
            }
        }
        if end < s.len() {
            let j = if end + 1 < s.len() && sign(s[end + 1]) {
                end + 2
            } else {
                end + 1
            };
            lemma_digit_run(s, j);
            assert forall|k: int| end <= k < s.len() implies number_byte(#[trigger] s[k]) by {
                if k >= j {
                    assert(digit(s[k]));
                }
            }
        }
    } else if crate::number::is_word(s, from, bytes("inf"@)) {
        lemma_word_bytes(s, from, "inf"@);
    } else if crate::number::is_word(s, from, bytes("infinity"@)) {
        lemma_word_bytes(s, from, "infinity"@);
    } else {
        lemma_word_bytes(s, from, "nan"@);
    }
}

proof fn lemma_letters(t: Seq<char>)
    requires
        forall|k: int| 0 <= k < t.len() ==> 'a' <= #[trigger] t[k] <= 'z',
    ensures
        forall|k: int| 0 <= k < bytes(t).len() ==> 97 <= #[trigger] bytes(t)[k] <= 122,
{
    assert(is_ascii_chars(t));
    lemma_bytes_ascii(t);
    assert forall|k: int| 0 <= k < bytes(t).len() implies 97 <= #[trigger] bytes(t)[k] <= 122 by {
        assert('a' <= t[k] <= 'z');
        crate::grammar::lemma_char_bytes(t[k]);
        assert(bytes(t)[k] == t[k] as u8);
    }
}

// ─── Words between white space ───────────────────────────────────────────────

proof fn lemma_word_end_is(s: Seq<u8>, i: int, stop: int)
    requires
        0 <= i <= stop,
    ensures
        i <= word_end(s, i, stop) <= stop,
        forall|k: int| i <= k < word_end(s, i, stop) ==> !blank(#[trigger] s[k]),
        word_end(s, i, stop) < stop ==> blank(s[word_end(s, i, stop)]),
    decreases stop - i,
{
    if i < stop && !blank(s[i]) {
        lemma_word_end_is(s, i + 1, stop);
    }
}

proof fn lemma_word_ends(s: Seq<u8>, i: int, v: int, stop: int)
    requires
        0 <= i <= v <= stop,
        forall|k: int| i <= k < v ==> !blank(#[trigger] s[k]),
        v == stop || blank(s[v]),
    ensures
        word_end(s, i, stop) == v,
    decreases v - i,
{
    if i < v {
        assert(!blank(s[i]));
        lemma_word_ends(s, i + 1, v, stop);
    }
}

/// The first word: what is before it, where it ends, and what follows.
proof fn lemma_first_word(s: Seq<u8>, i: int, stop: int)
    requires
        0 <= i <= stop,
        words_in(s, i, stop).len() > 0,
    ensures
        ({
            let (u, v) = words_in(s, i, stop)[0];
            &&& i <= u < v <= stop
            &&& forall|k: int| i <= k < u ==> blank(#[trigger] s[k])
            &&& forall|k: int| u <= k < v ==> !blank(#[trigger] s[k])
            &&& v == stop || blank(s[v])
            &&& words_in(s, i, stop) == seq![(u, v)] + words_in(s, v, stop)
        }),
    decreases stop - i,
{
    if i < stop && blank(s[i]) {
        lemma_first_word(s, i + 1, stop);
    } else if i < stop {
        lemma_word_end_is(s, i + 1, stop);
    }
}

/// A word after white space is the first one.
proof fn lemma_word_stands(s: Seq<u8>, i: int, u: int, v: int, stop: int)
    requires
        0 <= i <= u < v <= stop,
        forall|k: int| i <= k < u ==> blank(#[trigger] s[k]),
        forall|k: int| u <= k < v ==> !blank(#[trigger] s[k]),
        v == stop || blank(s[v]),
    ensures
        words_in(s, i, stop) == seq![(u, v)] + words_in(s, v, stop),
    decreases u - i,
{
    if i < u {
        assert(blank(s[i]));
        lemma_word_stands(s, i + 1, u, v, stop);
    } else {
        assert(!blank(s[u]));
        lemma_word_ends(s, u + 1, v, stop);
    }
}

proof fn lemma_no_words(s: Seq<u8>, i: int, stop: int)
    requires
        0 <= i <= stop,
    ensures
        words_in(s, i, stop).len() == 0 <==> (forall|k: int| i <= k < stop ==> blank(#[trigger] s[k])),
    decreases stop - i,
{
    if i < stop {
        if blank(s[i]) {
            lemma_no_words(s, i + 1, stop);
        } else {
            lemma_word_end_is(s, i + 1, stop);
            assert(!blank(s[i]));
        }
    }
}

// ─── Tokens, moved along ─────────────────────────────────────────────────────

proof fn lemma_skip_shift(s: Seq<u8>, t: Seq<u8>, i: int, stop: int, d: int)
    requires
        0 <= i,
        forall|k: int| i <= k < stop ==> #[trigger] s[k] == t[k + d],
    ensures
        skip_to(s, i, stop) + d == skip_to(t, i + d, stop + d),
        i <= skip_to(s, i, stop),
        i <= stop ==> skip_to(s, i, stop) <= stop,
    decreases stop - i,
{
    if i < stop {
        assert(s[i] == t[i + d]);
        if blank(s[i]) {
            lemma_skip_shift(s, t, i + 1, stop, d);
        }
    }
}

proof fn lemma_bare_shift(s: Seq<u8>, t: Seq<u8>, i: int, stop: int, d: int)
    requires
        0 <= i <= stop,
        forall|k: int| i <= k < stop ==> #[trigger] s[k] == t[k + d],
    ensures
        bare_end(s, i, stop) + d == bare_end(t, i + d, stop + d),
        i <= bare_end(s, i, stop) <= stop,
    decreases stop - i,
{
    if i < stop {
        assert(s[i] == t[i + d]);
        if !blank(s[i]) && s[i] != OPEN && s[i] != CLOSE {
            lemma_bare_shift(s, t, i + 1, stop, d);
        }
    }
}

pub proof fn lemma_escaped_shift(s: Seq<u8>, t: Seq<u8>, from: int, to: int, d: int)
    requires
        0 <= from,
        forall|k: int| from <= k < to ==> #[trigger] s[k] == t[k + d],
    ensures
        escaped(s, from, to) == escaped(t, from + d, to + d),
        unescaped(s, from, to) == unescaped(t, from + d, to + d),
    decreases to - from,
{
    if from < to {
        assert(s[to - 1] == t[to - 1 + d]);
        lemma_escaped_shift(s, t, from, to - 1, d);
    }
}

proof fn lemma_close_shift(s: Seq<u8>, t: Seq<u8>, from: int, i: int, stop: int, d: int)
    requires
        0 <= from <= i,
        forall|k: int| from <= k < stop ==> #[trigger] s[k] == t[k + d],
    ensures
        match string_close(s, from, i, stop) {
            Some(e) => string_close(t, from + d, i + d, stop + d) == Some(e + d) && i <= e < stop,
            None => string_close(t, from + d, i + d, stop + d).is_none(),
        },
    decreases stop - i,
{
    if i < stop {
        assert(s[i] == t[i + d]);
        lemma_escaped_shift(s, t, from, i, d);
        if !(s[i] == QUOTE && !escaped(s, from, i)) {
            lemma_close_shift(s, t, from, i + 1, stop, d);
        }
    }
}

/// A token reads the same wherever its bytes stand.
pub proof fn lemma_token_shift(s: Seq<u8>, t: Seq<u8>, from: int, stop: int, d: int)
    requires
        0 <= from,
        0 <= from + d,
        stop <= s.len(),
        stop + d <= t.len(),
        forall|k: int| from <= k < stop ==> #[trigger] s[k] == t[k + d],
    ensures
        match token_at(s, from, stop) {
            Some((x, a, b)) => token_at(t, from + d, stop + d) == Some((x, a + d, b + d)) && from <= a < b
                <= stop,
            None => token_at(t, from + d, stop + d).is_none(),
        },
        token_text(s, from, stop) == token_text(t, from + d, stop + d),
        match quoted_token(s, from, stop) {
            Some((x, a, b)) => quoted_token(t, from + d, stop + d) == Some((x, a + d, b + d)),
            None => quoted_token(t, from + d, stop + d).is_none(),
        },
{
    lemma_skip_shift(s, t, from, stop, d);
    let i = skip_to(s, from, stop);
    if i < stop {
        assert(s[i] == t[i + d]);
        if s[i] == QUOTE {
            lemma_close_shift(s, t, i + 1, i + 1, stop, d);
            if let Some(e) = string_close(s, i + 1, i + 1, stop) {
                lemma_escaped_shift(s, t, i + 1, e, d);
            }
        } else {
            lemma_bare_shift(s, t, i, stop, d);
            let j = bare_end(s, i, stop);
            lemma_same_range(s, t, i, j, d);
        }
    }
}

// ─── What a footprint is known by ────────────────────────────────────────────

/// What a key and a move look at: the reference, the uuid, and the children whose
/// coordinates are absolute.
pub open spec fn known_by(fp: Footprint) -> (Option<Seq<char>>, Option<Seq<char>>, Seq<Seq<char>>) {
    (fp.reference, fp.uuid, fp.absolute_children)
}

pub proof fn lemma_tag_text_shift(s: Seq<u8>, t: Seq<u8>, q: int, f: int, d: int)
    requires
        closes_at(s, q, f),
        0 <= q + d,
        f + d <= t.len(),
        forall|k: int| q <= k < f ==> #[trigger] s[k] == t[k + d],
    ensures
        tag_text(s, q) == tag_text(t, q + d),
        tag_end(s, q + 1) < f,
{
    lemma_block_end(s, q, f);
    lemma_block_end_is(s, q);
    lemma_tag_end_shift(s, t, q + 1, f - 1, d);
    lemma_same_range(s, t, q + 1, tag_end(s, q + 1), d);
}

proof fn lemma_tag_end_shift(s: Seq<u8>, t: Seq<u8>, i: int, p: int, d: int)
    requires
        0 <= i <= p < s.len(),
        0 <= i + d,
        p + d < t.len(),
        forall|k: int| i <= k <= p ==> #[trigger] s[k] == t[k + d],
        !tag_byte(s[p]),
    ensures
        tag_end(s, i) + d == tag_end(t, i + d),
        i <= tag_end(s, i) <= p,
    decreases p - i,
{
    assert(s[i] == t[i + d]);
    if tag_byte(s[i]) {
        lemma_tag_end_shift(s, t, i + 1, p, d);
    }
}

/// A child with the same bytes adds the same to what a footprint is known by.
proof fn lemma_child_known(
    s: Seq<u8>,
    t: Seq<u8>,
    x: Footprint,
    y: Footprint,
    q: int,
    f: int,
    d: int,
)
    requires
        closes_at(s, q, f),
        0 <= q + d,
        f + d <= t.len(),
        forall|k: int| q <= k < f ==> #[trigger] s[k] == t[k + d],
        known_by(x) == known_by(y),
    ensures
        known_by(with_child(s, x, q, f)) == known_by(with_child(t, y, q + d, f + d)),
{
    lemma_tag_text_shift(s, t, q, f, d);
    let tag = tag_text(s, q);
    if tag == "at"@ {
    } else if tag == "uuid"@ {
        lemma_token_shift(s, t, q + 5, f, d);
    } else if tag == "layer"@ {
    } else if tag == "property"@ {
        lemma_token_shift(s, t, q + 9, f, d);
        if let Some((name, _, name_end)) = token_at(s, q + 9, f) {
            lemma_token_shift(s, t, name_end, f, d);
        }
    } else {
    }
}

/// The children of a block with the same bytes are the same, moved along.
pub proof fn lemma_children_shift(s: Seq<u8>, t: Seq<u8>, st: int, pos: int, e: int, d: int)
    requires
        closes_at(s, st, e),
        st < pos <= e,
        0 <= st + d,
        e + d <= t.len(),
        forall|k: int| st <= k < e ==> #[trigger] s[k] == t[k + d],
    ensures
        children_from(s, st, pos, e).len() == children_from(t, st + d, pos + d, e + d).len(),
        forall|i: int|
            0 <= i < children_from(s, st, pos, e).len() ==> (#[trigger] children_from(
                t,
                st + d,
                pos + d,
                e + d,
            )[i]) == (children_from(s, st, pos, e)[i].0 + d, children_from(s, st, pos, e)[i].1 + d),
    decreases e - pos,
{
    if pos < e {
        assert(s[pos] == t[pos + d]);
        lemma_lex_same(s, t, st, pos, d);
        if s[pos] == OPEN && !lex(s, st, pos).in_string {
            lemma_inner_closes(s, st, e, pos);
            let f = block_end(s, pos).unwrap();
            lemma_block_moved(s, t, pos, f, d);
            lemma_children_shift(s, t, st, f, e, d);
            let kids = children_from(s, st, pos, e);
            let mine = children_from(t, st + d, pos + d, e + d);
            let rest = children_from(s, st, f, e);
            let more = children_from(t, st + d, f + d, e + d);
            assert(kids == seq![(pos, f)] + rest);
            assert(mine == seq![(pos + d, f + d)] + more);
            assert forall|i: int| 0 <= i < kids.len() implies (#[trigger] mine[i]) == (
                kids[i].0 + d,
                kids[i].1 + d,
            ) by {
                if i > 0 {
                    assert(mine[i] == more[i - 1]);
                    assert(kids[i] == rest[i - 1]);
                }
            }
        } else {
            lemma_children_shift(s, t, st, pos + 1, e, d);
        }
    }
}

proof fn lemma_kids_known(
    s: Seq<u8>,
    t: Seq<u8>,
    x: Footprint,
    y: Footprint,
    kids: Seq<(int, int)>,
    mine: Seq<(int, int)>,
    n: int,
    d: int,
)
    requires
        0 <= n <= kids.len(),
        mine.len() == kids.len(),
        known_by(x) == known_by(y),
        forall|i: int|
            0 <= i < n ==> closes_at(s, (#[trigger] kids[i]).0, kids[i].1) && 0 <= kids[i].0 + d
                && kids[i].1 + d <= t.len(),
        forall|i: int| 0 <= i < n ==> (#[trigger] mine[i]) == (kids[i].0 + d, kids[i].1 + d),
        forall|i: int, k: int|
            0 <= i < n && (#[trigger] kids[i]).0 <= k < kids[i].1 ==> #[trigger] s[k] == t[k + d],
    ensures
        known_by(with_children(s, x, kids, n)) == known_by(with_children(t, y, mine, n)),
    decreases n,
{
    if n > 0 {
        lemma_kids_known(s, t, x, y, kids, mine, n - 1, d);
        let (q, f) = kids[n - 1];
        assert(mine[n - 1] == (q + d, f + d));
        assert(closes_at(s, kids[n - 1].0, kids[n - 1].1));
        assert forall|k: int| q <= k < f implies #[trigger] s[k] == t[k + d] by {
            assert(kids[n - 1].0 <= k < kids[n - 1].1);
        }
        lemma_child_known(
            s,
            t,
            with_children(s, x, kids, n - 1),
            with_children(t, y, mine, n - 1),
            q,
            f,
            d,
        );
    }
}

/// A footprint with the same bytes is known by the same.
proof fn lemma_footprint_known(s: Seq<u8>, t: Seq<u8>, q: int, e: int, d: int)
    requires
        closes_at(s, q, e),
        0 <= q + d,
        e + d <= t.len(),
        forall|k: int| q <= k < e ==> #[trigger] s[k] == t[k + d],
    ensures
        known_by(footprint_at(s, q, e)) == known_by(footprint_at(t, q + d, e + d)),
{
    let kids = children(s, q, e);
    let mine = children(t, q + d, e + d);
    lemma_children_shift(s, t, q, q + 1, e, d);
    assert(lex(s, q, q) == outside());
    assert(lex(s, q, q + 1) == lex_step(outside(), s[q]));
    crate::blocks::law_children_are_direct(s, q, q + 1, e);
    assert forall|i: int| 0 <= i < kids.len() implies closes_at(s, (#[trigger] kids[i]).0, kids[i].1)
        && 0 <= kids[i].0 + d && kids[i].1 + d <= t.len() && q < kids[i].0 && kids[i].1 < e by {
        assert(closes_at(s, children_from(s, q, q + 1, e)[i].0, kids[i].1));
    }
    assert forall|i: int, k: int|
        0 <= i < kids.len() && (#[trigger] kids[i]).0 <= k < kids[i].1 implies #[trigger] s[k] == t[k
        + d] by {
        assert(q < kids[i].0 && kids[i].1 < e);
    }
    lemma_kids_known(
        s,
        t,
        footprint_header(s, q, e),
        footprint_header(t, q + d, e + d),
        kids,
        mine,
        kids.len() as int,
        d,
    );
}

// ─── The layout of a position ────────────────────────────────────────────────

/// Only white space stands in a range.
pub open spec fn all_blank(s: Seq<u8>, i: int, j: int) -> bool {
    forall|k: int| i <= k < j ==> blank(#[trigger] s[k])
}

/// A number stands in a range.
pub open spec fn number_in(s: Seq<u8>, r: (int, int)) -> bool {
    0 <= r.0 < r.1 <= s.len() && is_number(s.subrange(r.0, r.1))
}

/// `(at` and two or three numbers with white space before each of them, in
/// `a..e`.
pub open spec fn laid(s: Seq<u8>, a: int, e: int, r: Seq<(int, int)>) -> bool {
    &&& 0 <= a && e <= s.len()
    &&& r.len() == 2 || r.len() == 3
    &&& s[a] == OPEN && s[a + 1] == 97 && s[a + 2] == 116 && s[e - 1] == CLOSE
    &&& a + 3 < r[0].0 && all_blank(s, a + 3, r[0].0)
    &&& number_in(s, r[0]) && number_in(s, r[1])
    &&& r[0].1 < r[1].0 && all_blank(s, r[0].1, r[1].0)
    &&& if r.len() == 2 {
        r[1].1 <= e - 1 && all_blank(s, r[1].1, e - 1)
    } else {
        r[1].1 < r[2].0 && all_blank(s, r[1].1, r[2].0) && number_in(s, r[2]) && r[2].1 <= e - 1
            && all_blank(s, r[2].1, e - 1)
    }
}

pub proof fn lemma_number_in(s: Seq<u8>, r: (int, int))
    requires
        number_in(s, r),
    ensures
        forall|k: int| r.0 <= k < r.1 ==> number_byte(#[trigger] s[k]),
{
    lemma_number_bytes(s.subrange(r.0, r.1));
    assert forall|k: int| r.0 <= k < r.1 implies number_byte(#[trigger] s[k]) by {
        assert(s.subrange(r.0, r.1)[k - r.0] == s[k]);
    }
}

/// A position that reads is laid out so.
pub proof fn lemma_at_is_laid(c: Seq<char>, start: int)
    requires
        0 <= start,
        at_node(bytes(c), start).is_some(),
    ensures
        ({
            let at = at_node(bytes(c), start).unwrap();
            laid(bytes(c), at.start, at.end, at.tokens)
        }),
{
    let s = bytes(c);
    let at = at_node(s, start).unwrap();
    let a = at.start;
    let e = at.end;
    let r = at.tokens;
    lemma_first_byte(s, OPEN, start);
    lemma_block_end_is(s, a);
    reveal_strlit("at");
    lemma_bytes_ascii("at"@);
    assert(bytes("at"@).len() == 2);
    assert(s[a + 1] == bytes("at"@)[0]) by {
        assert(s.subrange(a + 1, a + 3)[0] == s[a + 1]);
    }
    assert(s[a + 2] == bytes("at"@)[1]) by {
        assert(s.subrange(a + 1, a + 3)[1] == s[a + 2]);
    }
    let stop = e - 1;
    lemma_first_word(s, a + 3, stop);
    assert(is_number(s.subrange(r[0].0, r[0].1)));
    let rest = words_in(s, r[0].1, stop);
    assert(r =~= seq![r[0]] + rest);
    lemma_first_word(s, r[0].1, stop);
    assert(rest[0] == r[1]);
    assert(is_number(s.subrange(r[1].0, r[1].1)));
    let more = words_in(s, r[1].1, stop);
    assert(rest =~= seq![r[1]] + more);
    if r.len() == 2 {
        lemma_no_words(s, r[1].1, stop);
    } else {
        lemma_first_word(s, r[1].1, stop);
        assert(more[0] == r[2]);
        assert(is_number(s.subrange(r[2].0, r[2].1)));
        let last = words_in(s, r[2].1, stop);
        assert(more =~= seq![r[2]] + last);
        lemma_no_words(s, r[2].1, stop);
    }
    if r[0].0 == a + 3 {
        lemma_number_in(s, r[0]);
        assert(number_byte(s[a + 3]));
        lemma_ascii_char(c, a + 3);
        lemma_ascii_boundary(c, a + 3);
        lemma_ascii_boundary(c, e - 1);
        lemma_first_char(c, a + 3, e - 1);
        assert(!is_white(s[a + 3] as char));
    }
}

pub proof fn lemma_plain_lex(s: Seq<u8>, a: int, k: int)
    requires
        0 <= a < k <= s.len(),
        s[a] == OPEN,
        forall|i: int| a < i < k ==> #[trigger] s[i] != OPEN && s[i] != CLOSE && s[i] != QUOTE,
    ensures
        lex(s, a, k) == (Lex { depth: 1, in_string: false, escape: false }),
    decreases k - a,
{
    assert(lex(s, a, a) == outside());
    if k > a + 1 {
        lemma_plain_lex(s, a, k - 1);
        assert(s[k - 1] != OPEN);
    }
}

/// A position so laid out is a block.
pub proof fn lemma_laid_closes(s: Seq<u8>, a: int, e: int, r: Seq<(int, int)>)
    requires
        laid(s, a, e, r),
    ensures
        closes_at(s, a, e),
{
    lemma_number_in(s, r[0]);
    lemma_number_in(s, r[1]);
    if r.len() == 3 {
        lemma_number_in(s, r[2]);
    }
    assert forall|i: int| a < i < e - 1 implies #[trigger] s[i] != OPEN && s[i] != CLOSE && s[i]
        != QUOTE by {
        if a + 3 <= i && i < r[0].0 {
            assert(blank(s[i]));
        } else if i < a + 3 {
        } else if i < r[0].1 {
            assert(number_byte(s[i]));
        } else if i < r[1].0 {
            assert(blank(s[i]));
        } else if i < r[1].1 {
            assert(number_byte(s[i]));
        } else if r.len() == 2 {
            assert(blank(s[i]));
        } else if i < r[2].0 {
            assert(blank(s[i]));
        } else if i < r[2].1 {
            assert(number_byte(s[i]));
        } else {
            assert(blank(s[i]));
        }
    }
    assert forall|k: int| a < k < e implies (#[trigger] lex(s, a, k)).depth > 0 by {
        lemma_plain_lex(s, a, k);
    }
    lemma_plain_lex(s, a, e - 1);
    assert(lex(s, a, e) == lex_step(lex(s, a, e - 1), s[e - 1]));
}

/// A position so laid out reads.
pub proof fn lemma_laid_is_at(c: Seq<char>, a: int, e: int, r: Seq<(int, int)>)
    requires
        laid(bytes(c), a, e, r),
    ensures
        closes_at(bytes(c), a, e),
        at_node(bytes(c), a) == Some(At { start: a, end: e, tokens: r }),
{
    let s = bytes(c);
    let stop = e - 1;
    lemma_laid_closes(s, a, e, r);
    lemma_block_end(s, a, e);
    lemma_first_byte(s, OPEN, a);
    assert(first_byte(s, OPEN, a) == Some(a));
    reveal_strlit("at");
    lemma_bytes_ascii("at"@);
    assert(s.subrange(a + 1, a + 3) =~= bytes("at"@));
    assert(matches_at(s, a + 1, bytes("at"@)));
    lemma_number_in(s, r[0]);
    lemma_number_in(s, r[1]);
    lemma_word_stands(s, a + 3, r[0].0, r[0].1, stop);
    lemma_word_stands(s, r[0].1, r[1].0, r[1].1, stop);
    if r.len() == 2 {
        lemma_no_words(s, r[1].1, stop);
        assert(words_in(s, r[1].1, stop) =~= Seq::<(int, int)>::empty());
    } else {
        lemma_number_in(s, r[2]);
        lemma_word_stands(s, r[1].1, r[2].0, r[2].1, stop);
        lemma_no_words(s, r[2].1, stop);
        assert(words_in(s, r[2].1, stop) =~= Seq::<(int, int)>::empty());
    }
    assert(words_in(s, a + 3, stop) =~= r);
    assert(all_numbers(s, r)) by {
        assert forall|k: int| 0 <= k < r.len() implies is_number(
            s.subrange((#[trigger] r[k]).0, r[k].1),
        ) by {
            assert(k == 0 || k == 1 || k == 2);
        }
    }
    assert(blank(s[a + 3]));
    lemma_ascii_char(c, a + 3);
    lemma_ascii_boundary(c, a + 3);
    lemma_ascii_boundary(c, e - 1);
    lemma_first_char(c, a + 3, e - 1);
    assert(is_white(s[a + 3] as char));
}

// ─── A position with other numbers ───────────────────────────────────────────

/// The block of a position with its first two numbers written as `x` and `y`.
pub open spec fn placed(s: Seq<u8>, at: At, x: Seq<u8>, y: Seq<u8>) -> Seq<u8> {
    s.subrange(at.start, at.tokens[0].0) + x + s.subrange(at.tokens[0].1, at.tokens[1].0) + y
        + s.subrange(at.tokens[1].1, at.end)
}

/// Where the numbers of a position stand once the first two are `nx` and `ny`
/// bytes long.
pub open spec fn placed_tokens(r: Seq<(int, int)>, nx: int, ny: int) -> Seq<(int, int)> {
    let d = nx - (r[0].1 - r[0].0);
    let f = d + ny - (r[1].1 - r[1].0);
    let first = seq![(r[0].0, r[0].0 + nx), (r[1].0 + d, r[1].0 + d + ny)];
    if r.len() == 2 {
        first
    } else {
        first.push((r[2].0 + f, r[2].1 + f))
    }
}

/// Ranges, each moved by `d`.
pub open spec fn shifted(r: Seq<(int, int)>, d: int) -> Seq<(int, int)> {
    Seq::new(r.len(), |i: int| (r[i].0 + d, r[i].1 + d))
}

proof fn lemma_number_shift(s: Seq<u8>, t: Seq<u8>, r: (int, int), d: int)
    requires
        number_in(s, r),
        0 <= r.0 + d,
        r.1 + d <= t.len(),
        forall|k: int| r.0 <= k < r.1 ==> #[trigger] s[k] == t[k + d],
    ensures
        number_in(t, (r.0 + d, r.1 + d)),
{
    lemma_same_range(s, t, r.0, r.1, d);
}

proof fn lemma_blank_shift(s: Seq<u8>, t: Seq<u8>, i: int, j: int, d: int)
    requires
        all_blank(s, i, j),
        forall|k: int| i <= k < j ==> #[trigger] s[k] == t[k + d],
    ensures
        all_blank(t, i + d, j + d),
{
    assert forall|k: int| i + d <= k < j + d implies blank(#[trigger] t[k]) by {
        assert(blank(s[k - d]));
        assert(s[k - d] == t[k - d + d]);
    }
}

/// A position with the same bytes is laid out the same.
pub proof fn lemma_laid_shift(s: Seq<u8>, t: Seq<u8>, a: int, e: int, r: Seq<(int, int)>, d: int)
    requires
        laid(s, a, e, r),
        0 <= a + d,
        e + d <= t.len(),
        forall|k: int| a <= k < e ==> #[trigger] s[k] == t[k + d],
    ensures
        laid(t, a + d, e + d, shifted(r, d)),
{
    assert(s[a] == t[a + d]);
    assert(s[a + 1] == t[a + 1 + d]);
    assert(s[a + 2] == t[a + 2 + d]);
    assert(s[e - 1] == t[e - 1 + d]);
    lemma_blank_shift(s, t, a + 3, r[0].0, d);
    lemma_number_shift(s, t, r[0], d);
    lemma_blank_shift(s, t, r[0].1, r[1].0, d);
    lemma_number_shift(s, t, r[1], d);
    if r.len() == 2 {
        lemma_blank_shift(s, t, r[1].1, e - 1, d);
    } else {
        lemma_blank_shift(s, t, r[1].1, r[2].0, d);
        lemma_number_shift(s, t, r[2], d);
        lemma_blank_shift(s, t, r[2].1, e - 1, d);
    }
}

proof fn lemma_five(p: Seq<u8>, x: Seq<u8>, q: Seq<u8>, y: Seq<u8>, z: Seq<u8>)
    ensures
        ({
            let w = p + x + q + y + z;
            let i = p.len() as int;
            let j = i + x.len();
            let k = j + q.len();
            let l = k + y.len();
            &&& w.len() == l + z.len()
            &&& w.subrange(0, i) == p
            &&& w.subrange(i, j) == x
            &&& w.subrange(j, k) == q
            &&& w.subrange(k, l) == y
            &&& w.subrange(l, l + z.len()) == z
        }),
{
    let w = p + x + q + y + z;
    let i = p.len() as int;
    let j = i + x.len();
    let k = j + q.len();
    let l = k + y.len();
    assert(w.subrange(0, i) =~= p);
    assert(w.subrange(i, j) =~= x);
    assert(w.subrange(j, k) =~= q);
    assert(w.subrange(k, l) =~= y);
    assert(w.subrange(l, l + z.len()) =~= z);
}

proof fn lemma_cut_bytes(s: Seq<u8>, x: int, y: int, w: Seq<u8>, i: int)
    requires
        0 <= x <= y <= s.len(),
        0 <= i,
        i + y - x <= w.len(),
        w.subrange(i, i + y - x) == s.subrange(x, y),
    ensures
        forall|k: int| x <= k < y ==> #[trigger] s[k] == w[k + (i - x)],
{
    assert forall|k: int| x <= k < y implies #[trigger] s[k] == w[k + (i - x)] by {
        assert(s.subrange(x, y)[k - x] == s[k]);
        assert(w.subrange(i, i + y - x)[k - x] == w[i + (k - x)]);
        assert(i + (k - x) == k + (i - x));
    }
}

/// A block made of the pieces of a position with other numbers between them.
pub open spec fn in_pieces(s: Seq<u8>, at: At, x: Seq<u8>, y: Seq<u8>, w: Seq<u8>) -> bool {
    let a = at.start;
    let i = at.tokens[0].0 - a;
    let j = i + x.len();
    let k = j + at.tokens[1].0 - at.tokens[0].1;
    let l = k + y.len();
    &&& w.len() == l + at.end - at.tokens[1].1
    &&& w.subrange(0, i) == s.subrange(a, at.tokens[0].0)
    &&& w.subrange(i, j) == x
    &&& w.subrange(j, k) == s.subrange(at.tokens[0].1, at.tokens[1].0)
    &&& w.subrange(k, l) == y
    &&& w.subrange(l, w.len() as int) == s.subrange(at.tokens[1].1, at.end)
}

proof fn lemma_placed_pieces(s: Seq<u8>, at: At, x: Seq<u8>, y: Seq<u8>)
    requires
        laid(s, at.start, at.end, at.tokens),
    ensures
        in_pieces(s, at, x, y, placed(s, at, x, y)),
{
    let r = at.tokens;
    lemma_five(
        s.subrange(at.start, r[0].0),
        x,
        s.subrange(r[0].1, r[1].0),
        y,
        s.subrange(r[1].1, at.end),
    );
}

proof fn lemma_pieces_front(s: Seq<u8>, at: At, x: Seq<u8>, y: Seq<u8>, w: Seq<u8>)
    requires
        laid(s, at.start, at.end, at.tokens),
        in_pieces(s, at, x, y, w),
    ensures
        w[0] == OPEN && w[1] == 97 && w[2] == 116,
        all_blank(w, 3, at.tokens[0].0 - at.start),
{
    let a = at.start;
    let r = at.tokens;
    lemma_cut_bytes(s, a, r[0].0, w, 0);
    assert(s[a] == w[a + (0 - a)]);
    assert(s[a + 1] == w[a + 1 + (0 - a)]);
    assert(s[a + 2] == w[a + 2 + (0 - a)]);
    lemma_blank_shift(s, w, a + 3, r[0].0, -a);
}

proof fn lemma_pieces_middle(s: Seq<u8>, at: At, x: Seq<u8>, y: Seq<u8>, w: Seq<u8>)
    requires
        laid(s, at.start, at.end, at.tokens),
        in_pieces(s, at, x, y, w),
    ensures
        ({
            let j = at.tokens[0].0 - at.start + x.len();
            all_blank(w, j, j + at.tokens[1].0 - at.tokens[0].1)
        }),
{
    let r = at.tokens;
    let j = r[0].0 - at.start + x.len();
    lemma_cut_bytes(s, r[0].1, r[1].0, w, j);
    lemma_blank_shift(s, w, r[0].1, r[1].0, j - r[0].1);
}

proof fn lemma_pieces_back(s: Seq<u8>, at: At, x: Seq<u8>, y: Seq<u8>, w: Seq<u8>)
    requires
        laid(s, at.start, at.end, at.tokens),
        in_pieces(s, at, x, y, w),
    ensures
        ({
            let r = at.tokens;
            let f = w.len() - at.end;
            &&& w[w.len() - 1] == CLOSE
            &&& if r.len() == 2 {
                all_blank(w, r[1].1 + f, w.len() - 1)
            } else {
                all_blank(w, r[1].1 + f, r[2].0 + f) && number_in(w, (r[2].0 + f, r[2].1 + f))
                    && all_blank(w, r[2].1 + f, w.len() - 1)
            }
        }),
{
    let e = at.end;
    let r = at.tokens;
    let f = w.len() - e;
    lemma_cut_bytes(s, r[1].1, e, w, r[1].1 + f);
    assert(s[e - 1] == w[e - 1 + f]);
    if r.len() == 2 {
        lemma_blank_shift(s, w, r[1].1, e - 1, f);
    } else {
        lemma_blank_shift(s, w, r[1].1, r[2].0, f);
        lemma_number_shift(s, w, r[2], f);
        lemma_blank_shift(s, w, r[2].1, e - 1, f);
    }
}

/// With other numbers a position is still one.
proof fn lemma_placed_laid(s: Seq<u8>, at: At, x: Seq<u8>, y: Seq<u8>)
    requires
        laid(s, at.start, at.end, at.tokens),
        is_number(x),
        is_number(y),
    ensures
        ({
            let w = placed(s, at, x, y);
            let r = placed_tokens(at.tokens, x.len() as int, y.len() as int);
            &&& laid(w, 0, w.len() as int, shifted(r, -at.start))
            &&& closes_at(w, 0, w.len() as int)
            &&& in_pieces(s, at, x, y, w)
        }),
{
    let r = at.tokens;
    let w = placed(s, at, x, y);
    lemma_placed_pieces(s, at, x, y);
    lemma_pieces_laid(s, at, x, y, w);
    let v = shifted(placed_tokens(r, x.len() as int, y.len() as int), -at.start);
    lemma_laid_closes(w, 0, w.len() as int, v);
}

proof fn lemma_pieces_laid(s: Seq<u8>, at: At, x: Seq<u8>, y: Seq<u8>, w: Seq<u8>)
    requires
        laid(s, at.start, at.end, at.tokens),
        in_pieces(s, at, x, y, w),
        is_number(x),
        is_number(y),
    ensures
        ({
            let r = placed_tokens(at.tokens, x.len() as int, y.len() as int);
            laid(w, 0, w.len() as int, shifted(r, -at.start))
        }),
{
    let r = at.tokens;
    let v = shifted(placed_tokens(r, x.len() as int, y.len() as int), -at.start);
    lemma_number_bytes(x);
    lemma_number_bytes(y);
    lemma_pieces_front(s, at, x, y, w);
    lemma_pieces_middle(s, at, x, y, w);
    lemma_pieces_back(s, at, x, y, w);
    let i = r[0].0 - at.start;
    let j = i + x.len();
    let k = j + r[1].0 - r[0].1;
    let l = k + y.len();
    assert(v.len() == r.len());
    assert(v[0] == (i, j));
    assert(v[1] == (k, l));
    assert(number_in(w, v[0]));
    assert(number_in(w, v[1]));
    let f = w.len() - at.end;
    assert(r[1].1 + f == l);
    if r.len() == 3 {
        assert(v[2] == (r[2].0 + f, r[2].1 + f));
    }
}

// ─── The footprints of a board with one position exchanged ───────────────────

pub proof fn lemma_laid_tag(s: Seq<u8>, a: int, e: int, r: Seq<(int, int)>)
    requires
        laid(s, a, e, r),
    ensures
        tag_text(s, a) == "at"@,
{
    assert(blank(s[a + 3]));
    reveal_with_fuel(tag_end, 4);
    assert(tag_end(s, a + 1) == a + 3);
    reveal_strlit("at");
    lemma_bytes_ascii("at"@);
    assert(s.subrange(a + 1, a + 3) =~= bytes("at"@));
    lemma_bytes_valid("at"@);
}

pub proof fn lemma_children_order(s: Seq<u8>, st: int, pos: int, e: int)
    requires
        closes_at(s, st, e),
        st < pos <= e,
        pos < e ==> lex(s, st, pos).depth == 1,
    ensures
        forall|i: int, j: int|
            0 <= i < j < children_from(s, st, pos, e).len() ==> (#[trigger] children_from(
                s,
                st,
                pos,
                e,
            )[i]).1 <= (#[trigger] children_from(s, st, pos, e)[j]).0,
    decreases e - pos,
{
    if pos < e {
        if s[pos] == OPEN && !lex(s, st, pos).in_string {
            lemma_inner_closes(s, st, e, pos);
            let f = block_end(s, pos).unwrap();
            lemma_depth_bound(s, st, pos);
            lemma_lex_over_block(s, st, pos, f);
            lemma_children_order(s, st, f, e);
            crate::blocks::law_children_are_direct(s, st, f, e);
            let rest = children_from(s, st, f, e);
            let kids = children_from(s, st, pos, e);
            assert(kids == seq![(pos, f)] + rest);
            assert forall|i: int, j: int| 0 <= i < j < kids.len() implies (#[trigger] kids[i]).1 <= (
            #[trigger] kids[j]).0 by {
                assert(kids[j] == rest[j - 1]);
                if i > 0 {
                    assert(kids[i] == rest[i - 1]);
                }
            }
        } else {
            assert(lex(s, st, pos + 1) == lex_step(lex(s, st, pos), s[pos]));
            if pos + 1 < e {
                assert(lex(s, st, pos + 1).depth > 0);
            }
            lemma_children_order(s, st, pos + 1, e);
            let rest = children_from(s, st, pos + 1, e);
            let kids = children_from(s, st, pos, e);
            assert(kids == rest);
            assert forall|i: int, j: int| 0 <= i < j < kids.len() implies (#[trigger] kids[i]).1 <= (
            #[trigger] kids[j]).0 by {
                assert(rest[i].1 <= rest[j].0);
            }
        }
    }
}

/// The last of the first `n` children that states a position.
pub open spec fn last_at(s: Seq<u8>, kids: Seq<(int, int)>, n: int) -> Option<int>
    decreases n,
{
    if n <= 0 {
        None
    } else if tag_text(s, kids[n - 1].0) == "at"@ {
        Some(n - 1)
    } else {
        last_at(s, kids, n - 1)
    }
}

/// A footprint's position is that of its last child that states one.
proof fn lemma_at_of(s: Seq<u8>, h: Footprint, kids: Seq<(int, int)>, n: int)
    requires
        0 <= n <= kids.len(),
    ensures
        with_children(s, h, kids, n).at == (match last_at(s, kids, n) {
            Some(i) => at_node(s, kids[i].0),
            None => h.at,
        }),
        last_at(s, kids, n) matches Some(i) ==> 0 <= i < n && tag_text(s, kids[i].0) == "at"@,
    decreases n,
{
    if n > 0 {
        lemma_at_of(s, h, kids, n - 1);
    }
}

proof fn lemma_same_last(
    s: Seq<u8>,
    t: Seq<u8>,
    kids: Seq<(int, int)>,
    mine: Seq<(int, int)>,
    n: int,
)
    requires
        0 <= n <= kids.len(),
        mine.len() == kids.len(),
        forall|i: int|
            0 <= i < kids.len() ==> tag_text(s, (#[trigger] kids[i]).0) == tag_text(t, mine[i].0),
    ensures
        last_at(s, kids, n) == last_at(t, mine, n),
    decreases n,
{
    if n > 0 {
        assert(tag_text(s, kids[n - 1].0) == tag_text(t, mine[n - 1].0));
        lemma_same_last(s, t, kids, mine, n - 1);
    }
}

/// A position exchanged for another in `s`, giving `t`, with the footprint
/// `q..e` around it as `q..f`.
spec fn exchanged(s: Seq<u8>, t: Seq<u8>, a: int, b: int, w: Seq<u8>) -> bool {
    &&& swaps(s, a, b, w)
    &&& t == swap(s, a, b, w)
    &&& tag_text(s, a) == "at"@
    &&& tag_text(t, a) == "at"@
}

/// `t` has the bytes of `s` but for those in `a..b`, which are `n` others; both
/// state a position there.
spec fn around(s: Seq<u8>, t: Seq<u8>, a: int, b: int, n: int) -> bool {
    &&& 0 <= a < b <= s.len()
    &&& 0 <= n
    &&& t.len() == s.len() - b + a + n
    &&& forall|k: int| 0 <= k < a ==> #[trigger] s[k] == t[k + 0]
    &&& forall|k: int| b <= k < s.len() ==> #[trigger] s[k] == t[k + (a + n - b)]
    &&& tag_text(s, a) == "at"@
    &&& tag_text(t, a) == "at"@
}

proof fn lemma_exchanged_bytes(s: Seq<u8>, t: Seq<u8>, a: int, b: int, w: Seq<u8>)
    requires
        exchanged(s, t, a, b, w),
    ensures
        around(s, t, a, b, w.len() as int),
{
}

/// What a footprint is known by once a child is read.
#[verifier::opaque]
spec fn known_with(s: Seq<u8>, u: Footprint, q: int, f: int) -> (
    Option<Seq<char>>,
    Option<Seq<char>>,
    Seq<Seq<char>>,
) {
    known_by(with_child(s, u, q, f))
}

proof fn lemma_at_child(s: Seq<u8>, u: Footprint, q: int, f: int)
    requires
        tag_text(s, q) == "at"@,
    ensures
        known_with(s, u, q, f) == known_by(u),
{
    reveal(known_with);
}

proof fn lemma_same_child(
    s: Seq<u8>,
    t: Seq<u8>,
    x: Footprint,
    y: Footprint,
    q: int,
    f: int,
    d: int,
)
    requires
        closes_at(s, q, f),
        0 <= q + d,
        f + d <= t.len(),
        forall|k: int| q <= k < f ==> #[trigger] s[k] == t[k + d],
        known_by(x) == known_by(y),
    ensures
        known_with(s, x, q, f) == known_with(t, y, q + d, f + d),
        tag_text(s, q) == tag_text(t, q + d),
{
    reveal(known_with);
    lemma_tag_text_shift(s, t, q, f, d);
    lemma_child_known(s, t, x, y, q, f, d);
}

/// One child of the footprint whose position is exchanged.
proof fn lemma_kid_exchanged(
    s: Seq<u8>,
    t: Seq<u8>,
    a: int,
    b: int,
    n: int,
    u: Footprint,
    v: Footprint,
    q: int,
    f: int,
)
    requires
        around(s, t, a, b, n),
        closes_at(s, q, f),
        (q == a && f == b) || f <= a || b <= q,
        known_by(u) == known_by(v),
    ensures
        known_with(s, u, q, f) == known_with(t, v, moved(q, a, b, n), moved(f, a, b, n)),
        tag_text(s, q) == tag_text(t, moved(q, a, b, n)),
{
    if q == a && f == b {
        lemma_at_child(s, u, q, f);
        lemma_at_child(t, v, a, a + n);
    } else if f <= a {
        lemma_same_child(s, t, u, v, q, f, 0);
    } else {
        lemma_same_child(s, t, u, v, q, f, a + n - b);
    }
}

/// The children of the footprint whose position is exchanged, up to the `n`th.
proof fn lemma_kids_exchanged(
    s: Seq<u8>,
    t: Seq<u8>,
    a: int,
    b: int,
    w: int,
    x: Footprint,
    y: Footprint,
    kids: Seq<(int, int)>,
    n: int,
)
    requires
        around(s, t, a, b, w),
        0 <= n <= kids.len(),
        known_by(x) == known_by(y),
        forall|i: int|
            0 <= i < kids.len() ==> closes_at(s, (#[trigger] kids[i]).0, kids[i].1) && (kids[i] == (
                a,
                b,
            ) || kids[i].1 <= a || b <= kids[i].0),
    ensures
        known_by(with_children(s, x, kids, n)) == known_by(
            with_children(t, y, moved_all(kids, a, b, w), n),
        ),
        forall|i: int|
            0 <= i < n ==> tag_text(s, (#[trigger] kids[i]).0) == tag_text(
                t,
                moved_all(kids, a, b, w)[i].0,
            ),
    decreases n,
{
    if n > 0 {
        let mine = moved_all(kids, a, b, w);
        lemma_kids_exchanged(s, t, a, b, w, x, y, kids, n - 1);
        let u = with_children(s, x, kids, n - 1);
        let v = with_children(t, y, mine, n - 1);
        assert(closes_at(s, kids[n - 1].0, kids[n - 1].1));
        lemma_kid_exchanged(s, t, a, b, w, u, v, kids[n - 1].0, kids[n - 1].1);
        reveal(known_with);
    }
}

/// The footprint whose position is exchanged is known by the same, and its
/// position is the new one.
proof fn lemma_own_footprint(
    s: Seq<u8>,
    t: Seq<u8>,
    a: int,
    b: int,
    w: Seq<u8>,
    q: int,
    e: int,
)
    requires
        exchanged(s, t, a, b, w),
        closes_at(s, q, e),
        ({
            let kids = children(s, q, e);
            last_at(s, kids, kids.len() as int) matches Some(m) && kids[m] == (a, b)
        }),
    ensures
        q < a && b < e,
        between(lex(s, q, a)),
        lex(s, q, a).depth == 1,
        known_by(footprint_at(s, q, e)) == known_by(footprint_at(t, q, e - b + a + w.len())),
        footprint_at(t, q, e - b + a + w.len()).at == at_node(t, a),
{
    let kids = children(s, q, e);
    let n = kids.len() as int;
    let m = last_at(s, kids, n).unwrap();
    let f = e - b + a + w.len();
    let mine = children(t, q, f);
    lemma_at_of(s, footprint_header(s, q, e), kids, n);
    assert(lex(s, q, q) == outside());
    assert(lex(s, q, q + 1) == lex_step(outside(), s[q]));
    crate::blocks::law_children_are_direct(s, q, q + 1, e);
    lemma_children_order(s, q, q + 1, e);
    assert(children_from(s, q, q + 1, e)[m] == (a, b));
    lemma_depth_bound(s, q, a);
    lemma_swap_children(s, a, b, w, q, q + 1, e);
    assert(mine == moved_all(kids, a, b, w.len() as int));
    assert forall|i: int| 0 <= i < kids.len() implies closes_at(s, (#[trigger] kids[i]).0, kids[i].1)
        && (kids[i] == (a, b) || kids[i].1 <= a || b <= kids[i].0) by {
        assert(closes_at(s, children_from(s, q, q + 1, e)[i].0, kids[i].1));
        if i < m {
            assert(kids[i].1 <= kids[m].0);
        } else if m < i {
            assert(kids[m].1 <= kids[i].0);
        }
    }
    let h = footprint_header(s, q, e);
    let g = footprint_header(t, q, f);
    lemma_exchanged_bytes(s, t, a, b, w);
    lemma_kids_exchanged(s, t, a, b, w.len() as int, h, g, kids, n);
    lemma_same_last(s, t, kids, mine, n);
    lemma_at_of(t, g, mine, n);
    assert(mine[m].0 == a);
}

// ─── The board with one position exchanged ───────────────────────────────────

/// Every opening of a top-level item closes, inside the root.
pub proof fn lemma_item_closes(s: Seq<u8>, root: Seq<u8>, tag: Seq<u8>, q: int)
    requires
        is_document(s, root),
        starts_item(s, tag, q),
    ensures
        block_end(s, q).is_some(),
        closes_at(s, q, block_end(s, q).unwrap()),
        between(lex(s, 0, q)),
        skip_blank(s, 0) < q,
        block_end(s, q).unwrap() < block_end(s, skip_blank(s, 0)).unwrap(),
{
    lemma_root(s, root);
    let r = skip_blank(s, 0);
    let e = block_end(s, r).unwrap();
    if q <= r {
        assert(lex(s, 0, q) == outside());
    }
    assert(lex(s, 0, q) == lex(s, r, q));
    if q >= e {
        assert(blank(s[q]));
    }
    lemma_inner_closes(s, r, e, q);
    lemma_depth_bound(s, 0, q);
}

/// Two top-level items do not overlap.
pub proof fn lemma_items_apart(s: Seq<u8>, p: int, e: int, q: int)
    requires
        closes_at(s, p, e),
        0 <= p < q,
        between(lex(s, 0, p)),
        lex(s, 0, p).depth == 1,
        lex(s, 0, q).depth == 1,
    ensures
        e <= q,
{
    lemma_lex_over_block(s, 0, p, e);
    if q < e {
        assert(lex(s, 0, q).depth > lex(s, 0, p).depth);
    }
}

pub proof fn lemma_footprints_are(s: Seq<u8>, starts: Seq<int>, n: int)
    requires
        0 <= n <= starts.len(),
        forall|i: int| 0 <= i < starts.len() ==> block_end(s, #[trigger] starts[i]).is_some(),
    ensures
        footprints_of(s, starts, n).len() == n,
        forall|i: int|
            0 <= i < n ==> #[trigger] footprints_of(s, starts, n)[i] == footprint_at(
                s,
                starts[i],
                block_end(s, starts[i]).unwrap(),
            ),
    decreases n,
{
    if n > 0 {
        assert(block_end(s, starts[n - 1]).is_some());
        lemma_footprints_are(s, starts, n - 1);
    }
}

pub proof fn lemma_footprint_word()
    ensures
        is_tag("footprint"@),
{
    reveal_strlit("footprint");
    crate::placing::lemma_tag_chars("footprint"@);
}

pub proof fn lemma_start_is(s: Seq<u8>, tag: Seq<u8>, n: int, i: int)
    requires
        0 <= i < top_level_starts(s, tag, n).len(),
    ensures
        starts_item(s, tag, top_level_starts(s, tag, n)[i]),
{
    crate::scan::law_top_level_starts(s, tag, n);
    let starts = top_level_starts(s, tag, n);
    assert(starts.contains(starts[i]));
}

/// A position inside a footprint, exchanged: the board before and after.
spec fn exchanged_in(s: Seq<u8>, t: Seq<u8>, a: int, b: int, w: Seq<u8>, j: int) -> bool {
    let starts = top_level_starts(s, bytes("footprint"@), s.len() as int);
    &&& is_document(s, bytes("kicad_pcb"@))
    &&& exchanged(s, t, a, b, w)
    &&& 0 <= j < starts.len()
    &&& {
        let q = starts[j];
        let kids = children(s, q, block_end(s, q).unwrap());
        last_at(s, kids, kids.len() as int) matches Some(m) && kids[m] == (a, b)
    }
}

/// The exchanged position lies inside its footprint and two deep in the file.
proof fn lemma_inside(s: Seq<u8>, t: Seq<u8>, a: int, b: int, w: Seq<u8>, j: int)
    requires
        exchanged_in(s, t, a, b, w, j),
    ensures
        ({
            let q = top_level_starts(s, bytes("footprint"@), s.len() as int)[j];
            let e = block_end(s, q).unwrap();
            &&& closes_at(s, q, e)
            &&& q < a && b < e
            &&& between(lex(s, q, a))
            &&& between(lex(s, 0, a))
            &&& lex(s, 0, a).depth == 2
            &&& between(lex(s, skip_blank(s, 0), a))
            &&& skip_blank(s, 0) < q
            &&& e < block_end(s, skip_blank(s, 0)).unwrap()
            &&& lex(s, 0, q).depth == 1 && between(lex(s, 0, q))
        }),
{
    let tag = bytes("footprint"@);
    let root = bytes("kicad_pcb"@);
    let q = top_level_starts(s, tag, s.len() as int)[j];
    lemma_start_is(s, tag, s.len() as int, j);
    lemma_item_closes(s, root, tag, q);
    let e = block_end(s, q).unwrap();
    lemma_own_footprint(s, t, a, b, w, q, e);
    crate::scan::lemma_lex_shift(s, 0, q, a);
    lemma_root(s, root);
    assert(lex(s, 0, a) == lex(s, skip_blank(s, 0), a));
}

/// What the footprint `q..e` is known by.
#[verifier::opaque]
spec fn known_at(s: Seq<u8>, q: int, e: int) -> (Option<Seq<char>>, Option<Seq<char>>, Seq<Seq<char>>) {
    known_by(footprint_at(s, q, e))
}

/// The position of the footprint `q..e`.
#[verifier::opaque]
spec fn place_at(s: Seq<u8>, q: int, e: int) -> Option<At> {
    footprint_at(s, q, e).at
}

proof fn lemma_same_footprint(s: Seq<u8>, t: Seq<u8>, q: int, e: int, d: int)
    requires
        closes_at(s, q, e),
        0 <= q + d,
        e + d <= t.len(),
        forall|k: int| q <= k < e ==> #[trigger] s[k] == t[k + d],
    ensures
        known_at(s, q, e) == known_at(t, q + d, e + d),
        block_end(t, q + d) == Some(e + d),
{
    reveal(known_at);
    lemma_footprint_known(s, t, q, e, d);
    lemma_block_moved(s, t, q, e, d);
}

proof fn lemma_same_own(s: Seq<u8>, t: Seq<u8>, a: int, b: int, w: Seq<u8>, q: int, e: int)
    requires
        exchanged(s, t, a, b, w),
        closes_at(s, q, e),
        ({
            let kids = children(s, q, e);
            last_at(s, kids, kids.len() as int) matches Some(m) && kids[m] == (a, b)
        }),
    ensures
        known_at(s, q, e) == known_at(t, q, e - b + a + w.len()),
        place_at(t, q, e - b + a + w.len()) == at_node(t, a),
        block_end(t, q) == Some(e - b + a + w.len()),
{
    reveal(known_at);
    reveal(place_at);
    lemma_own_footprint(s, t, a, b, w, q, e);
    lemma_swap_closes(s, a, b, w, q, e);
    lemma_block_end(t, q, e - b + a + w.len());
}

/// A footprint keeps what it is known by.
#[verifier::rlimit(40)]
proof fn lemma_still_known(
    s: Seq<u8>,
    t: Seq<u8>,
    a: int,
    b: int,
    w: Seq<u8>,
    j: int,
    i: int,
)
    requires
        exchanged_in(s, t, a, b, w, j),
        0 <= i < top_level_starts(s, bytes("footprint"@), s.len() as int).len(),
    ensures
        ({
            let q = top_level_starts(s, bytes("footprint"@), s.len() as int)[i];
            let p = moved(q, a, b, w.len() as int);
            &&& block_end(s, q).is_some()
            &&& block_end(t, p).is_some()
            &&& known_at(s, q, block_end(s, q).unwrap()) == known_at(t, p, block_end(t, p).unwrap())
            &&& i == j ==> place_at(t, p, block_end(t, p).unwrap()) == at_node(t, a)
        }),
{
    let tag = bytes("footprint"@);
    let root = bytes("kicad_pcb"@);
    let starts = top_level_starts(s, tag, s.len() as int);
    let q = starts[i];
    let own = starts[j];
    lemma_start_is(s, tag, s.len() as int, i);
    lemma_item_closes(s, root, tag, q);
    lemma_inside(s, t, a, b, w, j);
    let e = block_end(s, q).unwrap();
    let f = block_end(s, own).unwrap();
    if i == j {
        lemma_same_own(s, t, a, b, w, q, e);
    } else {
        lemma_starts_order(s, i, j);
        if i < j {
            lemma_items_apart(s, q, e, own);
        } else {
            lemma_items_apart(s, own, f, q);
        }
        lemma_exchanged_bytes(s, t, a, b, w);
        lemma_footprint_beside(s, t, a, b, w.len() as int, q, e);
    }
}

/// A footprint beside the exchanged position is known by the same.
proof fn lemma_footprint_beside(s: Seq<u8>, t: Seq<u8>, a: int, b: int, n: int, q: int, e: int)
    requires
        around(s, t, a, b, n),
        closes_at(s, q, e),
        e <= a || b <= q,
    ensures
        known_at(s, q, e) == known_at(t, moved(q, a, b, n), moved(e, a, b, n)),
        block_end(t, moved(q, a, b, n)) == Some(moved(e, a, b, n)),
{
    if e <= a {
        lemma_same_footprint(s, t, q, e, 0);
    } else {
        lemma_same_footprint(s, t, q, e, a + n - b);
    }
}

pub proof fn lemma_starts_order(s: Seq<u8>, i: int, j: int)
    requires
        0 <= i < top_level_starts(s, bytes("footprint"@), s.len() as int).len(),
        0 <= j < top_level_starts(s, bytes("footprint"@), s.len() as int).len(),
    ensures
        ({
            let starts = top_level_starts(s, bytes("footprint"@), s.len() as int);
            &&& i < j ==> starts[i] < starts[j]
            &&& j < i ==> starts[j] < starts[i]
        }),
{
    crate::scan::law_top_level_starts(s, bytes("footprint"@), s.len() as int);
}

/// The board keeps its footprints, and they keep what they are known by.
proof fn lemma_board_known(c: Seq<char>, v: Seq<char>, a: int, b: int, j: int)
    requires
        exchanged_in(bytes(c), swap(bytes(c), a, b, bytes(v)), a, b, bytes(v), j),
    ensures
        ({
            let s = bytes(c);
            let t = swap(s, a, b, bytes(v));
            let before = board_footprints(s);
            let after = board_footprints(t);
            &&& before.len() == after.len()
            &&& 0 <= j < before.len()
            &&& forall|i: int|
                0 <= i < before.len() ==> known_by(#[trigger] before[i]) == known_by(after[i])
            &&& after[j].at == at_node(t, a)
        }),
{
    let s = bytes(c);
    let w = bytes(v);
    let n = w.len() as int;
    let t = swap(s, a, b, w);
    let tag = bytes("footprint"@);
    let starts = top_level_starts(s, tag, s.len() as int);
    let mine = moved_starts(starts, a, b, n);
    lemma_inside(s, t, a, b, w, j);
    lemma_footprint_word();
    lemma_swap_starts(c, a, b, v, "footprint"@, s.len() as int);
    lemma_exchanged_bytes(s, t, a, b, w);
    assert(moved(s.len() as int, a, b, n) == t.len());
    assert(top_level_starts(t, tag, t.len() as int) == mine);
    assert forall|i: int| 0 <= i < starts.len() implies block_end(s, #[trigger] starts[i]).is_some() by {
        lemma_still_known(s, t, a, b, w, j, i);
    }
    assert forall|i: int| 0 <= i < mine.len() implies block_end(t, #[trigger] mine[i]).is_some() by {
        lemma_still_known(s, t, a, b, w, j, i);
    }
    lemma_footprints_are(s, starts, starts.len() as int);
    lemma_footprints_are(t, mine, mine.len() as int);
    let before = board_footprints(s);
    let after = board_footprints(t);
    assert forall|i: int| 0 <= i < before.len() implies known_by(#[trigger] before[i]) == known_by(
        after[i],
    ) by {
        lemma_still_known(s, t, a, b, w, j, i);
        reveal(known_at);
    }
    lemma_still_known(s, t, a, b, w, j, j);
    reveal(place_at);
}

/// The board is still one document.
#[verifier::rlimit(40)]
proof fn lemma_still_document(c: Seq<char>, v: Seq<char>, a: int, b: int, j: int)
    requires
        exchanged_in(bytes(c), swap(bytes(c), a, b, bytes(v)), a, b, bytes(v), j),
    ensures
        is_document(swap(bytes(c), a, b, bytes(v)), bytes("kicad_pcb"@)),
{
    let s = bytes(c);
    let w = bytes(v);
    let n = w.len() as int;
    let t = swap(s, a, b, w);
    let root = skip_blank(s, 0);
    let e = block_end(s, root).unwrap();
    lemma_inside(s, t, a, b, w, j);
    lemma_root(s, bytes("kicad_pcb"@));
    lemma_exchanged_bytes(s, t, a, b, w);
    assert forall|k: int| 0 <= k < root implies blank(#[trigger] t[k]) by {
        assert(blank(s[k]));
        assert(s[k] == t[k + 0]);
    }
    assert(s[root] == t[root + 0]);
    lemma_skip_blank_is(t, 0, root);
    lemma_kicad_pcb();
    lemma_swap_tag(c, a, b, v, root, "kicad_pcb"@);
    lemma_swap_closes(s, a, b, w, root, e);
    let f = moved(e, a, b, n);
    lemma_block_end(t, root, f);
    assert forall|k: int| f <= k < t.len() implies blank(#[trigger] t[k]) by {
        assert(blank(s[k - (a + n - b)]));
    }
    lemma_skip_blank_is(t, f, t.len() as int);
}

// ─── The move ────────────────────────────────────────────────────────────────

/// The bytes of a number as given, or as they stand where none is given.
pub open spec fn given(s: Seq<u8>, x: Option<Seq<char>>, r: (int, int)) -> Seq<u8> {
    match x {
        Some(t) => bytes(t),
        None => s.subrange(r.0, r.1),
    }
}

/// A number, or none.
pub open spec fn numeric(x: Option<Seq<char>>) -> bool {
    x matches Some(t) ==> is_number(bytes(t))
}

proof fn lemma_cut_after(s: Seq<u8>, x: Seq<u8>, i: int, j: int, k: int, l: int)
    requires
        0 <= i <= j <= k <= l <= s.len(),
    ensures
        s.take(i) + x + s.skip(j) == s.take(i) + x + s.subrange(j, k) + s.subrange(k, l) + s.skip(l),
{
    let p = s.take(i) + x;
    assert(s.skip(j) =~= s.subrange(j, k) + (s.subrange(k, l) + s.skip(l)));
    assert(p + (s.subrange(j, k) + (s.subrange(k, l) + s.skip(l))) =~= p + s.subrange(j, k)
        + s.subrange(k, l) + s.skip(l));
}

proof fn lemma_cut_before(s: Seq<u8>, i: int, j: int, k: int)
    requires
        0 <= i <= j <= k <= s.len(),
    ensures
        s.take(k) == s.take(i) + s.subrange(i, j) + s.subrange(j, k),
{
    assert(s.take(k) =~= s.take(i) + s.subrange(i, j) + s.subrange(j, k));
}

proof fn lemma_cut_all(s: Seq<u8>, k: int, l: int)
    requires
        0 <= k <= l <= s.len(),
    ensures
        s == s.take(k) + s.subrange(k, l) + s.skip(l),
{
    assert(s =~= s.take(k) + s.subrange(k, l) + s.skip(l));
}

proof fn lemma_move_text(s: Seq<u8>, at: At, x: Option<Seq<char>>, y: Option<Seq<char>>)
    requires
        laid(s, at.start, at.end, at.tokens),
    ensures
        ({
            let r = at.tokens;
            let es = present(at.token_edit(0, x)) + present(at.token_edit(1, y));
            edited(s, es) == s.take(r[0].0) + given(s, x, r[0]) + s.subrange(r[0].1, r[1].0) + given(
                s,
                y,
                r[1],
            ) + s.skip(r[1].1)
        }),
{
    let r = at.tokens;
    let es = present(at.token_edit(0, x)) + present(at.token_edit(1, y));
    lemma_cut_before(s, r[0].0, r[0].1, r[1].0);
    match (x, y) {
        (Some(u), Some(v)) => {
            let e = Splice { start: r[0].0, end: r[0].1, bytes: bytes(u) };
            let f = Splice { start: r[1].0, end: r[1].1, bytes: bytes(v) };
            assert(es =~= seq![e, f]);
            law_two_edits(s, e, f);
        },
        (Some(u), None) => {
            let e = Splice { start: r[0].0, end: r[0].1, bytes: bytes(u) };
            assert(es =~= seq![e]);
            law_one_edit(s, e);
            lemma_cut_after(s, bytes(u), r[0].0, r[0].1, r[1].0, r[1].1);
        },
        (None, Some(v)) => {
            let f = Splice { start: r[1].0, end: r[1].1, bytes: bytes(v) };
            assert(es =~= seq![f]);
            law_one_edit(s, f);
        },
        (None, None) => {
            assert(es =~= Seq::<Splice>::empty());
            crate::edit::law_no_edits(s);
            lemma_cut_all(s, r[1].0, r[1].1);
        },
    }
}

proof fn lemma_move_swap(s: Seq<u8>, at: At, x: Seq<u8>, y: Seq<u8>)
    requires
        laid(s, at.start, at.end, at.tokens),
    ensures
        s.take(at.tokens[0].0) + x + s.subrange(at.tokens[0].1, at.tokens[1].0) + y + s.skip(
            at.tokens[1].1,
        ) == swap(s, at.start, at.end, placed(s, at, x, y)),
{
    let r = at.tokens;
    let p = s.subrange(at.start, r[0].0);
    let q = s.subrange(r[0].1, r[1].0);
    let z = s.subrange(r[1].1, at.end);
    assert(s.take(r[0].0) =~= s.take(at.start) + p);
    assert(s.skip(r[1].1) =~= z + s.skip(at.end));
    assert(s.take(at.start) + p + x + q + y + (z + s.skip(at.end)) =~= s.take(at.start) + (p + x + q
        + y + z) + s.skip(at.end));
}

pub proof fn lemma_ascii_text(w: Seq<u8>)
    requires
        forall|k: int| 0 <= k < w.len() ==> #[trigger] w[k] < 128,
    ensures
        bytes(text_of(w)) == w,
{
    let t = Seq::new(w.len(), |k: int| w[k] as char);
    assert(is_ascii_chars(t)) by {
        assert forall|i: int| 0 <= i < t.len() implies '\0' <= #[trigger] t[i] <= '\u{7f}' by {
            assert(w[i] < 128);
        }
    }
    lemma_bytes_ascii(t);
    assert forall|k: int| 0 <= k < w.len() implies #[trigger] bytes(t)[k] == w[k] by {
        assert(bytes(t)[k] == t[k] as u8);
        assert(w[k] < 128);
    }
    assert(bytes(t) =~= w);
    lemma_bytes_valid(t);
}

pub proof fn lemma_laid_ascii(s: Seq<u8>, a: int, e: int, r: Seq<(int, int)>)
    requires
        laid(s, a, e, r),
    ensures
        forall|i: int| a <= i < e ==> #[trigger] s[i] < 128,
{
    lemma_number_in(s, r[0]);
    lemma_number_in(s, r[1]);
    if r.len() == 3 {
        lemma_number_in(s, r[2]);
    }
    assert forall|i: int| a <= i < e implies #[trigger] s[i] < 128 by {
        if i < a + 3 || i == e - 1 {
            assert(i == a || i == a + 1 || i == a + 2 || i == e - 1);
        } else {
            assert(blank(s[i]) || number_byte(s[i]));
        }
    }
}

pub proof fn lemma_same_key(before: Seq<Footprint>, after: Seq<Footprint>, key: Key, k: int)
    requires
        before.len() == after.len(),
        0 <= k <= before.len(),
        forall|i: int| 0 <= i < before.len() ==> known_by(#[trigger] before[i]) == known_by(after[i]),
    ensures
        key_index(before, key, k) == key_index(after, key, k),
    decreases before.len() - k,
{
    if k < before.len() {
        assert(known_by(before[k]) == known_by(after[k]));
        lemma_same_key(before, after, key, k + 1);
    }
}

pub proof fn lemma_key_in(fps: Seq<Footprint>, key: Key, k: int)
    requires
        0 <= k,
    ensures
        key_index(fps, key, k) matches Some(i) ==> k <= i < fps.len(),
    decreases fps.len() - k,
{
    if k < fps.len() {
        lemma_key_in(fps, key, k + 1);
    }
}

/// The position of a footprint is one of its children.
proof fn lemma_position_child(s: Seq<u8>, j: int)
    requires
        is_document(s, bytes("kicad_pcb"@)),
        0 <= j < board_footprints(s).len(),
        board_footprints(s)[j].at.is_some(),
    ensures
        ({
            let starts = top_level_starts(s, bytes("footprint"@), s.len() as int);
            let at = board_footprints(s)[j].at.unwrap();
            let q = starts[j];
            let kids = children(s, q, block_end(s, q).unwrap());
            &&& j < starts.len()
            &&& last_at(s, kids, kids.len() as int) matches Some(m) && kids[m] == (at.start, at.end)
            &&& at_node(s, at.start) == Some(at)
            &&& 0 <= at.start
            &&& tag_text(s, at.start) == "at"@
        }),
{
    let tag = bytes("footprint"@);
    let starts = top_level_starts(s, tag, s.len() as int);
    let at = board_footprints(s)[j].at.unwrap();
    assert forall|i: int| 0 <= i < starts.len() implies block_end(s, #[trigger] starts[i]).is_some() by {
        lemma_start_is(s, tag, s.len() as int, i);
        lemma_item_closes(s, bytes("kicad_pcb"@), tag, starts[i]);
    }
    lemma_footprints_are(s, starts, starts.len() as int);
    let q = starts[j];
    lemma_start_is(s, tag, s.len() as int, j);
    lemma_item_closes(s, bytes("kicad_pcb"@), tag, q);
    let e = block_end(s, q).unwrap();
    let kids = children(s, q, e);
    lemma_at_of(s, footprint_header(s, q, e), kids, kids.len() as int);
    let m = last_at(s, kids, kids.len() as int).unwrap();
    assert(lex(s, q, q) == outside());
    assert(lex(s, q, q + 1) == lex_step(outside(), s[q]));
    crate::blocks::law_children_are_direct(s, q, q + 1, e);
    assert(closes_at(s, children_from(s, q, q + 1, e)[m].0, kids[m].1));
    assert(first_byte(s, OPEN, kids[m].0) == Some(kids[m].0));
    lemma_block_end(s, kids[m].0, kids[m].1);
}

/// A footprint that can be moved: the board is one document, the key names a
/// footprint on it, and that footprint has a position and no child that would stay
/// behind.
pub open spec fn movable(s: Seq<u8>, key: Key, board: Seq<char>) -> bool {
    &&& is_document(s, bytes("kicad_pcb"@))
    &&& footprint_named(s, key, board) matches Ok(fp) && fp.at.is_some() && fp.absolute_children.len()
        == 0
}

/// The position of the footprint that a key names.
pub open spec fn position(s: Seq<u8>, key: Key, board: Seq<char>) -> At {
    footprint_named(s, key, board)->Ok_0.at.unwrap()
}

/// A board with one position rewritten, and nothing else.
pub open spec fn with_position(s: Seq<u8>, at: At, x: Seq<u8>, y: Seq<u8>) -> Seq<u8> {
    swap(s, at.start, at.end, placed(s, at, x, y))
}

/// A position with other numbers, in its place: the file is text, and the position
/// reads.
#[verifier::spinoff_prover]
#[verifier::rlimit(60)]
proof fn lemma_new_block(c: Seq<char>, at: At, u: Seq<u8>, v: Seq<u8>)
    requires
        laid(bytes(c), at.start, at.end, at.tokens),
        closes_at(bytes(c), at.start, at.end),
        is_number(u),
        is_number(v),
    ensures
        ({
            let s = bytes(c);
            let w = placed(s, at, u, v);
            let t = swap(s, at.start, at.end, w);
            &&& bytes(text_of(w)) == w
            &&& bytes(text_of(t)) == t
            &&& exchanged(s, t, at.start, at.end, w)
            &&& at_node(t, at.start) == Some(
                rewritten(at, u.len() as int, v.len() as int, w.len() as int),
            )
            &&& in_pieces(s, at, u, v, w)
        }),
{
    let s = bytes(c);
    let a = at.start;
    let b = at.end;
    let w = placed(s, at, u, v);
    let n = w.len() as int;
    let t = swap(s, a, b, w);
    let r = placed_tokens(at.tokens, u.len() as int, v.len() as int);
    let o = shifted(r, -a);
    lemma_placed_laid(s, at, u, v);
    assert(bytes(text_of(w)) == w) by {
        lemma_laid_ascii(w, 0, n, o);
        lemma_ascii_text(w);
    }
    assert(swaps(s, a, b, w));
    lemma_swap_text(c, a, b, text_of(w));
    assert(laid(t, a, a + n, r)) by {
        lemma_window(s, a, b, w);
        lemma_laid_shift(w, t, 0, n, o, a);
        assert(shifted(o, a) =~= r);
    }
    lemma_laid_is_at(text_of(t), a, a + n, r);
    lemma_laid_tag(t, a, a + n, r);
    lemma_laid_tag(s, a, b, at.tokens);
}

/// How the board reads once the numbers of a position are others.
proof fn lemma_rewritten(c: Seq<char>, key: Key, u: Seq<u8>, v: Seq<u8>, board: Seq<char>)
    requires
        movable(bytes(c), key, board),
        is_number(u),
        is_number(v),
    ensures
        ({
            let s = bytes(c);
            let at = position(s, key, board);
            let w = placed(s, at, u, v);
            let t = with_position(s, at, u, v);
            &&& laid(s, at.start, at.end, at.tokens)
            &&& bytes(text_of(t)) == t
            &&& movable(t, key, board)
            &&& position(t, key, board) == rewritten(
                at,
                u.len() as int,
                v.len() as int,
                w.len() as int,
            )
            &&& in_pieces(s, at, u, v, w)
        }),
{
    let s = bytes(c);
    let fps = board_footprints(s);
    lemma_key_in(fps, key, 0);
    let j = key_index(fps, key, 0).unwrap();
    let at = fps[j].at.unwrap();
    let a = at.start;
    let b = at.end;
    lemma_position_child(s, j);
    lemma_at_is_laid(c, a);
    lemma_laid_closes(s, a, b, at.tokens);
    let w = placed(s, at, u, v);
    let wc = text_of(w);
    let t = swap(s, a, b, w);
    lemma_new_block(c, at, u, v);
    assert(exchanged_in(s, t, a, b, w, j));
    lemma_board_known(c, wc, a, b, j);
    lemma_still_document(c, wc, a, b, j);
    let after = board_footprints(t);
    lemma_same_key(fps, after, key, 0);
    assert(known_by(fps[j]) == known_by(after[j]));
    assert(footprint_named(t, key, board) == Ok::<Footprint, Seq<char>>(after[j]));
}

/// The numbers of a position may be cut out, and are numbers.
proof fn lemma_old_numbers(c: Seq<char>, key: Key, board: Seq<char>)
    requires
        movable(bytes(c), key, board),
    ensures
        ({
            let s = bytes(c);
            let r = position(s, key, board).tokens;
            &&& laid(s, position(s, key, board).start, position(s, key, board).end, r)
            &&& cuttable(s, r[0].0, r[0].1)
            &&& cuttable(s, r[1].0, r[1].1)
        }),
{
    let s = bytes(c);
    let fps = board_footprints(s);
    lemma_key_in(fps, key, 0);
    let j = key_index(fps, key, 0).unwrap();
    let at = fps[j].at.unwrap();
    lemma_position_child(s, j);
    crate::at_node::law_at_tokens(c, at.start);
    lemma_at_is_laid(c, at.start);
    assert(cuttable(s, at.tokens[0].0, at.tokens[0].1));
    assert(cuttable(s, at.tokens[1].0, at.tokens[1].1));
}

/// What a move writes, and how the board reads after it.
proof fn lemma_move(
    c: Seq<char>,
    key: Key,
    x: Option<Seq<char>>,
    y: Option<Seq<char>>,
    board: Seq<char>,
)
    requires
        movable(bytes(c), key, board),
        numeric(x),
        numeric(y),
    ensures
        ({
            let s = bytes(c);
            let at = position(s, key, board);
            let u = given(s, x, at.tokens[0]);
            let v = given(s, y, at.tokens[1]);
            let w = placed(s, at, u, v);
            let t = with_position(s, at, u, v);
            &&& laid(s, at.start, at.end, at.tokens)
            &&& cuttable(s, at.tokens[0].0, at.tokens[0].1)
            &&& cuttable(s, at.tokens[1].0, at.tokens[1].1)
            &&& moved_board(s, key, x, y, board) == Ok::<Seq<u8>, Seq<char>>(t)
            &&& bytes(text_of(t)) == t
            &&& movable(t, key, board)
            &&& position(t, key, board) == rewritten(
                at,
                u.len() as int,
                v.len() as int,
                w.len() as int,
            )
            &&& in_pieces(s, at, u, v, w)
        }),
{
    let s = bytes(c);
    let at = position(s, key, board);
    lemma_old_numbers(c, key, board);
    let u = given(s, x, at.tokens[0]);
    let v = given(s, y, at.tokens[1]);
    lemma_rewritten(c, key, u, v, board);
    lemma_move_text(s, at, x, y);
    lemma_move_swap(s, at, u, v);
    lemma_move_fits(s, at, x, y);
}

pub proof fn lemma_window(s: Seq<u8>, a: int, b: int, w: Seq<u8>)
    requires
        0 <= a <= b <= s.len(),
    ensures
        swap(s, a, b, w).len() == s.len() - b + a + w.len(),
        forall|k: int| 0 <= k < w.len() ==> #[trigger] w[k] == swap(s, a, b, w)[k + a],
        swap(s, a, b, w).subrange(a, a + w.len()) == w,
        swap(s, a, b, w).take(a) == s.take(a),
        swap(s, a, b, w).skip(a + w.len()) == s.skip(b),
{
    let t = swap(s, a, b, w);
    assert(t.subrange(a, a + w.len()) =~= w);
    assert(t.take(a) =~= s.take(a));
    assert(t.skip(a + w.len()) =~= s.skip(b));
}

proof fn lemma_move_fits(s: Seq<u8>, at: At, x: Option<Seq<char>>, y: Option<Seq<char>>)
    requires
        laid(s, at.start, at.end, at.tokens),
        cuttable(s, at.tokens[0].0, at.tokens[0].1),
        cuttable(s, at.tokens[1].0, at.tokens[1].1),
    ensures
        edits_fit(s, present(at.token_edit(0, x)) + present(at.token_edit(1, y))),
{
    let es = present(at.token_edit(0, x)) + present(at.token_edit(1, y));
    assert forall|i: int| 0 <= i < es.len() implies cuttable(s, (#[trigger] es[i]).start, es[i].end) by {
        assert(i == 0 || i == 1);
    }
    assert forall|i: int, j: int| 0 <= i < j < es.len() implies crate::edit::apart(
        #[trigger] es[i],
        #[trigger] es[j],
    ) by {
        assert(i == 0 && j == 1);
    }
}

proof fn lemma_sub_sub(t: Seq<u8>, a: int, w: Seq<u8>, i: int, j: int)
    requires
        0 <= a,
        0 <= i <= j <= w.len(),
        a + w.len() <= t.len(),
        t.subrange(a, a + w.len()) == w,
    ensures
        t.subrange(a + i, a + j) == w.subrange(i, j),
{
    assert(t.subrange(a + i, a + j) =~= t.subrange(a, a + w.len()).subrange(i, j));
}

proof fn lemma_join(s: Seq<u8>, a: int, i: int, j: int, k: int, l: int, b: int)
    requires
        0 <= a <= i <= j <= k <= l <= b <= s.len(),
    ensures
        s.subrange(a, i) + s.subrange(i, j) + s.subrange(j, k) + s.subrange(k, l) + s.subrange(l, b)
            == s.subrange(a, b),
{
    assert(s.subrange(a, i) + s.subrange(i, j) =~= s.subrange(a, j));
    assert(s.subrange(a, j) + s.subrange(j, k) =~= s.subrange(a, k));
    assert(s.subrange(a, k) + s.subrange(k, l) =~= s.subrange(a, l));
    assert(s.subrange(a, l) + s.subrange(l, b) =~= s.subrange(a, b));
}

/// A rewritten position, as it then stands in a file.
spec fn rewritten(at: At, nx: int, ny: int, n: int) -> At {
    At { start: at.start, end: at.start + n, tokens: placed_tokens(at.tokens, nx, ny) }
}

/// The pieces of a rewritten position in the file that holds it.
proof fn lemma_pieces_in(s: Seq<u8>, at: At, x: Seq<u8>, y: Seq<u8>, w: Seq<u8>, t: Seq<u8>)
    requires
        laid(s, at.start, at.end, at.tokens),
        in_pieces(s, at, x, y, w),
        at.start + w.len() <= t.len(),
        t.subrange(at.start, at.start + w.len()) == w,
    ensures
        ({
            let r = at.tokens;
            let new = rewritten(at, x.len() as int, y.len() as int, w.len() as int);
            &&& t.subrange(new.tokens[0].0, new.tokens[0].1) == x
            &&& t.subrange(new.tokens[1].0, new.tokens[1].1) == y
            &&& t.subrange(at.start, new.tokens[0].0) == s.subrange(at.start, r[0].0)
            &&& t.subrange(new.tokens[0].1, new.tokens[1].0) == s.subrange(r[0].1, r[1].0)
            &&& t.subrange(new.tokens[1].1, new.end) == s.subrange(r[1].1, at.end)
            &&& new.tokens.len() == r.len()
        }),
{
    let r = at.tokens;
    let a = at.start;
    let i = r[0].0 - a;
    let j = i + x.len();
    let k = j + r[1].0 - r[0].1;
    let l = k + y.len();
    lemma_sub_sub(t, a, w, 0, i);
    lemma_sub_sub(t, a, w, i, j);
    lemma_sub_sub(t, a, w, j, k);
    lemma_sub_sub(t, a, w, k, l);
    lemma_sub_sub(t, a, w, l, w.len() as int);
}

/// Writing the old numbers back gives the old file back.
proof fn lemma_placed_back(s: Seq<u8>, at: At, x: Seq<u8>, y: Seq<u8>, w: Seq<u8>, t: Seq<u8>)
    requires
        laid(s, at.start, at.end, at.tokens),
        in_pieces(s, at, x, y, w),
        t == swap(s, at.start, at.end, w),
    ensures
        with_position(
            t,
            rewritten(at, x.len() as int, y.len() as int, w.len() as int),
            s.subrange(at.tokens[0].0, at.tokens[0].1),
            s.subrange(at.tokens[1].0, at.tokens[1].1),
        ) == s,
{
    let r = at.tokens;
    let a = at.start;
    let new = rewritten(at, x.len() as int, y.len() as int, w.len() as int);
    let p = s.subrange(r[0].0, r[0].1);
    let q = s.subrange(r[1].0, r[1].1);
    lemma_window(s, a, at.end, w);
    lemma_pieces_in(s, at, x, y, w, t);
    assert(placed(t, new, p, q) == s.subrange(a, r[0].0) + p + s.subrange(r[0].1, r[1].0) + q
        + s.subrange(r[1].1, at.end));
    lemma_join(s, a, r[0].0, r[0].1, r[1].0, r[1].1, at.end);
    assert(placed(t, new, p, q) == s.subrange(a, at.end));
    lemma_cut_all(s, a, at.end);
}

/// A move rewrites the numbers of the footprint's own position and no other byte of
/// the file. The board stays one document, the key names the same footprint, and its
/// position reads as what was given.
pub proof fn law_move_rewrites_only_the_position(
    c: Seq<char>,
    key: Key,
    x: Option<Seq<char>>,
    y: Option<Seq<char>>,
    board: Seq<char>,
)
    requires
        movable(bytes(c), key, board),
        numeric(x),
        numeric(y),
    ensures
        ({
            let s = bytes(c);
            let at = position(s, key, board);
            let u = given(s, x, at.tokens[0]);
            let v = given(s, y, at.tokens[1]);
            let t = with_position(s, at, u, v);
            let new = position(t, key, board);
            &&& moved_board(s, key, x, y, board) == Ok::<Seq<u8>, Seq<char>>(t)
            &&& movable(t, key, board)
            &&& new.tokens.len() == at.tokens.len()
            &&& t.subrange(new.tokens[0].0, new.tokens[0].1) == u
            &&& t.subrange(new.tokens[1].0, new.tokens[1].1) == v
        }),
{
    let s = bytes(c);
    lemma_move(c, key, x, y, board);
    let at = position(s, key, board);
    let r = at.tokens;
    let u = given(s, x, r[0]);
    let v = given(s, y, r[1]);
    let w = placed(s, at, u, v);
    let t = with_position(s, at, u, v);
    lemma_window(s, at.start, at.end, w);
    lemma_pieces_in(s, at, u, v, w, t);
}

/// Moving a footprint there and back leaves the file as it was, byte for byte.
pub proof fn law_move_there_and_back(
    c: Seq<char>,
    key: Key,
    x: Seq<char>,
    y: Seq<char>,
    board: Seq<char>,
)
    requires
        movable(bytes(c), key, board),
        is_number(bytes(x)),
        is_number(bytes(y)),
    ensures
        ({
            let s = bytes(c);
            let r = position(s, key, board).tokens;
            let was_x = text_of(s.subrange(r[0].0, r[0].1));
            let was_y = text_of(s.subrange(r[1].0, r[1].1));
            moved_board(s, key, Some(x), Some(y), board) matches Ok(t) && moved_board(
                t,
                key,
                Some(was_x),
                Some(was_y),
                board,
            ) == Ok::<Seq<u8>, Seq<char>>(s)
        }),
{
    let s = bytes(c);
    lemma_move(c, key, Some(x), Some(y), board);
    let at = position(s, key, board);
    let r = at.tokens;
    let t = with_position(s, at, bytes(x), bytes(y));
    let was_x = text_of(s.subrange(r[0].0, r[0].1));
    let was_y = text_of(s.subrange(r[1].0, r[1].1));
    lemma_between_cuts(c, r[0].0, r[0].1);
    lemma_between_cuts(c, r[1].0, r[1].1);
    lemma_move(text_of(t), key, Some(was_x), Some(was_y), board);
    lemma_placed_back(s, at, bytes(x), bytes(y), placed(s, at, bytes(x), bytes(y)), t);
}

} // verus!
