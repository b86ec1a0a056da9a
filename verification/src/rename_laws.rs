//! What a rename writes, and that nothing is found under the old name afterwards.

use crate::edit::{
    apart, edited, edits_fit, lemma_sorted_in_line, lemma_sort_keeps, not_after, patched, sort_edits, Splice,
};
use crate::field_laws::{
    along, ends_plainly, lemma_along_enclosing, lemma_content_differs, lemma_differ_back,
    lemma_escaped_same, lemma_in_string, lemma_placed_along, lemma_stays_in_string,
    lemma_string_in_block, lemma_symbol_words, lemma_value_is, out_of, string_at,
};
use crate::grammar::between;
use crate::scan::{
    balanced_block, block_end, block_starts, closes_at, cuttable, enclosing_block, enclosing_from,
    law_block_starts, lemma_block_cuttable, lemma_block_end, lemma_block_end_is, lemma_block_moved, lemma_depth_bound,
    lemma_lex_over_block, lemma_lex_same, lemma_lex_shift, lex, lex_step, opens, tag_opens, BACKSLASH,
    CLOSE, OPEN, QUOTE,
};
use crate::schematic::{
    instance_edits, instance_from, is_placed, law_rename_writes_only_the_name, property_edit, reference_edits,
    reference_text, renamed, renames_from, symbol_edits, symbol_instance,
};
use crate::sexp::{ends_atom, escaped, is_quotable, value_end};
use crate::substitution::lemma_same_range;
use crate::text::{
    boundary, bytes, first_byte, first_match, lemma_ascii_boundary, lemma_between_cuts,
    lemma_bytes_ascii, lemma_bytes_concat, lemma_bytes_injective, lemma_bytes_valid, lemma_ends, lemma_first_byte,
    lemma_first_match, matches_at, replaced, text_of,
};
use vstd::prelude::*;

verus! {

// ─── Designators ─────────────────────────────────────────────────────────────

/// The head of a symbol's Reference property.
pub open spec fn reference_head() -> Seq<u8> {
    bytes("(property \"Reference\" \""@)
}

/// A placed symbol carries the designator at `j`.
pub open spec fn stands_at(s: Seq<u8>, name: Seq<char>, j: int) -> bool {
    matches_at(s, j, bytes(reference_text(name))) && (enclosing_block(s, bytes("symbol"@), j) matches Some(
        (x, y),
    ) && is_placed(s.subrange(x, y)))
}

/// The string behind the quote at `a - 1` is the first thing of the `(reference …)` that
/// opens at `r`.
pub open spec fn entry_at(s: Seq<u8>, r: int, a: int) -> bool {
    &&& opens(s, r)
    &&& matches_at(s, r, bytes("(reference"@))
    &&& r + 10 < a <= s.len()
    &&& s[a - 1] == QUOTE
    &&& forall|k: int|
        r < k < a - 1 ==> #[trigger] s[k] != QUOTE && s[k] != OPEN && s[k] != CLOSE && s[k] != BACKSLASH
}

/// The content of a string that holds a designator: that of a Reference property, or
/// the first of an instance entry.
pub open spec fn is_designator(s: Seq<u8>, a: int, b: int) -> bool {
    string_at(s, 0, a, b) && (matches_at(s, a - 23, reference_head()) || exists|r: int| #[trigger]
        entry_at(s, r, a))
}

/// The entries in the first instances block of the symbol block `t` hold a string of
/// their own first, unless no string follows at all.
pub open spec fn instances_are_regular(t: Seq<u8>) -> bool {
    let starts = block_starts(t, bytes("instances"@), t.len() as int);
    starts.len() > 0 ==> (balanced_block(t, starts[0]) matches Some((a, b)) ==> forall|k: int|
        #![trigger block_starts(t.subrange(a, b), bytes("reference"@), b - a)[k]]
        0 <= k < block_starts(t.subrange(a, b), bytes("reference"@), b - a).len() ==> {
            let r = block_starts(t.subrange(a, b), bytes("reference"@), b - a)[k];
            first_byte(t.subrange(a, b), QUOTE, r) matches Some(q) ==> entry_at(t.subrange(a, b), r, q + 1)
        })
}

/// Each placed symbol with the designator has it in its first Reference property, outside
/// strings, and nowhere else, and its instance entries hold strings.
pub open spec fn is_regular(s: Seq<u8>, name: Seq<char>) -> bool {
    forall|j: int| #[trigger]
        stands_at(s, name, j) ==> {
            let (x, y) = enclosing_block(s, bytes("symbol"@), j).unwrap();
            &&& opens(s, j)
            &&& first_match(s.subrange(x, y), reference_head(), 0) == Some(j - x)
            &&& forall|i: int| x <= i < y && #[trigger] stands_at(s, name, i) ==> i == j
            &&& instances_are_regular(s.subrange(x, y))
        }
}

/// The text that the designator stands in occurs outside strings only.
pub open spec fn only_opens(s: Seq<u8>, name: Seq<char>) -> bool {
    forall|j: int| #[trigger] matches_at(s, j, bytes(reference_text(name))) ==> opens(s, j)
}

/// Behind each designator's string stands no word.
pub open spec fn stand_apart(s: Seq<u8>) -> bool {
    forall|a: int, b: int| #[trigger] is_designator(s, a, b) && b + 1 < s.len() ==> ends_atom(s[b + 1])
}

/// A name that is told from what it is found by: it does not end as the head of a
/// property begins, or the file has no place where that could be mistaken.
pub open spec fn is_found(s: Seq<u8>, name: Seq<char>) -> bool {
    &&& is_quotable(bytes(name))
    &&& ends_plainly(bytes(name)) || only_opens(s, name)
}

proof fn lemma_heads()
    ensures
        reference_head().len() == 23,
        reference_head()[0] == 40,
        reference_head()[10] == QUOTE,
        reference_head()[19] == 101,
        reference_head()[20] == QUOTE,
        reference_head()[21] == 32,
        reference_head()[22] == QUOTE,
        forall|k: int|
            0 <= k < 23 ==> #[trigger] reference_head()[k] != BACKSLASH && (reference_head()[k] == QUOTE ==> k
                == 10 || k == 20 || k == 22) && (reference_head()[k] == OPEN ==> k == 0)
                && reference_head()[k] != CLOSE,
        reference_head()[1] == 112,
        reference_head()[8] == 121,
        reference_head()[9] == 32,
        reference_head()[11] == 82,
        reference_head().subrange(0, 10) == bytes("(property "@),
        bytes("(reference"@).len() == 10,
        bytes("(reference"@)[0] == 40,
        bytes("(reference"@)[1] == 114,
        bytes("(reference"@) == seq![40u8] + bytes("reference"@),
{
    reveal_strlit("(property \"Reference\" \"");
    reveal_strlit("(reference");
    reveal_strlit("reference");
    reveal_strlit("(property ");
    lemma_bytes_ascii("(property \"Reference\" \""@);
    lemma_bytes_ascii("(reference"@);
    lemma_bytes_ascii("reference"@);
    lemma_bytes_ascii("(property "@);
    let h = "(property \"Reference\" \""@;
    let g = "(reference"@;
    assert(bytes(g) =~= seq![40u8] + bytes("reference"@)) by {
        assert forall|k: int| 0 < k < 10 implies g[k] == "reference"@[k - 1] by {}
    }
    assert(reference_head().subrange(0, 10) =~= bytes("(property "@)) by {
        assert forall|k: int| 0 <= k < 10 implies h[k] == "(property "@[k] by {}
    }
    assert forall|k: int| 0 <= k < 23 implies #[trigger] reference_head()[k] != BACKSLASH && (
    reference_head()[k] == QUOTE ==> k == 10 || k == 20 || k == 22) && (reference_head()[k] == OPEN ==> k
        == 0) && reference_head()[k] != CLOSE by {
        assert(reference_head()[k] == h[k] as u8);
        assert(h[k] != '\\' && h[k] != ')');
        assert(h[k] != '"' ==> h[k] as u8 != QUOTE);
    }
}

/// The bytes of a match.
proof fn lemma_match_bytes(s: Seq<u8>, j: int, pat: Seq<u8>)
    requires
        matches_at(s, j, pat),
    ensures
        0 <= j,
        j + pat.len() <= s.len(),
        forall|k: int| 0 <= k < pat.len() ==> #[trigger] pat[k] == s[j + k],
{
    let w = s.subrange(j, j + pat.len());
    assert(w == pat);
    assert forall|k: int| 0 <= k < pat.len() implies #[trigger] pat[k] == s[j + k] by {
        assert(w[k] == s[j + k]);
    }
}

/// What a designator stands in begins with the head of its property and goes on with
/// the name and a quote.
proof fn lemma_reference_parts(s: Seq<u8>, name: Seq<char>, j: int)
    ensures
        bytes(reference_text(name)).len() == 24 + bytes(name).len(),
        matches_at(s, j, bytes(reference_text(name))) == (matches_at(s, j, reference_head()) && matches_at(
            s,
            j + 23,
            bytes(name),
        ) && j + 23 + bytes(name).len() < s.len() && s[j + 23 + bytes(name).len()] == QUOTE),
{
    lemma_heads();
    reveal_strlit("\"");
    let h = "(property \"Reference\" \""@;
    let n = bytes(name);
    let pat = bytes(reference_text(name));
    lemma_bytes_concat(h + name, "\""@);
    lemma_bytes_concat(h, name);
    lemma_bytes_ascii("\""@);
    assert(pat =~= reference_head() + n + bytes("\""@));
    let l = n.len() as int;
    if matches_at(s, j, pat) {
        lemma_match_bytes(s, j, pat);
        assert(s.subrange(j, j + 23) =~= reference_head()) by {
            assert forall|k: int| 0 <= k < 23 implies s.subrange(j, j + 23)[k] == reference_head()[k] by {
                assert(pat[k] == s[j + k]);
            }
        }
        assert(s.subrange(j + 23, j + 23 + l) =~= n) by {
            assert forall|k: int| 0 <= k < l implies s.subrange(j + 23, j + 23 + l)[k] == n[k] by {
                assert(pat[23 + k] == s[j + (23 + k)]);
            }
        }
        assert(pat[23 + l] == s[j + (23 + l)]);
    }
    if matches_at(s, j, reference_head()) && matches_at(s, j + 23, n) && j + 23 + l < s.len() && s[j + 23 + l]
        == QUOTE {
        lemma_match_bytes(s, j, reference_head());
        lemma_match_bytes(s, j + 23, n);
        assert(s.subrange(j, j + 24 + l) =~= pat) by {
            assert forall|k: int| 0 <= k < 24 + l implies s.subrange(j, j + 24 + l)[k] == pat[k] by {
                if k < 23 {
                    assert(reference_head()[k] == s[j + k]);
                } else if k < 23 + l {
                    assert(n[k - 23] == s[j + 23 + (k - 23)]);
                }
            }
        }
    }
}

/// The bytes of what a designator stands in: beside those of the head and the last one,
/// every quote has a backslash before it.
proof fn lemma_pattern(name: Seq<char>)
    requires
        is_quotable(bytes(name)),
    ensures
        ({
            let pat = bytes(reference_text(name));
            let n = pat.len() as int;
            &&& n == 24 + bytes(name).len()
            &&& pat.subrange(0, 23) == reference_head()
            &&& pat.subrange(23, n - 1) == bytes(name)
            &&& pat[n - 1] == QUOTE
            &&& forall|k: int| 0 <= k < 23 ==> #[trigger] pat[k] == reference_head()[k]
            &&& forall|k: int|
                23 <= k < n - 1 && #[trigger] pat[k] == QUOTE ==> k > 23 && pat[k - 1] == BACKSLASH
        }),
{
    lemma_heads();
    reveal_strlit("\"");
    let h = "(property \"Reference\" \""@;
    let v = bytes(name);
    let pat = bytes(reference_text(name));
    lemma_bytes_concat(h + name, "\""@);
    lemma_bytes_concat(h, name);
    lemma_bytes_ascii("\""@);
    assert(pat =~= reference_head() + v + bytes("\""@));
    let n = pat.len() as int;
    assert(pat.subrange(0, 23) =~= reference_head());
    assert(pat.subrange(23, n - 1) =~= v);
    assert forall|k: int| 23 <= k < n - 1 && #[trigger] pat[k] == QUOTE implies k > 23 && pat[k - 1]
        == BACKSLASH by {
        assert(v[k - 23] == QUOTE);
        assert(escaped(v, 0, k - 23));
        assert(pat[k - 1] == v[k - 24]);
    }
}

/// Inside the designator of a Reference property that opens outside strings, a scan is in
/// its string.
proof fn lemma_in_designator(s: Seq<u8>, name: Seq<char>, p: int, j: int)
    requires
        is_quotable(bytes(name)),
        opens(s, p),
        matches_at(s, p, bytes(reference_text(name))),
        p + 23 <= j <= p + 23 + bytes(name).len(),
    ensures
        lex(s, 0, j).in_string,
{
    let v = bytes(name);
    lemma_heads();
    lemma_reference_parts(s, name, p);
    lemma_head_scan(s, p, 22);
    lemma_match_bytes(s, p, reference_head());
    lemma_match_bytes(s, p + 23, v);
    assert(reference_head()[22] == s[p + 22]);
    assert(lex(s, 0, p + 23) == lex_step(lex(s, 0, p + 22), s[p + 22]));
    assert forall|k: int| 0 <= k < v.len() implies #[trigger] v[k] == s[k + (p + 23)] by {
        assert(v[k] == s[p + 23 + k]);
    }
    assert forall|k: int| p + 23 <= k < j && #[trigger] s[k] == QUOTE implies escaped(s, p + 23, k) by {
        assert(v[k - (p + 23)] == s[k - (p + 23) + (p + 23)]);
        lemma_escaped_same(v, s, 0, k - (p + 23), p + 23);
    }
    lemma_stays_in_string(s, 0, p + 23, j);
}

/// Two of them do not overlap.
proof fn lemma_no_overlap(s: Seq<u8>, name: Seq<char>, p: int, j: int)
    requires
        is_found(s, name),
        matches_at(s, p, bytes(reference_text(name))),
        matches_at(s, j, bytes(reference_text(name))),
        p < j,
    ensures
        p + bytes(reference_text(name)).len() <= j,
{
    let pat = bytes(reference_text(name));
    let n = pat.len() as int;
    let d = j - p;
    lemma_pattern(name);
    lemma_match_bytes(s, p, pat);
    lemma_match_bytes(s, j, pat);
    lemma_heads();
    if d < n {
        assert(pat[0] == s[j + 0]);
        assert(pat[d] == s[p + d]);
        assert(pat[d] == OPEN);
        assert(d >= 23) by {
            if d < 23 {
                assert(pat[d] == reference_head()[d]);
            }
        }
        if !ends_plainly(bytes(name)) {
            assert(d < n - 1);
            lemma_in_designator(s, name, p, j);
            assert(false);
        }
        if d + 10 < n {
            assert(pat[10] == s[j + 10]);
            assert(pat[9] == s[j + 9]);
            assert(pat[d + 10] == s[p + (d + 10)]);
            assert(pat[d + 9] == s[p + (d + 9)]);
            assert(d + 10 == n - 1);
            let v = bytes(name);
            let tail = v.subrange(v.len() - 10, v.len() as int);
            assert forall|k: int| 0 <= k < 10 implies #[trigger] tail[k] == reference_head().subrange(0, 10)[k] by {
                assert(v[v.len() - 10 + k] == pat.subrange(23, n - 1)[v.len() - 10 + k]);
                assert(pat[d + k] == s[p + (d + k)]);
                assert(pat[k] == s[j + k]);
            }
            assert(tail =~= bytes("(property "@));
            assert(false);
        } else {
            assert(pat[n - 1] == s[p + (n - 1)]);
            assert(pat[n - 1 - d] == s[j + (n - 1 - d)]);
            assert(pat[n - 1 - d] == reference_head()[n - 1 - d]);
            assert(false);
        }
    }
}

// ─── Scans that begin elsewhere ──────────────────────────────────────────────

/// A scan that begins outside strings sees the same strings.
proof fn lemma_same_strings(s: Seq<u8>, from: int, k: int)
    requires
        0 <= from <= k,
        between(lex(s, 0, from)),
    ensures
        lex(s, from, k).in_string == lex(s, 0, k).in_string,
        lex(s, from, k).escape == lex(s, 0, k).escape,
    decreases k,
{
    if k > from {
        lemma_same_strings(s, from, k - 1);
    }
}

/// The rest of a text that is cut outside strings: what opens there opens in the text.
proof fn lemma_rest_opening(c: Seq<char>, from: int, p: int, tag: Seq<u8>)
    requires
        0 <= from <= bytes(c).len(),
        boundary(bytes(c), from),
        between(lex(bytes(c), 0, from)),
        0 <= p,
        from + p < bytes(c).len(),
    ensures
        ({
            let s = bytes(c);
            let rest = s.subrange(from, s.len() as int);
            &&& opens(rest, p) == opens(s, from + p)
            &&& opens(s, from + p) ==> tag_opens(rest, p, tag) == tag_opens(s, from + p, tag)
            &&& match block_end(s, from + p) {
                Some(e) => block_end(rest, p) == Some(e - from),
                None => block_end(rest, p).is_none(),
            }
        }),
{
    let s = bytes(c);
    let n = s.len() as int;
    let rest = s.subrange(from, n);
    assert forall|i: int| 0 <= i < rest.len() implies #[trigger] rest[i] == s[i + from] by {}
    lemma_lex_same(rest, s, 0, p, from);
    lemma_same_strings(s, from, from + p);
    lemma_ends(c);
    lemma_between_cuts(c, from, n);
    if opens(s, from + p) {
        lemma_ascii_boundary(c, from + p);
        lemma_ascii_boundary(text_of(rest), p);
    }
    let after = p + 1 + tag.len();
    if after <= rest.len() {
        assert(rest.subrange(p + 1, after) =~= s.subrange(from + p + 1, from + after));
        assert(rest.subrange(after, rest.len() as int) =~= s.subrange(from + after, n));
    }
    lemma_block_end_is(s, from + p);
    lemma_block_end_is(rest, p);
    if let Some(e) = block_end(s, from + p) {
        assert forall|i: int| from + p <= i < e implies #[trigger] s[i] == rest[i + (-from)] by {}
        lemma_block_moved(s, rest, from + p, e, -from);
        lemma_block_end(rest, p, e - from);
    }
    if let Some(f) = block_end(rest, p) {
        assert forall|i: int| p <= i < f implies #[trigger] rest[i] == s[i + from] by {}
        lemma_block_moved(rest, s, p, f, from);
        lemma_block_end(s, from + p, f + from);
    }
}

/// The enclosing block in the rest of a text is the one in the text, unless that opens
/// before the rest does.
proof fn lemma_rest_enclosing(c: Seq<char>, from: int, tag: Seq<u8>, p: int, pos: int)
    requires
        0 <= from <= bytes(c).len(),
        boundary(bytes(c), from),
        between(lex(bytes(c), 0, from)),
        from + p < bytes(c).len(),
    ensures
        enclosing_from(bytes(c).subrange(from, bytes(c).len() as int), tag, p, pos) == match enclosing_from(
            bytes(c),
            tag,
            from + p,
            from + pos,
        ) {
            Some((x, y)) => if x >= from {
                Some((x - from, y - from))
            } else {
                None
            },
            None => None,
        },
    decreases p + 1,
{
    if p >= 0 {
        lemma_rest_opening(c, from, p, tag);
        lemma_rest_enclosing(c, from, tag, p - 1, pos);
    } else {
        lemma_enclosing_low(bytes(c), tag, from + p, from + pos);
    }
}

proof fn lemma_enclosing_low(s: Seq<u8>, tag: Seq<u8>, p: int, pos: int)
    ensures
        enclosing_from(s, tag, p, pos) matches Some((x, y)) ==> {
            &&& 0 <= x <= p
            &&& pos < y
            &&& opens(s, x)
            &&& closes_at(s, x, y)
        },
    decreases p + 1,
{
    if p >= 0 {
        lemma_block_end_is(s, p);
        lemma_enclosing_low(s, tag, p - 1, pos);
    }
}

/// A designator stands in the rest of a text where it stands in the text, in a symbol
/// that opens in the rest.
proof fn lemma_rest_stands(c: Seq<char>, from: int, name: Seq<char>, p: int)
    requires
        0 <= from <= bytes(c).len(),
        boundary(bytes(c), from),
        between(lex(bytes(c), 0, from)),
        0 <= p,
    ensures
        ({
            let s = bytes(c);
            let rest = s.subrange(from, s.len() as int);
            let e = enclosing_block(s, bytes("symbol"@), from + p);
            &&& stands_at(rest, name, p) == (stands_at(s, name, from + p) && e.unwrap().0 >= from)
            &&& stands_at(rest, name, p) ==> enclosing_block(rest, bytes("symbol"@), p) == Some(
                (e.unwrap().0 - from, e.unwrap().1 - from),
            )
        }),
{
    let s = bytes(c);
    let n = s.len() as int;
    let rest = s.subrange(from, n);
    let pat = bytes(reference_text(name));
    lemma_reference_parts(s, name, from + p);
    if from + p + pat.len() <= n {
        assert(rest.subrange(p, p + pat.len()) =~= s.subrange(from + p, from + p + pat.len()));
        assert(matches_at(rest, p, pat) == matches_at(s, from + p, pat));
        lemma_rest_enclosing(c, from, bytes("symbol"@), p, p);
        lemma_enclosing_low(s, bytes("symbol"@), from + p, from + p);
        if let Some((x, y)) = enclosing_block(s, bytes("symbol"@), from + p) {
            if x >= from {
                assert(rest.subrange(x - from, y - from) =~= s.subrange(x, y));
            }
        }
    }
}

/// What is found carries the designator.
proof fn lemma_found_stands(s: Seq<u8>, name: Seq<char>, i: int) -> (p: int)
    requires
        0 <= i,
    ensures
        instance_from(s, name, i).is_some() ==> stands_at(s, name, p),
    decreases s.len() - i,
{
    let pat = bytes(reference_text(name));
    lemma_first_match(s, pat, i);
    lemma_reference_parts(s, name, 0);
    match first_match(s, pat, i) {
        None => 0,
        Some(q) => {
            if stands_at(s, name, q) {
                q
            } else {
                lemma_found_stands(s, name, q + pat.len())
            }
        },
    }
}

/// A name that can be looked for in a text can be looked for in the rest of it.
proof fn lemma_rest_found(c: Seq<char>, from: int, name: Seq<char>)
    requires
        0 <= from <= bytes(c).len(),
        boundary(bytes(c), from),
        between(lex(bytes(c), 0, from)),
        is_found(bytes(c), name),
    ensures
        is_found(bytes(c).subrange(from, bytes(c).len() as int), name),
{
    let s = bytes(c);
    let n = s.len() as int;
    let rest = s.subrange(from, n);
    let pat = bytes(reference_text(name));
    lemma_pattern(name);
    if !ends_plainly(bytes(name)) {
        assert forall|j: int| #[trigger] matches_at(rest, j, pat) implies opens(rest, j) by {
            assert(rest.subrange(j, j + pat.len()) =~= s.subrange(from + j, from + j + pat.len()));
            assert(matches_at(s, from + j, pat));
            lemma_rest_opening(c, from, j, bytes("property"@));
        }
    }
}

/// The symbol that is found is the first that carries the designator.
proof fn lemma_first_stands(s: Seq<u8>, name: Seq<char>, i: int) -> (p: int)
    requires
        is_found(s, name),
        0 <= i,
    ensures
        match instance_from(s, name, i) {
            Some((a, b)) => i <= p && stands_at(s, name, p) && enclosing_block(s, bytes("symbol"@), p) == Some(
                (a, b),
            ) && forall|j: int| i <= j < p ==> !#[trigger] stands_at(s, name, j),
            None => forall|j: int| i <= j ==> !#[trigger] stands_at(s, name, j),
        },
    decreases s.len() - i,
{
    let pat = bytes(reference_text(name));
    lemma_first_match(s, pat, i);
    lemma_pattern(name);
    match first_match(s, pat, i) {
        None => 0,
        Some(q) => {
            if stands_at(s, name, q) {
                q
            } else {
                let p = lemma_first_stands(s, name, q + pat.len());
                assert forall|j: int| i <= j < q + pat.len() implies !#[trigger] stands_at(s, name, j) by {
                    if stands_at(s, name, j) && j > q {
                        lemma_no_overlap(s, name, q, j);
                    }
                }
                p
            }
        },
    }
}

// ─── Places that are written ─────────────────────────────────────────────────

/// Through the head of a Reference property that opens outside strings.
proof fn lemma_head_scan(s: Seq<u8>, j: int, k: int)
    requires
        opens(s, j),
        matches_at(s, j, reference_head()),
        0 < k <= 22,
    ensures
        !lex(s, 0, j + k).escape,
        lex(s, 0, j + k).in_string == (10 < k <= 20),
    decreases k,
{
    lemma_heads();
    lemma_match_bytes(s, j, reference_head());
    lemma_depth_bound(s, 0, j);
    if k == 1 {
        assert(reference_head()[0] == s[j + 0]);
        assert(lex(s, 0, j + 1) == lex_step(lex(s, 0, j), s[j]));
    } else {
        lemma_head_scan(s, j, k - 1);
        assert(reference_head()[k - 1] == s[j + (k - 1)]);
        assert(lex(s, 0, j + k) == lex_step(lex(s, 0, j + k - 1), s[j + k - 1]));
    }
}

/// Up to the first quote of an entry a scan is outside strings.
proof fn lemma_entry_scan(s: Seq<u8>, r: int, a: int, k: int)
    requires
        entry_at(s, r, a),
        r < k <= a - 1,
    ensures
        between(lex(s, 0, k)),
    decreases k - r,
{
    lemma_depth_bound(s, 0, r);
    assert(lex(s, 0, k) == lex_step(lex(s, 0, k - 1), s[k - 1]));
    if k > r + 1 {
        lemma_entry_scan(s, r, a, k - 1);
        assert(s[k - 1] != QUOTE);
    }
}

/// An entry of one text is one of another that is the same up to there.
proof fn lemma_entry_moved(s: Seq<u8>, t: Seq<u8>, r: int, a: int, d: int)
    requires
        entry_at(s, r, a),
        0 <= r + d,
        a + d <= t.len(),
        !lex(t, 0, r + d).in_string,
        forall|k: int| r <= k < a ==> #[trigger] s[k] == t[k + d],
    ensures
        entry_at(t, r + d, a + d),
{
    lemma_heads();
    lemma_match_bytes(s, r, bytes("(reference"@));
    assert(s[r] == t[r + d]);
    lemma_same_range(s, t, r, r + 10, d);
    assert(s[a - 1] == t[a - 1 + d]);
    assert forall|k: int| r + d < k < a + d - 1 implies #[trigger] t[k] != QUOTE && t[k] != OPEN && t[k]
        != CLOSE && t[k] != BACKSLASH by {
        assert(s[k - d] == t[k - d + d]);
    }
}

/// The Reference property's edit covers its designator.
proof fn lemma_property_place(s: Seq<u8>, x: int, y: int, j: int, old: Seq<char>, new: Seq<u8>)
    requires
        opens(s, x),
        closes_at(s, x, y),
        x <= j,
        j + 23 <= y,
        opens(s, j),
        matches_at(s, j, reference_head()),
        first_match(s.subrange(x, y), reference_head(), 0) == Some(j - x),
        property_edit(s, s.subrange(x, y), x, old, new) is Ok,
    ensures
        ({
            let e = property_edit(s, s.subrange(x, y), x, old, new)->Ok_0;
            &&& e.start == j + 23
            &&& is_designator(s, e.start, e.end)
            &&& x < e.start
            &&& e.end < y
        }),
{
    let t = s.subrange(x, y);
    let h = reference_head();
    lemma_heads();
    let e = property_edit(s, t, x, old, new)->Ok_0;
    lemma_value_is(s, j + 23, j + 23);
    lemma_head_scan(s, j, 22);
    lemma_match_bytes(s, j, h);
    assert(h[22] == s[j + 22]);
    assert(string_at(s, 0, e.start, e.end));
    lemma_string_in_block(s, e.start, e.end, x, y);
}

/// What opens in a block of a text opens in the text.
proof fn lemma_block_opening(s: Seq<u8>, x: int, y: int, p: int)
    requires
        opens(s, x),
        closes_at(s, x, y),
        0 <= p,
        x + p < y,
    ensures
        opens(s.subrange(x, y), p) == opens(s, x + p),
        between(lex(s, 0, x)),
{
    let t = s.subrange(x, y);
    lemma_depth_bound(s, 0, x);
    assert forall|i: int| 0 <= i < t.len() implies #[trigger] t[i] == s[i + x] by {}
    lemma_lex_same(t, s, 0, p, x);
    lemma_same_strings(s, x, x + p);
}

/// The edits of instance entries cover designators, one after the other.
proof fn lemma_reference_places(
    s: Seq<u8>,
    x: int,
    y: int,
    starts: Seq<int>,
    k: int,
    new: Seq<u8>,
)
    requires
        opens(s, x),
        closes_at(s, x, y),
        0 <= k <= starts.len(),
        forall|i: int|
            0 <= i < starts.len() ==> opens(s.subrange(x, y), #[trigger] starts[i]) && (first_byte(
                s.subrange(x, y),
                QUOTE,
                starts[i],
            ) matches Some(q) ==> entry_at(s.subrange(x, y), starts[i], q + 1)),
        forall|i: int, j: int| 0 <= i < j < starts.len() ==> #[trigger] starts[i] < #[trigger] starts[j],
        reference_edits(s.subrange(x, y), starts, k, x, new).is_some(),
    ensures
        ({
            let v = reference_edits(s.subrange(x, y), starts, k, x, new).unwrap();
            &&& forall|i: int|
                0 <= i < v.len() ==> is_designator(s, (#[trigger] v[i]).start, v[i].end) && (exists|r: int|
                    #[trigger]
                    entry_at(s, r, v[i].start)) && x < v[i].start && v[i].end < y && (k < starts.len()
                    ==> x + starts[k] < v[i].start)
            &&& forall|i: int, j: int|
                0 <= i < j < v.len() ==> (#[trigger] v[i]).start < (#[trigger] v[j]).start
        }),
    decreases starts.len() - k,
{
    let t = s.subrange(x, y);
    let v = reference_edits(t, starts, k, x, new).unwrap();
    if k < starts.len() {
        let r = starts[k];
        lemma_reference_places(s, x, y, starts, k + 1, new);
        let rest = reference_edits(t, starts, k + 1, x, new).unwrap();
        if k + 1 < starts.len() {
            assert(starts[k] < starts[k + 1]);
        }
        match first_byte(t, QUOTE, r) {
            None => {
                assert(v == rest);
                if k + 1 < starts.len() && rest.len() > 0 {
                    assert forall|i: int| 0 <= i < v.len() implies x + starts[k] < (#[trigger] v[i]).start by {
                        assert(x + starts[k + 1] < rest[i].start);
                    }
                }
            },
            Some(q) => {
                lemma_first_byte(t, QUOTE, r);
                assert(entry_at(t, r, q + 1));
                let e = value_end(t, q + 1).unwrap();
                lemma_value_is(t, q + 1, q + 1);
                let a = x + q + 1;
                let b = x + e;
                lemma_block_opening(s, x, y, r);
                assert forall|i: int| r <= i < q + 1 implies #[trigger] t[i] == s[i + x] by {}
                lemma_entry_moved(t, s, r, q + 1, x);
                lemma_entry_scan(s, x + r, a, a - 1);
                assert(s[a - 1] == QUOTE && s[b] == QUOTE);
                assert forall|i: int| q + 1 <= i <= e implies escaped(t, q + 1, i) == #[trigger] escaped(
                    s,
                    a,
                    i + x,
                ) by {
                    assert forall|m: int| q + 1 <= m < i implies #[trigger] t[m] == s[m + x] by {}
                    lemma_escaped_same(t, s, q + 1, i, x);
                }
                assert(escaped(s, a, e + x) == escaped(t, q + 1, e));
                assert forall|i: int| a <= i < b && #[trigger] s[i] == QUOTE implies escaped(s, a, i) by {
                    assert(t[i - x] == QUOTE);
                    assert(escaped(s, a, i - x + x) == escaped(t, q + 1, i - x));
                }
                assert(string_at(s, 0, a, b));
                lemma_string_in_block(s, a, b, x, y);
                let first = Splice { start: a, end: b, bytes: new };
                assert(v =~= seq![first] + rest);
                if k + 1 < starts.len() {
                    let r2 = starts[k + 1];
                    assert(opens(t, r2));
                    assert(r2 > q) by {
                        if r2 <= q {
                            assert(t[r2] == OPEN);
                            assert(r2 != q);
                        }
                    }
                }
                assert forall|i: int| 0 <= i < v.len() implies is_designator(
                    s,
                    (#[trigger] v[i]).start,
                    v[i].end,
                ) && (exists|w: int| #[trigger] entry_at(s, w, v[i].start)) && x < v[i].start && v[i].end < y
                    && x + starts[k] < v[i].start by {
                    if i == 0 {
                        assert(v[i] == first);
                        assert(entry_at(s, x + r, a));
                    } else {
                        assert(v[i] == rest[i - 1]);
                        assert(k + 1 < starts.len());
                    }
                }
                assert forall|i: int, j: int| 0 <= i < j < v.len() implies (#[trigger] v[i]).start < (
                #[trigger] v[j]).start by {
                    assert(v[j] == rest[j - 1]);
                    if i == 0 {
                        assert(v[i] == first);
                        assert(k + 1 < starts.len());
                        assert(x + starts[k + 1] < rest[j - 1].start);
                    } else {
                        assert(v[i] == rest[i - 1]);
                    }
                }
            },
        }
    }
}

/// The edits of a symbol's instance entries cover designators, one after the other.
proof fn lemma_instance_places(s: Seq<u8>, x: int, y: int, old: Seq<char>, new: Seq<u8>)
    requires
        opens(s, x),
        closes_at(s, x, y),
        instances_are_regular(s.subrange(x, y)),
        instance_edits(s.subrange(x, y), x, old, new) is Ok,
    ensures
        ({
            let v = instance_edits(s.subrange(x, y), x, old, new)->Ok_0;
            &&& forall|i: int|
                0 <= i < v.len() ==> is_designator(s, (#[trigger] v[i]).start, v[i].end) && (exists|r: int|
                    #[trigger]
                    entry_at(s, r, v[i].start)) && x < v[i].start && v[i].end < y
            &&& forall|i: int, j: int|
                0 <= i < j < v.len() ==> (#[trigger] v[i]).start < (#[trigger] v[j]).start
        }),
{
    let t = s.subrange(x, y);
    let tag = bytes("instances"@);
    let starts = block_starts(t, tag, t.len() as int);
    if starts.len() > 0 {
        law_block_starts(t, tag, t.len() as int);
        assert(starts.contains(starts[0]));
        let a0 = starts[0];
        lemma_first_byte(t, OPEN, a0);
        let (a, b) = balanced_block(t, a0).unwrap();
        assert(a == a0);
        lemma_block_end_is(t, a);
        let inner = t.subrange(a, b);
        let px = x + a;
        let py = x + b;
        assert(inner =~= s.subrange(px, py));
        lemma_block_opening(s, x, y, a);
        assert forall|i: int| a <= i < b implies #[trigger] t[i] == s[i + x] by {}
        lemma_block_moved(t, s, a, b, x);
        let refs = block_starts(inner, bytes("reference"@), inner.len() as int);
        law_block_starts(inner, bytes("reference"@), inner.len() as int);
        assert forall|i: int| 0 <= i < refs.len() implies opens(inner, #[trigger] refs[i]) && (first_byte(
            inner,
            QUOTE,
            refs[i],
        ) matches Some(q) ==> entry_at(inner, refs[i], q + 1)) by {
            assert(refs.contains(refs[i]));
        }
        lemma_reference_places(s, px, py, refs, 0, new);
        let v = instance_edits(t, x, old, new)->Ok_0;
        assert(v == reference_edits(inner, refs, 0, px, new).unwrap());
    }
}

/// Edits that cover designators, each in its own string, past `from`.
spec fn well_placed(s: Seq<u8>, v: Seq<Splice>, from: int, to: int) -> bool {
    &&& forall|i: int|
        0 <= i < v.len() ==> is_designator(s, (#[trigger] v[i]).start, v[i].end) && from < v[i].start
            && v[i].end < to
    &&& forall|i: int, j: int| 0 <= i < j < v.len() ==> (#[trigger] v[i]).start != (#[trigger] v[j]).start
}

/// The edits of one symbol.
proof fn lemma_symbol_places(s: Seq<u8>, x: int, y: int, j: int, old: Seq<char>, new: Seq<u8>)
    requires
        opens(s, x),
        closes_at(s, x, y),
        x <= j,
        j + 23 <= y,
        opens(s, j),
        matches_at(s, j, reference_head()),
        first_match(s.subrange(x, y), reference_head(), 0) == Some(j - x),
        instances_are_regular(s.subrange(x, y)),
        symbol_edits(s, x, y, old, new) is Ok,
    ensures
        ({
            let v = symbol_edits(s, x, y, old, new)->Ok_0;
            &&& well_placed(s, v, x, y)
            &&& v.len() > 0
            &&& v[0].start == j + 23
        }),
{
    let t = s.subrange(x, y);
    let p = property_edit(s, t, x, old, new)->Ok_0;
    let w = instance_edits(t, x, old, new)->Ok_0;
    let v = symbol_edits(s, x, y, old, new)->Ok_0;
    lemma_property_place(s, x, y, j, old, new);
    lemma_instance_places(s, x, y, old, new);
    assert(v =~= seq![p] + w);
    lemma_heads();
    lemma_match_bytes(s, j, reference_head());
    assert forall|i: int| 0 <= i < v.len() implies is_designator(s, (#[trigger] v[i]).start, v[i].end) && x
        < v[i].start && v[i].end < y by {
        if i > 0 {
            assert(v[i] == w[i - 1]);
        }
    }
    assert forall|i: int, k: int| 0 <= i < k < v.len() implies (#[trigger] v[i]).start != (
    #[trigger] v[k]).start by {
        assert(v[k] == w[k - 1]);
        if i > 0 {
            assert(v[i] == w[i - 1]);
        } else {
            let r = choose|r: int| #[trigger] entry_at(s, r, w[k - 1].start);
            assert(reference_head()[20] == s[j + 20]);
        }
    }
}

/// A block inside another ends before it.
proof fn lemma_inner_block(s: Seq<u8>, x: int, y: int, p: int, e: int)
    requires
        opens(s, x),
        closes_at(s, x, y),
        x < p < y,
        opens(s, p),
        closes_at(s, p, e),
    ensures
        e <= y,
{
    if e > y {
        lemma_depth_bound(s, 0, x);
        lemma_depth_bound(s, x, p);
        lemma_same_strings(s, x, p);
        lemma_lex_shift(s, x, p, y);
        assert(lex(s, p, y).depth > 0);
    }
}

/// The walk over a schematic finds every placed symbol with the designator, and what it
/// writes are designators.
#[verifier::rlimit(40)]
proof fn lemma_walk(c: Seq<char>, old: Seq<char>, new: Seq<u8>, from: int)
    requires
        is_found(bytes(c), old),
        is_regular(bytes(c), old),
        0 <= from <= bytes(c).len(),
        boundary(bytes(c), from),
        between(lex(bytes(c), 0, from)),
        renames_from(bytes(c), old, new, from) is Ok,
    ensures
        ({
            let s = bytes(c);
            let r = renames_from(s, old, new, from)->Ok_0;
            &&& well_placed(s, r.edits, from, s.len() as int)
            &&& forall|j: int| #[trigger]
                stands_at(s, old, j) && j >= from && enclosing_block(s, bytes("symbol"@), j).unwrap().0
                    >= from ==> exists|i: int|
                    0 <= i < r.edits.len() && (#[trigger] r.edits[i]).start == j + 23
        }),
    decreases bytes(c).len() - from,
{
    let s = bytes(c);
    let n = s.len() as int;
    let rest = s.subrange(from, n);
    let tag = bytes("symbol"@);
    lemma_rest_found(c, from, old);
    let p = lemma_first_stands(rest, old, 0);
    let r = renames_from(s, old, new, from)->Ok_0;
    match symbol_instance(rest, old) {
        None => {
            assert forall|j: int| #[trigger]
                stands_at(s, old, j) && j >= from && enclosing_block(s, tag, j).unwrap().0
                    >= from implies exists|i: int|
                0 <= i < r.edits.len() && (#[trigger] r.edits[i]).start == j + 23 by {
                lemma_rest_stands(c, from, old, j - from);
                assert(stands_at(rest, old, j - from));
            }
        },
        Some((a, b)) => {
            lemma_rest_stands(c, from, old, p);
            let jj = from + p;
            let (x, y) = enclosing_block(s, tag, jj).unwrap();
            assert(x == from + a && y == from + b);
            lemma_enclosing_low(s, tag, jj, jj);
            lemma_reference_parts(s, old, jj);
            lemma_head_in_block(s, x, y, jj);
            let v = symbol_edits(s, x, y, old, new)->Ok_0;
            lemma_symbol_places(s, x, y, jj, old, new);
            lemma_depth_bound(s, 0, x);
            lemma_lex_over_block(s, 0, x, y);
            lemma_block_cuttable(c, x, y);
            lemma_walk(c, old, new, y);
            let later = renames_from(s, old, new, y)->Ok_0;
            assert(r.edits =~= v + later.edits);
            assert(well_placed(s, r.edits, from, n)) by {
                assert forall|i: int| 0 <= i < r.edits.len() implies is_designator(
                    s,
                    (#[trigger] r.edits[i]).start,
                    r.edits[i].end,
                ) && from < r.edits[i].start && r.edits[i].end < n by {
                    if i < v.len() {
                        assert(r.edits[i] == v[i]);
                    } else {
                        assert(r.edits[i] == later.edits[i - v.len()]);
                    }
                }
                assert forall|i: int, k: int| 0 <= i < k < r.edits.len() implies (
                #[trigger] r.edits[i]).start != (#[trigger] r.edits[k]).start by {
                    if k < v.len() {
                        assert(r.edits[i] == v[i] && r.edits[k] == v[k]);
                    } else {
                        assert(r.edits[k] == later.edits[k - v.len()]);
                        if i < v.len() {
                            assert(r.edits[i] == v[i]);
                        } else {
                            assert(r.edits[i] == later.edits[i - v.len()]);
                        }
                    }
                }
            }
            assert forall|j: int| #[trigger]
                stands_at(s, old, j) && j >= from && enclosing_block(s, tag, j).unwrap().0
                    >= from implies exists|i: int|
                0 <= i < r.edits.len() && (#[trigger] r.edits[i]).start == j + 23 by {
                lemma_rest_stands(c, from, old, j - from);
                assert(stands_at(rest, old, j - from));
                assert(j >= jj);
                lemma_reference_parts(s, old, j);
                if j == jj {
                    assert(r.edits[0] == v[0]);
                } else {
                    if j < y {
                        assert(stands_at(s, old, j));
                        assert(false);
                    }
                    let (x2, y2) = enclosing_block(s, tag, j).unwrap();
                    lemma_enclosing_low(s, tag, j, j);
                    if x2 < y {
                        if x2 > x {
                            lemma_inner_block(s, x, y, x2, y2);
                        } else if x2 == x {
                            lemma_block_end(s, x, y);
                            lemma_block_end(s, x, y2);
                        } else {
                            assert(stands_at(s, old, jj));
                        }
                        assert(false);
                    }
                    let i = choose|i: int|
                        0 <= i < later.edits.len() && (#[trigger] later.edits[i]).start == j + 23;
                    assert(r.edits[v.len() + i] == later.edits[i]);
                }
            }
        },
    }
}

/// The head of a property that opens in a block lies in it.
proof fn lemma_head_in_block(s: Seq<u8>, x: int, y: int, j: int)
    requires
        opens(s, x),
        closes_at(s, x, y),
        x <= j < y,
        opens(s, j),
        matches_at(s, j, reference_head()),
    ensures
        j + 23 <= y,
{
    lemma_heads();
    lemma_match_bytes(s, j, reference_head());
    lemma_block_end(s, x, y);
    lemma_block_end_is(s, x);
    if y < j + 23 {
        assert(reference_head()[y - 1 - j] == s[j + (y - 1 - j)]);
        assert(false);
    }
}

// ─── One exchange ────────────────────────────────────────────────────────────

/// The text of a designator does not reach into another designator's string, unless it
/// is its own.
proof fn lemma_designator_apart(s: Seq<u8>, a: int, b: int, name: Seq<char>, j: int)
    requires
        is_designator(s, a, b),
        is_quotable(bytes(name)),
        ends_plainly(s.subrange(a, b)) || b + 1 >= s.len() || ends_atom(s[b + 1]),
        matches_at(s, j, bytes(reference_text(name))),
        j + 23 != a,
    ensures
        out_of(j, a, b),
        j < a ==> j + bytes(reference_text(name)).len() <= a,
{
    lemma_heads();
    let h = reference_head();
    let pat = bytes(reference_text(name));
    let n = pat.len() as int;
    lemma_pattern(name);
    lemma_match_bytes(s, j, pat);
    if a <= j <= b {
        assert(pat[0] == s[j + 0]);
        assert(pat[10] == s[j + 10]);
        assert(pat[11] == s[j + 11]);
        if j + 10 < b {
            assert(pat[9] == s[j + 9]);
            assert(escaped(s, a, j + 10));
        }
        if b < j + 10 {
            assert(pat[b - j] == s[j + (b - j)]);
        }
        assert(b == j + 10);
        let v = s.subrange(a, b);
        let tail = v.subrange(v.len() - 10, v.len() as int);
        assert forall|k: int| 0 <= k < 10 implies #[trigger] tail[k] == h.subrange(0, 10)[k] by {
            assert(pat[k] == s[j + k]);
        }
        assert(tail =~= bytes("(property "@));
        assert(s[b + 1] == 82);
        assert(false);
    }
    if j < a && j + n > a {
        let k = a - 1 - j;
        assert(pat[k] == s[j + k]);
        assert(pat[k] == QUOTE);
        assert(k > 0);
        assert(pat[k - 1] == s[j + (k - 1)]);
        if matches_at(s, a - 23, h) {
            lemma_match_bytes(s, a - 23, h);
            assert(h[20] == s[a - 23 + 20] && h[21] == s[a - 23 + 21]);
            if k == 10 {
                assert(pat[8] == s[j + 8]);
            }
            assert(false);
        } else {
            let r = choose|r: int| #[trigger] entry_at(s, r, a);
            lemma_entry_apart(s, a, name, j, r);
        }
    }
}

/// The text of a designator does not reach into the string of an instance entry.
proof fn lemma_entry_apart(s: Seq<u8>, a: int, name: Seq<char>, j: int, r: int)
    requires
        is_quotable(bytes(name)),
        entry_at(s, r, a),
        matches_at(s, j, bytes(reference_text(name))),
        j < a,
    ensures
        j + bytes(reference_text(name)).len() <= a,
{
    lemma_heads();
    let pat = bytes(reference_text(name));
    let n = pat.len() as int;
    lemma_pattern(name);
    lemma_match_bytes(s, j, pat);
    lemma_match_bytes(s, r, bytes("(reference"@));
    if j + n > a {
        let k = a - 1 - j;
        assert(pat[k] == s[j + k]);
        assert(pat[k] == QUOTE);
        assert(pat[k - 1] == s[j + (k - 1)]);
        // The entry's own bytes before its quote.
        assert(s[a - 2] != BACKSLASH);
        assert(k < 23);
        assert(pat[k] == reference_head()[k]);
        assert(bytes("(reference"@)[0] == s[r + 0]);
        if j > r {
            assert(pat[0] == s[j + 0]);
            assert(false);
        }
        if j == r {
            assert(pat[1] == s[j + 1]);
            assert(bytes("(reference"@)[1] == s[r + 1]);
            assert(false);
        }
        assert(pat[r - j] == s[j + (r - j)]);
        assert(pat[r - j] == reference_head()[r - j]);
        assert(false);
    }
}

/// What holds a designator holds one after its content is exchanged.
proof fn lemma_designator_kept(s: Seq<u8>, t: Seq<u8>, a: int, b: int, c: int)
    requires
        is_designator(s, a, b),
        string_at(t, 0, a, c),
        forall|k: int| 0 <= k < a ==> #[trigger] s[k] == t[k + 0],
    ensures
        is_designator(t, a, c),
{
    lemma_heads();
    if matches_at(s, a - 23, reference_head()) {
        lemma_same_range(s, t, a - 23, a, 0);
    } else {
        let r = choose|r: int| #[trigger] entry_at(s, r, a);
        lemma_lex_same(s, t, 0, r, 0);
        lemma_entry_moved(s, t, r, a, 0);
    }
}

/// With one designator exchanged for another name, the text of the old name stands where
/// it stood, and not in the exchanged place.
proof fn lemma_matched_before(c: Seq<char>, a: int, b: int, old: Seq<char>, new: Seq<char>, j: int)
    requires
        is_designator(bytes(c), a, b),
        is_quotable(bytes(old)),
        is_quotable(bytes(new)),
        old != new,
        ends_plainly(bytes(new)) || b + 1 >= bytes(c).len() || ends_atom(bytes(c)[b + 1]),
        matches_at(replaced(bytes(c), a, b, bytes(new)), j, bytes(reference_text(old))),
    ensures
        ({
            let n = a + bytes(new).len();
            &&& j + 23 != a
            &&& out_of(j, a, n)
            &&& matches_at(bytes(c), along(j, a, n, b), bytes(reference_text(old)))
        }),
{
    let s = bytes(c);
    let v = bytes(new);
    let t = replaced(s, a, b, v);
    let n = a + v.len();
    let pat = bytes(reference_text(old));
    lemma_content_differs(c, a, b, new);
    lemma_differ_back(s, t, a, b, n);
    lemma_reference_parts(t, old, j);
    lemma_heads();
    lemma_designator_kept(s, t, a, b, n);
    if b + 1 < s.len() {
        assert(s[b + 1] == t[b + 1 + (n - b)]);
    }
    if j + 23 == a {
        lemma_other_name(t, a, old, new);
    }
    lemma_designator_apart(t, a, n, old, j);
    if j < a {
        lemma_same_range(t, s, j, j + pat.len(), 0);
    } else {
        lemma_same_range(t, s, j, j + pat.len(), b - n);
    }
}

/// With one designator exchanged for another name, what stands under the old name stood
/// there before, and not in the exchanged place.
#[verifier::rlimit(40)]
proof fn lemma_stood_before(c: Seq<char>, a: int, b: int, old: Seq<char>, new: Seq<char>, j: int)
    requires
        is_designator(bytes(c), a, b),
        is_quotable(bytes(old)),
        is_quotable(bytes(new)),
        old != new,
        ends_plainly(bytes(new)) || b + 1 >= bytes(c).len() || ends_atom(bytes(c)[b + 1]),
        stands_at(replaced(bytes(c), a, b, bytes(new)), old, j),
    ensures
        ({
            let n = a + bytes(new).len();
            &&& j + 23 != a
            &&& out_of(j, a, n)
            &&& stands_at(bytes(c), old, along(j, a, n, b))
        }),
{
    let s = bytes(c);
    let t = replaced(s, a, b, bytes(new));
    let n = a + bytes(new).len();
    let tag = bytes("symbol"@);
    lemma_matched_before(c, a, b, old, new, j);
    lemma_content_differs(c, a, b, new);
    lemma_differ_back(s, t, a, b, n);
    lemma_match_bytes(t, j, bytes(reference_text(old)));
    lemma_reference_parts(t, old, j);
    lemma_symbol_words();
    lemma_along_enclosing(text_of(t), c, a, n, b, "symbol"@, j, j);
    let i = along(j, a, n, b);
    let (x, y) = enclosing_block(t, tag, j).unwrap();
    lemma_placed_along(text_of(t), c, a, n, b, x, y);
    assert(enclosing_block(s, tag, i) == Some((along(x, a, n, b), along(y, a, n, b))));
}

/// A string that holds one name holds no other.
proof fn lemma_other_name(t: Seq<u8>, a: int, old: Seq<char>, new: Seq<char>)
    requires
        is_quotable(bytes(old)),
        is_quotable(bytes(new)),
        old != new,
        t.subrange(a, a + bytes(new).len()) == bytes(new),
        0 <= a,
        a + bytes(new).len() < t.len(),
        t[a + bytes(new).len()] == QUOTE,
    ensures
        !(matches_at(t, a, bytes(old)) && a + bytes(old).len() < t.len() && t[a + bytes(old).len()]
            == QUOTE),
{
    let x = bytes(old);
    let y = bytes(new);
    if matches_at(t, a, x) && a + x.len() < t.len() && t[a + x.len()] == QUOTE {
        let l = x.len() as int;
        let m = y.len() as int;
        assert forall|k: int| 0 <= k < l implies #[trigger] x[k] == t[k + a] by {
            assert(x[k] == t.subrange(a, a + l)[k]);
        }
        assert forall|k: int| 0 <= k < m implies #[trigger] y[k] == t[k + a] by {
            assert(y[k] == t.subrange(a, a + m)[k]);
        }
        lemma_escaped_same(x, t, 0, if l < m { l } else { m }, a);
        lemma_escaped_same(y, t, 0, if l < m { l } else { m }, a);
        if l < m {
            assert(y[l] == t[l + a]);
            assert(false);
        } else if m < l {
            assert(x[m] == t[m + a]);
            assert(false);
        }
        assert(x =~= y) by {
            assert forall|k: int| 0 <= k < l implies x[k] == y[k] by {
                assert(x[k] == t[k + a]);
            }
        }
        lemma_bytes_injective(old, new);
    }
}

// ─── All of them ─────────────────────────────────────────────────────────────

/// Two strings of a text do not overlap.
proof fn lemma_strings_apart(s: Seq<u8>, a: int, b: int, a2: int, b2: int)
    requires
        string_at(s, 0, a, b),
        string_at(s, 0, a2, b2),
        a < a2,
    ensures
        b < a2 - 1,
{
    if a2 - 1 <= b {
        lemma_in_string(s, 0, a, b, a2 - 1);
    }
}

/// What is well placed can be written in one go.
proof fn lemma_well_placed_fits(c: Seq<char>, v: Seq<Splice>, from: int, to: int)
    requires
        well_placed(bytes(c), v, from, to),
    ensures
        edits_fit(bytes(c), v),
{
    let s = bytes(c);
    assert forall|i: int| 0 <= i < v.len() implies cuttable(s, (#[trigger] v[i]).start, v[i].end) by {
        lemma_ascii_boundary(c, v[i].start - 1);
        lemma_ascii_boundary(c, v[i].end);
    }
    assert forall|i: int, j: int| 0 <= i < j < v.len() implies apart(#[trigger] v[i], #[trigger] v[j]) by {
        if v[i].start < v[j].start {
            lemma_strings_apart(s, v[i].start, v[i].end, v[j].start, v[j].end);
        } else {
            lemma_strings_apart(s, v[j].start, v[j].end, v[i].start, v[i].end);
        }
    }
}

/// Edits that are made past a place leave what stands before it.
pub proof fn lemma_patched_split(s: Seq<u8>, es: Seq<Splice>, pos: int)
    requires
        0 <= pos <= s.len(),
        es.len() > 0 ==> pos <= es[0].start <= s.len(),
    ensures
        patched(s, es, 0) == s.subrange(0, pos) + patched(s, es, pos),
{
    if es.len() == 0 {
        assert(s.subrange(0, s.len() as int) =~= s.subrange(0, pos) + s.subrange(pos, s.len() as int));
    } else {
        assert(s.subrange(0, es[0].start) =~= s.subrange(0, pos) + s.subrange(pos, es[0].start));
        assert(patched(s, es, 0) =~= s.subrange(0, pos) + patched(s, es, pos));
    }
}

/// Edits that stand in order, each in its own string.
spec fn in_order(s: Seq<u8>, d: Seq<Splice>) -> bool {
    &&& forall|i: int| 0 <= i < d.len() ==> is_designator(s, (#[trigger] d[i]).start, d[i].end)
    &&& forall|i: int, j: int| 0 <= i < j < d.len() ==> (#[trigger] d[i]).start < (#[trigger] d[j]).start
}

/// With the edits from `k` on made, the one before them is made on top.
proof fn lemma_one_more(s: Seq<u8>, d: Seq<Splice>, k: int)
    requires
        0 <= k < d.len(),
        in_order(s, d),
    ensures
        ({
            let u = patched(s, d.skip(k + 1), 0);
            let e = d[k];
            &&& patched(s, d.skip(k), 0) == replaced(u, e.start, e.end, e.bytes)
            &&& is_designator(u, e.start, e.end)
            &&& u.len() > e.end + 1 ==> s.len() > e.end + 1 && u[e.end + 1] == s[e.end + 1]
        }),
{
    let e = d[k];
    let f = d.skip(k + 1);
    let u = patched(s, f, 0);
    assert(is_designator(s, e.start, e.end));
    if f.len() > 0 {
        assert(f[0] == d[k + 1]);
        lemma_strings_apart(s, e.start, e.end, d[k + 1].start, d[k + 1].end);
    }
    let q = e.end + 1;
    lemma_patched_split(s, f, e.end);
    lemma_patched_split(s, f, q);
    if s.len() > q {
        lemma_patched_split(s, f, q + 1);
        assert(u[q] == s.subrange(0, q + 1)[q]);
    } else {
        assert(f.len() == 0);
        assert(u =~= s);
    }
    assert(d.skip(k)[0] == e);
    assert(d.skip(k).drop_first() =~= f);
    assert(patched(s, d.skip(k), 0) =~= replaced(u, e.start, e.end, e.bytes));
    assert forall|i: int| 0 <= i < q implies #[trigger] s[i] == u[i + 0] by {}
    lemma_lex_same(s, u, 0, e.start - 1, 0);
    assert forall|i: int| e.start <= i <= e.end implies escaped(s, e.start, i) == #[trigger] escaped(
        u,
        e.start,
        i,
    ) by {
        assert forall|m: int| e.start <= m < i implies #[trigger] s[m] == u[m + 0] by {}
        lemma_escaped_same(s, u, e.start, i, 0);
    }
    assert(escaped(s, e.start, e.end) == escaped(u, e.start, e.end));
    assert forall|i: int| e.start <= i < e.end && #[trigger] u[i] == QUOTE implies escaped(u, e.start, i) by {
        assert(s[i] == u[i + 0]);
        assert(escaped(s, e.start, i) == escaped(u, e.start, i));
    }
    assert(s[e.start - 1] == u[e.start - 1 + 0] && s[e.end] == u[e.end + 0]);
    assert(string_at(u, 0, e.start, e.end));
    lemma_designator_kept(s, u, e.start, e.end, e.end);
}

/// After the edits from `k` on, what stands under the old name are designators that the
/// edits before them cover.
proof fn lemma_left_over(c: Seq<char>, d: Seq<Splice>, old: Seq<char>, new: Seq<char>, k: int)
    requires
        is_quotable(bytes(old)),
        is_quotable(bytes(new)),
        old != new,
        ends_plainly(bytes(new)) || stand_apart(bytes(c)),
        0 <= k <= d.len(),
        in_order(bytes(c), d),
        forall|i: int| 0 <= i < d.len() ==> (#[trigger] d[i]).bytes == bytes(new),
        forall|j: int| #[trigger]
            stands_at(bytes(c), old, j) ==> exists|i: int|
                0 <= i < d.len() && (#[trigger] d[i]).start == j + 23,
    ensures
        ({
            let u = patched(bytes(c), d.skip(k), 0);
            &&& bytes(text_of(u)) == u
            &&& forall|j: int| #[trigger]
                stands_at(u, old, j) ==> exists|i: int| 0 <= i < k && (#[trigger] d[i]).start == j + 23
        }),
    decreases d.len() - k,
{
    let s = bytes(c);
    let u = patched(s, d.skip(k), 0);
    if k == d.len() {
        assert(u =~= s);
        lemma_bytes_valid(c);
    } else {
        lemma_left_over(c, d, old, new, k + 1);
        lemma_one_more(s, d, k);
        let above = patched(s, d.skip(k + 1), 0);
        let e = d[k];
        let n = e.start + bytes(new).len();
        lemma_content_differs(text_of(above), e.start, e.end, new);
        assert(is_designator(s, e.start, e.end));
        assert forall|j: int| #[trigger] stands_at(u, old, j) implies exists|i: int|
            0 <= i < k && (#[trigger] d[i]).start == j + 23 by {
            lemma_stood_before(text_of(above), e.start, e.end, old, new, j);
            let j0 = along(j, e.start, n, e.end);
            assert(stands_at(above, old, j0));
            let i = choose|i: int| 0 <= i < k + 1 && (#[trigger] d[i]).start == j0 + 23;
            if i < k {
                assert(d[i].start < d[k].start);
            }
            assert(j0 == j);
        }
    }
}

/// A component that is not there is not renamed.
pub proof fn law_absent_component_is_refused(s: Seq<u8>, old: Seq<char>, new: Seq<char>)
    requires
        symbol_instance(s, old).is_none(),
    ensures
        renamed(s, old, new) is Err,
{
    assert(s.subrange(0, s.len() as int) =~= s);
}

/// Whatever the schematic and the names: a rename that succeeds renames a unit, makes one
/// edit for each unit and each instance entry, and writes nothing but the new name.
pub proof fn law_rename_is_counted(s: Seq<u8>, old: Seq<char>, new: Seq<char>)
    ensures
        renamed(s, old, new) matches Ok(r) ==> {
            &&& r.units >= 1
            &&& r.edits.len() == r.units + r.instances
            &&& forall|i: int| 0 <= i < r.edits.len() ==> (#[trigger] r.edits[i]).bytes == bytes(new)
        },
{
    if renamed(s, old, new) is Ok {
        law_rename_writes_only_the_name(s, old, bytes(new), 0);
    }
}

/// A rename writes the new name over designators and over nothing else, in one place for
/// each unit and one for each instance entry, no two of them overlapping; and afterwards
/// no placed symbol is found under the old name.
///
/// The names are as they stand in the file, with their escapes. Left out are schematics
/// in which it fails: where a symbol has the name in a second Reference property, in a
/// string or in a symbol inside it, or an instance entry has no string of its own, so that
/// the next string of the file is overwritten. A name that ends in `(property ` is left
/// out only where the file has a string that touches the word behind it.
pub proof fn law_renamed_component_is_gone(c: Seq<char>, old: Seq<char>, new: Seq<char>)
    requires
        is_found(bytes(c), old),
        is_quotable(bytes(new)),
        ends_plainly(bytes(new)) || stand_apart(bytes(c)),
        old != new,
        is_regular(bytes(c), old),
        renamed(bytes(c), old, new) is Ok,
    ensures
        ({
            let s = bytes(c);
            let r = renamed(s, old, new)->Ok_0;
            &&& r.units >= 1
            &&& r.edits.len() == r.units + r.instances
            &&& edits_fit(s, r.edits)
            &&& forall|i: int|
                0 <= i < r.edits.len() ==> (#[trigger] r.edits[i]).bytes == bytes(new) && is_designator(
                    s,
                    r.edits[i].start,
                    r.edits[i].end,
                )
            &&& symbol_instance(edited(s, r.edits), old).is_none()
        }),
{
    let s = bytes(c);
    let r = renamed(s, old, new)->Ok_0;
    lemma_ends(c);
    law_rename_is_counted(s, old, new);
    lemma_walk(c, old, bytes(new), 0);
    lemma_well_placed_fits(c, r.edits, 0, s.len() as int);
    lemma_sorted_in_line(s, r.edits);
    let d = sort_edits(r.edits);
    assert forall|i: int| 0 <= i < d.len() implies is_designator(s, (#[trigger] d[i]).start, d[i].end)
        && d[i].bytes == bytes(new) by {
        assert(d.contains(d[i]));
        let k = choose|k: int| 0 <= k < r.edits.len() && r.edits[k] == d[i];
        assert(r.edits[k] == d[i]);
    }
    lemma_sorted_rises(s, r.edits);
    assert forall|j: int| #[trigger] stands_at(s, old, j) implies exists|i: int|
        0 <= i < d.len() && (#[trigger] d[i]).start == j + 23 by {
        lemma_enclosing_low(s, bytes("symbol"@), j, j);
        lemma_reference_parts(s, old, j);
        let k = choose|k: int| 0 <= k < r.edits.len() && (#[trigger] r.edits[k]).start == j + 23;
        assert(r.edits.contains(r.edits[k]));
        lemma_sort_keeps(r.edits, r.edits[k]);
        let i = choose|i: int| 0 <= i < d.len() && d[i] == r.edits[k];
        assert(d[i].start == j + 23);
    }
    assert(in_order(s, d));
    lemma_left_over(c, d, old, new, 0);
    assert(d.skip(0) =~= d);
    let p = lemma_found_stands(edited(s, r.edits), old, 0);
}

/// Edits that begin in different places are in rising order once they are sorted.
pub proof fn lemma_sorted_rises(s: Seq<u8>, es: Seq<Splice>)
    requires
        edits_fit(s, es),
        boundary(s, 0),
        forall|i: int, j: int| 0 <= i < j < es.len() ==> (#[trigger] es[i]).start != (#[trigger] es[j]).start,
    ensures
        forall|i: int, j: int|
            0 <= i < j < es.len() ==> (#[trigger] sort_edits(es)[i]).start < (#[trigger] sort_edits(
                es,
            )[j]).start,
    decreases es.len(),
{
    if es.len() > 0 {
        let front = es.drop_last();
        let e = es.last();
        let d = sort_edits(front);
        let r = sort_edits(es);
        assert forall|i: int, j: int| 0 <= i < j < front.len() implies apart(
            #[trigger] front[i],
            #[trigger] front[j],
        ) && front[i].start != front[j].start by {
            assert(front[i] == es[i] && front[j] == es[j]);
            assert(apart(es[i], es[j]));
        }
        assert forall|i: int| 0 <= i < front.len() implies cuttable(s, (#[trigger] front[i]).start, front[i].end) by {
            assert(front[i] == es[i]);
        }
        lemma_sorted_rises(s, front);
        lemma_sorted_in_line(s, front);
        lemma_sorted_in_line(s, es);
        let p = crate::edit::edit_place(d, e);
        crate::edit::lemma_edit_place(d, e);
        assert forall|i: int, j: int| 0 <= i < j < es.len() implies (#[trigger] r[i]).start < (
        #[trigger] r[j]).start by {
            assert(not_after(r[i], r[j]));
            if i == p || j == p {
                let m = if i == p {
                    j - 1
                } else if i < p {
                    i
                } else {
                    i - 1
                };
                assert(d.contains(d[m]));
                let k = choose|k: int| 0 <= k < front.len() && front[k] == d[m];
                assert(es[k] == d[m]);
                assert(es[k].start != es[es.len() - 1].start);
            } else {
                let x = if i < p {
                    i
                } else {
                    i - 1
                };
                let y = if j < p {
                    j
                } else {
                    j - 1
                };
                assert(r[i] == d[x] && r[j] == d[y]);
            }
        }
    }
}

} // verus!
