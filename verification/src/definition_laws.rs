//! What a `lib_id` resolves to, and what a schematic holds once it is embedded.

use crate::chars::blank;
use crate::field_laws::{lemma_stays_in_string, lemma_value_end, lemma_value_is};
use crate::grammar::{between, lemma_atom_end, lemma_over_blanks};
use crate::library::{
    block_named, extends_from, is_gap, lemma_block_named, lemma_library_symbol, lib_id_parts, lib_id_text,
    library_symbols, past_gaps, qualified, resolved, resolved_from, string_end, string_range,
    symbol_name, symbol_text, with_own_name,
};
use crate::net::in_quotes;
use crate::rewriting::lemma_escapes_moved;
use crate::scan::{
    lemma_block_cuttable, lemma_block_end_is, lex, lex_step, opens, outside, skip_blank, CLOSE, OPEN,
    QUOTE, BACKSLASH,
};
use crate::schematic::{
    defined_in, definition_of, embedded, has_definition, is_definition, lemma_lib_symbols_at,
    lib_symbols_at, parent_id, with_node,
};
use crate::sexp::{
    ends_atom, escaped, is_quotable, items_in, parse_items, parse_node, parse_text, read_name,
    string_close, tag_in, value_end, Sexp,
};
use crate::text::{
    bytes, first_byte, lemma_ascii_boundary, lemma_between_cuts, lemma_bytes_ascii, lemma_bytes_concat,
    lemma_bytes_injective, lemma_bytes_valid, lemma_ends, lemma_first_byte, matches_at, replaced,
    text_of,
};
use vstd::prelude::*;

verus! {

// ─── Headers ─────────────────────────────────────────────────────────────────

/// Between quotes the name leaves the string again and names a parent there, one without
/// a library, as `a" (extends "b" "` does.
pub open spec fn hides_parent(name: Seq<char>) -> bool {
    let q = bytes(in_quotes(name));
    extends_from(q, 0) matches Some((a, b)) && first_byte(q.subrange(a + 1, b - 1), 0x3a, 0).is_none()
}

/// The name stands at `j` between quotes.
pub open spec fn quoted_at(t: Seq<u8>, j: int, name: Seq<u8>) -> bool {
    &&& 0 <= j
    &&& j + 2 + name.len() <= t.len()
    &&& t[j] == QUOTE
    &&& t.subrange(j + 1, j + 1 + name.len()) == name
    &&& t[j + 1 + name.len()] == QUOTE
}

/// The text begins as the definition of the name does.
pub open spec fn is_headed(t: Seq<u8>, name: Seq<u8>) -> bool {
    &&& t.len() > 7
    &&& matches_at(t, 0, bytes("(symbol"@))
    &&& is_gap(t[7])
    &&& quoted_at(t, past_gaps(t, 7), name)
}

proof fn lemma_past_gaps(t: Seq<u8>, i: int)
    requires
        0 <= i <= t.len(),
    ensures
        i <= past_gaps(t, i) <= t.len(),
        forall|k: int| i <= k < past_gaps(t, i) ==> is_gap(#[trigger] t[k]),
        past_gaps(t, i) < t.len() ==> !is_gap(t[past_gaps(t, i)]),
    decreases t.len() - i,
{
    if i < t.len() && is_gap(t[i]) {
        lemma_past_gaps(t, i + 1);
    }
}

proof fn lemma_past_gaps_is(t: Seq<u8>, i: int, j: int)
    requires
        0 <= i <= j < t.len(),
        forall|k: int| i <= k < j ==> is_gap(#[trigger] t[k]),
        !is_gap(t[j]),
    ensures
        past_gaps(t, i) == j,
    decreases j - i,
{
    if i < j {
        lemma_past_gaps_is(t, i + 1, j);
    }
}

/// A string ends where it reads to.
proof fn lemma_string_end_value(t: Seq<u8>, from: int, i: int)
    requires
        0 <= from <= i,
        !escaped(t, from, i),
    ensures
        string_end(t, i) == match string_close(t, from, i, t.len() as int) {
            Some(e) => e + 1,
            None => t.len() as int,
        },
    decreases t.len() - i,
{
    reveal_with_fuel(string_close, 3);
    if i < t.len() {
        if t[i] == BACKSLASH {
            assert(escaped(t, from, i + 1));
            assert(string_end(t, i) == string_end(t, i + 2));
            if i + 1 < t.len() {
                assert(!escaped(t, from, i + 2));
                assert(string_close(t, from, i, t.len() as int) == string_close(
                    t,
                    from,
                    i + 2,
                    t.len() as int,
                ));
                lemma_string_end_value(t, from, i + 2);
            }
        } else if t[i] != QUOTE {
            assert(!escaped(t, from, i + 1));
            lemma_string_end_value(t, from, i + 1);
        }
    }
}

/// Without a quote that ends it, a string has only escaped quotes.
proof fn lemma_unclosed(s: Seq<u8>, a: int, i: int)
    requires
        0 <= a <= i,
        string_close(s, a, i, s.len() as int).is_none(),
    ensures
        forall|k: int| i <= k < s.len() && #[trigger] s[k] == QUOTE ==> escaped(s, a, k),
    decreases s.len() - i,
{
    if i < s.len() {
        lemma_unclosed(s, a, i + 1);
    }
}

/// Before its name is read, a scan of a header is in one block and in no string.
proof fn lemma_header_scan(t: Seq<u8>, p: int, j: int, k: int)
    requires
        0 <= p,
        p + 8 <= j < t.len(),
        matches_at(t, p, bytes("(symbol"@)),
        forall|i: int| p + 7 <= i < j ==> is_gap(#[trigger] t[i]),
        p < k <= j,
    ensures
        lex(t, p, k).depth == 1,
        !lex(t, p, k).in_string,
        !lex(t, p, k).escape,
        t[p] == OPEN,
        forall|i: int| p < i < j ==> #[trigger] t[i] != OPEN && t[i] != CLOSE && t[i] != QUOTE,
    decreases k,
{
    reveal_strlit("(symbol");
    lemma_bytes_ascii("(symbol"@);
    let w = t.subrange(p, p + 7);
    assert(w == bytes("(symbol"@));
    assert(t[p] == w[0]);
    assert forall|i: int| p < i < j implies #[trigger] t[i] != OPEN && t[i] != CLOSE && t[i] != QUOTE by {
        if i < p + 7 {
            assert(t[i] == w[i - p]);
        } else {
            assert(is_gap(t[i]));
        }
    }
    if k == p + 1 {
        assert(lex(t, p, p) == outside());
        assert(lex(t, p, k) == lex_step(lex(t, p, p), t[p]));
    } else {
        lemma_header_scan(t, p, j, k - 1);
        assert(lex(t, p, k) == lex_step(lex(t, p, k - 1), t[k - 1]));
    }
}

/// The name in the header is all of its string.
pub open spec fn reads_to_name(t: Seq<u8>, name: Seq<u8>) -> bool {
    value_end(t, past_gaps(t, 7) + 1) == Some(past_gaps(t, 7) + 1 + name.len())
}

/// A library's symbol begins with its own header.
proof fn lemma_symbol_is_headed(c: Seq<char>, name: Seq<char>)
    requires
        symbol_text(bytes(c), name).is_some(),
    ensures
        is_headed(symbol_text(bytes(c), name).unwrap(), bytes(name)),
        reads_to_name(symbol_text(bytes(c), name).unwrap(), bytes(name)),
        bytes(text_of(symbol_text(bytes(c), name).unwrap())) == symbol_text(bytes(c), name).unwrap(),
{
    let s = bytes(c);
    lemma_block_named(library_symbols(s), name, 0);
    let b = block_named(library_symbols(s), name, 0).unwrap();
    lemma_library_symbol(s, b);
    let p = b.start;
    let e = b.end;
    lemma_block_end_is(s, p);
    let (x, y) = symbol_name(s, p).unwrap();
    let j = past_gaps(s, p + 7);
    lemma_past_gaps(s, p + 7);
    reveal_strlit("(symbol");
    reveal_strlit("symbol");
    lemma_bytes_ascii("(symbol"@);
    lemma_bytes_ascii("symbol"@);
    assert(matches_at(s, p, bytes("(symbol"@))) by {
        let w = s.subrange(p + 1, p + 7);
        assert(w == bytes("symbol"@));
        assert forall|k: int| 0 <= k < 7 implies #[trigger] s.subrange(p, p + 7)[k] == bytes("(symbol"@)[k] by {
            if k > 0 {
                assert(w[k - 1] == s[p + k]);
            }
        }
        assert(s.subrange(p, p + 7) =~= bytes("(symbol"@));
    }
    assert(is_gap(s[p + 7]));
    assert(j >= p + 8) by {
        if j == p + 7 {
            assert(!is_gap(s[j]));
        }
    }
    lemma_header_scan(s, p, j, j);
    // The name, its bytes, and the quote that ends it.
    lemma_ascii_boundary(c, j);
    lemma_string_end_value(s, j + 1, j + 1);
    lemma_value_is(s, j + 1, j + 1);
    assert(x == j + 1 && y == string_end(s, j + 1) - 1);
    lemma_between_cuts(c, x, y);
    assert(s.subrange(x, y) == bytes(name));
    assert(lex(s, p, x) == lex_step(lex(s, p, j), s[j]));
    if value_end(s, x).is_none() {
        lemma_unclosed(s, x, x);
        assert forall|k: int| p < k <= s.len() implies (#[trigger] lex(s, p, k)).depth == 1 by {
            if k <= j {
                lemma_header_scan(s, p, j, k);
            } else {
                lemma_stays_in_string(s, p, x, k);
            }
        }
        assert(lex(s, p, e).depth == 0);
        assert(false);
    }
    assert(value_end(s, x) == Some(y));
    assert forall|k: int| p < k <= y + 1 implies (#[trigger] lex(s, p, k)).depth == 1 by {
        if k <= j {
            lemma_header_scan(s, p, j, k);
        } else if k <= y {
            lemma_stays_in_string(s, p, x, k);
        } else {
            lemma_stays_in_string(s, p, x, y);
            assert(lex(s, p, y + 1) == lex_step(lex(s, p, y), s[y]));
        }
    }
    assert(e > y + 1) by {
        assert(lex(s, p, e).depth == 0);
    }
    let t = s.subrange(p, e);
    assert(t.subrange(0, 7) =~= s.subrange(p, p + 7));
    assert forall|k: int| 7 <= k < j - p implies is_gap(#[trigger] t[k]) by {
        assert(is_gap(s[k + p]));
    }
    lemma_past_gaps_is(t, 7, j - p);
    assert(t.subrange(x - p, y - p) =~= s.subrange(x, y));
    assert(quoted_at(t, j - p, bytes(name)));
    assert forall|k: int| x - p <= k < y - p && #[trigger] t[k] == QUOTE implies escaped(t, x - p, k) by {
        assert(s[k + p] == QUOTE);
        lemma_escapes_moved(s, t, x, k + p, -p);
    }
    lemma_escapes_moved(s, t, x, y, -p);
    lemma_value_end(t, x - p, y - p, x - p);
    lemma_block_cuttable(c, p, e);
    lemma_between_cuts(c, p, e);
}

/// Inside the name, a scan of the header is in a string where one of the quoted name is.
proof fn lemma_name_scan(t: Seq<u8>, q: Seq<u8>, j: int, k: int)
    requires
        0 <= k <= q.len(),
        0 <= j,
        between(lex(t, 0, j)),
        j + q.len() <= t.len(),
        forall|m: int| 0 <= m < q.len() ==> #[trigger] q[m] == t[j + m],
    ensures
        lex(q, 0, k).in_string == lex(t, 0, j + k).in_string,
        lex(q, 0, k).escape == lex(t, 0, j + k).escape,
    decreases k,
{
    if k > 0 {
        lemma_name_scan(t, q, j, k - 1);
        assert(q[k - 1] == t[j + (k - 1)]);
        assert(lex(q, 0, k) == lex_step(lex(q, 0, k - 1), q[k - 1]));
        assert(lex(t, 0, j + k) == lex_step(lex(t, 0, j + k - 1), t[j + k - 1]));
    }
}

/// A name between quotes, as bytes.
proof fn lemma_quoted_bytes(name: Seq<char>)
    ensures
        bytes(in_quotes(name)) == seq![QUOTE] + bytes(name) + seq![QUOTE],
{
    reveal_strlit("\"");
    lemma_bytes_ascii("\""@);
    lemma_bytes_concat("\""@ + name, "\""@);
    lemma_bytes_concat("\""@, name);
    assert(bytes("\""@) =~= seq![QUOTE]);
}

/// A header holds its name between quotes.
proof fn lemma_header_holds(t: Seq<u8>, name: Seq<char>)
    requires
        is_headed(t, bytes(name)),
    ensures
        ({
            let j = past_gaps(t, 7);
            let q = bytes(in_quotes(name));
            &&& 8 <= j
            &&& j + q.len() <= t.len()
            &&& q.len() == bytes(name).len() + 2
            &&& forall|m: int| 0 <= m < q.len() ==> #[trigger] q[m] == t[j + m]
            &&& between(lex(t, 0, j))
            &&& forall|i: int| 0 <= i <= j ==> !(#[trigger] opens(t, i) && matches_at(t, i, bytes("(extends"@)))
        }),
{
    let j = past_gaps(t, 7);
    let n = bytes(name);
    let q = bytes(in_quotes(name));
    lemma_quoted_bytes(name);
    lemma_past_gaps(t, 7);
    assert(j >= 8) by {
        if j == 7 {
            assert(!is_gap(t[j]));
        }
    }
    lemma_header_scan(t, 0, j, j);
    assert forall|m: int| 0 <= m < q.len() implies #[trigger] q[m] == t[j + m] by {
        if 0 < m < q.len() - 1 {
            assert(n[m - 1] == t.subrange(j + 1, j + 1 + n.len())[m - 1]);
        }
    }
    reveal_strlit("(symbol");
    reveal_strlit("(extends");
    lemma_bytes_ascii("(symbol"@);
    lemma_bytes_ascii("(extends"@);
    assert forall|i: int| 0 <= i <= j implies !(#[trigger] opens(t, i) && matches_at(
        t,
        i,
        bytes("(extends"@),
    )) by {
        if i == 0 {
            assert(t.subrange(0, 7)[1] == t[1]);
            if matches_at(t, 0, bytes("(extends"@)) {
                assert(t.subrange(0, 8)[1] == t[1]);
            }
        }
    }
}

/// No parent is named before the name in the header.
proof fn lemma_extends_from_name(t: Seq<u8>, name: Seq<char>, i: int)
    requires
        is_headed(t, bytes(name)),
        0 <= i <= past_gaps(t, 7),
    ensures
        extends_from(t, i) == extends_from(t, past_gaps(t, 7)),
    decreases past_gaps(t, 7) - i,
{
    lemma_header_holds(t, name);
    if i < past_gaps(t, 7) {
        assert(!(opens(t, i) && matches_at(t, i, bytes("(extends"@))));
        lemma_extends_from_name(t, name, i + 1);
    }
}

/// A tag that a text has at a place, another has at the same place.
proof fn lemma_tag_there(t: Seq<u8>, q: Seq<u8>, j: int, m: int)
    requires
        0 <= m,
        0 <= j,
        j + q.len() <= t.len(),
        forall|k: int| 0 <= k < q.len() ==> #[trigger] q[k] == t[j + k],
        between(lex(t, 0, j)),
        m + 8 <= q.len(),
    ensures
        (opens(q, m) && matches_at(q, m, bytes("(extends"@))) == (opens(t, j + m) && matches_at(
            t,
            j + m,
            bytes("(extends"@),
        )),
{
    reveal_strlit("(extends");
    lemma_bytes_ascii("(extends"@);
    lemma_name_scan(t, q, j, m);
    assert(q[m] == t[j + m]);
    assert(q.subrange(m, m + 8) =~= t.subrange(j + m, j + m + 8)) by {
        assert forall|k: int| 0 <= k < 8 implies #[trigger] q.subrange(m, m + 8)[k] == t.subrange(
            j + m,
            j + m + 8,
        )[k] by {
            assert(q[m + k] == t[j + (m + k)]);
        }
    }
}

/// A parent that is named in the header carries a library: it stands behind the name, or
/// it is not rewritten.
proof fn lemma_extends_behind(t: Seq<u8>, name: Seq<char>, m: int)
    requires
        is_headed(t, bytes(name)),
        !hides_parent(name),
        0 <= m,
        extends_from(bytes(in_quotes(name)), m) == extends_from(bytes(in_quotes(name)), 0),
    ensures
        extends_from(t, past_gaps(t, 7) + m) matches Some((a, b)) ==> a <= b <= t.len() && (a >= past_gaps(
            t,
            7,
        ) + 1 + bytes(name).len() || first_byte(t.subrange(a + 1, b - 1), 0x3a, 0).is_some()),
    decreases t.len() - m,
{
    let g = past_gaps(t, 7);
    let i = g + m;
    let q = bytes(in_quotes(name));
    let n = q.len() as int;
    lemma_header_holds(t, name);
    lemma_quoted_bytes(name);
    if i < t.len() {
        let j = past_gaps(t, i + 8);
        if opens(t, i) && matches_at(t, i, bytes("(extends"@)) && j < t.len() && t[j] == QUOTE {
            lemma_past_gaps(t, i + 8);
            lemma_string_end_within(t, j + 1);
            if j < g + n - 1 {
                lemma_tag_there(t, q, g, m);
                assert forall|k: int| m + 8 <= k < j - g implies is_gap(#[trigger] q[k]) by {
                    assert(q[k] == t[g + k]);
                    assert(is_gap(t[g + k]));
                }
                assert(q[j - g] == t[g + (j - g)]);
                lemma_past_gaps_is(q, m + 8, j - g);
                lemma_hidden_string(t, name, j);
            }
        } else {
            if m < n {
                // The name names no parent here either.
                let jm = past_gaps(q, m + 8);
                if opens(q, m) && matches_at(q, m, bytes("(extends"@)) && jm < n && q[jm] == QUOTE {
                    reveal_strlit("(extends");
                    lemma_bytes_ascii("(extends"@);
                    lemma_tag_there(t, q, g, m);
                    lemma_past_gaps(q, m + 8);
                    assert forall|k: int| i + 8 <= k < g + jm implies is_gap(#[trigger] t[k]) by {
                        assert(q[k - g] == t[g + (k - g)]);
                        assert(is_gap(q[k - g]));
                    }
                    assert(q[jm] == t[g + jm]);
                    lemma_past_gaps_is(t, i + 8, g + jm);
                    assert(false);
                }
                assert(extends_from(q, m) == extends_from(q, m + 1));
            } else {
                assert(extends_from(q, m + 1) == extends_from(q, m));
            }
            lemma_extends_behind(t, name, m + 1);
        }
    }
}

/// The string at `j`, in the name of the header, has a colon in it where it has one in
/// the quoted name.
proof fn lemma_hidden_string(t: Seq<u8>, name: Seq<char>, j: int)
    requires
        is_headed(t, bytes(name)),
        past_gaps(t, 7) <= j < past_gaps(t, 7) + 1 + bytes(name).len(),
        t[j] == QUOTE,
    ensures
        ({
            let q = bytes(in_quotes(name));
            let jm = j - past_gaps(t, 7);
            string_range(q, jm) matches Some((a, b)) && (string_range(t, j) matches Some((x, y)) ==> (
            first_byte(q.subrange(a, b), 0x3a, 0).is_some() ==> first_byte(
                t.subrange(x, y),
                0x3a,
                0,
            ).is_some()))
        }),
{
    let g = past_gaps(t, 7);
    let q = bytes(in_quotes(name));
    let n = q.len() as int;
    let jm = j - g;
    lemma_header_holds(t, name);
    lemma_quoted_bytes(name);
    lemma_string_end_value(q, jm + 1, jm + 1);
    lemma_string_end_value(t, j + 1, j + 1);
    lemma_value_is(q, jm + 1, jm + 1);
    lemma_value_is(t, j + 1, j + 1);
    assert(q[jm] == t[g + jm]);
    let e = string_end(q, jm + 1);
    lemma_string_end_within(q, jm + 1);
    assert(q[e - 1] == QUOTE);
    lemma_ascii_boundary(in_quotes(name), e - 1);
    assert(string_range(q, jm) == Some((jm + 1, e - 1)));
    if let Some((x, y)) = string_range(t, j) {
        // The string reads as far in the header.
        assert(y >= g + e - 1) by {
            if y < g + e - 1 {
                lemma_string_end_there(t, q, g, jm + 1, y - g);
            }
        }
        lemma_first_byte(q.subrange(jm + 1, e - 1), 0x3a, 0);
        lemma_first_byte(t.subrange(x, y), 0x3a, 0);
        if let Some(k) = first_byte(q.subrange(jm + 1, e - 1), 0x3a, 0) {
            assert(q[jm + 1 + k] == t[g + (jm + 1 + k)]);
            assert(t.subrange(x, y)[k] == 0x3a);
        }
    }
}

/// A string that ends in one text ends there in another that holds the same.
proof fn lemma_string_end_there(t: Seq<u8>, q: Seq<u8>, g: int, a: int, y: int)
    requires
        0 <= g,
        0 <= a <= y,
        g + q.len() <= t.len(),
        forall|m: int| 0 <= m < q.len() ==> #[trigger] q[m] == t[g + m],
        y + 1 == string_end(t, g + a) - g,
        y + 1 < q.len(),
    ensures
        string_end(q, a) == y + 1,
{
    lemma_string_end_value(t, g + a, g + a);
    lemma_value_is(t, g + a, g + a);
    lemma_string_end_value(q, a, a);
    lemma_value_is(q, a, a);
    // The string of `t` closes at `y`, where that of `q` would close too.
    assert(value_end(t, g + a) == Some(g + y));
    assert(q[y] == t[g + y]);
    assert forall|k: int| a <= k < y implies #[trigger] q[k] == t[k + g] by {
        assert(q[k] == t[g + k]);
    }
    assert forall|k: int| a <= k < y && #[trigger] q[k] == QUOTE implies escaped(q, a, k) by {
        assert(q[k] == t[k + g]);
        lemma_escapes_moved(q, t, a, k, g);
    }
    lemma_escapes_moved(q, t, a, y, g);
    lemma_value_end(q, a, y, a);
}

proof fn lemma_string_end_within(t: Seq<u8>, j: int)
    requires
        0 <= j,
    ensures
        string_end(t, j) <= t.len(),
        j < t.len() ==> string_end(t, j) > j,
    decreases t.len() - j + 1,
{
    if j < t.len() {
        if t[j] == BACKSLASH {
            lemma_string_end_within(t, j + 2);
        } else if t[j] != QUOTE {
            lemma_string_end_within(t, j + 1);
        }
    }
}

/// A header with the library's name put before the symbol's.
proof fn lemma_named_is_headed(u: Seq<char>, library: Seq<char>, name: Seq<char>)
    requires
        is_headed(bytes(u), bytes(name)),
        reads_to_name(bytes(u), bytes(name)),
    ensures
        is_headed(with_own_name(bytes(u), library, name), bytes(lib_id_text(library, name))),
{
    let t = bytes(u);
    let n = bytes(name);
    let id = bytes(lib_id_text(library, name));
    let j = past_gaps(t, 7);
    let x = j + 1;
    let y = x + n.len();
    lemma_past_gaps(t, 7);
    assert(j >= 8) by {
        if j == 7 {
            assert(!is_gap(t[j]));
        }
    }
    reveal_strlit("(symbol");
    reveal_strlit("symbol");
    lemma_bytes_ascii("(symbol"@);
    lemma_bytes_ascii("symbol"@);
    assert(matches_at(t, 1, bytes("symbol"@))) by {
        let w = t.subrange(0, 7);
        assert forall|k: int| 0 <= k < 6 implies #[trigger] t.subrange(1, 7)[k] == bytes("symbol"@)[k] by {
            assert(w[k + 1] == t[k + 1]);
        }
        assert(t.subrange(1, 7) =~= bytes("symbol"@));
    }
    lemma_string_end_value(t, x, x);
    lemma_ascii_boundary(u, y);
    assert(string_range(t, j) == Some((x, y)));
    assert(symbol_name(t, 0) == Some((x, y)));
    lemma_bytes_valid(name);
    assert(text_of(t.subrange(x, y)) == name);
    let r = replaced(t, x, y, id);
    assert(with_own_name(t, library, name) == r);
    assert(r.subrange(0, 7) =~= t.subrange(0, 7));
    assert forall|k: int| 7 <= k < j implies is_gap(#[trigger] r[k]) by {
        assert(is_gap(t[k]));
    }
    assert(r[j] == t[j]);
    lemma_past_gaps_is(r, 7, j);
    assert(r.subrange(x, x + id.len()) =~= id);
    assert(r[x + id.len()] == t[y]);
}

/// What follows a header may be rewritten without touching it.
proof fn lemma_headed_prefix(t: Seq<u8>, r: Seq<u8>, name: Seq<u8>)
    requires
        is_headed(t, name),
        past_gaps(t, 7) + 2 + name.len() <= r.len(),
        forall|k: int| 0 <= k < past_gaps(t, 7) + 2 + name.len() ==> #[trigger] r[k] == t[k],
    ensures
        is_headed(r, name),
{
    let j = past_gaps(t, 7);
    lemma_past_gaps(t, 7);
    reveal_strlit("(symbol");
    lemma_bytes_ascii("(symbol"@);
    assert(r.subrange(0, 7) =~= t.subrange(0, 7));
    assert forall|k: int| 7 <= k < j implies is_gap(#[trigger] r[k]) by {
        assert(is_gap(t[k]));
    }
    lemma_past_gaps_is(r, 7, j);
    assert(r.subrange(j + 1, j + 1 + name.len()) =~= t.subrange(j + 1, j + 1 + name.len()));
}

/// A `lib_id` is its parts with the colon between them.
proof fn lemma_parts(lib_id: Seq<char>)
    ensures
        lib_id_parts(lib_id) matches Some((library, name)) ==> lib_id_text(library, name) == lib_id,
{
    let s = bytes(lib_id);
    lemma_first_byte(s, 0x3a, 0);
    if let Some(p) = first_byte(s, 0x3a, 0) {
        let n = s.len() as int;
        lemma_ascii_boundary(lib_id, p);
        lemma_ends(lib_id);
        lemma_between_cuts(lib_id, 0, p);
        lemma_between_cuts(lib_id, p + 1, n);
        let library = text_of(s.subrange(0, p));
        let name = text_of(s.subrange(p + 1, n));
        reveal_strlit(":");
        lemma_bytes_ascii(":"@);
        lemma_bytes_concat(library + ":"@, name);
        lemma_bytes_concat(library, ":"@);
        assert(bytes(lib_id_text(library, name)) =~= s);
        lemma_bytes_injective(lib_id_text(library, name), lib_id);
    }
}

proof fn lemma_resolved_from(files: Seq<Seq<char>>, library: Seq<char>, name: Seq<char>, k: int)
    requires
        0 <= k,
        resolved_from(files, library, name, k).is_some(),
        !hides_parent(lib_id_text(library, name)),
    ensures
        is_headed(resolved_from(files, library, name, k).unwrap(), bytes(lib_id_text(library, name))),
    decreases files.len() - k,
{
    match symbol_text(bytes(files[k]), name) {
        Some(b) => {
            let id = bytes(lib_id_text(library, name));
            lemma_symbol_is_headed(files[k], name);
            lemma_named_is_headed(text_of(b), library, name);
            let t = with_own_name(b, library, name);
            lemma_extends_from_name(t, lib_id_text(library, name), 0);
            lemma_extends_behind(t, lib_id_text(library, name), 0);
            let r = qualified(b, library, name);
            if let Some((x, y)) = extends_from(t, 0) {
                let parent = t.subrange(x + 1, y - 1);
                let w = "\""@ + lib_id_text(library, text_of(parent)) + "\""@;
                reveal_strlit("\"");
                lemma_bytes_ascii("\""@);
                lemma_bytes_concat("\""@, lib_id_text(library, text_of(parent)));
                lemma_bytes_concat("\""@ + lib_id_text(library, text_of(parent)), "\""@);
                assert(bytes(w)[0] == QUOTE);
                assert(r == t || r == replaced(t, x, y, bytes(w)));
                assert(bytes(w).len() >= 2);
            }
            lemma_headed_prefix(t, r, id);
        },
        None => {
            lemma_resolved_from(files, library, name, k + 1);
        },
    }
}

/// What a `lib_id` resolves to begins with the header of that `lib_id`: the symbol
/// carries its library's name, whatever the file names it. A `lib_id` without a colon
/// resolves to nothing. Only a `lib_id` that hides a parent is left out: there the
/// library's name is put before that parent too, inside the header.
pub proof fn law_resolved_is_headed(lib_id: Seq<char>, files: Seq<Seq<char>>)
    requires
        !hides_parent(lib_id),
    ensures
        resolved(lib_id, files) matches Some(t) ==> is_headed(t, bytes(lib_id)),
        first_byte(bytes(lib_id), 0x3a, 0).is_none() ==> resolved(lib_id, files).is_none(),
{
    lemma_parts(lib_id);
    if let Some((library, name)) = lib_id_parts(lib_id) {
        if resolved_from(files, library, name, 0).is_some() {
            lemma_resolved_from(files, library, name, 0);
        }
    }
}

/// A name that may stand between quotes hides no parent.
pub proof fn law_quotable_hides_no_parent(name: Seq<char>)
    requires
        is_quotable(bytes(name)),
    ensures
        !hides_parent(name),
{
    lemma_nothing_opens(name, 0);
}

proof fn lemma_nothing_opens(name: Seq<char>, i: int)
    requires
        is_quotable(bytes(name)),
        0 <= i,
    ensures
        extends_from(bytes(in_quotes(name)), i).is_none(),
    decreases bytes(in_quotes(name)).len() - i,
{
    let n = bytes(name);
    let q = bytes(in_quotes(name));
    lemma_quoted_bytes(name);
    if i < q.len() {
        if opens(q, i) {
            assert(0 < i < q.len() - 1);
            assert(lex(q, 0, 0) == outside());
            assert(lex(q, 0, 1) == lex_step(lex(q, 0, 0), q[0]));
            assert forall|m: int| 0 <= m < n.len() implies #[trigger] n[m] == q[m + 1] by {}
            assert forall|m: int| 1 <= m < i && #[trigger] q[m] == QUOTE implies escaped(q, 1, m) by {
                assert(n[m - 1] == QUOTE);
                lemma_escapes_moved(n, q, 0, m - 1, 1);
            }
            lemma_stays_in_string(q, 0, 1, i);
        }
        lemma_nothing_opens(name, i + 1);
    }
}

// ─── Definitions ─────────────────────────────────────────────────────────────

/// A text that begins with the header of a `lib_id` reads as the definition of it, the
/// escapes in its name resolved.
pub proof fn law_headed_is_a_definition(t: Seq<u8>, lib_id: Seq<char>)
    requires
        is_quotable(bytes(lib_id)),
        is_headed(t, bytes(lib_id)),
    ensures
        parse_text(t) matches Ok(d) ==> is_definition(d, read_name(lib_id)),
{
    let id = bytes(lib_id);
    let j = past_gaps(t, 7);
    let x = j + 1;
    let y = x + id.len();
    let name = read_name(lib_id);
    lemma_past_gaps(t, 7);
    assert(j >= 8) by {
        if j == 7 {
            assert(!is_gap(t[j]));
        }
    }
    lemma_header_scan(t, 0, j, j);
    reveal_strlit("(symbol");
    reveal_strlit("symbol");
    lemma_bytes_ascii("(symbol"@);
    lemma_bytes_ascii("symbol"@);
    let w = t.subrange(0, 7);
    assert forall|k: int| 1 <= k < 7 implies !ends_atom(#[trigger] t[k]) by {
        assert(t[k] == w[k]);
    }
    lemma_atom_end(t, 1, 7);
    assert(t.subrange(1, 7) =~= bytes("symbol"@)) by {
        assert forall|k: int| 0 <= k < 6 implies #[trigger] t.subrange(1, 7)[k] == bytes("symbol"@)[k] by {
            assert(w[k + 1] == t[k + 1]);
        }
    }
    lemma_bytes_valid("symbol"@);
    assert forall|k: int| 7 <= k < j implies blank(#[trigger] t[k]) by {
        assert(is_gap(t[k]));
    }
    lemma_over_blanks(t, 7, j);
    assert forall|k: int| 0 <= k < id.len() implies #[trigger] id[k] == t[k + x] by {
        assert(id[k] == t.subrange(x, y)[k]);
    }
    assert forall|k: int| x <= k < y && #[trigger] t[k] == QUOTE implies escaped(t, x, k) by {
        assert(id[k - x] == QUOTE);
        lemma_escapes_moved(id, t, 0, k - x, x);
    }
    lemma_escapes_moved(id, t, 0, id.len() as int, x);
    lemma_value_end(t, x, y, x);
    assert(skip_blank(t, 0) == 0);
    assert(parse_node(t, 1) == Ok::<(Sexp, int), crate::sexp::ParseError>((Sexp::Atom("symbol"@), 7)));
    assert(parse_node(t, j) == Ok::<(Sexp, int), crate::sexp::ParseError>((Sexp::Str(name), y + 1)));
    if let Ok(d) = parse_text(t) {
        let (items, _) = parse_items(t, 1)->Ok_0;
        let (rest, _) = parse_items(t, 7)->Ok_0;
        let (more, _) = parse_items(t, y + 1)->Ok_0;
        assert(rest =~= seq![Sexp::Str(name)] + more);
        assert(items =~= seq![Sexp::Atom("symbol"@)] + rest);
        assert(d == Sexp::List(items));
        assert(items[0] == Sexp::Atom("symbol"@));
        assert(items[1] == Sexp::Str(name));
    }
}

/// A definition that is put into the nodes is there, at the end of the first
/// `lib_symbols`.
proof fn lemma_node_put(nodes: Seq<Sexp>, d: Sexp, name: Seq<char>)
    requires
        is_definition(d, name),
    ensures
        defined_in(with_node(nodes, d), name),
        lib_symbols_at(with_node(nodes, d), 0) matches Some(k) && {
            &&& 0 <= k < with_node(nodes, d).len()
            &&& tag_in(with_node(nodes, d)[k]) == Some("lib_symbols"@)
            &&& items_in(with_node(nodes, d)[k]).len() > 0
            &&& items_in(with_node(nodes, d)[k]).last() == d
            &&& match lib_symbols_at(nodes, 0) {
                Some(i) => i == k && items_in(with_node(nodes, d)[k]) == items_in(nodes[k]).push(d),
                None => true,
            }
        },
{
    let all = with_node(nodes, d);
    match lib_symbols_at(nodes, 0) {
        Some(k) => {
            lemma_lib_symbols_at(nodes, 0);
            let items = items_in(nodes[k]);
            assert(all[k] == Sexp::List(items.push(d)));
            assert(items.push(d)[0] == items[0]);
            assert(tag_in(all[k]) == Some("lib_symbols"@));
            lemma_first_kept(nodes, all, 0, k);
            assert(is_definition(items_in(all[k])[items.len() as int], name));
            assert(has_definition(items_in(all[k]), name));
        },
        None => {
            let v = seq![Sexp::Atom("lib_symbols"@), d];
            assert(all[0] == Sexp::List(v));
            assert(tag_in(all[0]) == Some("lib_symbols"@));
            assert(lib_symbols_at(all, 0) == Some(0int));
            assert(is_definition(items_in(all[0])[1], name));
            assert(has_definition(items_in(all[0]), name));
        },
    }
}

proof fn lemma_first_kept(nodes: Seq<Sexp>, all: Seq<Sexp>, i: int, k: int)
    requires
        0 <= i <= k < nodes.len(),
        nodes.len() == all.len(),
        lib_symbols_at(nodes, i) == Some(k),
        forall|q: int| 0 <= q < k ==> #[trigger] all[q] == nodes[q],
        tag_in(all[k]) == Some("lib_symbols"@),
    ensures
        lib_symbols_at(all, i) == Some(k),
    decreases k - i,
{
    if i < k {
        assert(all[i] == nodes[i]);
        lemma_first_kept(nodes, all, i + 1, k);
    }
}

/// The definition that is given for the `lib_id`, where it can be read, reads as one of
/// that name.
pub open spec fn reads_as_named(definitions: Seq<(Seq<char>, Seq<char>)>, lib_id: Seq<char>) -> bool {
    definition_of(definitions, lib_id, 0) matches Some(raw) ==> (parse_text(bytes(raw)) matches Ok(d)
        ==> is_definition(d, read_name(lib_id)))
}

/// What a `lib_id` resolves to reads as named, whatever escapes the name needs.
pub proof fn law_resolved_reads_as_named(
    definitions: Seq<(Seq<char>, Seq<char>)>,
    lib_id: Seq<char>,
    files: Seq<Seq<char>>,
)
    requires
        is_quotable(bytes(lib_id)),
        definition_of(definitions, lib_id, 0) matches Some(raw) ==> resolved(lib_id, files) == Some(
            bytes(raw),
        ),
    ensures
        reads_as_named(definitions, lib_id),
{
    if let Some(raw) = definition_of(definitions, lib_id, 0) {
        law_quotable_hides_no_parent(lib_id);
        law_resolved_is_headed(lib_id, files);
        law_headed_is_a_definition(bytes(raw), lib_id);
    }
}

/// Once a `lib_id` is embedded its definition is there, and embedding it again succeeds
/// and changes nothing.
pub proof fn law_embedding_once_is_enough(
    nodes: Seq<Sexp>,
    lib_id: Seq<char>,
    definitions: Seq<(Seq<char>, Seq<char>)>,
    fuel: nat,
)
    requires
        reads_as_named(definitions, lib_id),
        embedded(nodes, lib_id, definitions, fuel).1,
    ensures
        ({
            let after = embedded(nodes, lib_id, definitions, fuel).0;
            &&& defined_in(after, read_name(lib_id))
            &&& forall|given: Seq<(Seq<char>, Seq<char>)>, more: nat| #[trigger]
                embedded(after, lib_id, given, more) == (after, true)
        }),
{
    if !defined_in(nodes, read_name(lib_id)) {
        let raw = definition_of(definitions, lib_id, 0).unwrap();
        let base = match parent_id(bytes(raw)) {
            Some(p) => if fuel > 0 {
                embedded(nodes, p, definitions, (fuel - 1) as nat).0
            } else {
                nodes
            },
            None => nodes,
        };
        let d = parse_text(bytes(raw))->Ok_0;
        lemma_node_put(base, d, read_name(lib_id));
    }
}

/// A `lib_id` that is given and whose definition can be read is embedded: nothing else
/// is needed for success.
pub proof fn law_what_resolves_is_embedded(
    nodes: Seq<Sexp>,
    lib_id: Seq<char>,
    definitions: Seq<(Seq<char>, Seq<char>)>,
    fuel: nat,
)
    requires
        definition_of(definitions, lib_id, 0) matches Some(raw) && parse_text(bytes(raw)) is Ok,
    ensures
        embedded(nodes, lib_id, definitions, fuel).1,
{
}

/// Where a definition extends a parent that is not there yet and that can be had, both
/// are there afterwards, in one `lib_symbols`, the parent before the child.
pub proof fn law_parent_before_child(
    nodes: Seq<Sexp>,
    lib_id: Seq<char>,
    parent: Seq<char>,
    definitions: Seq<(Seq<char>, Seq<char>)>,
    fuel: nat,
)
    requires
        reads_as_named(definitions, lib_id),
        reads_as_named(definitions, parent),
        fuel > 0,
        !defined_in(nodes, read_name(lib_id)),
        !defined_in(nodes, read_name(parent)),
        definition_of(definitions, lib_id, 0) matches Some(raw) && parse_text(bytes(raw)) is Ok
            && parent_id(bytes(raw)) == Some(parent),
        definition_of(definitions, parent, 0) matches Some(raw) && parse_text(bytes(raw)) is Ok,
    ensures
        ({
            let after = embedded(nodes, lib_id, definitions, fuel).0;
            lib_symbols_at(after, 0) matches Some(k) && exists|i: int, j: int|
                0 <= i < j < items_in(after[k]).len() && is_definition(
                    #[trigger] items_in(after[k])[i],
                    read_name(parent),
                ) && is_definition(#[trigger] items_in(after[k])[j], read_name(lib_id))
        }),
{
    let raw = definition_of(definitions, lib_id, 0).unwrap();
    let d = parse_text(bytes(raw))->Ok_0;
    let base = embedded(nodes, parent, definitions, (fuel - 1) as nat).0;
    let above = definition_of(definitions, parent, 0).unwrap();
    let lower = match parent_id(bytes(above)) {
        Some(p) => if fuel - 1 > 0 {
            embedded(nodes, p, definitions, (fuel - 2) as nat).0
        } else {
            nodes
        },
        None => nodes,
    };
    let pd = parse_text(bytes(above))->Ok_0;
    assert(base == with_node(lower, pd));
    lemma_node_put(lower, pd, read_name(parent));
    lemma_node_put(base, d, read_name(lib_id));
    let after = with_node(base, d);
    let k = lib_symbols_at(base, 0).unwrap();
    let items = items_in(base[k]);
    let i = items.len() - 1;
    assert(items_in(after[k])[i] == pd);
    assert(items_in(after[k])[i + 1] == d);
}

} // verus!
