//! Setting a custom rule again replaces it: rules do not stack up.

use crate::chars::{is_white, trim_back};
use crate::grammar::lemma_char_bytes;
use crate::placing::{is_tag, lemma_ascii_char, lemma_tag_same, tag_ends_at};
use crate::scan::{
    balanced_block, block_end, block_starts, closes_at, law_block_starts, lemma_block_end,
    lemma_block_end_is, lemma_block_moved, lemma_depth_bound, lemma_lex_same, lemma_lex_shift, lex,
    lex_step, opens, outside, tag_opens, Lex, BACKSLASH, CLOSE, OPEN, QUOTE,
};
use crate::substitution::{lemma_swap_tag, lemma_swap_text, swap, swaps};
use crate::text::{
    bytes, first_byte, lemma_ascii_boundary, lemma_bytes_ascii, lemma_bytes_concat, lemma_bytes_valid,
    matches_at, replaced, text_of,
};
use crate::verification::{rule_block, rule_head, upserted};
use vstd::prelude::*;
use vstd::utf8::*;

verus! {

/// A name that stands in quotation marks as it is, with no block inside.
pub open spec fn plain_name(name: Seq<u8>) -> bool {
    forall|k: int|
        0 <= k < name.len() ==> #[trigger] name[k] != OPEN && name[k] != QUOTE && name[k] != BACKSLASH
}

/// A rule with the name: one block that begins with its header.
pub open spec fn is_rule(name: Seq<u8>, rule: Seq<u8>) -> bool {
    closes_at(rule, 0, rule.len() as int) && matches_at(rule, 0, rule_head(name))
}

proof fn lemma_head_bytes(name: Seq<u8>)
    requires
        plain_name(name),
    ensures
        ({
            let h = rule_head(name);
            &&& h.len() == name.len() + 8
            &&& h[0] == OPEN && h[1] == 114 && h[2] == 117 && h[3] == 108 && h[4] == 101 && h[5] == 32
                && h[6] == QUOTE
            &&& h[h.len() - 1] == QUOTE
            &&& forall|k: int| 7 <= k < h.len() - 1 ==> #[trigger] h[k] == name[k - 7]
            &&& forall|k: int| 0 < k < h.len() ==> #[trigger] h[k] != OPEN
        }),
{
    reveal_strlit("(rule \"");
    reveal_strlit("\"");
    lemma_bytes_ascii("(rule \""@);
    lemma_bytes_ascii("\""@);
    let h = rule_head(name);
    assert forall|k: int| 0 < k < h.len() implies #[trigger] h[k] != OPEN by {
        if 7 <= k && k < h.len() - 1 {
            assert(h[k] == name[k - 7]);
        }
    }
}

proof fn lemma_match_bytes(s: Seq<u8>, q: int, h: Seq<u8>)
    requires
        matches_at(s, q, h),
    ensures
        0 <= q,
        q + h.len() <= s.len(),
        forall|k: int| 0 <= k < h.len() ==> #[trigger] h[k] == s[q + k],
{
    assert forall|k: int| 0 <= k < h.len() implies #[trigger] h[k] == s[q + k] by {
        assert(s.subrange(q, q + h.len())[k] == s[q + k]);
    }
}

proof fn lemma_header_lex(s: Seq<u8>, q: int, name: Seq<u8>, k: int)
    requires
        plain_name(name),
        matches_at(s, q, rule_head(name)),
        7 <= k < rule_head(name).len(),
    ensures
        lex(s, q, q + k) == (Lex { depth: 1, in_string: true, escape: false }),
        forall|i: int| q < i <= q + k ==> (#[trigger] lex(s, q, i)).depth == 1,
    decreases k,
{
    let h = rule_head(name);
    lemma_head_bytes(name);
    lemma_match_bytes(s, q, h);
    if k == 7 {
        assert(h[0] == s[q + 0] && h[1] == s[q + 1] && h[2] == s[q + 2] && h[3] == s[q + 3] && h[4] == s[q
            + 4] && h[5] == s[q + 5] && h[6] == s[q + 6]);
        assert(lex(s, q, q) == outside());
        assert(lex(s, q, q + 1).depth == 1);
        assert(lex(s, q, q + 2) == lex(s, q, q + 1));
        assert(lex(s, q, q + 3) == lex(s, q, q + 1));
        assert(lex(s, q, q + 4) == lex(s, q, q + 1));
        assert(lex(s, q, q + 5) == lex(s, q, q + 1));
        assert(lex(s, q, q + 6) == lex(s, q, q + 1));
        assert(lex(s, q, q + 7) == lex_step(lex(s, q, q + 6), QUOTE));
        assert forall|i: int| q < i <= q + 7 implies (#[trigger] lex(s, q, i)).depth == 1 by {
            assert(i == q + 1 || i == q + 2 || i == q + 3 || i == q + 4 || i == q + 5 || i == q + 6 || i
                == q + 7);
        }
    } else {
        lemma_header_lex(s, q, name, k - 1);
        assert(h[k - 1] == name[k - 8]);
        assert(h[k - 1] == s[q + (k - 1)]);
        assert(name[k - 8] != QUOTE);
        assert(lex(s, q, q + k) == lex_step(lex(s, q, q + k - 1), s[q + k - 1]));
        assert forall|i: int| q < i <= q + k implies (#[trigger] lex(s, q, i)).depth == 1 by {
            assert(i <= q + (k - 1) || i == q + k);
        }
    }
}

/// The header of a rule lies inside its block.
proof fn lemma_head_fits(s: Seq<u8>, q: int, e: int, name: Seq<u8>)
    requires
        plain_name(name),
        matches_at(s, q, rule_head(name)),
        closes_at(s, q, e),
    ensures
        q + rule_head(name).len() < e,
{
    let h = rule_head(name);
    let n = h.len() as int;
    lemma_head_bytes(name);
    lemma_match_bytes(s, q, h);
    lemma_header_lex(s, q, name, n - 1);
    assert(h[n - 1] == s[q + (n - 1)]);
    assert(lex(s, q, q + n) == lex_step(lex(s, q, q + n - 1), s[q + n - 1]));
    assert(lex(s, q, q + n).depth == 1);
    if e <= q + n - 1 {
        assert(lex(s, q, e).depth == 1);
    }
}

proof fn lemma_rule_tag()
    ensures
        is_tag("rule"@),
        bytes("rule"@).len() == 4,
        bytes("rule"@)[0] == 114,
        bytes("rule"@)[1] == 117,
        bytes("rule"@)[2] == 108,
        bytes("rule"@)[3] == 101,
{
    reveal_strlit("rule");
    crate::placing::lemma_tag_chars("rule"@);
    lemma_bytes_ascii("rule"@);
}

/// A rule's header opens a block with the tag `rule`.
proof fn lemma_head_tag(c: Seq<char>, q: int, name: Seq<u8>)
    requires
        plain_name(name),
        matches_at(bytes(c), q, rule_head(name)),
    ensures
        tag_opens(bytes(c), q, bytes("rule"@)),
{
    let s = bytes(c);
    let h = rule_head(name);
    lemma_head_bytes(name);
    lemma_match_bytes(s, q, h);
    lemma_rule_tag();
    assert(h[0] == s[q + 0] && h[1] == s[q + 1] && h[2] == s[q + 2] && h[3] == s[q + 3] && h[4] == s[q + 4]
        && h[5] == s[q + 5]);
    assert(s.subrange(q + 1, q + 5) =~= bytes("rule"@));
    lemma_ascii_boundary(c, q);
    lemma_ascii_char(c, q + 5);
    assert(s[q + 5] as char == ' ');
}

/// In a text whose blocks all close, a block that opens closes.
proof fn lemma_opening_closes(s: Seq<u8>, q: int)
    requires
        opens(s, q),
        lex(s, 0, s.len() as int).depth == 0,
    ensures
        block_end(s, q).is_some(),
        closes_at(s, q, block_end(s, q).unwrap()),
        balanced_block(s, q) == Some((q, block_end(s, q).unwrap())),
{
    let n = s.len() as int;
    lemma_depth_bound(s, 0, q);
    if forall|k: int| q < k <= n ==> (#[trigger] lex(s, q, k)).depth > 0 {
        lemma_lex_shift(s, 0, q, n);
        assert(lex(s, q, n).depth > 0);
        assert(false);
    }
    let k = choose|k: int| q < k <= n && (#[trigger] lex(s, q, k)).depth == 0;
    let e = crate::placing::lemma_first_zero(s, q, k);
    lemma_block_end(s, q, e);
    assert(first_byte(s, OPEN, q) == Some(q));
}

/// The first rule with the name is the one that is found.
proof fn lemma_first_rule(s: Seq<u8>, name: Seq<u8>, starts: Seq<int>, k: int, i: int)
    requires
        0 <= k <= i < starts.len(),
        matches_at(s, starts[i], rule_head(name)),
        balanced_block(s, starts[i]).is_some(),
        forall|j: int| k <= j < i ==> !matches_at(s, #[trigger] starts[j], rule_head(name)),
    ensures
        rule_block(s, name, starts, k) == balanced_block(s, starts[i]),
    decreases i - k,
{
    if k < i {
        assert(!matches_at(s, starts[k], rule_head(name)));
        lemma_first_rule(s, name, starts, k + 1, i);
    }
}

/// What is found is the first of the rules with the name.
proof fn lemma_rule_found(s: Seq<u8>, name: Seq<u8>, starts: Seq<int>, k: int) -> (i: int)
    requires
        0 <= k <= starts.len(),
        forall|j: int| 0 <= j < starts.len() ==> balanced_block(s, #[trigger] starts[j]).is_some(),
    ensures
        k <= i <= starts.len(),
        forall|j: int| k <= j < i ==> !matches_at(s, #[trigger] starts[j], rule_head(name)),
        match rule_block(s, name, starts, k) {
            Some(b) => i < starts.len() && matches_at(s, starts[i], rule_head(name)) && balanced_block(
                s,
                starts[i],
            ) == Some(b),
            None => i == starts.len(),
        },
    decreases starts.len() - k,
{
    if k >= starts.len() {
        k
    } else {
        assert(balanced_block(s, starts[k]).is_some());
        if matches_at(s, starts[k], rule_head(name)) {
            k
        } else {
            lemma_rule_found(s, name, starts, k + 1)
        }
    }
}

proof fn lemma_starts_close(s: Seq<u8>, n: int)
    requires
        lex(s, 0, s.len() as int).depth == 0,
        0 <= n <= s.len(),
    ensures
        forall|j: int|
            0 <= j < block_starts(s, bytes("rule"@), n).len() ==> balanced_block(
                s,
                #[trigger] block_starts(s, bytes("rule"@), n)[j],
            ).is_some(),
{
    let starts = block_starts(s, bytes("rule"@), n);
    law_block_starts(s, bytes("rule"@), n);
    assert forall|j: int| 0 <= j < starts.len() implies balanced_block(
        s,
        #[trigger] starts[j],
    ).is_some() by {
        assert(starts.contains(starts[j]));
        lemma_opening_closes(s, starts[j]);
    }
}

/// No rule with the name opens before `n`.
spec fn none_before(s: Seq<u8>, name: Seq<u8>, n: int) -> bool {
    forall|q: int|
        0 <= q < n && opens(s, q) && #[trigger] tag_opens(s, q, bytes("rule"@)) ==> !matches_at(
            s,
            q,
            rule_head(name),
        )
}

/// The rule at `a` is found where none with the name opens before it.
proof fn lemma_found_at(c: Seq<char>, name: Seq<u8>, a: int, b: int)
    requires
        plain_name(name),
        opens(bytes(c), a),
        matches_at(bytes(c), a, rule_head(name)),
        closes_at(bytes(c), a, b),
        none_before(bytes(c), name, a),
    ensures
        rule_block(
            bytes(c),
            name,
            block_starts(bytes(c), bytes("rule"@), bytes(c).len() as int),
            0,
        ) == Some((a, b)),
{
    let s = bytes(c);
    let tag = bytes("rule"@);
    let starts = block_starts(s, tag, s.len() as int);
    law_block_starts(s, tag, s.len() as int);
    lemma_head_tag(c, a, name);
    assert(starts.contains(a));
    let i = choose|i: int| 0 <= i < starts.len() && starts[i] == a;
    assert forall|j: int| 0 <= j < i implies !matches_at(s, #[trigger] starts[j], rule_head(name)) by {
        assert(starts.contains(starts[j]));
        assert(starts[j] < starts[i]);
        assert(tag_opens(s, starts[j], tag));
    }
    lemma_block_end(s, a, b);
    assert(first_byte(s, OPEN, a) == Some(a));
    lemma_first_rule(s, name, starts, 0, i);
}

/// Where a rule is found, and that none with the name opens before it.
proof fn lemma_found(c: Seq<char>, name: Seq<u8>)
    requires
        lex(bytes(c), 0, bytes(c).len() as int).depth == 0,
    ensures
        match rule_block(
            bytes(c),
            name,
            block_starts(bytes(c), bytes("rule"@), bytes(c).len() as int),
            0,
        ) {
            Some((a, b)) => opens(bytes(c), a) && closes_at(bytes(c), a, b) && none_before(
                bytes(c),
                name,
                a,
            ),
            None => none_before(bytes(c), name, bytes(c).len() as int),
        },
{
    let s = bytes(c);
    let tag = bytes("rule"@);
    let n = s.len() as int;
    let starts = block_starts(s, tag, n);
    law_block_starts(s, tag, n);
    lemma_starts_close(s, n);
    let i = lemma_rule_found(s, name, starts, 0);
    let limit = if i < starts.len() {
        starts[i]
    } else {
        n
    };
    assert(none_before(s, name, limit)) by {
        assert forall|q: int|
            0 <= q < limit && opens(s, q) && #[trigger] tag_opens(s, q, tag) implies !matches_at(
            s,
            q,
            rule_head(name),
        ) by {
            assert(starts.contains(q));
            let j = choose|j: int| 0 <= j < starts.len() && starts[j] == q;
            if j >= i {
                if i < j {
                    assert(starts[i] < starts[j]);
                }
            }
        }
    }
    if i < starts.len() {
        assert(starts.contains(starts[i]));
        lemma_opening_closes(s, starts[i]);
    }
}

// ─── A rule in the place of another ──────────────────────────────────────────

/// Two texts with the same bytes before `n` open the same blocks there.
proof fn lemma_same_opens(s: Seq<u8>, t: Seq<u8>, n: int, q: int)
    requires
        0 <= q < n <= s.len(),
        n <= t.len(),
        forall|k: int| 0 <= k < n ==> #[trigger] s[k] == t[k],
    ensures
        opens(s, q) == opens(t, q),
{
    assert forall|i: int| 0 <= i < q implies #[trigger] s[i] == t[i + 0] by {
        assert(s[i] == t[i]);
    }
    lemma_lex_same(s, t, 0, q, 0);
    assert(s[q] == t[q]);
}

proof fn lemma_same_match(s: Seq<u8>, t: Seq<u8>, n: int, q: int, h: Seq<u8>)
    requires
        0 <= q,
        q + h.len() <= n <= s.len(),
        n <= t.len(),
        forall|k: int| 0 <= k < n ==> #[trigger] s[k] == t[k],
    ensures
        matches_at(s, q, h) == matches_at(t, q, h),
{
    assert(s.subrange(q, q + h.len()) =~= t.subrange(q, q + h.len()));
}

/// With its rule exchanged for another of the name, a file has that one first.
proof fn lemma_replaced_first(c: Seq<char>, name: Seq<u8>, a: int, b: int, r: Seq<char>)
    requires
        plain_name(name),
        is_rule(name, bytes(r)),
        opens(bytes(c), a),
        closes_at(bytes(c), a, b),
        none_before(bytes(c), name, a),
    ensures
        ({
            let t = swap(bytes(c), a, b, bytes(r));
            &&& bytes(text_of(t)) == t
            &&& rule_block(t, name, block_starts(t, bytes("rule"@), t.len() as int), 0) == Some(
                (a, a + bytes(r).len()),
            )
        }),
{
    let s = bytes(c);
    let w = bytes(r);
    let t = swap(s, a, b, w);
    let h = rule_head(name);
    let tag = bytes("rule"@);
    assert(swaps(s, a, b, w));
    lemma_swap_text(c, a, b, r);
    lemma_head_bytes(name);
    lemma_rule_tag();
    assert forall|k: int| 0 <= k < a implies #[trigger] s[k] == t[k] by {}
    assert forall|k: int| 0 <= k < w.len() implies #[trigger] w[k] == t[k + a] by {}
    assert(w[0] == t[0 + a]);
    lemma_block_moved(w, t, 0, w.len() as int, a);
    assert(opens(t, a)) by {
        assert forall|i: int| 0 <= i < a implies #[trigger] s[i] == t[i + 0] by {}
        lemma_lex_same(s, t, 0, a, 0);
    }
    assert(matches_at(t, a, h)) by {
        assert(t.subrange(a, a + h.len()) =~= w.subrange(0, h.len() as int));
    }
    assert(none_before(t, name, a)) by {
        assert forall|q: int|
            0 <= q < a && opens(t, q) && #[trigger] tag_opens(t, q, tag) implies !matches_at(t, q, h) by {
            lemma_same_opens(s, t, a, q);
            lemma_swap_tag(c, a, b, r, q, "rule"@);
            assert(tag_opens(s, q, tag));
            if matches_at(t, q, h) {
                lemma_match_bytes(t, q, h);
                if q + h.len() <= a {
                    lemma_same_match(s, t, a, q, h);
                } else {
                    assert(h[a - q] == t[q + (a - q)]);
                    assert(h[a - q] != OPEN);
                }
            }
        }
    }
    lemma_found_at(text_of(t), name, a, a + w.len());
}

// ─── A rule at the end ───────────────────────────────────────────────────────

/// A byte that neither opens, closes nor quotes.
pub open spec fn neutral(b: u8) -> bool {
    b != OPEN && b != CLOSE && b != QUOTE && b != BACKSLASH
}

/// The white space that is trimmed off neither opens, closes nor quotes.
proof fn lemma_trimmed(c: Seq<char>)
    ensures
        bytes(trim_back(c)).len() <= bytes(c).len(),
        bytes(trim_back(c)) == bytes(c).take(bytes(trim_back(c)).len() as int),
        forall|k: int|
            bytes(trim_back(c)).len() <= k < bytes(c).len() ==> neutral(#[trigger] bytes(c)[k]),
    decreases c.len(),
{
    if c.len() > 0 && is_white(c.last()) {
        let d = c.drop_last();
        lemma_trimmed(d);
        lemma_bytes_concat(d, seq![c.last()]);
        assert(c =~= d + seq![c.last()]);
        lemma_char_bytes(c.last());
        let m = bytes(trim_back(c)).len() as int;
        assert(bytes(c).take(m) =~= bytes(d).take(m));
        assert forall|k: int| m <= k < bytes(c).len() implies neutral(#[trigger] bytes(c)[k]) by {
            if k < bytes(d).len() {
                assert(bytes(c)[k] == bytes(d)[k]);
            } else {
                assert(bytes(c)[k] == bytes(seq![c.last()])[k - bytes(d).len()]);
            }
        }
    } else {
        assert(bytes(c).take(bytes(c).len() as int) =~= bytes(c));
    }
}

proof fn lemma_neutral_lex(s: Seq<u8>, st: int, m: int, n: int)
    requires
        st <= m <= n,
        forall|k: int| m <= k < n ==> neutral(#[trigger] s[k]),
    ensures
        lex(s, st, m).depth == lex(s, st, n).depth,
        lex(s, st, m).in_string == lex(s, st, n).in_string,
    decreases n - m,
{
    if m < n {
        lemma_neutral_lex(s, st, m, n - 1);
        assert(neutral(s[n - 1]));
    }
}

/// A rule put at the end of a file that has none of the name is the first of it.
proof fn lemma_added_first(c: Seq<char>, name: Seq<u8>, r: Seq<char>)
    requires
        plain_name(name),
        is_rule(name, bytes(r)),
        lex(bytes(c), 0, bytes(c).len() as int) == outside(),
        none_before(bytes(c), name, bytes(c).len() as int),
    ensures
        ({
            let m = bytes(trim_back(c)).len() as int;
            let t = bytes(trim_back(c)) + bytes("\n\n"@) + bytes(r) + bytes("\n"@);
            &&& bytes(text_of(t)) == t
            &&& rule_block(t, name, block_starts(t, bytes("rule"@), t.len() as int), 0) == Some(
                (m + 2, m + 2 + bytes(r).len()),
            )
        }),
{
    let s = bytes(c);
    let w = bytes(r);
    let x = bytes(trim_back(c));
    let m = x.len() as int;
    let a = m + 2;
    let t = x + bytes("\n\n"@) + w + bytes("\n"@);
    let h = rule_head(name);
    let tag = bytes("rule"@);
    lemma_trimmed(c);
    reveal_strlit("\n\n");
    reveal_strlit("\n");
    lemma_bytes_ascii("\n\n"@);
    lemma_bytes_ascii("\n"@);
    let d = trim_back(c) + "\n\n"@ + r + "\n"@;
    lemma_bytes_concat(trim_back(c), "\n\n"@);
    lemma_bytes_concat(trim_back(c) + "\n\n"@, r);
    lemma_bytes_concat(trim_back(c) + "\n\n"@ + r, "\n"@);
    assert(bytes(d) == t);
    lemma_bytes_valid(d);
    lemma_head_bytes(name);
    lemma_rule_tag();
    assert forall|k: int| 0 <= k < m implies #[trigger] s[k] == t[k] by {
        assert(s.take(m)[k] == s[k]);
    }
    assert forall|k: int| m <= k < a implies neutral(#[trigger] t[k]) by {}
    assert forall|k: int| 0 <= k < w.len() implies #[trigger] w[k] == t[k + a] by {}
    assert(w[0] == t[0 + a]);
    lemma_block_moved(w, t, 0, w.len() as int, a);
    lemma_neutral_lex(s, 0, m, s.len() as int);
    lemma_depth_bound(s, 0, m);
    assert(lex(t, 0, m) == outside()) by {
        assert forall|i: int| 0 <= i < m implies #[trigger] s[i] == t[i + 0] by {
            assert(s[i] == t[i]);
        }
        lemma_lex_same(s, t, 0, m, 0);
    }
    lemma_neutral_lex(t, 0, m, a);
    assert(opens(t, a));
    assert(matches_at(t, a, h)) by {
        assert(t.subrange(a, a + h.len()) =~= w.subrange(0, h.len() as int));
    }
    assert(none_before(t, name, a)) by {
        assert forall|q: int|
            0 <= q < a && opens(t, q) && #[trigger] tag_opens(t, q, tag) implies !matches_at(t, q, h) by {
            if q >= m {
                assert(neutral(t[q]));
            }
            lemma_same_opens(s, t, m, q);
            lemma_opening_closes(s, q);
            let e = block_end(s, q).unwrap();
            lemma_block_end_is(s, q);
            if e > m {
                assert(neutral(s[e - 1]));
            }
            lemma_tag_before(c, d, q, e);
            assert(tag_opens(s, q, tag));
            if matches_at(t, q, h) {
                assert forall|i: int| q <= i < e implies #[trigger] s[i] == t[i + 0] by {
                    assert(s[i] == t[i]);
                }
                lemma_block_moved(s, t, q, e, 0);
                lemma_head_fits(t, q, e, name);
                lemma_same_match(s, t, m, q, h);
            }
        }
    }
    lemma_found_at(d, name, a, a + w.len());
}

/// Two texts with the same block there read its tag alike.
proof fn lemma_tag_before(c: Seq<char>, d: Seq<char>, q: int, e: int)
    requires
        closes_at(bytes(c), q, e),
        e <= bytes(d).len(),
        forall|k: int| 0 <= k < e ==> #[trigger] bytes(c)[k] == bytes(d)[k],
        tag_opens(bytes(d), q, bytes("rule"@)),
    ensures
        tag_opens(bytes(c), q, bytes("rule"@)),
{
    let s = bytes(c);
    let t = bytes(d);
    lemma_block_end(s, q, e);
    lemma_block_end_is(s, q);
    assert(s[e - 1] == t[e - 1]);
    lemma_rule_tag();
    lemma_close_ends(c, e - 1);
    lemma_close_ends(d, e - 1);
    assert(s[q] == t[q]);
    assert forall|k: int| 0 <= k < e - 1 implies #[trigger] t[k] == s[k] by {
        assert(s[k] == t[k]);
    }
    lemma_tag_same(d, c, q, e - 1, "rule"@);
}

proof fn lemma_close_ends(c: Seq<char>, p: int)
    requires
        0 <= p < bytes(c).len(),
        bytes(c)[p] == CLOSE,
    ensures
        tag_ends_at(bytes(c), p),
{
    lemma_ascii_boundary(c, p);
    lemma_ascii_char(c, p);
    assert(bytes(c)[p] as char == ')');
}

/// Setting a rule twice leaves what setting it the second time alone would leave:
/// the rules of one name do not stack up.
pub proof fn law_rules_do_not_stack(c: Seq<char>, name: Seq<u8>, r: Seq<char>, q: Seq<char>)
    requires
        lex(bytes(c), 0, bytes(c).len() as int) == outside(),
        plain_name(name),
        is_rule(name, bytes(r)),
    ensures
        upserted(upserted(bytes(c), name, bytes(r)), name, bytes(q)) == upserted(
            bytes(c),
            name,
            bytes(q),
        ),
{
    let s = bytes(c);
    let w = bytes(r);
    let v = bytes(q);
    lemma_found(c, name);
    lemma_bytes_valid(c);
    match rule_block(s, name, block_starts(s, bytes("rule"@), s.len() as int), 0) {
        Some((a, b)) => {
            lemma_replaced_first(c, name, a, b, r);
            let t = swap(s, a, b, w);
            assert(upserted(s, name, w) =~= t);
            assert(replaced(t, a, a + w.len(), v) =~= replaced(s, a, b, v));
        },
        None => {
            lemma_added_first(c, name, r);
            let x = bytes(trim_back(c));
            let a = x.len() as int + 2;
            let t = x + bytes("\n\n"@) + w + bytes("\n"@);
            reveal_strlit("\n\n");
            lemma_bytes_ascii("\n\n"@);
            assert(t.subrange(0, a) =~= x + bytes("\n\n"@));
            assert(t.subrange(a + w.len(), t.len() as int) =~= bytes("\n"@));
        },
    }
}

} // verus!
