//! What is read back of a footprint whose property was set.

use crate::blocks::{bare_end, children, children_from, law_children_are_direct, skip_to, tag_text, token_at};
use crate::chars::blank;
use crate::components::{edit_outcome, footprint_named, key_index, prop_index, setting_steps, Key};
use crate::edit::law_one_edit;
use crate::footprint::{
    board_footprints, footprint_at, footprint_header, property_at, quoted_token, token_text,
    with_child, with_children, Footprint, Prop,
};
use crate::grammar::{between, law_quoted_reads_back, lemma_close_is, lemma_lex_node};
use crate::moving::{
    lemma_children_order, lemma_children_shift, lemma_footprint_word, lemma_footprints_are,
    lemma_item_closes, lemma_items_apart, lemma_key_in, lemma_start_is, lemma_starts_order,
    lemma_tag_text_shift, lemma_token_shift,
};
use crate::scan::{
    block_end, closes_at, is_document, lemma_block_end, lemma_block_moved, lemma_depth_bound,
    lemma_lex_same, lex, lex_step, outside, top_level_starts, CLOSE, OPEN, QUOTE,
};
use crate::sexp::{escaped, parse_node, quoted_text, string_close, unescaped, ParseError, Sexp};
use crate::substitution::{
    lemma_swap_bytes, lemma_swap_children, lemma_swap_closes, lemma_swap_starts, moved, moved_all,
    moved_starts, swap, swaps,
};
use crate::text::{bytes, matches_at, text_of};
use vstd::prelude::*;

verus! {

// ─── What a footprint states ─────────────────────────────────────────────────

/// The uuid, the reference and the fields of a footprint: the name and value of each
/// of its properties, in order.
pub struct Stated {
    pub uuid: Option<Seq<char>>,
    pub reference: Option<Seq<char>>,
    pub fields: Seq<(Seq<char>, Option<Seq<char>>)>,
}

/// The names and values of properties.
pub open spec fn fields_of(ps: Seq<Prop>) -> Seq<(Seq<char>, Option<Seq<char>>)> {
    Seq::new(ps.len(), |i: int| (ps[i].name, ps[i].value))
}

/// What a footprint states.
pub open spec fn stated(fp: Footprint) -> Stated {
    Stated { uuid: fp.uuid, reference: fp.reference, fields: fields_of(fp.properties) }
}

/// What the child block `q..f` adds to what is stated.
pub open spec fn add_child(s: Seq<u8>, k: Stated, q: int, f: int) -> Stated {
    let tag = tag_text(s, q);
    if tag == "uuid"@ {
        Stated { uuid: token_text(s, q + 5, f), ..k }
    } else if tag == "property"@ {
        match property_at(s, q, f) {
            Some(p) => Stated {
                reference: if p.name == "Reference"@ {
                    p.value
                } else {
                    k.reference
                },
                fields: k.fields.push((p.name, p.value)),
                ..k
            },
            None => k,
        }
    } else {
        k
    }
}

/// What the first `n` children state.
pub open spec fn told(s: Seq<u8>, k: Stated, kids: Seq<(int, int)>, n: int) -> Stated
    decreases n,
{
    if n <= 0 {
        k
    } else {
        add_child(s, told(s, k, kids, n - 1), kids[n - 1].0, kids[n - 1].1)
    }
}

/// What a footprint states before any child is read.
pub open spec fn nothing() -> Stated {
    Stated { uuid: None, reference: None, fields: Seq::empty() }
}

proof fn lemma_words()
    ensures
        "at"@ != "uuid"@,
        "at"@ != "property"@,
        "layer"@ != "uuid"@,
        "layer"@ != "property"@,
        "uuid"@ != "property"@,
        "property"@.len() == 8,
{
    reveal_strlit("at");
    reveal_strlit("uuid");
    reveal_strlit("layer");
    reveal_strlit("property");
    assert("at"@.len() == 2 && "uuid"@.len() == 4 && "layer"@.len() == 5 && "property"@.len() == 8);
}

proof fn lemma_child_told(s: Seq<u8>, x: Footprint, q: int, f: int)
    ensures
        stated(with_child(s, x, q, f)) == add_child(s, stated(x), q, f),
{
    lemma_words();
    let y = with_child(s, x, q, f);
    if tag_text(s, q) == "property"@ {
        if let Some(p) = property_at(s, q, f) {
            assert(y.properties == x.properties.push(p));
            assert(fields_of(y.properties) =~= fields_of(x.properties).push((p.name, p.value)));
        }
    } else {
        assert(fields_of(y.properties) =~= fields_of(x.properties));
    }
}

proof fn lemma_children_told(s: Seq<u8>, h: Footprint, kids: Seq<(int, int)>, n: int)
    requires
        stated(h) == nothing(),
    ensures
        stated(with_children(s, h, kids, n)) == told(s, nothing(), kids, n),
    decreases n,
{
    if n > 0 {
        lemma_children_told(s, h, kids, n - 1);
        lemma_child_told(s, with_children(s, h, kids, n - 1), kids[n - 1].0, kids[n - 1].1);
    }
}

/// What a footprint states is what its children tell.
proof fn lemma_footprint_told(s: Seq<u8>, q: int, e: int)
    ensures
        stated(footprint_at(s, q, e)) == told(
            s,
            nothing(),
            children(s, q, e),
            children(s, q, e).len() as int,
        ),
{
    let h = footprint_header(s, q, e);
    assert(stated(h).fields =~= Seq::<(Seq<char>, Option<Seq<char>>)>::empty());
    lemma_children_told(s, h, children(s, q, e), children(s, q, e).len() as int);
}

/// A child with the same bytes adds the same.
proof fn lemma_child_moved(s: Seq<u8>, t: Seq<u8>, k: Stated, q: int, f: int, d: int)
    requires
        closes_at(s, q, f),
        0 <= q + d,
        f + d <= t.len(),
        forall|i: int| q <= i < f ==> #[trigger] s[i] == t[i + d],
    ensures
        add_child(s, k, q, f) == add_child(t, k, q + d, f + d),
        tag_text(s, q) == tag_text(t, q + d),
{
    lemma_tag_text_shift(s, t, q, f, d);
    let tag = tag_text(s, q);
    if tag == "uuid"@ {
        lemma_token_shift(s, t, q + 5, f, d);
    } else if tag == "property"@ {
        lemma_token_shift(s, t, q + 9, f, d);
        if let Some((name, _, name_end)) = token_at(s, q + 9, f) {
            lemma_token_shift(s, t, name_end, f, d);
        }
    }
}

proof fn lemma_told_moved(
    s: Seq<u8>,
    t: Seq<u8>,
    kids: Seq<(int, int)>,
    mine: Seq<(int, int)>,
    n: int,
    d: int,
)
    requires
        0 <= n <= kids.len(),
        mine.len() == kids.len(),
        forall|i: int|
            0 <= i < n ==> closes_at(s, (#[trigger] kids[i]).0, kids[i].1) && 0 <= kids[i].0 + d
                && kids[i].1 + d <= t.len(),
        forall|i: int| 0 <= i < n ==> (#[trigger] mine[i]) == (kids[i].0 + d, kids[i].1 + d),
        forall|i: int, k: int|
            0 <= i < n && (#[trigger] kids[i]).0 <= k < kids[i].1 ==> #[trigger] s[k] == t[k + d],
    ensures
        told(s, nothing(), kids, n) == told(t, nothing(), mine, n),
    decreases n,
{
    if n > 0 {
        lemma_told_moved(s, t, kids, mine, n - 1, d);
        let (q, f) = kids[n - 1];
        assert(mine[n - 1] == (q + d, f + d));
        assert(closes_at(s, kids[n - 1].0, kids[n - 1].1));
        assert forall|k: int| q <= k < f implies #[trigger] s[k] == t[k + d] by {
            assert(kids[n - 1].0 <= k < kids[n - 1].1);
        }
        lemma_child_moved(s, t, told(s, nothing(), kids, n - 1), q, f, d);
    }
}

/// The direct children of a block lie in it, in order.
proof fn lemma_kids(s: Seq<u8>, q: int, e: int)
    requires
        closes_at(s, q, e),
    ensures
        forall|i: int|
            0 <= i < children(s, q, e).len() ==> {
                let c = #[trigger] children(s, q, e)[i];
                &&& closes_at(s, c.0, c.1)
                &&& q < c.0 && c.1 < e
                &&& lex(s, q, c.0).depth == 1
                &&& between(lex(s, q, c.0))
            },
        forall|i: int, j: int|
            0 <= i < j < children(s, q, e).len() ==> (#[trigger] children(s, q, e)[i]).1 <= (
            #[trigger] children(s, q, e)[j]).0,
{
    assert(lex(s, q, q) == outside());
    assert(lex(s, q, q + 1) == lex_step(outside(), s[q]));
    law_children_are_direct(s, q, q + 1, e);
    lemma_children_order(s, q, q + 1, e);
    let kids = children(s, q, e);
    assert forall|i: int| 0 <= i < kids.len() implies ({
        let c = #[trigger] kids[i];
        &&& closes_at(s, c.0, c.1)
        &&& q < c.0 && c.1 < e
        &&& lex(s, q, c.0).depth == 1
        &&& between(lex(s, q, c.0))
    }) by {
        assert(children_from(s, q, q + 1, e)[i] == kids[i]);
        lemma_depth_bound(s, q, kids[i].0);
    }
}

/// A footprint with the same bytes states the same.
pub proof fn lemma_same_stated(s: Seq<u8>, t: Seq<u8>, q: int, e: int, d: int)
    requires
        closes_at(s, q, e),
        0 <= q + d,
        e + d <= t.len(),
        forall|k: int| q <= k < e ==> #[trigger] s[k] == t[k + d],
    ensures
        stated(footprint_at(s, q, e)) == stated(footprint_at(t, q + d, e + d)),
        block_end(t, q + d) == Some(e + d),
{
    let kids = children(s, q, e);
    let mine = children(t, q + d, e + d);
    lemma_children_shift(s, t, q, q + 1, e, d);
    lemma_kids(s, q, e);
    assert forall|i: int, k: int|
        0 <= i < kids.len() && (#[trigger] kids[i]).0 <= k < kids[i].1 implies #[trigger] s[k] == t[k
        + d] by {
        assert(q < kids[i].0 && kids[i].1 < e);
    }
    lemma_told_moved(s, t, kids, mine, kids.len() as int, d);
    lemma_footprint_told(s, q, e);
    lemma_footprint_told(t, q + d, e + d);
    lemma_block_moved(s, t, q, e, d);
}

// ─── One property exchanged ──────────────────────────────────────────────────

/// What is stated with the `l`th field given another value.
pub open spec fn with_value(k: Stated, l: int, v: Option<Seq<char>>) -> Stated {
    Stated { fields: k.fields.update(l, (k.fields[l].0, v)), ..k }
}

/// A child adds the same to what differs in a value.
proof fn lemma_add_after(s: Seq<u8>, k: Stated, l: int, v: Option<Seq<char>>, q: int, f: int)
    requires
        0 <= l < k.fields.len(),
    ensures
        add_child(s, with_value(k, l, v), q, f) == with_value(add_child(s, k, q, f), l, v),
        add_child(s, k, q, f).fields.len() >= k.fields.len(),
{
    let a = add_child(s, with_value(k, l, v), q, f);
    let b = with_value(add_child(s, k, q, f), l, v);
    assert(a.fields =~= b.fields);
}

/// `t` has the bytes of `s` but for those in `a..b`, which are `n` others.
pub open spec fn apart_from(s: Seq<u8>, t: Seq<u8>, a: int, b: int, n: int) -> bool {
    &&& 0 <= a < b <= s.len()
    &&& 0 <= n
    &&& t.len() == s.len() - b + a + n
    &&& forall|k: int| 0 <= k < a ==> #[trigger] s[k] == t[k + 0]
    &&& forall|k: int| b <= k < s.len() ==> #[trigger] s[k] == t[k + (a + n - b)]
}

/// A child beside the exchanged one.
proof fn lemma_beside(s: Seq<u8>, t: Seq<u8>, a: int, b: int, n: int, k: Stated, q: int, f: int)
    requires
        apart_from(s, t, a, b, n),
        closes_at(s, q, f),
        f <= a || b <= q,
    ensures
        add_child(s, k, q, f) == add_child(t, k, moved(q, a, b, n), moved(f, a, b, n)),
{
    if f <= a {
        lemma_child_moved(s, t, k, q, f, 0);
    } else {
        lemma_child_moved(s, t, k, q, f, a + n - b);
    }
}

/// What the children state when the property at `a..b`, the `m`th of them, is
/// exchanged for one with the same name.
proof fn lemma_told_exchanged(
    s: Seq<u8>,
    t: Seq<u8>,
    a: int,
    b: int,
    n: int,
    kids: Seq<(int, int)>,
    m: int,
    v: Option<Seq<char>>,
    k: int,
)
    requires
        apart_from(s, t, a, b, n),
        0 <= m < kids.len(),
        kids[m] == (a, b),
        0 <= k <= kids.len(),
        forall|i: int| 0 <= i < kids.len() ==> closes_at(s, (#[trigger] kids[i]).0, kids[i].1),
        forall|i: int| 0 <= i < m ==> (#[trigger] kids[i]).1 <= a,
        forall|i: int| m < i < kids.len() ==> b <= (#[trigger] kids[i]).0,
        tag_text(s, a) == "property"@,
        tag_text(t, a) == "property"@,
        property_at(s, a, b).is_some(),
        property_at(t, a, a + n).is_some(),
        property_at(t, a, a + n).unwrap().name == property_at(s, a, b).unwrap().name,
        property_at(s, a, b).unwrap().name != "Reference"@,
        property_at(t, a, a + n).unwrap().value == v,
    ensures
        ({
            let mine = moved_all(kids, a, b, n);
            let l = told(s, nothing(), kids, m).fields.len() as int;
            if k <= m {
                told(t, nothing(), mine, k) == told(s, nothing(), kids, k)
            } else {
                &&& l < told(s, nothing(), kids, k).fields.len()
                &&& told(s, nothing(), kids, k).fields[l].0 == property_at(s, a, b).unwrap().name
                &&& told(t, nothing(), mine, k) == with_value(told(s, nothing(), kids, k), l, v)
            }
        }),
    decreases k,
{
    let mine = moved_all(kids, a, b, n);
    if k > 0 {
        lemma_words();
        lemma_told_exchanged(s, t, a, b, n, kids, m, v, k - 1);
        let (q, f) = kids[k - 1];
        assert(closes_at(s, kids[k - 1].0, kids[k - 1].1));
        assert(mine[k - 1] == (moved(q, a, b, n), moved(f, a, b, n)));
        let l = told(s, nothing(), kids, m).fields.len() as int;
        let was = told(s, nothing(), kids, k - 1);
        if k - 1 == m {
            let now = told(t, nothing(), mine, k);
            let old = told(s, nothing(), kids, k);
            assert(now.fields =~= with_value(old, l, v).fields);
        } else {
            lemma_beside(s, t, a, b, n, told(t, nothing(), mine, k - 1), q, f);
            if k - 1 > m {
                lemma_add_after(s, was, l, v, q, f);
                assert(add_child(s, was, q, f).fields[l] == was.fields[l]);
            }
        }
    }
}

/// The footprint whose property is exchanged states the new value, and else what it
/// stated.
proof fn lemma_own_stated(
    s: Seq<u8>,
    a: int,
    b: int,
    w: Seq<u8>,
    q: int,
    e: int,
    m: int,
    v: Option<Seq<char>>,
)
    requires
        swaps(s, a, b, w),
        closes_at(s, q, e),
        0 <= m < children(s, q, e).len(),
        children(s, q, e)[m] == (a, b),
        ({
            let t = swap(s, a, b, w);
            &&& tag_text(s, a) == "property"@
            &&& tag_text(t, a) == "property"@
            &&& property_at(s, a, b).is_some()
            &&& property_at(t, a, a + w.len()).is_some()
            &&& property_at(t, a, a + w.len()).unwrap().name == property_at(s, a, b).unwrap().name
            &&& property_at(s, a, b).unwrap().name != "Reference"@
            &&& property_at(t, a, a + w.len()).unwrap().value == v
        }),
    ensures
        ({
            let t = swap(s, a, b, w);
            let f = e - b + a + w.len();
            let l = told(s, nothing(), children(s, q, e), m).fields.len() as int;
            &&& block_end(t, q) == Some(f)
            &&& 0 <= l < stated(footprint_at(s, q, e)).fields.len()
            &&& stated(footprint_at(t, q, f)) == with_value(stated(footprint_at(s, q, e)), l, v)
        }),
{
    let t = swap(s, a, b, w);
    let n = w.len() as int;
    let f = e - b + a + n;
    let kids = children(s, q, e);
    lemma_kids(s, q, e);
    assert(kids[m] == (a, b));
    lemma_apart(s, a, b, w);
    lemma_swap_closes(s, a, b, w, q, e);
    lemma_block_end(t, q, f);
    assert(lex(s, q, q) == outside());
    assert(lex(s, q, q + 1) == lex_step(outside(), s[q]));
    lemma_swap_children(s, a, b, w, q, q + 1, e);
    assert(children(t, q, f) == moved_all(kids, a, b, n));
    assert forall|i: int| 0 <= i < m implies (#[trigger] kids[i]).1 <= a by {
        assert(kids[i].1 <= kids[m].0);
    }
    assert forall|i: int| m < i < kids.len() implies b <= (#[trigger] kids[i]).0 by {
        assert(kids[m].1 <= kids[i].0);
    }
    lemma_told_exchanged(s, t, a, b, n, kids, m, v, kids.len() as int);
    lemma_footprint_told(s, q, e);
    lemma_footprint_told(t, q, f);
}

/// Each property of a footprint is what one of its children states.
proof fn lemma_property_child(s: Seq<u8>, h: Footprint, kids: Seq<(int, int)>, n: int, i: int) -> (m: int)
    requires
        0 <= n <= kids.len(),
        h.properties.len() == 0,
        stated(h) == nothing(),
        0 <= i < with_children(s, h, kids, n).properties.len(),
    ensures
        0 <= m < n,
        tag_text(s, kids[m].0) == "property"@,
        property_at(s, kids[m].0, kids[m].1) == Some(with_children(s, h, kids, n).properties[i]),
        told(s, nothing(), kids, m).fields.len() == i,
    decreases n,
{
    lemma_words();
    let was = with_children(s, h, kids, n - 1);
    let now = with_children(s, h, kids, n);
    if i < was.properties.len() {
        let m = lemma_property_child(s, h, kids, n - 1, i);
        assert(now.properties[i] == was.properties[i]);
        m
    } else {
        lemma_children_told(s, h, kids, n - 1);
        assert(fields_of(was.properties).len() == was.properties.len());
        n - 1
    }
}

// ─── A value exchanged for another ───────────────────────────────────────────

/// A string that closes before a point closes there whatever comes after it.
proof fn lemma_close_stop(s: Seq<u8>, from: int, i: int, e: int, stop: int, other: int)
    requires
        string_close(s, from, i, stop) == Some(e),
        e < other,
    ensures
        string_close(s, from, i, other) == Some(e),
    decreases stop - i,
{
    if i < stop && !(s[i] == QUOTE && !escaped(s, from, i)) {
        lemma_close_is(s, from, i + 1, stop);
        lemma_close_stop(s, from, i + 1, e, stop, other);
    }
}

proof fn lemma_skip_in(s: Seq<u8>, i: int, stop: int)
    ensures
        i <= skip_to(s, i, stop),
        i <= stop ==> skip_to(s, i, stop) <= stop,
        forall|k: int| i <= k < skip_to(s, i, stop) ==> blank(#[trigger] s[k]),
        skip_to(s, i, stop) < stop ==> !blank(s[skip_to(s, i, stop)]),
    decreases stop - i,
{
    if i < stop && blank(s[i]) {
        lemma_skip_in(s, i + 1, stop);
    }
}

proof fn lemma_skip_at(s: Seq<u8>, i: int, j: int, stop: int)
    requires
        i <= j < stop,
        forall|k: int| i <= k < j ==> blank(#[trigger] s[k]),
        !blank(s[j]),
    ensures
        skip_to(s, i, stop) == j,
    decreases j - i,
{
    if i < j {
        assert(blank(s[i]));
        lemma_skip_at(s, i + 1, j, stop);
    }
}

proof fn lemma_bare_in(s: Seq<u8>, i: int, stop: int)
    requires
        i <= stop,
    ensures
        i <= bare_end(s, i, stop) <= stop,
        forall|k: int|
            i <= k < bare_end(s, i, stop) ==> !blank(#[trigger] s[k]) && s[k] != OPEN && s[k] != CLOSE,
        bare_end(s, i, stop) < stop ==> {
            let c = s[bare_end(s, i, stop)];
            blank(c) || c == OPEN || c == CLOSE
        },
    decreases stop - i,
{
    if i < stop && !blank(s[i]) && s[i] != OPEN && s[i] != CLOSE {
        lemma_bare_in(s, i + 1, stop);
    }
}

proof fn lemma_bare_at(s: Seq<u8>, i: int, j: int, stop: int)
    requires
        i <= j < stop,
        forall|k: int| i <= k < j ==> !blank(#[trigger] s[k]) && s[k] != OPEN && s[k] != CLOSE,
        blank(s[j]) || s[j] == OPEN || s[j] == CLOSE,
    ensures
        bare_end(s, i, stop) == j,
    decreases j - i,
{
    if i < j {
        assert(!blank(s[i]) && s[i] != OPEN && s[i] != CLOSE);
        lemma_bare_at(s, i + 1, j, stop);
    }
}

proof fn lemma_escapes_same(s: Seq<u8>, t: Seq<u8>, from: int, to: int)
    requires
        forall|k: int| from <= k < to ==> #[trigger] s[k] == t[k],
    ensures
        escaped(s, from, to) == escaped(t, from, to),
        unescaped(s, from, to) == unescaped(t, from, to),
    decreases to - from,
{
    if from < to {
        lemma_escapes_same(s, t, from, to - 1);
    }
}

proof fn lemma_close_same(s: Seq<u8>, t: Seq<u8>, from: int, i: int, e: int, stop: int, other: int)
    requires
        0 <= from <= i,
        string_close(s, from, i, stop) == Some(e),
        e < other,
        forall|k: int| from <= k <= e ==> #[trigger] s[k] == t[k],
    ensures
        string_close(t, from, i, other) == Some(e),
    decreases stop - i,
{
    lemma_close_is(s, from, i, stop);
    lemma_escapes_same(s, t, from, i);
    assert(s[i] == t[i]);
    if !(s[i] == QUOTE && !escaped(s, from, i)) {
        lemma_close_is(s, from, i + 1, stop);
        lemma_close_same(s, t, from, i + 1, e, stop, other);
    }
}

/// The first of two tokens is the same where the bytes before the second are.
proof fn lemma_first_token(s: Seq<u8>, t: Seq<u8>, from: int, stop: int, other: int, a: int)
    requires
        0 <= from,
        stop <= s.len(),
        other <= t.len(),
        token_at(s, from, stop).is_some(),
        token_at(s, from, stop).unwrap().2 <= a < stop,
        a < other,
        s[a] == QUOTE,
        forall|k: int| from <= k < a ==> #[trigger] s[k] == t[k],
    ensures
        token_at(t, from, other) == token_at(s, from, stop),
{
    let i = skip_to(s, from, stop);
    let (x, _, e) = token_at(s, from, stop).unwrap();
    lemma_skip_in(s, from, stop);
    if s[i] == QUOTE {
        lemma_close_is(s, i + 1, i + 1, stop);
        assert forall|k: int| from <= k < i implies blank(#[trigger] t[k]) by {
            assert(s[k] == t[k]);
        }
        assert(s[i] == t[i]);
        lemma_skip_at(t, from, i, other);
        lemma_close_same(s, t, i + 1, i + 1, e - 1, stop, other);
        lemma_escapes_same(s, t, i + 1, e - 1);
    } else {
        lemma_bare_in(s, i, stop);
        assert(e < a) by {
            if e == a {
                assert(blank(s[a]) || s[a] == OPEN || s[a] == CLOSE);
            }
        }
        assert forall|k: int| from <= k < i implies blank(#[trigger] t[k]) by {
            assert(s[k] == t[k]);
        }
        assert(s[i] == t[i]);
        lemma_skip_at(t, from, i, other);
        assert forall|k: int| i <= k < e implies !blank(#[trigger] t[k]) && t[k] != OPEN && t[k] != CLOSE by {
            assert(s[k] == t[k]);
        }
        assert(s[e] == t[e]);
        lemma_bare_at(t, i, e, other);
        assert(s.subrange(i, e) =~= t.subrange(i, e));
    }
}

/// A quoted token is an expression for the parser too.
proof fn lemma_quoted_node(s: Seq<u8>, from: int, stop: int)
    requires
        0 <= from,
        stop <= s.len(),
        quoted_token(s, from, stop).is_some(),
    ensures
        ({
            let (v, a, b) = quoted_token(s, from, stop).unwrap();
            &&& from <= a < b <= stop
            &&& s[a] == QUOTE
            &&& parse_node(s, a) == Ok::<(Sexp, int), ParseError>((Sexp::Str(v), b))
            &&& forall|k: int| from <= k < a ==> blank(#[trigger] s[k])
        }),
{
    let (v, a, b) = quoted_token(s, from, stop).unwrap();
    lemma_skip_in(s, from, stop);
    lemma_close_is(s, a + 1, a + 1, stop);
    lemma_close_stop(s, a + 1, a + 1, b - 1, stop, s.len() as int);
}

/// The block around a string closes where it did when the string is exchanged for
/// another.
proof fn lemma_string_exchanged(s: Seq<u8>, x: int, y: int, a: int, b: int, w: Seq<u8>)
    requires
        closes_at(s, x, y),
        x < a < b <= y,
        s[a] == QUOTE,
        between(lex(s, x, a)),
        parse_node(s, a) is Ok,
        parse_node(s, a)->Ok_0.1 == b,
        ({
            let t = s.take(a) + w + s.skip(b);
            &&& w.len() > 0
            &&& t[a] == QUOTE
            &&& parse_node(t, a) is Ok
            &&& parse_node(t, a)->Ok_0.1 == a + w.len()
        }),
    ensures
        closes_at(s.take(a) + w + s.skip(b), x, y - b + a + w.len()),
{
    let t = s.take(a) + w + s.skip(b);
    let d = a + w.len() - b;
    lemma_lex_same(s, t, x, a, 0);
    lemma_lex_node(s, x, a);
    lemma_lex_node(t, x, a);
    lemma_string_tail(s, t, x, b, y, d);
    assert(s[x] == t[x]);
    assert(lex(s, x, a).depth > 0);
    assert forall|k: int| x < k < y + d implies (#[trigger] lex(t, x, k)).depth > 0 by {
        if k <= a {
            lemma_lex_same(s, t, x, k, 0);
            assert(lex(s, x, k).depth > 0);
        } else if k <= a + w.len() {
            assert(lex(t, x, k).depth >= lex(t, x, a).depth);
        } else {
            lemma_string_tail(s, t, x, b, k - d, d);
            assert(lex(s, x, k - d).depth > 0);
        }
    }
}

/// Behind the string the scan goes on as it did.
proof fn lemma_string_tail(s: Seq<u8>, t: Seq<u8>, x: int, b: int, k: int, d: int)
    requires
        x <= b <= k <= s.len(),
        x <= b + d,
        lex(t, x, b + d) == lex(s, x, b),
        forall|i: int| b <= i < k ==> #[trigger] s[i] == t[i + d],
    ensures
        lex(t, x, k + d) == lex(s, x, k),
    decreases k - b,
{
    if b < k {
        lemma_string_tail(s, t, x, b, k - 1, d);
        assert(s[k - 1] == t[k - 1 + d]);
        assert(lex(s, x, k) == lex_step(lex(s, x, k - 1), s[k - 1]));
        assert(lex(t, x, k + d) == lex_step(lex(t, x, k + d - 1), t[k + d - 1]));
    }
}

/// A property with its value exchanged is a property with the same name and the new
/// value.
#[verifier::spinoff_prover]
#[verifier::rlimit(60)]
proof fn lemma_property_exchanged(s: Seq<u8>, x: int, y: int, value: Seq<char>)
    requires
        closes_at(s, x, y),
        tag_text(s, x) == "property"@,
        property_at(s, x, y) matches Some(p) && p.value_range.is_some(),
        between(lex(s, x, property_at(s, x, y).unwrap().value_range.unwrap().0)),
    ensures
        ({
            let p = property_at(s, x, y).unwrap();
            let (a, b) = p.value_range.unwrap();
            let w = bytes(quoted_text(value));
            let t = s.take(a) + w + s.skip(b);
            let f = y - b + a + w.len();
            &&& x < a < b <= y
            &&& closes_at(t, x, f)
            &&& tag_text(t, x) == "property"@
            &&& property_at(t, x, f).is_some()
            &&& property_at(t, x, f).unwrap().name == p.name
            &&& property_at(t, x, f).unwrap().value == Some(value)
        }),
{
    let p = property_at(s, x, y).unwrap();
    let (a, b) = p.value_range.unwrap();
    let w = bytes(quoted_text(value));
    let t = s.take(a) + w + s.skip(b);
    let f = y - b + a + w.len();
    let (name, na, ne) = token_at(s, x + 9, y).unwrap();
    lemma_token_in(s, x + 9, y);
    lemma_quoted_node(s, ne, y);
    law_quoted_reads_back(value);
    assert(t.subrange(a, a + w.len()) =~= w);
    assert(matches_at(t, a, w));
    assert(parse_node(t, a) == Ok::<(Sexp, int), ParseError>((Sexp::Str(value), a + w.len())));
    lemma_quote_first(value);
    assert(t[a] == w[0]);
    lemma_string_exchanged(s, x, y, a, b, w);
    assert forall|k: int| 0 <= k < a implies #[trigger] s[k] == t[k] by {}
    lemma_first_token(s, t, x + 9, y, f, a);
    assert forall|k: int| ne <= k < a implies blank(#[trigger] t[k]) by {
        assert(s[k] == t[k]);
    }
    lemma_skip_at(t, ne, a, f);
    lemma_close_is(t, a + 1, a + 1, t.len() as int);
    lemma_close_stop(t, a + 1, a + 1, a + w.len() - 1, t.len() as int, f);
    // The tag stands before the name.
    lemma_tag_before(s, t, x, a);
}

/// A token lies in its range.
proof fn lemma_token_in(s: Seq<u8>, from: int, stop: int)
    ensures
        token_at(s, from, stop) matches Some((_, a, b)) ==> from <= a < b <= stop,
{
    lemma_skip_in(s, from, stop);
    let i = skip_to(s, from, stop);
    if i < stop {
        if s[i] == QUOTE {
            lemma_close_is(s, i + 1, i + 1, stop);
        } else {
            lemma_bare_in(s, i, stop);
        }
    }
}

/// A quoted text begins with a quote.
proof fn lemma_quote_first(t: Seq<char>)
    ensures
        bytes(quoted_text(t)).len() > 0,
        bytes(quoted_text(t))[0] == QUOTE,
{
    let e = crate::sexp::escape_text(t);
    crate::grammar::lemma_char_bytes('"');
    crate::text::lemma_bytes_concat(seq!['"'] + e, seq!['"']);
    crate::text::lemma_bytes_concat(seq!['"'], e);
}

/// A tag that ends before a point is the same where the bytes before the point are.
proof fn lemma_tag_before(s: Seq<u8>, t: Seq<u8>, x: int, a: int)
    requires
        0 <= x < a < s.len(),
        a < t.len(),
        s[a] == QUOTE,
        t[a] == QUOTE,
        forall|k: int| 0 <= k < a ==> #[trigger] s[k] == t[k],
    ensures
        tag_text(s, x) == tag_text(t, x),
{
    lemma_tag_run(s, t, x + 1, a);
    let e = crate::blocks::tag_end(s, x + 1);
    assert(s.subrange(x + 1, e) =~= t.subrange(x + 1, e));
}

proof fn lemma_tag_run(s: Seq<u8>, t: Seq<u8>, i: int, a: int)
    requires
        0 <= i <= a < s.len(),
        a < t.len(),
        s[a] == QUOTE,
        t[a] == QUOTE,
        forall|k: int| i <= k < a ==> #[trigger] s[k] == t[k],
    ensures
        crate::blocks::tag_end(s, i) == crate::blocks::tag_end(t, i),
        i <= crate::blocks::tag_end(s, i) <= a,
    decreases a - i,
{
    if i < a {
        assert(s[i] == t[i]);
        if crate::blocks::tag_byte(s[i]) {
            lemma_tag_run(s, t, i + 1, a);
        }
    }
}

// ─── The board with one property exchanged ───────────────────────────────────

/// What the footprint that opens at `q` states.
#[verifier::opaque]
pub open spec fn stated_at(s: Seq<u8>, q: int) -> Stated {
    stated(footprint_at(s, q, block_end(s, q).unwrap()))
}

/// The property at `a..b`, the `m`th child of the `j`th footprint, is exchanged for
/// one with the same name and the value `v`.
pub open spec fn property_swapped(
    s: Seq<u8>,
    a: int,
    b: int,
    w: Seq<u8>,
    j: int,
    m: int,
    v: Option<Seq<char>>,
) -> bool {
    let starts = top_level_starts(s, bytes("footprint"@), s.len() as int);
    let t = swap(s, a, b, w);
    &&& is_document(s, bytes("kicad_pcb"@))
    &&& swaps(s, a, b, w)
    &&& 0 <= j < starts.len()
    &&& block_end(s, starts[j]).is_some()
    &&& 0 <= m < children(s, starts[j], block_end(s, starts[j]).unwrap()).len()
    &&& children(s, starts[j], block_end(s, starts[j]).unwrap())[m] == (a, b)
    &&& tag_text(s, a) == "property"@
    &&& tag_text(t, a) == "property"@
    &&& property_at(s, a, b).is_some()
    &&& property_at(t, a, a + w.len()).is_some()
    &&& property_at(t, a, a + w.len()).unwrap().name == property_at(s, a, b).unwrap().name
    &&& property_at(s, a, b).unwrap().name != "Reference"@
    &&& property_at(t, a, a + w.len()).unwrap().value == v
}

/// Where the exchanged property lies.
proof fn lemma_property_inside(
    s: Seq<u8>,
    a: int,
    b: int,
    w: Seq<u8>,
    j: int,
    m: int,
    v: Option<Seq<char>>,
)
    requires
        property_swapped(s, a, b, w, j, m, v),
    ensures
        ({
            let q = top_level_starts(s, bytes("footprint"@), s.len() as int)[j];
            let e = block_end(s, q).unwrap();
            &&& closes_at(s, q, e)
            &&& q < a && b < e
            &&& between(lex(s, 0, a))
            &&& lex(s, 0, a).depth == 2
            &&& lex(s, 0, q).depth == 1 && between(lex(s, 0, q))
        }),
{
    let tag = bytes("footprint"@);
    let q = top_level_starts(s, tag, s.len() as int)[j];
    lemma_start_is(s, tag, s.len() as int, j);
    lemma_item_closes(s, bytes("kicad_pcb"@), tag, q);
    let e = block_end(s, q).unwrap();
    lemma_kids(s, q, e);
    assert(children(s, q, e)[m] == (a, b));
    crate::scan::lemma_lex_shift(s, 0, q, a);
}

proof fn lemma_own_at(
    s: Seq<u8>,
    a: int,
    b: int,
    w: Seq<u8>,
    q: int,
    e: int,
    m: int,
    v: Option<Seq<char>>,
)
    requires
        swaps(s, a, b, w),
        closes_at(s, q, e),
        0 <= m < children(s, q, e).len(),
        children(s, q, e)[m] == (a, b),
        ({
            let t = swap(s, a, b, w);
            &&& tag_text(s, a) == "property"@
            &&& tag_text(t, a) == "property"@
            &&& property_at(s, a, b).is_some()
            &&& property_at(t, a, a + w.len()).is_some()
            &&& property_at(t, a, a + w.len()).unwrap().name == property_at(s, a, b).unwrap().name
            &&& property_at(s, a, b).unwrap().name != "Reference"@
            &&& property_at(t, a, a + w.len()).unwrap().value == v
        }),
    ensures
        ({
            let t = swap(s, a, b, w);
            let l = told(s, nothing(), children(s, q, e), m).fields.len() as int;
            &&& block_end(t, q).is_some()
            &&& 0 <= l < stated_at(s, q).fields.len()
            &&& stated_at(t, q) == with_value(stated_at(s, q), l, v)
        }),
{
    reveal(stated_at);
    lemma_block_end(s, q, e);
    lemma_own_stated(s, a, b, w, q, e, m, v);
}

/// A footprint beside the exchanged bytes states what it stated.
proof fn lemma_beside_at(s: Seq<u8>, a: int, b: int, w: Seq<u8>, q: int, e: int)
    requires
        swaps(s, a, b, w),
        closes_at(s, q, e),
        e <= a || b <= q,
    ensures
        block_end(swap(s, a, b, w), moved(q, a, b, w.len() as int)).is_some(),
        stated_at(swap(s, a, b, w), moved(q, a, b, w.len() as int)) == stated_at(s, q),
{
    reveal(stated_at);
    lemma_block_end(s, q, e);
    lemma_apart(s, a, b, w);
    lemma_moved_stated(s, swap(s, a, b, w), a, b, w.len() as int, q, e);
}

/// What an exchange leaves as it was.
proof fn lemma_apart(s: Seq<u8>, a: int, b: int, w: Seq<u8>)
    requires
        swaps(s, a, b, w),
    ensures
        apart_from(s, swap(s, a, b, w), a, b, w.len() as int),
{
    lemma_swap_bytes(s, a, b, w);
    let t = swap(s, a, b, w);
    assert forall|k: int| 0 <= k < a implies #[trigger] s[k] == t[k + 0] by {}
}

proof fn lemma_moved_stated(s: Seq<u8>, t: Seq<u8>, a: int, b: int, n: int, q: int, e: int)
    requires
        apart_from(s, t, a, b, n),
        closes_at(s, q, e),
        e <= a || b <= q,
    ensures
        block_end(t, moved(q, a, b, n)) == Some(moved(e, a, b, n)),
        stated(footprint_at(t, moved(q, a, b, n), moved(e, a, b, n))) == stated(footprint_at(s, q, e)),
{
    if e <= a {
        lemma_same_stated(s, t, q, e, 0);
    } else {
        lemma_same_stated(s, t, q, e, a + n - b);
    }
}

/// A footprint states what it stated, but for the value that was exchanged.
proof fn lemma_stated_after(
    s: Seq<u8>,
    a: int,
    b: int,
    w: Seq<u8>,
    j: int,
    m: int,
    v: Option<Seq<char>>,
    i: int,
)
    requires
        property_swapped(s, a, b, w, j, m, v),
        0 <= i < top_level_starts(s, bytes("footprint"@), s.len() as int).len(),
    ensures
        ({
            let starts = top_level_starts(s, bytes("footprint"@), s.len() as int);
            let t = swap(s, a, b, w);
            let q = starts[i];
            let p = moved(q, a, b, w.len() as int);
            let l = told(s, nothing(), children(s, starts[j], block_end(s, starts[j]).unwrap()), m).fields.len() as int;
            &&& block_end(s, q).is_some()
            &&& block_end(t, p).is_some()
            &&& i != j ==> stated_at(t, p) == stated_at(s, q)
            &&& i == j ==> 0 <= l < stated_at(s, q).fields.len() && stated_at(t, p) == with_value(
                stated_at(s, q),
                l,
                v,
            )
        }),
{
    let tag = bytes("footprint"@);
    let starts = top_level_starts(s, tag, s.len() as int);
    let t = swap(s, a, b, w);
    let n = w.len() as int;
    let q = starts[i];
    let own = starts[j];
    lemma_start_is(s, tag, s.len() as int, i);
    lemma_item_closes(s, bytes("kicad_pcb"@), tag, q);
    lemma_property_inside(s, a, b, w, j, m, v);
    let e = block_end(s, q).unwrap();
    let f = block_end(s, own).unwrap();
    if i == j {
        lemma_own_at(s, a, b, w, q, e, m, v);
    } else {
        lemma_starts_order(s, i, j);
        if i < j {
            lemma_items_apart(s, q, e, own);
        } else {
            lemma_items_apart(s, own, f, q);
        }
        lemma_beside_at(s, a, b, w, q, e);
    }
}

/// The board keeps its footprints, and they state what they stated, but for the value
/// that was exchanged.
proof fn lemma_board_stated(
    c: Seq<char>,
    wt: Seq<char>,
    a: int,
    b: int,
    j: int,
    m: int,
    v: Option<Seq<char>>,
)
    requires
        property_swapped(bytes(c), a, b, bytes(wt), j, m, v),
    ensures
        ({
            let s = bytes(c);
            let starts = top_level_starts(s, bytes("footprint"@), s.len() as int);
            let before = board_footprints(s);
            let after = board_footprints(swap(s, a, b, bytes(wt)));
            let l = told(s, nothing(), children(s, starts[j], block_end(s, starts[j]).unwrap()), m).fields.len() as int;
            &&& before.len() == after.len()
            &&& 0 <= j < before.len()
            &&& forall|i: int|
                0 <= i < before.len() && i != j ==> stated(#[trigger] after[i]) == stated(before[i])
            &&& 0 <= l < stated(before[j]).fields.len()
            &&& stated(after[j]) == with_value(stated(before[j]), l, v)
        }),
{
    let s = bytes(c);
    let w = bytes(wt);
    let n = w.len() as int;
    let t = swap(s, a, b, w);
    let tag = bytes("footprint"@);
    let starts = top_level_starts(s, tag, s.len() as int);
    let mine = moved_starts(starts, a, b, n);
    lemma_property_inside(s, a, b, w, j, m, v);
    lemma_footprint_word();
    lemma_swap_starts(c, a, b, wt, "footprint"@, s.len() as int);
    assert(moved(s.len() as int, a, b, n) == t.len()) by {
        lemma_swap_bytes(s, a, b, w);
    }
    assert(top_level_starts(t, tag, t.len() as int) == mine);
    assert forall|i: int| 0 <= i < starts.len() implies block_end(s, #[trigger] starts[i]).is_some() by {
        lemma_stated_after(s, a, b, w, j, m, v, i);
    }
    assert forall|i: int| 0 <= i < mine.len() implies block_end(t, #[trigger] mine[i]).is_some() by {
        lemma_stated_after(s, a, b, w, j, m, v, i);
    }
    lemma_footprints_are(s, starts, starts.len() as int);
    lemma_footprints_are(t, mine, mine.len() as int);
    let before = board_footprints(s);
    let after = board_footprints(t);
    assert forall|i: int| 0 <= i < before.len() && i != j implies stated(#[trigger] after[i]) == stated(
        before[i],
    ) by {
        lemma_stated_after(s, a, b, w, j, m, v, i);
        reveal(stated_at);
        assert(before[i] == footprint_at(s, starts[i], block_end(s, starts[i]).unwrap()));
    }
    lemma_stated_after(s, a, b, w, j, m, v, j);
    reveal(stated_at);
    assert(before[j] == footprint_at(s, starts[j], block_end(s, starts[j]).unwrap()));
    assert(after[j] == footprint_at(t, mine[j], block_end(t, mine[j]).unwrap()));
}

// ─── The law ─────────────────────────────────────────────────────────────────

proof fn lemma_prop_in(ps: Seq<Prop>, name: Seq<char>, k: int)
    requires
        0 <= k,
    ensures
        prop_index(ps, name, k) matches Some(i) ==> k <= i < ps.len() && ps[i].name == name,
    decreases ps.len() - k,
{
    if k < ps.len() {
        lemma_prop_in(ps, name, k + 1);
    }
}

/// Footprints with the same uuids and references are named by the same keys.
proof fn lemma_same_named(before: Seq<Footprint>, after: Seq<Footprint>, key: Key, k: int)
    requires
        before.len() == after.len(),
        0 <= k <= before.len(),
        forall|i: int|
            0 <= i < before.len() ==> (#[trigger] after[i]).uuid == before[i].uuid && after[i].reference
                == before[i].reference,
    ensures
        key_index(before, key, k) == key_index(after, key, k),
    decreases before.len() - k,
{
    if k < before.len() {
        assert(after[k].uuid == before[k].uuid);
        lemma_same_named(before, after, key, k + 1);
    }
}

/// The footprint that a key names, and the child that states one of its properties.
proof fn lemma_named_property(c: Seq<char>, j: int, i: int) -> (m: int)
    requires
        is_document(bytes(c), bytes("kicad_pcb"@)),
        0 <= j < board_footprints(bytes(c)).len(),
        0 <= i < board_footprints(bytes(c))[j].properties.len(),
    ensures
        ({
            let s = bytes(c);
            let starts = top_level_starts(s, bytes("footprint"@), s.len() as int);
            let q = starts[j];
            let kids = children(s, q, block_end(s, q).unwrap());
            &&& j < starts.len()
            &&& block_end(s, q).is_some()
            &&& closes_at(s, q, block_end(s, q).unwrap())
            &&& between(lex(s, 0, q))
            &&& 0 <= m < kids.len()
            &&& tag_text(s, kids[m].0) == "property"@
            &&& property_at(s, kids[m].0, kids[m].1) == Some(board_footprints(s)[j].properties[i])
            &&& told(s, nothing(), kids, m).fields.len() == i
        }),
{
    let s = bytes(c);
    let tag = bytes("footprint"@);
    let starts = top_level_starts(s, tag, s.len() as int);
    assert forall|k: int| 0 <= k < starts.len() implies block_end(s, #[trigger] starts[k]).is_some() by {
        lemma_start_is(s, tag, s.len() as int, k);
        lemma_item_closes(s, bytes("kicad_pcb"@), tag, starts[k]);
    }
    lemma_footprints_are(s, starts, starts.len() as int);
    let q = starts[j];
    lemma_start_is(s, tag, s.len() as int, j);
    lemma_item_closes(s, bytes("kicad_pcb"@), tag, q);
    let e = block_end(s, q).unwrap();
    let kids = children(s, q, e);
    let h = footprint_header(s, q, e);
    assert(fields_of(h.properties) =~= Seq::<(Seq<char>, Option<Seq<char>>)>::empty());
    assert(board_footprints(s)[j] == footprint_at(s, q, e));
    lemma_property_child(s, h, kids, kids.len() as int, i)
}

/// What one setting that changes something comes to.
proof fn lemma_one_setting(fp: Footprint, name: Seq<char>, value: Seq<char>)
    ensures
        ({
            let steps = setting_steps(fp, seq![(name, value)], 1);
            let i = prop_index(fp.properties, name, 0);
            steps is Ok && steps->Ok_0.1.len() > 0 ==> {
                &&& i.is_some()
                &&& 0 <= i.unwrap() < fp.properties.len()
                &&& fp.properties[i.unwrap()].name == name
                &&& fp.properties[i.unwrap()].value_range.is_some()
                &&& steps->Ok_0.1 == seq![
                    crate::edit::Splice {
                        start: fp.properties[i.unwrap()].value_range.unwrap().0,
                        end: fp.properties[i.unwrap()].value_range.unwrap().1,
                        bytes: bytes(quoted_text(value)),
                    },
                ]
            }
        }),
{
    let wanted = seq![(name, value)];
    assert(wanted[0] == (name, value));
    reveal_with_fuel(setting_steps, 2);
    lemma_prop_in(fp.properties, name, 0);
    let steps = setting_steps(fp, wanted, 1);
    if steps is Ok && steps->Ok_0.1.len() > 0 {
        let (a, b) = fp.properties[prop_index(fp.properties, name, 0).unwrap()].value_range.unwrap();
        let one = crate::edit::Splice { start: a, end: b, bytes: bytes(quoted_text(value)) };
        assert(steps->Ok_0.1 =~= seq![one]);
    }
}

/// A value exchanged in a property exchanges the property for one with the same name.
#[verifier::rlimit(40)]
proof fn lemma_swapped_block(s: Seq<u8>, v: Seq<char>, x: int, y: int, value: Seq<char>) -> (wt: Seq<char>)
    requires
        closes_at(s, x, y),
        tag_text(s, x) == "property"@,
        property_at(s, x, y) matches Some(p) && p.value_range.is_some(),
        ({
            let (a, b) = property_at(s, x, y).unwrap().value_range.unwrap();
            &&& between(lex(s, x, a))
            &&& bytes(v) == s.take(a) + bytes(quoted_text(value)) + s.skip(b)
        }),
    ensures
        swaps(s, x, y, bytes(wt)),
        bytes(v) == swap(s, x, y, bytes(wt)),
        tag_text(bytes(v), x) == "property"@,
        property_at(bytes(v), x, x + bytes(wt).len()).is_some(),
        property_at(bytes(v), x, x + bytes(wt).len()).unwrap().name == property_at(s, x, y).unwrap().name,
        property_at(bytes(v), x, x + bytes(wt).len()).unwrap().value == Some(value),
{
    let t = bytes(v);
    lemma_property_exchanged(s, x, y, value);
    let (a, b) = property_at(s, x, y).unwrap().value_range.unwrap();
    let w = bytes(quoted_text(value));
    let f = y - b + a + w.len();
    let wb = t.subrange(x, f);
    crate::scan::lemma_block_cuttable(v, x, f);
    crate::text::lemma_between_cuts(v, x, f);
    assert forall|k: int| x <= k < f implies #[trigger] t[k] == wb[k + (-x)] by {}
    lemma_block_moved(t, wb, x, f, -x);
    assert(swap(s, x, y, wb) =~= t);
    text_of(wb)
}

/// A value exchanged in a child of a footprint exchanges the child.
proof fn lemma_swapped(c: Seq<char>, v: Seq<char>, j: int, m: int, value: Seq<char>) -> (r: (
    int,
    int,
    Seq<char>,
))
    requires
        is_document(bytes(c), bytes("kicad_pcb"@)),
        ({
            let s = bytes(c);
            let starts = top_level_starts(s, bytes("footprint"@), s.len() as int);
            let q = starts[j];
            let kids = children(s, q, block_end(s, q).unwrap());
            let (x, y) = kids[m];
            let p = property_at(s, x, y).unwrap();
            let (a, b) = p.value_range.unwrap();
            &&& 0 <= j < starts.len()
            &&& block_end(s, q).is_some()
            &&& closes_at(s, q, block_end(s, q).unwrap())
            &&& between(lex(s, 0, q))
            &&& 0 <= m < kids.len()
            &&& tag_text(s, x) == "property"@
            &&& property_at(s, x, y).is_some()
            &&& p.value_range.is_some()
            &&& p.name != "Reference"@
            &&& between(lex(s, 0, a))
            &&& bytes(v) == s.take(a) + bytes(quoted_text(value)) + s.skip(b)
        }),
    ensures
        property_swapped(bytes(c), r.0, r.1, bytes(r.2), j, m, Some(value)),
        bytes(v) == swap(bytes(c), r.0, r.1, bytes(r.2)),
{
    let s = bytes(c);
    let t = bytes(v);
    let starts = top_level_starts(s, bytes("footprint"@), s.len() as int);
    let q = starts[j];
    let e = block_end(s, q).unwrap();
    let kids = children(s, q, e);
    let (x, y) = kids[m];
    lemma_kids(s, q, e);
    assert(kids[m] == (x, y));
    crate::scan::lemma_lex_shift(s, 0, q, x);
    lemma_value_place(s, x, y);
    let (a, b) = property_at(s, x, y).unwrap().value_range.unwrap();
    crate::substitution::lemma_between_inside(s, 0, x, a, y);
    let wt = lemma_swapped_block(s, v, x, y, value);
    (x, y, wt)
}

/// A property that was set reads back: the footprint that the key names has the new
/// value under that name, whatever the value holds. Every other property, its uuid
/// and its reference are what they were, and so are those of all other footprints.
///
/// The value must be a string for the block scanner too, which it would not be where
/// a bare name before it holds a quote.
pub proof fn law_set_property_reads_back(
    c: Seq<char>,
    v: Seq<char>,
    key: Key,
    name: Seq<char>,
    value: Seq<char>,
    board: Seq<char>,
)
    requires
        is_document(bytes(c), bytes("kicad_pcb"@)),
        edit_outcome(bytes(c), key, seq![(name, value)], board) is Ok,
        edit_outcome(bytes(c), key, seq![(name, value)], board)->Ok_0.1 == Some(bytes(v)),
        ({
            let fp = footprint_named(bytes(c), key, board)->Ok_0;
            let p = fp.properties[prop_index(fp.properties, name, 0).unwrap()];
            between(lex(bytes(c), 0, p.value_range.unwrap().0))
        }),
    ensures
        footprint_named(bytes(v), key, board) is Ok,
        ({
            let fp = footprint_named(bytes(c), key, board)->Ok_0;
            let i = prop_index(fp.properties, name, 0).unwrap();
            stated(footprint_named(bytes(v), key, board)->Ok_0) == with_value(stated(fp), i, Some(value))
        }),
        ({
            let before = board_footprints(bytes(c));
            let after = board_footprints(bytes(v));
            &&& before.len() == after.len()
            &&& forall|k: int|
                0 <= k < before.len() && Some(k) != key_index(before, key, 0) ==> stated(
                    #[trigger] after[k],
                ) == stated(before[k])
        }),
{
    let s = bytes(c);
    let t = bytes(v);
    let fps = board_footprints(s);
    let j = key_index(fps, key, 0).unwrap();
    lemma_key_in(fps, key, 0);
    let fp = fps[j];
    lemma_one_setting(fp, name, value);
    let i = prop_index(fp.properties, name, 0).unwrap();
    let (a, b) = fp.properties[i].value_range.unwrap();
    let wanted = seq![(name, value)];
    assert(wanted[0].0 == name);
    assert(!crate::components::renames(wanted));
    let m = lemma_named_property(c, j, i);
    law_one_edit(s, crate::edit::Splice { start: a, end: b, bytes: bytes(quoted_text(value)) });
    let (x, y, wt) = lemma_swapped(c, v, j, m, value);
    lemma_board_stated(c, wt, x, y, j, m, Some(value));
    let after = board_footprints(t);
    assert forall|k: int| 0 <= k < fps.len() implies (#[trigger] after[k]).uuid == fps[k].uuid
        && after[k].reference == fps[k].reference by {
        if k != j {
            assert(stated(after[k]) == stated(fps[k]));
        }
    }
    lemma_same_named(fps, after, key, 0);
}

/// The value of a property lies in its block.
proof fn lemma_value_place(s: Seq<u8>, x: int, y: int)
    requires
        0 <= x < y <= s.len(),
        property_at(s, x, y) matches Some(p) && p.value_range.is_some(),
    ensures
        ({
            let (a, b) = property_at(s, x, y).unwrap().value_range.unwrap();
            x < a < b <= y
        }),
{
    lemma_token_in(s, x + 9, y);
    let (name, na, ne) = token_at(s, x + 9, y).unwrap();
    lemma_token_in(s, ne, y);
}

} // verus!
