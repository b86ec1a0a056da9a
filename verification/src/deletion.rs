//! What deleting an item leaves of a board: every other item, as it was.

use crate::blocks::{children, tag_byte};
use crate::board_file::delete_range_of;
use crate::chars::blank;
use crate::components::{commit_edits, delete_splices, footprint_named, key_index, Key};
use crate::copper::without_item;
use crate::edit::{edited, edits_fit, law_one_edit, Splice};
use crate::footprint::{
    board_footprints, footprint_at, footprint_header, with_children, Footprint,
};
use crate::grammar::between;
use crate::items::{item_at, item_named, item_uuid, items_at, top_level_items, uuid_index, Item};
use crate::moving::{
    lemma_footprint_word, lemma_footprints_are, lemma_items_apart, lemma_key_in, lemma_start_is,
};
use crate::placing::{
    is_tag, lemma_ascii_char, lemma_block_tag, lemma_inner_closes, lemma_kicad_pcb, lemma_no_starts,
    lemma_root, lemma_same_starts, lemma_skip_blank_is, lemma_tag_ends, lemma_tag_same, starts_item,
};
use crate::property_laws::{lemma_same_stated, stated, stated_at};
use crate::scan::{
    balanced_block, block_end, closes_at, cuttable, indent_start, is_document, law_top_level_starts,
    lead_start, lemma_block_cuttable, lemma_block_end, lemma_block_end_is, lemma_block_moved,
    lemma_depth_bound, lemma_lead, lemma_lex_over_block, lemma_lex_same, lex, lex_step, opens, outside,
    skip_blank, tag_opens, top_level_starts, CLOSE, OPEN,
};
use crate::sexp::Sexp;
use crate::substitution::lemma_same_range;
use crate::text::{
    bytes, first_byte, lemma_between_cuts, lemma_bytes_ascii, lemma_bytes_concat,
    lemma_bytes_injective, lemma_ends, lemma_first_byte, text_of,
};
use vstd::prelude::*;

verus! {

// ─── The range that goes ─────────────────────────────────────────────────────

/// The white space before an item is white space.
proof fn lemma_indent_is_blank(s: Seq<u8>, at: int)
    requires
        0 <= at <= s.len(),
    ensures
        0 <= indent_start(s, at) <= at,
        forall|k: int| indent_start(s, at) <= k < at ==> blank(#[trigger] s[k]),
    decreases at,
{
    if at > 0 && (s[at - 1] == 0x20 || s[at - 1] == 0x09) {
        lemma_indent_is_blank(s, at - 1);
    }
}

/// `s` without the bytes `x..e`.
pub open spec fn without(s: Seq<u8>, x: int, e: int) -> Seq<u8> {
    s.take(x) + s.skip(e)
}

/// A top-level block and the white space before it: the block is `q..e`, and the
/// white space begins at `x`.
pub open spec fn led_item(s: Seq<u8>, x: int, q: int, e: int) -> bool {
    &&& is_document(s, bytes("kicad_pcb"@))
    &&& opens(s, q)
    &&& lex(s, 0, q).depth == 1
    &&& closes_at(s, q, e)
    &&& x == lead_start(s, q)
}

/// Where a top-level block and its white space stand.
proof fn lemma_led(s: Seq<u8>, x: int, q: int, e: int)
    requires
        led_item(s, x, q, e),
    ensures
        ({
            let root = skip_blank(s, 0);
            let f = block_end(s, root).unwrap();
            &&& root < x <= q < e < f <= s.len()
            &&& closes_at(s, root, f)
            &&& between(lex(s, 0, q))
            &&& lex(s, 0, x) == lex(s, 0, q)
            &&& lex(s, 0, e) == lex(s, 0, q)
            &&& forall|k: int| x <= k < q ==> blank(#[trigger] s[k])
            &&& forall|k: int| x <= k <= q ==> #[trigger] lex(s, 0, k) == lex(s, 0, q)
            &&& forall|k: int| q < k < e ==> (#[trigger] lex(s, 0, k)).depth > 1
            &&& s[e - 1] == CLOSE
        }),
{
    let root = skip_blank(s, 0);
    let f = block_end(s, root).unwrap();
    lemma_root(s, bytes("kicad_pcb"@));
    lemma_opening_closes(s, q);
    lemma_block_end(s, q, e);
    lemma_block_end_is(s, q);
    lemma_indent_is_blank(s, q);
    lemma_lex_over_block(s, 0, q, e);
    if x <= root {
        assert(blank(s[root]));
    }
    lemma_blank_back(s, x, q);
}

/// Before white space a scan is where it is behind it.
proof fn lemma_blank_back(s: Seq<u8>, x: int, q: int)
    requires
        0 <= x <= q <= s.len(),
        between(lex(s, 0, q)),
        forall|k: int| x <= k < q ==> blank(#[trigger] s[k]),
    ensures
        forall|k: int| x <= k <= q ==> #[trigger] lex(s, 0, k) == lex(s, 0, q),
    decreases q - x,
{
    if x < q {
        assert(blank(s[q - 1]));
        assert(lex(s, 0, q) == lex_step(lex(s, 0, q - 1), s[q - 1]));
        lemma_depth_bound(s, 0, q - 1);
        lemma_blank_back(s, x, q - 1);
    }
}

/// A block that opens one deep in the file closes inside the root.
proof fn lemma_opening_closes(s: Seq<u8>, q: int)
    requires
        is_document(s, bytes("kicad_pcb"@)),
        opens(s, q),
        lex(s, 0, q).depth == 1,
    ensures
        block_end(s, q).is_some(),
        closes_at(s, q, block_end(s, q).unwrap()),
        between(lex(s, 0, q)),
        skip_blank(s, 0) < q,
        block_end(s, q).unwrap() < block_end(s, skip_blank(s, 0)).unwrap(),
{
    lemma_root(s, bytes("kicad_pcb"@));
    let r = skip_blank(s, 0);
    let e = block_end(s, r).unwrap();
    if q <= r {
        assert(lex(s, 0, q) == outside());
    }
    assert(lex(s, 0, q) == lex(s, r, q));
    if q >= e {
        assert(blank(s[q]));
    }
    lemma_inner_closes(s, r, e, q);
    lemma_depth_bound(s, 0, q);
}

// ─── The file without it ─────────────────────────────────────────────────────

/// The bytes and the lexical state of the file without the item.
proof fn lemma_without(s: Seq<u8>, x: int, q: int, e: int)
    requires
        led_item(s, x, q, e),
    ensures
        ({
            let t = without(s, x, e);
            let d = e - x;
            &&& t.len() == s.len() - d
            &&& forall|k: int| 0 <= k < x ==> #[trigger] s[k] == t[k + 0]
            &&& forall|k: int| e <= k < s.len() ==> #[trigger] s[k] == t[k + (x - e)]
            &&& forall|k: int| 0 <= k <= x ==> #[trigger] lex(t, 0, k) == lex(s, 0, k)
            &&& forall|k: int| x <= k <= t.len() ==> #[trigger] lex(t, 0, k) == lex(s, 0, k + d)
        }),
{
    let t = without(s, x, e);
    let d = e - x;
    lemma_led(s, x, q, e);
    assert forall|k: int| 0 <= k < x implies #[trigger] s[k] == t[k + 0] by {}
    assert forall|k: int| e <= k < s.len() implies #[trigger] s[k] == t[k + (x - e)] by {}
    assert forall|k: int| 0 <= k <= x implies #[trigger] lex(t, 0, k) == lex(s, 0, k) by {
        lemma_lex_same(s, t, 0, k, 0);
    }
    assert forall|k: int| x <= k <= t.len() implies #[trigger] lex(t, 0, k) == lex(s, 0, k + d) by {
        lemma_lex_on(s, t, x, e, k);
    }
}

proof fn lemma_lex_on(s: Seq<u8>, t: Seq<u8>, x: int, e: int, k: int)
    requires
        0 <= x <= e <= s.len(),
        t == without(s, x, e),
        lex(t, 0, x) == lex(s, 0, e),
        x <= k <= t.len(),
    ensures
        lex(t, 0, k) == lex(s, 0, k + (e - x)),
    decreases k,
{
    if x < k {
        lemma_lex_on(s, t, x, e, k - 1);
        assert(t[k - 1] == s[k - 1 + (e - x)]);
        assert(lex(t, 0, k) == lex_step(lex(t, 0, k - 1), t[k - 1]));
    }
}

/// The file without the item is text.
proof fn lemma_without_text(c: Seq<char>, x: int, q: int, e: int)
    requires
        led_item(bytes(c), x, q, e),
    ensures
        bytes(text_of(without(bytes(c), x, e))) == without(bytes(c), x, e),
        cuttable(bytes(c), x, e),
{
    let s = bytes(c);
    lemma_led(s, x, q, e);
    lemma_block_cuttable(c, q, e);
    lemma_lead(c, q);
    lemma_ends(c);
    lemma_between_cuts(c, 0, x);
    lemma_between_cuts(c, e, s.len() as int);
    let u = text_of(s.subrange(0, x));
    let v = text_of(s.subrange(e, s.len() as int));
    lemma_bytes_concat(u, v);
    assert(without(s, x, e) =~= s.subrange(0, x) + s.subrange(e, s.len() as int));
    crate::text::lemma_bytes_valid(u + v);
}

/// Another top-level block stands before the range or behind it.
proof fn lemma_beside(s: Seq<u8>, x: int, q: int, e: int, p: int)
    requires
        led_item(s, x, q, e),
        opens(s, p),
        lex(s, 0, p).depth == 1,
        p != q,
    ensures
        ({
            let f = block_end(s, p).unwrap();
            &&& block_end(s, p).is_some()
            &&& closes_at(s, p, f)
            &&& f <= x || e <= p
        }),
{
    lemma_led(s, x, q, e);
    lemma_opening_closes(s, p);
    let f = block_end(s, p).unwrap();
    lemma_block_end_is(s, p);
    if p < q {
        lemma_items_apart(s, p, f, q);
        if f > x {
            assert(blank(s[f - 1]));
        }
    } else {
        lemma_items_apart(s, q, e, p);
    }
}

/// Where a position outside the range goes.
pub open spec fn shifted(p: int, x: int, e: int) -> int {
    if p < e {
        p
    } else {
        p - (e - x)
    }
}

/// A block outside the range is the same block afterwards.
#[verifier::rlimit(40)]
proof fn lemma_block_bytes(s: Seq<u8>, x: int, q: int, e: int, p: int)
    requires
        led_item(s, x, q, e),
        opens(s, p),
        lex(s, 0, p).depth == 1,
        p != q,
    ensures
        ({
            let t = without(s, x, e);
            let f = block_end(s, p).unwrap();
            let p2 = shifted(p, x, e);
            let f2 = shifted(f, x, e);
            &&& closes_at(s, p, f)
            &&& block_end(s, p) == Some(f)
            &&& f <= x || e <= p
            &&& closes_at(t, p2, f2)
            &&& block_end(t, p2) == Some(f2)
            &&& f2 - p2 == f - p
            &&& s.subrange(p, f) == t.subrange(p2, f2)
        }),
{
    let t = without(s, x, e);
    lemma_without(s, x, q, e);
    lemma_led(s, x, q, e);
    lemma_beside(s, x, q, e, p);
    let f = block_end(s, p).unwrap();
    if f <= x {
        lemma_block_moved(s, t, p, f, 0);
        lemma_same_range(s, t, p, f, 0);
    } else {
        lemma_block_moved(s, t, p, f, x - e);
        lemma_same_range(s, t, p, f, x - e);
    }
}

/// The tag of a block is in the block.
proof fn lemma_tag_alone(c: Seq<char>, p: int, f: int, tag: Seq<char>)
    requires
        closes_at(bytes(c), p, f),
        is_tag(tag),
    ensures
        tag_opens(bytes(c), p, bytes(tag)) == tag_opens(bytes(c).subrange(p, f), 0, bytes(tag)),
{
    let s = bytes(c);
    lemma_block_cuttable(c, p, f);
    lemma_between_cuts(c, p, f);
    let v = s.subrange(p, f);
    assert forall|k: int| p <= k < f implies #[trigger] s[k] == v[k + (0 - p)] by {}
    lemma_block_moved(s, v, p, f, 0 - p);
    lemma_block_tag(text_of(v), c, p, tag);
}

/// A block outside the range has the tag it had.
proof fn lemma_block_stays(c: Seq<char>, x: int, q: int, e: int, p: int, tag: Seq<char>)
    requires
        led_item(bytes(c), x, q, e),
        opens(bytes(c), p),
        lex(bytes(c), 0, p).depth == 1,
        p != q,
        is_tag(tag),
    ensures
        tag_opens(bytes(c), p, bytes(tag)) == tag_opens(
            without(bytes(c), x, e),
            shifted(p, x, e),
            bytes(tag),
        ),
{
    let s = bytes(c);
    let t = without(s, x, e);
    lemma_block_bytes(s, x, q, e, p);
    let f = block_end(s, p).unwrap();
    lemma_without_text(c, x, q, e);
    lemma_tag_alone(c, p, f, tag);
    lemma_tag_alone(text_of(t), shifted(p, x, e), shifted(f, x, e), tag);
}

/// The file without the item is a board still, where what follows the item can follow
/// a tag.
#[verifier::rlimit(40)]
proof fn lemma_still_board(c: Seq<char>, x: int, q: int, e: int)
    requires
        led_item(bytes(c), x, q, e),
        blank(bytes(c)[e]) || bytes(c)[e] == OPEN || bytes(c)[e] == CLOSE,
    ensures
        is_document(without(bytes(c), x, e), bytes("kicad_pcb"@)),
{
    let s = bytes(c);
    let t = without(s, x, e);
    let root = skip_blank(s, 0);
    let f = block_end(s, root).unwrap();
    let d = e - x;
    lemma_root(s, bytes("kicad_pcb"@));
    lemma_led(s, x, q, e);
    lemma_without(s, x, q, e);
    lemma_without_text(c, x, q, e);
    let dc = text_of(t);
    assert(s[root] == t[root + 0]);
    assert forall|k: int| 0 <= k < root implies blank(#[trigger] t[k]) by {
        assert(s[k] == t[k + 0]);
    }
    lemma_skip_blank_is(t, 0, root);
    assert(s[e] == t[e + (x - e)]);
    if x < q {
        assert(blank(s[x]));
    }
    lemma_tag_ends(c, x);
    lemma_tag_ends(dc, x);
    lemma_kicad_pcb();
    lemma_tag_same(c, dc, root, x, "kicad_pcb"@);
    assert(lex(t, 0, root) == outside());
    assert forall|k: int| root <= k <= t.len() implies #[trigger] lex(t, root, k) == lex(t, 0, k) by {
        crate::placing::lemma_lex_restart(t, 0, root, k);
    }
    assert forall|k: int| root < k < f - d implies (#[trigger] lex(t, root, k)).depth > 0 by {
        assert(lex(t, 0, k) == lex(t, root, k));
        if k <= x {
            assert(lex(t, 0, k) == lex(s, 0, k));
            assert(lex(s, 0, k) == lex(s, root, k));
            assert(lex(s, root, k).depth > 0);
        } else {
            assert(lex(t, 0, k) == lex(s, 0, k + d));
            assert(lex(s, 0, k + d) == lex(s, root, k + d));
            assert(lex(s, root, k + d).depth > 0);
        }
    }
    assert(lex(t, root, f - d) == lex(t, 0, f - d));
    assert(lex(t, 0, f - d) == lex(s, 0, f));
    assert(lex(s, 0, f) == lex(s, root, f));
    lemma_block_end(t, root, f - d);
    assert forall|k: int| f - d <= k < t.len() implies blank(#[trigger] t[k]) by {
        assert(s[k + d] == t[k + d + (x - e)]);
    }
    lemma_skip_blank_is(t, f - d, t.len() as int);
}

// ─── The items ───────────────────────────────────────────────────────────────

/// The openings of top-level `(tag …)` blocks in `e..k`.
spec fn behind(s: Seq<u8>, tag: Seq<u8>, e: int, k: int) -> Seq<int>
    decreases k - e,
{
    if k <= e {
        Seq::empty()
    } else if starts_item(s, tag, k - 1) {
        behind(s, tag, e, k - 1).push(k - 1)
    } else {
        behind(s, tag, e, k - 1)
    }
}

/// Positions moved to the front by `d`.
spec fn back_by(v: Seq<int>, d: int) -> Seq<int> {
    Seq::new(v.len(), |i: int| v[i] - d)
}

/// The opening of the deleted item, where it has this tag.
spec fn own_start(s: Seq<u8>, tag: Seq<u8>, q: int) -> Seq<int> {
    if tag_opens(s, q, tag) {
        seq![q]
    } else {
        Seq::empty()
    }
}

proof fn lemma_openings_before(c: Seq<char>, x: int, q: int, e: int, tag: Seq<char>)
    requires
        led_item(bytes(c), x, q, e),
        is_tag(tag),
    ensures
        top_level_starts(without(bytes(c), x, e), bytes(tag), x) == top_level_starts(
            bytes(c),
            bytes(tag),
            x,
        ),
        top_level_starts(bytes(c), bytes(tag), e) == top_level_starts(bytes(c), bytes(tag), x)
            + own_start(bytes(c), bytes(tag), q),
{
    let s = bytes(c);
    let t = without(s, x, e);
    let g = bytes(tag);
    lemma_led(s, x, q, e);
    lemma_without(s, x, q, e);
    assert forall|k: int| 0 <= k < x implies #[trigger] starts_item(s, g, k) == starts_item(t, g, k) by {
        assert(s[k] == t[k + 0]);
        assert(lex(t, 0, k) == lex(s, 0, k));
        if opens(s, k) && lex(s, 0, k).depth == 1 {
            lemma_block_stays(c, x, q, e, k, tag);
        }
    }
    lemma_same_starts(s, t, g, x);
    assert forall|k: int| x <= k < q implies !#[trigger] starts_item(s, g, k) by {
        assert(blank(s[k]));
    }
    lemma_no_starts(s, g, x, q);
    assert forall|k: int| q + 1 <= k < e implies !#[trigger] starts_item(s, g, k) by {
        assert(lex(s, 0, k).depth > 1);
    }
    lemma_no_starts(s, g, q + 1, e);
    let a = top_level_starts(s, g, x);
    if tag_opens(s, q, g) {
        assert(a.push(q) =~= a + seq![q]);
    } else {
        assert(a + Seq::<int>::empty() =~= a);
    }
}

#[verifier::rlimit(40)]
proof fn lemma_openings_behind(c: Seq<char>, x: int, q: int, e: int, tag: Seq<char>, k: int)
    requires
        led_item(bytes(c), x, q, e),
        is_tag(tag),
        e <= k <= bytes(c).len(),
    ensures
        top_level_starts(bytes(c), bytes(tag), k) == top_level_starts(bytes(c), bytes(tag), e)
            + behind(bytes(c), bytes(tag), e, k),
        top_level_starts(without(bytes(c), x, e), bytes(tag), k - (e - x)) == top_level_starts(
            without(bytes(c), x, e),
            bytes(tag),
            x,
        ) + back_by(behind(bytes(c), bytes(tag), e, k), e - x),
    decreases k - e,
{
    let s = bytes(c);
    let t = without(s, x, e);
    let g = bytes(tag);
    let d = e - x;
    lemma_led(s, x, q, e);
    let a = top_level_starts(s, g, e);
    let b = top_level_starts(t, g, x);
    if k == e {
        assert(a + Seq::<int>::empty() =~= a);
        assert(b + back_by(Seq::empty(), d) =~= b);
    } else {
        lemma_openings_behind(c, x, q, e, tag, k - 1);
        lemma_without(s, x, q, e);
        let p = k - 1;
        assert(s[p] == t[p + (x - e)]);
        assert(lex(t, 0, p - d) == lex(s, 0, p - d + d));
        if opens(s, p) && lex(s, 0, p).depth == 1 {
            lemma_block_stays(c, x, q, e, p, tag);
        }
        assert(starts_item(s, g, p) == starts_item(t, g, p - d));
        let m = behind(s, g, e, p);
        if starts_item(s, g, p) {
            assert((a + m).push(p) =~= a + m.push(p));
            assert((b + back_by(m, d)).push(p - d) =~= b + back_by(m.push(p), d));
        }
    }
}

/// What the items say, without where they stand.
pub open spec fn nodes(items: Seq<Item>) -> Seq<Sexp> {
    Seq::new(items.len(), |i: int| items[i].node)
}

proof fn lemma_items_join(s: Seq<u8>, a: Seq<int>, b: Seq<int>, n: int)
    requires
        0 <= n <= b.len(),
    ensures
        items_at(s, a + b, a.len() + n) == items_at(s, a, a.len() as int) + items_at(s, b, n),
    decreases n,
{
    let l = a.len() as int;
    if n == 0 {
        lemma_items_same_starts(s, a + b, a, l);
        assert(items_at(s, a, l) + items_at(s, b, 0) =~= items_at(s, a, l));
    } else {
        lemma_items_join(s, a, b, n - 1);
        assert((a + b)[l + n - 1] == b[n - 1]);
        if let Some(i) = item_at(s, b[n - 1]) {
            assert((items_at(s, a, l) + items_at(s, b, n - 1)).push(i) =~= items_at(s, a, l)
                + items_at(s, b, n - 1).push(i));
        }
    }
}

proof fn lemma_items_same_starts(s: Seq<u8>, a: Seq<int>, b: Seq<int>, n: int)
    requires
        0 <= n <= a.len(),
        n <= b.len(),
        forall|i: int| 0 <= i < n ==> a[i] == b[i],
    ensures
        items_at(s, a, n) == items_at(s, b, n),
    decreases n,
{
    if n > 0 {
        lemma_items_same_starts(s, a, b, n - 1);
    }
}

/// Items that stand elsewhere say the same.
proof fn lemma_items_say(s: Seq<u8>, t: Seq<u8>, a: Seq<int>, b: Seq<int>, n: int)
    requires
        0 <= n <= a.len(),
        a.len() == b.len(),
        forall|i: int| 0 <= i < a.len() ==> same_item(s, #[trigger] a[i], t, b[i]),
    ensures
        nodes(items_at(s, a, n)) == nodes(items_at(t, b, n)),
    decreases n,
{
    if n > 0 {
        lemma_items_say(s, t, a, b, n - 1);
        assert(same_item(s, a[n - 1], t, b[n - 1]));
        let u = items_at(s, a, n - 1);
        let v = items_at(t, b, n - 1);
        if let Some(i) = item_at(s, a[n - 1]) {
            let j = item_at(t, b[n - 1]).unwrap();
            assert(nodes(u.push(i)) =~= nodes(u).push(i.node));
            assert(nodes(v.push(j)) =~= nodes(v).push(j.node));
        }
    } else {
        assert(nodes(items_at(s, a, n)) =~= nodes(items_at(t, b, n)));
    }
}

/// Two positions hold items that say the same, or neither holds one.
spec fn same_item(s: Seq<u8>, p: int, t: Seq<u8>, r: int) -> bool {
    match (item_at(s, p), item_at(t, r)) {
        (Some(i), Some(j)) => i.node == j.node,
        (None, None) => true,
        _ => false,
    }
}

proof fn lemma_same_item(c: Seq<char>, x: int, q: int, e: int, p: int)
    requires
        led_item(bytes(c), x, q, e),
        opens(bytes(c), p),
        lex(bytes(c), 0, p).depth == 1,
        p != q,
    ensures
        same_item(bytes(c), p, without(bytes(c), x, e), shifted(p, x, e)),
{
    lemma_block_bytes(bytes(c), x, q, e, p);
}

/// The items of one tag, before and after.
#[verifier::rlimit(40)]
proof fn lemma_items_without(c: Seq<char>, x: int, q: int, e: int, tag: Seq<char>)
    requires
        led_item(bytes(c), x, q, e),
        is_tag(tag),
    ensures
        ({
            let s = bytes(c);
            let t = without(s, x, e);
            let g = bytes(tag);
            let a = top_level_starts(s, g, x);
            let m = own_start(s, g, q);
            let b = behind(s, g, e, s.len() as int);
            let front = items_at(s, a, a.len() as int);
            let own = items_at(s, m, m.len() as int);
            let back = items_at(s, b, b.len() as int);
            &&& top_level_items(s, tag) == front + own + back
            &&& nodes(top_level_items(t, tag)) == nodes(front) + nodes(back)
        }),
{
    let s = bytes(c);
    let t = without(s, x, e);
    let g = bytes(tag);
    let d = e - x;
    let n = s.len() as int;
    let a = top_level_starts(s, g, x);
    let m = own_start(s, g, q);
    let b = behind(s, g, e, n);
    lemma_led(s, x, q, e);
    lemma_without(s, x, q, e);
    lemma_openings_before(c, x, q, e, tag);
    lemma_openings_behind(c, x, q, e, tag, n);
    assert(top_level_starts(s, g, n) == a + m + b);
    lemma_items_join(s, a + m, b, b.len() as int);
    lemma_items_join(s, a, m, m.len() as int);
    let b2 = back_by(b, d);
    assert(top_level_starts(t, g, t.len() as int) == a + b2);
    lemma_items_join(t, a, b2, b2.len() as int);
    assert forall|i: int| 0 <= i < a.len() implies same_item(s, #[trigger] a[i], t, a[i]) by {
        law_top_level_starts(s, g, x);
        assert(a.contains(a[i]));
        lemma_same_item(c, x, q, e, a[i]);
    }
    lemma_items_say(s, t, a, a, a.len() as int);
    assert forall|i: int| 0 <= i < b.len() implies same_item(s, #[trigger] b[i], t, b2[i]) by {
        lemma_behind_is(s, g, e, n, i);
        lemma_same_item(c, x, q, e, b[i]);
    }
    lemma_items_say(s, t, b, b2, b.len() as int);
    let front = items_at(t, a, a.len() as int);
    let back = items_at(t, b2, b2.len() as int);
    assert(nodes(front + back) =~= nodes(front) + nodes(back));
}

proof fn lemma_behind_is(s: Seq<u8>, tag: Seq<u8>, e: int, k: int, i: int)
    requires
        0 <= i < behind(s, tag, e, k).len(),
    ensures
        starts_item(s, tag, behind(s, tag, e, k)[i]),
        e <= behind(s, tag, e, k)[i] < k,
    decreases k - e,
{
    let m = behind(s, tag, e, k - 1);
    if i < m.len() {
        lemma_behind_is(s, tag, e, k - 1, i);
    }
}

// ─── The laws ────────────────────────────────────────────────────────────────

/// Items stand in the order of their openings, at one of them each.
proof fn lemma_items_rise(s: Seq<u8>, starts: Seq<int>, n: int)
    requires
        0 <= n <= starts.len(),
        forall|i: int, j: int| 0 <= i < j < starts.len() ==> starts[i] < starts[j],
    ensures
        forall|i: int, j: int|
            0 <= i < j < items_at(s, starts, n).len() ==> (#[trigger] items_at(s, starts, n)[i]).start < (
            #[trigger] items_at(s, starts, n)[j]).start,
        forall|i: int|
            0 <= i < items_at(s, starts, n).len() ==> item_from(
                s,
                starts,
                n,
                #[trigger] items_at(s, starts, n)[i],
            ),
    decreases n,
{
    if n > 0 {
        lemma_items_rise(s, starts, n - 1);
        let u = items_at(s, starts, n - 1);
        let v = items_at(s, starts, n);
        assert forall|i: int| 0 <= i < v.len() implies item_from(s, starts, n, #[trigger] v[i]) by {
            if i < u.len() {
                assert(v[i] == u[i]);
                let k = choose|k: int| 0 <= k < n - 1 && item_at(s, #[trigger] starts[k]) == Some(u[i]);
                assert(item_at(s, starts[k]) == Some(v[i]));
            } else {
                assert(item_at(s, starts[n - 1]) == Some(v[i]));
            }
        }
        assert forall|i: int, j: int| 0 <= i < j < v.len() implies (#[trigger] v[i]).start < (#[trigger] v[j]).start by {
            assert(v[i] == u[i]);
            if j < u.len() {
                assert(v[j] == u[j]);
            } else {
                let k = choose|k: int| 0 <= k < n - 1 && item_at(s, #[trigger] starts[k]) == Some(u[i]);
                assert(starts[k] < starts[n - 1]);
            }
        }
    }
}

/// The item is the one that opens at one of the first `n` positions.
spec fn item_from(s: Seq<u8>, starts: Seq<int>, n: int, i: Item) -> bool {
    exists|k: int| 0 <= k < n && item_at(s, #[trigger] starts[k]) == Some(i)
}

/// A listed item is a top-level block of its tag.
proof fn lemma_item_is(s: Seq<u8>, tag: Seq<char>, j: int)
    requires
        0 <= j < top_level_items(s, tag).len(),
    ensures
        ({
            let i = top_level_items(s, tag)[j];
            &&& starts_item(s, bytes(tag), i.start)
            &&& item_at(s, i.start) == Some(i)
            &&& closes_at(s, i.start, i.end)
        }),
{
    let g = bytes(tag);
    let starts = top_level_starts(s, g, s.len() as int);
    law_top_level_starts(s, g, s.len() as int);
    lemma_items_rise(s, starts, starts.len() as int);
    let i = top_level_items(s, tag)[j];
    assert(item_from(s, starts, starts.len() as int, i));
    let k = choose|k: int| 0 <= k < starts.len() && item_at(s, #[trigger] starts[k]) == Some(i);
    assert(starts.contains(starts[k]));
    lemma_block_end_is(s, starts[k]);
}

/// A block has one tag.
pub proof fn lemma_one_tag(c: Seq<char>, q: int, a: Seq<char>, b: Seq<char>)
    requires
        tag_opens(bytes(c), q, bytes(a)),
        tag_opens(bytes(c), q, bytes(b)),
        is_tag(a),
        is_tag(b),
    ensures
        a == b,
{
    lemma_bytes_ascii(a);
    lemma_bytes_ascii(b);
    if a.len() < b.len() {
        lemma_longer_tag(c, q, a, b);
    } else if b.len() < a.len() {
        lemma_longer_tag(c, q, b, a);
    } else {
        lemma_bytes_injective(a, b);
    }
}

proof fn lemma_longer_tag(c: Seq<char>, q: int, a: Seq<char>, b: Seq<char>)
    requires
        tag_opens(bytes(c), q, bytes(a)),
        is_tag(a),
        is_tag(b),
        a.len() < b.len(),
    ensures
        !tag_opens(bytes(c), q, bytes(b)),
{
    let s = bytes(c);
    let g = bytes(b);
    lemma_bytes_ascii(a);
    lemma_bytes_ascii(b);
    if tag_opens(s, q, g) {
        let after = q + 1 + a.len();
        assert(s.subrange(q + 1, q + 1 + g.len())[a.len() as int] == g[a.len() as int]);
        assert(s[after] == g[a.len() as int]);
        assert(tag_byte(g[a.len() as int]));
        lemma_ascii_char(c, after);
    }
}

/// What the deletion comes to.
proof fn lemma_deleted(c: Seq<char>, q: int, e: int, what: Seq<char>, board: Seq<char>)
    requires
        led_item(bytes(c), lead_start(bytes(c), q), q, e),
    ensures
        ({
            let s = bytes(c);
            let x = lead_start(s, q);
            let del = Splice { start: x, end: e, bytes: Seq::empty() };
            &&& delete_range_of(s, q, e, what, board) == Ok::<(int, int), Seq<char>>((x, e))
            &&& edits_fit(s, seq![del])
            &&& edited(s, seq![del]) == without(s, x, e)
        }),
{
    let s = bytes(c);
    let x = lead_start(s, q);
    lemma_led(s, x, q, e);
    lemma_first_byte(s, OPEN, q);
    assert(first_byte(s, OPEN, q) == Some(q));
    lemma_block_end(s, q, e);
    assert(balanced_block(s, q) == Some((q, e)));
    lemma_without_text(c, x, q, e);
    let del = Splice { start: x, end: e, bytes: Seq::empty() };
    law_one_edit(s, del);
    assert(s.take(x) + Seq::<u8>::empty() + s.skip(e) =~= without(s, x, e));
}

/// Deleting an item takes that item off the board and nothing else: the other items of
/// its tag stay, in their order, and so do the items of every other tag.
///
/// The deletion is carried out wherever white space or a parenthesis follows the item.
/// Where a bare word does, it might run into what stands before the item, and the write
/// is refused if that spoils the root's tag.
#[verifier::rlimit(40)]
pub proof fn law_deletion_takes_one_item(
    c: Seq<char>,
    tag: Seq<char>,
    j: int,
    what: Seq<char>,
    board: Seq<char>,
)
    requires
        is_document(bytes(c), bytes("kicad_pcb"@)),
        is_tag(tag),
        0 <= j < top_level_items(bytes(c), tag).len(),
    ensures
        ({
            let s = bytes(c);
            let items = top_level_items(s, tag);
            let r = without_item(s, items[j], what, board);
            let after = s[items[j].end];
            &&& blank(after) || after == OPEN || after == CLOSE ==> r is Ok
            &&& r matches Ok(t) ==> {
                &&& nodes(top_level_items(t, tag)) == nodes(items).remove(j)
                &&& forall|g: Seq<char>|
                    is_tag(g) && g != tag ==> nodes(#[trigger] top_level_items(t, g)) == nodes(
                        top_level_items(s, g),
                    )
            }
        }),
{
    let s = bytes(c);
    let items = top_level_items(s, tag);
    let i = items[j];
    let (q, e) = (i.start, i.end);
    let x = lead_start(s, q);
    let t = without(s, x, e);
    lemma_item_is(s, tag, j);
    assert(led_item(s, x, q, e));
    lemma_deleted(c, q, e, what, board);
    let after = s[e];
    if blank(after) || after == OPEN || after == CLOSE {
        lemma_still_board(c, x, q, e);
    }
    lemma_items_without(c, x, q, e, tag);
    let gt = bytes(tag);
    let a = top_level_starts(s, gt, x);
    let m = own_start(s, gt, q);
    let b = behind(s, gt, e, s.len() as int);
    let front = items_at(s, a, a.len() as int);
    let back = items_at(s, b, b.len() as int);
    assert(m == seq![q]);
    assert(items_at(s, m, 0) =~= Seq::<Item>::empty());
    assert(items_at(s, m, 1) =~= seq![i]);
    let k = front.len() as int;
    assert(items[k] == i);
    let starts = top_level_starts(s, gt, s.len() as int);
    law_top_level_starts(s, gt, s.len() as int);
    lemma_items_rise(s, starts, starts.len() as int);
    assert(j == k) by {
        if j < k {
            assert(items[j].start < items[k].start);
        } else if k < j {
            assert(items[k].start < items[j].start);
        }
    }
    assert(nodes(items).remove(j) =~= nodes(front) + nodes(back));
    assert forall|g: Seq<char>| is_tag(g) && g != tag implies nodes(#[trigger] top_level_items(t, g))
        == nodes(top_level_items(s, g)) by {
        lemma_items_without(c, x, q, e, g);
        if tag_opens(s, q, bytes(g)) {
            lemma_one_tag(c, q, g, tag);
        }
        let u = top_level_starts(s, bytes(g), x);
        let v = behind(s, bytes(g), e, s.len() as int);
        let own = own_start(s, bytes(g), q);
        assert(items_at(s, own, 0) =~= Seq::<Item>::empty());
        assert(nodes(top_level_items(s, g)) =~= nodes(items_at(s, u, u.len() as int)) + nodes(
            items_at(s, v, v.len() as int),
        ));
    }
}

// ─── Looking up afterwards ───────────────────────────────────────────────────

/// What the top-level `(tag …)` with the uuid says.
pub open spec fn node_named(s: Seq<u8>, tag: Seq<char>, uuid: Seq<char>) -> Option<Sexp> {
    match item_named(s, tag, uuid) {
        Some(i) => Some(i.node),
        None => None,
    }
}

/// What the first of these from `k` on with the uuid says.
spec fn node_found(items: Seq<Item>, uuid: Seq<char>, k: int) -> Option<Sexp> {
    match uuid_index(items, uuid, k) {
        Some(i) => Some(items[i].node),
        None => None,
    }
}

/// One item with another uuid makes no difference to what is found.
proof fn lemma_found_without(items: Seq<Item>, after: Seq<Item>, j: int, uuid: Seq<char>, k: int)
    requires
        0 <= j < items.len(),
        0 <= k <= items.len(),
        nodes(after) == nodes(items).remove(j),
        item_uuid(items[j]) != Some(uuid),
    ensures
        node_found(after, uuid, if k <= j {
            k
        } else {
            k - 1
        }) == node_found(items, uuid, k),
    decreases items.len() - k,
{
    assert(nodes(after).len() == after.len());
    if k < items.len() {
        lemma_found_without(items, after, j, uuid, k + 1);
        if k < j {
            assert(nodes(after)[k] == nodes(items)[k]);
            assert(after[k].node == items[k].node);
        } else if k > j {
            assert(nodes(after)[k - 1] == nodes(items)[k]);
            assert(after[k - 1].node == items[k].node);
        }
    }
}

/// Where no item has the uuid none is found.
proof fn lemma_none_found(items: Seq<Item>, uuid: Seq<char>, k: int)
    requires
        0 <= k,
        forall|i: int| 0 <= i < items.len() ==> item_uuid(#[trigger] items[i]) != Some(uuid),
    ensures
        uuid_index(items, uuid, k).is_none(),
    decreases items.len() - k,
{
    if k < items.len() {
        lemma_none_found(items, uuid, k + 1);
    }
}

proof fn lemma_uuid_found(items: Seq<Item>, uuid: Seq<char>, k: int)
    requires
        0 <= k,
    ensures
        uuid_index(items, uuid, k) matches Some(i) ==> k <= i < items.len() && item_uuid(items[i]) == Some(
            uuid,
        ),
    decreases items.len() - k,
{
    if k < items.len() {
        lemma_uuid_found(items, uuid, k + 1);
    }
}

/// An item that was deleted by its uuid is not found under it any more, unless another
/// item of its tag has the same uuid, and whatever has another uuid is found as before.
pub proof fn law_deleted_item_is_gone(
    c: Seq<char>,
    tag: Seq<char>,
    uuid: Seq<char>,
    what: Seq<char>,
    board: Seq<char>,
)
    requires
        is_document(bytes(c), bytes("kicad_pcb"@)),
        is_tag(tag),
        item_named(bytes(c), tag, uuid).is_some(),
    ensures
        ({
            let s = bytes(c);
            let items = top_level_items(s, tag);
            without_item(s, item_named(s, tag, uuid).unwrap(), what, board) matches Ok(t) ==> {
                &&& (forall|i: int, j: int|
                    0 <= i < j < items.len() ==> !(item_uuid(#[trigger] items[i]) == Some(uuid)
                        && item_uuid(#[trigger] items[j]) == Some(uuid))) ==> item_named(
                    t,
                    tag,
                    uuid,
                ).is_none()
                &&& forall|u: Seq<char>|
                    u != uuid ==> #[trigger] node_named(t, tag, u) == node_named(s, tag, u)
            }
        }),
{
    let s = bytes(c);
    let items = top_level_items(s, tag);
    let j = uuid_index(items, uuid, 0).unwrap();
    lemma_uuid_found(items, uuid, 0);
    law_deletion_takes_one_item(c, tag, j, what, board);
    if let Ok(t) = without_item(s, items[j], what, board) {
        let after = top_level_items(t, tag);
        assert forall|u: Seq<char>| u != uuid implies #[trigger] node_named(t, tag, u) == node_named(
            s,
            tag,
            u,
        ) by {
            lemma_found_without(items, after, j, u, 0);
        }
        if forall|i: int, k: int|
            0 <= i < k < items.len() ==> !(item_uuid(#[trigger] items[i]) == Some(uuid) && item_uuid(
                #[trigger] items[k],
            ) == Some(uuid)) {
            assert(nodes(after).len() == after.len());
            assert forall|i: int| 0 <= i < after.len() implies item_uuid(#[trigger] after[i]) != Some(uuid) by {
                assert(nodes(after)[i] == after[i].node);
                if i < j {
                    assert(nodes(items)[i] == items[i].node);
                    assert(!(item_uuid(items[i]) == Some(uuid) && item_uuid(items[j]) == Some(uuid)));
                } else {
                    assert(nodes(items)[i + 1] == items[i + 1].node);
                    assert(!(item_uuid(items[j]) == Some(uuid) && item_uuid(items[i + 1]) == Some(uuid)));
                }
            }
            lemma_none_found(after, uuid, 0);
        }
    }
}

// ─── Components ──────────────────────────────────────────────────────────────

proof fn lemma_footprint_place(s: Seq<u8>, h: Footprint, kids: Seq<(int, int)>, n: int)
    ensures
        with_children(s, h, kids, n).start == h.start,
        with_children(s, h, kids, n).end == h.end,
    decreases n,
{
    if n > 0 {
        lemma_footprint_place(s, h, kids, n - 1);
    }
}

/// The footprints of a board are what stands at their openings.
proof fn lemma_footprints_stand(s: Seq<u8>)
    requires
        is_document(s, bytes("kicad_pcb"@)),
    ensures
        ({
            let starts = top_level_starts(s, bytes("footprint"@), s.len() as int);
            let fps = board_footprints(s);
            &&& fps.len() == starts.len()
            &&& forall|i: int|
                0 <= i < starts.len() ==> {
                    let q = #[trigger] starts[i];
                    let e = block_end(s, q).unwrap();
                    &&& starts_item(s, bytes("footprint"@), q)
                    &&& block_end(s, q).is_some()
                    &&& closes_at(s, q, e)
                    &&& fps[i] == footprint_at(s, q, e)
                    &&& fps[i].start == q
                    &&& fps[i].end == e
                }
        }),
{
    let g = bytes("footprint"@);
    let starts = top_level_starts(s, g, s.len() as int);
    assert forall|i: int| 0 <= i < starts.len() implies block_end(s, #[trigger] starts[i]).is_some() by {
        lemma_start_is(s, g, s.len() as int, i);
        lemma_opening_closes(s, starts[i]);
    }
    lemma_footprints_are(s, starts, starts.len() as int);
    assert forall|i: int| 0 <= i < starts.len() implies ({
        let q = #[trigger] starts[i];
        let e = block_end(s, q).unwrap();
        &&& starts_item(s, g, q)
        &&& block_end(s, q).is_some()
        &&& closes_at(s, q, e)
        &&& board_footprints(s)[i] == footprint_at(s, q, e)
        &&& board_footprints(s)[i].start == q
        &&& board_footprints(s)[i].end == e
    }) by {
        let q = starts[i];
        lemma_start_is(s, g, s.len() as int, i);
        lemma_opening_closes(s, q);
        let e = block_end(s, q).unwrap();
        let kids = children(s, q, e);
        lemma_footprint_place(s, footprint_header(s, q, e), kids, kids.len() as int);
    }
}

/// What the footprint that opens at `p` states, before and after.
proof fn lemma_stated_without(s: Seq<u8>, x: int, q: int, e: int, p: int)
    requires
        led_item(s, x, q, e),
        opens(s, p),
        lex(s, 0, p).depth == 1,
        p != q,
    ensures
        stated_at(without(s, x, e), shifted(p, x, e)) == stated_at(s, p),
{
    let t = without(s, x, e);
    reveal(stated_at);
    lemma_without(s, x, q, e);
    lemma_led(s, x, q, e);
    lemma_beside(s, x, q, e, p);
    let f = block_end(s, p).unwrap();
    if f <= x {
        lemma_same_stated(s, t, p, f, 0);
    } else {
        lemma_same_stated(s, t, p, f, x - e);
    }
}

/// Which position in a list the `i`th is once the `j`th is gone.
pub open spec fn skipping(i: int, j: int) -> int {
    if i < j {
        i
    } else {
        i + 1
    }
}

/// The openings of one tag without the `j`th.
proof fn lemma_starts_without(c: Seq<char>, x: int, q: int, e: int, tag: Seq<char>, j: int)
    requires
        led_item(bytes(c), x, q, e),
        is_tag(tag),
        tag_opens(bytes(c), q, bytes(tag)),
        0 <= j < top_level_starts(bytes(c), bytes(tag), bytes(c).len() as int).len(),
        top_level_starts(bytes(c), bytes(tag), bytes(c).len() as int)[j] == q,
    ensures
        ({
            let s = bytes(c);
            let t = without(s, x, e);
            let starts = top_level_starts(s, bytes(tag), s.len() as int);
            let mine = top_level_starts(t, bytes(tag), t.len() as int);
            &&& mine.len() == starts.len() - 1
            &&& forall|i: int|
                0 <= i < mine.len() ==> #[trigger] mine[i] == shifted(starts[skipping(i, j)], x, e)
        }),
{
    let s = bytes(c);
    let t = without(s, x, e);
    let g = bytes(tag);
    let n = s.len() as int;
    let starts = top_level_starts(s, g, n);
    let mine = top_level_starts(t, g, t.len() as int);
    lemma_openings_before(c, x, q, e, tag);
    lemma_led(s, x, q, e);
    lemma_without(s, x, q, e);
    lemma_openings_behind(c, x, q, e, tag, n);
    let a = top_level_starts(s, g, x);
    let b = behind(s, g, e, n);
    assert(starts == a + seq![q] + b);
    assert(mine == a + back_by(b, e - x));
    assert(starts[a.len() as int] == q);
    law_top_level_starts(s, g, n);
    assert(j == a.len()) by {
        if j < a.len() {
            assert(starts[j] < starts[a.len() as int]);
        } else if a.len() < j {
            assert(starts[a.len() as int] < starts[j]);
        }
    }
    assert forall|i: int| 0 <= i < mine.len() implies #[trigger] mine[i] == shifted(
        starts[skipping(i, j)],
        x,
        e,
    ) by {
        if i < j {
            law_top_level_starts(s, g, x);
            assert(a.contains(a[i]));
            assert(starts[i] == a[i]);
        } else {
            lemma_behind_is(s, g, e, n, i - j);
            assert(starts[i + 1] == b[i - j]);
        }
    }
}

/// The other footprints state what they did.
#[verifier::rlimit(40)]
proof fn lemma_others_stated(c: Seq<char>, x: int, q: int, e: int, j: int)
    requires
        led_item(bytes(c), x, q, e),
        tag_opens(bytes(c), q, bytes("footprint"@)),
        0 <= j < top_level_starts(bytes(c), bytes("footprint"@), bytes(c).len() as int).len(),
        top_level_starts(bytes(c), bytes("footprint"@), bytes(c).len() as int)[j] == q,
        is_document(without(bytes(c), x, e), bytes("kicad_pcb"@)),
    ensures
        ({
            let before = board_footprints(bytes(c));
            let after = board_footprints(without(bytes(c), x, e));
            &&& after.len() == before.len() - 1
            &&& forall|i: int|
                0 <= i < after.len() ==> stated(#[trigger] after[i]) == stated(before[skipping(i, j)])
        }),
{
    let s = bytes(c);
    let t = without(s, x, e);
    let g = bytes("footprint"@);
    let starts = top_level_starts(s, g, s.len() as int);
    lemma_footprint_word();
    lemma_starts_without(c, x, q, e, "footprint"@, j);
    lemma_footprints_stand(s);
    lemma_footprints_stand(t);
    law_top_level_starts(s, g, s.len() as int);
    let before = board_footprints(s);
    let after = board_footprints(t);
    let mine = top_level_starts(t, g, t.len() as int);
    assert forall|i: int| 0 <= i < after.len() implies stated(#[trigger] after[i]) == stated(
        before[skipping(i, j)],
    ) by {
        let k = skipping(i, j);
        let p = starts[k];
        assert(p != q) by {
            if k < j {
                assert(starts[k] < starts[j]);
            } else {
                assert(starts[j] < starts[k]);
            }
        }
        assert(starts_item(s, g, p));
        assert(mine[i] == shifted(p, x, e));
        lemma_stated_without(s, x, q, e, p);
        reveal(stated_at);
    }
}

/// A deleted component is gone from the board, and every other one states what it did,
/// in the same order.
///
/// The deletion is carried out wherever white space or a parenthesis follows the
/// footprint.
pub proof fn law_deleted_component_is_gone(c: Seq<char>, key: Key, board: Seq<char>)
    requires
        is_document(bytes(c), bytes("kicad_pcb"@)),
        footprint_named(bytes(c), key, board) is Ok,
    ensures
        ({
            let s = bytes(c);
            let before = board_footprints(s);
            let j = key_index(before, key, 0).unwrap();
            let r = commit_edits(s, delete_splices(s, before[j], board), board);
            let next = s[before[j].end];
            &&& 0 <= j < before.len()
            &&& footprint_named(s, key, board) == Ok::<Footprint, Seq<char>>(before[j])
            &&& blank(next) || next == OPEN || next == CLOSE ==> r is Ok
            &&& r matches Ok(t) ==> {
                let after = board_footprints(t);
                &&& after.len() == before.len() - 1
                &&& forall|i: int|
                    0 <= i < after.len() ==> stated(#[trigger] after[i]) == stated(before[skipping(i, j)])
            }
        }),
{
    let s = bytes(c);
    let g = bytes("footprint"@);
    let before = board_footprints(s);
    let j = key_index(before, key, 0).unwrap();
    lemma_key_in(before, key, 0);
    lemma_footprints_stand(s);
    let starts = top_level_starts(s, g, s.len() as int);
    let q = starts[j];
    let e = block_end(s, q).unwrap();
    let x = lead_start(s, q);
    let t = without(s, x, e);
    assert(starts_item(s, g, q));
    assert(led_item(s, x, q, e));
    lemma_deleted(c, q, e, "footprint "@ + before[j].label(), board);
    let next = s[e];
    if blank(next) || next == OPEN || next == CLOSE {
        lemma_still_board(c, x, q, e);
    }
    if is_document(t, bytes("kicad_pcb"@)) {
        lemma_others_stated(c, x, q, e, j);
    }
}

} // verus!
