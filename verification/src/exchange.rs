//! What is read back after an item of a board was rewritten.

use crate::chars::blank;
use crate::copper::modified_trace;
use crate::edit::{edits_fit, law_one_edit, Splice};
use crate::grammar::{between, is_plain, is_word};
use crate::items::{item_at, item_named, item_uuid, items_at, top_level_items, uuid_index, Item};
use crate::moving::{lemma_item_closes, lemma_items_apart};
use crate::net::net_on_board;
use crate::placing::{is_tag, lemma_kicad_pcb, lemma_no_starts, lemma_root, lemma_skip_blank_is, starts_item};
use crate::routing::Line;
use crate::scan::{
    block_end, closes_at, is_document, lemma_block_end, lemma_lex_over_block, lex, skip_blank, tag_opens,
    top_level_starts, OPEN,
};
use crate::sexp::{parse_text, ParseError, Sexp};
use crate::substitution::{
    clear, lemma_same_range, lemma_swap_bytes, lemma_swap_closes, lemma_swap_lex, lemma_swap_tag, moved,
    moved_starts, swap, swaps,
};
use crate::text::bytes;
use crate::undo::{lemma_segment_reads, lemma_segment_tag, lemma_segment_uuid, segment_node};
use vstd::prelude::*;

verus! {

// ─── The items of a board after one was exchanged ────────────────────────────

/// Exchanging a top-level item for one with the same tag leaves the top-level items
/// where they are, moved along.
pub proof fn lemma_item_starts(c: Seq<char>, a: int, b: int, w: Seq<char>, tag: Seq<char>, n: int)
    requires
        swaps(bytes(c), a, b, bytes(w)),
        is_tag(tag),
        between(lex(bytes(c), 0, a)),
        lex(bytes(c), 0, a).depth == 1,
        tag_opens(bytes(c), a, bytes(tag)) == tag_opens(
            swap(bytes(c), a, b, bytes(w)),
            a,
            bytes(tag),
        ),
        0 <= n <= bytes(c).len(),
        clear(n, a, b),
    ensures
        top_level_starts(
            swap(bytes(c), a, b, bytes(w)),
            bytes(tag),
            moved(n, a, b, bytes(w).len() as int),
        ) == moved_starts(
            top_level_starts(bytes(c), bytes(tag), n),
            a,
            b,
            bytes(w).len() as int,
        ),
        forall|i: int|
            0 <= i < top_level_starts(bytes(c), bytes(tag), n).len() ==> {
                let q = #[trigger] top_level_starts(bytes(c), bytes(tag), n)[i];
                0 <= q < n && (q <= a || b <= q)
            },
    decreases n,
{
    let s = bytes(c);
    let wb = bytes(w);
    let t = swap(s, a, b, wb);
    let m = wb.len() as int;
    let d = a + m - b;
    let g = bytes(tag);
    lemma_swap_bytes(s, a, b, wb);
    if n <= 0 {
        assert(top_level_starts(t, g, n) =~= moved_starts(top_level_starts(s, g, n), a, b, m));
    } else if n == b {
        lemma_item_starts(c, a, b, w, tag, a);
        lemma_lex_over_block(s, 0, a, b);
        lemma_swap_lex(s, a, b, wb, 0, a);
        lemma_lex_over_block(t, 0, a, a + m);
        assert forall|q: int| a + 1 <= q < b implies !#[trigger] starts_item(s, g, q) by {
            assert(lex(s, 0, q).depth > lex(s, 0, a).depth);
        }
        assert forall|q: int| a + 1 <= q < a + m implies !#[trigger] starts_item(t, g, q) by {
            assert(lex(t, 0, q).depth > lex(t, 0, a).depth);
        }
        lemma_no_starts(s, g, a + 1, b);
        lemma_no_starts(t, g, a + 1, a + m);
        assert(starts_item(s, g, a) == starts_item(t, g, a));
        let before = top_level_starts(s, g, a);
        assert(moved_starts(before.push(a), a, b, m) =~= moved_starts(before, a, b, m).push(a));
        let all = top_level_starts(s, g, n);
        assert forall|i: int| 0 <= i < all.len() implies ({
            let x = #[trigger] all[i];
            0 <= x < n && (x <= a || b <= x)
        }) by {
            if i < before.len() {
                assert(all[i] == before[i]);
            }
        }
    } else {
        lemma_item_starts(c, a, b, w, tag, n - 1);
        let q = n - 1;
        let mq = moved(q, a, b, m);
        lemma_swap_lex(s, a, b, wb, 0, q);
        assert(t[mq] == s[q]) by {
            if q >= b {
                assert(s[q] == t[q + d]);
            }
        }
        if s[q] == OPEN {
            lemma_swap_tag(c, a, b, w, q, tag);
        }
        assert(starts_item(s, g, q) == starts_item(t, g, mq));
        let before = top_level_starts(s, g, n - 1);
        assert(moved(n, a, b, m) == mq + 1);
        assert(moved_starts(before.push(q), a, b, m) =~= moved_starts(before, a, b, m).push(mq));
        let all = top_level_starts(s, g, n);
        assert forall|i: int| 0 <= i < all.len() implies ({
            let x = #[trigger] all[i];
            0 <= x < n && (x <= a || b <= x)
        }) by {
            if i < before.len() {
                assert(all[i] == before[i]);
            }
        }
    }
}

/// An item after the exchange of the item at `a..b` for one of `n` bytes that says
/// `node`.
pub open spec fn exchanged_item(i: Item, a: int, b: int, n: int, node: Sexp) -> Item {
    if i.start == a {
        Item { start: a, end: a + n, node }
    } else {
        Item { start: moved(i.start, a, b, n), end: moved(i.end, a, b, n), node: i.node }
    }
}

/// Items after the exchange of one of them.
pub open spec fn exchanged_items(items: Seq<Item>, a: int, b: int, n: int, node: Sexp) -> Seq<Item> {
    Seq::new(items.len(), |i: int| exchanged_item(items[i], a, b, n, node))
}

/// An item at another place says what it said.
proof fn lemma_other_item(s: Seq<u8>, a: int, b: int, w: Seq<u8>, root: Seq<u8>, tag: Seq<u8>, q: int)
    requires
        swaps(s, a, b, w),
        is_document(s, root),
        starts_item(s, tag, a),
        starts_item(s, tag, q),
        q < a || b <= q,
    ensures
        match item_at(s, q) {
            Some(i) => i.start == q && item_at(swap(s, a, b, w), moved(q, a, b, w.len() as int)) == Some(
                Item {
                    start: moved(q, a, b, w.len() as int),
                    end: moved(i.end, a, b, w.len() as int),
                    node: i.node,
                },
            ),
            None => item_at(swap(s, a, b, w), moved(q, a, b, w.len() as int)).is_none(),
        },
{
    let t = swap(s, a, b, w);
    let n = w.len() as int;
    lemma_item_closes(s, root, tag, q);
    lemma_item_closes(s, root, tag, a);
    let f = block_end(s, q).unwrap();
    if q < a {
        lemma_items_apart(s, q, f, a);
    }
    let mq = moved(q, a, b, n);
    let mf = moved(f, a, b, n);
    assert(closes_at(t, mq, mf)) by {
        lemma_swap_closes(s, a, b, w, q, f);
    }
    assert(s.subrange(q, f) == t.subrange(mq, mf)) by {
        lemma_swap_bytes(s, a, b, w);
        if q < a {
            lemma_same_range(s, t, q, f, 0);
        } else {
            lemma_same_range(s, t, q, f, a + n - b);
        }
    }
    lemma_block_end(t, mq, mf);
}

/// The items at the first of the openings, after the exchange.
proof fn lemma_items_exchanged(
    s: Seq<u8>,
    a: int,
    b: int,
    w: Seq<u8>,
    root: Seq<u8>,
    tag: Seq<u8>,
    node: Sexp,
    starts: Seq<int>,
    k: int,
)
    requires
        swaps(s, a, b, w),
        is_document(s, root),
        starts_item(s, tag, a),
        parse_text(w) == Ok::<Sexp, ParseError>(node),
        item_at(s, a).is_some(),
        0 <= k <= starts.len(),
        forall|i: int|
            0 <= i < starts.len() ==> starts_item(s, tag, #[trigger] starts[i]) && (starts[i] <= a || b
                <= starts[i]),
    ensures
        items_at(swap(s, a, b, w), moved_starts(starts, a, b, w.len() as int), k) == exchanged_items(
            items_at(s, starts, k),
            a,
            b,
            w.len() as int,
            node,
        ),
    decreases k,
{
    let t = swap(s, a, b, w);
    let n = w.len() as int;
    let to = moved_starts(starts, a, b, n);
    if k <= 0 {
        assert(items_at(t, to, k) =~= exchanged_items(items_at(s, starts, k), a, b, n, node));
    } else {
        lemma_items_exchanged(s, a, b, w, root, tag, node, starts, k - 1);
        let q = starts[k - 1];
        assert(starts_item(s, tag, q));
        let before = items_at(s, starts, k - 1);
        assert(to[k - 1] == moved(q, a, b, n));
        if q == a {
            lemma_swap_bytes(s, a, b, w);
            lemma_block_end(t, a, a + n);
            assert(t.subrange(a, a + n) =~= w);
            assert(item_at(t, a) == Some(Item { start: a, end: a + n, node }));
            let i = item_at(s, a).unwrap();
            assert(exchanged_items(before.push(i), a, b, n, node) =~= exchanged_items(
                before,
                a,
                b,
                n,
                node,
            ).push(Item { start: a, end: a + n, node }));
        } else {
            lemma_other_item(s, a, b, w, root, tag, q);
            match item_at(s, q) {
                Some(i) => {
                    let j = Item { start: moved(q, a, b, n), end: moved(i.end, a, b, n), node: i.node };
                    assert(exchanged_items(before.push(i), a, b, n, node) =~= exchanged_items(
                        before,
                        a,
                        b,
                        n,
                        node,
                    ).push(j));
                },
                None => {},
            }
        }
    }
}

/// Exchanging one top-level item for another with its tag exchanges it in the list
/// of the items with that tag, and no other.
pub proof fn lemma_exchange(
    c: Seq<char>,
    a: int,
    b: int,
    w: Seq<char>,
    root: Seq<char>,
    tag: Seq<char>,
    node: Sexp,
)
    requires
        swaps(bytes(c), a, b, bytes(w)),
        is_document(bytes(c), bytes(root)),
        is_tag(tag),
        starts_item(bytes(c), bytes(tag), a),
        item_at(bytes(c), a).is_some(),
        tag_opens(swap(bytes(c), a, b, bytes(w)), a, bytes(tag)),
        parse_text(bytes(w)) == Ok::<Sexp, ParseError>(node),
    ensures
        top_level_items(swap(bytes(c), a, b, bytes(w)), tag) == exchanged_items(
            top_level_items(bytes(c), tag),
            a,
            b,
            bytes(w).len() as int,
            node,
        ),
{
    let s = bytes(c);
    let wb = bytes(w);
    let t = swap(s, a, b, wb);
    let g = bytes(tag);
    let n = wb.len() as int;
    lemma_item_closes(s, bytes(root), g, a);
    lemma_swap_bytes(s, a, b, wb);
    lemma_item_starts(c, a, b, w, tag, s.len() as int);
    let starts = top_level_starts(s, g, s.len() as int);
    crate::scan::law_top_level_starts(s, g, s.len() as int);
    assert forall|i: int| 0 <= i < starts.len() implies starts_item(s, g, #[trigger] starts[i]) && (
    starts[i] <= a || b <= starts[i]) by {
        assert(starts.contains(starts[i]));
    }
    lemma_items_exchanged(s, a, b, wb, bytes(root), g, node, starts, starts.len() as int);
    assert(t.len() == moved(s.len() as int, a, b, n));
}

/// The board is still one document.
pub proof fn lemma_exchange_document(c: Seq<char>, a: int, b: int, w: Seq<char>, root: Seq<char>, tag: Seq<u8>)
    requires
        swaps(bytes(c), a, b, bytes(w)),
        is_document(bytes(c), bytes(root)),
        is_tag(root),
        starts_item(bytes(c), tag, a),
    ensures
        is_document(swap(bytes(c), a, b, bytes(w)), bytes(root)),
{
    let s = bytes(c);
    let wb = bytes(w);
    let n = wb.len() as int;
    let t = swap(s, a, b, wb);
    let r = skip_blank(s, 0);
    let e = block_end(s, r).unwrap();
    lemma_root(s, bytes(root));
    lemma_item_closes(s, bytes(root), tag, a);
    lemma_swap_bytes(s, a, b, wb);
    assert(lex(s, 0, a) == lex(s, r, a));
    assert forall|k: int| 0 <= k < r implies blank(#[trigger] t[k]) by {
        assert(blank(s[k]));
    }
    assert(t[r] == s[r]);
    lemma_skip_blank_is(t, 0, r);
    lemma_swap_tag(c, a, b, w, r, root);
    lemma_swap_closes(s, a, b, wb, r, e);
    let f = moved(e, a, b, n);
    lemma_block_end(t, r, f);
    assert forall|k: int| f <= k < t.len() implies blank(#[trigger] t[k]) by {
        assert(blank(s[k - (a + n - b)]));
    }
    lemma_skip_blank_is(t, f, t.len() as int);
}

/// An item keeps its place in the list where its uuid stays.
proof fn lemma_same_index(
    items: Seq<Item>,
    a: int,
    b: int,
    n: int,
    node: Sexp,
    uuid: Seq<char>,
    k: int,
)
    requires
        0 <= k,
        forall|i: int|
            0 <= i < items.len() && (#[trigger] items[i]).start == a ==> item_uuid(items[i]) == item_uuid(
                Item { start: a, end: a + n, node },
            ),
    ensures
        uuid_index(exchanged_items(items, a, b, n, node), uuid, k) == uuid_index(items, uuid, k),
    decreases items.len() - k,
{
    if k < items.len() {
        let after = exchanged_items(items, a, b, n, node);
        assert(after[k] == exchanged_item(items[k], a, b, n, node));
        assert(item_uuid(after[k]) == item_uuid(items[k]));
        lemma_same_index(items, a, b, n, node, uuid, k + 1);
    }
}

/// A listed item stands where a block of its tag opens.
proof fn lemma_listed(s: Seq<u8>, tag: Seq<u8>, starts: Seq<int>, k: int, i: int)
    requires
        0 <= k <= starts.len(),
        0 <= i < items_at(s, starts, k).len(),
        forall|j: int| 0 <= j < starts.len() ==> starts_item(s, tag, #[trigger] starts[j]),
    ensures
        starts_item(s, tag, items_at(s, starts, k)[i].start),
        item_at(s, items_at(s, starts, k)[i].start) == Some(items_at(s, starts, k)[i]),
    decreases k,
{
    if k > 0 {
        assert(starts_item(s, tag, starts[k - 1]));
        if i < items_at(s, starts, k - 1).len() {
            lemma_listed(s, tag, starts, k - 1, i);
        }
    }
}

proof fn lemma_index_in(items: Seq<Item>, uuid: Seq<char>, k: int)
    requires
        0 <= k,
    ensures
        match uuid_index(items, uuid, k) {
            Some(i) => k <= i < items.len() && item_uuid(items[i]) == Some(uuid),
            None => true,
        },
    decreases items.len() - k,
{
    if k < items.len() {
        lemma_index_in(items, uuid, k + 1);
    }
}

/// The item that a uuid names stands where a block of its tag opens.
pub proof fn lemma_named_item(s: Seq<u8>, tag: Seq<char>, uuid: Seq<char>)
    requires
        item_named(s, tag, uuid).is_some(),
    ensures
        ({
            let i = item_named(s, tag, uuid).unwrap();
            &&& starts_item(s, bytes(tag), i.start)
            &&& item_at(s, i.start) == Some(i)
            &&& item_uuid(i) == Some(uuid)
            &&& closes_at(s, i.start, i.end)
        }),
{
    let g = bytes(tag);
    let starts = top_level_starts(s, g, s.len() as int);
    let items = top_level_items(s, tag);
    let k = uuid_index(items, uuid, 0).unwrap();
    lemma_index_in(items, uuid, 0);
    crate::scan::law_top_level_starts(s, g, s.len() as int);
    assert forall|j: int| 0 <= j < starts.len() implies starts_item(s, g, #[trigger] starts[j]) by {
        assert(starts.contains(starts[j]));
    }
    lemma_listed(s, g, starts, starts.len() as int, k);
    crate::items::law_items_are_blocks(s, starts, starts.len() as int);
}

/// An item that is exchanged for one with its tag and its uuid is found by the uuid,
/// and says what the new one says.
pub proof fn lemma_exchanged_is_found(
    c: Seq<char>,
    w: Seq<char>,
    root: Seq<char>,
    tag: Seq<char>,
    uuid: Seq<char>,
    node: Sexp,
)
    requires
        is_document(bytes(c), bytes(root)),
        is_tag(tag),
        item_named(bytes(c), tag, uuid).is_some(),
        closes_at(bytes(w), 0, bytes(w).len() as int),
        parse_text(bytes(w)) == Ok::<Sexp, ParseError>(node),
        item_uuid(Item { start: 0, end: 0, node }) == Some(uuid),
        ({
            let i = item_named(bytes(c), tag, uuid).unwrap();
            tag_opens(swap(bytes(c), i.start, i.end, bytes(w)), i.start, bytes(tag))
        }),
    ensures
        ({
            let i = item_named(bytes(c), tag, uuid).unwrap();
            item_named(swap(bytes(c), i.start, i.end, bytes(w)), tag, uuid) == Some(
                Item { start: i.start, end: i.start + bytes(w).len(), node },
            )
        }),
{
    let s = bytes(c);
    let i = item_named(s, tag, uuid).unwrap();
    let a = i.start;
    let b = i.end;
    let n = bytes(w).len() as int;
    lemma_named_item(s, tag, uuid);
    lemma_exchange(c, a, b, w, root, tag, node);
    let items = top_level_items(s, tag);
    let k = uuid_index(items, uuid, 0).unwrap();
    lemma_index_in(items, uuid, 0);
    let g = bytes(tag);
    let starts = top_level_starts(s, g, s.len() as int);
    crate::scan::law_top_level_starts(s, g, s.len() as int);
    assert forall|j: int| 0 <= j < starts.len() implies starts_item(s, g, #[trigger] starts[j]) by {
        assert(starts.contains(starts[j]));
    }
    assert forall|j: int| 0 <= j < items.len() && (#[trigger] items[j]).start == a implies item_uuid(
        items[j],
    ) == item_uuid(Item { start: a, end: a + n, node }) by {
        lemma_listed(s, g, starts, starts.len() as int, j);
    }
    lemma_same_index(items, a, b, n, node, uuid, 0);
    let after = exchanged_items(items, a, b, n, node);
    assert(after[k] == exchanged_item(items[k], a, b, n, node));
}

// ─── A track that is rewritten ───────────────────────────────────────────────

/// A track that was rewritten is found under the uuid that it had, and says what
/// was asked for.
///
/// The numbers must be words, and the names must need no escapes.
#[verifier::rlimit(40)]
pub proof fn law_modified_trace_reads_back(
    c: Seq<char>,
    uuid: Seq<char>,
    name: Seq<char>,
    layer: Seq<char>,
    width: Seq<char>,
    l: Line,
    board: Seq<char>,
)
    requires
        is_document(bytes(c), bytes("kicad_pcb"@)),
        item_named(bytes(c), "segment"@, uuid).is_some(),
        net_on_board(bytes(c), name).is_some(),
        is_plain(name),
        is_plain(layer),
        is_plain(uuid),
        is_word(width),
        is_word(l.x1),
        is_word(l.y1),
        is_word(l.x2),
        is_word(l.y2),
    ensures
        modified_trace(bytes(c), uuid, name, layer, width, l, board) is Ok,
        ({
            let (n, t) = modified_trace(bytes(c), uuid, name, layer, width, l, board)->Ok_0;
            &&& item_named(t, "segment"@, uuid).is_some()
            &&& item_named(t, "segment"@, uuid).unwrap().node == segment_node(
                n,
                layer,
                width,
                l,
                uuid,
            )
        }),
{
    let s = bytes(c);
    let n = net_on_board(s, name).unwrap();
    let i = item_named(s, "segment"@, uuid).unwrap();
    crate::net::law_resolved_name(s, name);
    lemma_segment_reads(n, layer, width, l, uuid);
    lemma_segment_uuid(n, layer, width, l, uuid);
    lemma_segment_tag(n, layer, width, l, uuid);
    lemma_named_item(s, "segment"@, uuid);
    let w = crate::routing::segment_text(n, layer, width, l, uuid);
    let e = Splice { start: i.start, end: i.end, bytes: bytes(w) };
    law_one_edit(s, e);
    crate::scan::lemma_block_cuttable(c, i.start, i.end);
    assert(edits_fit(s, seq![e]));
    lemma_kicad_pcb();
    lemma_exchange_document(c, i.start, i.end, w, "kicad_pcb"@, bytes("segment"@));
    let t = swap(s, i.start, i.end, bytes(w));
    crate::substitution::lemma_swap_text(c, i.start, i.end, w);
    lemma_swap_bytes(s, i.start, i.end, bytes(w));
    let d = crate::text::text_of(t);
    assert(t.subrange(i.start, i.start + bytes(w).len()) =~= bytes(w));
    crate::placing::lemma_block_tag(w, d, i.start, "segment"@);
    lemma_exchanged_is_found(
        c,
        w,
        "kicad_pcb"@,
        "segment"@,
        uuid,
        segment_node(n, layer, width, l, uuid),
    );
}

} // verus!
