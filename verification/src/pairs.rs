//! Two tracks put on a board at once, and taken off again one after the other.

use crate::board_file::root_close;
use crate::copper::deleted_trace;
use crate::edit::{edits_fit, law_one_edit, Splice};
use crate::grammar::{is_plain, is_word};
use crate::items::{item_named, item_uuid, top_level_items, uuid_index, Item};
use crate::net::{net_on_board, Net};
use crate::placing::{
    law_item_put_and_taken, lemma_item_put, lemma_items_after, lemma_kicad_pcb, lemma_lex_through,
    lemma_put_in_text, lemma_root, put_in,
};
use crate::routing::{
    bend, legs_text, routed_pads, routed_pair, segment_text, top_level_segment_text, with_item, Line,
};
use crate::scan::{is_document, lemma_block_end, skip_blank};
use crate::sexp::Sexp;
use crate::text::{bytes, lemma_ascii_boundary, lemma_bytes_concat, text_of};
use crate::undo::{
    lemma_leads, lemma_segment_reads, lemma_segment_tag, lemma_segment_uuid, segment_node,
};
use vstd::prelude::*;

verus! {

/// The numbers of a line are words.
pub open spec fn is_plain_line(l: Line) -> bool {
    is_word(l.x1) && is_word(l.y1) && is_word(l.x2) && is_word(l.y2)
}

/// A uuid that an item more does not have names what it named.
proof fn lemma_pushed_other(items: Seq<Item>, x: Item, uuid: Seq<char>, k: int)
    requires
        0 <= k,
        item_uuid(x) != Some(uuid),
    ensures
        uuid_index(items.push(x), uuid, k) == uuid_index(items, uuid, k),
        uuid_index(items, uuid, k) matches Some(i) ==> 0 <= i < items.len(),
    decreases items.len() - k,
{
    if k < items.len() {
        assert(items.push(x)[k] == items[k]);
        lemma_pushed_other(items, x, uuid, k + 1);
    } else if k == items.len() {
        assert(items.push(x)[k] == x);
        assert(uuid_index(items.push(x), uuid, k + 1).is_none());
    }
}

/// The board with a track on it, as a text, with what is known of it.
proof fn lemma_one_track(
    c: Seq<char>,
    n: Net,
    layer: Seq<char>,
    width: Seq<char>,
    l: Line,
    uuid: Seq<char>,
    board: Seq<char>,
) -> (d: Seq<char>)
    requires
        is_document(bytes(c), bytes("kicad_pcb"@)),
        is_plain(n.name()),
        is_plain(layer),
        is_plain(uuid),
        is_word(width),
        is_plain_line(l),
        item_named(bytes(c), "segment"@, uuid).is_none(),
    ensures
        ({
            let s = bytes(c);
            let ins = bytes(top_level_segment_text(n, layer, width, l, uuid));
            let node = segment_node(n, layer, width, l, uuid);
            let p = root_close(s).unwrap();
            &&& root_close(s).is_some()
            &&& 0 <= p <= s.len()
            &&& bytes(d) == put_in(s, p, ins)
            &&& is_document(bytes(d), bytes("kicad_pcb"@))
            &&& root_close(bytes(d)) == Some(p + ins.len())
            &&& exists|x: Item|
                #![trigger item_uuid(x)]
                top_level_items(bytes(d), "segment"@) == top_level_items(s, "segment"@).push(x)
                    && item_uuid(x) == Some(uuid) && x.node == node
            &&& item_named(bytes(d), "segment"@, uuid).is_some()
            &&& item_named(bytes(d), "segment"@, uuid).unwrap().node == node
            &&& with_item(s, top_level_segment_text(n, layer, width, l, uuid), board) == Ok::<
                Seq<u8>,
                Seq<char>,
            >(bytes(d))
            &&& deleted_trace(bytes(d), uuid, board) == Ok::<Seq<u8>, Seq<char>>(s)
        }),
{
    let s = bytes(c);
    let block = segment_text(n, layer, width, l, uuid);
    let node = segment_node(n, layer, width, l, uuid);
    let lead = "\n\t"@;
    lemma_kicad_pcb();
    lemma_leads();
    lemma_segment_reads(n, layer, width, l, uuid);
    lemma_segment_uuid(n, layer, width, l, uuid);
    lemma_segment_tag(n, layer, width, l, uuid);
    law_item_put_and_taken(c, "segment"@, lead, block, node, uuid, "trace "@ + uuid, board);
    lemma_item_put(c, "kicad_pcb"@, lead, block);
    lemma_items_after(c, "kicad_pcb"@, "segment"@, lead, block, node);
    lemma_root(s, bytes("kicad_pcb"@));
    lemma_lex_through(s, bytes("kicad_pcb"@), bytes(lead), bytes(block));
    let p = root_close(s).unwrap();
    lemma_ascii_boundary(c, p);
    lemma_put_in_text(c, p, lead + block);
    let d = text_of(s.subrange(0, p)) + (lead + block) + text_of(s.subrange(p, s.len() as int));
    let t = bytes(d);
    let ins = bytes(lead) + bytes(block);
    assert(edits_fit(s, seq![Splice { start: p, end: p, bytes: bytes(lead + block) }]));
    // The root closes behind the track.
    let root = skip_blank(s, 0);
    lemma_root(t, bytes("kicad_pcb"@));
    assert(t[root] == s[root]);
    assert(skip_blank(t, 0) == root) by {
        assert forall|k: int| 0 <= k < root implies crate::chars::blank(#[trigger] t[k]) by {
            assert(t[k] == s[k]);
        }
        crate::placing::lemma_skip_blank_is(t, 0, root);
    }
    lemma_block_end(t, root, p + ins.len() + 1);
    let a = p + bytes(lead).len();
    let x = Item { start: a, end: a + bytes(block).len(), node };
    assert(item_uuid(x) == Some(uuid));
    d
}

/// Two texts put before the close of the root at once are the one put after the
/// other.
#[verifier::rlimit(40)]
proof fn lemma_at_once(c: Seq<char>, t1: Seq<char>, t2: Seq<char>, f: Seq<u8>, board: Seq<char>)
    requires
        is_document(bytes(c), bytes("kicad_pcb"@)),
        root_close(bytes(c)).is_some(),
        ({
            let p = root_close(bytes(c)).unwrap();
            f == put_in(put_in(bytes(c), p, bytes(t1)), p + bytes(t1).len(), bytes(t2))
        }),
        is_document(f, bytes("kicad_pcb"@)),
    ensures
        with_item(bytes(c), t1 + t2, board) == Ok::<Seq<u8>, Seq<char>>(f),
{
    let s = bytes(c);
    let p = root_close(s).unwrap();
    let b1 = bytes(t1);
    let b2 = bytes(t2);
    lemma_bytes_concat(t1, t2);
    lemma_root(s, bytes("kicad_pcb"@));
    lemma_ascii_boundary(c, p);
    let e = Splice { start: p, end: p, bytes: bytes(t1 + t2) };
    law_one_edit(s, e);
    assert(put_in(put_in(s, p, b1), p + b1.len(), b2) =~= put_in(s, p, b1 + b2));
    assert(edits_fit(s, seq![e]));
}

/// What a uuid names stays named when another item is added.
proof fn lemma_still_named(s: Seq<u8>, t: Seq<u8>, y: Item, uuid: Seq<char>)
    requires
        top_level_items(t, "segment"@) == top_level_items(s, "segment"@).push(y),
        item_uuid(y) != Some(uuid),
    ensures
        item_named(t, "segment"@, uuid) == item_named(s, "segment"@, uuid),
{
    let items = top_level_items(s, "segment"@);
    lemma_pushed_other(items, y, uuid, 0);
    if let Some(k) = uuid_index(items, uuid, 0) {
        assert(items.push(y)[k] == items[k]);
    }
}

/// Two tracks put on a board at once are the one put on after the other; both are
/// found, and taking them off again in turn restores the file byte for byte.
proof fn lemma_two_tracks(
    c: Seq<char>,
    n1: Net,
    n2: Net,
    layer: Seq<char>,
    width: Seq<char>,
    l1: Line,
    l2: Line,
    u1: Seq<char>,
    u2: Seq<char>,
    board: Seq<char>,
)
    requires
        is_document(bytes(c), bytes("kicad_pcb"@)),
        is_plain(n1.name()),
        is_plain(n2.name()),
        is_plain(layer),
        is_word(width),
        is_plain_line(l1),
        is_plain_line(l2),
        is_plain(u1),
        is_plain(u2),
        u1 != u2,
        item_named(bytes(c), "segment"@, u1).is_none(),
        item_named(bytes(c), "segment"@, u2).is_none(),
    ensures
        ({
            let both = top_level_segment_text(n1, layer, width, l1, u1) + top_level_segment_text(
                n2,
                layer,
                width,
                l2,
                u2,
            );
            let r = with_item(bytes(c), both, board);
            &&& r is Ok
            &&& both_and_back(
                bytes(c),
                r->Ok_0,
                u1,
                segment_node(n1, layer, width, l1, u1),
                u2,
                segment_node(n2, layer, width, l2, u2),
                board,
            )
        }),
{
    let s = bytes(c);
    let t1 = top_level_segment_text(n1, layer, width, l1, u1);
    let t2 = top_level_segment_text(n2, layer, width, l2, u2);
    let d = lemma_one_track(c, n1, layer, width, l1, u1, board);
    let x = choose|x: Item|
        #![trigger item_uuid(x)]
        top_level_items(bytes(d), "segment"@) == top_level_items(s, "segment"@).push(x) && item_uuid(x)
            == Some(u1) && x.node == segment_node(n1, layer, width, l1, u1);
    lemma_still_named(s, bytes(d), x, u2);
    let f = lemma_one_track(d, n2, layer, width, l2, u2, board);
    let y = choose|y: Item|
        #![trigger item_uuid(y)]
        top_level_items(bytes(f), "segment"@) == top_level_items(bytes(d), "segment"@).push(y)
            && item_uuid(y) == Some(u2) && y.node == segment_node(n2, layer, width, l2, u2);
    lemma_still_named(bytes(d), bytes(f), y, u1);
    lemma_at_once(c, t1, t2, bytes(f), board);
}

/// Two tracks are on the new board, and taking them off again gives the old one.
pub open spec fn both_and_back(
    s: Seq<u8>,
    t: Seq<u8>,
    u1: Seq<char>,
    node1: Sexp,
    u2: Seq<char>,
    node2: Sexp,
    board: Seq<char>,
) -> bool {
    &&& item_named(t, "segment"@, u1).is_some()
    &&& item_named(t, "segment"@, u1).unwrap().node == node1
    &&& item_named(t, "segment"@, u2).is_some()
    &&& item_named(t, "segment"@, u2).unwrap().node == node2
    &&& deleted_trace(t, u2, board) is Ok
    &&& deleted_trace(deleted_trace(t, u2, board)->Ok_0, u1, board) == Ok::<Seq<u8>, Seq<char>>(s)
}

/// Both tracks of a differential pair are found by their uuids, each on its own net,
/// and deleting them again leaves the board's file as it was, byte for byte.
///
/// The numbers must be words, the names must need no escapes, and the uuids must be
/// new to the board's tracks and differ.
pub proof fn law_pair_then_delete(
    c: Seq<char>,
    pos: Seq<char>,
    neg: Seq<char>,
    layer: Seq<char>,
    width: Seq<char>,
    lp: Line,
    ln: Line,
    up: Seq<char>,
    un: Seq<char>,
    board: Seq<char>,
)
    requires
        is_document(bytes(c), bytes("kicad_pcb"@)),
        net_on_board(bytes(c), pos).is_some(),
        net_on_board(bytes(c), neg).is_some(),
        is_plain(pos),
        is_plain(neg),
        is_plain(layer),
        is_word(width),
        is_plain_line(lp),
        is_plain_line(ln),
        is_plain(up),
        is_plain(un),
        up != un,
        item_named(bytes(c), "segment"@, up).is_none(),
        item_named(bytes(c), "segment"@, un).is_none(),
    ensures
        routed_pair(bytes(c), pos, neg, layer, width, lp, ln, up, un, board) is Ok,
        ({
            let (np, nn, t) = routed_pair(bytes(c), pos, neg, layer, width, lp, ln, up, un, board)->Ok_0;
            both_and_back(
                bytes(c),
                t,
                up,
                segment_node(np, layer, width, lp, up),
                un,
                segment_node(nn, layer, width, ln, un),
                board,
            )
        }),
{
    let s = bytes(c);
    crate::net::law_resolved_name(s, pos);
    crate::net::law_resolved_name(s, neg);
    lemma_two_tracks(
        c,
        net_on_board(s, pos).unwrap(),
        net_on_board(s, neg).unwrap(),
        layer,
        width,
        lp,
        ln,
        up,
        un,
        board,
    );
}

/// A track between two pads that bends once is two tracks on the net of the pads;
/// deleting them again leaves the board's file as it was, byte for byte.
///
/// The numbers must be words, the names must need no escapes, and the uuids must be
/// new to the board's tracks and differ.
#[verifier::rlimit(40)]
pub proof fn law_bent_track_then_delete(
    c: Seq<char>,
    name: Seq<char>,
    ref1: Seq<char>,
    pad1: Seq<char>,
    ref2: Seq<char>,
    pad2: Seq<char>,
    layer: Seq<char>,
    width: Seq<char>,
    l: Line,
    u1: Seq<char>,
    u2: Seq<char>,
    board: Seq<char>,
)
    requires
        is_document(bytes(c), bytes("kicad_pcb"@)),
        crate::routing::pads_agree(bytes(c), name, ref1, pad1, ref2, pad2) is Ok,
        is_plain(crate::routing::pads_agree(bytes(c), name, ref1, pad1, ref2, pad2)->Ok_0),
        net_on_board(
            bytes(c),
            crate::routing::pads_agree(bytes(c), name, ref1, pad1, ref2, pad2)->Ok_0,
        ).is_some(),
        is_plain(layer),
        is_word(width),
        is_plain_line(l),
        is_plain(u1),
        is_plain(u2),
        u1 != u2,
        item_named(bytes(c), "segment"@, u1).is_none(),
        item_named(bytes(c), "segment"@, u2).is_none(),
    ensures
        ({
            let legs = bend(l, false);
            let r = routed_pads(
                bytes(c),
                name,
                ref1,
                pad1,
                ref2,
                pad2,
                layer,
                width,
                legs,
                seq![u1, u2],
                board,
            );
            &&& r is Ok
            &&& both_and_back(
                bytes(c),
                r->Ok_0.1,
                u1,
                segment_node(r->Ok_0.0, layer, width, legs[0], u1),
                u2,
                segment_node(r->Ok_0.0, layer, width, legs[1], u2),
                board,
            )
        }),
{
    let s = bytes(c);
    let on = crate::routing::pads_agree(s, name, ref1, pad1, ref2, pad2)->Ok_0;
    let n = net_on_board(s, on).unwrap();
    crate::net::law_resolved_name(s, on);
    let legs = bend(l, false);
    let us = seq![u1, u2];
    lemma_two_tracks(c, n, n, layer, width, legs[0], legs[1], u1, u2, board);
    reveal_with_fuel(legs_text, 3);
    let a = top_level_segment_text(n, layer, width, legs[0], u1);
    let b = top_level_segment_text(n, layer, width, legs[1], u2);
    assert(legs.len() == 2);
    assert(us[0] == u1 && us[1] == u2);
    assert(legs_text(n, layer, width, legs, us, 2) =~= a + b);
}

} // verus!
