//! What is put on a board can be taken off again, and the file is then what it was,
//! byte for byte.

use crate::chars::{decimal, signed_decimal};
use crate::copper::{
    added_pour, added_via, connect_pads_text, deleted_trace, deleted_via, deleted_zone, points_text,
    polygon_text, via_block, zone_block, NewVia,
};
use crate::edit::is_lead;
use crate::fields::{
    is_blank_text, is_block_of, lemma_listing_block, lemma_pair_field, lemma_tag_is_word,
    lemma_text_field, lemma_texts_field, lemma_word_field, pair_field, text_field, texts_field,
    word_field,
};
use crate::grammar::{
    is_plain, is_word, lemma_listing_blank, lemma_listing_closes, lemma_listing_node,
    lemma_listing_opens, listing,
};
use crate::items::item_named;
use crate::net::{net_on_board, Net};
use crate::placing::{is_tag, law_item_put_and_taken, lemma_ascii_char};
use crate::routing::{routed_trace, segment_text, Line};
use crate::scan::{closes_at, is_document, tag_opens};
use crate::sexp::{child_text, items_in, parse_text, tag_in, tagged_at, ParseError, Sexp};
use crate::text::{bytes, lemma_bytes_ascii, lemma_bytes_concat};
use vstd::prelude::*;
use vstd::utf8::*;

verus! {

// ─── Words ───────────────────────────────────────────────────────────────────

proof fn lemma_decimal_chars(n: nat)
    ensures
        decimal(n).len() > 0,
        forall|k: int| 0 <= k < decimal(n).len() ==> '0' <= #[trigger] decimal(n)[k] <= '9',
    decreases n,
{
    if n >= 10 {
        lemma_decimal_chars(n / 10);
    }
}

/// A number in decimal is a word.
pub proof fn lemma_decimal_is_word(n: int)
    ensures
        is_word(signed_decimal(n)),
{
    let t = signed_decimal(n);
    if n < 0 {
        lemma_decimal_chars((-n) as nat);
    } else {
        lemma_decimal_chars(n as nat);
    }
    assert forall|k: int| 0 <= k < t.len() implies '\0' <= #[trigger] t[k] <= '\u{7f}' && (t[k] == '-'
        || '0' <= t[k] <= '9') by {}
    assert(is_ascii_chars(t));
    lemma_bytes_ascii(t);
    assert forall|k: int| 0 <= k < bytes(t).len() implies !crate::sexp::ends_atom(
        #[trigger] bytes(t)[k],
    ) by {
        crate::grammar::lemma_char_bytes(t[k]);
        assert(bytes(t)[k] == t[k] as u8);
    }
}

// ─── Nets in trees ───────────────────────────────────────────────────────────

/// The net field of a track or via, as a tree.
pub open spec fn net_node(net: Net) -> Sexp {
    match net {
        Net::Named(n) => Sexp::List(seq![Sexp::Atom("net"@), Sexp::Str(n)]),
        Net::Numbered(id, _) => Sexp::List(
            seq![Sexp::Atom("net"@), Sexp::Atom(signed_decimal(id))],
        ),
    }
}

pub proof fn lemma_net_field(net: Net)
    requires
        is_plain(net.name()),
    ensures
        is_block_of(net.track_field(), net_node(net)),
{
    reveal_strlit("net");
    lemma_tag_is_word("net"@);
    match net {
        Net::Named(n) => lemma_text_field("net"@, n),
        Net::Numbered(id, n) => {
            lemma_decimal_is_word(id);
            lemma_word_field("net"@, signed_decimal(id));
        },
    }
}

// ─── Tracks ──────────────────────────────────────────────────────────────────

/// A track as a tree.
pub open spec fn segment_node(
    net: Net,
    layer: Seq<char>,
    width: Seq<char>,
    l: Line,
    uuid: Seq<char>,
) -> Sexp {
    Sexp::List(
        seq![
            Sexp::Atom("segment"@),
            Sexp::List(seq![Sexp::Atom("start"@), Sexp::Atom(l.x1), Sexp::Atom(l.y1)]),
            Sexp::List(seq![Sexp::Atom("end"@), Sexp::Atom(l.x2), Sexp::Atom(l.y2)]),
            Sexp::List(seq![Sexp::Atom("width"@), Sexp::Atom(width)]),
            Sexp::List(seq![Sexp::Atom("layer"@), Sexp::Str(layer)]),
            net_node(net),
            Sexp::List(seq![Sexp::Atom("uuid"@), Sexp::Str(uuid)]),
        ],
    )
}

/// The leads of the items' lines.
pub proof fn lemma_leads()
    ensures
        is_blank_text("\n\t\t"@),
        is_blank_text("\n\t"@),
        is_blank_text(" "@),
        is_blank_text("\n    "@),
        is_blank_text("\n      "@),
        is_blank_text("\n  "@),
        is_lead(bytes("\n\t"@)),
        is_lead(bytes("\n  "@)),
{
    reveal_strlit("\n\t\t");
    reveal_strlit("\n\t");
    reveal_strlit(" ");
    reveal_strlit("\n    ");
    reveal_strlit("\n      ");
    reveal_strlit("\n  ");
    lemma_bytes_ascii("\n\t"@);
    lemma_bytes_ascii("\n  "@);
    assert("\n\t"@[0] == '\n' && "\n\t"@[1] == '\t');
    assert("\n  "@[0] == '\n' && "\n  "@[1] == ' ' && "\n  "@[2] == ' ');
}

proof fn lemma_opened(head: Seq<char>, tag: Seq<char>)
    requires
        head == seq!['('] + tag,
        is_word(tag),
    ensures
        listing(head, seq![Sexp::Atom(tag)], false),
{
    lemma_listing_opens(tag);
}

/// The text of a track reads as the track.
pub proof fn lemma_segment_reads(
    net: Net,
    layer: Seq<char>,
    width: Seq<char>,
    l: Line,
    uuid: Seq<char>,
)
    requires
        is_plain(net.name()),
        is_plain(layer),
        is_plain(uuid),
        is_word(width),
        is_word(l.x1),
        is_word(l.y1),
        is_word(l.x2),
        is_word(l.y2),
    ensures
        is_block_of(segment_text(net, layer, width, l, uuid), segment_node(net, layer, width, l, uuid)),
        closes_at(
            bytes(segment_text(net, layer, width, l, uuid)),
            0,
            bytes(segment_text(net, layer, width, l, uuid)).len() as int,
        ),
        parse_text(bytes(segment_text(net, layer, width, l, uuid))) == Ok::<Sexp, ParseError>(
            segment_node(net, layer, width, l, uuid),
        ),
{
    reveal_strlit("segment");
    reveal_strlit("(segment");
    reveal_strlit("start");
    reveal_strlit("end");
    reveal_strlit("width");
    reveal_strlit("layer");
    reveal_strlit("uuid");
    reveal_strlit(")");
    lemma_tag_is_word("segment"@);
    lemma_tag_is_word("start"@);
    lemma_tag_is_word("end"@);
    lemma_tag_is_word("width"@);
    lemma_tag_is_word("layer"@);
    lemma_tag_is_word("uuid"@);
    lemma_leads();
    lemma_pair_field("start"@, l.x1, l.y1);
    lemma_pair_field("end"@, l.x2, l.y2);
    lemma_word_field("width"@, width);
    lemma_text_field("layer"@, layer);
    lemma_text_field("uuid"@, uuid);
    lemma_net_field(net);
    let lead = "\n\t\t"@;
    let a = Sexp::Atom("segment"@);
    let n1 = Sexp::List(seq![Sexp::Atom("start"@), Sexp::Atom(l.x1), Sexp::Atom(l.y1)]);
    let n2 = Sexp::List(seq![Sexp::Atom("end"@), Sexp::Atom(l.x2), Sexp::Atom(l.y2)]);
    let n3 = Sexp::List(seq![Sexp::Atom("width"@), Sexp::Atom(width)]);
    let n4 = Sexp::List(seq![Sexp::Atom("layer"@), Sexp::Str(layer)]);
    let n5 = net_node(net);
    let n6 = Sexp::List(seq![Sexp::Atom("uuid"@), Sexp::Str(uuid)]);
    let t0 = "(segment"@;
    assert(t0 =~= seq!['('] + "segment"@);
    lemma_opened(t0, "segment"@);
    let x0 = seq![a];
    let t1 = t0 + lead + pair_field("start"@, l.x1, l.y1);
    let x1 = x0.push(n1);
    lemma_listing_block(t0, x0, false, lead, pair_field("start"@, l.x1, l.y1), n1);
    let t2 = t1 + lead + pair_field("end"@, l.x2, l.y2);
    let x2 = x1.push(n2);
    lemma_listing_block(t1, x1, true, lead, pair_field("end"@, l.x2, l.y2), n2);
    let t3 = t2 + lead + word_field("width"@, width);
    let x3 = x2.push(n3);
    lemma_listing_block(t2, x2, true, lead, word_field("width"@, width), n3);
    let t4 = t3 + lead + text_field("layer"@, layer);
    let x4 = x3.push(n4);
    lemma_listing_block(t3, x3, true, lead, text_field("layer"@, layer), n4);
    let t5 = t4 + lead + net.track_field();
    let x5 = x4.push(n5);
    lemma_listing_block(t4, x4, true, lead, net.track_field(), n5);
    let t6 = t5 + lead + text_field("uuid"@, uuid);
    let x6 = x5.push(n6);
    lemma_listing_block(t5, x5, true, lead, text_field("uuid"@, uuid), n6);
    lemma_listing_blank(t6, x6, true, "\n\t"@);
    assert(")"@ =~= seq![')']);
    lemma_listing_closes(t6 + "\n\t"@, x6, true);
    assert(x6 =~= seq![a, n1, n2, n3, n4, n5, n6]);
}

pub proof fn lemma_segment_uuid(net: Net, layer: Seq<char>, width: Seq<char>, l: Line, uuid: Seq<char>)
    ensures
        child_text(segment_node(net, layer, width, l, uuid), "uuid"@) == Some(uuid),
{
    reveal_strlit("start");
    reveal_strlit("end");
    reveal_strlit("width");
    reveal_strlit("layer");
    reveal_strlit("net");
    reveal_strlit("uuid");
    let n = segment_node(net, layer, width, l, uuid);
    let items = items_in(n);
    assert("start"@.len() == 5 && "end"@.len() == 3 && "width"@.len() == 5 && "layer"@.len() == 5
        && "net"@.len() == 3 && "uuid"@.len() == 4);
    assert(tag_in(items[0]).is_none());
    assert(tag_in(items[1]) == Some("start"@));
    assert(tag_in(items[2]) == Some("end"@));
    assert(tag_in(items[3]) == Some("width"@));
    assert(tag_in(items[4]) == Some("layer"@));
    assert(tag_in(items[5]) == Some("net"@));
    assert(tag_in(items[6]) == Some("uuid"@));
    reveal_with_fuel(tagged_at, 8);
    assert(tagged_at(items, "uuid"@, 0) == Some(6int));
}

/// A text that begins with a tag and white space has that tag.
pub proof fn lemma_has_tag(t: Seq<char>, tag: Seq<char>, lead: Seq<char>, rest: Seq<char>)
    requires
        t == seq!['('] + tag + lead + rest,
        is_tag(tag),
        is_blank_text(lead),
    ensures
        tag_opens(bytes(t), 0, bytes(tag)),
{
    let h = seq!['('];
    lemma_bytes_concat(h + tag + lead, rest);
    lemma_bytes_concat(h + tag, lead);
    lemma_bytes_concat(h, tag);
    crate::grammar::lemma_char_bytes('(');
    lemma_bytes_ascii(lead);
    lemma_bytes_ascii(tag);
    let s = bytes(t);
    let g = bytes(tag);
    let after: int = 1 + g.len() as int;
    assert(s.subrange(1, after) =~= g);
    assert(s[0] == 40);
    crate::text::lemma_ascii_boundary(t, 0);
    assert(lead[0] == ' ' || lead[0] == '\n' || lead[0] == '\t');
    assert(bytes(lead)[0] == lead[0] as u8);
    assert(s[after] == bytes(lead)[0]);
    lemma_ascii_char(t, after);
}

pub proof fn lemma_segment_tag(net: Net, layer: Seq<char>, width: Seq<char>, l: Line, uuid: Seq<char>)
    ensures
        tag_opens(bytes(segment_text(net, layer, width, l, uuid)), 0, bytes("segment"@)),
        is_tag("segment"@),
{
    reveal_strlit("segment");
    reveal_strlit("(segment");
    lemma_tag_is_word("segment"@);
    lemma_leads();
    let t = segment_text(net, layer, width, l, uuid);
    let h = "(segment"@ + "\n\t\t"@;
    assert("(segment"@ =~= seq!['('] + "segment"@);
    assert(t.len() >= h.len());
    let rest = t.skip(h.len() as int);
    assert(t =~= h + rest);
    lemma_has_tag(t, "segment"@, "\n\t\t"@, rest);
}

/// A track that is routed and then deleted leaves the board's file as it was, byte
/// for byte. Meanwhile it is found by its uuid, and says what was asked for.
///
/// The numbers must be words, the names must need no escapes, and the uuid must be
/// new to the board's tracks.
pub proof fn law_route_then_delete(
    c: Seq<char>,
    name: Seq<char>,
    layer: Seq<char>,
    width: Seq<char>,
    l: Line,
    uuid: Seq<char>,
    board: Seq<char>,
)
    requires
        is_document(bytes(c), bytes("kicad_pcb"@)),
        net_on_board(bytes(c), name).is_some(),
        is_plain(name),
        is_plain(layer),
        is_plain(uuid),
        is_word(width),
        is_word(l.x1),
        is_word(l.y1),
        is_word(l.x2),
        is_word(l.y2),
        item_named(bytes(c), "segment"@, uuid).is_none(),
    ensures
        routed_trace(bytes(c), name, layer, width, l, uuid, board) is Ok,
        ({
            let (n, t) = routed_trace(bytes(c), name, layer, width, l, uuid, board)->Ok_0;
            &&& item_named(t, "segment"@, uuid).is_some()
            &&& item_named(t, "segment"@, uuid).unwrap().node == segment_node(
                n,
                layer,
                width,
                l,
                uuid,
            )
            &&& deleted_trace(t, uuid, board) == Ok::<Seq<u8>, Seq<char>>(bytes(c))
        }),
{
    let s = bytes(c);
    let n = net_on_board(s, name).unwrap();
    crate::net::law_resolved_name(s, name);
    lemma_leads();
    lemma_segment_reads(n, layer, width, l, uuid);
    lemma_segment_uuid(n, layer, width, l, uuid);
    lemma_segment_tag(n, layer, width, l, uuid);
    law_item_put_and_taken(
        c,
        "segment"@,
        "\n\t"@,
        segment_text(n, layer, width, l, uuid),
        segment_node(n, layer, width, l, uuid),
        uuid,
        "trace "@ + uuid,
        board,
    );
}

// ─── Vias ────────────────────────────────────────────────────────────────────

/// A via as a tree.
pub open spec fn via_node(net: Net, v: NewVia, uuid: Seq<char>) -> Sexp {
    Sexp::List(
        seq![
            Sexp::Atom("via"@),
            Sexp::List(seq![Sexp::Atom("at"@), Sexp::Atom(v.x@), Sexp::Atom(v.y@)]),
            Sexp::List(seq![Sexp::Atom("size"@), Sexp::Atom(v.size@)]),
            Sexp::List(seq![Sexp::Atom("drill"@), Sexp::Atom(v.drill@)]),
            Sexp::List(
                seq![Sexp::Atom("layers"@), Sexp::Str(v.start_layer@), Sexp::Str(v.end_layer@)],
            ),
            net_node(net),
            Sexp::List(seq![Sexp::Atom("uuid"@), Sexp::Str(uuid)]),
        ],
    )
}

/// The numbers of a via are words, and its layers need no escapes.
pub open spec fn is_plain_via(v: NewVia) -> bool {
    &&& is_word(v.x@)
    &&& is_word(v.y@)
    &&& is_word(v.size@)
    &&& is_word(v.drill@)
    &&& is_plain(v.start_layer@)
    &&& is_plain(v.end_layer@)
}

/// The text of a via reads as the via.
pub proof fn lemma_via_reads(net: Net, v: NewVia, uuid: Seq<char>)
    requires
        is_plain(net.name()),
        is_plain(uuid),
        is_plain_via(v),
    ensures
        closes_at(bytes(via_block(net, v, uuid)), 0, bytes(via_block(net, v, uuid)).len() as int),
        parse_text(bytes(via_block(net, v, uuid))) == Ok::<Sexp, ParseError>(via_node(net, v, uuid)),
{
    reveal_strlit("via");
    reveal_strlit("(via");
    reveal_strlit("at");
    reveal_strlit("size");
    reveal_strlit("drill");
    reveal_strlit("layers");
    reveal_strlit("uuid");
    reveal_strlit(")");
    lemma_tag_is_word("via"@);
    lemma_tag_is_word("at"@);
    lemma_tag_is_word("size"@);
    lemma_tag_is_word("drill"@);
    lemma_tag_is_word("layers"@);
    lemma_tag_is_word("uuid"@);
    lemma_leads();
    lemma_pair_field("at"@, v.x@, v.y@);
    lemma_word_field("size"@, v.size@);
    lemma_word_field("drill"@, v.drill@);
    lemma_texts_field("layers"@, v.start_layer@, v.end_layer@);
    lemma_text_field("uuid"@, uuid);
    lemma_net_field(net);
    let lead = "\n\t\t"@;
    let a = Sexp::Atom("via"@);
    let n1 = Sexp::List(seq![Sexp::Atom("at"@), Sexp::Atom(v.x@), Sexp::Atom(v.y@)]);
    let n2 = Sexp::List(seq![Sexp::Atom("size"@), Sexp::Atom(v.size@)]);
    let n3 = Sexp::List(seq![Sexp::Atom("drill"@), Sexp::Atom(v.drill@)]);
    let n4 = Sexp::List(
        seq![Sexp::Atom("layers"@), Sexp::Str(v.start_layer@), Sexp::Str(v.end_layer@)],
    );
    let n5 = net_node(net);
    let n6 = Sexp::List(seq![Sexp::Atom("uuid"@), Sexp::Str(uuid)]);
    let t0 = "(via"@;
    assert(t0 =~= seq!['('] + "via"@);
    lemma_opened(t0, "via"@);
    let x0 = seq![a];
    let t1 = t0 + lead + pair_field("at"@, v.x@, v.y@);
    let x1 = x0.push(n1);
    lemma_listing_block(t0, x0, false, lead, pair_field("at"@, v.x@, v.y@), n1);
    let t2 = t1 + lead + word_field("size"@, v.size@);
    let x2 = x1.push(n2);
    lemma_listing_block(t1, x1, true, lead, word_field("size"@, v.size@), n2);
    let t3 = t2 + lead + word_field("drill"@, v.drill@);
    let x3 = x2.push(n3);
    lemma_listing_block(t2, x2, true, lead, word_field("drill"@, v.drill@), n3);
    let t4 = t3 + lead + texts_field("layers"@, v.start_layer@, v.end_layer@);
    let x4 = x3.push(n4);
    lemma_listing_block(
        t3,
        x3,
        true,
        lead,
        texts_field("layers"@, v.start_layer@, v.end_layer@),
        n4,
    );
    let t5 = t4 + lead + net.track_field();
    let x5 = x4.push(n5);
    lemma_listing_block(t4, x4, true, lead, net.track_field(), n5);
    let t6 = t5 + lead + text_field("uuid"@, uuid);
    let x6 = x5.push(n6);
    lemma_listing_block(t5, x5, true, lead, text_field("uuid"@, uuid), n6);
    lemma_listing_blank(t6, x6, true, "\n\t"@);
    assert(")"@ =~= seq![')']);
    lemma_listing_closes(t6 + "\n\t"@, x6, true);
    assert(x6 =~= seq![a, n1, n2, n3, n4, n5, n6]);
}

proof fn lemma_via_uuid(net: Net, v: NewVia, uuid: Seq<char>)
    ensures
        child_text(via_node(net, v, uuid), "uuid"@) == Some(uuid),
{
    reveal_strlit("at");
    reveal_strlit("size");
    reveal_strlit("drill");
    reveal_strlit("layers");
    reveal_strlit("net");
    reveal_strlit("uuid");
    let n = via_node(net, v, uuid);
    let items = items_in(n);
    assert("at"@.len() == 2 && "size"@.len() == 4 && "drill"@.len() == 5 && "layers"@.len() == 6
        && "net"@.len() == 3 && "uuid"@.len() == 4);
    assert("size"@[0] == 's' && "uuid"@[0] == 'u');
    assert(tag_in(items[0]).is_none());
    assert(tag_in(items[1]) == Some("at"@));
    assert(tag_in(items[2]) == Some("size"@));
    assert(tag_in(items[3]) == Some("drill"@));
    assert(tag_in(items[4]) == Some("layers"@));
    assert(tag_in(items[5]) == Some("net"@));
    assert(tag_in(items[6]) == Some("uuid"@));
    reveal_with_fuel(tagged_at, 8);
    assert(tagged_at(items, "uuid"@, 0) == Some(6int));
}

proof fn lemma_via_tag(net: Net, v: NewVia, uuid: Seq<char>)
    ensures
        tag_opens(bytes(via_block(net, v, uuid)), 0, bytes("via"@)),
        is_tag("via"@),
{
    reveal_strlit("via");
    reveal_strlit("(via");
    lemma_tag_is_word("via"@);
    lemma_leads();
    let t = via_block(net, v, uuid);
    let h = "(via"@ + "\n\t\t"@;
    assert("(via"@ =~= seq!['('] + "via"@);
    assert(t.len() >= h.len());
    let rest = t.skip(h.len() as int);
    assert(t =~= h + rest);
    lemma_has_tag(t, "via"@, "\n\t\t"@, rest);
}

/// A via that is added and then deleted leaves the board's file as it was, byte for
/// byte. Meanwhile it is found by its uuid, and says what was asked for.
///
/// The numbers must be words, the names must need no escapes, and the uuid must be
/// new to the board's vias.
pub proof fn law_add_via_then_delete(
    c: Seq<char>,
    name: Seq<char>,
    v: NewVia,
    uuid: Seq<char>,
    board: Seq<char>,
)
    requires
        is_document(bytes(c), bytes("kicad_pcb"@)),
        net_on_board(bytes(c), name).is_some(),
        is_plain(name),
        is_plain(uuid),
        is_plain_via(v),
        item_named(bytes(c), "via"@, uuid).is_none(),
    ensures
        added_via(bytes(c), name, v, false, uuid, board) is Ok,
        ({
            let (n, t) = added_via(bytes(c), name, v, false, uuid, board)->Ok_0;
            &&& item_named(t, "via"@, uuid).is_some()
            &&& item_named(t, "via"@, uuid).unwrap().node == via_node(n, v, uuid)
            &&& deleted_via(t, uuid, board) == Ok::<Seq<u8>, Seq<char>>(bytes(c))
        }),
{
    let s = bytes(c);
    let n = net_on_board(s, name).unwrap();
    crate::net::law_resolved_name(s, name);
    lemma_leads();
    lemma_via_reads(n, v, uuid);
    lemma_via_uuid(n, v, uuid);
    lemma_via_tag(n, v, uuid);
    law_item_put_and_taken(
        c,
        "via"@,
        "\n\t"@,
        via_block(n, v, uuid),
        via_node(n, v, uuid),
        uuid,
        "via "@ + uuid,
        board,
    );
}

// ─── Pours ───────────────────────────────────────────────────────────────────

/// The first `n` outline points as trees.
pub open spec fn point_nodes(pts: Seq<(Seq<char>, Seq<char>)>, n: int) -> Seq<Sexp>
    decreases n,
{
    if n <= 0 {
        Seq::empty()
    } else {
        point_nodes(pts, n - 1).push(
            Sexp::List(
                seq![Sexp::Atom("xy"@), Sexp::Atom(pts[n - 1].0), Sexp::Atom(pts[n - 1].1)],
            ),
        )
    }
}

/// The nets fields of a pour as trees.
pub open spec fn zone_net_nodes(net: Net) -> Seq<Sexp> {
    match net {
        Net::Named(n) => seq![net_node(net)],
        Net::Numbered(id, n) => seq![
            net_node(net),
            Sexp::List(seq![Sexp::Atom("net_name"@), Sexp::Str(n)]),
        ],
    }
}

/// What follows the net of a pour, as trees.
pub open spec fn zone_rest_nodes(
    layer: Seq<char>,
    clearance: Seq<char>,
    min_w: Seq<char>,
    pts: Seq<(Seq<char>, Seq<char>)>,
    uuid: Seq<char>,
) -> Seq<Sexp> {
    seq![
        Sexp::List(seq![Sexp::Atom("layer"@), Sexp::Str(layer)]),
        Sexp::List(seq![Sexp::Atom("uuid"@), Sexp::Str(uuid)]),
        Sexp::List(seq![Sexp::Atom("hatch"@), Sexp::Atom("edge"@), Sexp::Atom("0.508"@)]),
        Sexp::List(
            seq![
                Sexp::Atom("connect_pads"@),
                Sexp::List(seq![Sexp::Atom("clearance"@), Sexp::Atom(clearance)]),
            ],
        ),
        Sexp::List(seq![Sexp::Atom("min_thickness"@), Sexp::Atom(min_w)]),
        Sexp::List(seq![Sexp::Atom("fill"@), Sexp::Atom("yes"@)]),
        Sexp::List(
            seq![
                Sexp::Atom("polygon"@),
                Sexp::List(seq![Sexp::Atom("pts"@)] + point_nodes(pts, pts.len() as int)),
            ],
        ),
    ]
}

/// A pour as a tree.
pub open spec fn zone_node(
    net: Net,
    layer: Seq<char>,
    clearance: Seq<char>,
    min_w: Seq<char>,
    pts: Seq<(Seq<char>, Seq<char>)>,
    uuid: Seq<char>,
) -> Sexp {
    Sexp::List(
        seq![Sexp::Atom("zone"@)] + zone_net_nodes(net) + zone_rest_nodes(
            layer,
            clearance,
            min_w,
            pts,
            uuid,
        ),
    )
}

/// Every coordinate is a word.
pub open spec fn are_points(pts: Seq<(Seq<char>, Seq<char>)>) -> bool {
    forall|k: int| 0 <= k < pts.len() ==> is_word((#[trigger] pts[k]).0) && is_word(pts[k].1)
}

proof fn lemma_points_listing(head: Seq<char>, x: Seq<Sexp>, pts: Seq<(Seq<char>, Seq<char>)>, n: int)
    requires
        listing(head, x, false),
        are_points(pts),
        0 <= n <= pts.len(),
    ensures
        listing(head + points_text(pts, n), x + point_nodes(pts, n), n > 0),
    decreases n,
{
    if n == 0 {
        assert(head + points_text(pts, 0) =~= head);
        assert(x + point_nodes(pts, 0) =~= x);
    } else {
        lemma_points_listing(head, x, pts, n - 1);
        reveal_strlit("xy");
        lemma_tag_is_word("xy"@);
        lemma_leads();
        let (a, b) = pts[n - 1];
        assert(is_word(a) && is_word(b));
        lemma_pair_field("xy"@, a, b);
        let node = Sexp::List(seq![Sexp::Atom("xy"@), Sexp::Atom(a), Sexp::Atom(b)]);
        let t = head + points_text(pts, n - 1);
        let y = x + point_nodes(pts, n - 1);
        lemma_listing_block(t, y, n - 1 > 0, "\n      "@, pair_field("xy"@, a, b), node);
        assert(head + points_text(pts, n) =~= t + "\n      "@ + pair_field("xy"@, a, b));
        assert(x + point_nodes(pts, n) =~= y.push(node));
    }
}

proof fn lemma_polygon_reads(pts: Seq<(Seq<char>, Seq<char>)>)
    requires
        are_points(pts),
    ensures
        is_block_of(
            polygon_text(pts),
            Sexp::List(
                seq![
                    Sexp::Atom("polygon"@),
                    Sexp::List(seq![Sexp::Atom("pts"@)] + point_nodes(pts, pts.len() as int)),
                ],
            ),
        ),
{
    reveal_strlit("pts");
    reveal_strlit("(pts");
    reveal_strlit("polygon");
    reveal_strlit("(polygon");
    reveal_strlit(")");
    lemma_tag_is_word("pts"@);
    lemma_tag_is_word("polygon"@);
    lemma_leads();
    let n = pts.len() as int;
    assert("(pts"@ =~= seq!['('] + "pts"@);
    assert("(polygon"@ =~= seq!['('] + "polygon"@);
    assert(")"@ =~= seq![')']);
    lemma_opened("(pts"@, "pts"@);
    lemma_points_listing("(pts"@, seq![Sexp::Atom("pts"@)], pts, n);
    let x = seq![Sexp::Atom("pts"@)] + point_nodes(pts, n);
    let t = "(pts"@ + points_text(pts, n);
    lemma_listing_blank(t, x, n > 0, "\n    "@);
    lemma_listing_closes(t + "\n    "@, x, true);
    let inner = t + "\n    "@ + ")"@;
    lemma_opened("(polygon"@, "polygon"@);
    lemma_listing_block(
        "(polygon"@,
        seq![Sexp::Atom("polygon"@)],
        false,
        " "@,
        inner,
        Sexp::List(x),
    );
    let y = seq![Sexp::Atom("polygon"@)].push(Sexp::List(x));
    lemma_listing_closes("(polygon"@ + " "@ + inner, y, true);
    assert(y =~= seq![Sexp::Atom("polygon"@), Sexp::List(x)]);
}

proof fn lemma_connect_pads_reads(clearance: Seq<char>)
    requires
        is_word(clearance),
    ensures
        is_block_of(
            connect_pads_text(clearance),
            Sexp::List(
                seq![
                    Sexp::Atom("connect_pads"@),
                    Sexp::List(seq![Sexp::Atom("clearance"@), Sexp::Atom(clearance)]),
                ],
            ),
        ),
{
    reveal_strlit("connect_pads");
    reveal_strlit("(connect_pads");
    reveal_strlit("clearance");
    reveal_strlit(")");
    lemma_tag_is_word("connect_pads"@);
    lemma_tag_is_word("clearance"@);
    lemma_leads();
    assert("(connect_pads"@ =~= seq!['('] + "connect_pads"@);
    assert(")"@ =~= seq![')']);
    lemma_opened("(connect_pads"@, "connect_pads"@);
    lemma_word_field("clearance"@, clearance);
    let n = Sexp::List(seq![Sexp::Atom("clearance"@), Sexp::Atom(clearance)]);
    let x = seq![Sexp::Atom("connect_pads"@)];
    lemma_listing_block("(connect_pads"@, x, false, " "@, word_field("clearance"@, clearance), n);
    lemma_listing_closes("(connect_pads"@ + " "@ + word_field("clearance"@, clearance), x.push(n), true);
    assert(x.push(n) =~= seq![Sexp::Atom("connect_pads"@), n]);
}

proof fn lemma_zone_net_listing(head: Seq<char>, x: Seq<Sexp>, net: Net)
    requires
        listing(head, x, true),
        is_plain(net.name()),
    ensures
        listing(head + net.zone_fields(), x + zone_net_nodes(net), true),
{
    lemma_net_field(net);
    lemma_leads();
    lemma_listing_node(head, x, true, net.track_field(), net_node(net));
    match net {
        Net::Named(n) => {
            assert(x + zone_net_nodes(net) =~= x.push(net_node(net)));
        },
        Net::Numbered(id, n) => {
            reveal_strlit("net_name");
            lemma_tag_is_word("net_name"@);
            lemma_text_field("net_name"@, n);
            let m = Sexp::List(seq![Sexp::Atom("net_name"@), Sexp::Str(n)]);
            lemma_listing_block(
                head + net.track_field(),
                x.push(net_node(net)),
                true,
                " "@,
                text_field("net_name"@, n),
                m,
            );
            assert(head + net.track_field() + " "@ + text_field("net_name"@, n) =~= head
                + net.zone_fields());
            assert(x + zone_net_nodes(net) =~= x.push(net_node(net)).push(m));
        },
    }
}

/// A pour up to its uuid.
proof fn lemma_zone_front(net: Net, layer: Seq<char>, uuid: Seq<char>)
    requires
        is_plain(net.name()),
        is_plain(layer),
        is_plain(uuid),
    ensures
        listing(
            "(zone"@ + " "@ + net.zone_fields() + " "@ + text_field("layer"@, layer) + " "@ + text_field(
                "uuid"@,
                uuid,
            ),
            (seq![Sexp::Atom("zone"@)] + zone_net_nodes(net)).push(
                Sexp::List(seq![Sexp::Atom("layer"@), Sexp::Str(layer)]),
            ).push(Sexp::List(seq![Sexp::Atom("uuid"@), Sexp::Str(uuid)])),
            true,
        ),
{
    reveal_strlit("zone");
    reveal_strlit("(zone");
    reveal_strlit("layer");
    reveal_strlit("uuid");
    lemma_tag_is_word("zone"@);
    lemma_tag_is_word("layer"@);
    lemma_tag_is_word("uuid"@);
    lemma_leads();
    lemma_text_field("layer"@, layer);
    lemma_text_field("uuid"@, uuid);
    let sp = " "@;
    let t0 = "(zone"@;
    assert(t0 =~= seq!['('] + "zone"@);
    lemma_opened(t0, "zone"@);
    let x0 = seq![Sexp::Atom("zone"@)];
    lemma_listing_blank(t0, x0, false, sp);
    let t1 = t0 + sp + net.zone_fields();
    let x1 = x0 + zone_net_nodes(net);
    lemma_zone_net_listing(t0 + sp, x0, net);
    let a = Sexp::List(seq![Sexp::Atom("layer"@), Sexp::Str(layer)]);
    let b = Sexp::List(seq![Sexp::Atom("uuid"@), Sexp::Str(uuid)]);
    lemma_listing_block(t1, x1, true, sp, text_field("layer"@, layer), a);
    let t2 = t1 + sp + text_field("layer"@, layer);
    lemma_listing_block(t2, x1.push(a), true, sp, text_field("uuid"@, uuid), b);
}

/// The hatch and the pads of a pour.
proof fn lemma_zone_middle(t: Seq<char>, x: Seq<Sexp>, clearance: Seq<char>)
    requires
        listing(t, x, true),
        is_word(clearance),
    ensures
        listing(
            t + "\n    "@ + pair_field("hatch"@, "edge"@, "0.508"@) + "\n    "@ + connect_pads_text(
                clearance,
            ),
            x.push(
                Sexp::List(seq![Sexp::Atom("hatch"@), Sexp::Atom("edge"@), Sexp::Atom("0.508"@)]),
            ).push(
                Sexp::List(
                    seq![
                        Sexp::Atom("connect_pads"@),
                        Sexp::List(seq![Sexp::Atom("clearance"@), Sexp::Atom(clearance)]),
                    ],
                ),
            ),
            true,
        ),
{
    reveal_strlit("hatch");
    reveal_strlit("edge");
    lemma_tag_is_word("hatch"@);
    lemma_tag_is_word("edge"@);
    lemma_thickness_is_word();
    lemma_leads();
    lemma_pair_field("hatch"@, "edge"@, "0.508"@);
    lemma_connect_pads_reads(clearance);
    let lead = "\n    "@;
    let a = Sexp::List(seq![Sexp::Atom("hatch"@), Sexp::Atom("edge"@), Sexp::Atom("0.508"@)]);
    let b = Sexp::List(
        seq![
            Sexp::Atom("connect_pads"@),
            Sexp::List(seq![Sexp::Atom("clearance"@), Sexp::Atom(clearance)]),
        ],
    );
    lemma_listing_block(t, x, true, lead, pair_field("hatch"@, "edge"@, "0.508"@), a);
    let t1 = t + lead + pair_field("hatch"@, "edge"@, "0.508"@);
    lemma_listing_block(t1, x.push(a), true, lead, connect_pads_text(clearance), b);
}

/// The thickness, the fill and the outline of a pour.
proof fn lemma_zone_back(t: Seq<char>, x: Seq<Sexp>, min_w: Seq<char>, pts: Seq<(Seq<char>, Seq<char>)>)
    requires
        listing(t, x, true),
        is_word(min_w),
        are_points(pts),
    ensures
        listing(
            t + "\n    "@ + word_field("min_thickness"@, min_w) + "\n    "@ + word_field("fill"@, "yes"@)
                + "\n    "@ + polygon_text(pts) + "\n  "@,
            x.push(Sexp::List(seq![Sexp::Atom("min_thickness"@), Sexp::Atom(min_w)])).push(
                Sexp::List(seq![Sexp::Atom("fill"@), Sexp::Atom("yes"@)]),
            ).push(
                Sexp::List(
                    seq![
                        Sexp::Atom("polygon"@),
                        Sexp::List(seq![Sexp::Atom("pts"@)] + point_nodes(pts, pts.len() as int)),
                    ],
                ),
            ),
            true,
        ),
{
    reveal_strlit("min_thickness");
    reveal_strlit("fill");
    reveal_strlit("yes");
    lemma_tag_is_word("min_thickness"@);
    lemma_tag_is_word("fill"@);
    lemma_tag_is_word("yes"@);
    lemma_leads();
    lemma_word_field("min_thickness"@, min_w);
    lemma_word_field("fill"@, "yes"@);
    lemma_polygon_reads(pts);
    let lead = "\n    "@;
    let a = Sexp::List(seq![Sexp::Atom("min_thickness"@), Sexp::Atom(min_w)]);
    let b = Sexp::List(seq![Sexp::Atom("fill"@), Sexp::Atom("yes"@)]);
    let c = Sexp::List(
        seq![
            Sexp::Atom("polygon"@),
            Sexp::List(seq![Sexp::Atom("pts"@)] + point_nodes(pts, pts.len() as int)),
        ],
    );
    lemma_listing_block(t, x, true, lead, word_field("min_thickness"@, min_w), a);
    let t1 = t + lead + word_field("min_thickness"@, min_w);
    lemma_listing_block(t1, x.push(a), true, lead, word_field("fill"@, "yes"@), b);
    let t2 = t1 + lead + word_field("fill"@, "yes"@);
    lemma_listing_block(t2, x.push(a).push(b), true, lead, polygon_text(pts), c);
    lemma_listing_blank(t2 + lead + polygon_text(pts), x.push(a).push(b).push(c), true, "\n  "@);
}

/// The text of a pour reads as the pour.
#[verifier::rlimit(40)]
pub proof fn lemma_zone_reads(
    net: Net,
    layer: Seq<char>,
    clearance: Seq<char>,
    min_w: Seq<char>,
    pts: Seq<(Seq<char>, Seq<char>)>,
    uuid: Seq<char>,
)
    requires
        is_plain(net.name()),
        is_plain(layer),
        is_plain(uuid),
        is_word(clearance),
        is_word(min_w),
        are_points(pts),
    ensures
        ({
            let t = bytes(zone_block(net, layer, clearance, min_w, pts, uuid));
            &&& closes_at(t, 0, t.len() as int)
            &&& parse_text(t) == Ok::<Sexp, ParseError>(
                zone_node(net, layer, clearance, min_w, pts, uuid),
            )
        }),
{
    reveal_strlit(")");
    let ns = zone_rest_nodes(layer, clearance, min_w, pts, uuid);
    let lead = "\n    "@;
    let x1 = seq![Sexp::Atom("zone"@)] + zone_net_nodes(net);
    let t3 = "(zone"@ + " "@ + net.zone_fields() + " "@ + text_field("layer"@, layer) + " "@ + text_field(
        "uuid"@,
        uuid,
    );
    let x3 = x1.push(ns[0]).push(ns[1]);
    lemma_zone_front(net, layer, uuid);
    let t5 = t3 + lead + pair_field("hatch"@, "edge"@, "0.508"@) + lead + connect_pads_text(clearance);
    let x5 = x3.push(ns[2]).push(ns[3]);
    lemma_zone_middle(t3, x3, clearance);
    let t8 = t5 + lead + word_field("min_thickness"@, min_w) + lead + word_field("fill"@, "yes"@) + lead
        + polygon_text(pts) + "\n  "@;
    let x8 = x5.push(ns[4]).push(ns[5]).push(ns[6]);
    lemma_zone_back(t5, x5, min_w, pts);
    assert(")"@ =~= seq![')']);
    lemma_listing_closes(t8, x8, true);
    assert(x8 =~= x1 + ns);
}

proof fn lemma_thickness_is_word()
    ensures
        is_word("0.508"@),
{
    reveal_strlit("0.508");
    let t = "0.508"@;
    assert(is_ascii_chars(t));
    lemma_bytes_ascii(t);
    assert forall|k: int| 0 <= k < bytes(t).len() implies !crate::sexp::ends_atom(
        #[trigger] bytes(t)[k],
    ) by {
        crate::grammar::lemma_char_bytes(t[k]);
        assert(bytes(t)[k] == t[k] as u8);
        assert(t[k] == '0' || t[k] == '.' || t[k] == '5' || t[k] == '8');
    }
}

proof fn lemma_zone_uuid(
    net: Net,
    layer: Seq<char>,
    clearance: Seq<char>,
    min_w: Seq<char>,
    pts: Seq<(Seq<char>, Seq<char>)>,
    uuid: Seq<char>,
)
    ensures
        child_text(zone_node(net, layer, clearance, min_w, pts, uuid), "uuid"@) == Some(uuid),
{
    reveal_strlit("layer");
    reveal_strlit("net");
    reveal_strlit("net_name");
    reveal_strlit("uuid");
    let n = zone_node(net, layer, clearance, min_w, pts, uuid);
    let items = items_in(n);
    assert("layer"@.len() == 5 && "net"@.len() == 3 && "net_name"@.len() == 8 && "uuid"@.len() == 4);
    assert(tag_in(items[0]).is_none());
    assert(tag_in(items[1]) == Some("net"@));
    reveal_with_fuel(tagged_at, 6);
    match net {
        Net::Named(_) => {
            assert(tag_in(items[2]) == Some("layer"@));
            assert(tag_in(items[3]) == Some("uuid"@));
            assert(tagged_at(items, "uuid"@, 0) == Some(3int));
        },
        Net::Numbered(_, _) => {
            assert(tag_in(items[2]) == Some("net_name"@));
            assert(tag_in(items[3]) == Some("layer"@));
            assert(tag_in(items[4]) == Some("uuid"@));
            assert(tagged_at(items, "uuid"@, 0) == Some(4int));
        },
    }
}

/// A text begins with another.
spec fn begins(t: Seq<char>, h: Seq<char>) -> bool {
    h.len() <= t.len() && t.take(h.len() as int) == h
}

proof fn lemma_still_begins(t: Seq<char>, h: Seq<char>, more: Seq<char>)
    requires
        begins(t, h),
    ensures
        begins(t + more, h),
{
    assert((t + more).take(h.len() as int) =~= t.take(h.len() as int));
}

proof fn lemma_zone_tag(
    net: Net,
    layer: Seq<char>,
    clearance: Seq<char>,
    min_w: Seq<char>,
    pts: Seq<(Seq<char>, Seq<char>)>,
    uuid: Seq<char>,
)
    ensures
        tag_opens(bytes(zone_block(net, layer, clearance, min_w, pts, uuid)), 0, bytes("zone"@)),
        is_tag("zone"@),
{
    reveal_strlit("zone");
    reveal_strlit("(zone");
    lemma_tag_is_word("zone"@);
    lemma_leads();
    assert("(zone"@ =~= seq!['('] + "zone"@);
    let t = zone_block(net, layer, clearance, min_w, pts, uuid);
    let h = "(zone"@ + " "@;
    assert(h.take(h.len() as int) =~= h);
    let t0 = h;
    let t1 = t0 + net.zone_fields();
    lemma_still_begins(t0, h, net.zone_fields());
    let t2 = t1 + " "@;
    lemma_still_begins(t1, h, " "@);
    let t3 = t2 + text_field("layer"@, layer);
    lemma_still_begins(t2, h, text_field("layer"@, layer));
    let t4 = t3 + " "@;
    lemma_still_begins(t3, h, " "@);
    let t5 = t4 + text_field("uuid"@, uuid);
    lemma_still_begins(t4, h, text_field("uuid"@, uuid));
    let t6 = t5 + "\n    "@;
    lemma_still_begins(t5, h, "\n    "@);
    let t7 = t6 + pair_field("hatch"@, "edge"@, "0.508"@);
    lemma_still_begins(t6, h, pair_field("hatch"@, "edge"@, "0.508"@));
    let t8 = t7 + "\n    "@;
    lemma_still_begins(t7, h, "\n    "@);
    let t9 = t8 + connect_pads_text(clearance);
    lemma_still_begins(t8, h, connect_pads_text(clearance));
    let t10 = t9 + "\n    "@;
    lemma_still_begins(t9, h, "\n    "@);
    let t11 = t10 + word_field("min_thickness"@, min_w);
    lemma_still_begins(t10, h, word_field("min_thickness"@, min_w));
    let t12 = t11 + "\n    "@;
    lemma_still_begins(t11, h, "\n    "@);
    let t13 = t12 + word_field("fill"@, "yes"@);
    lemma_still_begins(t12, h, word_field("fill"@, "yes"@));
    let t14 = t13 + "\n    "@;
    lemma_still_begins(t13, h, "\n    "@);
    let t15 = t14 + polygon_text(pts);
    lemma_still_begins(t14, h, polygon_text(pts));
    let t16 = t15 + "\n  "@;
    lemma_still_begins(t15, h, "\n  "@);
    let t17 = t16 + ")"@;
    lemma_still_begins(t16, h, ")"@);
    assert(t == t17);
    let rest = t.skip(h.len() as int);
    assert(t =~= h + rest);
    lemma_has_tag(t, "zone"@, " "@, rest);
}

/// A pour that is added and then deleted leaves the board's file as it was, byte
/// for byte. Meanwhile it is found by its uuid, and says what was asked for.
///
/// The numbers must be words, the names must need no escapes, and the uuid must be
/// new to the board's zones.
pub proof fn law_add_pour_then_delete(
    c: Seq<char>,
    name: Seq<char>,
    layer: Seq<char>,
    clearance: Seq<char>,
    min_w: Seq<char>,
    pts: Seq<(Seq<char>, Seq<char>)>,
    uuid: Seq<char>,
    board: Seq<char>,
)
    requires
        is_document(bytes(c), bytes("kicad_pcb"@)),
        net_on_board(bytes(c), name).is_some(),
        is_plain(name),
        is_plain(layer),
        is_plain(uuid),
        is_word(clearance),
        is_word(min_w),
        are_points(pts),
        pts.len() >= 3,
        item_named(bytes(c), "zone"@, uuid).is_none(),
    ensures
        added_pour(bytes(c), name, layer, clearance, min_w, pts, uuid, board) is Ok,
        ({
            let (n, t) = added_pour(
                bytes(c),
                name,
                layer,
                clearance,
                min_w,
                pts,
                uuid,
                board,
            )->Ok_0;
            &&& item_named(t, "zone"@, uuid).is_some()
            &&& item_named(t, "zone"@, uuid).unwrap().node == zone_node(
                n,
                layer,
                clearance,
                min_w,
                pts,
                uuid,
            )
            &&& deleted_zone(t, uuid, board) == Ok::<Seq<u8>, Seq<char>>(bytes(c))
        }),
{
    let s = bytes(c);
    let n = net_on_board(s, name).unwrap();
    crate::net::law_resolved_name(s, name);
    lemma_leads();
    lemma_zone_reads(n, layer, clearance, min_w, pts, uuid);
    lemma_zone_uuid(n, layer, clearance, min_w, pts, uuid);
    lemma_zone_tag(n, layer, clearance, min_w, pts, uuid);
    law_item_put_and_taken(
        c,
        "zone"@,
        "\n  "@,
        zone_block(n, layer, clearance, min_w, pts, uuid),
        zone_node(n, layer, clearance, min_w, pts, uuid),
        uuid,
        "zone "@ + uuid,
        board,
    );
}

} // verus!
