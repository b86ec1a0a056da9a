//! Vias, pours and net classes, and changing what is already on a board.

use crate::board_file::{
    commit, committed, delete_range, delete_range_of, no_root_text, root_close, root_close_or_error,
    written,
};
use crate::edit::{splices, SexpEdit, Splice};
use crate::ident::{is_uuid, new_uuid};
#[allow(unused_imports)]
use crate::items::{
    find_item, item_named, point_texts, unknown_item_message, unknown_item_text, unknown_trace_message,
    unknown_trace_text, BoardItem, Item,
};
#[allow(unused_imports)]
use crate::net::{
    net_field, net_not_found_error, net_not_found_text, net_on_board, resolve_net, Net, NetRef,
};
use crate::routing::{
    format_segment, insert_item, on_net, routed, segment_text, with_item, Leg, Line, Routed,
};
#[allow(unused_imports)]
use crate::scan::{
    block_end, block_starts, closes_at, find_block_end, find_block_starts, lemma_block_cuttable,
    offsets, opens,
};
#[allow(unused_imports)]
use crate::sexp::{parse_sexp, parse_text, text_at};
#[allow(unused_imports)]
use crate::text::{bytes, contains, copy, has, lemma_ascii_boundary, put, same, slice};
use crate::fields::{
    pair_field, put_pair_field, put_text_field, put_texts_field, put_word_field, text_field, texts_field,
    word_field,
};
use vstd::prelude::*;
use vstd::string::*;

verus! {

// ─── Vias ────────────────────────────────────────────────────────────────────

/// A via to put on a board, its numbers in the text they are to be written in.
#[derive(Debug)]
pub struct NewVia {
    pub x: String,
    pub y: String,
    pub drill: String,
    pub size: String,
    pub start_layer: String,
    pub end_layer: String,
}

/// A `(via …)` as KiCAD 10 writes it.
pub open spec fn via_block(net: Net, v: NewVia, uuid: Seq<char>) -> Seq<char> {
    "(via"@ + "\n\t\t"@ + pair_field("at"@, v.x@, v.y@) + "\n\t\t"@ + word_field("size"@, v.size@)
        + "\n\t\t"@ + word_field("drill"@, v.drill@) + "\n\t\t"@ + texts_field(
        "layers"@,
        v.start_layer@,
        v.end_layer@,
    ) + "\n\t\t"@ + net.track_field() + "\n\t\t"@ + text_field("uuid"@, uuid) + "\n\t"@ + ")"@
}

/// A `(via …)` as a new top-level item.
pub open spec fn via_text(net: Net, v: NewVia, uuid: Seq<char>) -> Seq<char> {
    "\n\t"@ + via_block(net, v, uuid)
}

/// A `(via …)` in the board's own net convention.
pub fn format_via(net: &NetRef, v: &NewVia, uuid: &str) -> (r: String)
    ensures
        r@ == via_text(net.model(), *v, uuid@),
{
    let mut out = copy("(via");
    put(&mut out, "\n\t\t");
    put_pair_field(&mut out, "at", v.x.as_str(), v.y.as_str());
    put(&mut out, "\n\t\t");
    put_word_field(&mut out, "size", v.size.as_str());
    put(&mut out, "\n\t\t");
    put_word_field(&mut out, "drill", v.drill.as_str());
    put(&mut out, "\n\t\t");
    put_texts_field(&mut out, "layers", v.start_layer.as_str(), v.end_layer.as_str());
    put(&mut out, "\n\t\t");
    put(&mut out, net_field(net).as_str());
    put(&mut out, "\n\t\t");
    put_text_field(&mut out, "uuid", uuid);
    put(&mut out, "\n\t");
    put(&mut out, ")");
    let mut item = copy("\n\t");
    put(&mut item, out.as_str());
    item
}

/// The refusal of a via whose pad does not surround its drill.
pub open spec fn via_size_text(size: Seq<char>, drill: Seq<char>) -> Seq<char> {
    "Via pad_size ("@ + size + "mm) must be larger than drill ("@ + drill + "mm)."@
}

/// What adding a via comes to.
pub open spec fn added_via(
    s: Seq<u8>,
    name: Seq<char>,
    v: NewVia,
    too_small: bool,
    uuid: Seq<char>,
    board: Seq<char>,
) -> Result<(Net, Seq<u8>), Seq<char>> {
    if too_small {
        Err(via_size_text(v.size@, v.drill@))
    } else {
        match net_on_board(s, name) {
            None => Err(net_not_found_text(s, name)),
            Some(n) => on_net(n, with_item(s, via_text(n, v, uuid), board)),
        }
    }
}

/// Put a via with the given uuid on the board. `too_small` says that the pad is no
/// larger than the drill.
pub fn add_via_as(
    content: &str,
    net_name: &str,
    via: &NewVia,
    too_small: bool,
    uuid: &str,
    board: &str,
) -> (r: Result<Routed, String>)
    ensures
        routed(r) == added_via(bytes(content@), net_name@, *via, too_small, uuid@, board@),
{
    if too_small {
        let mut out = copy("Via pad_size (");
        put(&mut out, via.size.as_str());
        put(&mut out, "mm) must be larger than drill (");
        put(&mut out, via.drill.as_str());
        put(&mut out, "mm).");
        return Err(out);
    }
    match resolve_net(content, net_name) {
        None => Err(net_not_found_error(content, net_name)),
        Some(net) => {
            let text = format_via(&net, via, uuid);
            match insert_item(content, text, board) {
                Err(e) => Err(e),
                Ok(content) => Ok(Routed { net, content }),
            }
        },
    }
}

/// Put a via on the board, with a fresh uuid.
pub fn add_via(content: &str, net_name: &str, via: &NewVia, too_small: bool, board: &str) -> (r: (
    String,
    Result<Routed, String>,
))
    ensures
        is_uuid(r.0@),
        routed(r.1) == added_via(bytes(content@), net_name@, *via, too_small, r.0@, board@),
{
    let uuid = new_uuid();
    let out = add_via_as(content, net_name, via, too_small, uuid.as_str(), board);
    (uuid, out)
}

// ─── Pours ───────────────────────────────────────────────────────────────────

/// The first `n` outline points of a pour.
pub open spec fn points_text(pts: Seq<(Seq<char>, Seq<char>)>, n: int) -> Seq<char>
    decreases n,
{
    if n <= 0 {
        Seq::empty()
    } else {
        points_text(pts, n - 1) + "\n      "@ + pair_field("xy"@, pts[n - 1].0, pts[n - 1].1)
    }
}

/// Append the outline points.
pub(crate) fn put_points(out: &mut String, pts: &Vec<(String, String)>)
    ensures
        final(out)@ == old(out)@ + points_text(point_texts(pts@), pts.len() as int),
{
    let ghost head = out@;
    let ghost all = point_texts(pts@);
    let mut i: usize = 0;
    assert(head + points_text(all, 0) =~= head);
    while i < pts.len()
        invariant
            i <= pts.len(),
            all == point_texts(pts@),
            out@ == head + points_text(all, i as int),
        decreases pts.len() - i,
    {
        let ghost was = points_text(all, i as int);
        assert(all[i as int] == (pts[i as int].0@, pts[i as int].1@));
        put(out, "\n      ");
        put_pair_field(out, "xy", pts[i].0.as_str(), pts[i].1.as_str());
        assert(out@ =~= head + (was + "\n      "@ + pair_field(
            "xy"@,
            all[i as int].0,
            all[i as int].1,
        )));
        i += 1;
    }
}

/// The `(polygon …)` of a pour.
pub open spec fn polygon_text(pts: Seq<(Seq<char>, Seq<char>)>) -> Seq<char> {
    "(polygon"@ + " "@ + ("(pts"@ + points_text(pts, pts.len() as int) + "\n    "@ + ")"@) + ")"@
}

/// The `(connect_pads …)` of a pour.
pub open spec fn connect_pads_text(clearance: Seq<char>) -> Seq<char> {
    "(connect_pads"@ + " "@ + word_field("clearance"@, clearance) + ")"@
}

/// A `(zone …)`.
pub open spec fn zone_block(
    net: Net,
    layer: Seq<char>,
    clearance: Seq<char>,
    min_w: Seq<char>,
    pts: Seq<(Seq<char>, Seq<char>)>,
    uuid: Seq<char>,
) -> Seq<char> {
    "(zone"@ + " "@ + net.zone_fields() + " "@ + text_field("layer"@, layer) + " "@ + text_field(
        "uuid"@,
        uuid,
    ) + "\n    "@ + pair_field("hatch"@, "edge"@, "0.508"@) + "\n    "@ + connect_pads_text(clearance)
        + "\n    "@ + word_field("min_thickness"@, min_w) + "\n    "@ + word_field("fill"@, "yes"@)
        + "\n    "@ + polygon_text(pts) + "\n  "@ + ")"@
}

/// A `(zone …)` as a new top-level item.
pub open spec fn zone_text(
    net: Net,
    layer: Seq<char>,
    clearance: Seq<char>,
    min_w: Seq<char>,
    pts: Seq<(Seq<char>, Seq<char>)>,
    uuid: Seq<char>,
) -> Seq<char> {
    "\n  "@ + zone_block(net, layer, clearance, min_w, pts, uuid)
}

fn put_connect_pads(out: &mut String, clearance: &str)
    ensures
        final(out)@ == old(out)@ + connect_pads_text(clearance@),
{
    let ghost was = out@;
    put(out, "(connect_pads");
    put(out, " ");
    put_word_field(out, "clearance", clearance);
    put(out, ")");
    assert(out@ =~= was + connect_pads_text(clearance@));
}

fn put_polygon(out: &mut String, pts: &Vec<(String, String)>)
    ensures
        final(out)@ == old(out)@ + polygon_text(point_texts(pts@)),
{
    let mut list = copy("(pts");
    put_points(&mut list, pts);
    put(&mut list, "\n    ");
    put(&mut list, ")");
    let mut block = copy("(polygon");
    put(&mut block, " ");
    put(&mut block, list.as_str());
    put(&mut block, ")");
    put(out, block.as_str());
}

/// A `(zone …)` in the board's own net convention.
pub fn format_zone(
    net: &NetRef,
    layer: &str,
    clearance: &str,
    min_w: &str,
    pts: &Vec<(String, String)>,
    uuid: &str,
) -> (r: String)
    ensures
        r@ == zone_text(net.model(), layer@, clearance@, min_w@, point_texts(pts@), uuid@),
{
    let mut out = copy("(zone");
    put(&mut out, " ");
    put(&mut out, net.zone_fields().as_str());
    put(&mut out, " ");
    put_text_field(&mut out, "layer", layer);
    put(&mut out, " ");
    put_text_field(&mut out, "uuid", uuid);
    put(&mut out, "\n    ");
    put_pair_field(&mut out, "hatch", "edge", "0.508");
    put(&mut out, "\n    ");
    put_connect_pads(&mut out, clearance);
    put(&mut out, "\n    ");
    put_word_field(&mut out, "min_thickness", min_w);
    put(&mut out, "\n    ");
    put_word_field(&mut out, "fill", "yes");
    put(&mut out, "\n    ");
    put_polygon(&mut out, pts);
    put(&mut out, "\n  ");
    put(&mut out, ")");
    let mut item = copy("\n  ");
    put(&mut item, out.as_str());
    item
}

/// What adding a pour comes to.
pub open spec fn added_pour(
    s: Seq<u8>,
    name: Seq<char>,
    layer: Seq<char>,
    clearance: Seq<char>,
    min_w: Seq<char>,
    pts: Seq<(Seq<char>, Seq<char>)>,
    uuid: Seq<char>,
    board: Seq<char>,
) -> Result<(Net, Seq<u8>), Seq<char>> {
    if pts.len() < 3 {
        Err("Zone requires at least 3 points"@)
    } else {
        match net_on_board(s, name) {
            None => Err(net_not_found_text(s, name)),
            Some(n) => on_net(
                n,
                with_item(s, zone_text(n, layer, clearance, min_w, pts, uuid), board),
            ),
        }
    }
}

/// Put a pour with the given uuid on the board.
pub fn add_copper_pour_as(
    content: &str,
    net_name: &str,
    layer: &str,
    clearance: &str,
    min_w: &str,
    pts: &Vec<(String, String)>,
    uuid: &str,
    board: &str,
) -> (r: Result<Routed, String>)
    ensures
        routed(r) == added_pour(
            bytes(content@),
            net_name@,
            layer@,
            clearance@,
            min_w@,
            point_texts(pts@),
            uuid@,
            board@,
        ),
{
    if pts.len() < 3 {
        return Err(copy("Zone requires at least 3 points"));
    }
    match resolve_net(content, net_name) {
        None => Err(net_not_found_error(content, net_name)),
        Some(net) => {
            let text = format_zone(&net, layer, clearance, min_w, pts, uuid);
            match insert_item(content, text, board) {
                Err(e) => Err(e),
                Ok(content) => Ok(Routed { net, content }),
            }
        },
    }
}

/// Put a pour on the board, with a fresh uuid.
pub fn add_copper_pour(
    content: &str,
    net_name: &str,
    layer: &str,
    clearance: &str,
    min_w: &str,
    pts: &Vec<(String, String)>,
    board: &str,
) -> (r: (String, Result<Routed, String>))
    ensures
        is_uuid(r.0@),
        routed(r.1) == added_pour(
            bytes(content@),
            net_name@,
            layer@,
            clearance@,
            min_w@,
            point_texts(pts@),
            r.0@,
            board@,
        ),
{
    let uuid = new_uuid();
    let out = add_copper_pour_as(
        content,
        net_name,
        layer,
        clearance,
        min_w,
        pts,
        uuid.as_str(),
        board,
    );
    (uuid, out)
}

// ─── Deleting ────────────────────────────────────────────────────────────────

/// The board without an item, or the reason to write nothing.
pub open spec fn without_item(s: Seq<u8>, i: Item, what: Seq<char>, board: Seq<char>) -> Result<
    Seq<u8>,
    Seq<char>,
> {
    match delete_range_of(s, i.start, i.end, what, board) {
        Err(e) => Err(e),
        Ok((a, b)) => committed(
            s,
            seq![Splice { start: a, end: b, bytes: Seq::empty() }],
            "kicad_pcb"@,
            board,
        ),
    }
}

fn remove_item(content: &str, i: &BoardItem, what: &str, board: &str) -> (r: Result<String, String>)
    ensures
        written(r) == without_item(bytes(content@), i.model(), what@, board@),
{
    match delete_range(content, i.start, i.end, what, board) {
        Err(e) => Err(e),
        Ok((a, b)) => {
            let mut edits: Vec<SexpEdit> = Vec::new();
            edits.push(SexpEdit::delete(a, b));
            assert(splices(edits@) =~= seq![
                Splice { start: a as int, end: b as int, bytes: Seq::empty() },
            ]);
            commit(content, &edits, "kicad_pcb", board)
        },
    }
}

/// What deleting a track comes to.
pub open spec fn deleted_trace(s: Seq<u8>, uuid: Seq<char>, board: Seq<char>) -> Result<
    Seq<u8>,
    Seq<char>,
> {
    match item_named(s, "segment"@, uuid) {
        None => Err(unknown_trace_text(s, uuid, board)),
        Some(i) => without_item(s, i, "trace "@ + uuid, board),
    }
}

/// What deleting a via comes to.
pub open spec fn deleted_via(s: Seq<u8>, uuid: Seq<char>, board: Seq<char>) -> Result<
    Seq<u8>,
    Seq<char>,
> {
    match item_named(s, "via"@, uuid) {
        None => Err(unknown_item_text(s, uuid, board, "via"@, "query_vias"@)),
        Some(i) => without_item(s, i, "via "@ + uuid, board),
    }
}

/// What deleting a zone comes to.
pub open spec fn deleted_zone(s: Seq<u8>, uuid: Seq<char>, board: Seq<char>) -> Result<
    Seq<u8>,
    Seq<char>,
> {
    match item_named(s, "zone"@, uuid) {
        None => Err(unknown_item_text(s, uuid, board, "zone"@, "query_zones"@)),
        Some(i) => without_item(s, i, "zone "@ + uuid, board),
    }
}

/// The board without the track, or the reason to write nothing.
pub fn delete_trace(content: &str, uuid: &str, board: &str) -> (r: Result<String, String>)
    ensures
        written(r) == deleted_trace(bytes(content@), uuid@, board@),
{
    match find_item(content, "segment", uuid) {
        None => Err(unknown_trace_message(content, uuid, board)),
        Some(i) => {
            let mut what = copy("trace ");
            put(&mut what, uuid);
            remove_item(content, &i, what.as_str(), board)
        },
    }
}

/// The board without the via, or the reason to write nothing.
pub fn delete_via(content: &str, uuid: &str, board: &str) -> (r: Result<String, String>)
    ensures
        written(r) == deleted_via(bytes(content@), uuid@, board@),
{
    match find_item(content, "via", uuid) {
        None => Err(unknown_item_message(content, uuid, board, "via", "query_vias")),
        Some(i) => {
            let mut what = copy("via ");
            put(&mut what, uuid);
            remove_item(content, &i, what.as_str(), board)
        },
    }
}

/// The board without the zone, or the reason to write nothing.
pub fn delete_zone(content: &str, uuid: &str, board: &str) -> (r: Result<String, String>)
    ensures
        written(r) == deleted_zone(bytes(content@), uuid@, board@),
{
    match find_item(content, "zone", uuid) {
        None => Err(unknown_item_message(content, uuid, board, "zone", "query_zones")),
        Some(i) => {
            let mut what = copy("zone ");
            put(&mut what, uuid);
            remove_item(content, &i, what.as_str(), board)
        },
    }
}

// ─── Rewriting a track ───────────────────────────────────────────────────────

/// What rewriting a track comes to: in place, so that its uuid keeps naming it.
pub open spec fn modified_trace(
    s: Seq<u8>,
    uuid: Seq<char>,
    name: Seq<char>,
    layer: Seq<char>,
    width: Seq<char>,
    l: Line,
    board: Seq<char>,
) -> Result<(Net, Seq<u8>), Seq<char>> {
    match item_named(s, "segment"@, uuid) {
        None => Err(unknown_trace_text(s, uuid, board)),
        Some(i) => match net_on_board(s, name) {
            None => Err(net_not_found_text(s, name)),
            Some(n) => on_net(
                n,
                committed(
                    s,
                    seq![
                        Splice {
                            start: i.start,
                            end: i.end,
                            bytes: bytes(segment_text(n, layer, width, l, uuid)),
                        },
                    ],
                    "kicad_pcb"@,
                    board,
                ),
            ),
        },
    }
}

/// Rewrite a track in place.
pub fn modify_trace(
    content: &str,
    uuid: &str,
    net_name: &str,
    layer: &str,
    width: &str,
    leg: &Leg,
    board: &str,
) -> (r: Result<Routed, String>)
    ensures
        routed(r) == modified_trace(
            bytes(content@),
            uuid@,
            net_name@,
            layer@,
            width@,
            leg.model(),
            board@,
        ),
{
    let item = match find_item(content, "segment", uuid) {
        None => {
            return Err(unknown_trace_message(content, uuid, board));
        },
        Some(i) => i,
    };
    match resolve_net(content, net_name) {
        None => Err(net_not_found_error(content, net_name)),
        Some(net) => {
            let text = format_segment(&net, layer, width, leg, uuid);
            let ghost b = bytes(text@);
            let mut edits: Vec<SexpEdit> = Vec::new();
            edits.push(SexpEdit::replace(item.start, item.end, text));
            assert(splices(edits@) =~= seq![
                Splice { start: item.start as int, end: item.end as int, bytes: b },
            ]);
            match commit(content, &edits, "kicad_pcb", board) {
                Err(e) => Err(e),
                Ok(content) => Ok(Routed { net, content }),
            }
        },
    }
}

// ─── Net classes ─────────────────────────────────────────────────────────────

/// The end of the first block from `k` on that closes.
pub open spec fn first_closed(s: Seq<u8>, starts: Seq<int>, k: int) -> Option<int>
    decreases starts.len() - k,
{
    if k < 0 || k >= starts.len() {
        None
    } else if block_end(s, starts[k]).is_some() {
        block_end(s, starts[k])
    } else {
        first_closed(s, starts, k + 1)
    }
}

/// The end of the first balanced block with the tag.
pub open spec fn container_end(s: Seq<u8>, tag: Seq<char>) -> Option<int> {
    first_closed(s, block_starts(s, bytes(tag), s.len() as int), 0)
}

/// Where a new net class goes: inside the board's own `(net_classes …)` or
/// `(net_settings …)`, else at the end of the root.
pub open spec fn netclass_place(s: Seq<u8>) -> Option<int> {
    match container_end(s, "net_classes"@) {
        Some(e) => Some(e - 1),
        None => match container_end(s, "net_settings"@) {
            Some(e) => Some(e - 1),
            None => root_close(s),
        },
    }
}

/// A net class, its numbers in the text they are to be written in.
#[derive(Debug)]
pub struct NetClass {
    pub name: String,
    pub clearance: String,
    pub trace_width: String,
    pub via_drill: String,
    pub via_diameter: String,
}

/// A `(netclass …)` entry.
pub open spec fn netclass_text(c: NetClass) -> Seq<char> {
    "\n      (netclass \""@ + c.name@ + "\"\n        (clearance "@ + c.clearance@
        + ")\n        (trace_width "@ + c.trace_width@ + ")\n        (via_drill "@ + c.via_drill@
        + ")\n        (via_diameter "@ + c.via_diameter@ + ")\n      )"@
}

/// What creating a net class comes to.
pub open spec fn created_netclass(s: Seq<u8>, c: NetClass, board: Seq<char>) -> Result<
    Seq<u8>,
    Seq<char>,
> {
    match netclass_place(s) {
        None => Err(no_root_text(board)),
        Some(p) => committed(
            s,
            seq![Splice { start: p, end: p, bytes: bytes(netclass_text(c)) }],
            "kicad_pcb"@,
            board,
        ),
    }
}

/// The end of the first balanced block with the tag.
fn find_container(content: &str, tag: &str) -> (r: Option<usize>)
    ensures
        match r {
            Some(e) => container_end(bytes(content@), tag@) == Some(e as int) && e > 0,
            None => container_end(bytes(content@), tag@).is_none(),
        },
{
    let ghost s = bytes(content@);
    let starts = find_block_starts(content, tag);
    let ghost all = block_starts(s, bytes(tag@), s.len() as int);
    let mut k: usize = 0;
    while k < starts.len()
        invariant
            s == bytes(content@),
            all == offsets(starts@),
            all == block_starts(s, bytes(tag@), s.len() as int),
            k <= starts.len(),
            forall|i: int| 0 <= i < starts.len() ==> opens(s, #[trigger] starts[i] as int),
            first_closed(s, all, 0) == first_closed(s, all, k as int),
        decreases starts.len() - k,
    {
        let p = starts[k];
        assert(all[k as int] == p);
        match find_block_end(content, p) {
            Some(e) => {
                return Some(e);
            },
            None => {},
        }
        k += 1;
    }
    None
}

/// Add a net class to the board.
pub fn create_netclass(content: &str, class: &NetClass, board: &str) -> (r: Result<String, String>)
    ensures
        written(r) == created_netclass(bytes(content@), *class, board@),
{
    let place = match find_container(content, "net_classes") {
        Some(e) => Ok(e - 1),
        None => match find_container(content, "net_settings") {
            Some(e) => Ok(e - 1),
            None => root_close_or_error(content, board),
        },
    };
    match place {
        Err(e) => Err(e),
        Ok(p) => {
            let mut text = copy("\n      (netclass \"");
            put(&mut text, class.name.as_str());
            put(&mut text, "\"\n        (clearance ");
            put(&mut text, class.clearance.as_str());
            put(&mut text, ")\n        (trace_width ");
            put(&mut text, class.trace_width.as_str());
            put(&mut text, ")\n        (via_drill ");
            put(&mut text, class.via_drill.as_str());
            put(&mut text, ")\n        (via_diameter ");
            put(&mut text, class.via_diameter.as_str());
            put(&mut text, ")\n      )");
            let ghost b = bytes(text@);
            let mut edits: Vec<SexpEdit> = Vec::new();
            edits.push(SexpEdit::insert(p, text));
            assert(splices(edits@) =~= seq![
                Splice { start: p as int, end: p as int, bytes: b },
            ]);
            commit(content, &edits, "kicad_pcb", board)
        },
    }
}

/// Whether the block at `p` is the net class with the name.
pub open spec fn is_netclass(s: Seq<u8>, p: int, name: Seq<char>) -> bool {
    match block_end(s, p) {
        None => false,
        Some(e) => match parse_text(s.subrange(p, e)) {
            Ok(n) => text_at(n, 1) == Some(name),
            Err(_) => false,
        },
    }
}

/// The first net class from `k` on with the name.
pub open spec fn netclass_index(s: Seq<u8>, starts: Seq<int>, name: Seq<char>, k: int) -> Option<int>
    decreases starts.len() - k,
{
    if k < 0 || k >= starts.len() {
        None
    } else if is_netclass(s, starts[k], name) {
        Some(starts[k])
    } else {
        netclass_index(s, starts, name, k + 1)
    }
}

/// Where the net class with the name opens.
pub open spec fn netclass_at(s: Seq<u8>, name: Seq<char>) -> Option<int> {
    netclass_index(s, block_starts(s, bytes("netclass"@), s.len() as int), name, 0)
}

/// A `(net "NAME")` entry.
pub open spec fn net_member_text(name: Seq<char>) -> Seq<char> {
    "(net \""@ + name + "\")"@
}

/// What assigning a net to a class comes to; `None` where it is assigned already.
pub open spec fn assigned_net(
    s: Seq<u8>,
    net: Seq<char>,
    class: Seq<char>,
    board: Seq<char>,
) -> Result<Option<Seq<u8>>, Seq<char>> {
    match netclass_at(s, class) {
        None => Err("Netclass '"@ + class + "' not found in board file"@),
        Some(p) => {
            let e = block_end(s, p).unwrap() - 1;
            if has(s.subrange(p, e), bytes(net_member_text(net))) {
                Ok(None)
            } else {
                match committed(
                    s,
                    seq![
                        Splice {
                            start: e,
                            end: e,
                            bytes: bytes("\n        "@ + net_member_text(net)),
                        },
                    ],
                    "kicad_pcb"@,
                    board,
                ) {
                    Ok(t) => Ok(Some(t)),
                    Err(x) => Err(x),
                }
            }
        },
    }
}

fn find_netclass(content: &str, name: &str) -> (r: Option<(usize, usize)>)
    ensures
        match r {
            Some((p, e)) => netclass_at(bytes(content@), name@) == Some(p as int) && closes_at(
                bytes(content@),
                p as int,
                e as int,
            ) && block_end(bytes(content@), p as int) == Some(e as int),
            None => netclass_at(bytes(content@), name@).is_none(),
        },
{
    let ghost s = bytes(content@);
    let starts = find_block_starts(content, "netclass");
    let ghost all = block_starts(s, bytes("netclass"@), s.len() as int);
    let mut k: usize = 0;
    while k < starts.len()
        invariant
            s == bytes(content@),
            all == offsets(starts@),
            all == block_starts(s, bytes("netclass"@), s.len() as int),
            k <= starts.len(),
            forall|i: int| 0 <= i < starts.len() ==> opens(s, #[trigger] starts[i] as int),
            netclass_index(s, all, name@, 0) == netclass_index(s, all, name@, k as int),
        decreases starts.len() - k,
    {
        let p = starts[k];
        assert(all[k as int] == p);
        match find_block_end(content, p) {
            Some(e) => {
                proof {
                    lemma_block_cuttable(content@, p as int, e as int);
                }
                match parse_sexp(slice(content, p, e)) {
                    Ok(n) => {
                        let hit = match n.text_at(1) {
                            Some(t) => same(t, name),
                            None => false,
                        };
                        if hit {
                            return Some((p, e));
                        }
                    },
                    Err(_) => {},
                }
            },
            None => {},
        }
        k += 1;
    }
    None
}

/// Assign a net to a net class; `None` where it is assigned already.
pub fn assign_net_to_class(content: &str, net_name: &str, netclass: &str, board: &str) -> (r: Result<
    Option<String>,
    String,
>)
    ensures
        match assigned_net(bytes(content@), net_name@, netclass@, board@) {
            Err(e) => r is Err && r->Err_0@ == e,
            Ok(None) => r matches Ok(None),
            Ok(Some(t)) => r matches Ok(Some(x)) && bytes(x@) == t,
        },
{
    match find_netclass(content, netclass) {
        None => {
            let mut out = copy("Netclass '");
            put(&mut out, netclass);
            put(&mut out, "' not found in board file");
            Err(out)
        },
        Some((p, e)) => {
            proof {
                lemma_block_cuttable(content@, p as int, e as int);
                lemma_ascii_boundary(content@, e - 1);
            }
            let mut member = copy("(net \"");
            put(&mut member, net_name);
            put(&mut member, "\")");
            if contains(slice(content, p, e - 1), member.as_str()) {
                return Ok(None);
            }
            let mut text = copy("\n        ");
            put(&mut text, member.as_str());
            let ghost b = bytes(text@);
            let mut edits: Vec<SexpEdit> = Vec::new();
            edits.push(SexpEdit::insert(e - 1, text));
            assert(splices(edits@) =~= seq![
                Splice { start: e - 1, end: e - 1, bytes: b },
            ]);
            match commit(content, &edits, "kicad_pcb", board) {
                Err(x) => Err(x),
                Ok(t) => Ok(Some(t)),
            }
        },
    }
}

} // verus!
