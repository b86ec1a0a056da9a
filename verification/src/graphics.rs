//! Outlines, text, holes, zones and artwork on a board, and what a board says of
//! itself.

use crate::blocks::quoted;
use crate::chars::{signed_decimal, signed_text, texts};
use crate::copper::{points_text, put_points};
use crate::ident::{is_uuid, new_uuid};
use crate::items::{number_at, point_texts, read_number};
#[allow(unused_imports)]
use crate::net::{first_numbered, int_opt, net_starts, resolve_net, NetRef};
use crate::routing::{parse_fault, parse_fault_text};
#[allow(unused_imports)]
use crate::scan::{
    block_end, block_starts, closes_at, find_block_end, find_block_starts, law_block_starts,
    lemma_block_cuttable, lemma_block_end_is, offsets, tag_opens, CLOSE, OPEN,
};
#[allow(unused_imports)]
use crate::sexp::{
    child_in, child_text, children_in, items_in, lemma_tagged_at, node_refs, parse_sexp, parse_text,
    quoted_text, Sexp, SexpNode,
};
#[allow(unused_imports)]
use crate::text::{
    boundary, bytes, copy, find_byte, first_byte, last_byte, lemma_ascii_boundary,
    lemma_bytes_ascii, lemma_ends, lemma_first_byte, lemma_match_boundary,
    length, put, rfind_byte, slice, slice_from,
};
use vstd::prelude::*;
use vstd::string::*;

verus! {

// ─── Texts of the items ──────────────────────────────────────────────────────

/// A straight line from one corner to another.
pub open spec fn gr_line_text(
    x1: Seq<char>,
    y1: Seq<char>,
    x2: Seq<char>,
    y2: Seq<char>,
    layer: Seq<char>,
    width: Seq<char>,
    uuid: Seq<char>,
) -> Seq<char> {
    "\n  (gr_line\n    (start "@ + x1 + " "@ + y1 + ")\n    (end "@ + x2 + " "@ + y2
        + ")\n    (stroke (width "@ + width + ") (type solid))\n    (layer \""@ + layer
        + "\")\n    (uuid \""@ + uuid + "\")\n  )"@
}

/// A `(gr_line …)`.
pub fn format_gr_line(
    x1: &str,
    y1: &str,
    x2: &str,
    y2: &str,
    layer: &str,
    width: &str,
    uuid: &str,
) -> (r: String)
    ensures
        r@ == gr_line_text(x1@, y1@, x2@, y2@, layer@, width@, uuid@),
{
    let mut out = copy("\n  (gr_line\n    (start ");
    put(&mut out, x1);
    put(&mut out, " ");
    put(&mut out, y1);
    put(&mut out, ")\n    (end ");
    put(&mut out, x2);
    put(&mut out, " ");
    put(&mut out, y2);
    put(&mut out, ")\n    (stroke (width ");
    put(&mut out, width);
    put(&mut out, ") (type solid))\n    (layer \"");
    put(&mut out, layer);
    put(&mut out, "\")\n    (uuid \"");
    put(&mut out, uuid);
    put(&mut out, "\")\n  )");
    out
}

/// A piece of text, with its place, its angle and its size as they are to be
/// written.
#[derive(Debug)]
pub struct NewText {
    pub text: String,
    pub x: String,
    pub y: String,
    pub rotation: String,
    pub layer: String,
    pub size: String,
}

/// A piece of text on a board. Quotes and backslashes in it get a backslash.
pub open spec fn gr_text_text(t: NewText, uuid: Seq<char>) -> Seq<char> {
    "\n  (gr_text "@ + quoted_text(t.text@) + "\n    (at "@ + t.x@ + " "@ + t.y@ + " "@ + t.rotation@
        + ")\n    (layer \""@ + t.layer@ + "\")\n    (effects (font (size "@ + t.size@ + " "@ + t.size@
        + ") (thickness 0.15)))\n    (uuid \""@ + uuid + "\")\n  )"@
}

/// A `(gr_text …)`.
pub fn format_gr_text(t: &NewText, uuid: &str) -> (r: String)
    ensures
        r@ == gr_text_text(*t, uuid@),
{
    let mut out = copy("\n  (gr_text ");
    put(&mut out, quoted(t.text.as_str()).as_str());
    put(&mut out, "\n    (at ");
    put(&mut out, t.x.as_str());
    put(&mut out, " ");
    put(&mut out, t.y.as_str());
    put(&mut out, " ");
    put(&mut out, t.rotation.as_str());
    put(&mut out, ")\n    (layer \"");
    put(&mut out, t.layer.as_str());
    put(&mut out, "\")\n    (effects (font (size ");
    put(&mut out, t.size.as_str());
    put(&mut out, " ");
    put(&mut out, t.size.as_str());
    put(&mut out, ") (thickness 0.15)))\n    (uuid \"");
    put(&mut out, uuid);
    put(&mut out, "\")\n  )");
    out
}

/// A mounting hole: its place, its drill as it is to be written and rounded to
/// one decimal, the pad around it, and how far its texts stand off.
#[derive(Debug)]
pub struct NewHole {
    pub x: String,
    pub y: String,
    pub drill: String,
    pub drill_name: String,
    pub pad_size: String,
    pub offset: String,
    pub reference: String,
}

/// The uuids of a mounting hole's parts.
#[derive(Debug)]
pub struct HoleIds {
    pub footprint: String,
    pub reference: String,
    pub value: String,
    pub pad: String,
}

/// A mounting hole as a footprint with one pad that is not plated.
pub open spec fn npth_text(h: NewHole, ids: HoleIds) -> Seq<char> {
    "\n  (footprint \"MountingHole:MountingHole_"@ + h.drill_name@
        + "mm\"\n    (layer \"F.Cu\")\n    (at "@ + h.x@ + " "@ + h.y@
        + ")\n    (attr exclude_from_pos_files)\n    (property \"Reference\" \""@ + h.reference@
        + "\"\n      (at 0 "@ + h.offset@ + " 0)\n      (layer \"F.SilkS\")\n      (uuid \""@
        + ids.reference@
        + "\")\n    )\n    (property \"Value\" \"MountingHole\"\n      (at 0 -"@ + h.offset@
        + " 0)\n      (layer \"F.Fab\")\n      (uuid \""@ + ids.value@
        + "\")\n    )\n    (pad \"\" np_thru_hole circle (at 0 0) (size "@ + h.pad_size@ + " "@
        + h.pad_size@ + ")\n      (drill "@ + h.drill@
        + ")\n      (layers \"*.Cu\" \"*.Mask\")\n      (uuid \""@ + ids.pad@
        + "\")\n    )\n    (uuid \""@ + ids.footprint@ + "\")\n  )"@
}

/// A mounting hole.
pub fn format_npth_footprint(h: &NewHole, ids: &HoleIds) -> (r: String)
    ensures
        r@ == npth_text(*h, *ids),
{
    let mut out = copy("\n  (footprint \"MountingHole:MountingHole_");
    put(&mut out, h.drill_name.as_str());
    put(&mut out, "mm\"\n    (layer \"F.Cu\")\n    (at ");
    put(&mut out, h.x.as_str());
    put(&mut out, " ");
    put(&mut out, h.y.as_str());
    put(&mut out, ")\n    (attr exclude_from_pos_files)\n    (property \"Reference\" \"");
    put(&mut out, h.reference.as_str());
    put(&mut out, "\"\n      (at 0 ");
    put(&mut out, h.offset.as_str());
    put(&mut out, " 0)\n      (layer \"F.SilkS\")\n      (uuid \"");
    put(&mut out, ids.reference.as_str());
    put(&mut out, "\")\n    )\n    (property \"Value\" \"MountingHole\"\n      (at 0 -");
    put(&mut out, h.offset.as_str());
    put(&mut out, " 0)\n      (layer \"F.Fab\")\n      (uuid \"");
    put(&mut out, ids.value.as_str());
    put(&mut out, "\")\n    )\n    (pad \"\" np_thru_hole circle (at 0 0) (size ");
    put(&mut out, h.pad_size.as_str());
    put(&mut out, " ");
    put(&mut out, h.pad_size.as_str());
    put(&mut out, ")\n      (drill ");
    put(&mut out, h.drill.as_str());
    put(&mut out, ")\n      (layers \"*.Cu\" \"*.Mask\")\n      (uuid \"");
    put(&mut out, ids.pad.as_str());
    put(&mut out, "\")\n    )\n    (uuid \"");
    put(&mut out, ids.footprint.as_str());
    put(&mut out, "\")\n  )");
    out
}

/// A filled zone.
pub open spec fn zone_polygon_text(
    net_id: int,
    net_name: Seq<char>,
    layer: Seq<char>,
    clearance: Seq<char>,
    min_width: Seq<char>,
    pts: Seq<(Seq<char>, Seq<char>)>,
    uuid: Seq<char>,
) -> Seq<char> {
    "\n  (zone (net "@ + signed_decimal(net_id) + ") (net_name \""@ + net_name + "\") (layer \""@ + layer
        + "\") (uuid \""@ + uuid + "\")\n    (hatch edge 0.508)\n    (connect_pads (clearance "@
        + clearance + "))\n    (min_thickness "@ + min_width
        + ")\n    (fill yes (thermal_gap 0.5) (thermal_bridge_width 0.5))\n    (polygon (pts"@
        + points_text(pts, pts.len() as int) + "\n    ))\n  )"@
}

/// A `(zone …)` with thermal reliefs.
pub fn format_zone_polygon(
    net_id: i32,
    net_name: &str,
    layer: &str,
    clearance: &str,
    min_width: &str,
    points: &Vec<(String, String)>,
    uuid: &str,
) -> (r: String)
    ensures
        r@ == zone_polygon_text(
            net_id as int,
            net_name@,
            layer@,
            clearance@,
            min_width@,
            point_texts(points@),
            uuid@,
        ),
{
    let mut out = copy("\n  (zone (net ");
    put(&mut out, signed_text(net_id).as_str());
    put(&mut out, ") (net_name \"");
    put(&mut out, net_name);
    put(&mut out, "\") (layer \"");
    put(&mut out, layer);
    put(&mut out, "\") (uuid \"");
    put(&mut out, uuid);
    put(&mut out, "\")\n    (hatch edge 0.508)\n    (connect_pads (clearance ");
    put(&mut out, clearance);
    put(&mut out, "))\n    (min_thickness ");
    put(&mut out, min_width);
    put(
        &mut out,
        ")\n    (fill yes (thermal_gap 0.5) (thermal_bridge_width 0.5))\n    (polygon (pts",
    );
    put_points(&mut out, points);
    put(&mut out, "\n    ))\n  )");
    out
}

/// A filled polygon that belongs to no net.
pub open spec fn gr_poly_text(
    pts: Seq<(Seq<char>, Seq<char>)>,
    layer: Seq<char>,
    uuid: Seq<char>,
) -> Seq<char> {
    "\n  (gr_poly\n    (pts"@ + points_text(pts, pts.len() as int)
        + "\n    )\n    (stroke (width 0) (type solid))\n    (fill solid)\n    (layer \""@ + layer
        + "\")\n    (uuid \""@ + uuid + "\")\n  )"@
}

/// A standalone filled polygon (`gr_poly`), not tied to a net or a zone fill:
/// imported artwork rather than a copper pour.
pub fn format_gr_poly(points: &Vec<(String, String)>, layer: &str, uuid: &str) -> (r: String)
    ensures
        r@ == gr_poly_text(point_texts(points@), layer@, uuid@),
{
    let mut out = copy("\n  (gr_poly\n    (pts");
    put_points(&mut out, points);
    put(&mut out, "\n    )\n    (stroke (width 0) (type solid))\n    (fill solid)\n    (layer \"");
    put(&mut out, layer);
    put(&mut out, "\")\n    (uuid \"");
    put(&mut out, uuid);
    put(&mut out, "\")\n  )");
    out
}

// ─── Putting them on the board ───────────────────────────────────────────────

/// Where new items go: before the last closing parenthesis, or at the end of a
/// text that has none.
pub open spec fn append_place(s: Seq<u8>) -> int {
    match last_byte(s, CLOSE) {
        Some(p) => p,
        None => s.len() as int,
    }
}

/// The board with `text` put before its last closing parenthesis.
pub open spec fn appended(s: Seq<u8>, text: Seq<char>) -> Seq<u8> {
    s.take(append_place(s)) + bytes(text) + s.skip(append_place(s))
}

fn find_append_place(content: &str) -> (r: usize)
    ensures
        r == append_place(bytes(content@)),
        r <= bytes(content@).len(),
        boundary(bytes(content@), r as int),
{
    match rfind_byte(content, CLOSE) {
        Some(p) => {
            proof {
                lemma_ascii_boundary(content@, p as int);
            }
            p
        },
        None => {
            proof {
                lemma_ends(content@);
            }
            length(content)
        },
    }
}

/// `content` with `text` put at the byte offset `at`.
pub fn insert_at(content: &str, at: usize, text: &str) -> (r: String)
    requires
        at <= bytes(content@).len(),
        boundary(bytes(content@), at as int),
    ensures
        bytes(r@) == bytes(content@).take(at as int) + bytes(text@) + bytes(content@).skip(at as int),
{
    proof {
        lemma_ends(content@);
    }
    let mut out = copy(slice(content, 0, at));
    put(&mut out, text);
    put(&mut out, slice_from(content, at));
    proof {
        let s = bytes(content@);
        assert(s.subrange(0, at as int) =~= s.take(at as int));
        assert(s.subrange(at as int, s.len() as int) =~= s.skip(at as int));
    }
    out
}

/// Put new items before the board's last closing parenthesis.
pub fn append_item(content: &str, text: &str) -> (r: String)
    ensures
        bytes(r@) == appended(bytes(content@), text@),
{
    insert_at(content, find_append_place(content), text)
}

/// The four sides of a rectangle on the board's edge: top, right, bottom, left.
pub open spec fn outline_text(
    x1: Seq<char>,
    y1: Seq<char>,
    x2: Seq<char>,
    y2: Seq<char>,
    ids: Seq<Seq<char>>,
) -> Seq<char> {
    gr_line_text(x1, y1, x2, y1, "Edge.Cuts"@, "0.05"@, ids[0]) + gr_line_text(
        x2,
        y1,
        x2,
        y2,
        "Edge.Cuts"@,
        "0.05"@,
        ids[1],
    ) + gr_line_text(x2, y2, x1, y2, "Edge.Cuts"@, "0.05"@, ids[2]) + gr_line_text(
        x1,
        y2,
        x1,
        y1,
        "Edge.Cuts"@,
        "0.05"@,
        ids[3],
    )
}

/// The board with a rectangle on its edge, its sides under the given uuids.
pub fn add_board_outline_as(
    content: &str,
    x1: &str,
    y1: &str,
    x2: &str,
    y2: &str,
    ids: (&str, &str, &str, &str),
) -> (r: String)
    ensures
        bytes(r@) == appended(
            bytes(content@),
            outline_text(x1@, y1@, x2@, y2@, seq![ids.0@, ids.1@, ids.2@, ids.3@]),
        ),
{
    let mut out = format_gr_line(x1, y1, x2, y1, "Edge.Cuts", "0.05", ids.0);
    put(&mut out, format_gr_line(x2, y1, x2, y2, "Edge.Cuts", "0.05", ids.1).as_str());
    put(&mut out, format_gr_line(x2, y2, x1, y2, "Edge.Cuts", "0.05", ids.2).as_str());
    put(&mut out, format_gr_line(x1, y2, x1, y1, "Edge.Cuts", "0.05", ids.3).as_str());
    append_item(content, out.as_str())
}

/// The board with a rectangle on its edge, and the fresh uuids of its sides.
pub fn add_board_outline(content: &str, x1: &str, y1: &str, x2: &str, y2: &str) -> (r: (
    (String, String, String, String),
    String,
))
    ensures
        is_uuid(r.0.0@),
        is_uuid(r.0.1@),
        is_uuid(r.0.2@),
        is_uuid(r.0.3@),
        bytes(r.1@) == appended(
            bytes(content@),
            outline_text(x1@, y1@, x2@, y2@, seq![r.0.0@, r.0.1@, r.0.2@, r.0.3@]),
        ),
{
    let a = new_uuid();
    let b = new_uuid();
    let c = new_uuid();
    let d = new_uuid();
    let out = add_board_outline_as(
        content,
        x1,
        y1,
        x2,
        y2,
        (a.as_str(), b.as_str(), c.as_str(), d.as_str()),
    );
    ((a, b, c, d), out)
}

/// An arc from one point through a second to a third.
pub open spec fn gr_arc_text(
    from: (Seq<char>, Seq<char>),
    mid: (Seq<char>, Seq<char>),
    to: (Seq<char>, Seq<char>),
    layer: Seq<char>,
    width: Seq<char>,
    uuid: Seq<char>,
) -> Seq<char> {
    "\n  (gr_arc\n    (start "@ + from.0 + " "@ + from.1 + ")\n    (mid "@ + mid.0 + " "@ + mid.1
        + ")\n    (end "@ + to.0 + " "@ + to.1 + ")\n    (stroke (width "@ + width
        + ") (type solid))\n    (layer \""@ + layer + "\")\n    (uuid \""@ + uuid + "\")\n  )"@
}

/// A `(gr_arc …)`.
pub fn format_gr_arc(
    from: (&str, &str),
    mid: (&str, &str),
    to: (&str, &str),
    layer: &str,
    width: &str,
    uuid: &str,
) -> (r: String)
    ensures
        r@ == gr_arc_text(
            (from.0@, from.1@),
            (mid.0@, mid.1@),
            (to.0@, to.1@),
            layer@,
            width@,
            uuid@,
        ),
{
    let mut out = copy("\n  (gr_arc\n    (start ");
    put(&mut out, from.0);
    put(&mut out, " ");
    put(&mut out, from.1);
    put(&mut out, ")\n    (mid ");
    put(&mut out, mid.0);
    put(&mut out, " ");
    put(&mut out, mid.1);
    put(&mut out, ")\n    (end ");
    put(&mut out, to.0);
    put(&mut out, " ");
    put(&mut out, to.1);
    put(&mut out, ")\n    (stroke (width ");
    put(&mut out, width);
    put(&mut out, ") (type solid))\n    (layer \"");
    put(&mut out, layer);
    put(&mut out, "\")\n    (uuid \"");
    put(&mut out, uuid);
    put(&mut out, "\")\n  )");
    out
}

/// A rectangle with rounded corners, its numbers in the text they are to be written in.
#[derive(Debug)]
pub struct RoundedOutline {
    pub x1: String,
    pub y1: String,
    pub x2: String,
    pub y2: String,
    /// Where the straight part of the top and of the bottom begins and ends.
    pub left: String,
    pub right: String,
    /// Where the straight part of the sides begins and ends.
    pub top: String,
    pub bottom: String,
    /// The middles of the corners' arcs.
    pub mid_left: String,
    pub mid_right: String,
    pub mid_top: String,
    pub mid_bottom: String,
}

/// A straight line on the board's edge.
pub open spec fn edge_line(
    from: (Seq<char>, Seq<char>),
    to: (Seq<char>, Seq<char>),
    uuid: Seq<char>,
) -> Seq<char> {
    gr_line_text(from.0, from.1, to.0, to.1, "Edge.Cuts"@, "0.05"@, uuid)
}

/// An arc on the board's edge.
pub open spec fn edge_arc(
    from: (Seq<char>, Seq<char>),
    mid: (Seq<char>, Seq<char>),
    to: (Seq<char>, Seq<char>),
    uuid: Seq<char>,
) -> Seq<char> {
    gr_arc_text(from, mid, to, "Edge.Cuts"@, "0.05"@, uuid)
}

/// The sides and corners of a rounded rectangle on the board's edge, clockwise from the
/// top, each beginning where the one before it ends.
pub open spec fn rounded_text(o: RoundedOutline, ids: Seq<Seq<char>>) -> Seq<char> {
    edge_line((o.left@, o.y1@), (o.right@, o.y1@), ids[0]) + edge_arc(
        (o.right@, o.y1@),
        (o.mid_right@, o.mid_top@),
        (o.x2@, o.top@),
        ids[1],
    ) + edge_line((o.x2@, o.top@), (o.x2@, o.bottom@), ids[2]) + edge_arc(
        (o.x2@, o.bottom@),
        (o.mid_right@, o.mid_bottom@),
        (o.right@, o.y2@),
        ids[3],
    ) + edge_line((o.right@, o.y2@), (o.left@, o.y2@), ids[4]) + edge_arc(
        (o.left@, o.y2@),
        (o.mid_left@, o.mid_bottom@),
        (o.x1@, o.bottom@),
        ids[5],
    ) + edge_line((o.x1@, o.bottom@), (o.x1@, o.top@), ids[6]) + edge_arc(
        (o.x1@, o.top@),
        (o.mid_left@, o.mid_top@),
        (o.left@, o.y1@),
        ids[7],
    )
}

fn put_edge_line(out: &mut String, from: (&str, &str), to: (&str, &str), uuid: &str)
    ensures
        final(out)@ == old(out)@ + edge_line((from.0@, from.1@), (to.0@, to.1@), uuid@),
{
    put(out, format_gr_line(from.0, from.1, to.0, to.1, "Edge.Cuts", "0.05", uuid).as_str());
}

fn put_edge_arc(out: &mut String, from: (&str, &str), mid: (&str, &str), to: (&str, &str), uuid: &str)
    ensures
        final(out)@ == old(out)@ + edge_arc(
            (from.0@, from.1@),
            (mid.0@, mid.1@),
            (to.0@, to.1@),
            uuid@,
        ),
{
    put(out, format_gr_arc(from, mid, to, "Edge.Cuts", "0.05", uuid).as_str());
}

/// The board with a rounded rectangle on its edge, its parts under the given uuids.
pub fn add_rounded_outline_as(content: &str, o: &RoundedOutline, ids: &Vec<String>) -> (r: String)
    requires
        ids@.len() == 8,
    ensures
        bytes(r@) == appended(bytes(content@), rounded_text(*o, texts(ids@))),
{
    let x1 = o.x1.as_str();
    let y1 = o.y1.as_str();
    let x2 = o.x2.as_str();
    let y2 = o.y2.as_str();
    let left = o.left.as_str();
    let right = o.right.as_str();
    let top = o.top.as_str();
    let bottom = o.bottom.as_str();
    let ml = o.mid_left.as_str();
    let mr = o.mid_right.as_str();
    let mt = o.mid_top.as_str();
    let mb = o.mid_bottom.as_str();
    let mut out = String::new();
    put_edge_line(&mut out, (left, y1), (right, y1), ids[0].as_str());
    put_edge_arc(&mut out, (right, y1), (mr, mt), (x2, top), ids[1].as_str());
    put_edge_line(&mut out, (x2, top), (x2, bottom), ids[2].as_str());
    put_edge_arc(&mut out, (x2, bottom), (mr, mb), (right, y2), ids[3].as_str());
    put_edge_line(&mut out, (right, y2), (left, y2), ids[4].as_str());
    put_edge_arc(&mut out, (left, y2), (ml, mb), (x1, bottom), ids[5].as_str());
    put_edge_line(&mut out, (x1, bottom), (x1, top), ids[6].as_str());
    put_edge_arc(&mut out, (x1, top), (ml, mt), (left, y1), ids[7].as_str());
    proof {
        let first = edge_line((o.left@, o.y1@), (o.right@, o.y1@), ids[0]@);
        assert(Seq::<char>::empty() + first =~= first);
        assert forall|i: int| 0 <= i < 8 implies #[trigger] texts(ids@)[i] == ids[i]@ by {}
        assert(out@ == rounded_text(*o, texts(ids@)));
    }
    append_item(content, out.as_str())
}

/// The board with a rounded rectangle on its edge, and the fresh uuids of its parts.
pub fn add_rounded_outline(content: &str, o: &RoundedOutline) -> (r: (Vec<String>, String))
    ensures
        r.0@.len() == 8,
        forall|i: int| 0 <= i < 8 ==> is_uuid((#[trigger] r.0@[i])@),
        bytes(r.1@) == appended(bytes(content@), rounded_text(*o, texts(r.0@))),
{
    let mut ids: Vec<String> = Vec::new();
    while ids.len() < 8
        invariant
            ids@.len() <= 8,
            forall|i: int| 0 <= i < ids@.len() ==> is_uuid((#[trigger] ids@[i])@),
        decreases 8 - ids@.len(),
    {
        ids.push(new_uuid());
    }
    let out = add_rounded_outline_as(content, o, &ids);
    (ids, out)
}

/// The board with a mounting hole, and the fresh uuids of its parts.
pub fn add_mounting_hole(content: &str, hole: &NewHole) -> (r: (HoleIds, String))
    ensures
        is_uuid(r.0.footprint@),
        is_uuid(r.0.reference@),
        is_uuid(r.0.value@),
        is_uuid(r.0.pad@),
        bytes(r.1@) == appended(bytes(content@), npth_text(*hole, r.0)),
{
    let ids = HoleIds {
        footprint: new_uuid(),
        reference: new_uuid(),
        value: new_uuid(),
        pad: new_uuid(),
    };
    let out = append_item(content, format_npth_footprint(hole, &ids).as_str());
    (ids, out)
}

/// The board with a piece of text, and its fresh uuid.
pub fn add_board_text(content: &str, text: &NewText) -> (r: (String, String))
    ensures
        is_uuid(r.0@),
        bytes(r.1@) == appended(bytes(content@), gr_text_text(*text, r.0@)),
{
    let uuid = new_uuid();
    let out = append_item(content, format_gr_text(text, uuid.as_str()).as_str());
    (uuid, out)
}

// ─── Zones ───────────────────────────────────────────────────────────────────

/// The number of a net: that of the first entry `(net N "NAME"` of the board.
pub open spec fn net_number(s: Seq<u8>, name: Seq<char>) -> Option<int> {
    first_numbered(s, net_starts(s), name, 0)
}

/// The number of the net in the board's table.
pub fn find_net_id(content: &str, net_name: &str) -> (r: Option<i32>)
    ensures
        int_opt(r) == net_number(bytes(content@), net_name@),
{
    match resolve_net(content, net_name) {
        Some(NetRef::Numbered(id, _)) => Some(id),
        _ => None,
    }
}

/// A zone to fill, its numbers as they are to be written.
#[derive(Debug)]
pub struct NewZone {
    pub net_name: String,
    pub layer: String,
    pub clearance: String,
    pub min_width: String,
    pub points: Vec<(String, String)>,
}

/// What adding a zone comes to: the number of its net, 0 where the board does not
/// know the net, and the new board.
pub open spec fn added_zone(s: Seq<u8>, z: NewZone, uuid: Seq<char>) -> Result<
    (int, Seq<u8>),
    Seq<char>,
> {
    if z.points@.len() < 3 {
        Err("Zone requires at least 3 points"@)
    } else {
        let id = match net_number(s, z.net_name@) {
            Some(n) => n,
            None => 0,
        };
        Ok(
            (
                id,
                appended(
                    s,
                    zone_polygon_text(
                        id,
                        z.net_name@,
                        z.layer@,
                        z.clearance@,
                        z.min_width@,
                        point_texts(z.points@),
                        uuid,
                    ),
                ),
            ),
        )
    }
}

/// The board with the zone, under the given uuid.
pub fn add_zone_as(content: &str, zone: &NewZone, uuid: &str) -> (r: Result<(i32, String), String>)
    ensures
        match added_zone(bytes(content@), *zone, uuid@) {
            Err(e) => r is Err && r->Err_0@ == e,
            Ok((id, t)) => r matches Ok((i, text)) && i == id && bytes(text@) == t,
        },
{
    if zone.points.len() < 3 {
        return Err(copy("Zone requires at least 3 points"));
    }
    let id: i32 = match find_net_id(content, zone.net_name.as_str()) {
        Some(n) => n,
        None => 0,
    };
    let text = format_zone_polygon(
        id,
        zone.net_name.as_str(),
        zone.layer.as_str(),
        zone.clearance.as_str(),
        zone.min_width.as_str(),
        &zone.points,
        uuid,
    );
    Ok((id, append_item(content, text.as_str())))
}

/// The board with the zone, and the zone's fresh uuid.
pub fn add_zone(content: &str, zone: &NewZone) -> (r: (String, Result<(i32, String), String>))
    ensures
        is_uuid(r.0@),
        match added_zone(bytes(content@), *zone, r.0@) {
            Err(e) => r.1 is Err && r.1->Err_0@ == e,
            Ok((id, t)) => r.1 matches Ok((i, text)) && i == id && bytes(text@) == t,
        },
{
    let uuid = new_uuid();
    let out = add_zone_as(content, zone, uuid.as_str());
    (uuid, out)
}

// ─── Artwork ─────────────────────────────────────────────────────────────────

/// The first `n` polygons of a piece of artwork.
pub open spec fn polygons_text(
    polys: Seq<Vec<(String, String)>>,
    layer: Seq<char>,
    ids: Seq<String>,
    n: int,
) -> Seq<char>
    decreases n,
{
    if n <= 0 {
        Seq::empty()
    } else {
        polygons_text(polys, layer, ids, n - 1) + gr_poly_text(
            point_texts(polys[n - 1]@),
            layer,
            ids[n - 1]@,
        )
    }
}

/// The refusal of artwork with nothing to fill.
pub open spec fn no_paths_text() -> Seq<char> {
    "No fillable paths found in the SVG (only <path> elements are supported)."@
}

/// Refuse artwork with nothing to fill.
pub fn require_paths(polys: &Vec<Vec<(String, String)>>) -> (r: Result<(), String>)
    ensures
        match r {
            Err(e) => polys.len() == 0 && e@ == no_paths_text(),
            Ok(()) => polys.len() > 0,
        },
{
    if polys.len() == 0 {
        Err(copy("No fillable paths found in the SVG (only <path> elements are supported)."))
    } else {
        Ok(())
    }
}

/// The board with the polygons of a piece of artwork, each under its own fresh
/// uuid.
pub fn place_polygons(content: &str, polys: &Vec<Vec<(String, String)>>, layer: &str) -> (r: Result<
    (Vec<String>, String),
    String,
>)
    ensures
        match r {
            Err(e) => polys.len() == 0 && e@ == no_paths_text(),
            Ok((ids, text)) => polys.len() > 0 && ids.len() == polys.len() && (forall|i: int|
                0 <= i < ids.len() ==> is_uuid(#[trigger] ids[i]@)) && bytes(text@) == appended(
                bytes(content@),
                polygons_text(polys@, layer@, ids@, polys.len() as int),
            ),
        },
{
    match require_paths(polys) {
        Err(e) => {
            return Err(e);
        },
        Ok(()) => {},
    }
    let mut ids: Vec<String> = Vec::new();
    let mut out = String::new();
    let mut i: usize = 0;
    while i < polys.len()
        invariant
            i <= polys.len(),
            ids.len() == i,
            forall|k: int| 0 <= k < ids.len() ==> is_uuid(#[trigger] ids[k]@),
            out@ == polygons_text(polys@, layer@, ids@, i as int),
        decreases polys.len() - i,
    {
        let uuid = new_uuid();
        put(&mut out, format_gr_poly(&polys[i], layer, uuid.as_str()).as_str());
        let ghost before = ids@;
        ids.push(uuid);
        proof {
            lemma_polygons_same(polys@, layer@, before, ids@, i as int);
        }
        i += 1;
    }
    Ok((ids, append_item(content, out.as_str())))
}

proof fn lemma_polygons_same(
    polys: Seq<Vec<(String, String)>>,
    layer: Seq<char>,
    a: Seq<String>,
    b: Seq<String>,
    n: int,
)
    requires
        n <= a.len() <= b.len(),
        forall|k: int| 0 <= k < n ==> a[k] == b[k],
    ensures
        polygons_text(polys, layer, a, n) == polygons_text(polys, layer, b, n),
    decreases n,
{
    if n > 0 {
        lemma_polygons_same(polys, layer, a, b, n - 1);
    }
}

/// Whatever is appended, the board keeps every byte it had, in order, and the new
/// text stands before its last closing parenthesis.
pub proof fn law_append_keeps_the_board(s: Seq<u8>, text: Seq<char>)
    ensures
        0 <= append_place(s) <= s.len(),
        appended(s, text).take(append_place(s)) == s.take(append_place(s)),
        appended(s, text).skip(append_place(s) + bytes(text).len()) == s.skip(append_place(s)),
        appended(s, text).len() == s.len() + bytes(text).len(),
{
    crate::text::lemma_last_byte(s, CLOSE);
    let p = append_place(s);
    assert(appended(s, text).take(p) =~= s.take(p));
    assert(appended(s, text).skip(p + bytes(text).len()) =~= s.skip(p));
}

// ─── The active layer ────────────────────────────────────────────────────────

/// The first block with the tag, where it closes.
pub open spec fn first_block(s: Seq<u8>, tag: Seq<u8>) -> Option<(int, int)> {
    let starts = block_starts(s, tag, s.len() as int);
    if starts.len() == 0 {
        None
    } else {
        match block_end(s, starts[0]) {
            Some(e) => Some((starts[0], e)),
            None => None,
        }
    }
}

/// Where a new `active_layer` entry goes: at the first line end inside the setup, or
/// behind its tag where it stands on one line; without a setup, before the last closing
/// parenthesis, else at the end.
pub open spec fn setup_place(s: Seq<u8>) -> int {
    match first_block(s, bytes("setup"@)) {
        Some((p, e)) => match first_byte(s.take(e), 0x0a, p) {
            Some(n) => n,
            None => p + 6,
        },
        None => append_place(s),
    }
}

/// The entry that names the active layer.
pub open spec fn active_layer_text(layer: Seq<char>) -> Seq<char> {
    "(active_layer \""@ + layer + "\")"@
}

/// The board with another active layer.
pub open spec fn with_active_layer(s: Seq<u8>, layer: Seq<char>) -> Seq<u8> {
    match first_block(s, bytes("active_layer"@)) {
        Some((p, e)) => s.take(p) + bytes(active_layer_text(layer)) + s.skip(e),
        None => s.take(setup_place(s)) + bytes("\n    "@ + active_layer_text(layer)) + s.skip(
            setup_place(s),
        ),
    }
}

fn find_first_block(content: &str, tag: &str) -> (r: Option<(usize, usize)>)
    ensures
        match r {
            Some((p, e)) => first_block(bytes(content@), bytes(tag@)) == Some((p as int, e as int))
                && closes_at(bytes(content@), p as int, e as int) && tag_opens(
                bytes(content@),
                p as int,
                bytes(tag@),
            ),
            None => first_block(bytes(content@), bytes(tag@)).is_none(),
        },
{
    let starts = find_block_starts(content, tag);
    let ghost all = offsets(starts@);
    if starts.len() == 0 {
        return None;
    }
    assert(all[0] == starts[0]);
    match find_block_end(content, starts[0]) {
        Some(e) => Some((starts[0], e)),
        None => None,
    }
}

/// The first line end inside the setup at `p`, else the place behind its tag.
fn find_setup_place(content: &str, p: usize, e: usize) -> (r: usize)
    requires
        closes_at(bytes(content@), p as int, e as int),
        p + 6 <= bytes(content@).len(),
        boundary(bytes(content@), p + 6),
    ensures
        r == match first_byte(bytes(content@).take(e as int), 0x0a, p as int) {
            Some(n) => n,
            None => p + 6,
        },
        r <= bytes(content@).len(),
        boundary(bytes(content@), r as int),
{
    let n = length(content);
    assert(p + 6 <= n);
    proof {
        lemma_block_cuttable(content@, p as int, e as int);
        lemma_ends(content@);
        assert(bytes(content@).subrange(0, e as int) =~= bytes(content@).take(e as int));
    }
    match find_byte(slice(content, 0, e), 0x0a, p) {
        Some(n) => {
            proof {
                lemma_ascii_boundary(content@, n as int);
            }
            n
        },
        None => p + 6,
    }
}

/// Set the layer that the board opens on, which its setup names.
pub fn set_active_layer(content: &str, layer: &str) -> (r: String)
    ensures
        bytes(r@) == with_active_layer(bytes(content@), layer@),
{
    let ghost s = bytes(content@);
    let mut entry = copy("(active_layer \"");
    put(&mut entry, layer);
    put(&mut entry, "\")");
    match find_first_block(content, "active_layer") {
        Some((p, e)) => {
            proof {
                lemma_block_cuttable(content@, p as int, e as int);
                lemma_ends(content@);
            }
            let mut out = copy(slice(content, 0, p));
            put(&mut out, entry.as_str());
            put(&mut out, slice_from(content, e));
            proof {
                assert(s.subrange(0, p as int) =~= s.take(p as int));
                assert(s.subrange(e as int, s.len() as int) =~= s.skip(e as int));
            }
            out
        },
        None => {
            let at = match find_first_block(content, "setup") {
                Some((p, e)) => {
                    proof {
                        reveal_strlit("setup");
                        lemma_bytes_ascii("setup"@);
                        lemma_match_boundary(content@, p + 1, "setup"@);
                    }
                    find_setup_place(content, p, e)
                },
                None => find_append_place(content),
            };
            let mut text = copy("\n    ");
            put(&mut text, entry.as_str());
            insert_at(content, at, text.as_str())
        },
    }
}

/// Where the board has no such entry yet, the entry goes into its setup; every byte that
/// the board had stays, in order.
pub proof fn law_active_layer_is_in_the_setup(s: Seq<u8>, layer: Seq<char>, p: int, e: int)
    requires
        first_block(s, bytes("active_layer"@)).is_none(),
        first_block(s, bytes("setup"@)) == Some((p, e)),
    ensures
        p < setup_place(s) < e,
        with_active_layer(s, layer) == s.take(setup_place(s)) + bytes(
            "\n    "@ + active_layer_text(layer),
        ) + s.skip(setup_place(s)),
{
    let tag = bytes("setup"@);
    reveal_strlit("setup");
    lemma_bytes_ascii("setup"@);
    law_block_starts(s, tag, s.len() as int);
    assert(block_starts(s, tag, s.len() as int).contains(p));
    lemma_block_end_is(s, p);
    let w = s.subrange(p + 1, p + 6);
    assert(w == tag);
    if e <= p + 6 {
        assert(s[e - 1] == w[e - 1 - (p + 1)]);
        assert(tag[e - 1 - (p + 1)] == CLOSE);
        assert(false);
    }
    lemma_first_byte(s.take(e), 0x0a, p);
    assert(s[p] == OPEN);
    assert(s[e - 1] == CLOSE);
}

// ─── What a board says of itself ─────────────────────────────────────────────

/// What a board says of itself.
#[derive(Debug)]
pub struct BoardInfo {
    pub title: String,
    pub date: String,
    pub revision: String,
    pub company: String,
    pub paper: String,
    pub layer_count: usize,
    pub net_count: usize,
}

/// A field of the title block, or nothing.
pub open spec fn title_field(tree: Sexp, tag: Seq<char>) -> Seq<char> {
    match child_in(tree, "title_block"@) {
        Some(b) => match child_text(b, tag) {
            Some(t) => t,
            None => ""@,
        },
        None => ""@,
    }
}

/// The paper, A4 unless the board names another.
pub open spec fn paper_of(tree: Sexp) -> Seq<char> {
    match child_text(tree, "paper"@) {
        Some(t) => t,
        None => "A4"@,
    }
}

/// How many rows the layer table has.
pub open spec fn layer_count(tree: Sexp) -> int {
    match child_in(tree, "layers"@) {
        Some(n) => items_in(n).len() - 1,
        None => 0,
    }
}

/// How many nets the board declares, beside the one without a name.
pub open spec fn net_count(tree: Sexp) -> int {
    let n = children_in(tree, "net"@).len();
    if n == 0 {
        0
    } else {
        n - 1
    }
}

/// What the board says of itself.
pub open spec fn info_of(i: BoardInfo, tree: Sexp) -> bool {
    &&& i.title@ == title_field(tree, "title"@)
    &&& i.date@ == title_field(tree, "date"@)
    &&& i.revision@ == title_field(tree, "rev"@)
    &&& i.company@ == title_field(tree, "company"@)
    &&& i.paper@ == paper_of(tree)
    &&& i.layer_count == layer_count(tree)
    &&& i.net_count == net_count(tree)
}

fn read_title_field(tree: &SexpNode, tag: &str) -> (r: String)
    ensures
        r@ == title_field(tree.model(), tag@),
{
    match tree.find("title_block") {
        Some(b) => match b.find_str(tag) {
            Some(t) => copy(t),
            None => copy(""),
        },
        None => copy(""),
    }
}

/// Read what a board says of itself.
pub fn board_info(content: &str) -> (r: Result<BoardInfo, String>)
    ensures
        match parse_text(bytes(content@)) {
            Err(e) => r is Err && r->Err_0@ == parse_fault_text(e),
            Ok(tree) => r is Ok && info_of(r->Ok_0, tree),
        },
{
    let tree = match parse_sexp(content) {
        Err(e) => {
            return Err(parse_fault(e));
        },
        Ok(t) => t,
    };
    let paper = match tree.find_str("paper") {
        Some(t) => copy(t),
        None => copy("A4"),
    };
    let layer_count: usize = match tree.find("layers") {
        Some(n) => {
            proof {
                lemma_tagged_at(items_in(tree.model()), "layers"@, 0);
            }
            n.count() - 1
        },
        None => 0,
    };
    let nets = tree.find_all("net");
    let net_count: usize = if nets.len() == 0 {
        0
    } else {
        nets.len() - 1
    };
    Ok(
        BoardInfo {
            title: read_title_field(&tree, "title"),
            date: read_title_field(&tree, "date"),
            revision: read_title_field(&tree, "rev"),
            company: read_title_field(&tree, "company"),
            paper,
            layer_count,
            net_count,
        },
    )
}

/// A point as two numbers in the file's own text.
pub open spec fn point_of(n: Sexp) -> Option<(Seq<char>, Seq<char>)> {
    match (number_at(n, 1), number_at(n, 2)) {
        (Some(x), Some(y)) => Some((x, y)),
        _ => None,
    }
}

/// The ends of the first `n` lines, where both can be read.
pub open spec fn line_points(lines: Seq<Sexp>, n: int) -> Seq<(Seq<char>, Seq<char>)>
    decreases n,
{
    if n <= 0 {
        Seq::empty()
    } else {
        let l = lines[n - 1];
        match (child_in(l, "start"@), child_in(l, "end"@)) {
            (Some(a), Some(b)) => match (point_of(a), point_of(b)) {
                (Some(p), Some(q)) => line_points(lines, n - 1).push(p).push(q),
                _ => line_points(lines, n - 1),
            },
            _ => line_points(lines, n - 1),
        }
    }
}

/// The places of the first `n` footprints, where they can be read.
pub open spec fn footprint_points(fps: Seq<Sexp>, n: int) -> Seq<(Seq<char>, Seq<char>)>
    decreases n,
{
    if n <= 0 {
        Seq::empty()
    } else {
        match child_in(fps[n - 1], "at"@) {
            Some(a) => match point_of(a) {
                Some(p) => footprint_points(fps, n - 1).push(p),
                None => footprint_points(fps, n - 1),
            },
            None => footprint_points(fps, n - 1),
        }
    }
}

/// The points that a board's extents are taken over: the ends of its lines, then
/// the places of its footprints.
pub open spec fn extent_points(tree: Sexp) -> Seq<(Seq<char>, Seq<char>)> {
    let lines = children_in(tree, "gr_line"@);
    let fps = children_in(tree, "footprint"@);
    line_points(lines, lines.len() as int) + footprint_points(fps, fps.len() as int)
}

fn read_point(node: &SexpNode) -> (r: Option<(String, String)>)
    ensures
        match r {
            Some(p) => point_of(node.model()) == Some((p.0@, p.1@)),
            None => point_of(node.model()).is_none(),
        },
{
    match (read_number(node, 1), read_number(node, 2)) {
        (Some(x), Some(y)) => Some((x, y)),
        _ => None,
    }
}

/// Collect the points that a board's extents are taken over.
pub fn board_points(content: &str) -> (r: Result<Vec<(String, String)>, String>)
    ensures
        match parse_text(bytes(content@)) {
            Err(e) => r is Err && r->Err_0@ == parse_fault_text(e),
            Ok(tree) => r is Ok && point_texts(r->Ok_0@) == extent_points(tree),
        },
{
    let tree = match parse_sexp(content) {
        Err(e) => {
            return Err(parse_fault(e));
        },
        Ok(t) => t,
    };
    let ghost lines = children_in(tree.model(), "gr_line"@);
    let ghost fps = children_in(tree.model(), "footprint"@);
    let mut out: Vec<(String, String)> = Vec::new();
    let found = tree.find_all("gr_line");
    assert(point_texts(out@) =~= line_points(lines, 0));
    let mut i: usize = 0;
    while i < found.len()
        invariant
            i <= found.len(),
            node_refs(found@) == lines,
            point_texts(out@) == line_points(lines, i as int),
        decreases found.len() - i,
    {
        let line = found[i];
        assert(line.model() == lines[i as int]);
        match (line.find("start"), line.find("end")) {
            (Some(a), Some(b)) => match (read_point(a), read_point(b)) {
                (Some(p), Some(q)) => {
                    let ghost was = point_texts(out@);
                    let ghost pp = (p.0@, p.1@);
                    let ghost qq = (q.0@, q.1@);
                    out.push(p);
                    out.push(q);
                    assert(point_texts(out@) =~= was.push(pp).push(qq));
                },
                _ => {},
            },
            _ => {},
        }
        i += 1;
    }
    let found_fps = tree.find_all("footprint");
    let ghost head = point_texts(out@);
    assert(head + footprint_points(fps, 0) =~= head);
    let mut k: usize = 0;
    while k < found_fps.len()
        invariant
            k <= found_fps.len(),
            node_refs(found_fps@) == fps,
            point_texts(out@) == head + footprint_points(fps, k as int),
        decreases found_fps.len() - k,
    {
        let fp = found_fps[k];
        assert(fp.model() == fps[k as int]);
        match fp.find("at") {
            Some(a) => match read_point(a) {
                Some(p) => {
                    let ghost was = footprint_points(fps, k as int);
                    let ghost before = point_texts(out@);
                    let ghost pp = (p.0@, p.1@);
                    out.push(p);
                    assert(point_texts(out@) =~= before.push(pp));
                    assert(point_texts(out@) =~= head + was.push(pp));
                },
                None => {},
            },
            None => {},
        }
        k += 1;
    }
    Ok(out)
}

} // verus!
