//! Writing nets, tracks, vias and pours to a board.

use crate::board_file::{commit, committed, no_root_text, root_close, root_close_or_error, written};
use crate::chars::{int_value, parse_int, signed_decimal, signed_text};
use crate::edit::{splices, SexpEdit, Splice};
use crate::ident::{is_uuid, new_uuid};
#[allow(unused_imports)]
use crate::net::{
    net_digits, net_field, net_not_found_error, net_not_found_text, net_on_board, net_starts, net_tail,
    resolve_net, Net, NetRef,
};
#[allow(unused_imports)]
use crate::pads::{find_pad_net, pad_net};
#[allow(unused_imports)]
use crate::scan::{find_block_starts, offsets, opens, tag_opens, QUOTE};
#[allow(unused_imports)]
use crate::sexp::{parse_sexp, parse_text, string_opt, ParseError};
#[allow(unused_imports)]
use crate::text::{byte_at, bytes, copy, lemma_ends, length, put, same, slice};
use crate::fields::{
    pair_field, put_pair_field, put_text_field, put_word_field, text_field, word_field,
};
use vstd::prelude::*;
use vstd::string::*;

verus! {

// ─── Putting a new item on a board ───────────────────────────────────────────

/// The board with `text` put before the root's closing parenthesis, or the reason
/// to write nothing.
pub open spec fn with_item(s: Seq<u8>, text: Seq<char>, board: Seq<char>) -> Result<
    Seq<u8>,
    Seq<char>,
> {
    match root_close(s) {
        None => Err(no_root_text(board)),
        Some(p) => committed(
            s,
            seq![Splice { start: p, end: p, bytes: bytes(text) }],
            "kicad_pcb"@,
            board,
        ),
    }
}

/// The board with `text` put before the root's closing parenthesis.
pub fn insert_item(content: &str, text: String, board: &str) -> (r: Result<String, String>)
    ensures
        written(r) == with_item(bytes(content@), text@, board@),
{
    match root_close_or_error(content, board) {
        Err(e) => Err(e),
        Ok(p) => {
            let ghost t = text@;
            let mut edits: Vec<SexpEdit> = Vec::new();
            edits.push(SexpEdit::insert(p, text));
            assert(splices(edits@) =~= seq![
                Splice { start: p as int, end: p as int, bytes: bytes(t) },
            ]);
            commit(content, &edits, "kicad_pcb", board)
        },
    }
}

/// An item put on a net of a board.
#[derive(Debug)]
pub struct Routed {
    /// The net, in the board's own form.
    pub net: NetRef,
    /// The new board.
    pub content: String,
}

/// A routed item as a value.
pub open spec fn routed(r: Result<Routed, String>) -> Result<(Net, Seq<u8>), Seq<char>> {
    match r {
        Ok(o) => Ok((o.net.model(), bytes(o.content@))),
        Err(e) => Err(e@),
    }
}

/// The net and the board, or the reason to write nothing.
pub open spec fn on_net(n: Net, t: Result<Seq<u8>, Seq<char>>) -> Result<
    (Net, Seq<u8>),
    Seq<char>,
> {
    match t {
        Ok(b) => Ok((n, b)),
        Err(e) => Err(e),
    }
}

// ─── Nets ────────────────────────────────────────────────────────────────────

/// The code that the entry at `p` declares: digits with a quoted name after
/// them.
pub open spec fn declared_code(s: Seq<u8>, p: int) -> Option<int> {
    let tail = net_tail(s, p);
    if net_digits(s, p).len() > 0 && tail.len() > 0 && tail[0] == QUOTE {
        int_value(net_digits(s, p))
    } else {
        None
    }
}

/// The highest code that the first `n` entries declare.
pub open spec fn highest_code(s: Seq<u8>, starts: Seq<int>, n: int) -> Option<int>
    decreases n,
{
    if n <= 0 {
        None
    } else {
        match (highest_code(s, starts, n - 1), declared_code(s, starts[n - 1])) {
            (Some(h), Some(c)) => Some(
                if c > h {
                    c
                } else {
                    h
                },
            ),
            (Some(h), None) => Some(h),
            (None, c) => c,
        }
    }
}

/// What adding a net comes to.
#[derive(Debug)]
pub enum AddedNet {
    /// The board has the net already.
    Exists(NetRef),
    /// The net's new code and the board with its entry.
    Added(i32, String),
}

/// The refusal to add a net to a board without a table.
pub open spec fn no_table_text(name: Seq<char>) -> Seq<char> {
    "This board has no numeric net table — KiCAD 10 derives nets from the pads that reference them, so '"@
        + name
        + "' cannot be added as a standalone entry. Assign the net to a pad (or import the netlist from the schematic) instead."@
}

/// The refusal to add a net when the highest code is in use.
pub open spec fn codes_used_up_text(name: Seq<char>) -> Seq<char> {
    "Net '"@ + name
        + "' cannot be added: the board already uses the highest net code. Nothing was written."@
}

/// The entry of a new net.
pub open spec fn net_entry_text(code: int, name: Seq<char>) -> Seq<char> {
    "\n  (net "@ + signed_decimal(code) + " \""@ + name + "\")"@
}

/// What adding a net comes to: nothing where the board has it, else an entry with
/// the next code where the board has a table.
pub open spec fn added_net(s: Seq<u8>, name: Seq<char>, board: Seq<char>) -> Result<
    (Option<Net>, int, Seq<u8>),
    Seq<char>,
> {
    match net_on_board(s, name) {
        Some(n) => Ok((Some(n), 0, s)),
        None => match highest_code(s, net_starts(s), net_starts(s).len() as int) {
            None => Err(no_table_text(name)),
            Some(h) => if h >= i32::MAX {
                Err(codes_used_up_text(name))
            } else {
                match with_item(s, net_entry_text(h + 1, name), board) {
                    Err(e) => Err(e),
                    Ok(t) => Ok((None, h + 1, t)),
                }
            },
        },
    }
}

fn read_declared_code(content: &str, p: usize) -> (r: Option<i32>)
    requires
        opens(bytes(content@), p as int),
        tag_opens(bytes(content@), p as int, bytes("net"@)),
    ensures
        crate::net::int_opt(r) == declared_code(bytes(content@), p as int),
{
    let head = crate::net::entry_head(content, p);
    let (d, tail) = crate::net::entry_tail(head);
    if d > 0 && length(tail) > 0 && byte_at(tail, 0) == QUOTE {
        proof {
            lemma_ends(head@);
        }
        parse_int(slice(head, 0, d))
    } else {
        None
    }
}

fn find_highest_code(content: &str) -> (r: Option<i32>)
    ensures
        crate::net::int_opt(r) == highest_code(
            bytes(content@),
            net_starts(bytes(content@)),
            net_starts(bytes(content@)).len() as int,
        ),
{
    let ghost s = bytes(content@);
    let starts = find_block_starts(content, "net");
    let ghost all = net_starts(s);
    let mut best: Option<i32> = None;
    let mut k: usize = 0;
    while k < starts.len()
        invariant
            s == bytes(content@),
            all == net_starts(s),
            all == offsets(starts@),
            k <= starts.len(),
            forall|i: int|
                0 <= i < starts.len() ==> opens(s, #[trigger] starts[i] as int) && tag_opens(
                    s,
                    starts[i] as int,
                    bytes("net"@),
                ),
            crate::net::int_opt(best) == highest_code(s, all, k as int),
        decreases starts.len() - k,
    {
        let p = starts[k];
        assert(all[k as int] == p);
        match read_declared_code(content, p) {
            Some(c) => {
                best = match best {
                    Some(h) => if c > h {
                        Some(c)
                    } else {
                        Some(h)
                    },
                    None => Some(c),
                };
            },
            None => {},
        }
        k += 1;
    }
    best
}

/// Add a net to the board's numbered table.
///
/// A board without a table derives its nets from the pads that name them, so
/// there is nothing to add there.
pub fn add_net(content: &str, net_name: &str, board: &str) -> (r: Result<AddedNet, String>)
    ensures
        match added_net(bytes(content@), net_name@, board@) {
            Err(e) => r is Err && r->Err_0@ == e,
            Ok((Some(n), _, _)) => r matches Ok(AddedNet::Exists(m)) && m.model() == n,
            Ok((None, code, t)) => r matches Ok(AddedNet::Added(c, text)) && c == code && bytes(text@) == t,
        },
{
    match resolve_net(content, net_name) {
        Some(n) => {
            return Ok(AddedNet::Exists(n));
        },
        None => {},
    }
    match find_highest_code(content) {
        None => {
            let mut out = copy(
                "This board has no numeric net table — KiCAD 10 derives nets from the pads that reference them, so '",
            );
            put(&mut out, net_name);
            put(
                &mut out,
                "' cannot be added as a standalone entry. Assign the net to a pad (or import the netlist from the schematic) instead.",
            );
            Err(out)
        },
        Some(h) => {
            if h == i32::MAX {
                let mut out = copy("Net '");
                put(&mut out, net_name);
                put(
                    &mut out,
                    "' cannot be added: the board already uses the highest net code. Nothing was written.",
                );
                return Err(out);
            }
            let code: i32 = h + 1;
            let mut text = copy("\n  (net ");
            put(&mut text, signed_text(code).as_str());
            put(&mut text, " \"");
            put(&mut text, net_name);
            put(&mut text, "\")");
            match insert_item(content, text, board) {
                Err(e) => Err(e),
                Ok(t) => Ok(AddedNet::Added(code, t)),
            }
        },
    }
}

// ─── Tracks ──────────────────────────────────────────────────────────────────

/// The ends of a straight track, in the text they are to be written in.
#[derive(Debug)]
pub struct Leg {
    pub x1: String,
    pub y1: String,
    pub x2: String,
    pub y2: String,
}

/// A track's ends as a value.
pub struct Line {
    pub x1: Seq<char>,
    pub y1: Seq<char>,
    pub x2: Seq<char>,
    pub y2: Seq<char>,
}

impl Leg {
    pub open spec fn model(&self) -> Line {
        Line { x1: self.x1@, y1: self.y1@, x2: self.x2@, y2: self.y2@ }
    }
}

/// A `(segment …)` as KiCAD 10 writes it.
pub open spec fn segment_text(
    net: Net,
    layer: Seq<char>,
    width: Seq<char>,
    l: Line,
    uuid: Seq<char>,
) -> Seq<char> {
    "(segment"@ + "\n\t\t"@ + pair_field("start"@, l.x1, l.y1) + "\n\t\t"@ + pair_field(
        "end"@,
        l.x2,
        l.y2,
    ) + "\n\t\t"@ + word_field("width"@, width) + "\n\t\t"@ + text_field("layer"@, layer) + "\n\t\t"@
        + net.track_field() + "\n\t\t"@ + text_field("uuid"@, uuid) + "\n\t"@ + ")"@
}

/// A `(segment …)` in the board's own net convention.
pub fn format_segment(net: &NetRef, layer: &str, width: &str, leg: &Leg, uuid: &str) -> (r: String)
    ensures
        r@ == segment_text(net.model(), layer@, width@, leg.model(), uuid@),
{
    let mut out = copy("(segment");
    put(&mut out, "\n\t\t");
    put_pair_field(&mut out, "start", leg.x1.as_str(), leg.y1.as_str());
    put(&mut out, "\n\t\t");
    put_pair_field(&mut out, "end", leg.x2.as_str(), leg.y2.as_str());
    put(&mut out, "\n\t\t");
    put_word_field(&mut out, "width", width);
    put(&mut out, "\n\t\t");
    put_text_field(&mut out, "layer", layer);
    put(&mut out, "\n\t\t");
    put(&mut out, net_field(net).as_str());
    put(&mut out, "\n\t\t");
    put_text_field(&mut out, "uuid", uuid);
    put(&mut out, "\n\t");
    put(&mut out, ")");
    out
}

/// A `(segment …)` as a new top-level item: on a line of its own, indented once.
pub open spec fn top_level_segment_text(
    net: Net,
    layer: Seq<char>,
    width: Seq<char>,
    l: Line,
    uuid: Seq<char>,
) -> Seq<char> {
    "\n\t"@ + segment_text(net, layer, width, l, uuid)
}

/// A `(segment …)` as a new top-level item.
pub fn top_level_segment(net: &NetRef, layer: &str, width: &str, leg: &Leg, uuid: &str) -> (r: String)
    ensures
        r@ == top_level_segment_text(net.model(), layer@, width@, leg.model(), uuid@),
{
    let mut out = copy("\n\t");
    put(&mut out, format_segment(net, layer, width, leg, uuid).as_str());
    out
}

/// What routing one track comes to.
pub open spec fn routed_trace(
    s: Seq<u8>,
    name: Seq<char>,
    layer: Seq<char>,
    width: Seq<char>,
    l: Line,
    uuid: Seq<char>,
    board: Seq<char>,
) -> Result<(Net, Seq<u8>), Seq<char>> {
    match net_on_board(s, name) {
        None => Err(net_not_found_text(s, name)),
        Some(n) => on_net(n, with_item(s, top_level_segment_text(n, layer, width, l, uuid), board)),
    }
}

/// Put a track with the given uuid on the board.
///
/// A track that resolves to no net is copper connected to nothing, which is an
/// error here rather than a silent net 0.
pub fn route_trace_as(
    content: &str,
    net_name: &str,
    layer: &str,
    width: &str,
    leg: &Leg,
    uuid: &str,
    board: &str,
) -> (r: Result<Routed, String>)
    ensures
        routed(r) == routed_trace(
            bytes(content@),
            net_name@,
            layer@,
            width@,
            leg.model(),
            uuid@,
            board@,
        ),
{
    match resolve_net(content, net_name) {
        None => Err(net_not_found_error(content, net_name)),
        Some(net) => {
            let text = top_level_segment(&net, layer, width, leg, uuid);
            match insert_item(content, text, board) {
                Err(e) => Err(e),
                Ok(content) => Ok(Routed { net, content }),
            }
        },
    }
}

/// Put a track on the board, with a fresh uuid.
pub fn route_trace(
    content: &str,
    net_name: &str,
    layer: &str,
    width: &str,
    leg: &Leg,
    board: &str,
) -> (r: (String, Result<Routed, String>))
    ensures
        is_uuid(r.0@),
        routed(r.1) == routed_trace(
            bytes(content@),
            net_name@,
            layer@,
            width@,
            leg.model(),
            r.0@,
            board@,
        ),
{
    let uuid = new_uuid();
    let out = route_trace_as(content, net_name, layer, width, leg, uuid.as_str(), board);
    (uuid, out)
}

// ─── Differential pairs ──────────────────────────────────────────────────────

/// What routing a differential pair comes to: both tracks, or neither.
pub open spec fn routed_pair(
    s: Seq<u8>,
    pos: Seq<char>,
    neg: Seq<char>,
    layer: Seq<char>,
    width: Seq<char>,
    lp: Line,
    ln: Line,
    up: Seq<char>,
    un: Seq<char>,
    board: Seq<char>,
) -> Result<(Net, Net, Seq<u8>), Seq<char>> {
    match net_on_board(s, pos) {
        None => Err(net_not_found_text(s, pos)),
        Some(np) => match net_on_board(s, neg) {
            None => Err(net_not_found_text(s, neg)),
            Some(nn) => match with_item(
                s,
                top_level_segment_text(np, layer, width, lp, up) + top_level_segment_text(
                    nn,
                    layer,
                    width,
                    ln,
                    un,
                ),
                board,
            ) {
                Ok(t) => Ok((np, nn, t)),
                Err(e) => Err(e),
            },
        },
    }
}

/// A differential pair put on a board.
#[derive(Debug)]
pub struct RoutedPair {
    pub net_pos: NetRef,
    pub net_neg: NetRef,
    pub content: String,
}

/// A routed pair as a value.
pub open spec fn routed_both(r: Result<RoutedPair, String>) -> Result<
    (Net, Net, Seq<u8>),
    Seq<char>,
> {
    match r {
        Ok(o) => Ok((o.net_pos.model(), o.net_neg.model(), bytes(o.content@))),
        Err(e) => Err(e@),
    }
}

/// Put both tracks of a differential pair on the board, with the given uuids.
///
/// Both nets must resolve before either track is written: half a pair is worse
/// than none.
pub fn route_diff_pair_as(
    content: &str,
    net_pos: &str,
    net_neg: &str,
    layer: &str,
    width: &str,
    leg_pos: &Leg,
    leg_neg: &Leg,
    uuid_pos: &str,
    uuid_neg: &str,
    board: &str,
) -> (r: Result<RoutedPair, String>)
    ensures
        routed_both(r) == routed_pair(
            bytes(content@),
            net_pos@,
            net_neg@,
            layer@,
            width@,
            leg_pos.model(),
            leg_neg.model(),
            uuid_pos@,
            uuid_neg@,
            board@,
        ),
{
    let np = match resolve_net(content, net_pos) {
        None => {
            return Err(net_not_found_error(content, net_pos));
        },
        Some(n) => n,
    };
    let nn = match resolve_net(content, net_neg) {
        None => {
            return Err(net_not_found_error(content, net_neg));
        },
        Some(n) => n,
    };
    let mut text = top_level_segment(&np, layer, width, leg_pos, uuid_pos);
    put(&mut text, top_level_segment(&nn, layer, width, leg_neg, uuid_neg).as_str());
    match insert_item(content, text, board) {
        Err(e) => Err(e),
        Ok(content) => Ok(RoutedPair { net_pos: np, net_neg: nn, content }),
    }
}

/// Put both tracks of a differential pair on the board, with fresh uuids.
pub fn route_diff_pair(
    content: &str,
    net_pos: &str,
    net_neg: &str,
    layer: &str,
    width: &str,
    leg_pos: &Leg,
    leg_neg: &Leg,
    board: &str,
) -> (r: (String, String, Result<RoutedPair, String>))
    ensures
        is_uuid(r.0@),
        is_uuid(r.1@),
        routed_both(r.2) == routed_pair(
            bytes(content@),
            net_pos@,
            net_neg@,
            layer@,
            width@,
            leg_pos.model(),
            leg_neg.model(),
            r.0@,
            r.1@,
            board@,
        ),
{
    let up = new_uuid();
    let un = new_uuid();
    let out = route_diff_pair_as(
        content,
        net_pos,
        net_neg,
        layer,
        width,
        leg_pos,
        leg_neg,
        up.as_str(),
        un.as_str(),
        board,
    );
    (up, un, out)
}

// ─── From pad to pad ─────────────────────────────────────────────────────────

/// The refusal to join two nets.
pub open spec fn short_text(
    ref1: Seq<char>,
    pad1: Seq<char>,
    a: Seq<char>,
    ref2: Seq<char>,
    pad2: Seq<char>,
    b: Seq<char>,
) -> Seq<char> {
    "Refusing to route: "@ + ref1 + "."@ + pad1 + " is on net '"@ + a + "' but "@ + ref2 + "."@ + pad2
        + " is on net '"@ + b
        + "'. Connecting them would short two different nets. Check the pad numbers, or fix the connection in the schematic and re-import the netlist."@
}

/// The refusal to route to a pad without a net.
pub open spec fn unassigned_text(reference: Seq<char>, pad: Seq<char>) -> Seq<char> {
    "Refusing to route: "@ + reference + "."@ + pad
        + " is not assigned to any net on this board, so a trace to it would not belong to a net. Import the netlist from the schematic first."@
}

/// The refusal of a net name that the pads contradict.
pub open spec fn wrong_net_text(
    name: Seq<char>,
    ref1: Seq<char>,
    pad1: Seq<char>,
    ref2: Seq<char>,
    pad2: Seq<char>,
    on: Seq<char>,
) -> Seq<char> {
    "Refusing to route: net_name '"@ + name + "' was given, but "@ + ref1 + "."@ + pad1 + " and "@ + ref2
        + "."@ + pad2 + " are both on '"@ + on + "'. Pass net_name='"@ + on + "' or omit it."@
}

/// The net to route between two pads on: both must be on it already. A net name
/// that is given must agree.
pub open spec fn agreed_net(
    net1: Option<Seq<char>>,
    net2: Option<Seq<char>>,
    name: Seq<char>,
    ref1: Seq<char>,
    pad1: Seq<char>,
    ref2: Seq<char>,
    pad2: Seq<char>,
) -> Result<Seq<char>, Seq<char>> {
    match (net1, net2) {
        (Some(a), Some(b)) => if a != b {
            Err(short_text(ref1, pad1, a, ref2, pad2, b))
        } else if name.len() > 0 && name != a {
            Err(wrong_net_text(name, ref1, pad1, ref2, pad2, a))
        } else {
            Ok(a)
        },
        (None, _) => Err(unassigned_text(ref1, pad1)),
        (_, None) => Err(unassigned_text(ref2, pad2)),
    }
}

/// The net to route between two pads on, or the reason not to.
///
/// The board's own pad assignments are the truth: trusting the caller's name
/// would let a mistyped argument short two nets.
pub fn agree_on_net(
    net1: &Option<String>,
    net2: &Option<String>,
    net_name: &str,
    ref1: &str,
    pad1: &str,
    ref2: &str,
    pad2: &str,
) -> (r: Result<String, String>)
    ensures
        match agreed_net(
            string_opt(*net1),
            string_opt(*net2),
            net_name@,
            ref1@,
            pad1@,
            ref2@,
            pad2@,
        ) {
            Ok(n) => r is Ok && r->Ok_0@ == n,
            Err(e) => r is Err && r->Err_0@ == e,
        },
{
    match (net1, net2) {
        (Some(a), Some(b)) => {
            if !same(a.as_str(), b.as_str()) {
                let mut out = copy("Refusing to route: ");
                put(&mut out, ref1);
                put(&mut out, ".");
                put(&mut out, pad1);
                put(&mut out, " is on net '");
                put(&mut out, a.as_str());
                put(&mut out, "' but ");
                put(&mut out, ref2);
                put(&mut out, ".");
                put(&mut out, pad2);
                put(&mut out, " is on net '");
                put(&mut out, b.as_str());
                put(
                    &mut out,
                    "'. Connecting them would short two different nets. Check the pad numbers, or fix the connection in the schematic and re-import the netlist.",
                );
                return Err(out);
            }
            if !net_name.is_empty() && !same(net_name, a.as_str()) {
                let mut out = copy("Refusing to route: net_name '");
                put(&mut out, net_name);
                put(&mut out, "' was given, but ");
                put(&mut out, ref1);
                put(&mut out, ".");
                put(&mut out, pad1);
                put(&mut out, " and ");
                put(&mut out, ref2);
                put(&mut out, ".");
                put(&mut out, pad2);
                put(&mut out, " are both on '");
                put(&mut out, a.as_str());
                put(&mut out, "'. Pass net_name='");
                put(&mut out, a.as_str());
                put(&mut out, "' or omit it.");
                return Err(out);
            }
            Ok(a.clone())
        },
        _ => {
            let (reference, pad) = if net1.is_none() {
                (ref1, pad1)
            } else {
                (ref2, pad2)
            };
            let mut out = copy("Refusing to route: ");
            put(&mut out, reference);
            put(&mut out, ".");
            put(&mut out, pad);
            put(
                &mut out,
                " is not assigned to any net on this board, so a trace to it would not belong to a net. Import the netlist from the schematic first.",
            );
            Err(out)
        },
    }
}

/// The legs of a track between two points: one where they share a coordinate,
/// else an L-bend, horizontal first.
pub open spec fn bend(l: Line, straight: bool) -> Seq<Line> {
    if straight {
        seq![l]
    } else {
        seq![
            Line { x1: l.x1, y1: l.y1, x2: l.x2, y2: l.y1 },
            Line { x1: l.x2, y1: l.y1, x2: l.x2, y2: l.y2 },
        ]
    }
}

/// The tracks of the first `n` legs, each with its uuid.
pub open spec fn legs_text(
    net: Net,
    layer: Seq<char>,
    width: Seq<char>,
    legs: Seq<Line>,
    uuids: Seq<Seq<char>>,
    n: int,
) -> Seq<char>
    decreases n,
{
    if n <= 0 {
        Seq::empty()
    } else {
        legs_text(net, layer, width, legs, uuids, n - 1) + top_level_segment_text(
            net,
            layer,
            width,
            legs[n - 1],
            uuids[n - 1],
        )
    }
}

/// The parse fault in words.
pub open spec fn parse_fault_text(e: ParseError) -> Seq<char> {
    match e {
        ParseError::Empty => "the file is empty"@,
        ParseError::UnexpectedClose => "a closing parenthesis stands where an expression should begin"@,
        ParseError::UnterminatedList => "a list never closes"@,
        ParseError::UnterminatedString => "a string never closes"@,
    }
}

/// The parse fault in words.
pub fn parse_fault(e: ParseError) -> (r: String)
    ensures
        r@ == parse_fault_text(e),
{
    match e {
        ParseError::Empty => copy("the file is empty"),
        ParseError::UnexpectedClose => copy(
            "a closing parenthesis stands where an expression should begin",
        ),
        ParseError::UnterminatedList => copy("a list never closes"),
        ParseError::UnterminatedString => copy("a string never closes"),
    }
}

/// The net that two pads of a board agree on.
pub open spec fn pads_agree(
    s: Seq<u8>,
    name: Seq<char>,
    ref1: Seq<char>,
    pad1: Seq<char>,
    ref2: Seq<char>,
    pad2: Seq<char>,
) -> Result<Seq<char>, Seq<char>> {
    match parse_text(s) {
        Err(e) => Err(parse_fault_text(e)),
        Ok(tree) => match pad_net(tree, ref1, pad1) {
            Err(e) => Err(e),
            Ok(n1) => match pad_net(tree, ref2, pad2) {
                Err(e) => Err(e),
                Ok(n2) => agreed_net(n1, n2, name, ref1, pad1, ref2, pad2),
            },
        },
    }
}

/// What routing from pad to pad comes to.
pub open spec fn routed_pads(
    s: Seq<u8>,
    name: Seq<char>,
    ref1: Seq<char>,
    pad1: Seq<char>,
    ref2: Seq<char>,
    pad2: Seq<char>,
    layer: Seq<char>,
    width: Seq<char>,
    legs: Seq<Line>,
    uuids: Seq<Seq<char>>,
    board: Seq<char>,
) -> Result<(Net, Seq<u8>), Seq<char>> {
    match pads_agree(s, name, ref1, pad1, ref2, pad2) {
        Err(e) => Err(e),
        Ok(on) => match net_on_board(s, on) {
            None => Err(net_not_found_text(s, on)),
            Some(n) => on_net(
                n,
                with_item(s, legs_text(n, layer, width, legs, uuids, legs.len() as int), board),
            ),
        },
    }
}

/// Two pads by footprint reference and pad number.
#[derive(Debug)]
pub struct PadPair {
    pub ref1: String,
    pub pad1: String,
    pub ref2: String,
    pub pad2: String,
}

/// The legs of a track, straight or bent once.
fn format_legs(
    net: &NetRef,
    layer: &str,
    width: &str,
    line: &Leg,
    straight: bool,
    uuid_a: &str,
    uuid_b: &str,
) -> (r: String)
    ensures
        r@ == legs_text(
            net.model(),
            layer@,
            width@,
            bend(line.model(), straight),
            seq![uuid_a@, uuid_b@],
            bend(line.model(), straight).len() as int,
        ),
{
    let ghost legs = bend(line.model(), straight);
    let ghost uuids = seq![uuid_a@, uuid_b@];
    if straight {
        let t = top_level_segment(net, layer, width, line, uuid_a);
        proof {
            reveal_with_fuel(legs_text, 2);
            assert(Seq::<char>::empty() + t@ =~= t@);
        }
        t
    } else {
        let first = Leg {
            x1: line.x1.clone(),
            y1: line.y1.clone(),
            x2: line.x2.clone(),
            y2: line.y1.clone(),
        };
        let second = Leg {
            x1: line.x2.clone(),
            y1: line.y1.clone(),
            x2: line.x2.clone(),
            y2: line.y2.clone(),
        };
        let mut t = top_level_segment(net, layer, width, &first, uuid_a);
        let ghost a = t@;
        let u = top_level_segment(net, layer, width, &second, uuid_b);
        put(&mut t, u.as_str());
        proof {
            reveal_with_fuel(legs_text, 3);
            assert(Seq::<char>::empty() + a =~= a);
        }
        t
    }
}

/// Put a track between two pads on the board, with the given uuids.
pub fn route_pad_to_pad_as(
    content: &str,
    net_name: &str,
    pads: &PadPair,
    layer: &str,
    width: &str,
    line: &Leg,
    straight: bool,
    uuid_a: &str,
    uuid_b: &str,
    board: &str,
) -> (r: Result<Routed, String>)
    ensures
        routed(r) == routed_pads(
            bytes(content@),
            net_name@,
            pads.ref1@,
            pads.pad1@,
            pads.ref2@,
            pads.pad2@,
            layer@,
            width@,
            bend(line.model(), straight),
            seq![uuid_a@, uuid_b@],
            board@,
        ),
{
    let tree = match parse_sexp(content) {
        Err(e) => {
            return Err(parse_fault(e));
        },
        Ok(t) => t,
    };
    let n1 = match find_pad_net(&tree, pads.ref1.as_str(), pads.pad1.as_str()) {
        Err(e) => {
            return Err(e);
        },
        Ok(n) => n,
    };
    let n2 = match find_pad_net(&tree, pads.ref2.as_str(), pads.pad2.as_str()) {
        Err(e) => {
            return Err(e);
        },
        Ok(n) => n,
    };
    let on = match agree_on_net(
        &n1,
        &n2,
        net_name,
        pads.ref1.as_str(),
        pads.pad1.as_str(),
        pads.ref2.as_str(),
        pads.pad2.as_str(),
    ) {
        Err(e) => {
            return Err(e);
        },
        Ok(n) => n,
    };
    let net = match resolve_net(content, on.as_str()) {
        None => {
            return Err(net_not_found_error(content, on.as_str()));
        },
        Some(n) => n,
    };
    let text = format_legs(&net, layer, width, line, straight, uuid_a, uuid_b);
    match insert_item(content, text, board) {
        Err(e) => Err(e),
        Ok(content) => Ok(Routed { net, content }),
    }
}

/// Put a track between two pads on the board, with fresh uuids.
pub fn route_pad_to_pad(
    content: &str,
    net_name: &str,
    pads: &PadPair,
    layer: &str,
    width: &str,
    line: &Leg,
    straight: bool,
    board: &str,
) -> (r: (String, String, Result<Routed, String>))
    ensures
        is_uuid(r.0@),
        is_uuid(r.1@),
        routed(r.2) == routed_pads(
            bytes(content@),
            net_name@,
            pads.ref1@,
            pads.pad1@,
            pads.ref2@,
            pads.pad2@,
            layer@,
            width@,
            bend(line.model(), straight),
            seq![r.0@, r.1@],
            board@,
        ),
{
    let a = new_uuid();
    let b = new_uuid();
    let out = route_pad_to_pad_as(
        content,
        net_name,
        pads,
        layer,
        width,
        line,
        straight,
        a.as_str(),
        b.as_str(),
        board,
    );
    (a, b, out)
}

/// A track is only ever put between two pads that are on one net, and on that
/// net.
pub proof fn law_no_short(
    s: Seq<u8>,
    name: Seq<char>,
    ref1: Seq<char>,
    pad1: Seq<char>,
    ref2: Seq<char>,
    pad2: Seq<char>,
    layer: Seq<char>,
    width: Seq<char>,
    legs: Seq<Line>,
    uuids: Seq<Seq<char>>,
    board: Seq<char>,
)
    requires
        routed_pads(s, name, ref1, pad1, ref2, pad2, layer, width, legs, uuids, board) is Ok,
    ensures
        ({
            let net = routed_pads(s, name, ref1, pad1, ref2, pad2, layer, width, legs, uuids, board)->Ok_0.0;
            let tree = parse_text(s)->Ok_0;
            &&& parse_text(s) is Ok
            &&& pad_net(tree, ref1, pad1) == Ok::<Option<Seq<char>>, Seq<char>>(Some(net.name()))
            &&& pad_net(tree, ref2, pad2) == Ok::<Option<Seq<char>>, Seq<char>>(Some(net.name()))
            &&& name.len() > 0 ==> name == net.name()
        }),
{
}

} // verus!
