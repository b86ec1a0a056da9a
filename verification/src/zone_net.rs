//! Putting a pour on a net.
//!
//! The two net conventions are not interchangeable, and mixing them is how a pour
//! ends up belonging to nothing: numbered boards want `(net 7) (net_name "GND")`,
//! the number being what connects the copper; KiCAD 10 wants `(net "GND")` alone,
//! and any `(net_name …)` left over beside it is removed.

#[allow(unused_imports)]
use crate::blocks::{child_blocks, child_fits, child_ranges, children};
use crate::board_file::{commit, committed, delete_range, delete_range_of};
use crate::chars::{decimal, decimal_text};
use crate::components::edit_list;
use crate::edit::{splices, SexpEdit, Splice};
#[allow(unused_imports)]
use crate::items::{
    find_item, is_zone, item_named, read_zone, unknown_item_message, unknown_item_text, BoardZone,
};
#[allow(unused_imports)]
use crate::net::{
    net_field, net_not_found_error, net_not_found_text, net_on_board, net_rows, net_table, resolve_net,
    Net, NetRef,
};
#[allow(unused_imports)]
use crate::scan::{
    closes_at, find_indent, indent_start, lemma_block_cuttable, lemma_lead, range_of, tag_opens,
    tag_opens_at,
};
#[allow(unused_imports)]
use crate::sexp::{child_in, child_text};
#[allow(unused_imports)]
use crate::text::{
    boundary, byte_at, bytes, copy, lemma_ascii_boundary, lemma_bytes_ascii, length, match_at,
    matches_at, put, slice,
};
use vstd::prelude::*;
use vstd::string::*;

verus! {

/// The first child from `k` on that is a `(tag …)` block.
pub open spec fn tag_child(s: Seq<u8>, kids: Seq<(int, int)>, tag: Seq<u8>, k: int) -> Option<
    (int, int),
>
    decreases kids.len() - k,
{
    if k < 0 || k >= kids.len() {
        None
    } else if tag_opens(s, kids[k].0, tag) {
        Some(kids[k])
    } else {
        tag_child(s, kids, tag, k + 1)
    }
}

/// The first direct `(tag …)` child of the block `start..end`.
pub open spec fn direct_child(s: Seq<u8>, start: int, end: int, tag: Seq<char>) -> Option<(int, int)> {
    tag_child(s, children(s, start, end), bytes(tag), 0)
}

/// The first direct `(tag …)` child of the block `start..end`: a zone's own
/// `(net …)` is one, a `(net …)` buried deeper inside it is not.
pub fn find_direct_child(content: &str, start: usize, end: usize, tag: &str) -> (r: Option<
    (usize, usize),
>)
    requires
        closes_at(bytes(content@), start as int, end as int),
    ensures
        range_of(r) == direct_child(bytes(content@), start as int, end as int, tag@),
        match r {
            Some((a, b)) => closes_at(bytes(content@), a as int, b as int) && start < a && b < end,
            None => true,
        },
{
    let ghost s = bytes(content@);
    let kids = child_blocks(content, start, end);
    let ghost all = child_ranges(kids@);
    let mut k: usize = 0;
    while k < kids.len()
        invariant
            s == bytes(content@),
            all == child_ranges(kids@),
            all == children(s, start as int, end as int),
            k <= kids.len(),
            forall|i: int| 0 <= i < kids.len() ==> child_fits(s, #[trigger] kids[i]),
            forall|i: int|
                0 <= i < kids.len() ==> start < (#[trigger] kids[i]).start && kids[i].end < end,
            tag_child(s, all, bytes(tag@), 0) == tag_child(s, all, bytes(tag@), k as int),
        decreases kids.len() - k,
    {
        assert(child_fits(s, kids[k as int]));
        assert(all[k as int] == (kids[k as int].start as int, kids[k as int].end as int));
        if tag_opens_at(content, kids[k].start, tag) {
            return Some((kids[k].start, kids[k].end));
        }
        k += 1;
    }
    None
}

/// The indentation of the line that `offset` stands on, where nothing else
/// precedes it there.
pub open spec fn line_indent(s: Seq<u8>, offset: int) -> Option<Seq<u8>> {
    let h = indent_start(s, offset);
    if h > 0 && s[h - 1] == 0x0a {
        Some(s.subrange(h, offset))
    } else {
        None
    }
}

/// The indentation of the line `offset` sits on, when only white space precedes
/// it there; `None` when the offset is mid-line.
pub fn line_indent_at(content: &str, offset: usize) -> (r: Option<String>)
    requires
        offset <= bytes(content@).len(),
        boundary(bytes(content@), offset as int),
    ensures
        match r {
            Some(t) => line_indent(bytes(content@), offset as int) == Some(bytes(t@)),
            None => line_indent(bytes(content@), offset as int).is_none(),
        },
{
    let h = find_indent(content, offset);
    proof {
        lemma_lead(content@, offset as int);
    }
    if h > 0 && byte_at(content, h - 1) == 0x0a {
        Some(copy(slice(content, h, offset)))
    } else {
        None
    }
}

/// The separator before a new label: its own line where fields are on their own
/// lines, a space where they are not.
pub open spec fn label_separator(s: Seq<u8>, field_start: int) -> Seq<u8> {
    match line_indent(s, field_start) {
        Some(ws) => bytes("\n"@) + ws,
        None => bytes(" "@),
    }
}

/// The `(net_name …)` label of a numbered net.
pub open spec fn label_text(n: Net) -> Option<Seq<char>> {
    match n {
        Net::Named(_) => None,
        Net::Numbered(_, name) => Some("(net_name \""@ + name + "\")"@),
    }
}

/// The edit of the net field, and where the field then ends.
pub open spec fn net_field_edit(s: Seq<u8>, start: int, end: int, n: Net) -> (Splice, int, int) {
    match direct_child(s, start, end, "net"@) {
        Some((a, b)) => (Splice { start: a, end: b, bytes: bytes(n.track_field()) }, a, b),
        None => (
            Splice { start: start + 5, end: start + 5, bytes: bytes(" "@ + n.track_field()) },
            start + 5,
            start + 5,
        ),
    }
}

/// The refusal to edit overlapping fields.
pub open spec fn field_overlap_text(at: int, a: int, b: int) -> Seq<char> {
    "Refusing to rewrite the zone's net: its (net_name …) at "@ + decimal(at as nat)
        + " overlaps the (net …) field at "@ + decimal(a as nat) + ".."@ + decimal(b as nat)
        + ". Nothing was written."@
}

/// The refusal to edit a block that is not a zone.
pub open spec fn not_a_zone_text(at: int) -> Seq<char> {
    "Refusing to set the net: the zone block at "@ + decimal(at as nat)
        + " is not a (zone …). Nothing was written."@
}

/// The edits that put the zone `start..end` on a net, in the board's own
/// convention.
pub open spec fn zone_net_splices(s: Seq<u8>, start: int, end: int, n: Net, board: Seq<char>) -> Result<
    Seq<Splice>,
    Seq<char>,
> {
    let (field, a, b) = net_field_edit(s, start, end, n);
    if direct_child(s, start, end, "net"@).is_none() && !matches_at(s, start, bytes("(zone"@)) {
        Err(not_a_zone_text(start))
    } else {
        match (label_text(n), direct_child(s, start, end, "net_name"@)) {
            (Some(label), Some((p, q))) => Ok(
                seq![field, Splice { start: p, end: q, bytes: bytes(label) }],
            ),
            (Some(label), None) => Ok(
                seq![
                    field,
                    Splice { start: b, end: b, bytes: label_separator(s, a) + bytes(label) },
                ],
            ),
            (None, Some((p, q))) => match delete_range_of(
                s,
                p,
                q,
                "the zone's stale (net_name …)"@,
                board,
            ) {
                Err(e) => Err(e),
                Ok((x, y)) => if x < b {
                    Err(field_overlap_text(x, a, b))
                } else {
                    Ok(seq![field, Splice { start: x, end: y, bytes: Seq::empty() }])
                },
            },
            (None, None) => Ok(seq![field]),
        }
    }
}

/// The edits that put a zone on `net`, written in the board's own convention.
pub fn zone_net_edits(content: &str, start: usize, end: usize, net: &NetRef, board: &str) -> (r: Result<
    Vec<SexpEdit>,
    String,
>)
    requires
        closes_at(bytes(content@), start as int, end as int),
    ensures
        edit_list(r) == zone_net_splices(
            bytes(content@),
            start as int,
            end as int,
            net.model(),
            board@,
        ),
{
    let ghost s = bytes(content@);
    let ghost n = net.model();
    let net_range = find_direct_child(content, start, end, "net");
    let label_range = find_direct_child(content, start, end, "net_name");
    let field = net_field(net);
    let mut edits: Vec<SexpEdit> = Vec::new();
    let field_start: usize;
    let field_end: usize;
    match net_range {
        Some((a, b)) => {
            proof {
                lemma_block_cuttable(content@, a as int, b as int);
            }
            edits.push(SexpEdit::replace(a, b, field));
            field_start = a;
            field_end = b;
        },
        None => {
            // A zone without any `(net …)` gets one directly after the tag.
            if !match_at(content, start, "(zone") {
                let mut out = copy("Refusing to set the net: the zone block at ");
                put(&mut out, decimal_text(start as u64).as_str());
                put(&mut out, " is not a (zone …). Nothing was written.");
                return Err(out);
            }
            let len = length(content);
            proof {
                reveal_strlit("(zone");
                lemma_bytes_ascii("(zone"@);
                assert(s.subrange(start as int, start + 5)[4] == s[start + 4]);
                lemma_ascii_boundary(content@, start + 4);
                assert(start + 5 <= len);
            }
            let mut text = copy(" ");
            put(&mut text, field.as_str());
            edits.push(SexpEdit::insert(start + 5, text));
            field_start = start + 5;
            field_end = start + 5;
        },
    }
    let ghost edit0 = net_field_edit(s, start as int, end as int, n);
    proof {
        assert(splices(edits@) =~= seq![edit0.0]);
        assert(edit0.1 == field_start && edit0.2 == field_end);
    }
    match net {
        NetRef::Numbered(_, name) => {
            let mut label = copy("(net_name \"");
            put(&mut label, name.as_str());
            put(&mut label, "\")");
            let ghost lt = label@;
            match label_range {
                // The label is there: keep it in step with the number.
                Some((p, q)) => {
                    edits.push(SexpEdit::replace(p, q, label));
                    assert(splices(edits@) =~= seq![
                        edit0.0,
                        Splice { start: p as int, end: q as int, bytes: bytes(lt) },
                    ]);
                },
                // None yet: follow the file's own layout.
                None => {
                    let mut text = match line_indent_at(content, field_start) {
                        Some(ws) => {
                            let mut t = copy("\n");
                            put(&mut t, ws.as_str());
                            t
                        },
                        None => copy(" "),
                    };
                    assert(bytes(text@) == label_separator(s, field_start as int));
                    put(&mut text, label.as_str());
                    let ghost tb = bytes(text@);
                    edits.push(SexpEdit::insert(field_end, text));
                    assert(splices(edits@) =~= seq![
                        edit0.0,
                        Splice { start: field_end as int, end: field_end as int, bytes: tb },
                    ]);
                },
            }
        },
        NetRef::Named(_) => match label_range {
            // Drop the stale label rather than leaving it to contradict the net.
            Some((p, q)) => {
                match delete_range(content, p, q, "the zone's stale (net_name …)", board) {
                    Err(e) => {
                        return Err(e);
                    },
                    Ok((x, y)) => {
                        if x < field_end {
                            let mut out = copy(
                                "Refusing to rewrite the zone's net: its (net_name …) at ",
                            );
                            put(&mut out, decimal_text(x as u64).as_str());
                            put(&mut out, " overlaps the (net …) field at ");
                            put(&mut out, decimal_text(field_start as u64).as_str());
                            put(&mut out, "..");
                            put(&mut out, decimal_text(field_end as u64).as_str());
                            put(&mut out, ". Nothing was written.");
                            return Err(out);
                        }
                        edits.push(SexpEdit::delete(x, y));
                        assert(splices(edits@) =~= seq![
                            edit0.0,
                            Splice { start: x as int, end: y as int, bytes: Seq::empty() },
                        ]);
                    },
                }
            },
            None => {},
        },
    }
    Ok(edits)
}

/// The refusal to give a keepout a net.
pub open spec fn keepout_text(uuid: Seq<char>, name: Option<Seq<char>>) -> Seq<char> {
    "Zone "@ + uuid + (match name {
        Some(n) => " \""@ + n + "\""@,
        None => Seq::empty(),
    })
        + " is a keepout (rule area), not a copper pour. Keepouts carry no net by design; assigning one would turn it into copper. Use delete_zone if you meant to remove it."@
}

/// What putting a zone on a net comes to.
pub open spec fn zone_on_net(s: Seq<u8>, uuid: Seq<char>, name: Seq<char>, board: Seq<char>) -> Result<
    (Net, Seq<u8>),
    Seq<char>,
> {
    match item_named(s, "zone"@, uuid) {
        None => Err(unknown_item_text(s, uuid, board, "zone"@, "query_zones"@)),
        Some(z) => if child_in(z.node, "keepout"@).is_some() {
            Err(keepout_text(uuid, child_text(z.node, "name"@)))
        } else {
            match net_on_board(s, name) {
                None => Err(net_not_found_text(s, name)),
                Some(n) => match zone_net_splices(s, z.start, z.end, n, board) {
                    Err(e) => Err(e),
                    Ok(es) => match committed(s, es, "kicad_pcb"@, board) {
                        Err(e) => Err(e),
                        Ok(t) => Ok((n, t)),
                    },
                },
            }
        },
    }
}

/// A zone that was put on a net.
#[derive(Debug)]
pub struct ZoneOnNet {
    /// The zone as it was.
    pub before: BoardZone,
    /// The net it is on now, in the board's own form.
    pub net: NetRef,
    /// The new board.
    pub content: String,
}

/// Put the zone with the uuid on a net.
///
/// A name that the board does not have is an error, never a fallback to net 0; and
/// a keepout is refused, since a net would turn a rule area into copper.
pub fn set_zone_net(content: &str, uuid: &str, net_name: &str, board: &str) -> (r: Result<
    ZoneOnNet,
    String,
>)
    ensures
        match zone_on_net(bytes(content@), uuid@, net_name@, board@) {
            Err(e) => r is Err && r->Err_0@ == e,
            Ok((n, t)) => r matches Ok(o) && o.net.model() == n && bytes(o.content@) == t && is_zone(
                o.before,
                item_named(bytes(content@), "zone"@, uuid@).unwrap(),
                net_rows(bytes(content@)),
            ),
        },
{
    let item = match find_item(content, "zone", uuid) {
        None => {
            return Err(unknown_item_message(content, uuid, board, "zone", "query_zones"));
        },
        Some(i) => i,
    };
    let table = net_table(content);
    let zone = read_zone(&item, &table);
    if zone.keepout {
        let mut out = copy("Zone ");
        put(&mut out, uuid);
        let ghost head = out@;
        match &zone.name {
            Some(n) => {
                put(&mut out, " \"");
                put(&mut out, n.as_str());
                put(&mut out, "\"");
                assert(out@ =~= head + (" \""@ + n@ + "\""@));
            },
            None => {
                assert(out@ =~= head + Seq::<char>::empty());
            },
        }
        put(
            &mut out,
            " is a keepout (rule area), not a copper pour. Keepouts carry no net by design; assigning one would turn it into copper. Use delete_zone if you meant to remove it.",
        );
        return Err(out);
    }
    let net = match resolve_net(content, net_name) {
        None => {
            return Err(net_not_found_error(content, net_name));
        },
        Some(n) => n,
    };
    match zone_net_edits(content, item.start, item.end, &net, board) {
        Err(e) => Err(e),
        Ok(edits) => match commit(content, &edits, "kicad_pcb", board) {
            Err(e) => Err(e),
            Ok(content) => Ok(ZoneOnNet { before: zone, net, content }),
        },
    }
}

/// A pour is only ever put on a net that the board has, and by the name asked
/// for; a keepout never is.
pub proof fn law_zone_net_exists(s: Seq<u8>, uuid: Seq<char>, name: Seq<char>, board: Seq<char>)
    requires
        zone_on_net(s, uuid, name, board) is Ok,
    ensures
        net_on_board(s, name) == Some(zone_on_net(s, uuid, name, board)->Ok_0.0),
        zone_on_net(s, uuid, name, board)->Ok_0.0.name() == name,
        item_named(s, "zone"@, uuid).is_some(),
        child_in(item_named(s, "zone"@, uuid).unwrap().node, "keepout"@).is_none(),
{
}

} // verus!
