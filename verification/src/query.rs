//! Listing the tracks, vias, zones and nets of a board.

use crate::chars::{decimal, decimal_text, join_all, joined, texts};
#[allow(unused_imports)]
use crate::items::{
    are_segments, are_vias, are_zones, child_strings, collect_items, is_segment, is_via, is_zone,
    item_models, lists, net_in, read_segment, read_via, read_zone, top_level_items, zone_layers,
    BoardVia, BoardZone, Item, TraceSegment,
};
#[allow(unused_imports)]
use crate::net::{net_rows, net_table, rows};
#[allow(unused_imports)]
use crate::sexp::{child_text, string_opt, Sexp};
use crate::text::{bytes, put, same, same_opt};
use vstd::prelude::*;
use vstd::string::*;

verus! {

/// A filter that is not given lets everything through.
pub open spec fn passes(want: Option<Seq<char>>, have: Option<Seq<char>>) -> bool {
    want.is_none() || have == want
}

/// Whether a filter lets a text through.
fn lets_pass(want: &Option<String>, have: &Option<String>) -> (r: bool)
    ensures
        r == passes(string_opt(*want), string_opt(*have)),
{
    match want {
        None => true,
        Some(w) => same_opt(have, w.as_str()),
    }
}

/// Whether a filter lets one of a list of texts through.
pub open spec fn passes_any(want: Option<Seq<char>>, have: Seq<Seq<char>>) -> bool {
    want.is_none() || have.contains(want.unwrap())
}

/// Whether a filter lets one of a list of texts through.
fn lets_any_pass(want: &Option<String>, have: &Vec<String>) -> (r: bool)
    ensures
        r == passes_any(string_opt(*want), texts(have@)),
{
    match want {
        None => true,
        Some(w) => lists(have, w.as_str()),
    }
}

// ─── Tracks ──────────────────────────────────────────────────────────────────

/// Whether a track is on the net and the layer asked for.
pub open spec fn trace_wanted(
    i: Item,
    table: Seq<(int, Seq<char>)>,
    net: Option<Seq<char>>,
    layer: Option<Seq<char>>,
) -> bool {
    passes(net, net_in(i.node, table).1) && passes(layer, child_text(i.node, "layer"@))
}

/// The tracks among the first `n` items that are asked for.
pub open spec fn traces_wanted(
    items: Seq<Item>,
    table: Seq<(int, Seq<char>)>,
    net: Option<Seq<char>>,
    layer: Option<Seq<char>>,
    n: int,
) -> Seq<Item>
    decreases n,
{
    if n <= 0 {
        Seq::empty()
    } else if trace_wanted(items[n - 1], table, net, layer) {
        traces_wanted(items, table, net, layer, n - 1).push(items[n - 1])
    } else {
        traces_wanted(items, table, net, layer, n - 1)
    }
}

/// The tracks of the board, of one net and one layer where those are given.
pub fn query_traces(content: &str, net: &Option<String>, layer: &Option<String>) -> (r: Vec<
    TraceSegment,
>)
    ensures
        ({
            let items = top_level_items(bytes(content@), "segment"@);
            let table = net_rows(bytes(content@));
            are_segments(
                r@,
                traces_wanted(
                    items,
                    table,
                    string_opt(*net),
                    string_opt(*layer),
                    items.len() as int,
                ),
                table,
            )
        }),
{
    let table = net_table(content);
    let items = collect_items(content, "segment");
    let ghost all = item_models(items@);
    let ghost t = rows(table@);
    let ghost mut kept: Seq<Item> = Seq::empty();
    let mut out: Vec<TraceSegment> = Vec::new();
    let mut k: usize = 0;
    while k < items.len()
        invariant
            k <= items.len(),
            all == item_models(items@),
            t == rows(table@),
            kept == traces_wanted(all, t, string_opt(*net), string_opt(*layer), k as int),
            are_segments(out@, kept, t),
        decreases items.len() - k,
    {
        assert(all[k as int] == items[k as int].model());
        let seg = read_segment(&items[k], &table);
        if lets_pass(net, &seg.net_name) && lets_pass(layer, &seg.layer) {
            let ghost was = out@;
            out.push(seg);
            proof {
                kept = kept.push(all[k as int]);
                assert forall|j: int| 0 <= j < out@.len() implies is_segment(
                    #[trigger] out@[j],
                    kept[j],
                    t,
                ) by {
                    if j < was.len() {
                        assert(out@[j] == was[j]);
                    }
                }
            }
        }
        k += 1;
    }
    out
}

// ─── Vias ────────────────────────────────────────────────────────────────────

/// Whether a via is on the net and touches the layer asked for: it spans a pair,
/// and either end will do.
pub open spec fn via_wanted(
    i: Item,
    table: Seq<(int, Seq<char>)>,
    net: Option<Seq<char>>,
    layer: Option<Seq<char>>,
) -> bool {
    passes(net, net_in(i.node, table).1) && passes_any(layer, child_strings(i.node, "layers"@))
}

/// The vias among the first `n` items that are asked for.
pub open spec fn vias_wanted(
    items: Seq<Item>,
    table: Seq<(int, Seq<char>)>,
    net: Option<Seq<char>>,
    layer: Option<Seq<char>>,
    n: int,
) -> Seq<Item>
    decreases n,
{
    if n <= 0 {
        Seq::empty()
    } else if via_wanted(items[n - 1], table, net, layer) {
        vias_wanted(items, table, net, layer, n - 1).push(items[n - 1])
    } else {
        vias_wanted(items, table, net, layer, n - 1)
    }
}

/// The vias of the board, of one net and one layer where those are given.
pub fn query_vias(content: &str, net: &Option<String>, layer: &Option<String>) -> (r: Vec<BoardVia>)
    ensures
        ({
            let items = top_level_items(bytes(content@), "via"@);
            let table = net_rows(bytes(content@));
            are_vias(
                r@,
                vias_wanted(items, table, string_opt(*net), string_opt(*layer), items.len() as int),
                table,
            )
        }),
{
    let table = net_table(content);
    let items = collect_items(content, "via");
    let ghost all = item_models(items@);
    let ghost t = rows(table@);
    let ghost mut kept: Seq<Item> = Seq::empty();
    let mut out: Vec<BoardVia> = Vec::new();
    let mut k: usize = 0;
    while k < items.len()
        invariant
            k <= items.len(),
            all == item_models(items@),
            t == rows(table@),
            kept == vias_wanted(all, t, string_opt(*net), string_opt(*layer), k as int),
            are_vias(out@, kept, t),
        decreases items.len() - k,
    {
        assert(all[k as int] == items[k as int].model());
        let via = read_via(&items[k], &table);
        if lets_pass(net, &via.net_name) && lets_any_pass(layer, &via.layers) {
            let ghost was = out@;
            out.push(via);
            proof {
                kept = kept.push(all[k as int]);
                assert forall|j: int| 0 <= j < out@.len() implies is_via(#[trigger] out@[j], kept[j], t) by {
                    if j < was.len() {
                        assert(out@[j] == was[j]);
                    }
                }
            }
        }
        k += 1;
    }
    out
}

// ─── Zones ───────────────────────────────────────────────────────────────────

/// The net that a zone is on; a code of 0 is none, whatever its label says.
pub open spec fn zone_net(n: Sexp, table: Seq<(int, Seq<char>)>) -> Option<Seq<char>> {
    let (code, name) = net_in(n, table);
    let on = match code {
        Some(c) => c != 0,
        None => name.is_some() && name.unwrap().len() > 0,
    };
    if on {
        name
    } else {
        None
    }
}

/// Whether a zone is on the net and the layer asked for.
pub open spec fn zone_wanted(
    i: Item,
    table: Seq<(int, Seq<char>)>,
    net: Option<Seq<char>>,
    layer: Option<Seq<char>>,
) -> bool {
    passes(net, zone_net(i.node, table)) && passes_any(layer, zone_layers(i.node))
}

/// The zones among the first `n` items that are asked for.
pub open spec fn zones_wanted(
    items: Seq<Item>,
    table: Seq<(int, Seq<char>)>,
    net: Option<Seq<char>>,
    layer: Option<Seq<char>>,
    n: int,
) -> Seq<Item>
    decreases n,
{
    if n <= 0 {
        Seq::empty()
    } else if zone_wanted(items[n - 1], table, net, layer) {
        zones_wanted(items, table, net, layer, n - 1).push(items[n - 1])
    } else {
        zones_wanted(items, table, net, layer, n - 1)
    }
}

/// Whether a filter lets a zone's net through.
fn zone_net_passes(want: &Option<String>, zone: &BoardZone) -> (r: bool)
    ensures
        r == passes(
            string_opt(*want),
            if zone.on_net() {
                string_opt(zone.net_name)
            } else {
                None
            },
        ),
{
    match want {
        None => true,
        Some(w) => match zone.net() {
            Some(n) => same(n, w.as_str()),
            None => false,
        },
    }
}

/// The zones of the board, of one net and one layer where those are given.
pub fn query_zones(content: &str, net: &Option<String>, layer: &Option<String>) -> (r: Vec<BoardZone>)
    ensures
        ({
            let items = top_level_items(bytes(content@), "zone"@);
            let table = net_rows(bytes(content@));
            are_zones(
                r@,
                zones_wanted(items, table, string_opt(*net), string_opt(*layer), items.len() as int),
                table,
            )
        }),
{
    let table = net_table(content);
    let items = collect_items(content, "zone");
    let ghost all = item_models(items@);
    let ghost t = rows(table@);
    let ghost mut kept: Seq<Item> = Seq::empty();
    let mut out: Vec<BoardZone> = Vec::new();
    let mut k: usize = 0;
    while k < items.len()
        invariant
            k <= items.len(),
            all == item_models(items@),
            t == rows(table@),
            kept == zones_wanted(all, t, string_opt(*net), string_opt(*layer), k as int),
            are_zones(out@, kept, t),
        decreases items.len() - k,
    {
        assert(all[k as int] == items[k as int].model());
        let zone = read_zone(&items[k], &table);
        if zone_net_passes(net, &zone) && lets_any_pass(layer, &zone.layers) {
            let ghost was = out@;
            out.push(zone);
            proof {
                kept = kept.push(all[k as int]);
                assert forall|j: int| 0 <= j < out@.len() implies is_zone(#[trigger] out@[j], kept[j], t) by {
                    if j < was.len() {
                        assert(out@[j] == was[j]);
                    }
                }
            }
        }
        k += 1;
    }
    out
}

/// The uuids of the pours among the first `n` zones that belong to no net;
/// keepouts are no pours.
pub open spec fn orphans(zones: Seq<BoardZone>, n: int) -> Seq<Seq<char>>
    decreases n,
{
    if n <= 0 {
        Seq::empty()
    } else {
        let z = zones[n - 1];
        if !z.keepout && !z.on_net() && z.uuid.is_some() {
            orphans(zones, n - 1).push(z.uuid.unwrap()@)
        } else {
            orphans(zones, n - 1)
        }
    }
}

/// The uuids of the pours that belong to no net.
pub fn netless_zones(zones: &Vec<BoardZone>) -> (r: Vec<String>)
    ensures
        texts(r@) == orphans(zones@, zones.len() as int),
{
    let mut out: Vec<String> = Vec::new();
    let mut k: usize = 0;
    assert(texts(out@) =~= orphans(zones@, 0));
    while k < zones.len()
        invariant
            k <= zones.len(),
            texts(out@) == orphans(zones@, k as int),
        decreases zones.len() - k,
    {
        if zones[k].is_orphaned_pour() {
            match &zones[k].uuid {
                Some(u) => {
                    let ghost was = texts(out@);
                    out.push(u.clone());
                    assert(texts(out@) =~= was.push(u@));
                },
                None => {},
            }
        }
        k += 1;
    }
    out
}

/// What to tell the caller about pours that belong to no net.
pub open spec fn netless_text(uuids: Seq<Seq<char>>) -> Option<Seq<char>> {
    if uuids.len() == 0 {
        None
    } else {
        Some(
            decimal(uuids.len())
                + " zone(s) belong to no net — copper connected to nothing, which DRC does not flag. Fix each with set_zone_net(uuid, net_name): "@
                + joined(uuids, ", "@),
        )
    }
}

/// What to tell the caller about pours that belong to no net.
pub fn netless_note(uuids: &Vec<String>) -> (r: Option<String>)
    ensures
        string_opt(r) == netless_text(texts(uuids@)),
{
    if uuids.len() == 0 {
        return None;
    }
    let mut out = decimal_text(uuids.len() as u64);
    put(
        &mut out,
        " zone(s) belong to no net — copper connected to nothing, which DRC does not flag. Fix each with set_zone_net(uuid, net_name): ",
    );
    put(&mut out, join_all(uuids, ", ").as_str());
    Some(out)
}

/// A keepout is never among the pours that belong to no net.
pub proof fn law_keepout_is_no_orphan(zones: Seq<BoardZone>, n: int, uuid: Seq<char>)
    requires
        0 <= n <= zones.len(),
        forall|i: int|
            0 <= i < n && string_opt((#[trigger] zones[i]).uuid) == Some(uuid) ==> zones[i].keepout,
    ensures
        !orphans(zones, n).contains(uuid),
    decreases n,
{
    if n > 0 {
        law_keepout_is_no_orphan(zones, n - 1, uuid);
        let prev = orphans(zones, n - 1);
        let all = orphans(zones, n);
        if all.contains(uuid) {
            let i = choose|i: int| 0 <= i < all.len() && all[i] == uuid;
            if i < prev.len() {
                assert(prev[i] == uuid);
            } else {
                assert(string_opt(zones[n - 1].uuid) == Some(uuid));
            }
        }
    }
}

} // verus!
