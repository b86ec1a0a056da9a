//! What is read off the tracks, vias and zones of a board, and which of them a query
//! gives, in terms of the nodes of the board.

#[allow(unused_imports)]
use crate::chars::{int_value, texts};
#[allow(unused_imports)]
use crate::items::{child_strings, coordinate, is_segment, is_via, is_zone, leaf_texts, net_in, zone_layers, BoardVia, BoardZone, Item, TraceSegment};
#[allow(unused_imports)]
use crate::label_laws::{lemma_contains_push, rising};
#[allow(unused_imports)]
use crate::net::int_opt;
#[allow(unused_imports)]
use crate::number::is_number;
#[allow(unused_imports)]
use crate::pad_laws::{first_headed, headed, holds, lemma_first_tagged, lemma_holds, lemma_none_tagged, says};
#[allow(unused_imports)]
use crate::query::{traces_wanted, vias_wanted, zones_wanted};
#[allow(unused_imports)]
use crate::sexp::{child_in, child_text, string_opt, Sexp};
#[allow(unused_imports)]
use crate::text::bytes;
use vstd::prelude::*;

verus! {

// ─── What the first node of a kind says ──────────────────────────────────────

/// No node of the list begins with the word.
pub open spec fn none_headed(v: Seq<Sexp>, word: Seq<char>) -> bool {
    forall|j: int| 0 <= j < v.len() ==> !(headed(#[trigger] v[j], word))
}

/// The text is the number at `i` of the first node that begins with the word, and zero
/// where there is no such node or no number in it.
pub open spec fn gives_number(v: Seq<Sexp>, word: Seq<char>, i: int, text: Seq<char>) -> bool {
    &&& forall|f: int| #[trigger] first_headed(v, f, word) ==> says(v[f]->List_0, i, text)
    &&& none_headed(v, word) ==> text == "0"@
}

/// The text is the number at 1 of the first node that begins with the word; there is
/// none where that node or its number is missing.
pub open spec fn gives_number_opt(v: Seq<Sexp>, word: Seq<char>, text: Option<Seq<char>>) -> bool {
    &&& forall|f: int, w: Seq<char>|
        first_headed(v, f, word) && #[trigger] holds(v[f], 1, w) && is_number(bytes(w)) ==> text == Some(
            w,
        )
    &&& text matches Some(w) ==> is_number(bytes(w)) && exists|f: int|
        #[trigger] first_headed(v, f, word) && holds(v[f], 1, w)
}

/// The text is the one that follows the word in the first node that begins with it.
pub open spec fn gives_text(v: Seq<Sexp>, word: Seq<char>, text: Option<Seq<char>>) -> bool {
    &&& forall|f: int, w: Seq<char>|
        first_headed(v, f, word) && #[trigger] holds(v[f], 1, w) ==> text == Some(w)
    &&& text matches Some(w) ==> exists|f: int|
        #[trigger] first_headed(v, f, word) && holds(v[f], 1, w)
}

/// The net's number and name, as the first `(net …)` writes them: a name alone, or a
/// number with the name behind it.
pub open spec fn gives_net(v: Seq<Sexp>, code: Option<int>, name: Option<Seq<char>>) -> bool {
    &&& none_headed(v, "net"@) ==> code is None && name is None
    &&& forall|f: int, w: Seq<char>|
        first_headed(v, f, "net"@) && #[trigger] holds(v[f], 1, w) && v[f]->List_0[1] is Str ==> code is None
            && name == Some(w)
    &&& forall|f: int, k: Seq<char>, w: Seq<char>|
        first_headed(v, f, "net"@) && #[trigger] holds(v[f], 1, k) && v[f]->List_0[1] is Atom && int_value(
            bytes(k),
        ) is Some && #[trigger] holds(v[f], 2, w) ==> code == int_value(bytes(k)) && name == Some(w)
}

/// The first node that begins with the word, where there is one.
pub proof fn lemma_first(v: Seq<Sexp>, word: Seq<char>, from: int) -> (f: int)
    requires
        0 <= from <= v.len(),
        forall|j: int| 0 <= j < from ==> !(headed(#[trigger] v[j], word)),
    ensures
        none_headed(v, word) || first_headed(v, f, word),
    decreases v.len() - from,
{
    if from < v.len() {
        if headed(v[from], word) {
            from
        } else {
            lemma_first(v, word, from + 1)
        }
    } else {
        0
    }
}

proof fn lemma_gives_number(v: Seq<Sexp>, word: Seq<char>, i: int)
    ensures
        gives_number(v, word, i, coordinate(Sexp::List(v), word, i)),
{
    let text = coordinate(Sexp::List(v), word, i);
    if none_headed(v, word) {
        lemma_none_tagged(v, word, 0);
    }
    assert forall|f: int| #[trigger] first_headed(v, f, word) implies says(v[f]->List_0, i, text) by {
        lemma_first_tagged(v, f, word, 0);
        crate::pad_laws::lemma_says(Sexp::List(v), word, v[f]->List_0, i);
    }
}

proof fn lemma_gives_text(v: Seq<Sexp>, word: Seq<char>)
    ensures
        gives_text(v, word, child_text(Sexp::List(v), word)),
{
    let text = child_text(Sexp::List(v), word);
    let g = lemma_first(v, word, 0);
    if none_headed(v, word) {
        lemma_none_tagged(v, word, 0);
    } else {
        lemma_first_tagged(v, g, word, 0);
        if let Some(w) = text {
            lemma_holds(v[g], 1, w);
        }
    }
    assert forall|f: int, w: Seq<char>|
        first_headed(v, f, word) && #[trigger] holds(v[f], 1, w) implies text == Some(w) by {
        lemma_first_tagged(v, f, word, 0);
        lemma_holds(v[f], 1, w);
    }
}

proof fn lemma_gives_number_opt(v: Seq<Sexp>, word: Seq<char>)
    ensures
        gives_number_opt(v, word, crate::items::child_number(Sexp::List(v), word, 1)),
{
    let text = crate::items::child_number(Sexp::List(v), word, 1);
    let g = lemma_first(v, word, 0);
    if none_headed(v, word) {
        lemma_none_tagged(v, word, 0);
    } else {
        lemma_first_tagged(v, g, word, 0);
        if let Some(w) = text {
            lemma_holds(v[g], 1, w);
        }
    }
    assert forall|f: int, w: Seq<char>|
        first_headed(v, f, word) && #[trigger] holds(v[f], 1, w) && is_number(bytes(w)) implies text == Some(
        w,
    ) by {
        lemma_first_tagged(v, f, word, 0);
        lemma_holds(v[f], 1, w);
    }
}

proof fn lemma_gives_net(v: Seq<Sexp>, table: Seq<(int, Seq<char>)>)
    ensures
        gives_net(v, net_in(Sexp::List(v), table).0, net_in(Sexp::List(v), table).1),
{
    let (code, name) = net_in(Sexp::List(v), table);
    if none_headed(v, "net"@) {
        lemma_none_tagged(v, "net"@, 0);
    }
    assert forall|f: int, w: Seq<char>|
        first_headed(v, f, "net"@) && #[trigger] holds(v[f], 1, w) && v[f]->List_0[1] is Str implies code is None
        && name == Some(w) by {
        lemma_first_tagged(v, f, "net"@, 0);
    }
    assert forall|f: int, k: Seq<char>, w: Seq<char>|
        first_headed(v, f, "net"@) && #[trigger] holds(v[f], 1, k) && v[f]->List_0[1] is Atom && int_value(
            bytes(k),
        ) is Some && #[trigger] holds(v[f], 2, w) implies code == int_value(bytes(k)) && name == Some(w) by {
        lemma_first_tagged(v, f, "net"@, 0);
        lemma_holds(v[f], 2, w);
    }
}

// ─── Tracks, vias and zones ──────────────────────────────────────────────────

/// A track is read as the board writes it: where it starts and ends, its width, its
/// layer, its net and its uuid, and the bytes it stands in.
pub proof fn law_track_is_as_written(
    g: TraceSegment,
    item: Item,
    v: Seq<Sexp>,
    table: Seq<(int, Seq<char>)>,
)
    requires
        is_segment(g, item, table),
        item.node == Sexp::List(v),
    ensures
        g.start == item.start && g.end == item.end,
        gives_number(v, "start"@, 1, g.x1@),
        gives_number(v, "start"@, 2, g.y1@),
        gives_number(v, "end"@, 1, g.x2@),
        gives_number(v, "end"@, 2, g.y2@),
        gives_number_opt(v, "width"@, string_opt(g.width)),
        gives_text(v, "layer"@, string_opt(g.layer)),
        gives_text(v, "uuid"@, string_opt(g.uuid)),
        gives_net(v, int_opt(g.net_code), string_opt(g.net_name)),
{
    lemma_gives_number(v, "start"@, 1);
    lemma_gives_number(v, "start"@, 2);
    lemma_gives_number(v, "end"@, 1);
    lemma_gives_number(v, "end"@, 2);
    lemma_gives_number_opt(v, "width"@);
    lemma_gives_text(v, "layer"@);
    lemma_gives_text(v, "uuid"@);
    lemma_gives_net(v, table);
}

/// The texts of a list behind its first node, in order; nodes that are lists are
/// passed over.
pub open spec fn are_texts(a: Seq<Sexp>, t: Seq<Seq<char>>) -> bool {
    exists|at: Seq<int>| #[trigger] picks_texts(a, t, at)
}

/// The texts stand at the given places, which are all that hold one.
pub open spec fn picks_texts(a: Seq<Sexp>, t: Seq<Seq<char>>, at: Seq<int>) -> bool {
    &&& rising(at, a.len() as int)
    &&& t.len() == at.len()
    &&& forall|i: int| 0 <= i < at.len() ==> holds(Sexp::List(a), #[trigger] at[i], t[i])
    &&& forall|k: int|
        0 <= k < a.len() ==> at.contains(k) == (k > 0 && !(#[trigger] a[k] is List))
}

proof fn lemma_are_texts(a: Seq<Sexp>, n: int) -> (at: Seq<int>)
    requires
        0 <= n <= a.len(),
    ensures
        rising(at, n),
        leaf_texts(a, n).len() == at.len(),
        forall|i: int| 0 <= i < at.len() ==> holds(Sexp::List(a), #[trigger] at[i], leaf_texts(a, n)[i]),
        forall|k: int| 0 <= k < n ==> at.contains(k) == (k > 0 && !(#[trigger] a[k] is List)),
    decreases n,
{
    if n <= 0 {
        Seq::empty()
    } else {
        let at = lemma_are_texts(a, n - 1);
        let t = leaf_texts(a, n);
        assert(!at.contains(n - 1));
        if n > 1 && !(a[n - 1] is List) {
            let more = at.push(n - 1);
            lemma_contains_push(at, n - 1);
            assert forall|i: int| 0 <= i < more.len() implies holds(Sexp::List(a), #[trigger] more[i], t[i]) by {
                if i < at.len() {
                    assert(more[i] == at[i]);
                }
            }
            more
        } else {
            at
        }
    }
}

/// The texts are those of the first node that begins with the word, none where there is
/// no such node.
pub open spec fn gives_texts(v: Seq<Sexp>, word: Seq<char>, t: Seq<Seq<char>>) -> bool {
    &&& none_headed(v, word) ==> t.len() == 0
    &&& forall|f: int| #[trigger] first_headed(v, f, word) ==> are_texts(v[f]->List_0, t)
}

proof fn lemma_gives_texts(v: Seq<Sexp>, word: Seq<char>)
    ensures
        gives_texts(v, word, child_strings(Sexp::List(v), word)),
{
    let t = child_strings(Sexp::List(v), word);
    if none_headed(v, word) {
        lemma_none_tagged(v, word, 0);
    }
    assert forall|f: int| #[trigger] first_headed(v, f, word) implies are_texts(v[f]->List_0, t) by {
        lemma_first_tagged(v, f, word, 0);
        let a = v[f]->List_0;
        let at = lemma_are_texts(a, a.len() as int);
        assert(picks_texts(a, t, at));
    }
}

/// A via is read as the board writes it: where it stands, its size and drill, the layers
/// it joins, its net and its uuid, and the bytes it stands in.
pub proof fn law_via_is_as_written(g: BoardVia, item: Item, v: Seq<Sexp>, table: Seq<(int, Seq<char>)>)
    requires
        is_via(g, item, table),
        item.node == Sexp::List(v),
    ensures
        g.start == item.start && g.end == item.end,
        gives_number(v, "at"@, 1, g.x@),
        gives_number(v, "at"@, 2, g.y@),
        gives_number_opt(v, "size"@, string_opt(g.size)),
        gives_number_opt(v, "drill"@, string_opt(g.drill)),
        gives_texts(v, "layers"@, texts(g.layers@)),
        gives_text(v, "uuid"@, string_opt(g.uuid)),
        gives_net(v, int_opt(g.net_code), string_opt(g.net_name)),
{
    lemma_gives_number(v, "at"@, 1);
    lemma_gives_number(v, "at"@, 2);
    lemma_gives_number_opt(v, "size"@);
    lemma_gives_number_opt(v, "drill"@);
    lemma_gives_texts(v, "layers"@);
    lemma_gives_text(v, "uuid"@);
    lemma_gives_net(v, table);
}

/// A zone is read as the board writes it: its net, its layers, which stand in `(layer …)`
/// or in `(layers …)`, its name and its uuid, whether it is filled, whether it keeps
/// copper out, and the bytes it stands in.
pub proof fn law_zone_is_as_written(g: BoardZone, item: Item, v: Seq<Sexp>, table: Seq<(int, Seq<char>)>)
    requires
        is_zone(g, item, table),
        item.node == Sexp::List(v),
    ensures
        g.start == item.start && g.end == item.end,
        gives_net(v, int_opt(g.net_code), string_opt(g.net_name)),
        gives_text(v, "net_name"@, string_opt(g.net_label)),
        gives_text(v, "name"@, string_opt(g.name)),
        gives_text(v, "uuid"@, string_opt(g.uuid)),
        none_headed(v, "layer"@) ==> gives_texts(v, "layers"@, texts(g.layers@)),
        none_headed(v, "layers"@) ==> forall|f: int, w: Seq<char>|
            first_headed(v, f, "layer"@) && #[trigger] holds(v[f], 1, w) ==> texts(g.layers@) == seq![w],
        g.filled == !none_headed(v, "filled_polygon"@),
        g.keepout == !none_headed(v, "keepout"@),
{
    lemma_gives_net(v, table);
    lemma_gives_text(v, "net_name"@);
    lemma_gives_text(v, "name"@);
    lemma_gives_text(v, "uuid"@);
    lemma_gives_text(v, "layer"@);
    lemma_gives_texts(v, "layers"@);
    let n = Sexp::List(v);
    if none_headed(v, "layer"@) {
        lemma_none_tagged(v, "layer"@, 0);
        assert(zone_layers(n) =~= child_strings(n, "layers"@));
    }
    if none_headed(v, "layers"@) {
        assert forall|f: int, w: Seq<char>|
            first_headed(v, f, "layer"@) && #[trigger] holds(v[f], 1, w) implies texts(g.layers@) == seq![
            w,
        ] by {
            assert(child_text(n, "layer"@) == Some(w));
            assert(zone_layers(n) =~= seq![w]);
        }
    }
    lemma_presence(v, "filled_polygon"@);
    lemma_presence(v, "keepout"@);
}

proof fn lemma_presence(v: Seq<Sexp>, word: Seq<char>)
    ensures
        child_in(Sexp::List(v), word) is Some == !none_headed(v, word),
{
    let f = lemma_first(v, word, 0);
    if none_headed(v, word) {
        lemma_none_tagged(v, word, 0);
    } else {
        lemma_first_tagged(v, f, word, 0);
    }
}

// ─── Queries ─────────────────────────────────────────────────────────────────

/// A track on the net and the layer, where those are asked for.
pub open spec fn track_asked(
    i: Item,
    table: Seq<(int, Seq<char>)>,
    net: Option<Seq<char>>,
    layer: Option<Seq<char>>,
) -> bool {
    &&& net matches Some(n) ==> net_in(i.node, table).1 == Some(n)
    &&& layer matches Some(l) ==> child_text(i.node, "layer"@) == Some(l)
}

/// A via on the net that reaches the layer, where those are asked for.
pub open spec fn via_asked(
    i: Item,
    table: Seq<(int, Seq<char>)>,
    net: Option<Seq<char>>,
    layer: Option<Seq<char>>,
) -> bool {
    &&& net matches Some(n) ==> net_in(i.node, table).1 == Some(n)
    &&& layer matches Some(l) ==> child_strings(i.node, "layers"@).contains(l)
}

/// A query for tracks gives each track that is on the net and the layer asked for, no
/// other, in file order; a filter that is not given lets every track through.
pub proof fn law_query_gives_the_tracks_asked_for(
    items: Seq<Item>,
    table: Seq<(int, Seq<char>)>,
    net: Option<Seq<char>>,
    layer: Option<Seq<char>>,
    n: int,
) -> (at: Seq<int>)
    requires
        0 <= n <= items.len(),
    ensures
        rising(at, n),
        traces_wanted(items, table, net, layer, n).len() == at.len(),
        forall|i: int|
            0 <= i < at.len() ==> traces_wanted(items, table, net, layer, n)[i] == items[#[trigger] at[i]],
        forall|k: int|
            0 <= k < n ==> at.contains(k) == track_asked(#[trigger] items[k], table, net, layer),
    decreases n,
{
    if n <= 0 {
        Seq::empty()
    } else {
        let at = law_query_gives_the_tracks_asked_for(items, table, net, layer, n - 1);
        assert(!at.contains(n - 1));
        if track_asked(items[n - 1], table, net, layer) {
            let more = at.push(n - 1);
            lemma_contains_push(at, n - 1);
            assert forall|i: int| 0 <= i < more.len() implies traces_wanted(items, table, net, layer, n)[i]
                == items[#[trigger] more[i]] by {
                if i < at.len() {
                    assert(more[i] == at[i]);
                }
            }
            more
        } else {
            at
        }
    }
}

/// A query for vias gives each via that is on the net and reaches the layer asked for, no
/// other, in file order; a filter that is not given lets every via through.
pub proof fn law_query_gives_the_vias_asked_for(
    items: Seq<Item>,
    table: Seq<(int, Seq<char>)>,
    net: Option<Seq<char>>,
    layer: Option<Seq<char>>,
    n: int,
) -> (at: Seq<int>)
    requires
        0 <= n <= items.len(),
    ensures
        rising(at, n),
        vias_wanted(items, table, net, layer, n).len() == at.len(),
        forall|i: int|
            0 <= i < at.len() ==> vias_wanted(items, table, net, layer, n)[i] == items[#[trigger] at[i]],
        forall|k: int|
            0 <= k < n ==> at.contains(k) == via_asked(#[trigger] items[k], table, net, layer),
    decreases n,
{
    if n <= 0 {
        Seq::empty()
    } else {
        let at = law_query_gives_the_vias_asked_for(items, table, net, layer, n - 1);
        assert(!at.contains(n - 1));
        if via_asked(items[n - 1], table, net, layer) {
            let more = at.push(n - 1);
            lemma_contains_push(at, n - 1);
            assert forall|i: int| 0 <= i < more.len() implies vias_wanted(items, table, net, layer, n)[i]
                == items[#[trigger] more[i]] by {
                if i < at.len() {
                    assert(more[i] == at[i]);
                }
            }
            more
        } else {
            at
        }
    }
}

/// A zone on the net and on the layer, where those are asked for. Net zero is no net,
/// and neither is an empty name.
pub open spec fn zone_asked(
    i: Item,
    table: Seq<(int, Seq<char>)>,
    net: Option<Seq<char>>,
    layer: Option<Seq<char>>,
) -> bool {
    let (code, name) = net_in(i.node, table);
    &&& net matches Some(n) ==> name == Some(n) && code != Some(0int) && (code is Some || n.len() > 0)
    &&& layer matches Some(l) ==> child_text(i.node, "layer"@) == Some(l) || child_strings(
        i.node,
        "layers"@,
    ).contains(l)
}

/// A query for zones gives each zone that is on the net and the layer asked for, no
/// other, in file order; a filter that is not given lets every zone through.
pub proof fn law_query_gives_the_zones_asked_for(
    items: Seq<Item>,
    table: Seq<(int, Seq<char>)>,
    net: Option<Seq<char>>,
    layer: Option<Seq<char>>,
    n: int,
) -> (at: Seq<int>)
    requires
        0 <= n <= items.len(),
    ensures
        rising(at, n),
        zones_wanted(items, table, net, layer, n).len() == at.len(),
        forall|i: int|
            0 <= i < at.len() ==> zones_wanted(items, table, net, layer, n)[i] == items[#[trigger] at[i]],
        forall|k: int|
            0 <= k < n ==> at.contains(k) == zone_asked(#[trigger] items[k], table, net, layer),
    decreases n,
{
    if n <= 0 {
        Seq::empty()
    } else {
        let at = law_query_gives_the_zones_asked_for(items, table, net, layer, n - 1);
        assert(!at.contains(n - 1));
        if let Some(l) = layer {
            lemma_zone_layer(items[n - 1].node, l);
        }
        if zone_asked(items[n - 1], table, net, layer) {
            let more = at.push(n - 1);
            lemma_contains_push(at, n - 1);
            assert forall|i: int| 0 <= i < more.len() implies zones_wanted(items, table, net, layer, n)[i]
                == items[#[trigger] more[i]] by {
                if i < at.len() {
                    assert(more[i] == at[i]);
                }
            }
            more
        } else {
            at
        }
    }
}

proof fn lemma_zone_layer(n: Sexp, l: Seq<char>)
    ensures
        zone_layers(n).contains(l) == (child_text(n, "layer"@) == Some(l) || child_strings(
            n,
            "layers"@,
        ).contains(l)),
{
    let all = zone_layers(n);
    let more = child_strings(n, "layers"@);
    let k: int = if child_text(n, "layer"@) is Some {
        1
    } else {
        0
    };
    if more.contains(l) {
        let i = more.index_of(l);
        assert(all[i + k] == l);
    }
    if child_text(n, "layer"@) == Some(l) {
        assert(all[0] == l);
    }
    if all.contains(l) {
        let i = all.index_of(l);
        if i >= k {
            assert(more[i - k] == l);
        }
    }
}

} // verus!
