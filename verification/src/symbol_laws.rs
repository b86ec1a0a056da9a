//! A placed symbol is read back as it was written.

use crate::chars::{decimal, law_unsigned_reads_back};
use crate::number::is_number;
use crate::sexp::{all_tagged, child_in, child_text, children_in, items_in, tag_in, tagged_at, Sexp};
use crate::symbol::{
    bool_word, fields_of, flag_in, kept_in, pair_sexp, placed_in, placed_sexp, properties_in,
    property_nodes, unit_in, Placed, SymbolError,
};
use crate::text::bytes;
use crate::types::{
    at_sexp, law_at_reads_back, law_property_reads_back, lists_after, property_sexp, AtText,
    PropertyText,
};
use vstd::prelude::*;

verus! {

/// A position of numbers.
pub open spec fn sound_position(a: AtText) -> bool {
    &&& is_number(bytes(a.x))
    &&& is_number(bytes(a.y))
    &&& a.rotation matches Some(r) ==> is_number(bytes(r))
}

/// A property whose other nodes are lists.
pub open spec fn sound_property(p: PropertyText) -> bool {
    forall|i: int| 0 <= i < p.sub_nodes.len() ==> (#[trigger] p.sub_nodes[i]) is List
}

/// A node of a kind that a symbol keeps as it is.
pub open spec fn kept(n: Sexp) -> bool {
    tag_in(n) == Some("pin"@) || tag_in(n) == Some("instances"@)
}

/// A symbol as one that was read: numbers where numbers belong, lists under its
/// properties, and nothing kept but pins and instances.
pub open spec fn sound_symbol(p: Placed) -> bool {
    &&& sound_position(p.at)
    &&& 0 <= p.unit <= u32::MAX
    &&& forall|i: int| 0 <= i < p.properties.len() ==> sound_property(#[trigger] p.properties[i])
    &&& forall|i: int| 0 <= i < p.raw_sub_nodes.len() ==> kept(#[trigger] p.raw_sub_nodes[i])
}

proof fn lemma_tags_differ()
    ensures
        ({
            let all = seq![
                "lib_id"@,
                "at"@,
                "mirror"@,
                "unit"@,
                "in_bom"@,
                "on_board"@,
                "dnp"@,
                "fields_autoplaced"@,
                "uuid"@,
                "property"@,
                "pin"@,
                "instances"@,
            ];
            forall|i: int, j: int| 0 <= i < j < 12 ==> #[trigger] all[i] != #[trigger] all[j]
        }),
{
    reveal_strlit("lib_id");
    reveal_strlit("at");
    reveal_strlit("mirror");
    reveal_strlit("unit");
    reveal_strlit("in_bom");
    reveal_strlit("on_board");
    reveal_strlit("dnp");
    reveal_strlit("fields_autoplaced");
    reveal_strlit("uuid");
    reveal_strlit("property");
    reveal_strlit("pin");
    reveal_strlit("instances");
    assert("lib_id"@.len() == 6 && "lib_id"@[0] == 'l');
    assert("at"@.len() == 2);
    assert("mirror"@.len() == 6 && "mirror"@[0] == 'm');
    assert("unit"@.len() == 4 && "unit"@[1] == 'n');
    assert("in_bom"@.len() == 6 && "in_bom"@[0] == 'i');
    assert("on_board"@.len() == 8 && "on_board"@[0] == 'o');
    assert("dnp"@.len() == 3 && "dnp"@[0] == 'd');
    assert("fields_autoplaced"@.len() == 17);
    assert("uuid"@.len() == 4 && "uuid"@[1] == 'u');
    assert("property"@.len() == 8 && "property"@[0] == 'p');
    assert("pin"@.len() == 3 && "pin"@[0] == 'p');
    assert("instances"@.len() == 9);
}

proof fn lemma_first_tagged(items: Seq<Sexp>, tag: Seq<char>, from: int, i: int)
    requires
        0 <= from <= i < items.len(),
        tag_in(items[i]) == Some(tag),
        forall|k: int| from <= k < i ==> tag_in(#[trigger] items[k]) != Some(tag),
    ensures
        tagged_at(items, tag, from) == Some(i),
    decreases i - from,
{
    if from < i {
        assert(tag_in(items[from]) != Some(tag));
        lemma_first_tagged(items, tag, from + 1, i);
    }
}

proof fn lemma_not_tagged(items: Seq<Sexp>, tag: Seq<char>, from: int)
    requires
        0 <= from <= items.len(),
        forall|k: int| from <= k < items.len() ==> tag_in(#[trigger] items[k]) != Some(tag),
    ensures
        tagged_at(items, tag, from) == None::<int>,
    decreases items.len() - from,
{
    if from < items.len() {
        assert(tag_in(items[from]) != Some(tag));
        lemma_not_tagged(items, tag, from + 1);
    }
}

/// Whether a symbol has a mirror, as a number of nodes.
spec fn mirrors(p: Placed) -> int {
    if p.mirror.is_some() {
        1
    } else {
        0
    }
}

/// Whether a symbol's fields are placed by themselves, as a number of nodes.
spec fn autos(p: Placed) -> int {
    if p.fields_autoplaced {
        1
    } else {
        0
    }
}

/// Where the properties of a written symbol begin.
spec fn front(p: Placed) -> int {
    8 + mirrors(p) + autos(p)
}

/// What stands where in a written symbol.
proof fn lemma_written(p: Placed)
    ensures
        ({
            let items = items_in(placed_sexp(p));
            let k = mirrors(p);
            let n = front(p);
            &&& items.len() == n + p.properties.len() + p.raw_sub_nodes.len()
            &&& items[0] == Sexp::Atom("symbol"@)
            &&& items[1] == pair_sexp("lib_id"@, Sexp::Str(p.lib_id))
            &&& items[2] == at_sexp(p.at)
            &&& p.mirror matches Some(m) ==> items[3] == pair_sexp("mirror"@, Sexp::Atom(m))
            &&& items[3 + k] == pair_sexp("unit"@, Sexp::Atom(decimal(p.unit as nat)))
            &&& items[4 + k] == pair_sexp("in_bom"@, Sexp::Atom(bool_word(p.in_bom)))
            &&& items[5 + k] == pair_sexp("on_board"@, Sexp::Atom(bool_word(p.on_board)))
            &&& items[6 + k] == pair_sexp("dnp"@, Sexp::Atom(bool_word(p.dnp)))
            &&& p.fields_autoplaced ==> items[7 + k] == Sexp::List(
                seq![Sexp::Atom("fields_autoplaced"@)],
            )
            &&& items[n - 1] == pair_sexp("uuid"@, Sexp::Str(p.uuid))
            &&& forall|i: int|
                0 <= i < p.properties.len() ==> #[trigger] items[n + i] == property_sexp(p.properties[i])
            &&& forall|i: int|
                0 <= i < p.raw_sub_nodes.len() ==> #[trigger] items[n + p.properties.len() + i]
                    == p.raw_sub_nodes[i]
        }),
{
    let f = fields_of(p);
    assert(f.len() == front(p) - 1);
    let items = items_in(placed_sexp(p));
    assert(items == seq![Sexp::Atom("symbol"@)] + f + property_nodes(p.properties) + p.raw_sub_nodes);
    assert forall|i: int| 0 <= i < f.len() implies #[trigger] f[i] == items[1 + i] by {}
    let k = mirrors(p);
    assert(f[0] == items[1int + 0]);
    assert(f[1] == items[1int + 1]);
    assert(f[2] == items[1int + 2]);
    assert(f[2 + k] == items[1 + (2 + k)]);
    assert(f[3 + k] == items[1 + (3 + k)]);
    assert(f[4 + k] == items[1 + (4 + k)]);
    assert(f[5 + k] == items[1 + (5 + k)]);
    assert(f[6 + k] == items[1 + (6 + k)]);
    assert(f[f.len() - 1] == items[1 + (f.len() - 1)]);
}

/// The tags of a written symbol, node by node.
spec fn tags_stand(items: Seq<Sexp>, p: Placed) -> bool {
    let k = mirrors(p);
    let n = front(p);
    &&& items.len() == n + p.properties.len() + p.raw_sub_nodes.len()
    &&& tag_in(items[0]).is_none()
    &&& tag_in(items[1]) == Some("lib_id"@)
    &&& tag_in(items[2]) == Some("at"@)
    &&& p.mirror.is_some() ==> tag_in(items[3]) == Some("mirror"@)
    &&& tag_in(items[3 + k]) == Some("unit"@)
    &&& tag_in(items[4 + k]) == Some("in_bom"@)
    &&& tag_in(items[5 + k]) == Some("on_board"@)
    &&& tag_in(items[6 + k]) == Some("dnp"@)
    &&& p.fields_autoplaced ==> tag_in(items[7 + k]) == Some("fields_autoplaced"@)
    &&& tag_in(items[n - 1]) == Some("uuid"@)
    &&& forall|i: int|
        n <= i < n + p.properties.len() ==> tag_in(#[trigger] items[i]) == Some("property"@)
    &&& forall|i: int| n + p.properties.len() <= i < items.len() ==> kept(#[trigger] items[i])
}

proof fn lemma_tags_stand(p: Placed)
    requires
        sound_symbol(p),
    ensures
        tags_stand(items_in(placed_sexp(p)), p),
{
    let items = items_in(placed_sexp(p));
    let n = front(p);
    lemma_written(p);
    assert forall|i: int| n <= i < n + p.properties.len() implies tag_in(#[trigger] items[i]) == Some(
        "property"@,
    ) by {
        assert(items[n + (i - n)] == property_sexp(p.properties[i - n]));
    }
    let m = n + p.properties.len();
    assert forall|i: int| m <= i < items.len() implies kept(#[trigger] items[i]) by {
        assert(items[m + (i - m)] == p.raw_sub_nodes[i - m]);
        assert(kept(p.raw_sub_nodes[i - m]));
    }
}

/// A tag that is neither a property's nor a kept node's stands only in front.
proof fn lemma_only_in_front(items: Seq<Sexp>, p: Placed, tag: Seq<char>)
    requires
        tags_stand(items, p),
        tag != "property"@,
        tag != "pin"@,
        tag != "instances"@,
    ensures
        forall|i: int| front(p) <= i < items.len() ==> tag_in(#[trigger] items[i]) != Some(tag),
{
    assert forall|i: int| front(p) <= i < items.len() implies tag_in(#[trigger] items[i]) != Some(
        tag,
    ) by {
        if i < front(p) + p.properties.len() {
            assert(tag_in(items[i]) == Some("property"@));
        } else {
            assert(kept(items[i]));
        }
    }
}

/// Where each field of a written symbol is found.
proof fn lemma_fields_found(items: Seq<Sexp>, p: Placed)
    requires
        tags_stand(items, p),
    ensures
        ({
            let k = mirrors(p);
            &&& tagged_at(items, "lib_id"@, 0) == Some(1int)
            &&& tagged_at(items, "at"@, 0) == Some(2int)
            &&& tagged_at(items, "mirror"@, 0) == (if p.mirror.is_some() {
                Some(3int)
            } else {
                None
            })
            &&& tagged_at(items, "unit"@, 0) == Some(3 + k)
            &&& tagged_at(items, "in_bom"@, 0) == Some(4 + k)
            &&& tagged_at(items, "on_board"@, 0) == Some(5 + k)
            &&& tagged_at(items, "dnp"@, 0) == Some(6 + k)
            &&& tagged_at(items, "fields_autoplaced"@, 0).is_some() == p.fields_autoplaced
            &&& tagged_at(items, "uuid"@, 0) == Some(front(p) - 1)
        }),
{
    let k = mirrors(p);
    let n = front(p);
    let all = seq![
        "lib_id"@,
        "at"@,
        "mirror"@,
        "unit"@,
        "in_bom"@,
        "on_board"@,
        "dnp"@,
        "fields_autoplaced"@,
        "uuid"@,
        "property"@,
        "pin"@,
        "instances"@,
    ];
    lemma_tags_differ();
    assert(all[0] == "lib_id"@ && all[1] == "at"@ && all[2] == "mirror"@ && all[3] == "unit"@ && all[4]
        == "in_bom"@ && all[5] == "on_board"@ && all[6] == "dnp"@ && all[7] == "fields_autoplaced"@
        && all[8] == "uuid"@ && all[9] == "property"@ && all[10] == "pin"@ && all[11] == "instances"@);
    lemma_first_tagged(items, "lib_id"@, 0, 1);
    lemma_first_tagged(items, "at"@, 0, 2);
    if p.mirror.is_some() {
        lemma_first_tagged(items, "mirror"@, 0, 3);
    } else {
        lemma_only_in_front(items, p, "mirror"@);
        lemma_not_tagged(items, "mirror"@, 0);
    }
    lemma_first_tagged(items, "unit"@, 0, 3 + k);
    lemma_first_tagged(items, "in_bom"@, 0, 4 + k);
    lemma_first_tagged(items, "on_board"@, 0, 5 + k);
    lemma_first_tagged(items, "dnp"@, 0, 6 + k);
    if p.fields_autoplaced {
        lemma_first_tagged(items, "fields_autoplaced"@, 0, 7 + k);
    } else {
        lemma_only_in_front(items, p, "fields_autoplaced"@);
        lemma_not_tagged(items, "fields_autoplaced"@, 0);
    }
    lemma_first_tagged(items, "uuid"@, 0, n - 1);
}

/// The properties of a written symbol.
proof fn lemma_properties_found(items: Seq<Sexp>, p: Placed, n: int)
    requires
        tags_stand(items, p),
        0 <= n <= items.len(),
        forall|i: int|
            0 <= i < p.properties.len() ==> #[trigger] items[front(p) + i] == property_sexp(
                p.properties[i],
            ),
    ensures
        all_tagged(items, "property"@, n) == property_nodes(p.properties).take(
            if n <= front(p) {
                0
            } else if n <= front(p) + p.properties.len() {
                n - front(p)
            } else {
                p.properties.len() as int
            },
        ),
    decreases n,
{
    let f = front(p);
    let nodes = property_nodes(p.properties);
    lemma_tags_differ();
    if n > 0 {
        lemma_properties_found(items, p, n - 1);
        lemma_property_tags(items, p, n - 1);
        if f < n && n <= f + p.properties.len() {
            assert(items[f + (n - 1 - f)] == nodes[n - 1 - f]);
            assert(nodes.take(n - f) =~= nodes.take(n - 1 - f).push(nodes[n - 1 - f]));
        }
    } else {
        assert(nodes.take(0) =~= Seq::<Sexp>::empty());
    }
}

proof fn lemma_property_tags(items: Seq<Sexp>, p: Placed, i: int)
    requires
        tags_stand(items, p),
        0 <= i < items.len(),
    ensures
        tag_in(items[i]) == Some("property"@) <==> front(p) <= i < front(p) + p.properties.len(),
        kept(items[i]) <==> front(p) + p.properties.len() <= i,
{
    let k = mirrors(p);
    let all = seq![
        "lib_id"@,
        "at"@,
        "mirror"@,
        "unit"@,
        "in_bom"@,
        "on_board"@,
        "dnp"@,
        "fields_autoplaced"@,
        "uuid"@,
        "property"@,
        "pin"@,
        "instances"@,
    ];
    lemma_tags_differ();
    assert(all[0] == "lib_id"@ && all[1] == "at"@ && all[2] == "mirror"@ && all[3] == "unit"@ && all[4]
        == "in_bom"@ && all[5] == "on_board"@ && all[6] == "dnp"@ && all[7] == "fields_autoplaced"@
        && all[8] == "uuid"@ && all[9] == "property"@ && all[10] == "pin"@ && all[11] == "instances"@);
    if i < front(p) {
        assert(i == 0 || i == 1 || i == 2 || (i == 3 && p.mirror.is_some()) || i == 3 + k || i == 4 + k || i
            == 5 + k || i == 6 + k || (i == 7 + k && p.fields_autoplaced) || i == front(p) - 1);
    }
}

proof fn lemma_properties_read(ps: Seq<PropertyText>, n: int)
    requires
        0 <= n <= ps.len(),
        forall|i: int| 0 <= i < ps.len() ==> sound_property(#[trigger] ps[i]),
    ensures
        properties_in(property_nodes(ps), n) == ps.take(n),
    decreases n,
{
    if n > 0 {
        lemma_properties_read(ps, n - 1);
        assert(sound_property(ps[n - 1]));
        law_property_reads_back(ps[n - 1]);
        assert(ps.take(n) =~= ps.take(n - 1).push(ps[n - 1]));
    } else {
        assert(ps.take(0) =~= Seq::<PropertyText>::empty());
    }
}

/// The kept nodes of a written symbol.
proof fn lemma_kept_found(items: Seq<Sexp>, p: Placed, n: int)
    requires
        tags_stand(items, p),
        0 <= n <= items.len(),
        forall|i: int|
            0 <= i < p.raw_sub_nodes.len() ==> #[trigger] items[front(p) + p.properties.len() + i]
                == p.raw_sub_nodes[i],
    ensures
        kept_in(items, n) == p.raw_sub_nodes.take(
            if n <= front(p) + p.properties.len() {
                0
            } else {
                n - front(p) - p.properties.len()
            },
        ),
    decreases n,
{
    let f = front(p) + p.properties.len();
    let raw = p.raw_sub_nodes;
    if n > 1 {
        lemma_kept_found(items, p, n - 1);
        lemma_property_tags(items, p, n - 1);
        if f < n {
            assert(items[f + (n - 1 - f)] == raw[n - 1 - f]);
            assert(raw.take(n - f) =~= raw.take(n - 1 - f).push(raw[n - 1 - f]));
        }
    } else {
        assert(raw.take(0) =~= Seq::<Sexp>::empty());
    }
}

/// A symbol is read back as it was written.
pub proof fn law_symbol_reads_back(p: Placed)
    requires
        sound_symbol(p),
    ensures
        placed_in(placed_sexp(p)) == Ok::<Placed, SymbolError>(p),
{
    let n = placed_sexp(p);
    let items = items_in(n);
    lemma_written(p);
    lemma_tags_stand(p);
    lemma_fields_found(items, p);
    law_at_reads_back(p.at);
    law_unsigned_reads_back(p.unit as nat);
    reveal_strlit("yes");
    reveal_strlit("no");
    assert("yes"@.len() != "no"@.len());
    let k = mirrors(p);
    assert(child_text(n, "lib_id"@) == Some(p.lib_id));
    assert(child_in(n, "at"@) == Some(at_sexp(p.at)));
    assert(child_text(n, "mirror"@) == p.mirror);
    assert(unit_in(n) == p.unit);
    assert(flag_in(n, "in_bom"@, true) == p.in_bom);
    assert(flag_in(n, "on_board"@, true) == p.on_board);
    assert(flag_in(n, "dnp"@, false) == p.dnp);
    assert(child_text(n, "uuid"@) == Some(p.uuid));
    lemma_properties_found(items, p, items.len() as int);
    let nodes = property_nodes(p.properties);
    assert(nodes.take(nodes.len() as int) =~= nodes);
    assert(children_in(n, "property"@) == nodes);
    lemma_properties_read(p.properties, p.properties.len() as int);
    assert(p.properties.take(p.properties.len() as int) =~= p.properties);
    lemma_kept_found(items, p, items.len() as int);
    assert(p.raw_sub_nodes.take(p.raw_sub_nodes.len() as int) =~= p.raw_sub_nodes);
}

proof fn lemma_lists_only(items: Seq<Sexp>, n: int)
    requires
        n <= items.len(),
    ensures
        forall|i: int| 0 <= i < lists_after(items, n).len() ==> (#[trigger] lists_after(items, n)[i]) is List,
    decreases n,
{
    if n > 3 {
        lemma_lists_only(items, n - 1);
    }
}

proof fn lemma_properties_sound(nodes: Seq<Sexp>, n: int)
    requires
        n <= nodes.len(),
    ensures
        forall|i: int|
            0 <= i < properties_in(nodes, n).len() ==> sound_property(
                #[trigger] properties_in(nodes, n)[i],
            ),
    decreases n,
{
    if n > 0 {
        lemma_properties_sound(nodes, n - 1);
        let items = items_in(nodes[n - 1]);
        lemma_lists_only(items, items.len() as int);
        let before = properties_in(nodes, n - 1);
        let all = properties_in(nodes, n);
        assert forall|i: int| 0 <= i < all.len() implies sound_property(#[trigger] all[i]) by {
            if i < before.len() {
                assert(all[i] == before[i]);
            }
        }
    }
}

proof fn lemma_kept_sound(items: Seq<Sexp>, n: int)
    requires
        n <= items.len(),
    ensures
        forall|i: int| 0 <= i < kept_in(items, n).len() ==> kept(#[trigger] kept_in(items, n)[i]),
    decreases n,
{
    if n > 1 {
        lemma_kept_sound(items, n - 1);
        let before = kept_in(items, n - 1);
        let all = kept_in(items, n);
        assert forall|i: int| 0 <= i < all.len() implies kept(#[trigger] all[i]) by {
            if i < before.len() {
                assert(all[i] == before[i]);
            }
        }
    }
}

/// A symbol that was read is one that is read back as it is written; so reading,
/// writing and reading again gives the same symbol.
pub proof fn law_read_symbol_is_sound(n: Sexp)
    requires
        placed_in(n) is Ok,
    ensures
        sound_symbol(placed_in(n)->Ok_0),
        placed_in(placed_sexp(placed_in(n)->Ok_0)) == placed_in(n),
{
    let p = placed_in(n)->Ok_0;
    let nodes = children_in(n, "property"@);
    let items = items_in(n);
    lemma_properties_sound(nodes, nodes.len() as int);
    lemma_kept_sound(items, items.len() as int);
    law_symbol_reads_back(p);
}

} // verus!
