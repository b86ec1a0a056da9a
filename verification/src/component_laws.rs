//! What is found of a schematic's components after one was placed or deleted.

use crate::sch_components::{
    new_component, pruned, pruned_node, reference_for, value_for, without_definition, NewComponent,
};
use crate::schematic::{defined_in, has_definition, is_definition};
use crate::sexp::{items_in, tag_in, Sexp};
use crate::symbol::{
    by_reference_at, has_instance, law_set_then_has_instance, property_at, reference_of, value_of,
    Placed,
};
use vstd::prelude::*;

verus! {

// ─── Placing ─────────────────────────────────────────────────────────────────

proof fn lemma_found_behind(v: Seq<Placed>, p: Placed, reference: Seq<char>, k: int)
    requires
        0 <= k <= v.len(),
    ensures
        by_reference_at(v.push(p), reference, k) == match by_reference_at(v, reference, k) {
            Some(i) => Some(i),
            None => if reference_of(p) == Some(reference) {
                Some(v.len() as int)
            } else {
                None
            },
        },
    decreases v.len() - k,
{
    if k < v.len() {
        assert(v.push(p)[k] == v[k]);
        lemma_found_behind(v, p, reference, k + 1);
    } else {
        assert(v.push(p)[k] == p);
        assert(by_reference_at(v.push(p), reference, k + 1).is_none());
    }
}

/// A component that is placed is found under its designator, with the value it was
/// given and an entry under the sheet it was placed on. Components that were there are
/// found as before, and deleting the new one again leaves exactly them.
///
/// Where the designator is in use already, the first component that has it is the one
/// that is found.
pub proof fn law_placed_component_is_found(
    v: Seq<Placed>,
    c: NewComponent,
    project: Seq<char>,
    root: Seq<char>,
    uuid: Seq<char>,
)
    ensures
        ({
            let p = new_component(c, project, root, uuid);
            let w = v.push(p);
            let r = reference_for(c);
            &&& reference_of(p) == Some(r)
            &&& value_of(p) == Some(value_for(c))
            &&& has_instance(p.raw_sub_nodes, project, "/"@ + root)
            &&& by_reference_at(v, r, 0).is_none() ==> by_reference_at(w, r, 0) == Some(v.len() as int)
                && w[v.len() as int] == p && w.remove(v.len() as int) == v
            &&& forall|x: Seq<char>|
                x != r || by_reference_at(v, x, 0).is_some() ==> #[trigger] by_reference_at(w, x, 0)
                    == by_reference_at(v, x, 0)
        }),
{
    let p = new_component(c, project, root, uuid);
    let w = v.push(p);
    let r = reference_for(c);
    let ps = p.properties;
    reveal_strlit("Reference");
    reveal_strlit("Value");
    assert("Reference"@.len() != "Value"@.len());
    assert(ps[0].name == "Reference"@ && ps[1].name == "Value"@);
    assert(property_at(ps, "Reference"@, 0) == Some(0int));
    assert(property_at(ps, "Value"@, 1) == Some(1int));
    assert(property_at(ps, "Value"@, 0) == Some(1int));
    law_set_then_has_instance(Seq::empty(), project, "/"@ + root, r, c.unit as int);
    lemma_found_behind(v, p, r, 0);
    assert(w.remove(v.len() as int) =~= v);
    assert forall|x: Seq<char>| x != r || by_reference_at(v, x, 0).is_some() implies
        #[trigger] by_reference_at(w, x, 0) == by_reference_at(v, x, 0) by {
        lemma_found_behind(v, p, x, 0);
    }
}

// ─── Deleting ────────────────────────────────────────────────────────────────

/// The first symbol with the designator.
pub open spec fn symbol_found(v: Seq<Placed>, reference: Seq<char>, k: int) -> Option<Placed> {
    match by_reference_at(v, reference, k) {
        Some(i) => Some(v[i]),
        None => None,
    }
}

proof fn lemma_found_without(v: Seq<Placed>, j: int, reference: Seq<char>, k: int)
    requires
        0 <= j < v.len(),
        0 <= k <= v.len(),
        reference_of(v[j]) != Some(reference),
    ensures
        symbol_found(
            v.remove(j),
            reference,
            if k <= j {
                k
            } else {
                k - 1
            },
        ) == symbol_found(v, reference, k),
    decreases v.len() - k,
{
    let w = v.remove(j);
    if k < v.len() {
        lemma_found_without(v, j, reference, k + 1);
        if k < j {
            assert(w[k] == v[k]);
        } else if k > j {
            assert(w[k - 1] == v[k]);
        }
    }
}

proof fn lemma_found_is(v: Seq<Placed>, reference: Seq<char>, k: int)
    requires
        0 <= k,
    ensures
        match by_reference_at(v, reference, k) {
            Some(i) => k <= i < v.len() && reference_of(v[i]) == Some(reference),
            None => forall|i: int| k <= i < v.len() ==> reference_of(#[trigger] v[i]) != Some(reference),
        },
    decreases v.len() - k,
{
    if k < v.len() {
        lemma_found_is(v, reference, k + 1);
    }
}

/// Deleting a component by its designator leaves the others to be found as before. The
/// designator itself is not found any more, unless another component has it too.
pub proof fn law_deleted_symbol_is_gone(v: Seq<Placed>, reference: Seq<char>)
    requires
        by_reference_at(v, reference, 0).is_some(),
    ensures
        ({
            let j = by_reference_at(v, reference, 0).unwrap();
            let w = v.remove(j);
            &&& 0 <= j < v.len()
            &&& reference_of(v[j]) == Some(reference)
            &&& forall|x: Seq<char>|
                x != reference ==> #[trigger] symbol_found(w, x, 0) == symbol_found(v, x, 0)
            &&& (forall|i: int|
                0 <= i < v.len() && i != j ==> reference_of(#[trigger] v[i]) != Some(reference))
                ==> by_reference_at(w, reference, 0).is_none()
        }),
{
    let j = by_reference_at(v, reference, 0).unwrap();
    let w = v.remove(j);
    lemma_found_is(v, reference, 0);
    assert forall|x: Seq<char>| x != reference implies #[trigger] symbol_found(w, x, 0) == symbol_found(
        v,
        x,
        0,
    ) by {
        lemma_found_without(v, j, x, 0);
    }
    lemma_found_is(w, reference, 0);
    if let Some(i) = by_reference_at(w, reference, 0) {
        if i < j {
            assert(w[i] == v[i]);
        } else {
            assert(w[i] == v[i + 1]);
        }
    }
}

// ─── Definitions ─────────────────────────────────────────────────────────────

proof fn lemma_definitions_left(items: Seq<Sexp>, lib_id: Seq<char>, n: int, x: Sexp)
    requires
        0 <= n <= items.len(),
    ensures
        without_definition(items, lib_id, n).contains(x) <==> !is_definition(x, lib_id) && items.take(
            n,
        ).contains(x),
    decreases n,
{
    let left = without_definition(items, lib_id, n);
    if n > 0 {
        lemma_definitions_left(items, lib_id, n - 1, x);
        let before = without_definition(items, lib_id, n - 1);
        let y = items[n - 1];
        assert(items.take(n) =~= items.take(n - 1).push(y));
        assert(items.take(n).contains(x) <==> items.take(n - 1).contains(x) || x == y) by {
            if x == y {
                assert(items.take(n)[n - 1] == x);
            }
            if items.take(n - 1).contains(x) {
                let i = items.take(n - 1).index_of(x);
                assert(items.take(n)[i] == x);
            }
            if items.take(n).contains(x) {
                let i = items.take(n).index_of(x);
                if i < n - 1 {
                    assert(items.take(n - 1)[i] == x);
                }
            }
        }
        if !is_definition(y, lib_id) {
            assert(left.contains(x) <==> before.contains(x) || x == y) by {
                if x == y {
                    assert(left[before.len() as int] == x);
                }
                if before.contains(x) {
                    let i = before.index_of(x);
                    assert(left[i] == x);
                }
                if left.contains(x) {
                    let i = left.index_of(x);
                    if i < before.len() {
                        assert(before[i] == x);
                    }
                }
            }
        }
    } else {
        assert(items.take(0) =~= Seq::<Sexp>::empty());
    }
}

/// Whether a node with the definitions of one name taken out defines another, or this
/// one.
proof fn lemma_defined_in_node(items: Seq<Sexp>, lib_id: Seq<char>, other: Seq<char>)
    ensures
        has_definition(without_definition(items, lib_id, items.len() as int), other) == (other != lib_id
            && has_definition(items, other)),
{
    let n = items.len() as int;
    let left = without_definition(items, lib_id, n);
    assert(items.take(n) =~= items);
    if has_definition(left, other) {
        let i = choose|i: int| 0 <= i < left.len() && is_definition(#[trigger] left[i], other);
        let x = left[i];
        lemma_definitions_left(items, lib_id, n, x);
        assert(left.contains(x));
        let k = items.index_of(x);
        assert(is_definition(items[k], other));
    }
    if other != lib_id && has_definition(items, other) {
        let i = choose|i: int| 0 <= i < items.len() && is_definition(#[trigger] items[i], other);
        let x = items[i];
        lemma_definitions_left(items, lib_id, n, x);
        assert(items.contains(x));
        let k = left.index_of(x);
        assert(is_definition(left[k], other));
    }
}

/// A definition that is pruned is gone, and every other definition stays.
pub proof fn law_pruned_definition_is_gone(nodes: Seq<Sexp>, lib_id: Seq<char>, other: Seq<char>)
    ensures
        !defined_in(pruned(nodes, lib_id), lib_id),
        other != lib_id ==> defined_in(pruned(nodes, lib_id), other) == defined_in(nodes, other),
{
    let after = pruned(nodes, lib_id);
    assert forall|i: int| 0 <= i < nodes.len() implies tag_in(#[trigger] after[i]) == tag_in(nodes[i]) by {
        lemma_tag_stays(nodes[i], lib_id);
    }
    if defined_in(after, lib_id) {
        let i = choose|i: int|
            0 <= i < after.len() && tag_in(#[trigger] after[i]) == Some("lib_symbols"@) && has_definition(
                items_in(after[i]),
                lib_id,
            );
        assert(tag_in(nodes[i]) == Some("lib_symbols"@));
        lemma_defined_in_node(items_in(nodes[i]), lib_id, lib_id);
    }
    if other != lib_id {
        if defined_in(after, other) {
            let i = choose|i: int|
                0 <= i < after.len() && tag_in(#[trigger] after[i]) == Some("lib_symbols"@) && has_definition(
                    items_in(after[i]),
                    other,
                );
            assert(tag_in(nodes[i]) == Some("lib_symbols"@));
            lemma_defined_in_node(items_in(nodes[i]), lib_id, other);
            assert(has_definition(items_in(nodes[i]), other));
        }
        if defined_in(nodes, other) {
            let i = choose|i: int|
                0 <= i < nodes.len() && tag_in(#[trigger] nodes[i]) == Some("lib_symbols"@) && has_definition(
                    items_in(nodes[i]),
                    other,
                );
            lemma_defined_in_node(items_in(nodes[i]), lib_id, other);
            assert(tag_in(after[i]) == Some("lib_symbols"@));
            assert(has_definition(items_in(after[i]), other));
        }
    }
}

proof fn lemma_tag_stays(n: Sexp, lib_id: Seq<char>)
    ensures
        tag_in(pruned_node(n, lib_id)) == tag_in(n),
{
    if tag_in(n) == Some("lib_symbols"@) {
        let items = items_in(n);
        lemma_first_stays(items, lib_id, items.len() as int);
    }
}

proof fn lemma_first_stays(items: Seq<Sexp>, lib_id: Seq<char>, n: int)
    requires
        0 < n <= items.len(),
        !is_definition(items[0], lib_id),
    ensures
        without_definition(items, lib_id, n).len() > 0,
        without_definition(items, lib_id, n)[0] == items[0],
    decreases n,
{
    if n > 1 {
        lemma_first_stays(items, lib_id, n - 1);
    } else {
        assert(without_definition(items, lib_id, 0).len() == 0);
    }
}

} // verus!
