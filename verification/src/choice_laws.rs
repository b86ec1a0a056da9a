//! Which of many things are chosen: exactly those that qualify, each once, in order.

#[allow(unused_imports)]
use crate::components::on_layer;
#[allow(unused_imports)]
use crate::connectivity::{
    coincident_count, count_true, first_near, floating, near_miss, unconnected, EndpointFacts, PinFacts,
    TargetFacts, WireEnd,
};
#[allow(unused_imports)]
use crate::footprint::Footprint;
#[allow(unused_imports)]
use crate::label_laws::{lemma_contains_push, rising};
#[allow(unused_imports)]
use crate::pad_laws::{holds, lemma_holds};
#[allow(unused_imports)]
use crate::pads::{row_numbered, Pad};
#[allow(unused_imports)]
use crate::sch_batch::{pin_at, placed_at, PlacedPins};
#[allow(unused_imports)]
use crate::sch_components::{definition_at, flagged, stranded, LabelFacts};
#[allow(unused_imports)]
use crate::sexp::Sexp;
#[allow(unused_imports)]
use crate::symbol::{by_uuid_at, Placed};
#[allow(unused_imports)]
use crate::verification::{count_of, found_by, grave_enough};
use vstd::prelude::*;

verus! {

/// The positions below `n` that qualify, each once, in order.
pub open spec fn chooses(at: Seq<int>, n: int, qualifies: spec_fn(int) -> bool) -> bool {
    &&& rising(at, n)
    &&& forall|k: int| 0 <= k < n ==> #[trigger] at.contains(k) == qualifies(k)
}

/// One more position, chosen where it qualifies.
pub proof fn lemma_chooses_more(at: Seq<int>, n: int, qualifies: spec_fn(int) -> bool)
    requires
        chooses(at, n, qualifies),
        0 <= n,
    ensures
        qualifies(n) ==> chooses(at.push(n), n + 1, qualifies),
        !qualifies(n) ==> chooses(at, n + 1, qualifies),
{
    lemma_contains_push(at, n);
    assert(!at.contains(n));
}

// ─── Violations ──────────────────────────────────────────────────────────────

/// A severity that is reported where `min` is the least: errors only, errors and
/// warnings, or everything.
pub open spec fn is_reported(severity: Seq<char>, min: Seq<char>) -> bool {
    if min == "error"@ {
        severity == "error"@
    } else if min == "warning"@ {
        severity == "error"@ || severity == "warning"@
    } else {
        true
    }
}

/// The violations that are reported are those of the severities asked for.
pub proof fn law_violations_of_the_severity_are_kept(
    severities: Seq<Seq<char>>,
    min: Seq<char>,
    n: int,
)
    requires
        0 <= n <= severities.len(),
    ensures
        chooses(grave_enough(severities, min, n), n, |k: int| is_reported(severities[k], min)),
    decreases n,
{
    reveal_strlit("error");
    reveal_strlit("warning");
    let p = |k: int| is_reported(severities[k], min);
    if n > 0 {
        law_violations_of_the_severity_are_kept(severities, min, n - 1);
        lemma_chooses_more(grave_enough(severities, min, n - 1), n - 1, p);
    }
}

/// As many violations are counted under a severity as have it and are reported.
pub proof fn law_violations_are_counted(
    severities: Seq<Seq<char>>,
    min: Seq<char>,
    severity: Seq<char>,
    n: int,
) -> (at: Seq<int>)
    requires
        0 <= n <= severities.len(),
    ensures
        chooses(
            at,
            n,
            |k: int| is_reported(severities[k], min) && severities[k] == severity,
        ),
        count_of(severities, min, severity, n) == at.len(),
    decreases n,
{
    reveal_strlit("error");
    reveal_strlit("warning");
    let p = |k: int| is_reported(severities[k], min) && severities[k] == severity;
    if n <= 0 {
        Seq::empty()
    } else {
        let at = law_violations_are_counted(severities, min, severity, n - 1);
        lemma_chooses_more(at, n - 1, p);
        if p(n - 1) {
            at.push(n - 1)
        } else {
            at
        }
    }
}

/// The violations of the tests named, and all of them where no test is.
pub proof fn law_violations_of_the_tests_are_kept(
    kinds: Seq<Seq<char>>,
    tests: Seq<Seq<char>>,
    n: int,
)
    requires
        0 <= n <= kinds.len(),
    ensures
        chooses(
            found_by(kinds, tests, n),
            n,
            |k: int| tests.len() == 0 || tests.contains(kinds[k]),
        ),
    decreases n,
{
    let p = |k: int| tests.len() == 0 || tests.contains(kinds[k]);
    if n > 0 {
        law_violations_of_the_tests_are_kept(kinds, tests, n - 1);
        lemma_chooses_more(found_by(kinds, tests, n - 1), n - 1, p);
    }
}

// ─── Labels, components, footprints ──────────────────────────────────────────

/// The labels that a deleted component leaves hanging are those on one of its pins and
/// on no pin of another.
pub proof fn law_stranded_labels_are_those_on_no_other_pin(labels: Seq<LabelFacts>, n: int)
    requires
        0 <= n <= labels.len(),
    ensures
        chooses(
            stranded(labels, n),
            n,
            |k: int| labels[k].on_deleted_pin && !labels[k].on_other_pin,
        ),
    decreases n,
{
    let p = |k: int| labels[k].on_deleted_pin && !labels[k].on_other_pin;
    if n > 0 {
        law_stranded_labels_are_those_on_no_other_pin(labels, n - 1);
        lemma_chooses_more(stranded(labels, n - 1), n - 1, p);
    }
}

/// The components of a region are those that lie in it.
pub proof fn law_region_holds_what_lies_in_it(inside: Seq<bool>, n: int)
    requires
        0 <= n <= inside.len(),
    ensures
        chooses(flagged(inside, n), n, |k: int| inside[k]),
    decreases n,
{
    let p = |k: int| inside[k];
    if n > 0 {
        law_region_holds_what_lies_in_it(inside, n - 1);
        lemma_chooses_more(flagged(inside, n - 1), n - 1, p);
    }
}

/// The footprints listed are those on the layer asked for, and all of them where none
/// is.
pub proof fn law_listed_footprints_are_on_the_layer(
    fps: Seq<Footprint>,
    layer: Option<Seq<char>>,
    n: int,
) -> (at: Seq<int>)
    requires
        0 <= n <= fps.len(),
    ensures
        chooses(at, n, |k: int| layer is None || fps[k].layer == layer),
        on_layer(fps, layer, n).len() == at.len(),
        forall|i: int| 0 <= i < at.len() ==> on_layer(fps, layer, n)[i] == fps[#[trigger] at[i]],
    decreases n,
{
    let p = |k: int| layer is None || fps[k].layer == layer;
    if n <= 0 {
        Seq::empty()
    } else {
        let at = law_listed_footprints_are_on_the_layer(fps, layer, n - 1);
        lemma_chooses_more(at, n - 1, p);
        if p(n - 1) {
            let more = at.push(n - 1);
            assert forall|i: int| 0 <= i < more.len() implies on_layer(fps, layer, n)[i] == fps[
            #[trigger] more[i]] by {
                if i < at.len() {
                    assert(more[i] == at[i]);
                }
            }
            more
        } else {
            at
        }
    }
}

// ─── Loose wires and pins ────────────────────────────────────────────────────

/// An end that meets something: another end is there beside itself, it lies on the
/// inside of a wire, or a label or a pin is there.
pub open spec fn joins(e: WireEnd) -> bool {
    ||| exists|i: int, j: int|
        0 <= i < j < e.wire_ends@.len() && #[trigger] e.wire_ends@[i] && #[trigger] e.wire_ends@[j]
    ||| exists|k: int|
        0 <= k < e.wires@.len() && (#[trigger] e.wires@[k]).on_wire && !e.wires@[k].at_start
            && !e.wires@[k].at_end
    ||| exists|k: int| 0 <= k < e.labels@.len() && #[trigger] e.labels@[k]
    ||| exists|k: int| 0 <= k < e.pins@.len() && #[trigger] e.pins@[k]
}

proof fn lemma_count_true(v: Seq<bool>, n: int)
    requires
        0 <= n <= v.len(),
    ensures
        count_true(v, n) >= 0,
        count_true(v, n) >= 1 <==> exists|i: int| 0 <= i < n && #[trigger] v[i],
        count_true(v, n) >= 2 <==> exists|i: int, j: int|
            0 <= i < j < n && #[trigger] v[i] && #[trigger] v[j],
    decreases n,
{
    if n > 0 {
        lemma_count_true(v, n - 1);
        let before = count_true(v, n - 1);
        if before >= 1 {
            let i = choose|i: int| 0 <= i < n - 1 && #[trigger] v[i];
            assert(v[i]);
            if v[n - 1] {
                assert(v[i] && v[n - 1]);
            }
        }
        if before >= 2 {
            let (i, j) = choose|i: int, j: int|
                0 <= i < j < n - 1 && #[trigger] v[i] && #[trigger] v[j];
            assert(v[i] && v[j]);
        }
        if exists|i: int, j: int| 0 <= i < j < n && #[trigger] v[i] && #[trigger] v[j] {
            let (i, j) = choose|i: int, j: int| 0 <= i < j < n && #[trigger] v[i] && #[trigger] v[j];
            assert(v[i]);
            if j < n - 1 {
                assert(v[j]);
                assert(before >= 2);
            } else {
                assert(before >= 1);
            }
        }
        if exists|i: int| 0 <= i < n && #[trigger] v[i] {
            let i = choose|i: int| 0 <= i < n && #[trigger] v[i];
            if i < n - 1 {
                assert(before >= 1);
            }
        }
    }
}

/// The ends of wires that float are those that meet nothing.
pub proof fn law_floating_ends_meet_nothing(ends: Seq<WireEnd>, n: int)
    requires
        0 <= n <= ends.len(),
    ensures
        chooses(floating(ends, n), n, |k: int| !joins(ends[k])),
    decreases n,
{
    let p = |k: int| !joins(ends[k]);
    if n > 0 {
        law_floating_ends_meet_nothing(ends, n - 1);
        let e = ends[n - 1];
        lemma_count_true(e.wire_ends@, e.wire_ends@.len() as int);
        lemma_chooses_more(floating(ends, n - 1), n - 1, p);
    }
}

/// A pin that is left open and should not be: it is among those asked for, it is not
/// passive, it carries no power where power is passed over, and neither a no-connect
/// flag nor a wire nor a named net is at it.
pub open spec fn left_open(p: PinFacts, only: Seq<Seq<char>>, ignore_power: bool) -> bool {
    &&& only.len() == 0 || only.contains(p.reference@)
    &&& p.electrical_type@ != "passive"@
    &&& ignore_power ==> p.electrical_type@ != "power_in"@ && p.electrical_type@ != "power_out"@
    &&& forall|k: int| 0 <= k < p.no_connects@.len() ==> !(#[trigger] p.no_connects@[k])
    &&& forall|k: int| 0 <= k < p.wire_ends@.len() ==> !(#[trigger] p.wire_ends@[k])
    &&& !p.on_named_net
}

/// The pins that are reported are those left open that should not be.
pub proof fn law_unconnected_pins_are_left_open(
    pins: Seq<PinFacts>,
    only: Seq<Seq<char>>,
    ignore_power: bool,
    n: int,
)
    requires
        0 <= n <= pins.len(),
    ensures
        chooses(
            unconnected(pins, only, ignore_power, n),
            n,
            |k: int| left_open(pins[k], only, ignore_power),
        ),
    decreases n,
{
    let p = |k: int| left_open(pins[k], only, ignore_power);
    if n > 0 {
        law_unconnected_pins_are_left_open(pins, only, ignore_power, n - 1);
        lemma_chooses_more(unconnected(pins, only, ignore_power, n - 1), n - 1, p);
    }
}

/// The end of a wire meets something: two points are where it is, its own among them, or
/// it lies on the inside of a wire.
pub open spec fn meets(e: EndpointFacts) -> bool {
    ||| exists|i: int, j: int|
        0 <= i < j < e.targets@.len() && (#[trigger] e.targets@[i]).coincident && (
        #[trigger] e.targets@[j]).coincident
    ||| exists|k: int|
        0 <= k < e.wires@.len() && (#[trigger] e.wires@[k]).on_wire && !e.wires@[k].at_start
            && !e.wires@[k].at_end
}

proof fn lemma_coincident(targets: Seq<TargetFacts>, n: int)
    requires
        0 <= n <= targets.len(),
    ensures
        coincident_count(targets, n) == count_true(
            Seq::new(targets.len(), |i: int| targets[i].coincident),
            n,
        ),
    decreases n,
{
    if n > 0 {
        lemma_coincident(targets, n - 1);
    }
}

proof fn lemma_first_near(targets: Seq<TargetFacts>, k: int)
    requires
        0 <= k,
        forall|j: int| 0 <= j < k && j < targets.len() ==> !(#[trigger] targets[j]).near,
    ensures
        match first_near(targets, k) {
            Some(i) => 0 <= i < targets.len() && targets[i].near && forall|j: int|
                0 <= j < i ==> !(#[trigger] targets[j]).near,
            None => forall|j: int| 0 <= j < targets.len() ==> !(#[trigger] targets[j]).near,
        },
    decreases targets.len() - k,
{
    if k < targets.len() && !targets[k].near {
        lemma_first_near(targets, k + 1);
    }
}

/// An end is reported as a near miss where it meets nothing and a point is near it: the
/// first such point.
pub proof fn law_near_miss_is_the_first_near_point(e: EndpointFacts)
    ensures
        near_miss(e) is Some <==> !meets(e) && exists|k: int|
            0 <= k < e.targets@.len() && (#[trigger] e.targets@[k]).near,
        near_miss(e) matches Some(i) ==> 0 <= i < e.targets@.len() && e.targets@[i].near && forall|
            j: int,
        |
            0 <= j < i ==> !(#[trigger] e.targets@[j]).near,
{
    let t = e.targets@;
    let flags = Seq::new(t.len(), |i: int| t[i].coincident);
    lemma_coincident(t, t.len() as int);
    lemma_count_true(flags, t.len() as int);
    lemma_first_near(t, 0);
    if exists|i: int, j: int| 0 <= i < j < t.len() && #[trigger] flags[i] && #[trigger] flags[j] {
        let (i, j) = choose|i: int, j: int|
            0 <= i < j < t.len() && #[trigger] flags[i] && #[trigger] flags[j];
        assert(t[i].coincident && t[j].coincident);
    }
    if exists|i: int, j: int|
        0 <= i < j < t.len() && (#[trigger] t[i]).coincident && (#[trigger] t[j]).coincident {
        let (i, j) = choose|i: int, j: int|
            0 <= i < j < t.len() && (#[trigger] t[i]).coincident && (#[trigger] t[j]).coincident;
        assert(flags[i] && flags[j]);
    }
}

// ─── Pins ────────────────────────────────────────────────────────────────────

/// A component is found by its designator: the first that has it, and none only where
/// no component has it.
pub proof fn law_first_component_is_found(placed: Seq<PlacedPins>, reference: Seq<char>, from: int)
    requires
        0 <= from,
        forall|j: int| 0 <= j < from && j < placed.len() ==> (#[trigger] placed[j]).reference@ != reference,
    ensures
        match placed_at(placed, reference, from) {
            Some(i) => 0 <= i < placed.len() && placed[i].reference@ == reference && forall|j: int|
                0 <= j < i ==> (#[trigger] placed[j]).reference@ != reference,
            None => forall|j: int| 0 <= j < placed.len() ==> (#[trigger] placed[j]).reference@ != reference,
        },
    decreases placed.len() - from,
{
    if from < placed.len() && placed[from].reference@ != reference {
        law_first_component_is_found(placed, reference, from + 1);
    }
}

/// A pin is found by its number: the first that has it, and none only where no pin has
/// it.
pub proof fn law_first_pin_is_found(pins: Seq<String>, number: Seq<char>, from: int)
    requires
        0 <= from,
        forall|j: int| 0 <= j < from && j < pins.len() ==> (#[trigger] pins[j])@ != number,
    ensures
        match pin_at(pins, number, from) {
            Some(i) => 0 <= i < pins.len() && pins[i]@ == number && forall|j: int|
                0 <= j < i ==> (#[trigger] pins[j])@ != number,
            None => forall|j: int| 0 <= j < pins.len() ==> (#[trigger] pins[j])@ != number,
        },
    decreases pins.len() - from,
{
    if from < pins.len() && pins[from]@ != number {
        law_first_pin_is_found(pins, number, from + 1);
    }
}

/// A symbol is found by its identifier: the first that has it, and none only where no
/// symbol has it.
pub proof fn law_first_symbol_is_found(v: Seq<Placed>, uuid: Seq<char>, from: int)
    requires
        0 <= from,
        forall|j: int| 0 <= j < from && j < v.len() ==> (#[trigger] v[j]).uuid != uuid,
    ensures
        match by_uuid_at(v, uuid, from) {
            Some(i) => 0 <= i < v.len() && v[i].uuid == uuid && forall|j: int|
                0 <= j < i ==> (#[trigger] v[j]).uuid != uuid,
            None => forall|j: int| 0 <= j < v.len() ==> (#[trigger] v[j]).uuid != uuid,
        },
    decreases v.len() - from,
{
    if from < v.len() && v[from].uuid != uuid {
        law_first_symbol_is_found(v, uuid, from + 1);
    }
}

/// A pad is found by its number: the first that has it, and none only where no pad has
/// it.
pub proof fn law_first_pad_is_found(pads: Seq<Pad>, number: Seq<char>, from: int)
    requires
        0 <= from,
        forall|j: int| 0 <= j < from && j < pads.len() ==> (#[trigger] pads[j]).number != number,
    ensures
        match row_numbered(pads, number, from) {
            Some(i) => 0 <= i < pads.len() && pads[i].number == number && forall|j: int|
                0 <= j < i ==> (#[trigger] pads[j]).number != number,
            None => forall|j: int| 0 <= j < pads.len() ==> (#[trigger] pads[j]).number != number,
        },
    decreases pads.len() - from,
{
    if from < pads.len() && pads[from].number != number {
        law_first_pad_is_found(pads, number, from + 1);
    }
}

/// A definition is found by the name that follows its head: the first that has it, and
/// none only where no definition has it.
pub proof fn law_first_definition_is_found(nodes: Seq<Sexp>, lib_id: Seq<char>, from: int)
    requires
        0 <= from,
        forall|j: int| 0 <= j < from && j < nodes.len() ==> !(holds(#[trigger] nodes[j], 1, lib_id)),
    ensures
        definition_at(nodes, lib_id, from) is None <==> forall|j: int|
            0 <= j < nodes.len() ==> !(holds(#[trigger] nodes[j], 1, lib_id)),
        definition_at(nodes, lib_id, from) matches Some(d) ==> exists|i: int|
            0 <= i < nodes.len() && #[trigger] nodes[i] == d && holds(d, 1, lib_id) && forall|j: int|
                0 <= j < i ==> !(holds(#[trigger] nodes[j], 1, lib_id)),
    decreases nodes.len() - from,
{
    if from < nodes.len() {
        lemma_holds(nodes[from], 1, lib_id);
        if !(holds(nodes[from], 1, lib_id)) {
            law_first_definition_is_found(nodes, lib_id, from + 1);
        }
    }
}

} // verus!
