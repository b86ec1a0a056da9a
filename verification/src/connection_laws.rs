//! Which loose ends of wires are moved, and where to, in terms of what lies about them.

#[allow(unused_imports)]
use crate::connectivity::{coincident_count, first_near, first_set, fix_edit, fixes_of, is_met, near_miss, stretch_edit, stretch_edits, wire_edit, EndpointFacts, StretchFacts, TargetFacts};
#[allow(unused_imports)]
use crate::edit::Splice;
#[allow(unused_imports)]
use crate::label_laws::{lemma_contains_push, rising};
use vstd::prelude::*;

verus! {

// ─── Loose ends ──────────────────────────────────────────────────────────────

/// The end meets something: two points are where it is, or it lies on the inside of a
/// wire.
pub open spec fn meets(e: EndpointFacts) -> bool {
    ||| exists|i: int, j: int|
        0 <= i < j < e.targets@.len() && (#[trigger] e.targets@[i]).coincident && (
        #[trigger] e.targets@[j]).coincident
    ||| exists|k: int|
        0 <= k < e.wires@.len() && (#[trigger] e.wires@[k]).on_wire && !e.wires@[k].at_start
            && !e.wires@[k].at_end
}

/// Point `k` is the first that is near the end.
pub open spec fn nearest(e: EndpointFacts, k: int) -> bool {
    &&& 0 <= k < e.targets@.len()
    &&& e.targets@[k].near
    &&& forall|j: int| 0 <= j < k ==> !(#[trigger] e.targets@[j]).near
}

/// The end meets nothing, and some point is near it.
pub open spec fn is_loose(e: EndpointFacts) -> bool {
    !meets(e) && exists|k: int| 0 <= k < e.targets@.len() && (#[trigger] e.targets@[k]).near
}

proof fn lemma_count(targets: Seq<TargetFacts>, n: int)
    requires
        0 <= n <= targets.len(),
    ensures
        coincident_count(targets, n) >= 0,
        coincident_count(targets, n) >= 1 <==> exists|i: int|
            0 <= i < n && (#[trigger] targets[i]).coincident,
        coincident_count(targets, n) >= 2 <==> exists|i: int, j: int|
            0 <= i < j < n && (#[trigger] targets[i]).coincident && (#[trigger] targets[j]).coincident,
    decreases n,
{
    if n > 0 {
        lemma_count(targets, n - 1);
        let before = coincident_count(targets, n - 1);
        if targets[n - 1].coincident && before >= 1 {
            let i = choose|i: int| 0 <= i < n - 1 && (#[trigger] targets[i]).coincident;
            assert(targets[i].coincident && targets[n - 1].coincident);
        }
        if before >= 2 {
            let (i, j) = choose|i: int, j: int|
                0 <= i < j < n - 1 && (#[trigger] targets[i]).coincident && (
                #[trigger] targets[j]).coincident;
            assert(targets[i].coincident && targets[j].coincident);
        }
        if exists|i: int, j: int|
            0 <= i < j < n && (#[trigger] targets[i]).coincident && (#[trigger] targets[j]).coincident {
            let (i, j) = choose|i: int, j: int|
                0 <= i < j < n && (#[trigger] targets[i]).coincident && (
                #[trigger] targets[j]).coincident;
            assert(targets[i].coincident);
            if j < n - 1 {
                assert(targets[j].coincident);
                assert(before >= 2);
            } else {
                assert(before >= 1);
            }
        }
        if exists|i: int| 0 <= i < n && (#[trigger] targets[i]).coincident {
            let i = choose|i: int| 0 <= i < n && (#[trigger] targets[i]).coincident;
            if i < n - 1 {
                assert(targets[i].coincident);
                assert(before >= 1);
            }
        }
    }
}

proof fn lemma_meets(e: EndpointFacts)
    ensures
        is_met(e) == meets(e),
{
    lemma_count(e.targets@, e.targets@.len() as int);
}

proof fn lemma_nearest(targets: Seq<TargetFacts>, k: int)
    requires
        0 <= k,
        forall|j: int| 0 <= j < k && j < targets.len() ==> !(#[trigger] targets[j]).near,
    ensures
        match first_near(targets, k) {
            Some(i) => 0 <= i < targets.len() && targets[i].near && forall|j: int|
                0 <= j < i ==> !(#[trigger] targets[j]).near,
            None => forall|j: int| 0 <= j < targets.len() ==> !(#[trigger] targets[j]).near,
        },
    decreases targets.len() - k,
{
    if k < targets.len() && !targets[k].near {
        lemma_nearest(targets, k + 1);
    }
}

/// The edit that moves a loose end onto a point: made for a wire with a uuid whose end
/// can be located, and never in a dry run.
pub open spec fn end_moved(s: Seq<u8>, e: EndpointFacts, k: int, dry_run: bool, edit: Splice) -> bool {
    &&& !dry_run
    &&& e.wire_uuid matches Some(u) && wire_edit(s, u@, e.is_start, e.targets@[k].x@, e.targets@[k].y@)
        == Some(edit)
}

/// Each end that meets nothing and has a point near it is reported, in order, with the
/// first of those points, and no other end is. It counts as applied exactly where the
/// edit that moves it onto that point can be made, and the edits are those, in order.
pub proof fn law_loose_ends_go_to_the_nearest_point(
    s: Seq<u8>,
    ends: Seq<EndpointFacts>,
    dry_run: bool,
    n: int,
) -> (r: (Seq<int>, Seq<int>))
    requires
        0 <= n <= ends.len(),
    ensures
        ({
            let f = fixes_of(s, ends, dry_run, n);
            let (at, made) = r;
            &&& rising(at, n)
            &&& forall|i: int| 0 <= i < n ==> at.contains(i) == is_loose(#[trigger] ends[i])
            &&& f.fixes.len() == at.len()
            &&& forall|i: int|
                #![trigger f.fixes[i]]
                0 <= i < at.len() ==> f.fixes[i].endpoint == at[i] && nearest(
                    ends[at[i]],
                    f.fixes[i].target,
                )
            &&& rising(made, f.fixes.len() as int)
            &&& forall|i: int|
                0 <= i < f.fixes.len() ==> made.contains(i) == (#[trigger] f.fixes[i]).applied
            &&& f.edits.len() == made.len()
            &&& forall|i: int|
                0 <= i < made.len() ==> end_moved(
                    s,
                    ends[f.fixes[#[trigger] made[i]].endpoint],
                    f.fixes[made[i]].target,
                    dry_run,
                    f.edits[i],
                )
            &&& forall|i: int, e: Splice|
                #![trigger f.fixes[i], end_moved(s, ends[at[i]], f.fixes[i].target, dry_run, e)]
                0 <= i < f.fixes.len() && end_moved(
                    s,
                    ends[at[i]],
                    f.fixes[i].target,
                    dry_run,
                    e,
                ) ==> f.fixes[i].applied
        }),
    decreases n,
{
    let f = fixes_of(s, ends, dry_run, n);
    if n <= 0 {
        (Seq::empty(), Seq::empty())
    } else {
        let before = fixes_of(s, ends, dry_run, n - 1);
        let (at, made) = law_loose_ends_go_to_the_nearest_point(s, ends, dry_run, n - 1);
        let e = ends[n - 1];
        lemma_meets(e);
        lemma_nearest(e.targets@, 0);
        assert(!at.contains(n - 1));
        match near_miss(e) {
            None => (at, made),
            Some(k) => {
                assert(e.targets@[k].near);
                let more = at.push(n - 1);
                lemma_contains_push(at, n - 1);
                let m = before.fixes.len() as int;
                assert(!made.contains(m));
                assert forall|i: int| 0 <= i < m implies #[trigger] f.fixes[i] == before.fixes[i] by {}
                match fix_edit(s, e, k, dry_run) {
                    Some(x) => {
                        let all = made.push(m);
                        lemma_contains_push(made, m);
                        assert forall|i: int| 0 <= i < all.len() implies end_moved(
                            s,
                            ends[f.fixes[#[trigger] all[i]].endpoint],
                            f.fixes[all[i]].target,
                            dry_run,
                            f.edits[i],
                        ) by {
                            if i < made.len() {
                                assert(all[i] == made[i]);
                                assert(f.fixes[made[i]] == before.fixes[made[i]]);
                            }
                        }
                        (more, all)
                    },
                    None => {
                        assert forall|i: int| 0 <= i < made.len() implies end_moved(
                            s,
                            ends[f.fixes[#[trigger] made[i]].endpoint],
                            f.fixes[made[i]].target,
                            dry_run,
                            f.edits[i],
                        ) by {
                            assert(f.fixes[made[i]] == before.fixes[made[i]]);
                        }
                        (more, made)
                    },
                }
            },
        }
    }
}

// ─── Ends that follow a pin ──────────────────────────────────────────────────

/// Pin `k` is the first that the end stands on.
pub open spec fn stands_on(e: StretchFacts, k: int) -> bool {
    &&& 0 <= k < e.on_pins@.len()
    &&& e.on_pins@[k]
    &&& forall|j: int| 0 <= j < k ==> !(#[trigger] e.on_pins@[j])
}

/// The edit that takes an end to where its pin is now.
pub open spec fn follows(
    s: Seq<u8>,
    e: StretchFacts,
    places: Seq<(Seq<char>, Seq<char>)>,
    edit: Splice,
) -> bool {
    exists|k: int| #[trigger]
        stands_on(e, k) && k < places.len() && e.wire_uuid is Some && wire_edit(
            s,
            e.wire_uuid->0@,
            e.is_start,
            places[k].0,
            places[k].1,
        ) == Some(edit)
}

proof fn lemma_first_set(v: Seq<bool>, k: int)
    requires
        0 <= k,
        forall|j: int| 0 <= j < k && j < v.len() ==> !(#[trigger] v[j]),
    ensures
        match first_set(v, k) {
            Some(i) => 0 <= i < v.len() && v[i] && forall|j: int| 0 <= j < i ==> !(#[trigger] v[j]),
            None => forall|j: int| 0 <= j < v.len() ==> !(#[trigger] v[j]),
        },
    decreases v.len() - k,
{
    if k < v.len() && !v[k] {
        lemma_first_set(v, k + 1);
    }
}

proof fn lemma_follows(s: Seq<u8>, e: StretchFacts, places: Seq<(Seq<char>, Seq<char>)>)
    ensures
        forall|x: Splice| #[trigger]
            follows(s, e, places, x) <==> stretch_edit(s, e, places) == Some(x),
{
    lemma_first_set(e.on_pins@, 0);
    assert forall|x: Splice| #[trigger] follows(s, e, places, x) <==> stretch_edit(s, e, places) == Some(
        x,
    ) by {
        if follows(s, e, places, x) {
            let k = choose|k: int| #[trigger]
                stands_on(e, k) && k < places.len() && e.wire_uuid is Some && wire_edit(
                    s,
                    e.wire_uuid->0@,
                    e.is_start,
                    places[k].0,
                    places[k].1,
                ) == Some(x);
            let i = first_set(e.on_pins@, 0)->0;
            if i < k {
                assert(!e.on_pins@[i]);
            } else if k < i {
                assert(!e.on_pins@[k]);
            }
        }
        if stretch_edit(s, e, places) == Some(x) {
            assert(stands_on(e, first_set(e.on_pins@, 0)->0));
        }
    }
}

/// When a symbol moves, each end that stood on one of its pins goes where that pin is
/// now: the edits are those that move such ends there, in order, and there are no others.
pub proof fn law_ends_follow_their_pins(
    s: Seq<u8>,
    ends: Seq<StretchFacts>,
    places: Seq<(Seq<char>, Seq<char>)>,
    n: int,
) -> (at: Seq<int>)
    requires
        0 <= n <= ends.len(),
    ensures
        rising(at, n),
        stretch_edits(s, ends, places, n).len() == at.len(),
        forall|i: int|
            0 <= i < at.len() ==> follows(
                s,
                ends[#[trigger] at[i]],
                places,
                stretch_edits(s, ends, places, n)[i],
            ),
        forall|i: int, e: Splice|
            0 <= i < n && #[trigger] follows(s, ends[i], places, e) ==> at.contains(i),
    decreases n,
{
    if n <= 0 {
        Seq::empty()
    } else {
        let at = law_ends_follow_their_pins(s, ends, places, n - 1);
        lemma_follows(s, ends[n - 1], places);
        let now = stretch_edits(s, ends, places, n);
        match stretch_edit(s, ends[n - 1], places) {
            None => at,
            Some(e) => {
                let more = at.push(n - 1);
                lemma_contains_push(at, n - 1);
                assert forall|i: int| 0 <= i < more.len() implies follows(
                    s,
                    ends[#[trigger] more[i]],
                    places,
                    now[i],
                ) by {
                    if i < at.len() {
                        assert(more[i] == at[i]);
                    }
                }
                more
            },
        }
    }
}

} // verus!
