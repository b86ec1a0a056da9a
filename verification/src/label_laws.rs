//! What putting pins on a net writes, in terms of the pins and their labels.

#[allow(unused_imports)]
use crate::chars::texts;
#[allow(unused_imports)]
use crate::edit::{law_one_edit, Splice};
#[allow(unused_imports)]
use crate::graphics::append_place;
#[allow(unused_imports)]
use crate::scan::{offsets, CLOSE};
#[allow(unused_imports)]
use crate::sch_batch::{connected, labels_for, ConnectOutcome, PinSpec};
#[allow(unused_imports)]
use crate::text::{bytes, lemma_bytes_concat, lemma_last_byte};
use vstd::prelude::*;

verus! {

/// A pin that was asked for in full and found, and so gets a label.
pub open spec fn gets_label(p: PinSpec) -> bool {
    p.reference is Some && p.pin_number is Some && p.component_found && p.label is Some
}

/// The labels of the pins at the given positions, in that order.
pub open spec fn labels_of(pins: Seq<PinSpec>, at: Seq<int>) -> Seq<Seq<char>> {
    Seq::new(at.len(), |i: int| pins[at[i]].label->0@)
}

/// Why a pin gets no label.
pub open spec fn pin_fault(p: PinSpec, why: Seq<char>) -> bool {
    &&& p.reference is None ==> why == "Missing 'reference' in pin spec"@
    &&& p.reference is Some && p.pin_number is None ==> why == "Missing 'pin_number' in pin spec"@
    &&& p.reference is Some && p.pin_number is Some && !p.component_found ==> why == "Component '"@
        + p.reference->0@ + "' not found"@
    &&& p.reference is Some && p.pin_number is Some && p.component_found ==> why == "Pin '"@
        + p.pin_number->0@ + "' not found on '"@ + p.reference->0@ + "'"@
}

/// Positions below `n`, each above the one before.
pub open spec fn rising(at: Seq<int>, n: int) -> bool {
    &&& forall|i: int| 0 <= i < at.len() ==> 0 <= #[trigger] at[i] < n
    &&& forall|i: int, j: int| 0 <= i < j < at.len() ==> at[i] < at[j]
}

/// Each position below `n` is in exactly one of the two lists: in the first where
/// its pin gets a label, in the second where it does not.
pub open spec fn shared_out(pins: Seq<PinSpec>, n: int, with: Seq<int>, without: Seq<int>) -> bool {
    &&& rising(with, n)
    &&& rising(without, n)
    &&& with.len() + without.len() == n
    &&& forall|k: int| 0 <= k < n ==> with.contains(k) == gets_label(#[trigger] pins[k])
    &&& forall|k: int| 0 <= k < n ==> without.contains(k) == !(gets_label(#[trigger] pins[k]))
}

/// Where the last closing parenthesis is, or the end of a text that has none.
pub open spec fn last_close(s: Seq<u8>, p: int) -> bool {
    &&& 0 <= p <= s.len()
    &&& p < s.len() ==> s[p] == CLOSE
    &&& forall|k: int| p < k < s.len() ==> s[k] != CLOSE
    &&& p == s.len() ==> forall|k: int| 0 <= k < s.len() ==> s[k] != CLOSE
}

proof fn lemma_append_place(s: Seq<u8>, p: int)
    requires
        last_close(s, p),
    ensures
        append_place(s) == p,
{
    lemma_last_byte(s, CLOSE);
}

pub proof fn lemma_contains_push(a: Seq<int>, x: int)
    ensures
        forall|k: int| #[trigger] a.push(x).contains(k) == (a.contains(k) || k == x),
{
    assert forall|k: int| #[trigger] a.push(x).contains(k) == (a.contains(k) || k == x) by {
        if a.contains(k) {
            let i = a.index_of(k);
            assert(a.push(x)[i] == k);
        }
        assert(a.push(x)[a.len() as int] == x);
        if a.push(x).contains(k) {
            let i = choose|i: int| 0 <= i < a.push(x).len() && a.push(x)[i] == k;
            if i < a.len() {
                assert(a[i] == k);
            }
        }
    }
}

/// The labels collected for the first `n` pins.
proof fn lemma_labels(pins: Seq<PinSpec>, n: int) -> (without: Seq<int>)
    requires
        0 <= n <= pins.len(),
    ensures
        ({
            let l = labels_for(pins, n);
            &&& shared_out(pins, n, l.added, without)
            &&& l.text == labels_of(pins, l.added).flatten()
            &&& l.errors.len() == without.len()
            &&& forall|i: int|
                0 <= i < without.len() ==> pin_fault(pins[#[trigger] without[i]], l.errors[i])
        }),
    decreases n,
{
    let l = labels_for(pins, n);
    if n <= 0 {
        let none = Seq::<int>::empty();
        assert(labels_of(pins, none) =~= Seq::<Seq<char>>::empty());
        none
    } else {
        let before = labels_for(pins, n - 1);
        let rest = lemma_labels(pins, n - 1);
        lemma_contains_push(before.added, n - 1);
        lemma_contains_push(rest, n - 1);
        assert(!before.added.contains(n - 1));
        assert(!rest.contains(n - 1));
        let p = pins[n - 1];
        if gets_label(p) {
            let was = labels_of(pins, before.added);
            let now = labels_of(pins, l.added);
            assert(now =~= was.push(p.label->0@));
            was.lemma_flatten_and_flatten_alt_are_equivalent();
            now.lemma_flatten_and_flatten_alt_are_equivalent();
            assert(now.drop_last() =~= was);
            assert(l.text == now.flatten());
            rest
        } else {
            let without = rest.push(n - 1);
            assert(l.added == before.added);
            assert forall|i: int| 0 <= i < without.len() implies pin_fault(
                pins[#[trigger] without[i]],
                l.errors[i],
            ) by {
                if i < rest.len() {
                    assert(without[i] == rest[i]);
                }
            }
            without
        }
    }
}

/// The label of each pin stands in the row of labels, behind those before it.
proof fn lemma_label_in_row(labels: Seq<Seq<char>>, a: int)
    requires
        0 <= a < labels.len(),
    ensures
        ({
            let q = bytes(labels.take(a).flatten()).len() as int;
            let one = bytes(labels[a]);
            let all = bytes(labels.flatten());
            0 <= q <= q + one.len() <= all.len() && all.subrange(q, q + one.len()) == one
        }),
    decreases labels.len(),
{
    let last = labels.len() - 1;
    let head = labels.drop_last();
    labels.lemma_flatten_and_flatten_alt_are_equivalent();
    head.lemma_flatten_and_flatten_alt_are_equivalent();
    assert(labels.flatten() == head.flatten() + labels[last]);
    lemma_bytes_concat(head.flatten(), labels[last]);
    let all = bytes(labels.flatten());
    if a == last {
        assert(labels.take(a) =~= head);
        assert(all.subrange(bytes(head.flatten()).len() as int, all.len() as int) =~= bytes(labels[a]));
    } else {
        lemma_label_in_row(head, a);
        assert(head.take(a) =~= labels.take(a));
        let q = bytes(labels.take(a).flatten()).len() as int;
        let one = bytes(labels[a]);
        assert(all.subrange(q, q + one.len()) =~= bytes(head.flatten()).subrange(q, q + one.len()));
    }
}

/// The pins reported as added are exactly those that were found, in order, and each
/// of the others has its error, in order.
pub proof fn law_every_pin_is_accounted_for(
    pins: Seq<PinSpec>,
    s: Seq<u8>,
    file: Seq<char>,
    r: Result<ConnectOutcome, String>,
) -> (without: Seq<int>)
    requires
        connected(r, pins, s, file),
        r is Ok,
    ensures
        shared_out(pins, pins.len() as int, offsets(r->Ok_0.added@), without),
        r->Ok_0.errors@.len() == without.len(),
        forall|i: int|
            0 <= i < without.len() ==> pin_fault(pins[#[trigger] without[i]], r->Ok_0.errors@[i]@),
{
    let without = lemma_labels(pins, pins.len() as int);
    let errors = r->Ok_0.errors@;
    assert forall|i: int| 0 <= i < without.len() implies pin_fault(
        pins[#[trigger] without[i]],
        errors[i]@,
    ) by {
        assert(texts(errors)[i] == errors[i]@);
    }
    without
}

/// What is written is the labels of exactly the pins reported as added, one behind
/// the other in their order, before the schematic's last closing parenthesis; the
/// rest of the schematic stays. The label of each added pin stands at its place
/// among them.
pub proof fn law_added_labels_are_written(
    pins: Seq<PinSpec>,
    s: Seq<u8>,
    p: int,
    file: Seq<char>,
    r: Result<ConnectOutcome, String>,
)
    requires
        connected(r, pins, s, file),
        r is Ok,
        last_close(s, p),
    ensures
        ({
            let added = offsets(r->Ok_0.added@);
            let labels = labels_of(pins, added);
            match r->Ok_0.content {
                None => labels.flatten().len() == 0,
                Some(t) => {
                    &&& bytes(t@) == s.take(p) + bytes(labels.flatten()) + s.skip(p)
                    &&& forall|a: int|
                        0 <= a < added.len() ==> ({
                            let q = p + bytes(labels.take(a).flatten()).len();
                            let one = bytes(pins[#[trigger] added[a]].label->0@);
                            q + one.len() <= bytes(t@).len() && bytes(t@).subrange(q, q + one.len())
                                == one
                        })
                },
            }
        }),
{
    let _ = lemma_labels(pins, pins.len() as int);
    lemma_append_place(s, p);
    let added = offsets(r->Ok_0.added@);
    let labels = labels_of(pins, added);
    match r->Ok_0.content {
        None => {},
        Some(t) => {
            law_one_edit(s, Splice { start: p, end: p, bytes: bytes(labels.flatten()) });
            assert forall|a: int| 0 <= a < added.len() implies ({
                let q = p + bytes(labels.take(a).flatten()).len();
                let one = bytes(pins[#[trigger] added[a]].label->0@);
                q + one.len() <= bytes(t@).len() && bytes(t@).subrange(q, q + one.len()) == one
            }) by {
                lemma_label_in_row(labels, a);
                let row = bytes(labels.flatten());
                let q = bytes(labels.take(a).flatten()).len() as int;
                let one = bytes(labels[a]);
                assert(bytes(t@).subrange(p + q, p + q + one.len()) =~= row.subrange(
                    q,
                    q + one.len(),
                ));
            }
        },
    }
}

/// Where no pin gets a label, nothing is written and that is no error.
pub proof fn law_no_label_writes_nothing(
    pins: Seq<PinSpec>,
    s: Seq<u8>,
    file: Seq<char>,
    r: Result<ConnectOutcome, String>,
)
    requires
        connected(r, pins, s, file),
    ensures
        (forall|k: int| 0 <= k < pins.len() ==> !(gets_label(#[trigger] pins[k]))) ==> r is Ok
            && r->Ok_0.content is None && r->Ok_0.added@.len() == 0,
{
    let _ = lemma_labels(pins, pins.len() as int);
    let l = labels_for(pins, pins.len() as int);
    if forall|k: int| 0 <= k < pins.len() ==> !(gets_label(#[trigger] pins[k])) {
        if l.added.len() > 0 {
            assert(l.added.contains(l.added[0]));
            assert(!gets_label(pins[l.added[0]]));
        }
        assert(labels_of(pins, l.added) =~= Seq::<Seq<char>>::empty());
        assert(offsets(r->Ok_0.added@).len() == 0);
    }
}

} // verus!
