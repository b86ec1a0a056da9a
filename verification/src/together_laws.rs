//! What is done to several components at once is what is done to each of them.

#[allow(unused_imports)]
use crate::chars::decimal;
#[allow(unused_imports)]
use crate::components::{align_splices, align_steps, aligned, key_index, move_splices, Key};
#[allow(unused_imports)]
use crate::edit::Splice;
#[allow(unused_imports)]
use crate::footprint::Footprint;
#[allow(unused_imports)]
use crate::sch_batch::{asked_reference, edit_all, edit_one, given_field, rename_one, set_fields, set_one, Changes, EditSpec, OneEdit};
#[allow(unused_imports)]
use crate::library::text_pairs;
#[allow(unused_imports)]
use crate::sch_components::{
    all_steps, annotated, field_place, field_step, further_steps, given_value, grouped, rename_step, with_field,
    with_name, ComponentChange, Progress,
};
#[allow(unused_imports)]
use crate::schematic::renamed;
#[allow(unused_imports)]
use crate::sexp::string_opt;
#[allow(unused_imports)]
use crate::text::bytes;
use vstd::prelude::*;

verus! {

// ─── Alignment ───────────────────────────────────────────────────────────────

/// The first footprint with the designator.
pub open spec fn first_named(fps: Seq<Footprint>, i: int, reference: Seq<char>) -> bool {
    &&& 0 <= i < fps.len()
    &&& fps[i].reference == Some(reference)
    &&& forall|j: int| 0 <= j < i ==> (#[trigger] fps[j]).reference != Some(reference)
}

/// A footprint that can be moved: it has a position, and nothing in it is placed in
/// the frame of the board.
pub open spec fn movable(fp: Footprint) -> bool {
    fp.at.is_some() && fp.absolute_children.len() == 0
}

/// Some footprint has the designator, and the first that has it can be moved.
pub open spec fn can_follow(fps: Seq<Footprint>, reference: Seq<char>) -> bool {
    exists|i: int| first_named(fps, i, reference) && movable(#[trigger] fps[i])
}

proof fn lemma_key_index(fps: Seq<Footprint>, reference: Seq<char>, k: int)
    requires
        0 <= k,
        forall|j: int| 0 <= j < k && j < fps.len() ==> (#[trigger] fps[j]).reference != Some(reference),
    ensures
        match key_index(fps, Key::Reference(reference), k) {
            Some(i) => first_named(fps, i, reference),
            None => forall|j: int| 0 <= j < fps.len() ==> (#[trigger] fps[j]).reference != Some(reference),
        },
    decreases fps.len() - k,
{
    if k < fps.len() && fps[k].reference != Some(reference) {
        lemma_key_index(fps, reference, k + 1);
    }
}

proof fn lemma_one_first(fps: Seq<Footprint>, i: int, j: int, reference: Seq<char>)
    requires
        first_named(fps, i, reference),
        first_named(fps, j, reference),
    ensures
        i == j,
{
}

proof fn lemma_aligned(fps: Seq<Footprint>, refs: Seq<Seq<char>>, n: int, board: Seq<char>)
    requires
        0 <= n <= refs.len(),
    ensures
        match aligned(fps, refs, n, board) {
            Ok(found) => found.len() == n && forall|k: int|
                0 <= k < n ==> key_index(fps, Key::Reference(#[trigger] refs[k]), 0) is Some && found[k]
                    == fps[key_index(fps, Key::Reference(refs[k]), 0)->0],
            Err(_) => exists|k: int|
                0 <= k < n && key_index(fps, Key::Reference(#[trigger] refs[k]), 0) is None,
        },
    decreases n,
{
    if n > 0 {
        lemma_aligned(fps, refs, n - 1, board);
        assert(refs[n - 1] == refs[n - 1]);
    }
}

/// The edits of the first moves, one list for each footprint.
proof fn lemma_align_steps(
    targets: Seq<Footprint>,
    to: Seq<(Option<Seq<char>>, Option<Seq<char>>)>,
    n: int,
    board: Seq<char>,
) -> (parts: Seq<Seq<Splice>>)
    requires
        0 <= n <= targets.len(),
    ensures
        match align_steps(targets, to, n, board) {
            Ok(edits) => parts.len() == n && edits == parts.flatten() && forall|k: int|
                0 <= k < n ==> movable(#[trigger] targets[k]) && move_splices(
                    targets[k],
                    to[k].0,
                    to[k].1,
                    board,
                ) == Ok::<Seq<Splice>, Seq<char>>(parts[k]),
            Err(_) => exists|k: int| 0 <= k < n && !movable(#[trigger] targets[k]),
        },
    decreases n,
{
    if n <= 0 {
        Seq::empty()
    } else {
        let parts = lemma_align_steps(targets, to, n - 1, board);
        assert(targets[n - 1] == targets[n - 1]);
        match move_splices(targets[n - 1], to[n - 1].0, to[n - 1].1, board) {
            Ok(more) => {
                parts.lemma_flatten_push(more);
                parts.push(more)
            },
            Err(_) => parts,
        }
    }
}

/// Footprints are aligned together where each of them can be moved, and then each is
/// moved to its place as it is when it is moved alone: the edits are those of the
/// single moves, one after the other, `parts[k]` those of the footprint named `k`-th.
pub proof fn law_aligned_footprints_are_moved(
    fps: Seq<Footprint>,
    refs: Seq<Seq<char>>,
    to: Seq<(Option<Seq<char>>, Option<Seq<char>>)>,
    board: Seq<char>,
) -> (parts: Seq<Seq<Splice>>)
    requires
        refs.len() == to.len(),
    ensures
        align_splices(fps, refs, to, board) is Ok <==> refs.len() > 0 && forall|k: int|
            0 <= k < refs.len() ==> can_follow(fps, #[trigger] refs[k]),
        align_splices(fps, refs, to, board) is Ok ==> {
            &&& parts.len() == refs.len()
            &&& align_splices(fps, refs, to, board)->Ok_0 == parts.flatten()
            &&& forall|k: int, i: int|
                0 <= k < refs.len() && #[trigger] first_named(fps, i, refs[k]) ==> move_splices(
                    fps[i],
                    to[k].0,
                    to[k].1,
                    board,
                ) == Ok::<Seq<Splice>, Seq<char>>(parts[k])
        },
{
    let n = refs.len() as int;
    lemma_aligned(fps, refs, n, board);
    assert forall|k: int| 0 <= k < n implies match key_index(
        fps,
        Key::Reference(#[trigger] refs[k]),
        0,
    ) {
        Some(i) => first_named(fps, i, refs[k]),
        None => !can_follow(fps, refs[k]),
    } by {
        lemma_key_index(fps, refs[k], 0);
    }
    match aligned(fps, refs, n, board) {
        Err(_) => Seq::empty(),
        Ok(targets) => {
            let parts = lemma_align_steps(targets, to, n, board);
            assert forall|k: int| 0 <= k < n implies can_follow(fps, #[trigger] refs[k]) == movable(
                targets[k],
            ) by {
                let i = key_index(fps, Key::Reference(refs[k]), 0)->0;
                assert(first_named(fps, i, refs[k]));
                if can_follow(fps, refs[k]) {
                    let j = choose|j: int| first_named(fps, j, refs[k]) && movable(#[trigger] fps[j]);
                    lemma_one_first(fps, i, j, refs[k]);
                }
            }
            if align_steps(targets, to, n, board) is Err {
                let k = choose|k: int| 0 <= k < n && !movable(#[trigger] targets[k]);
                assert(!can_follow(fps, refs[k]));
            } else {
                assert forall|k: int| 0 <= k < n implies can_follow(fps, #[trigger] refs[k]) by {
                    assert(movable(targets[k]));
                }
                assert forall|k: int, i: int|
                    0 <= k < n && #[trigger] first_named(fps, i, refs[k]) implies move_splices(
                    fps[i],
                    to[k].0,
                    to[k].1,
                    board,
                ) == Ok::<Seq<Splice>, Seq<char>>(parts[k]) by {
                    let h = key_index(fps, Key::Reference(refs[k]), 0)->0;
                    lemma_one_first(fps, h, i, refs[k]);
                    assert(movable(targets[k]));
                }
            }
            parts
        },
    }
}

// ─── Edits ───────────────────────────────────────────────────────────────────

/// Nothing is lost from the one to the other.
pub open spec fn extends(o: OneEdit, p: OneEdit) -> bool {
    &&& forall|e: Splice| #[trigger] o.edits.contains(e) ==> p.edits.contains(e)
    &&& forall|t: Seq<char>| #[trigger] o.changes.contains(t) ==> p.changes.contains(t)
    &&& forall|t: Seq<char>| #[trigger] o.errors.contains(t) ==> p.errors.contains(t)
}

/// A field that is asked to be changed is changed in its place and reported, or reported
/// missing where the component does not have it.
pub open spec fn field_is_set(
    p: OneEdit,
    s: Seq<u8>,
    reference: Seq<char>,
    field: Seq<char>,
    v: Seq<char>,
) -> bool {
    match field_place(s, reference, field) {
        Ok((a, b)) => p.edits.contains(Splice { start: a, end: b, bytes: bytes(v) })
            && p.changes.contains(field + " → "@ + v),
        Err(_) => p.errors.contains(
            "Field '"@ + field + "' not found on '"@ + reference + "'"@,
        ),
    }
}

/// An edit that writes the value to the place of the field.
pub open spec fn sets_field(
    e: Splice,
    s: Seq<u8>,
    reference: Seq<char>,
    field: Seq<char>,
    v: Option<String>,
) -> bool {
    &&& v is Some
    &&& field_place(s, reference, field) == Ok::<(int, int), Seq<char>>((e.start, e.end))
    &&& e.bytes == bytes(v->0@)
}

/// An edit that the request calls for: of the value, the footprint, one of the other
/// fields, or the designator.
pub open spec fn called_for(e: Splice, s: Seq<u8>, reference: Seq<char>, request: EditSpec) -> bool {
    ||| sets_field(e, s, reference, "Value"@, request.value)
    ||| sets_field(e, s, reference, "Footprint"@, request.footprint)
    ||| exists|j: int|
        0 <= j < request.fields@.len() && (#[trigger] request.fields@[j]).0@ != "Reference"@ && sets_field(
            e,
            s,
            reference,
            request.fields@[j].0@,
            request.fields@[j].1,
        )
    ||| asked_reference(request) is Some && renamed(s, reference, asked_reference(request)->0) is Ok
        && renamed(s, reference, asked_reference(request)->0)->Ok_0.edits.contains(e)
}

proof fn lemma_push_has<A>(a: Seq<A>, x: A)
    ensures
        forall|e: A| #[trigger] a.push(x).contains(e) == (a.contains(e) || e == x),
        forall|e: A| #[trigger] a.contains(e) ==> a.push(x).contains(e),
        a.push(x).contains(x),
{
    assert(a.push(x)[a.len() as int] == x);
    assert forall|e: A| #[trigger] a.contains(e) implies a.push(x).contains(e) by {
        assert(a.push(x)[a.index_of(e)] == e);
    }
}

proof fn lemma_add_has<A>(a: Seq<A>, b: Seq<A>)
    ensures
        forall|e: A| #[trigger] (a + b).contains(e) == (a.contains(e) || b.contains(e)),
        forall|e: A| #[trigger] a.contains(e) ==> (a + b).contains(e),
        forall|e: A| #[trigger] b.contains(e) ==> (a + b).contains(e),
{
    assert forall|e: A| #[trigger] a.contains(e) implies (a + b).contains(e) by {
        assert((a + b)[a.index_of(e)] == e);
    }
    assert forall|e: A| #[trigger] b.contains(e) implies (a + b).contains(e) by {
        assert((a + b)[a.len() + b.index_of(e)] == e);
    }
    assert forall|e: A| #[trigger] (a + b).contains(e) implies a.contains(e) || b.contains(e) by {
        let i = (a + b).index_of(e);
        if i < a.len() {
            assert(a[i] == e);
        } else {
            assert(b[i - a.len()] == e);
        }
    }
}

proof fn lemma_set_one(o: OneEdit, s: Seq<u8>, reference: Seq<char>, field: Seq<char>, v: Option<String>)
    ensures
        extends(o, set_one(o, s, reference, field, string_opt(v))),
        v is Some ==> field_is_set(
            set_one(o, s, reference, field, string_opt(v)),
            s,
            reference,
            field,
            v->0@,
        ),
        forall|e: Splice| #[trigger]
            set_one(o, s, reference, field, string_opt(v)).edits.contains(e) ==> o.edits.contains(e)
                || sets_field(e, s, reference, field, v),
{
    if v is Some {
        match field_place(s, reference, field) {
            Ok((a, b)) => {
                lemma_push_has(o.edits, Splice { start: a, end: b, bytes: bytes(v->0@) });
                lemma_push_has(o.changes, field + " → "@ + v->0@);
            },
            Err(_) => {
                lemma_push_has(
                    o.errors,
                    "Field '"@ + field + "' not found on '"@ + reference + "'"@,
                );
            },
        }
    }
}

/// What is set stays set while more is added.
proof fn lemma_stays_set(
    o: OneEdit,
    p: OneEdit,
    s: Seq<u8>,
    reference: Seq<char>,
    field: Seq<char>,
    v: Seq<char>,
)
    requires
        extends(o, p),
        field_is_set(o, s, reference, field, v),
    ensures
        field_is_set(p, s, reference, field, v),
{
}

proof fn lemma_set_fields(
    o: OneEdit,
    s: Seq<u8>,
    reference: Seq<char>,
    fields: Seq<(String, Option<String>)>,
    n: int,
)
    requires
        0 <= n <= fields.len(),
    ensures
        extends(o, set_fields(o, s, reference, fields, n)),
        forall|j: int|
            0 <= j < n && (#[trigger] fields[j]).0@ != "Reference"@ && fields[j].1 is Some
                ==> field_is_set(
                set_fields(o, s, reference, fields, n),
                s,
                reference,
                fields[j].0@,
                fields[j].1->0@,
            ),
        forall|e: Splice| #[trigger]
            set_fields(o, s, reference, fields, n).edits.contains(e) ==> o.edits.contains(e) || exists|
                j: int,
            |
                0 <= j < n && (#[trigger] fields[j]).0@ != "Reference"@ && sets_field(
                    e,
                    s,
                    reference,
                    fields[j].0@,
                    fields[j].1,
                ),
    decreases n,
{
    if n > 0 {
        let p = set_fields(o, s, reference, fields, n - 1);
        let q = set_fields(o, s, reference, fields, n);
        lemma_set_fields(o, s, reference, fields, n - 1);
        lemma_set_one(p, s, reference, fields[n - 1].0@, fields[n - 1].1);
        assert(extends(p, q));
        assert forall|j: int|
            0 <= j < n && (#[trigger] fields[j]).0@ != "Reference"@ && fields[j].1 is Some implies field_is_set(
            q,
            s,
            reference,
            fields[j].0@,
            fields[j].1->0@,
        ) by {
            if j < n - 1 {
                lemma_stays_set(p, q, s, reference, fields[j].0@, fields[j].1->0@);
            }
        }
        assert forall|e: Splice| #[trigger] q.edits.contains(e) implies o.edits.contains(e) || exists|
            j: int,
        |
            0 <= j < n && (#[trigger] fields[j]).0@ != "Reference"@ && sets_field(
                e,
                s,
                reference,
                fields[j].0@,
                fields[j].1,
            ) by {
            if !p.edits.contains(e) {
                assert(fields[n - 1].0@ != "Reference"@);
                assert(sets_field(e, s, reference, fields[n - 1].0@, fields[n - 1].1));
            }
        }
    }
}

proof fn lemma_rename_one(s: Seq<u8>, reference: Seq<char>, name: Option<Seq<char>>)
    ensures
        ({
            let start = OneEdit { edits: Seq::empty(), changes: Seq::empty(), errors: Seq::empty() };
            let p = rename_one(start, s, reference, name);
            &&& name is Some && renamed(s, reference, name->0) is Ok ==> p.edits == renamed(
                s,
                reference,
                name->0,
            )->Ok_0.edits && p.changes.contains("Reference → "@ + name->0)
            &&& !(name is Some && renamed(s, reference, name->0) is Ok) ==> p.edits.len() == 0
        }),
{
    if name is Some && renamed(s, reference, name->0) is Ok {
        let r = renamed(s, reference, name->0)->Ok_0;
        assert(Seq::<Splice>::empty() + r.edits =~= r.edits);
        let first = Seq::<Seq<char>>::empty().push("Reference → "@ + name->0);
        assert(first[0] == "Reference → "@ + name->0);
        if r.instances > 0 {
            let more = "instances reference → "@ + name->0 + " ("@ + decimal(
                r.instances as nat,
            ) + ")"@;
            assert(first.push(more)[0] == "Reference → "@ + name->0);
        }
    }
}

/// Every field of a component that is asked to be changed is changed in its place and
/// reported, or reported missing; a new designator is written wherever the old one
/// stands; and nothing else is changed.
pub proof fn law_asked_changes_are_made(s: Seq<u8>, reference: Seq<char>, request: EditSpec)
    ensures
        ({
            let o = edit_one(s, reference, request);
            let name = asked_reference(request);
            &&& request.value is Some ==> field_is_set(
                o,
                s,
                reference,
                "Value"@,
                request.value->0@,
            )
            &&& request.footprint is Some ==> field_is_set(
                o,
                s,
                reference,
                "Footprint"@,
                request.footprint->0@,
            )
            &&& forall|j: int|
                0 <= j < request.fields@.len() && (#[trigger] request.fields@[j]).0@ != "Reference"@
                    && request.fields@[j].1 is Some ==> field_is_set(
                    o,
                    s,
                    reference,
                    request.fields@[j].0@,
                    request.fields@[j].1->0@,
                )
            &&& name is Some && renamed(s, reference, name->0) is Ok ==> o.changes.contains(
                "Reference → "@ + name->0,
            ) && forall|e: Splice| #[trigger]
                renamed(s, reference, name->0)->Ok_0.edits.contains(e) ==> o.edits.contains(e)
            &&& forall|e: Splice| #[trigger] o.edits.contains(e) ==> called_for(e, s, reference, request)
        }),
{
    let start = OneEdit { edits: Seq::empty(), changes: Seq::empty(), errors: Seq::empty() };
    let name = asked_reference(request);
    let a = rename_one(start, s, reference, name);
    let b = set_one(a, s, reference, "Value"@, string_opt(request.value));
    let c = set_one(b, s, reference, "Footprint"@, string_opt(request.footprint));
    let d = edit_one(s, reference, request);
    lemma_rename_one(s, reference, name);
    lemma_set_one(a, s, reference, "Value"@, request.value);
    lemma_set_one(b, s, reference, "Footprint"@, request.footprint);
    lemma_set_fields(c, s, reference, request.fields@, request.fields@.len() as int);
    assert(extends(b, c) && extends(c, d) && extends(b, d));
    if request.value is Some {
        lemma_stays_set(b, d, s, reference, "Value"@, request.value->0@);
    }
    if request.footprint is Some {
        lemma_stays_set(c, d, s, reference, "Footprint"@, request.footprint->0@);
    }
}

/// The new designator that a request asks for is the one it gives by name, or else what
/// the first of its fields called `Reference` says.
pub proof fn law_asked_designator(request: EditSpec, j: int)
    ensures
        request.new_reference is Some ==> asked_reference(request) == Some(request.new_reference->0@),
        request.new_reference is None && 0 <= j < request.fields@.len() && request.fields@[j].0@
            == "Reference"@ && (forall|i: int|
            0 <= i < j ==> (#[trigger] request.fields@[i]).0@ != "Reference"@) ==> asked_reference(request)
            == string_opt(request.fields@[j].1),
        request.new_reference is None && (forall|i: int|
            0 <= i < request.fields@.len() ==> (#[trigger] request.fields@[i]).0@ != "Reference"@)
            ==> asked_reference(request) is None,
{
    if 0 <= j < request.fields@.len() && request.fields@[j].0@ == "Reference"@ && (forall|i: int|
        0 <= i < j ==> (#[trigger] request.fields@[i]).0@ != "Reference"@) {
        lemma_given_field(request.fields@, "Reference"@, 0, j);
    }
    if forall|i: int|
        0 <= i < request.fields@.len() ==> (#[trigger] request.fields@[i]).0@ != "Reference"@ {
        lemma_given_field(request.fields@, "Reference"@, 0, request.fields@.len() as int);
    }
}

proof fn lemma_given_field(fields: Seq<(String, Option<String>)>, name: Seq<char>, k: int, j: int)
    requires
        0 <= k <= j <= fields.len(),
        j < fields.len() ==> fields[j].0@ == name,
        forall|i: int| k <= i < j ==> (#[trigger] fields[i]).0@ != name,
    ensures
        given_field(fields, name, k) == if j < fields.len() {
            string_opt(fields[j].1)
        } else {
            None::<Seq<char>>
        },
    decreases j - k,
{
    if k < j {
        lemma_given_field(fields, name, k + 1, j);
    }
}

/// A batch makes the changes of each of its requests, reports a component where
/// something of it was changed, and reports a request that names no component.
pub proof fn law_batch_makes_the_changes_of_each(s: Seq<u8>, specs: Seq<EditSpec>, n: int, k: int)
    requires
        0 <= k < n <= specs.len(),
    ensures
        match specs[k].reference {
            None => edit_all(s, specs, n).errors.contains("Missing 'reference' in edit spec"@),
            Some(r) => {
                let o = edit_one(s, r@, specs[k]);
                let all = edit_all(s, specs, n);
                &&& forall|e: Splice| #[trigger] o.edits.contains(e) ==> all.edits.contains(e)
                &&& forall|t: Seq<char>| #[trigger] o.errors.contains(t) ==> all.errors.contains(t)
                &&& o.changes.len() > 0 ==> all.changed.contains(
                    Changes { reference: r@, changes: o.changes },
                )
            },
        },
    decreases n,
{
    let before = edit_all(s, specs, n - 1);
    if k < n - 1 {
        law_batch_makes_the_changes_of_each(s, specs, n - 1, k);
    }
    match specs[n - 1].reference {
        None => {
            lemma_push_has(before.errors, "Missing 'reference' in edit spec"@);
        },
        Some(r) => {
            let o = edit_one(s, r@, specs[n - 1]);
            lemma_add_has(before.edits, o.edits);
            lemma_add_has(before.errors, o.errors);
            lemma_push_has(before.changed, Changes { reference: r@, changes: o.changes });
        },
    }
}

/// A batch makes no change that none of its requests makes.
pub proof fn law_batch_makes_no_other_changes(s: Seq<u8>, specs: Seq<EditSpec>, n: int, e: Splice) -> (k:
    int)
    requires
        0 <= n <= specs.len(),
        edit_all(s, specs, n).edits.contains(e),
    ensures
        0 <= k < n,
        specs[k].reference is Some,
        edit_one(s, specs[k].reference->0@, specs[k]).edits.contains(e),
    decreases n,
{
    if n <= 0 {
        0
    } else {
        let before = edit_all(s, specs, n - 1);
        if specs[n - 1].reference is Some {
            lemma_add_has(
                before.edits,
                edit_one(s, specs[n - 1].reference->0@, specs[n - 1]).edits,
            );
        }
        if before.edits.contains(e) {
            law_batch_makes_no_other_changes(s, specs, n - 1, e)
        } else {
            n - 1
        }
    }
}

// ─── The changes of one component ────────────────────────────────────────────

/// A field that is asked for, with its value.
pub open spec fn asked_field(field: Seq<char>, value: Option<String>) -> Seq<(Seq<char>, Seq<char>)> {
    match value {
        Some(v) => seq![(field, v@)],
        None => Seq::empty(),
    }
}

/// The first `n` further properties but the designator.
pub open spec fn further_fields(fields: Seq<(String, String)>, n: int) -> Seq<(Seq<char>, Seq<char>)>
    decreases n,
{
    if n <= 0 {
        Seq::empty()
    } else if fields[n - 1].0@ == "Reference"@ {
        further_fields(fields, n - 1)
    } else {
        further_fields(fields, n - 1).push((fields[n - 1].0@, fields[n - 1].1@))
    }
}

/// All the fields that a change asks for, in the order in which they are changed.
pub open spec fn asked_fields(c: ComponentChange) -> Seq<(Seq<char>, Seq<char>)> {
    asked_field("Value"@, c.value) + asked_field("Footprint"@, c.footprint) + asked_field(
        "Datasheet"@,
        c.datasheet,
    ) + further_fields(c.fields@, c.fields@.len() as int)
}

/// From one text to the next, the field is rewritten and reported, or the reason why not
/// is.
pub open spec fn one_step(s: Seq<u8>, t: Seq<u8>, asked: (Seq<char>, Seq<char>), p: Progress) -> bool {
    match with_field(s, p.lookup, asked.0, asked.1) {
        Ok(u) => t == u && p.changed.contains(asked.0 + " → "@ + asked.1),
        Err(e) => t == s && p.errors.contains(asked.0 + ": "@ + e),
    }
}

/// The texts that lead from the first to the one arrived at, one step for each field.
pub open spec fn leads(trail: Seq<Seq<u8>>, asked: Seq<(Seq<char>, Seq<char>)>, p: Progress) -> bool {
    &&& trail.len() == asked.len() + 1
    &&& trail.last() == p.content
    &&& forall|j: int| 0 <= j < asked.len() ==> one_step(trail[j], trail[j + 1], #[trigger] asked[j], p)
}

proof fn lemma_leads(
    trail: Seq<Seq<u8>>,
    asked: Seq<(Seq<char>, Seq<char>)>,
    p: Progress,
    field: Seq<char>,
    v: Seq<char>,
) -> (more: Seq<Seq<u8>>)
    requires
        leads(trail, asked, p),
    ensures
        more[0] == trail[0],
        leads(more, asked.push((field, v)), field_step(p, field, Some(v))),
        field_step(p, field, Some(v)).lookup == p.lookup,
        field_step(p, field, Some(v)).changed.len() + field_step(p, field, Some(v)).errors.len()
            == p.changed.len() + p.errors.len() + 1,
{
    let q = field_step(p, field, Some(v));
    let more = trail.push(q.content);
    let all = asked.push((field, v));
    match with_field(p.content, p.lookup, field, v) {
        Ok(_) => lemma_push_has(p.changed, field + " → "@ + v),
        Err(e) => lemma_push_has(p.errors, field + ": "@ + e),
    }
    assert forall|j: int| 0 <= j < all.len() implies one_step(more[j], more[j + 1], #[trigger] all[j], q) by {
        if j < asked.len() {
            assert(one_step(trail[j], trail[j + 1], asked[j], p));
            assert(all[j] == asked[j]);
        }
    }
    more
}

proof fn lemma_leads_opt(
    trail: Seq<Seq<u8>>,
    asked: Seq<(Seq<char>, Seq<char>)>,
    p: Progress,
    field: Seq<char>,
    value: Option<String>,
) -> (more: Seq<Seq<u8>>)
    requires
        leads(trail, asked, p),
    ensures
        more[0] == trail[0],
        leads(more, asked + asked_field(field, value), field_step(p, field, string_opt(value))),
        field_step(p, field, string_opt(value)).lookup == p.lookup,
        field_step(p, field, string_opt(value)).changed.len() + field_step(
            p,
            field,
            string_opt(value),
        ).errors.len() == p.changed.len() + p.errors.len() + asked_field(field, value).len(),
{
    match value {
        None => {
            assert(asked + asked_field(field, value) =~= asked);
            trail
        },
        Some(v) => {
            assert(asked + asked_field(field, value) =~= asked.push((field, v@)));
            lemma_leads(trail, asked, p, field, v@)
        },
    }
}

proof fn lemma_leads_further(
    trail: Seq<Seq<u8>>,
    asked: Seq<(Seq<char>, Seq<char>)>,
    p: Progress,
    fields: Seq<(String, String)>,
    n: int,
) -> (more: Seq<Seq<u8>>)
    requires
        leads(trail, asked, p),
        0 <= n <= fields.len(),
    ensures
        more[0] == trail[0],
        leads(more, asked + further_fields(fields, n), further_steps(p, text_pairs(fields), n)),
        further_steps(p, text_pairs(fields), n).lookup == p.lookup,
        further_steps(p, text_pairs(fields), n).changed.len() + further_steps(
            p,
            text_pairs(fields),
            n,
        ).errors.len() == p.changed.len() + p.errors.len() + further_fields(fields, n).len(),
    decreases n,
{
    if n <= 0 {
        assert(asked + further_fields(fields, n) =~= asked);
        trail
    } else {
        let before = lemma_leads_further(trail, asked, p, fields, n - 1);
        let q = further_steps(p, text_pairs(fields), n - 1);
        let f = fields[n - 1];
        assert(text_pairs(fields)[n - 1] == (f.0@, f.1@));
        if f.0@ == "Reference"@ {
            before
        } else {
            assert(asked + further_fields(fields, n) =~= (asked + further_fields(fields, n - 1)).push(
                (f.0@, f.1@),
            ));
            lemma_leads(before, asked + further_fields(fields, n - 1), q, f.0@, f.1@)
        }
    }
}

/// A component is renamed first, where a new designator is asked for, and then each field
/// that is asked for is rewritten in turn, under the designator that the component then
/// has, as it is when it is rewritten alone. Each field is reported once, as changed or
/// with the reason why not; what could not be done leaves the text as it is.
pub proof fn law_component_is_changed_step_by_step(
    s: Seq<u8>,
    reference: Seq<char>,
    c: ComponentChange,
    name: Option<Seq<char>>,
) -> (trail: Seq<Seq<u8>>)
    requires
        c.new_reference is Some ==> name == Some(c.new_reference->0@),
        c.new_reference is None ==> name == given_value(text_pairs(c.fields@), "Reference"@, 0),
    ensures
        leads(trail, asked_fields(c), all_steps(s, reference, c)),
        ({
            let p = all_steps(s, reference, c);
            if name is Some && with_name(s, reference, name->0) is Ok {
                trail[0] == with_name(s, reference, name->0)->Ok_0.0 && p.lookup == name->0
            } else {
                trail[0] == s && p.lookup == reference
            }
        }),
        name is None ==> all_steps(s, reference, c).changed.len() + all_steps(
            s,
            reference,
            c,
        ).errors.len() == asked_fields(c).len(),
{
    let start = Progress {
        content: s,
        lookup: reference,
        changed: Seq::empty(),
        errors: Seq::empty(),
    };
    let none = Seq::<(Seq<char>, Seq<char>)>::empty();
    let a = rename_step(start, reference, name);
    let b = field_step(a, "Value"@, string_opt(c.value));
    let d = field_step(b, "Footprint"@, string_opt(c.footprint));
    let e = field_step(d, "Datasheet"@, string_opt(c.datasheet));
    let t0 = seq![a.content];
    assert(leads(t0, none, a));
    let x = none + asked_field("Value"@, c.value);
    let y = x + asked_field("Footprint"@, c.footprint);
    let z = y + asked_field("Datasheet"@, c.datasheet);
    let t1 = lemma_leads_opt(t0, none, a, "Value"@, c.value);
    let t2 = lemma_leads_opt(t1, x, b, "Footprint"@, c.footprint);
    let t3 = lemma_leads_opt(t2, y, d, "Datasheet"@, c.datasheet);
    let t4 = lemma_leads_further(t3, z, e, c.fields@, c.fields@.len() as int);
    assert(text_pairs(c.fields@).len() == c.fields@.len());
    assert(z + further_fields(c.fields@, c.fields@.len() as int) =~= asked_fields(c));
    t4
}

// ─── Groups ──────────────────────────────────────────────────────────────────

/// A group of one component is the property `Group` put on it; the component is
/// reported where it is there.
pub proof fn law_group_of_one_is_a_property(s: Seq<u8>, refs: Seq<Seq<char>>, group: Seq<char>)
    requires
        refs.len() == 1,
    ensures
        match annotated(s, refs[0], "Group"@, group) {
            Some(t) => grouped(s, refs, group, 1) == (t, seq![refs[0]]),
            None => grouped(s, refs, group, 1) == (s, Seq::<Seq<char>>::empty()),
        },
{
    reveal_with_fuel(grouped, 2);
    assert(Seq::<Seq<char>>::empty().push(refs[0]) =~= seq![refs[0]]);
}

/// To group some components and then others is to group them all.
pub proof fn law_groups_are_put_together(
    s: Seq<u8>,
    refs: Seq<Seq<char>>,
    others: Seq<Seq<char>>,
    group: Seq<char>,
    n: int,
)
    requires
        0 <= n <= others.len(),
    ensures
        ({
            let first = grouped(s, refs, group, refs.len() as int);
            let then = grouped(first.0, others, group, n);
            grouped(s, refs + others, group, refs.len() + n) == (then.0, first.1 + then.1)
        }),
    decreases n,
{
    let first = grouped(s, refs, group, refs.len() as int);
    if n > 0 {
        law_groups_are_put_together(s, refs, others, group, n - 1);
        let then = grouped(first.0, others, group, n - 1);
        assert((refs + others)[refs.len() + n - 1] == others[n - 1]);
        assert(first.1 + then.1.push(others[n - 1]) =~= (first.1 + then.1).push(others[n - 1]));
    } else {
        lemma_grouped_prefix(s, refs, others, group, refs.len() as int);
        assert(first.1 + Seq::<Seq<char>>::empty() =~= first.1);
    }
}

proof fn lemma_grouped_prefix(
    s: Seq<u8>,
    refs: Seq<Seq<char>>,
    others: Seq<Seq<char>>,
    group: Seq<char>,
    n: int,
)
    requires
        0 <= n <= refs.len(),
    ensures
        grouped(s, refs + others, group, n) == grouped(s, refs, group, n),
    decreases n,
{
    if n > 0 {
        lemma_grouped_prefix(s, refs, others, group, n - 1);
        assert((refs + others)[n - 1] == refs[n - 1]);
    }
}

} // verus!
