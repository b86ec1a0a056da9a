//! The lists that are made of a design or for one: what stands in them, and in which
//! order.

#[allow(unused_imports)]
use crate::chars::decimal;
#[allow(unused_imports)]
use crate::choice_laws::{chooses, lemma_chooses_more};
#[allow(unused_imports)]
use crate::components::{array_spots, Spot};
#[allow(unused_imports)]
use crate::connectivity::marked_places;
#[allow(unused_imports)]
use crate::graphics::{extent_points, footprint_points, line_points, point_of};
#[allow(unused_imports)]
use crate::install::there_in;
#[allow(unused_imports)]
use crate::net::net_of_node;
#[allow(unused_imports)]
use crate::number::is_number;
#[allow(unused_imports)]
use crate::pad_laws::{first_headed, holds, lemma_first_tagged, lemma_holds, lemma_none_tagged};
#[allow(unused_imports)]
use crate::pads::{
    at_number, declared_nets, nets_of, pad_row, pad_rows, shadowed, with_footprints, with_pads, Pad,
};
#[allow(unused_imports)]
use crate::reading_laws::{lemma_first, none_headed};
#[allow(unused_imports)]
use crate::sexp::{child_in, children_in, text_at, Sexp};
#[allow(unused_imports)]
use crate::symbol::{choice_of, chosen, property_value, with_dnp, Choice, Placed};
#[allow(unused_imports)]
use crate::text::bytes;
use vstd::prelude::*;

verus! {

// ─── Nets ────────────────────────────────────────────────────────────────────

/// Row `k` of the table declares the net: it is the first with its number.
pub open spec fn declares(table: Seq<(int, Seq<char>)>, k: int, name: Seq<char>) -> bool {
    &&& 0 <= k < table.len()
    &&& table[k].1 == name
    &&& name.len() > 0
    &&& forall|j: int| 0 <= j < k ==> (#[trigger] table[j]).0 != table[k].0
}

/// The pad is on the net.
pub open spec fn names_net(pad: Sexp, table: Seq<(int, Seq<char>)>, name: Seq<char>) -> bool {
    &&& name.len() > 0
    &&& child_in(pad, "net"@) matches Some(node) && net_of_node(node, table).1 == Some(name)
}

/// The pads of a footprint of the board.
pub open spec fn pads_of(tree: Sexp, f: int) -> Seq<Sexp> {
    children_in(children_in(tree, "footprint"@)[f], "pad"@)
}

proof fn lemma_declared(table: Seq<(int, Seq<char>)>, name: Seq<char>, n: int) -> (k: int)
    requires
        0 <= n <= table.len(),
    ensures
        declared_nets(table, n).contains_key(name) ==> k < n && declares(table, k, name)
            && declared_nets(table, n)[name] == Some(table[k].0) && forall|j: int|
            k < j < n ==> !(#[trigger] declares(table, j, name)),
        !(declared_nets(table, n).contains_key(name)) ==> forall|j: int|
            0 <= j < n ==> !(#[trigger] declares(table, j, name)),
    decreases n,
{
    if n <= 0 {
        0
    } else {
        let k = lemma_declared(table, name, n - 1);
        assert(declares(table, n - 1, name) == (table[n - 1].1 == name && name.len() > 0 && !shadowed(
            table,
            n - 1,
        )));
        if declares(table, n - 1, name) {
            n - 1
        } else {
            k
        }
    }
}

/// The first pads add a net that one of them is on, with the number that the first of
/// them gives it.
proof fn lemma_pads(
    m: Map<Seq<char>, Option<int>>,
    pads: Seq<Sexp>,
    table: Seq<(int, Seq<char>)>,
    name: Seq<char>,
    n: int,
) -> (p: int)
    requires
        0 <= n <= pads.len(),
    ensures
        m.contains_key(name) ==> with_pads(m, pads, table, n).contains_key(name) && with_pads(
            m,
            pads,
            table,
            n,
        )[name] == m[name],
        !(m.contains_key(name)) && with_pads(m, pads, table, n).contains_key(name) ==> {
            &&& 0 <= p < n
            &&& names_net(pads[p], table, name)
            &&& with_pads(m, pads, table, n)[name] == net_of_node(
                child_in(pads[p], "net"@)->0,
                table,
            ).0
            &&& forall|q: int| 0 <= q < p ==> !(names_net(#[trigger] pads[q], table, name))
        },
        !(with_pads(m, pads, table, n).contains_key(name)) ==> forall|q: int|
            0 <= q < n ==> !(names_net(#[trigger] pads[q], table, name)),
    decreases n,
{
    if n <= 0 {
        0
    } else {
        let p = lemma_pads(m, pads, table, name, n - 1);
        if with_pads(m, pads, table, n - 1).contains_key(name) {
            p
        } else {
            n - 1
        }
    }
}

proof fn lemma_footprints(
    m: Map<Seq<char>, Option<int>>,
    tree: Sexp,
    table: Seq<(int, Seq<char>)>,
    name: Seq<char>,
    n: int,
) -> (at: (int, int))
    requires
        0 <= n <= children_in(tree, "footprint"@).len(),
    ensures
        ({
            let all = with_footprints(m, children_in(tree, "footprint"@), table, n);
            &&& m.contains_key(name) ==> all.contains_key(name) && all[name] == m[name]
            &&& !(m.contains_key(name)) && all.contains_key(name) ==> {
                &&& 0 <= at.0 < n
                &&& 0 <= at.1 < pads_of(tree, at.0).len()
                &&& names_net(pads_of(tree, at.0)[at.1], table, name)
                &&& all[name] == net_of_node(
                    child_in(pads_of(tree, at.0)[at.1], "net"@)->0,
                    table,
                ).0
                &&& forall|f: int, q: int|
                    0 <= f <= at.0 && 0 <= q < pads_of(tree, f).len() && (f < at.0 || q < at.1) ==> !(
                    names_net(#[trigger] pads_of(tree, f)[q], table, name))
            }
            &&& !(all.contains_key(name)) ==> forall|f: int, q: int|
                0 <= f < n && 0 <= q < pads_of(tree, f).len() ==> !(names_net(
                    #[trigger] pads_of(tree, f)[q],
                    table,
                    name,
                ))
        }),
    decreases n,
{
    if n <= 0 {
        (0, 0)
    } else {
        let fps = children_in(tree, "footprint"@);
        let before = with_footprints(m, fps, table, n - 1);
        let at = lemma_footprints(m, tree, table, name, n - 1);
        let pads = pads_of(tree, n - 1);
        let p = lemma_pads(before, pads, table, name, pads.len() as int);
        if before.contains_key(name) {
            at
        } else {
            (n - 1, p)
        }
    }
}

/// A net that the table declares is listed with the number of the last row that
/// declares it, whatever the pads say.
pub proof fn law_declared_net_is_listed(
    tree: Sexp,
    table: Seq<(int, Seq<char>)>,
    k: int,
    name: Seq<char>,
)
    requires
        declares(table, k, name),
        forall|j: int| k < j < table.len() ==> !(#[trigger] declares(table, j, name)),
    ensures
        nets_of(tree, table).contains_key(name),
        nets_of(tree, table)[name] == Some(table[k].0),
{
    let n = table.len() as int;
    let h = lemma_declared(table, name, n);
    let m = declared_nets(table, n);
    lemma_footprints(m, tree, table, name, children_in(tree, "footprint"@).len() as int);
    if h < k {
        assert(declares(table, k, name));
    }
}

/// A net that the table does not declare is listed where a pad is on it, with the number
/// that the first such pad gives.
pub proof fn law_net_of_a_pad_is_listed(
    tree: Sexp,
    table: Seq<(int, Seq<char>)>,
    f: int,
    p: int,
    name: Seq<char>,
)
    requires
        forall|j: int| !(#[trigger] declares(table, j, name)),
        0 <= f < children_in(tree, "footprint"@).len(),
        0 <= p < pads_of(tree, f).len(),
        names_net(pads_of(tree, f)[p], table, name),
        forall|g: int, q: int|
            0 <= g <= f && 0 <= q < pads_of(tree, g).len() && (g < f || q < p) ==> !(names_net(
                #[trigger] pads_of(tree, g)[q],
                table,
                name,
            )),
    ensures
        nets_of(tree, table).contains_key(name),
        nets_of(tree, table)[name] == net_of_node(
            child_in(pads_of(tree, f)[p], "net"@)->0,
            table,
        ).0,
{
    let n = table.len() as int;
    lemma_declared(table, name, n);
    let m = declared_nets(table, n);
    let at = lemma_footprints(m, tree, table, name, children_in(tree, "footprint"@).len() as int);
    assert(names_net(pads_of(tree, f)[p], table, name));
    assert(names_net(pads_of(tree, at.0)[at.1], table, name));
    assert(at == (f, p));
}

/// No net is listed that the table does not declare and no pad is on.
pub proof fn law_no_other_net_is_listed(tree: Sexp, table: Seq<(int, Seq<char>)>, name: Seq<char>)
    requires
        forall|j: int| !(#[trigger] declares(table, j, name)),
        forall|f: int, q: int|
            0 <= f < children_in(tree, "footprint"@).len() && 0 <= q < pads_of(tree, f).len() ==> !(
            names_net(#[trigger] pads_of(tree, f)[q], table, name)),
    ensures
        !(nets_of(tree, table).contains_key(name)),
{
    let n = table.len() as int;
    lemma_declared(table, name, n);
    let m = declared_nets(table, n);
    let at = lemma_footprints(m, tree, table, name, children_in(tree, "footprint"@).len() as int);
    if nets_of(tree, table).contains_key(name) {
        assert(names_net(pads_of(tree, at.0)[at.1], table, name));
    }
}

// ─── Points ──────────────────────────────────────────────────────────────────

/// The first node in `n` that begins with the word writes the two numbers.
pub open spec fn writes_point(n: Sexp, word: Seq<char>, p: (Seq<char>, Seq<char>)) -> bool {
    n matches Sexp::List(v) && exists|f: int|
        first_headed(v, f, word) && holds(#[trigger] v[f], 1, p.0) && holds(v[f], 2, p.1) && is_number(
            bytes(p.0),
        ) && is_number(bytes(p.1))
}

/// Some point is written.
pub open spec fn has_point(n: Sexp, word: Seq<char>) -> bool {
    exists|p: (Seq<char>, Seq<char>)| #[trigger] writes_point(n, word, p)
}

/// What is read as a point is what is written.
proof fn lemma_point(n: Sexp, word: Seq<char>)
    ensures
        forall|p: (Seq<char>, Seq<char>)| #[trigger]
            writes_point(n, word, p) == (child_in(n, word) matches Some(a) && point_of(a) == Some(p)),
{
    match n {
        Sexp::List(v) => {
            let f = lemma_first(v, word, 0);
            if none_headed(v, word) {
                lemma_none_tagged(v, word, 0);
            } else {
                lemma_first_tagged(v, f, word, 0);
                assert(child_in(n, word) == Some(v[f]));
                assert forall|p: (Seq<char>, Seq<char>)| #[trigger]
                    writes_point(n, word, p) == (point_of(v[f]) == Some(p)) by {
                    lemma_holds(v[f], 1, p.0);
                    lemma_holds(v[f], 2, p.1);
                    if writes_point(n, word, p) {
                        let g = choose|g: int|
                            first_headed(v, g, word) && holds(#[trigger] v[g], 1, p.0) && holds(
                                v[g],
                                2,
                                p.1,
                            ) && is_number(bytes(p.0)) && is_number(bytes(p.1));
                        lemma_first_tagged(v, g, word, 0);
                    }
                }
            }
        },
        _ => {},
    }
}

/// The marks that are listed are those that write a position, each at its position.
pub proof fn law_marks_are_where_they_are_written(nodes: Seq<Sexp>, n: int) -> (at: Seq<int>)
    requires
        0 <= n <= nodes.len(),
    ensures
        chooses(at, n, |k: int| has_point(nodes[k], "at"@)),
        marked_places(nodes, n).len() == at.len(),
        forall|i: int|
            0 <= i < at.len() ==> writes_point(nodes[#[trigger] at[i]], "at"@, marked_places(nodes, n)[i]),
    decreases n,
{
    let qualifies = |k: int| has_point(nodes[k], "at"@);
    if n <= 0 {
        Seq::empty()
    } else {
        let at = law_marks_are_where_they_are_written(nodes, n - 1);
        let m = nodes[n - 1];
        lemma_point(m, "at"@);
        lemma_chooses_more(at, n - 1, qualifies);
        match (at_number(m, 1), at_number(m, 2)) {
            (Some(x), Some(y)) => {
                assert(writes_point(m, "at"@, (x, y)));
                let more = at.push(n - 1);
                assert forall|i: int| 0 <= i < more.len() implies writes_point(
                    nodes[#[trigger] more[i]],
                    "at"@,
                    marked_places(nodes, n)[i],
                ) by {
                    if i < at.len() {
                        assert(more[i] == at[i]);
                    }
                }
                more
            },
            _ => {
                assert(!(has_point(m, "at"@)));
                at
            },
        }
    }
}

/// A row of a list of pads says what the pad writes: its number, its position, and the
/// name behind the number of its net, empty where it has none.
pub open spec fn is_row(pad: Sexp, row: Pad) -> bool {
    &&& holds(pad, 1, row.number)
    &&& writes_point(pad, "at"@, (row.x, row.y))
    &&& forall|f: int, w: Seq<char>|
        first_headed(pad->List_0, f, "net"@) && #[trigger] holds(pad->List_0[f], 2, w) ==> row.net == w
    &&& row.net.len() > 0 ==> exists|f: int|
        first_headed(pad->List_0, f, "net"@) && holds(#[trigger] pad->List_0[f], 2, row.net)
}

proof fn lemma_pad_row(pad: Sexp)
    ensures
        pad_row(pad) is Some <==> has_point(pad, "at"@) && exists|w: Seq<char>| holds(pad, 1, w),
        pad_row(pad) is Some ==> is_row(pad, pad_row(pad)->0),
{
    lemma_point(pad, "at"@);
    match (text_at(pad, 1), at_number(pad, 1), at_number(pad, 2)) {
        (Some(number), Some(x), Some(y)) => {
            lemma_holds(pad, 1, number);
            assert(writes_point(pad, "at"@, (x, y)));
            let v = pad->List_0;
            let row = pad_row(pad)->0;
            let f = lemma_first(v, "net"@, 0);
            if none_headed(v, "net"@) {
                lemma_none_tagged(v, "net"@, 0);
            } else {
                lemma_first_tagged(v, f, "net"@, 0);
                assert(child_in(pad, "net"@) == Some(v[f]));
                lemma_holds(v[f], 2, row.net);
            }
            assert forall|g: int, w: Seq<char>|
                first_headed(v, g, "net"@) && #[trigger] holds(v[g], 2, w) implies row.net == w by {
                lemma_first_tagged(v, g, "net"@, 0);
                lemma_holds(v[g], 2, w);
            }
        },
        _ => {
            if exists|w: Seq<char>| holds(pad, 1, w) {
                let w = choose|w: Seq<char>| holds(pad, 1, w);
                lemma_holds(pad, 1, w);
            }
        },
    }
}

/// The pads that are listed are those with a number and a position, each as it is
/// written.
pub proof fn law_pads_are_listed_as_written(pads: Seq<Sexp>, n: int) -> (at: Seq<int>)
    requires
        0 <= n <= pads.len(),
    ensures
        chooses(
            at,
            n,
            |k: int| has_point(pads[k], "at"@) && exists|w: Seq<char>| holds(pads[k], 1, w),
        ),
        pad_rows(pads, n).len() == at.len(),
        forall|i: int| 0 <= i < at.len() ==> is_row(pads[#[trigger] at[i]], pad_rows(pads, n)[i]),
    decreases n,
{
    let qualifies = |k: int|
        has_point(pads[k], "at"@) && exists|w: Seq<char>| holds(pads[k], 1, w);
    if n <= 0 {
        Seq::empty()
    } else {
        let at = law_pads_are_listed_as_written(pads, n - 1);
        lemma_pad_row(pads[n - 1]);
        lemma_chooses_more(at, n - 1, qualifies);
        if pad_row(pads[n - 1]) is Some {
            let more = at.push(n - 1);
            assert forall|i: int| 0 <= i < more.len() implies is_row(
                pads[#[trigger] more[i]],
                pad_rows(pads, n)[i],
            ) by {
                if i < at.len() {
                    assert(more[i] == at[i]);
                }
            }
            more
        } else {
            at
        }
    }
}

/// A point of a line: one of its two ends, where both are written.
pub open spec fn ends_line(line: Sexp, p: (Seq<char>, Seq<char>)) -> bool {
    &&& has_point(line, "start"@)
    &&& has_point(line, "end"@)
    &&& writes_point(line, "start"@, p) || writes_point(line, "end"@, p)
}

proof fn lemma_line_points(lines: Seq<Sexp>, n: int, p: (Seq<char>, Seq<char>))
    requires
        0 <= n <= lines.len(),
    ensures
        line_points(lines, n).contains(p) <==> exists|k: int|
            0 <= k < n && ends_line(#[trigger] lines[k], p),
    decreases n,
{
    if n > 0 {
        let l = lines[n - 1];
        let before = line_points(lines, n - 1);
        lemma_line_points(lines, n - 1, p);
        lemma_point(l, "start"@);
        lemma_point(l, "end"@);
        match (child_in(l, "start"@), child_in(l, "end"@)) {
            (Some(a), Some(b)) => match (point_of(a), point_of(b)) {
                (Some(s), Some(e)) => {
                    assert(writes_point(l, "start"@, s) && writes_point(l, "end"@, e));
                    lemma_has_more(before, s, p);
                    lemma_has_more(before.push(s), e, p);
                },
                _ => {},
            },
            _ => {},
        }
        if exists|k: int| 0 <= k < n - 1 && ends_line(#[trigger] lines[k], p) {
            let k = choose|k: int| 0 <= k < n - 1 && ends_line(#[trigger] lines[k], p);
            assert(0 <= k < n && ends_line(lines[k], p));
        }
        assert(ends_line(lines[n - 1], p) == ends_line(l, p));
    }
}

proof fn lemma_footprint_points(fps: Seq<Sexp>, n: int, p: (Seq<char>, Seq<char>))
    requires
        0 <= n <= fps.len(),
    ensures
        footprint_points(fps, n).contains(p) <==> exists|k: int|
            0 <= k < n && writes_point(#[trigger] fps[k], "at"@, p),
    decreases n,
{
    if n > 0 {
        let fp = fps[n - 1];
        lemma_footprint_points(fps, n - 1, p);
        lemma_point(fp, "at"@);
        match child_in(fp, "at"@) {
            Some(a) => match point_of(a) {
                Some(q) => {
                    lemma_has_more(footprint_points(fps, n - 1), q, p);
                },
                None => {},
            },
            None => {},
        }
        if exists|k: int| 0 <= k < n - 1 && writes_point(#[trigger] fps[k], "at"@, p) {
            let k = choose|k: int| 0 <= k < n - 1 && writes_point(#[trigger] fps[k], "at"@, p);
            assert(0 <= k < n && writes_point(fps[k], "at"@, p));
        }
        assert(writes_point(fps[n - 1], "at"@, p) == writes_point(fp, "at"@, p));
    }
}

proof fn lemma_has_more<A>(a: Seq<A>, x: A, e: A)
    ensures
        a.push(x).contains(e) == (a.contains(e) || e == x),
{
    assert(a.push(x)[a.len() as int] == x);
    if a.contains(e) {
        assert(a.push(x)[a.index_of(e)] == e);
    }
    if a.push(x).contains(e) && e != x {
        assert(a[a.push(x).index_of(e)] == e);
    }
}

/// The points that a board extends to are the ends of its lines and the positions of its
/// footprints, and no others.
pub proof fn law_board_extends_to_its_lines_and_footprints(tree: Sexp, p: (Seq<char>, Seq<char>))
    ensures
        extent_points(tree).contains(p) <==> {
            ||| exists|k: int|
                0 <= k < children_in(tree, "gr_line"@).len() && ends_line(
                    #[trigger] children_in(tree, "gr_line"@)[k],
                    p,
                )
            ||| exists|k: int|
                0 <= k < children_in(tree, "footprint"@).len() && writes_point(
                    #[trigger] children_in(tree, "footprint"@)[k],
                    "at"@,
                    p,
                )
        },
{
    let lines = children_in(tree, "gr_line"@);
    let fps = children_in(tree, "footprint"@);
    lemma_line_points(lines, lines.len() as int, p);
    lemma_footprint_points(fps, fps.len() as int, p);
    let a = line_points(lines, lines.len() as int);
    let b = footprint_points(fps, fps.len() as int);
    if a.contains(p) {
        assert((a + b)[a.index_of(p)] == p);
    }
    if b.contains(p) {
        assert((a + b)[a.len() + b.index_of(p)] == p);
    }
    if (a + b).contains(p) {
        let i = (a + b).index_of(p);
        if i < a.len() {
            assert(a[i] == p);
        } else {
            assert(b[i - a.len()] == p);
        }
    }
}

// ─── Symbols and files ───────────────────────────────────────────────────────

/// The text begins with the front.
pub open spec fn opens_with(t: Seq<char>, front: Seq<char>) -> bool {
    bytes(front).len() <= bytes(t).len() && bytes(t).take(bytes(front).len() as int) == bytes(front)
}

/// What a choice asks of a symbol.
pub open spec fn fits(p: Placed, c: Choice) -> bool {
    match c {
        Choice::ReferenceBegins(t) => property_value(p.properties, "Reference"@) matches Some(r)
            && opens_with(r, t),
        Choice::ValueBegins(t) => property_value(p.properties, "Value"@) matches Some(v) && opens_with(
            v,
            t,
        ),
        Choice::ValueIs(t) => property_value(p.properties, "Value"@) == Some(t),
        Choice::LibIdIs(t) => p.lib_id == t,
    }
}

proof fn lemma_fits(p: Placed, c: Choice)
    ensures
        chosen(p, c) == fits(p, c),
{
    match c {
        Choice::ReferenceBegins(t) => {
            if let Some(r) = property_value(p.properties, "Reference"@) {
                if bytes(t).len() <= bytes(r).len() {
                    assert(bytes(r).subrange(0, bytes(t).len() as int) =~= bytes(r).take(
                        bytes(t).len() as int,
                    ));
                }
            }
        },
        Choice::ValueBegins(t) => {
            if let Some(r) = property_value(p.properties, "Value"@) {
                if bytes(t).len() <= bytes(r).len() {
                    assert(bytes(r).subrange(0, bytes(t).len() as int) =~= bytes(r).take(
                        bytes(t).len() as int,
                    ));
                }
            }
        },
        _ => {},
    }
}

/// The symbols that are chosen are those that fit, in order.
pub proof fn law_chosen_symbols_fit(v: Seq<Placed>, c: Choice, n: int) -> (at: Seq<int>)
    requires
        0 <= n <= v.len(),
    ensures
        chooses(at, n, |k: int| fits(v[k], c)),
        choice_of(v, c, n).len() == at.len(),
        forall|i: int| 0 <= i < at.len() ==> choice_of(v, c, n)[i] == v[#[trigger] at[i]],
    decreases n,
{
    let qualifies = |k: int| fits(v[k], c);
    if n <= 0 {
        Seq::empty()
    } else {
        let at = law_chosen_symbols_fit(v, c, n - 1);
        lemma_fits(v[n - 1], c);
        lemma_chooses_more(at, n - 1, qualifies);
        if fits(v[n - 1], c) {
            let more = at.push(n - 1);
            assert forall|i: int| 0 <= i < more.len() implies choice_of(v, c, n)[i]
                == v[#[trigger] more[i]] by {
                if i < at.len() {
                    assert(more[i] == at[i]);
                }
            }
            more
        } else {
            at
        }
    }
}

/// To mark all symbols is to mark each of them but the virtual ones, which open with a
/// hash; nothing else of them changes.
pub proof fn law_all_but_virtual_symbols_are_marked(v: Seq<Placed>, dnp: bool, i: int)
    requires
        0 <= i < v.len(),
    ensures
        with_dnp(v, dnp).len() == v.len(),
        fits(v[i], Choice::ReferenceBegins("#"@)) ==> with_dnp(v, dnp)[i] == v[i],
        !(fits(v[i], Choice::ReferenceBegins("#"@))) ==> with_dnp(v, dnp)[i].dnp == dnp,
        with_dnp(v, dnp)[i] == (Placed { dnp: with_dnp(v, dnp)[i].dnp, ..v[i] }),
{
    lemma_fits(v[i], Choice::ReferenceBegins("#"@));
}

/// The files that are listed are those that are there, in the order of the search.
pub proof fn law_files_there_are_listed(places: Seq<(String, bool)>, n: int) -> (at: Seq<int>)
    requires
        0 <= n <= places.len(),
    ensures
        chooses(at, n, |k: int| places[k].1),
        there_in(places, n).len() == at.len(),
        forall|i: int| 0 <= i < at.len() ==> there_in(places, n)[i] == places[#[trigger] at[i]].0@,
    decreases n,
{
    let qualifies = |k: int| places[k].1;
    if n <= 0 {
        Seq::empty()
    } else {
        let at = law_files_there_are_listed(places, n - 1);
        lemma_chooses_more(at, n - 1, qualifies);
        if places[n - 1].1 {
            let more = at.push(n - 1);
            assert forall|i: int| 0 <= i < more.len() implies there_in(places, n)[i]
                == places[#[trigger] more[i]].0@ by {
                if i < at.len() {
                    assert(more[i] == at[i]);
                }
            }
            more
        } else {
            at
        }
    }
}

// ─── Arrays ──────────────────────────────────────────────────────────────────

/// An array has one place for each column of each row. They come row by row, and the
/// references count up in that order.
pub proof fn law_array_is_filled_row_by_row(
    prefix: Seq<char>,
    start: int,
    columns: int,
    rows: int,
    row: int,
    column: int,
)
    requires
        0 <= row < rows,
        0 <= column < columns,
    ensures
        array_spots(prefix, start, columns, rows).len() == columns * rows,
        0 <= row * columns + column < columns * rows,
        array_spots(prefix, start, columns, rows)[row * columns + column] == (Spot {
            row,
            column,
            reference: prefix + decimal((start + row * columns + column) as nat),
        }),
{
    let i = row * columns + column;
    assert(0 <= i < columns * rows) by (nonlinear_arith)
        requires
            i == row * columns + column,
            0 <= row < rows,
            0 <= column < columns,
    ;
    vstd::arithmetic::div_mod::lemma_fundamental_div_mod_converse(i, columns, row, column);
}

} // verus!
