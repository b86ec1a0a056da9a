//! Pads: which net they are on and where they stand.

#[allow(unused_imports)]
use crate::chars::{
    before, int_value, lemma_bytes_lt_total, lemma_bytes_lt_trans, name_lt, parse_int,
    strictly_in_order,
};
use crate::items::{coordinate, number_at, own, read_coordinate, read_number};
#[allow(unused_imports)]
use crate::net::{int_opt, net_of_node, read_net_node, rows, NetEntry};
#[allow(unused_imports)]
use crate::sexp::{child_in, children_in, node_opt, node_refs, string_opt, text_at, Sexp, SexpNode};
#[allow(unused_imports)]
use crate::text::{bytes, copy, lemma_bytes_injective, put, same};
use vstd::prelude::*;
use vstd::string::*;

verus! {

// ─── Footprints and pads in the tree ─────────────────────────────────────────

/// A property that gives the reference.
pub open spec fn gives_reference(p: Sexp, reference: Seq<char>) -> bool {
    text_at(p, 1) == Some("Reference"@) && text_at(p, 2) == Some(reference)
}

/// A footprint with the reference.
pub open spec fn has_reference(fp: Sexp, reference: Seq<char>) -> bool {
    exists|i: int|
        0 <= i < children_in(fp, "property"@).len() && gives_reference(
            #[trigger] children_in(fp, "property"@)[i],
            reference,
        )
}

/// The first footprint from `k` on with the reference.
pub open spec fn reference_index(fps: Seq<Sexp>, reference: Seq<char>, k: int) -> Option<int>
    decreases fps.len() - k,
{
    if k < 0 || k >= fps.len() {
        None
    } else if has_reference(fps[k], reference) {
        Some(k)
    } else {
        reference_index(fps, reference, k + 1)
    }
}

/// The footprint of a board with the reference.
pub open spec fn footprint_in(tree: Sexp, reference: Seq<char>) -> Option<Sexp> {
    let fps = children_in(tree, "footprint"@);
    match reference_index(fps, reference, 0) {
        Some(i) => Some(fps[i]),
        None => None,
    }
}

/// The first pad from `k` on with the number.
pub open spec fn pad_index(pads: Seq<Sexp>, number: Seq<char>, k: int) -> Option<int>
    decreases pads.len() - k,
{
    if k < 0 || k >= pads.len() {
        None
    } else if text_at(pads[k], 1) == Some(number) {
        Some(k)
    } else {
        pad_index(pads, number, k + 1)
    }
}

/// The pad of a footprint with the number.
pub open spec fn pad_in(fp: Sexp, number: Seq<char>) -> Option<Sexp> {
    let pads = children_in(fp, "pad"@);
    match pad_index(pads, number, 0) {
        Some(i) => Some(pads[i]),
        None => None,
    }
}

/// The error for a footprint that is not on the board.
pub open spec fn no_footprint_text(reference: Seq<char>) -> Seq<char> {
    "Footprint '"@ + reference + "' not found on board"@
}

/// The error for a pad that the footprint does not have.
pub open spec fn no_pad_text(number: Seq<char>, reference: Seq<char>) -> Seq<char> {
    "Pad '"@ + number + "' not found on '"@ + reference + "'"@
}

/// The pad of a board, or the error for what is missing.
pub open spec fn board_pad(tree: Sexp, reference: Seq<char>, number: Seq<char>) -> Result<
    (Sexp, Sexp),
    Seq<char>,
> {
    match footprint_in(tree, reference) {
        None => Err(no_footprint_text(reference)),
        Some(fp) => match pad_in(fp, number) {
            None => Err(no_pad_text(number, reference)),
            Some(pad) => Ok((fp, pad)),
        },
    }
}

fn node_has_reference(fp: &SexpNode, reference: &str) -> (r: bool)
    ensures
        r == has_reference(fp.model(), reference@),
{
    let ps = fp.find_all("property");
    let ghost all = children_in(fp.model(), "property"@);
    let mut i: usize = 0;
    while i < ps.len()
        invariant
            i <= ps.len(),
            all == children_in(fp.model(), "property"@),
            all == node_refs(ps@),
            forall|k: int| 0 <= k < i ==> !gives_reference(#[trigger] all[k], reference@),
        decreases ps.len() - i,
    {
        assert(all[i as int] == ps[i as int].model());
        let name = match ps[i].text_at(1) {
            Some(t) => same(t, "Reference"),
            None => false,
        };
        let value = match ps[i].text_at(2) {
            Some(t) => same(t, reference),
            None => false,
        };
        if name && value {
            assert(gives_reference(children_in(fp.model(), "property"@)[i as int], reference@));
            return true;
        }
        i += 1;
    }
    false
}

/// The footprint of a board with the reference.
pub fn find_by_reference<'a>(tree: &'a SexpNode, reference: &str) -> (r: Option<&'a SexpNode>)
    ensures
        node_opt(r) == footprint_in(tree.model(), reference@),
{
    let fps = tree.find_all("footprint");
    let ghost all = children_in(tree.model(), "footprint"@);
    let mut i: usize = 0;
    while i < fps.len()
        invariant
            i <= fps.len(),
            all == children_in(tree.model(), "footprint"@),
            all == node_refs(fps@),
            reference_index(all, reference@, 0) == reference_index(all, reference@, i as int),
        decreases fps.len() - i,
    {
        assert(all[i as int] == fps[i as int].model());
        if node_has_reference(fps[i], reference) {
            return Some(fps[i]);
        }
        i += 1;
    }
    None
}

/// The pad of a footprint with the number.
pub fn find_pad<'a>(fp: &'a SexpNode, number: &str) -> (r: Option<&'a SexpNode>)
    ensures
        node_opt(r) == pad_in(fp.model(), number@),
{
    let pads = fp.find_all("pad");
    let ghost all = children_in(fp.model(), "pad"@);
    let mut i: usize = 0;
    while i < pads.len()
        invariant
            i <= pads.len(),
            all == children_in(fp.model(), "pad"@),
            all == node_refs(pads@),
            pad_index(all, number@, 0) == pad_index(all, number@, i as int),
        decreases pads.len() - i,
    {
        assert(all[i as int] == pads[i as int].model());
        let hit = match pads[i].text_at(1) {
            Some(t) => same(t, number),
            None => false,
        };
        if hit {
            return Some(pads[i]);
        }
        i += 1;
    }
    None
}

/// A footprint and its pad, or the error for what is missing.
pub fn find_board_pad<'a>(tree: &'a SexpNode, reference: &str, number: &str) -> (r: Result<
    (&'a SexpNode, &'a SexpNode),
    String,
>)
    ensures
        match r {
            Ok((fp, pad)) => board_pad(tree.model(), reference@, number@) == Ok::<
                (Sexp, Sexp),
                Seq<char>,
            >((fp.model(), pad.model())),
            Err(e) => board_pad(tree.model(), reference@, number@) == Err::<(Sexp, Sexp), Seq<char>>(
                e@,
            ),
        },
{
    match find_by_reference(tree, reference) {
        None => {
            let mut out = copy("Footprint '");
            put(&mut out, reference);
            put(&mut out, "' not found on board");
            Err(out)
        },
        Some(fp) => match find_pad(fp, number) {
            None => {
                let mut out = copy("Pad '");
                put(&mut out, number);
                put(&mut out, "' not found on '");
                put(&mut out, reference);
                put(&mut out, "'");
                Err(out)
            },
            Some(pad) => Ok((fp, pad)),
        },
    }
}

// ─── The net of a pad ────────────────────────────────────────────────────────

/// The net that a pad names: `(net "GND")` names it in the first place,
/// `(net 1 "GND")` in the second. An empty name is no net.
pub open spec fn net_of_pad(pad: Sexp) -> Option<Seq<char>> {
    match child_in(pad, "net"@) {
        None => None,
        Some(n) => {
            let first = match text_at(n, 1) {
                Some(t) => if int_value(bytes(t)).is_none() {
                    Some(t)
                } else {
                    None
                },
                None => None,
            };
            let name = match first {
                Some(t) => Some(t),
                None => text_at(n, 2),
            };
            match name {
                Some(t) => if t.len() > 0 {
                    Some(t)
                } else {
                    None
                },
                None => None,
            }
        },
    }
}

/// The net that a pad of a board is on, as the board records it.
pub open spec fn pad_net(tree: Sexp, reference: Seq<char>, number: Seq<char>) -> Result<
    Option<Seq<char>>,
    Seq<char>,
> {
    match board_pad(tree, reference, number) {
        Err(e) => Err(e),
        Ok((_, pad)) => Ok(net_of_pad(pad)),
    }
}

fn read_pad_net(pad: &SexpNode) -> (r: Option<String>)
    ensures
        string_opt(r) == net_of_pad(pad.model()),
{
    match pad.find("net") {
        None => None,
        Some(n) => {
            let first = match n.text_at(1) {
                Some(t) => match parse_int(t) {
                    None => Some(t),
                    Some(_) => None,
                },
                None => None,
            };
            let name = match first {
                Some(t) => Some(t),
                None => n.text_at(2),
            };
            match name {
                Some(t) => {
                    if t.is_empty() {
                        None
                    } else {
                        Some(copy(t))
                    }
                },
                None => None,
            }
        },
    }
}

/// The net a pad belongs to, as recorded on the board; `None` for an unconnected
/// pad.
pub fn find_pad_net(tree: &SexpNode, reference: &str, pad_number: &str) -> (r: Result<
    Option<String>,
    String,
>)
    ensures
        match r {
            Ok(n) => pad_net(tree.model(), reference@, pad_number@) == Ok::<
                Option<Seq<char>>,
                Seq<char>,
            >(string_opt(n)),
            Err(e) => pad_net(tree.model(), reference@, pad_number@) == Err::<
                Option<Seq<char>>,
                Seq<char>,
            >(e@),
        },
{
    match find_board_pad(tree, reference, pad_number) {
        Err(e) => Err(e),
        Ok((_, pad)) => Ok(read_pad_net(pad)),
    }
}

// ─── The place of a pad ──────────────────────────────────────────────────────

/// Where a pad stands: its footprint's position and angle, and its own offset
/// from there, each in the text it is written in, and zero where it is not stated.
#[derive(Debug)]
pub struct PadPlace {
    pub fp_x: String,
    pub fp_y: String,
    pub fp_rotation: String,
    pub x: String,
    pub y: String,
}

/// The number at position `i` of the first node with the tag `at`.
pub open spec fn at_number(n: Sexp, i: int) -> Option<Seq<char>> {
    match child_in(n, "at"@) {
        Some(a) => number_at(a, i),
        None => None,
    }
}

/// Whether the place is that of the pad.
pub open spec fn is_place(p: PadPlace, fp: Sexp, pad: Sexp) -> bool {
    &&& p.fp_x@ == coordinate(fp, "at"@, 1)
    &&& p.fp_y@ == coordinate(fp, "at"@, 2)
    &&& p.fp_rotation@ == coordinate(fp, "at"@, 3)
    &&& p.x@ == coordinate(pad, "at"@, 1)
    &&& p.y@ == coordinate(pad, "at"@, 2)
}

/// Whether the answer says where the pad of the board stands, or what is missing.
pub open spec fn is_pad_place(
    r: Result<PadPlace, String>,
    tree: Sexp,
    reference: Seq<char>,
    number: Seq<char>,
) -> bool {
    match board_pad(tree, reference, number) {
        Err(e) => r is Err && r->Err_0@ == e,
        Ok((fp, pad)) => if child_in(pad, "at"@).is_none() {
            r is Err && r->Err_0@ == "Pad has no (at) node"@
        } else {
            r is Ok && is_place(r->Ok_0, fp, pad)
        },
    }
}

/// The number at position `i` of the first node with the tag `at`.
pub fn read_at_number(n: &SexpNode, i: usize) -> (r: Option<String>)
    ensures
        string_opt(r) == at_number(n.model(), i as int),
{
    match n.find("at") {
        Some(a) => read_number(a, i),
        None => None,
    }
}

/// Where a pad stands, or the error for what is missing.
pub fn find_pad_place(tree: &SexpNode, reference: &str, pad_number: &str) -> (r: Result<
    PadPlace,
    String,
>)
    ensures
        is_pad_place(r, tree.model(), reference@, pad_number@),
{
    match find_board_pad(tree, reference, pad_number) {
        Err(e) => Err(e),
        Ok((fp, pad)) => {
            if pad.find("at").is_none() {
                return Err(copy("Pad has no (at) node"));
            }
            Ok(
                PadPlace {
                    fp_x: read_coordinate(fp, "at", 1),
                    fp_y: read_coordinate(fp, "at", 2),
                    fp_rotation: read_coordinate(fp, "at", 3),
                    x: read_coordinate(pad, "at", 1),
                    y: read_coordinate(pad, "at", 2),
                },
            )
        },
    }
}

/// One pad of a footprint: its number, its offset from the footprint and the
/// name its `(net …)` carries beside a code.
#[derive(Debug)]
pub struct PadRow {
    pub number: String,
    pub x: String,
    pub y: String,
    pub net: String,
}

/// A pad as a value.
pub struct Pad {
    pub number: Seq<char>,
    pub x: Seq<char>,
    pub y: Seq<char>,
    pub net: Seq<char>,
}

/// What a pad node states, if it has a number and a numeric position.
pub open spec fn pad_row(pad: Sexp) -> Option<Pad> {
    match (text_at(pad, 1), at_number(pad, 1), at_number(pad, 2)) {
        (Some(number), Some(x), Some(y)) => Some(
            Pad {
                number,
                x,
                y,
                net: match child_in(pad, "net"@) {
                    Some(n) => match text_at(n, 2) {
                        Some(t) => t,
                        None => Seq::empty(),
                    },
                    None => Seq::empty(),
                },
            },
        ),
        _ => None,
    }
}

/// What the first `n` pad nodes state.
pub open spec fn pad_rows(pads: Seq<Sexp>, n: int) -> Seq<Pad>
    decreases n,
{
    if n <= 0 {
        Seq::empty()
    } else {
        match pad_row(pads[n - 1]) {
            Some(p) => pad_rows(pads, n - 1).push(p),
            None => pad_rows(pads, n - 1),
        }
    }
}

/// The values of a list of pads.
pub open spec fn pad_models(v: Seq<PadRow>) -> Seq<Pad> {
    Seq::new(
        v.len(),
        |i: int| Pad { number: v[i].number@, x: v[i].x@, y: v[i].y@, net: v[i].net@ },
    )
}

/// The pads of a footprint.
pub fn component_pads(fp: &SexpNode) -> (r: Vec<PadRow>)
    ensures
        pad_models(r@) == pad_rows(
            children_in(fp.model(), "pad"@),
            children_in(fp.model(), "pad"@).len() as int,
        ),
{
    let pads = fp.find_all("pad");
    let ghost all = children_in(fp.model(), "pad"@);
    let mut out: Vec<PadRow> = Vec::new();
    let mut k: usize = 0;
    assert(pad_models(out@) =~= pad_rows(all, 0));
    while k < pads.len()
        invariant
            k <= pads.len(),
            all == node_refs(pads@),
            pad_models(out@) == pad_rows(all, k as int),
        decreases pads.len() - k,
    {
        assert(all[k as int] == pads[k as int].model());
        let number = own(pads[k].text_at(1));
        let x = read_at_number(pads[k], 1);
        let y = read_at_number(pads[k], 2);
        match (number, x, y) {
            (Some(number), Some(x), Some(y)) => {
                let net = match pads[k].find("net") {
                    Some(n) => match n.text_at(2) {
                        Some(t) => copy(t),
                        None => String::new(),
                    },
                    None => String::new(),
                };
                let ghost was = pad_models(out@);
                let ghost p = Pad { number: number@, x: x@, y: y@, net: net@ };
                out.push(PadRow { number, x, y, net });
                assert(pad_models(out@) =~= was.push(p));
            },
            _ => {},
        }
        k += 1;
    }
    out
}

/// The position of the first of the pads with the number, from `k` on.
pub open spec fn row_numbered(pads: Seq<Pad>, number: Seq<char>, k: int) -> Option<int>
    decreases pads.len() - k,
{
    if k < 0 || k >= pads.len() {
        None
    } else if pads[k].number == number {
        Some(k)
    } else {
        row_numbered(pads, number, k + 1)
    }
}

/// Why there is no such pad.
pub open spec fn pad_not_found_text(number: Seq<char>) -> Seq<char> {
    "Pad '"@ + number + "' not found"@
}

/// Where the pad with the number stands among a footprint's pads.
pub fn find_pad_row(pads: &Vec<PadRow>, number: &str) -> (r: Result<usize, String>)
    ensures
        match r {
            Ok(i) => row_numbered(pad_models(pads@), number@, 0) == Some(i as int) && i < pads.len(),
            Err(e) => row_numbered(pad_models(pads@), number@, 0).is_none() && e@
                == pad_not_found_text(number@),
        },
{
    let mut k: usize = 0;
    while k < pads.len()
        invariant
            k <= pads.len(),
            row_numbered(pad_models(pads@), number@, 0) == row_numbered(
                pad_models(pads@),
                number@,
                k as int,
            ),
        decreases pads.len() - k,
    {
        assert(pad_models(pads@)[k as int].number == pads@[k as int].number@);
        if same(pads[k].number.as_str(), number) {
            return Ok(k);
        }
        k += 1;
    }
    let mut out = copy("Pad '");
    put(&mut out, number);
    put(&mut out, "' not found");
    Err(out)
}

// ─── The nets of a board ─────────────────────────────────────────────────────

/// A net of a board, with its code where the board has codes.
#[derive(Debug)]
pub struct ListedNet {
    pub name: String,
    pub code: Option<i32>,
}

/// The names of a list of nets.
pub open spec fn listed_names(v: Seq<ListedNet>) -> Seq<Seq<char>> {
    Seq::new(v.len(), |i: int| v[i].name@)
}

/// A list that holds exactly the pairs of a map, in the order of the names.
pub open spec fn lists_map(v: Seq<ListedNet>, m: Map<Seq<char>, Option<int>>) -> bool {
    &&& strictly_in_order(listed_names(v))
    &&& forall|i: int|
        0 <= i < v.len() ==> m.contains_key((#[trigger] v[i]).name@) && m[v[i].name@] == int_opt(
            v[i].code,
        )
    &&& forall|n: Seq<char>| #[trigger] m.contains_key(n) ==> exists|i: int|
        0 <= i < v.len() && (#[trigger] v[i]).name@ == n
}

/// Whether an earlier row of the table has the code of row `k`.
pub open spec fn shadowed(table: Seq<(int, Seq<char>)>, k: int) -> bool {
    exists|j: int| 0 <= j < k && (#[trigger] table[j]).0 == table[k].0
}

/// The nets that the first `n` rows of the table declare.
pub open spec fn declared_nets(table: Seq<(int, Seq<char>)>, n: int) -> Map<Seq<char>, Option<int>>
    decreases n,
{
    if n <= 0 {
        Map::empty()
    } else {
        let (code, name) = table[n - 1];
        if name.len() > 0 && !shadowed(table, n - 1) {
            declared_nets(table, n - 1).insert(name, Some(code))
        } else {
            declared_nets(table, n - 1)
        }
    }
}

/// The nets known so far and the one that a pad names, if it is a new one.
pub open spec fn with_pad(
    m: Map<Seq<char>, Option<int>>,
    pad: Sexp,
    table: Seq<(int, Seq<char>)>,
) -> Map<Seq<char>, Option<int>> {
    match child_in(pad, "net"@) {
        None => m,
        Some(node) => {
            let (code, name) = net_of_node(node, table);
            match name {
                Some(n) => if n.len() > 0 && !m.contains_key(n) {
                    m.insert(n, code)
                } else {
                    m
                },
                None => m,
            }
        },
    }
}

/// The nets known after the first `n` pads.
pub open spec fn with_pads(
    m: Map<Seq<char>, Option<int>>,
    pads: Seq<Sexp>,
    table: Seq<(int, Seq<char>)>,
    n: int,
) -> Map<Seq<char>, Option<int>>
    decreases n,
{
    if n <= 0 {
        m
    } else {
        with_pad(with_pads(m, pads, table, n - 1), pads[n - 1], table)
    }
}

/// The nets known after the pads of the first `n` footprints.
pub open spec fn with_footprints(
    m: Map<Seq<char>, Option<int>>,
    fps: Seq<Sexp>,
    table: Seq<(int, Seq<char>)>,
    n: int,
) -> Map<Seq<char>, Option<int>>
    decreases n,
{
    if n <= 0 {
        m
    } else {
        let pads = children_in(fps[n - 1], "pad"@);
        with_pads(with_footprints(m, fps, table, n - 1), pads, table, pads.len() as int)
    }
}

/// The nets of a board: those its table declares, then those its pads name.
pub open spec fn nets_of(tree: Sexp, table: Seq<(int, Seq<char>)>) -> Map<Seq<char>, Option<int>> {
    let fps = children_in(tree, "footprint"@);
    with_footprints(declared_nets(table, table.len() as int), fps, table, fps.len() as int)
}

/// Put a net into the list. Where the name is there already, its code is replaced
/// only if asked for.
fn list_net(v: &mut Vec<ListedNet>, name: &str, code: Option<i32>, replace: bool, Ghost(m): Ghost<
    Map<Seq<char>, Option<int>>,
>)
    requires
        lists_map(old(v)@, m),
    ensures
        lists_map(
            final(v)@,
            if m.contains_key(name@) && !replace {
                m
            } else {
                m.insert(name@, int_opt(code))
            },
        ),
{
    let ghost first = v@;
    let ghost names = listed_names(v@);
    let mut p: usize = 0;
    while p < v.len() && before(v[p].name.as_str(), name)
        invariant
            p <= v.len(),
            v@ == first,
            names == listed_names(first),
            forall|i: int| 0 <= i < p ==> name_lt(#[trigger] names[i], name@),
        decreases v.len() - p,
    {
        assert(names[p as int] == v[p as int].name@);
        p += 1;
    }
    proof {
        if p < first.len() {
            assert(names[p as int] == first[p as int].name@);
        }
    }
    if p < v.len() && same(v[p].name.as_str(), name) {
        assert(m.contains_key(first[p as int].name@));
        if replace {
            let kept = copy(name);
            v.set(p, ListedNet { name: kept, code });
            proof {
                let m2 = m.insert(name@, int_opt(code));
                assert(listed_names(v@) =~= names);
                assert forall|i: int| 0 <= i < v@.len() implies m2.contains_key((#[trigger] v@[i]).name@)
                    && m2[v@[i].name@] == int_opt(v@[i].code) by {
                    if i != p {
                        assert(v@[i] == first[i]);
                        assert(names[i] == first[i].name@);
                        if i < p {
                            assert(name_lt(names[i], names[p as int]));
                        } else {
                            assert(name_lt(names[p as int], names[i]));
                        }
                        lemma_bytes_lt_total(bytes(names[i]), bytes(names[p as int]));
                    }
                }
                assert forall|n: Seq<char>| #[trigger] m2.contains_key(n) implies exists|i: int|
                    0 <= i < v@.len() && (#[trigger] v@[i]).name@ == n by {
                    if n == name@ {
                        assert(v@[p as int].name@ == n);
                    } else {
                        assert(m.contains_key(n));
                        let i = choose|i: int| 0 <= i < first.len() && (#[trigger] first[i]).name@ == n;
                        assert(v@[i].name@ == n);
                    }
                }
            }
        }
    } else {
        proof {
            // The name is not in the list: everything from `p` on comes after it.
            assert forall|i: int| p <= i < first.len() implies name_lt(name@, #[trigger] names[i]) by {
                lemma_bytes_lt_total(bytes(names[p as int]), bytes(name@));
                if bytes(names[p as int]) == bytes(name@) {
                    lemma_bytes_injective(names[p as int], name@);
                }
                if i > p {
                    assert(name_lt(names[p as int], names[i]));
                    lemma_bytes_lt_trans(bytes(name@), bytes(names[p as int]), bytes(names[i]));
                }
            }
            if m.contains_key(name@) {
                let i = choose|i: int| 0 <= i < first.len() && (#[trigger] first[i]).name@ == name@;
                assert(names[i] == name@);
                lemma_bytes_lt_total(bytes(name@), bytes(name@));
                assert(i < p || i >= p);
            }
        }
        v.insert(p, ListedNet { name: copy(name), code });
        proof {
            let m2 = m.insert(name@, int_opt(code));
            let after = listed_names(v@);
            assert(after =~= names.insert(p as int, name@));
            assert forall|i: int, j: int| 0 <= i < j < after.len() implies name_lt(
                #[trigger] after[i],
                #[trigger] after[j],
            ) by {
                let a = if i < p {
                    i
                } else {
                    i - 1
                };
                let b = if j < p {
                    j
                } else {
                    j - 1
                };
                if j == p {
                    assert(after[i] == names[i]);
                } else if i == p {
                    assert(after[j] == names[b]);
                } else {
                    assert(after[i] == names[a] && after[j] == names[b]);
                }
            }
            assert forall|i: int| 0 <= i < v@.len() implies m2.contains_key((#[trigger] v@[i]).name@)
                && m2[v@[i].name@] == int_opt(v@[i].code) by {
                if i != p {
                    let a = if i < p {
                        i
                    } else {
                        i - 1
                    };
                    assert(v@[i] == first[a]);
                    assert(m.contains_key(first[a].name@));
                }
            }
            assert forall|n: Seq<char>| #[trigger] m2.contains_key(n) implies exists|i: int|
                0 <= i < v@.len() && (#[trigger] v@[i]).name@ == n by {
                if n == name@ {
                    assert(v@[p as int].name@ == n);
                } else {
                    assert(m.contains_key(n));
                    let i = choose|i: int| 0 <= i < first.len() && (#[trigger] first[i]).name@ == n;
                    if i < p {
                        assert(v@[i].name@ == n);
                    } else {
                        assert(v@[i + 1].name@ == n);
                    }
                }
            }
        }
    }
}

/// Whether an earlier row of the table has the code of row `k`.
fn is_shadowed(table: &Vec<NetEntry>, k: usize) -> (r: bool)
    requires
        k < table.len(),
    ensures
        r == shadowed(rows(table@), k as int),
{
    let ghost t = rows(table@);
    let mut j: usize = 0;
    while j < k
        invariant
            j <= k < table.len(),
            t == rows(table@),
            forall|i: int| 0 <= i < j ==> (#[trigger] t[i]).0 != t[k as int].0,
        decreases k - j,
    {
        assert(t[j as int].0 == table[j as int].code);
        assert(t[k as int].0 == table[k as int].code);
        if table[j].code == table[k].code {
            return true;
        }
        j += 1;
    }
    false
}

/// The nets of a board, in the order of their names. On boards without a net
/// table the pads are the only record that a net exists at all.
pub fn nets_list(tree: &SexpNode, table: &Vec<NetEntry>) -> (r: Vec<ListedNet>)
    ensures
        lists_map(r@, nets_of(tree.model(), rows(table@))),
{
    let ghost t = rows(table@);
    let mut out: Vec<ListedNet> = Vec::new();
    let ghost mut m: Map<Seq<char>, Option<int>> = Map::empty();
    let mut k: usize = 0;
    while k < table.len()
        invariant
            k <= table.len(),
            t == rows(table@),
            m == declared_nets(t, k as int),
            lists_map(out@, m),
        decreases table.len() - k,
    {
        assert(t[k as int] == (table[k as int].code as int, table[k as int].name@));
        if !table[k].name.as_str().is_empty() && !is_shadowed(table, k) {
            list_net(&mut out, table[k].name.as_str(), Some(table[k].code), true, Ghost(m));
            proof {
                m = m.insert(table[k as int].name@, Some(table[k as int].code as int));
            }
        }
        k += 1;
    }
    let fps = tree.find_all("footprint");
    let ghost all = children_in(tree.model(), "footprint"@);
    let ghost base = m;
    let mut i: usize = 0;
    while i < fps.len()
        invariant
            i <= fps.len(),
            t == rows(table@),
            all == node_refs(fps@),
            m == with_footprints(base, all, t, i as int),
            lists_map(out@, m),
        decreases fps.len() - i,
    {
        assert(all[i as int] == fps[i as int].model());
        let pads = fps[i].find_all("pad");
        let ghost ps = children_in(all[i as int], "pad"@);
        let ghost start = m;
        let mut j: usize = 0;
        while j < pads.len()
            invariant
                j <= pads.len(),
                t == rows(table@),
                ps == node_refs(pads@),
                m == with_pads(start, ps, t, j as int),
                lists_map(out@, m),
            decreases pads.len() - j,
        {
            assert(ps[j as int] == pads[j as int].model());
            match pads[j].find("net") {
                Some(node) => {
                    let (code, name) = read_net_node(node, table);
                    match name {
                        Some(n) => {
                            if !n.as_str().is_empty() {
                                list_net(&mut out, n.as_str(), code, false, Ghost(m));
                                proof {
                                    if !m.contains_key(n@) {
                                        m = m.insert(n@, int_opt(code));
                                    }
                                }
                            }
                        },
                        None => {},
                    }
                },
                None => {},
            }
            j += 1;
        }
        i += 1;
    }
    out
}

} // verus!
