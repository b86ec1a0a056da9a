//! The layer table of a board.

#[allow(unused_imports)]
use crate::chars::{
    int_value, leading_white, parse_int, signed_decimal, signed_text, texts, white_prefix,
};
use crate::board_file::written;
use crate::edit::{apply_edits, edited, splices, SexpEdit, Splice};
#[allow(unused_imports)]
use crate::edit::edits_fit;
use crate::items::lists;
use crate::lines::without_return;
use crate::net::int_opt;
use crate::routing::{parse_fault, parse_fault_text};
#[allow(unused_imports)]
use crate::scan::{block_end, find_block_end, lemma_block_cuttable, lex, opens, Lexer, OPEN};
#[allow(unused_imports)]
use crate::sexp::{child_in, items_in, parse_sexp, parse_text, text_at, Sexp, SexpNode};
#[allow(unused_imports)]
use crate::text::{
    boundary, byte_at, bytes, copy, ends_with, find_byte, first_byte, lemma_ascii_boundary, lemma_ends,
    lemma_match_boundary, length, match_at, matches_at, put, same, slice, slice_from, text_of,
};
use vstd::prelude::*;
use vstd::string::*;

verus! {

// ─── KiCAD's layer ids ───────────────────────────────────────────────────────

/// The fixed id of a technical layer.
pub open spec fn technical_id(name: Seq<char>) -> Option<int> {
    if name == "F.Mask"@ {
        Some(1)
    } else if name == "B.Mask"@ {
        Some(3)
    } else if name == "F.SilkS"@ {
        Some(5)
    } else if name == "B.SilkS"@ {
        Some(7)
    } else if name == "F.Adhes"@ {
        Some(9)
    } else if name == "B.Adhes"@ {
        Some(11)
    } else if name == "F.Paste"@ {
        Some(13)
    } else if name == "B.Paste"@ {
        Some(15)
    } else if name == "Dwgs.User"@ {
        Some(17)
    } else if name == "Cmts.User"@ {
        Some(19)
    } else if name == "Eco1.User"@ {
        Some(21)
    } else if name == "Eco2.User"@ {
        Some(23)
    } else if name == "Edge.Cuts"@ {
        Some(25)
    } else if name == "Margin"@ {
        Some(27)
    } else if name == "B.CrtYd"@ {
        Some(29)
    } else if name == "F.CrtYd"@ {
        Some(31)
    } else if name == "B.Fab"@ {
        Some(33)
    } else if name == "F.Fab"@ {
        Some(35)
    } else {
        None
    }
}

/// The number of a user layer, `User.1` to `User.9`.
pub open spec fn user_number(name: Seq<char>) -> Option<int> {
    let s = bytes(name);
    if matches_at(s, 0, bytes("User."@)) {
        match int_value(s.subrange(5, s.len() as int)) {
            Some(n) => if 1 <= n <= 9 {
                Some(n)
            } else {
                None
            },
            None => None,
        }
    } else {
        None
    }
}

/// The id that KiCAD assigns to a layer that is not copper: the technical layers
/// have the odd ids up to 35, and the user layers follow them.
pub open spec fn layer_id(name: Seq<char>) -> Option<int> {
    match technical_id(name) {
        Some(id) => Some(id),
        None => match user_number(name) {
            Some(n) => Some(37 + 2 * n),
            None => None,
        },
    }
}

/// The canonical id KiCAD assigns to `name`, for the layers that may be added.
/// KiCAD does not let a board invent layer ids: each named layer has a fixed one,
/// and copper owns the even ids.
pub fn canonical_layer_id(name: &str) -> (r: Option<i32>)
    ensures
        int_opt(r) == layer_id(name@),
{
    if same(name, "F.Mask") {
        return Some(1);
    }
    if same(name, "B.Mask") {
        return Some(3);
    }
    if same(name, "F.SilkS") {
        return Some(5);
    }
    if same(name, "B.SilkS") {
        return Some(7);
    }
    if same(name, "F.Adhes") {
        return Some(9);
    }
    if same(name, "B.Adhes") {
        return Some(11);
    }
    if same(name, "F.Paste") {
        return Some(13);
    }
    if same(name, "B.Paste") {
        return Some(15);
    }
    if same(name, "Dwgs.User") {
        return Some(17);
    }
    if same(name, "Cmts.User") {
        return Some(19);
    }
    if same(name, "Eco1.User") {
        return Some(21);
    }
    if same(name, "Eco2.User") {
        return Some(23);
    }
    if same(name, "Edge.Cuts") {
        return Some(25);
    }
    if same(name, "Margin") {
        return Some(27);
    }
    if same(name, "B.CrtYd") {
        return Some(29);
    }
    if same(name, "F.CrtYd") {
        return Some(31);
    }
    if same(name, "B.Fab") {
        return Some(33);
    }
    if same(name, "F.Fab") {
        return Some(35);
    }
    if !match_at(name, 0, "User.") {
        return None;
    }
    proof {
        reveal_strlit("User.");
        lemma_match_boundary(name@, 0, "User."@);
    }
    match parse_int(slice_from(name, 5)) {
        Some(n) => {
            if 1 <= n && n <= 9 {
                Some(37 + 2 * n)
            } else {
                None
            }
        },
        None => None,
    }
}

/// A copper layer: `F.Cu`, `B.Cu` or `In<N>.Cu`.
pub open spec fn is_copper(name: Seq<char>) -> bool {
    matches_at(bytes(name), bytes(name).len() - bytes(".Cu"@).len(), bytes(".Cu"@))
}

/// Whether `name` is a copper layer.
pub fn is_copper_layer(name: &str) -> (r: bool)
    ensures
        r == is_copper(name@),
{
    ends_with(name, ".Cu")
}

/// The id of the inner copper layer `In<n>.Cu`. `F.Cu` is 0 and `B.Cu` is 2, so
/// inner copper starts at 4.
pub fn inner_copper_id(n: i32) -> (r: i32)
    requires
        i32::MIN <= 2 + 2 * n <= i32::MAX,
        i32::MIN <= 2 * n <= i32::MAX,
    ensures
        r == 2 + 2 * n,
{
    2 + 2 * n
}

/// The ids that may be added are odd and between 1 and 55; copper ids are even,
/// so the two never meet.
pub proof fn law_layer_ids_are_odd(name: Seq<char>, n: int)
    requires
        layer_id(name).is_some(),
    ensures
        1 <= layer_id(name).unwrap() <= 55,
        layer_id(name).unwrap() % 2 == 1,
        layer_id(name).unwrap() != 2 + 2 * n,
{
}

/// Two different names that are not user layers never share an id, and neither
/// does a user layer with one that is not.
pub proof fn law_layer_ids_differ(a: Seq<char>, b: Seq<char>)
    requires
        layer_id(a).is_some(),
        layer_id(a) == layer_id(b),
    ensures
        a == b || (technical_id(a).is_none() && technical_id(b).is_none() && user_number(a)
            == user_number(b)),
{
}

// ─── The table ───────────────────────────────────────────────────────────────

/// A row of the layer table.
#[derive(Debug)]
pub struct LayerEntry {
    pub id: i32,
    pub name: String,
    pub kind: String,
}

/// A row as a value.
pub struct Layer {
    pub id: int,
    pub name: Seq<char>,
    pub kind: Seq<char>,
}

/// The values of a list of rows.
pub open spec fn layer_models(v: Seq<LayerEntry>) -> Seq<Layer> {
    Seq::new(v.len(), |i: int| Layer { id: v[i].id as int, name: v[i].name@, kind: v[i].kind@ })
}

/// The layer that a row states: `(0 "F.Cu" signal)`. The id is the head of the
/// list.
pub open spec fn layer_row(row: Sexp) -> Option<Layer> {
    match (text_at(row, 0), text_at(row, 1)) {
        (Some(id), Some(name)) => match int_value(bytes(id)) {
            Some(n) => Some(
                Layer {
                    id: n,
                    name,
                    kind: match text_at(row, 2) {
                        Some(k) => k,
                        None => "user"@,
                    },
                },
            ),
            None => None,
        },
        _ => None,
    }
}

/// The layers that the nodes `1..n` state.
pub open spec fn layer_rows(items: Seq<Sexp>, n: int) -> Seq<Layer>
    decreases n,
{
    if n <= 1 {
        Seq::empty()
    } else {
        match layer_row(items[n - 1]) {
            Some(l) => layer_rows(items, n - 1).push(l),
            None => layer_rows(items, n - 1),
        }
    }
}

/// The layer table of a board.
pub open spec fn layer_table(tree: Sexp) -> Option<Seq<Layer>> {
    match child_in(tree, "layers"@) {
        Some(n) => Some(layer_rows(items_in(n), items_in(n).len() as int)),
        None => None,
    }
}

/// Read the board's layer table. Every node after the `layers` tag is a row.
pub fn read_layers(tree: &SexpNode) -> (r: Option<Vec<LayerEntry>>)
    ensures
        match r {
            Some(v) => layer_table(tree.model()) == Some(layer_models(v@)),
            None => layer_table(tree.model()).is_none(),
        },
{
    match tree.find("layers") {
        None => None,
        Some(node) => {
            let ghost items = items_in(node.model());
            let n = node.count();
            let mut out: Vec<LayerEntry> = Vec::new();
            assert(layer_models(out@) =~= Seq::<Layer>::empty());
            if n == 0 {
                return Some(out);
            }
            let mut k: usize = 1;
            while k < n
                invariant
                    1 <= k <= n,
                    n == items.len(),
                    items == items_in(node.model()),
                    layer_models(out@) == layer_rows(items, k as int),
                decreases n - k,
            {
                match node.get(k) {
                    Some(row) => {
                        match (row.text_at(0), row.text_at(1)) {
                            (Some(id), Some(name)) => match parse_int(id) {
                                Some(id) => {
                                    let kind = match row.text_at(2) {
                                        Some(t) => copy(t),
                                        None => copy("user"),
                                    };
                                    let ghost was = layer_models(out@);
                                    let ghost l = Layer { id: id as int, name: name@, kind: kind@ };
                                    out.push(LayerEntry { id, name: copy(name), kind });
                                    assert(layer_models(out@) =~= was.push(l));
                                },
                                None => {},
                            },
                            _ => {},
                        }
                    },
                    None => {},
                }
                k += 1;
            }
            Some(out)
        },
    }
}

// ─── Where the table stands ──────────────────────────────────────────────────

/// A direct child of the root that begins with `(layers`.
pub open spec fn layers_open(s: Seq<u8>, p: int) -> bool {
    opens(s, p) && lex(s, 0, p).depth == 1 && matches_at(s, p, bytes("(layers"@))
}

/// The first such opening at or after `p`.
pub open spec fn layers_from(s: Seq<u8>, p: int) -> Option<int>
    decreases s.len() - p,
{
    if p < 0 || p >= s.len() {
        None
    } else if layers_open(s, p) {
        Some(p)
    } else {
        layers_from(s, p + 1)
    }
}

/// Byte offset of the board's top-level `(layers`, past the `(layers …)` lists
/// that footprints, pads and zones carry.
pub fn find_layers_block(content: &str) -> (r: Option<usize>)
    ensures
        match r {
            Some(p) => layers_from(bytes(content@), 0) == Some(p as int) && layers_open(
                bytes(content@),
                p as int,
            ),
            None => layers_from(bytes(content@), 0).is_none(),
        },
{
    let ghost s = bytes(content@);
    let n = length(content);
    let mut st = Lexer::start();
    let mut i: usize = 0;
    while i < n
        invariant
            s == bytes(content@),
            n == s.len(),
            i <= n,
            st.model() == lex(s, 0, i as int),
            st.depth <= i,
            layers_from(s, 0) == layers_from(s, i as int),
        decreases n - i,
    {
        let b = byte_at(content, i);
        if b == OPEN && !st.in_string && st.depth == 1 && match_at(content, i, "(layers") {
            return Some(i);
        }
        st = st.step(b);
        i += 1;
    }
    None
}

/// The second line of a text.
pub open spec fn second_line(s: Seq<u8>) -> Option<Seq<u8>> {
    match first_byte(s, 0x0a, 0) {
        None => None,
        Some(i) => if i + 1 >= s.len() {
            None
        } else {
            match first_byte(s, 0x0a, i + 1) {
                Some(j) => Some(without_return(s.subrange(i + 1, j))),
                None => Some(s.subrange(i + 1, s.len() as int)),
            }
        },
    }
}

/// The indentation of the rows inside the layers block at `pos`.
pub open spec fn row_indent_text(s: Seq<u8>, pos: int) -> Seq<char> {
    match second_line(s.subrange(pos, s.len() as int)) {
        Some(line) => white_prefix(text_of(line)),
        None => "\t\t"@,
    }
}

/// The leading white space of the rows inside the layers block, so that an
/// inserted row lines up with the existing ones.
pub fn row_indent(content: &str, layers_pos: usize) -> (r: String)
    requires
        layers_pos <= bytes(content@).len(),
        boundary(bytes(content@), layers_pos as int),
    ensures
        r@ == row_indent_text(bytes(content@), layers_pos as int),
{
    let rest = slice_from(content, layers_pos);
    let n = length(rest);
    let i = match find_byte(rest, 0x0a, 0) {
        None => {
            return copy("\t\t");
        },
        Some(i) => i,
    };
    if i + 1 >= n {
        return copy("\t\t");
    }
    proof {
        lemma_ascii_boundary(rest@, i as int);
        lemma_ends(rest@);
    }
    match find_byte(rest, 0x0a, i + 1) {
        Some(j) => {
            proof {
                lemma_ascii_boundary(rest@, j as int);
            }
            if j > i + 1 && byte_at(rest, j - 1) == 0x0d {
                proof {
                    lemma_ascii_boundary(rest@, j - 1);
                    let line = bytes(rest@).subrange(i + 1, j as int);
                    assert(line.last() == 0x0d);
                    assert(line.drop_last() =~= bytes(rest@).subrange(i + 1, j - 1));
                }
                copy(leading_white(slice(rest, i + 1, j - 1)))
            } else {
                proof {
                    let line = bytes(rest@).subrange(i + 1, j as int);
                    assert(line.len() > 0 ==> line.last() == bytes(rest@)[j - 1]);
                }
                copy(leading_white(slice(rest, i + 1, j)))
            }
        },
        None => copy(leading_white(slice_from(rest, i + 1))),
    }
}

// ─── Checking an edited table ────────────────────────────────────────────────

/// Whether a row holds another list.
pub open spec fn has_nested(row: Sexp) -> bool {
    exists|i: int| 0 <= i < items_in(row).len() && (#[trigger] items_in(row)[i]) is List
}

/// What is wrong with a row, given the ids and names before it.
pub open spec fn row_fault(row: Sexp, ids: Seq<Seq<char>>, names: Seq<Seq<char>>) -> Option<Seq<char>> {
    if !(row is List) {
        Some("a layer row is not a list"@)
    } else if has_nested(row) {
        Some("a layer row contains a nested list"@)
    } else {
        match text_at(row, 0) {
            None => Some("a layer row has no id"@),
            Some(id) => match text_at(row, 1) {
                None => Some("a layer row has no name"@),
                Some(name) => if ids.contains(id) {
                    Some("duplicate layer id "@ + id)
                } else if names.contains(name) {
                    Some("duplicate layer name "@ + name)
                } else {
                    None
                },
            },
        }
    }
}

/// The ids of the rows `1..n`.
pub open spec fn row_ids(items: Seq<Sexp>, n: int) -> Seq<Seq<char>>
    decreases n,
{
    if n <= 1 {
        Seq::empty()
    } else {
        row_ids(items, n - 1).push(text_at(items[n - 1], 0).unwrap())
    }
}

/// The names of the rows `1..n`.
pub open spec fn row_names(items: Seq<Sexp>, n: int) -> Seq<Seq<char>>
    decreases n,
{
    if n <= 1 {
        Seq::empty()
    } else {
        row_names(items, n - 1).push(text_at(items[n - 1], 1).unwrap())
    }
}

/// The first fault among the rows from `k` on.
pub open spec fn rows_fault(items: Seq<Sexp>, k: int) -> Option<Seq<char>>
    decreases items.len() - k,
{
    if k < 1 || k >= items.len() {
        None
    } else {
        match row_fault(items[k], row_ids(items, k), row_names(items, k)) {
            Some(e) => Some(e),
            None => rows_fault(items, k + 1),
        }
    }
}

/// What is wrong with the layer table of a board: every row must be a flat list
/// with an id and a name that no other row has.
pub open spec fn table_fault(s: Seq<u8>) -> Option<Seq<char>> {
    match parse_text(s) {
        Err(e) => Some("board no longer parses: "@ + parse_fault_text(e)),
        Ok(tree) => match child_in(tree, "layers"@) {
            None => Some("the (layers) section vanished"@),
            Some(n) => rows_fault(items_in(n), 1),
        },
    }
}

fn row_has_nested(row: &SexpNode) -> (r: bool)
    ensures
        r == has_nested(row.model()),
{
    let n = row.count();
    let ghost items = items_in(row.model());
    let mut i: usize = 0;
    while i < n
        invariant
            i <= n,
            n == items.len(),
            items == items_in(row.model()),
            forall|k: int| 0 <= k < i ==> !((#[trigger] items[k]) is List),
        decreases n - i,
    {
        match row.get(i) {
            Some(c) => {
                assert(c.model() == items[i as int]);
                if c.is_list() {
                    assert(items_in(row.model())[i as int] is List);
                    return true;
                }
            },
            None => {},
        }
        i += 1;
    }
    false
}

/// Check that a board still has a well-formed layer table: every row a flat list
/// of scalars, with unique ids and unique names.
pub fn validate_layer_table(content: &str) -> (r: Result<(), String>)
    ensures
        match r {
            Ok(()) => table_fault(bytes(content@)).is_none(),
            Err(e) => table_fault(bytes(content@)) == Some(e@),
        },
{
    let tree = match parse_sexp(content) {
        Err(e) => {
            let mut out = copy("board no longer parses: ");
            put(&mut out, parse_fault(e).as_str());
            return Err(out);
        },
        Ok(t) => t,
    };
    let node = match tree.find("layers") {
        None => {
            return Err(copy("the (layers) section vanished"));
        },
        Some(n) => n,
    };
    let ghost items = items_in(node.model());
    let n = node.count();
    let mut ids: Vec<String> = Vec::new();
    let mut names: Vec<String> = Vec::new();
    let mut k: usize = 1;
    proof {
        assert(texts(ids@) =~= row_ids(items, 1));
        assert(texts(names@) =~= row_names(items, 1));
    }
    while k < n
        invariant
            1 <= k,
            n == items.len(),
            items == items_in(node.model()),
            texts(ids@) == row_ids(items, k as int),
            texts(names@) == row_names(items, k as int),
            table_fault(bytes(content@)) == rows_fault(items, k as int),
        decreases n - k,
    {
        let row = match node.get(k) {
            Some(x) => x,
            None => {
                assert(false);
                return Ok(());
            },
        };
        assert(row.model() == items[k as int]);
        if !row.is_list() {
            return Err(copy("a layer row is not a list"));
        }
        if row_has_nested(row) {
            return Err(copy("a layer row contains a nested list"));
        }
        match row.text_at(0) {
            None => {
                return Err(copy("a layer row has no id"));
            },
            Some(id) => match row.text_at(1) {
                None => {
                    return Err(copy("a layer row has no name"));
                },
                Some(name) => {
                    if lists(&ids, id) {
                        let mut out = copy("duplicate layer id ");
                        put(&mut out, id);
                        return Err(out);
                    }
                    if lists(&names, name) {
                        let mut out = copy("duplicate layer name ");
                        put(&mut out, name);
                        return Err(out);
                    }
                    let ghost was_ids = texts(ids@);
                    let ghost was_names = texts(names@);
                    ids.push(copy(id));
                    names.push(copy(name));
                    assert(texts(ids@) =~= was_ids.push(id@));
                    assert(texts(names@) =~= was_names.push(name@));
                },
            },
        }
        k += 1;
    }
    Ok(())
}

// ─── Adding a layer ──────────────────────────────────────────────────────────

/// The refusal to add a copper layer.
pub open spec fn copper_text(name: Seq<char>) -> Seq<char> {
    "Refusing to add copper layer '"@ + name
        + "'. In KiCAD 10 the copper ids are F.Cu=0, B.Cu=2 and In<N>.Cu=2+2N (In1.Cu=4, In2.Cu=6) — the odd ids 1..35 belong to the technical layers — and the copper count also lives in (setup (stackup ...)), the pcbplotparams layerselection mask, and (general (thickness)). This tool updates none of that, so the result would be a board KiCAD cannot load. Set the copper layer count in KiCAD instead: File → Board Setup → Board Stackup → Physical Stackup, set 'Copper layers', then OK."@
}

/// The refusal of a name that KiCAD does not define.
pub open spec fn unknown_layer_text(name: Seq<char>) -> Seq<char> {
    "Unknown layer name '"@ + name
        + "'. KiCAD layer ids are fixed, not allocated — this tool can only enable a layer KiCAD already defines. Valid names: F.Mask, B.Mask, F.SilkS, B.SilkS, F.Adhes, B.Adhes, F.Paste, B.Paste, Dwgs.User, Cmts.User, Eco1.User, Eco2.User, Edge.Cuts, Margin, F.CrtYd, B.CrtYd, F.Fab, B.Fab, User.1 … User.9."@
}

/// The refusal of an id that another layer has.
pub open spec fn clash_text(name: Seq<char>, id: int, other: Seq<char>) -> Seq<char> {
    "Cannot add '"@ + name + "': its KiCAD id "@ + signed_decimal(id) + " is already used by layer '"@
        + other
        + "'. The board's layer table disagrees with KiCAD's fixed ids — fix it in KiCAD's Board Setup rather than here."@
}

/// The first layer from `k` on with the name.
pub open spec fn named_layer(ls: Seq<Layer>, name: Seq<char>, k: int) -> Option<Layer>
    decreases ls.len() - k,
{
    if k < 0 || k >= ls.len() {
        None
    } else if ls[k].name == name {
        Some(ls[k])
    } else {
        named_layer(ls, name, k + 1)
    }
}

/// The first layer from `k` on with the id.
pub open spec fn numbered_layer(ls: Seq<Layer>, id: int, k: int) -> Option<Layer>
    decreases ls.len() - k,
{
    if k < 0 || k >= ls.len() {
        None
    } else if ls[k].id == id {
        Some(ls[k])
    } else {
        numbered_layer(ls, id, k + 1)
    }
}

/// The row of a new layer.
pub open spec fn layer_row_text(indent: Seq<char>, id: int, name: Seq<char>, kind: Seq<char>) -> Seq<
    char,
> {
    indent + "("@ + signed_decimal(id) + " \""@ + name + "\" "@ + kind + ")\n"@
}

/// The refusal to write a board whose layer table an edit would have damaged.
pub open spec fn broken_table_text(board: Seq<char>, why: Seq<char>) -> Seq<char> {
    "Internal error: the edit would have corrupted '"@ + board + "' ("@ + why
        + ") — nothing was written."@
}

/// The id that a layer is added under, or the reason not to add one of that name.
pub open spec fn new_layer(name: Seq<char>) -> Result<int, Seq<char>> {
    if is_copper(name) {
        Err(copper_text(name))
    } else {
        match layer_id(name) {
            Some(id) => Ok(id),
            None => Err(unknown_layer_text(name)),
        }
    }
}

/// What adding a layer comes to: its id and the new board, or the reason to write
/// nothing.
pub open spec fn added_layer(
    s: Seq<u8>,
    name: Seq<char>,
    kind: Seq<char>,
    board: Seq<char>,
) -> Result<(int, Seq<u8>), Seq<char>> {
    match new_layer(name) {
        Err(e) => Err(e),
        Ok(id) => match parse_text(s) {
            Err(e) => Err(parse_fault_text(e)),
            Ok(tree) => match layer_table(tree) {
                None => Err("No (layers) section found"@),
                Some(ls) => match named_layer(ls, name, 0) {
                    Some(dup) => Err(
                        "Layer '"@ + name + "' is already on the board (id "@ + signed_decimal(dup.id)
                            + ")"@,
                    ),
                    None => match numbered_layer(ls, id, 0) {
                        Some(c) => Err(clash_text(name, id, c.name)),
                        None => match layers_from(s, 0) {
                            None => Err("No (layers) section found"@),
                            Some(p) => match block_end(s, p) {
                                None => Err(
                                    "The (layers) section is not balanced — refusing to edit it"@,
                                ),
                                Some(e) => {
                                    let row = layer_row_text(row_indent_text(s, p), id, name, kind);
                                    let t = edited(
                                        s,
                                        seq![
                                            Splice { start: e - 1, end: e - 1, bytes: bytes(row) },
                                        ],
                                    );
                                    match table_fault(t) {
                                        Some(why) => Err(broken_table_text(board, why)),
                                        None => Ok((id, t)),
                                    }
                                },
                            },
                        },
                    },
                },
            },
        },
    }
}

fn find_layer_name(ls: &Vec<LayerEntry>, name: &str) -> (r: Option<usize>)
    ensures
        match r {
            Some(i) => i < ls.len() && named_layer(layer_models(ls@), name@, 0) == Some(
                layer_models(ls@)[i as int],
            ),
            None => named_layer(layer_models(ls@), name@, 0).is_none(),
        },
{
    let ghost all = layer_models(ls@);
    let mut k: usize = 0;
    while k < ls.len()
        invariant
            k <= ls.len(),
            all == layer_models(ls@),
            named_layer(all, name@, 0) == named_layer(all, name@, k as int),
        decreases ls.len() - k,
    {
        assert(all[k as int].name == ls[k as int].name@);
        if same(ls[k].name.as_str(), name) {
            return Some(k);
        }
        k += 1;
    }
    None
}

fn find_layer_id(ls: &Vec<LayerEntry>, id: i32) -> (r: Option<usize>)
    ensures
        match r {
            Some(i) => i < ls.len() && numbered_layer(layer_models(ls@), id as int, 0) == Some(
                layer_models(ls@)[i as int],
            ),
            None => numbered_layer(layer_models(ls@), id as int, 0).is_none(),
        },
{
    let ghost all = layer_models(ls@);
    let mut k: usize = 0;
    while k < ls.len()
        invariant
            k <= ls.len(),
            all == layer_models(ls@),
            numbered_layer(all, id as int, 0) == numbered_layer(all, id as int, k as int),
        decreases ls.len() - k,
    {
        assert(all[k as int].id == ls[k as int].id);
        if ls[k].id == id {
            return Some(k);
        }
        k += 1;
    }
    None
}

/// The id that a layer is added under. Copper layers and names that KiCAD does not know
/// are refused, whatever the board.
pub fn new_layer_id(layer_name: &str) -> (r: Result<i32, String>)
    ensures
        match new_layer(layer_name@) {
            Err(e) => r is Err && r->Err_0@ == e,
            Ok(id) => r matches Ok(i) && i == id,
        },
{
    if is_copper_layer(layer_name) {
        let mut out = copy("Refusing to add copper layer '");
        put(&mut out, layer_name);
        put(
            &mut out,
            "'. In KiCAD 10 the copper ids are F.Cu=0, B.Cu=2 and In<N>.Cu=2+2N (In1.Cu=4, In2.Cu=6) — the odd ids 1..35 belong to the technical layers — and the copper count also lives in (setup (stackup ...)), the pcbplotparams layerselection mask, and (general (thickness)). This tool updates none of that, so the result would be a board KiCAD cannot load. Set the copper layer count in KiCAD instead: File → Board Setup → Board Stackup → Physical Stackup, set 'Copper layers', then OK.",
        );
        return Err(out);
    }
    match canonical_layer_id(layer_name) {
        None => {
            let mut out = copy("Unknown layer name '");
            put(&mut out, layer_name);
            put(
                &mut out,
                "'. KiCAD layer ids are fixed, not allocated — this tool can only enable a layer KiCAD already defines. Valid names: F.Mask, B.Mask, F.SilkS, B.SilkS, F.Adhes, B.Adhes, F.Paste, B.Paste, Dwgs.User, Cmts.User, Eco1.User, Eco2.User, Edge.Cuts, Margin, F.CrtYd, B.CrtYd, F.Fab, B.Fab, User.1 … User.9.",
            );
            Err(out)
        },
        Some(id) => Ok(id),
    }
}

/// Enable a technical or user layer on the board.
///
/// Adding a copper layer is not an append: it renumbers other layers and changes
/// the stackup, so it is refused rather than half done.
pub fn add_layer(content: &str, layer_name: &str, layer_type: &str, board: &str) -> (r: Result<
    (i32, String),
    String,
>)
    ensures
        match added_layer(bytes(content@), layer_name@, layer_type@, board@) {
            Err(e) => r is Err && r->Err_0@ == e,
            Ok((id, t)) => r matches Ok((i, text)) && i == id && bytes(text@) == t,
        },
{
    let ghost s = bytes(content@);
    let id = match new_layer_id(layer_name) {
        Err(e) => {
            return Err(e);
        },
        Ok(id) => id,
    };
    let tree = match parse_sexp(content) {
        Err(e) => {
            return Err(parse_fault(e));
        },
        Ok(t) => t,
    };
    let existing = match read_layers(&tree) {
        None => {
            return Err(copy("No (layers) section found"));
        },
        Some(v) => v,
    };
    match find_layer_name(&existing, layer_name) {
        Some(i) => {
            let mut out = copy("Layer '");
            put(&mut out, layer_name);
            put(&mut out, "' is already on the board (id ");
            put(&mut out, signed_text(existing[i].id).as_str());
            put(&mut out, ")");
            return Err(out);
        },
        None => {},
    }
    match find_layer_id(&existing, id) {
        Some(i) => {
            let mut out = copy("Cannot add '");
            put(&mut out, layer_name);
            put(&mut out, "': its KiCAD id ");
            put(&mut out, signed_text(id).as_str());
            put(&mut out, " is already used by layer '");
            put(&mut out, existing[i].name.as_str());
            put(
                &mut out,
                "'. The board's layer table disagrees with KiCAD's fixed ids — fix it in KiCAD's Board Setup rather than here.",
            );
            return Err(out);
        },
        None => {},
    }
    let p = match find_layers_block(content) {
        None => {
            return Err(copy("No (layers) section found"));
        },
        Some(p) => p,
    };
    let e = match find_block_end(content, p) {
        None => {
            return Err(copy("The (layers) section is not balanced — refusing to edit it"));
        },
        Some(e) => e,
    };
    proof {
        lemma_block_cuttable(content@, p as int, e as int);
    }
    let mut row = row_indent(content, p);
    put(&mut row, "(");
    put(&mut row, signed_text(id).as_str());
    put(&mut row, " \"");
    put(&mut row, layer_name);
    put(&mut row, "\" ");
    put(&mut row, layer_type);
    put(&mut row, ")\n");
    let ghost b = bytes(row@);
    let mut edits: Vec<SexpEdit> = Vec::new();
    edits.push(SexpEdit::insert(e - 1, row));
    proof {
        assert(splices(edits@) =~= seq![Splice { start: e - 1, end: e - 1, bytes: b }]);
        lemma_ascii_boundary(content@, e - 1);
        assert(edits_fit(s, splices(edits@)));
    }
    let after = apply_edits(content, &edits);
    match validate_layer_table(after.as_str()) {
        Err(why) => {
            let mut out = copy("Internal error: the edit would have corrupted '");
            put(&mut out, board);
            put(&mut out, "' (");
            put(&mut out, why.as_str());
            put(&mut out, ") — nothing was written.");
            Err(out)
        },
        Ok(()) => Ok((id, after)),
    }
}

} // verus!
