//! The tracks, vias and zones of a board, as they stand in the file.

use crate::chars::texts;
use crate::net::{int_opt, net_of_node, net_rows, net_table, read_net_node, rows, NetEntry};
use crate::number::{is_number, number};
#[allow(unused_imports)]
use crate::scan::{
    block_end, closes_at, find_block_end, lemma_block_cuttable, offsets, opens, top_level_block_starts,
    top_level_starts,
};
#[allow(unused_imports)]
use crate::sexp::{
    child_in, child_text, children_in, items_in, node_refs, parse_sexp, parse_text, string_opt,
    text_at, text_in, text_opt, Sexp, SexpNode,
};
use crate::text::{bytes, copy, put, same, slice};
use vstd::prelude::*;
use vstd::string::*;

verus! {

// ─── Top-level items ─────────────────────────────────────────────────────────

/// A top-level block of a board: the range it occupies and what it says.
#[derive(Debug)]
pub struct BoardItem {
    pub start: usize,
    pub end: usize,
    pub node: SexpNode,
}

/// A top-level block as a value.
pub struct Item {
    pub start: int,
    pub end: int,
    pub node: Sexp,
}

impl BoardItem {
    pub open spec fn model(&self) -> Item {
        Item { start: self.start as int, end: self.end as int, node: self.node.model() }
    }
}

/// The values of a list of items.
pub open spec fn item_models(v: Seq<BoardItem>) -> Seq<Item> {
    Seq::new(v.len(), |i: int| v[i].model())
}

/// The block that opens at `p`, if it closes and reads as an expression.
pub open spec fn item_at(s: Seq<u8>, p: int) -> Option<Item> {
    match block_end(s, p) {
        None => None,
        Some(e) => match parse_text(s.subrange(p, e)) {
            Ok(n) => Some(Item { start: p, end: e, node: n }),
            Err(_) => None,
        },
    }
}

/// The blocks that open at the first `n` of the offsets.
pub open spec fn items_at(s: Seq<u8>, starts: Seq<int>, n: int) -> Seq<Item>
    decreases n,
{
    if n <= 0 {
        Seq::empty()
    } else {
        match item_at(s, starts[n - 1]) {
            Some(i) => items_at(s, starts, n - 1).push(i),
            None => items_at(s, starts, n - 1),
        }
    }
}

/// Every top-level `(tag …)` block, in file order.
pub open spec fn top_level_items(s: Seq<u8>, tag: Seq<char>) -> Seq<Item> {
    let starts = top_level_starts(s, bytes(tag), s.len() as int);
    items_at(s, starts, starts.len() as int)
}

/// Every item listed is a block of the text that stands there.
pub proof fn law_items_are_blocks(s: Seq<u8>, starts: Seq<int>, n: int)
    ensures
        forall|i: int|
            0 <= i < items_at(s, starts, n).len() ==> closes_at(
                s,
                (#[trigger] items_at(s, starts, n)[i]).start,
                items_at(s, starts, n)[i].end,
            ),
    decreases n,
{
    if n > 0 {
        law_items_are_blocks(s, starts, n - 1);
        crate::scan::lemma_block_end_is(s, starts[n - 1]);
        let prev = items_at(s, starts, n - 1);
        let all = items_at(s, starts, n);
        assert forall|i: int| 0 <= i < all.len() implies closes_at(
            s,
            (#[trigger] all[i]).start,
            all[i].end,
        ) by {
            if i < prev.len() {
                assert(all[i] == prev[i]);
            }
        }
    }
}

/// Every top-level `(tag …)` block, in file order. A block of that tag inside
/// another item is part of that item and is not among them.
pub fn collect_items(content: &str, tag: &str) -> (r: Vec<BoardItem>)
    ensures
        item_models(r@) == top_level_items(bytes(content@), tag@),
        forall|i: int|
            0 <= i < r.len() ==> closes_at(
                bytes(content@),
                (#[trigger] r[i]).start as int,
                r[i].end as int,
            ),
{
    let ghost s = bytes(content@);
    let starts = top_level_block_starts(content, tag);
    let ghost all = top_level_starts(s, bytes(tag@), s.len() as int);
    let mut out: Vec<BoardItem> = Vec::new();
    let mut k: usize = 0;
    assert(item_models(out@) =~= items_at(s, all, 0));
    while k < starts.len()
        invariant
            s == bytes(content@),
            all == offsets(starts@),
            k <= starts.len(),
            forall|i: int| 0 <= i < starts.len() ==> opens(s, #[trigger] starts[i] as int),
            item_models(out@) == items_at(s, all, k as int),
            forall|i: int|
                0 <= i < out.len() ==> closes_at(s, (#[trigger] out[i]).start as int, out[i].end as int),
        decreases starts.len() - k,
    {
        let p = starts[k];
        assert(all[k as int] == p);
        match find_block_end(content, p) {
            Some(e) => {
                proof {
                    lemma_block_cuttable(content@, p as int, e as int);
                }
                match parse_sexp(slice(content, p, e)) {
                    Ok(node) => {
                        let ghost was = item_models(out@);
                        let item = BoardItem { start: p, end: e, node };
                        let ghost m = item.model();
                        out.push(item);
                        assert(item_models(out@) =~= was.push(m));
                    },
                    Err(_) => {},
                }
            },
            None => {},
        }
        k += 1;
    }
    out
}

/// The uuid of an item.
pub open spec fn item_uuid(i: Item) -> Option<Seq<char>> {
    child_text(i.node, "uuid"@)
}

/// The first item from `k` on with the uuid.
pub open spec fn uuid_index(items: Seq<Item>, uuid: Seq<char>, k: int) -> Option<int>
    decreases items.len() - k,
{
    if k < 0 || k >= items.len() {
        None
    } else if item_uuid(items[k]) == Some(uuid) {
        Some(k)
    } else {
        uuid_index(items, uuid, k + 1)
    }
}

/// The top-level `(tag …)` with the uuid.
pub open spec fn item_named(s: Seq<u8>, tag: Seq<char>, uuid: Seq<char>) -> Option<Item> {
    let items = top_level_items(s, tag);
    match uuid_index(items, uuid, 0) {
        Some(i) => Some(items[i]),
        None => None,
    }
}

/// Whether an optional text is this one.
fn is_text(t: Option<&str>, want: &str) -> (r: bool)
    ensures
        r == (text_opt(t) == Some(want@)),
{
    match t {
        Some(x) => same(x, want),
        None => false,
    }
}

/// The top-level `(tag …)` with the uuid.
pub fn find_item(content: &str, tag: &str, uuid: &str) -> (r: Option<BoardItem>)
    ensures
        match r {
            Some(i) => item_named(bytes(content@), tag@, uuid@) == Some(i.model()) && closes_at(
                bytes(content@),
                i.start as int,
                i.end as int,
            ),
            None => item_named(bytes(content@), tag@, uuid@).is_none(),
        },
{
    let mut items = collect_items(content, tag);
    let mut k: usize = 0;
    while k < items.len()
        invariant
            k <= items.len(),
            item_models(items@) == top_level_items(bytes(content@), tag@),
            forall|i: int|
                0 <= i < items.len() ==> closes_at(
                    bytes(content@),
                    (#[trigger] items[i]).start as int,
                    items[i].end as int,
                ),
            uuid_index(item_models(items@), uuid@, 0) == uuid_index(
                item_models(items@),
                uuid@,
                k as int,
            ),
        decreases items.len() - k,
    {
        assert(item_models(items@)[k as int] == items[k as int].model());
        if is_text(items[k].node.find_str("uuid"), uuid) {
            return Some(items.remove(k));
        }
        k += 1;
    }
    None
}

/// Whether the uuid belongs to a top-level `(tag …)`.
pub fn owns_uuid(content: &str, tag: &str, uuid: &str) -> (r: bool)
    ensures
        r == item_named(bytes(content@), tag@, uuid@).is_some(),
{
    find_item(content, tag, uuid).is_some()
}

/// The first of the tags from `k` on, other than `want`, whose items own the
/// uuid.
pub open spec fn owner_of(
    s: Seq<u8>,
    tags: Seq<Seq<char>>,
    uuid: Seq<char>,
    want: Seq<char>,
    k: int,
) -> Option<Seq<char>>
    decreases tags.len() - k,
{
    if k < 0 || k >= tags.len() {
        None
    } else if tags[k] != want && item_named(s, tags[k], uuid).is_some() {
        Some(tags[k])
    } else {
        owner_of(s, tags, uuid, want, k + 1)
    }
}

/// The kinds of items that a mistaken uuid may belong to, in the order they are
/// tried.
pub open spec fn item_tags() -> Seq<Seq<char>> {
    seq!["segment"@, "via"@, "zone"@, "arc"@, "footprint"@, "gr_line"@]
}

/// The kinds of items that a uuid mistaken for a trace may belong to.
pub open spec fn non_trace_tags() -> Seq<Seq<char>> {
    seq!["via"@, "arc"@, "zone"@, "footprint"@, "gr_line"@]
}

/// Why a uuid did not name a `(want …)`.
pub open spec fn unknown_item_text(
    s: Seq<u8>,
    uuid: Seq<char>,
    board: Seq<char>,
    want: Seq<char>,
    tool: Seq<char>,
) -> Seq<char> {
    match owner_of(s, item_tags(), uuid, want, 0) {
        Some(tag) => "'"@ + uuid + "' is the uuid of a ("@ + tag + ") on '"@ + board + "', not a ("@
            + want + "). This tool only deletes ("@ + want + " …) items."@,
        None => "No ("@ + want + ") with uuid '"@ + uuid + "' on '"@ + board + "'. Run "@ + tool
            + " to list the items actually on this board."@,
    }
}

/// Why a uuid did not name a trace.
pub open spec fn unknown_trace_text(s: Seq<u8>, uuid: Seq<char>, board: Seq<char>) -> Seq<char> {
    match owner_of(s, non_trace_tags(), uuid, "segment"@, 0) {
        Some(tag) => "'"@ + uuid + "' is the uuid of a ("@ + tag + ") on '"@ + board
            + "', not a trace segment. delete_trace only deletes (segment …) tracks."@,
        None => "No trace segment with uuid '"@ + uuid + "' on '"@ + board
            + "'. Run query_traces to list the segments actually on this board."@,
    }
}

/// The first of the tags, other than `want`, whose items own the uuid.
fn find_owner(content: &str, tags: &Vec<String>, uuid: &str, want: &str) -> (r: Option<String>)
    ensures
        string_opt(r) == owner_of(bytes(content@), texts(tags@), uuid@, want@, 0),
{
    let ghost all = texts(tags@);
    let mut k: usize = 0;
    while k < tags.len()
        invariant
            k <= tags.len(),
            all == texts(tags@),
            owner_of(bytes(content@), all, uuid@, want@, 0) == owner_of(
                bytes(content@),
                all,
                uuid@,
                want@,
                k as int,
            ),
        decreases tags.len() - k,
    {
        assert(all[k as int] == tags[k as int]@);
        if !same(tags[k].as_str(), want) && owns_uuid(content, tags[k].as_str(), uuid) {
            return Some(tags[k].clone());
        }
        k += 1;
    }
    None
}

/// Why a uuid did not name a `(want …)`: it may belong to another kind of item,
/// and a bare "not found" sends the caller looking in the wrong place.
pub fn unknown_item_message(content: &str, uuid: &str, board: &str, want: &str, tool: &str) -> (r:
    String)
    ensures
        r@ == unknown_item_text(bytes(content@), uuid@, board@, want@, tool@),
{
    let mut tags: Vec<String> = Vec::new();
    tags.push(copy("segment"));
    tags.push(copy("via"));
    tags.push(copy("zone"));
    tags.push(copy("arc"));
    tags.push(copy("footprint"));
    tags.push(copy("gr_line"));
    assert(texts(tags@) =~= item_tags());
    match find_owner(content, &tags, uuid, want) {
        Some(tag) => {
            let mut out = copy("'");
            put(&mut out, uuid);
            put(&mut out, "' is the uuid of a (");
            put(&mut out, tag.as_str());
            put(&mut out, ") on '");
            put(&mut out, board);
            put(&mut out, "', not a (");
            put(&mut out, want);
            put(&mut out, "). This tool only deletes (");
            put(&mut out, want);
            put(&mut out, " …) items.");
            out
        },
        None => {
            let mut out = copy("No (");
            put(&mut out, want);
            put(&mut out, ") with uuid '");
            put(&mut out, uuid);
            put(&mut out, "' on '");
            put(&mut out, board);
            put(&mut out, "'. Run ");
            put(&mut out, tool);
            put(&mut out, " to list the items actually on this board.");
            out
        },
    }
}

/// Why a uuid did not name a trace: a via or an arc carries a uuid too.
pub fn unknown_trace_message(content: &str, uuid: &str, board: &str) -> (r: String)
    ensures
        r@ == unknown_trace_text(bytes(content@), uuid@, board@),
{
    let mut tags: Vec<String> = Vec::new();
    tags.push(copy("via"));
    tags.push(copy("arc"));
    tags.push(copy("zone"));
    tags.push(copy("footprint"));
    tags.push(copy("gr_line"));
    assert(texts(tags@) =~= non_trace_tags());
    match find_owner(content, &tags, uuid, "segment") {
        Some(tag) => {
            let mut out = copy("'");
            put(&mut out, uuid);
            put(&mut out, "' is the uuid of a (");
            put(&mut out, tag.as_str());
            put(&mut out, ") on '");
            put(&mut out, board);
            put(
                &mut out,
                "', not a trace segment. delete_trace only deletes (segment …) tracks.",
            );
            out
        },
        None => {
            let mut out = copy("No trace segment with uuid '");
            put(&mut out, uuid);
            put(&mut out, "' on '");
            put(&mut out, board);
            put(
                &mut out,
                "'. Run query_traces to list the segments actually on this board.",
            );
            out
        },
    }
}

// ─── Fields ──────────────────────────────────────────────────────────────────

/// The number at position `i` of a list, in the text it is written in.
pub open spec fn number_at(n: Sexp, i: int) -> Option<Seq<char>> {
    match text_at(n, i) {
        Some(t) => if is_number(bytes(t)) {
            Some(t)
        } else {
            None
        },
        None => None,
    }
}

/// The number at position `i` of the first node with the tag.
pub open spec fn child_number(n: Sexp, tag: Seq<char>, i: int) -> Option<Seq<char>> {
    match child_in(n, tag) {
        Some(c) => number_at(c, i),
        None => None,
    }
}

/// A coordinate: the number at position `i` of the first node with the tag, zero where
/// there is none.
pub open spec fn coordinate(n: Sexp, tag: Seq<char>, i: int) -> Seq<char> {
    match child_number(n, tag, i) {
        Some(t) => t,
        None => "0"@,
    }
}

/// The net that an item is on.
pub open spec fn net_in(n: Sexp, table: Seq<(int, Seq<char>)>) -> (Option<int>, Option<Seq<char>>) {
    match child_in(n, "net"@) {
        Some(c) => net_of_node(c, table),
        None => (None, None),
    }
}

/// The leaf texts among the nodes `from..n` of a list.
pub open spec fn leaf_texts(items: Seq<Sexp>, n: int) -> Seq<Seq<char>>
    decreases n,
{
    if n <= 1 {
        Seq::empty()
    } else {
        match text_in(items[n - 1]) {
            Some(t) => leaf_texts(items, n - 1).push(t),
            None => leaf_texts(items, n - 1),
        }
    }
}

/// The string arguments of a `(tag "a" "b" …)` node.
pub open spec fn strings_in(n: Sexp) -> Seq<Seq<char>> {
    leaf_texts(items_in(n), items_in(n).len() as int)
}

/// The number at position `i` of a list, in the text it is written in.
pub fn read_number(node: &SexpNode, i: usize) -> (r: Option<String>)
    ensures
        string_opt(r) == number_at(node.model(), i as int),
{
    match node.text_at(i) {
        Some(t) => {
            if number(t) {
                Some(copy(t))
            } else {
                None
            }
        },
        None => None,
    }
}

/// The number at position `i` of the first node with the tag.
pub fn read_child_number(node: &SexpNode, tag: &str, i: usize) -> (r: Option<String>)
    ensures
        string_opt(r) == child_number(node.model(), tag@, i as int),
{
    match node.find(tag) {
        Some(c) => read_number(c, i),
        None => None,
    }
}

/// A coordinate: the number at position `i` of the first node with the tag, zero where
/// there is none.
pub fn read_coordinate(node: &SexpNode, tag: &str, i: usize) -> (r: String)
    ensures
        r@ == coordinate(node.model(), tag@, i as int),
{
    match read_child_number(node, tag, i) {
        Some(t) => t,
        None => copy("0"),
    }
}

/// An owned copy of an optional text.
pub fn own(t: Option<&str>) -> (r: Option<String>)
    ensures
        string_opt(r) == text_opt(t),
{
    match t {
        Some(x) => Some(copy(x)),
        None => None,
    }
}

/// The string arguments of a `(tag "a" "b" …)` node.
pub fn node_strings(node: &SexpNode) -> (r: Vec<String>)
    ensures
        texts(r@) == strings_in(node.model()),
{
    let ghost items = items_in(node.model());
    let n = node.count();
    let mut out: Vec<String> = Vec::new();
    assert(texts(out@) =~= Seq::<Seq<char>>::empty());
    if n == 0 {
        return out;
    }
    let mut i: usize = 1;
    while i < n
        invariant
            1 <= i <= n,
            n == items.len(),
            items == items_in(node.model()),
            texts(out@) == leaf_texts(items, i as int),
        decreases n - i,
    {
        match node.text_at(i) {
            Some(t) => {
                let ghost was = texts(out@);
                out.push(copy(t));
                assert(texts(out@) =~= was.push(t@));
            },
            None => {},
        }
        i += 1;
    }
    out
}

/// The net that an item is on.
fn read_net(node: &SexpNode, table: &Vec<NetEntry>) -> (r: (Option<i32>, Option<String>))
    ensures
        (int_opt(r.0), string_opt(r.1)) == net_in(node.model(), rows(table@)),
{
    match node.find("net") {
        Some(c) => read_net_node(c, table),
        None => (None, None),
    }
}

// ─── Tracks ──────────────────────────────────────────────────────────────────

/// A track `(segment …)`, with the byte range it occupies. A coordinate that the track
/// does not state is zero.
#[derive(Debug)]
pub struct TraceSegment {
    pub start: usize,
    pub end: usize,
    pub uuid: Option<String>,
    pub net_code: Option<i32>,
    pub net_name: Option<String>,
    pub layer: Option<String>,
    pub width: Option<String>,
    pub x1: String,
    pub y1: String,
    pub x2: String,
    pub y2: String,
}

/// What a segment holds of an item.
pub open spec fn is_segment(g: TraceSegment, i: Item, table: Seq<(int, Seq<char>)>) -> bool {
    &&& g.start == i.start
    &&& g.end == i.end
    &&& string_opt(g.uuid) == item_uuid(i)
    &&& (int_opt(g.net_code), string_opt(g.net_name)) == net_in(i.node, table)
    &&& string_opt(g.layer) == child_text(i.node, "layer"@)
    &&& string_opt(g.width) == child_number(i.node, "width"@, 1)
    &&& g.x1@ == coordinate(i.node, "start"@, 1)
    &&& g.y1@ == coordinate(i.node, "start"@, 2)
    &&& g.x2@ == coordinate(i.node, "end"@, 1)
    &&& g.y2@ == coordinate(i.node, "end"@, 2)
}

/// Read a segment off an item.
pub fn read_segment(i: &BoardItem, table: &Vec<NetEntry>) -> (r: TraceSegment)
    ensures
        is_segment(r, i.model(), rows(table@)),
{
    let (net_code, net_name) = read_net(&i.node, table);
    TraceSegment {
        start: i.start,
        end: i.end,
        uuid: own(i.node.find_str("uuid")),
        net_code,
        net_name,
        layer: own(i.node.find_str("layer")),
        width: read_child_number(&i.node, "width", 1),
        x1: read_coordinate(&i.node, "start", 1),
        y1: read_coordinate(&i.node, "start", 2),
        x2: read_coordinate(&i.node, "end", 1),
        y2: read_coordinate(&i.node, "end", 2),
    }
}

/// A list of segments holds the items, one each, in order.
pub open spec fn are_segments(v: Seq<TraceSegment>, items: Seq<Item>, table: Seq<(int, Seq<char>)>) -> bool {
    v.len() == items.len() && forall|k: int|
        0 <= k < v.len() ==> is_segment(#[trigger] v[k], items[k], table)
}

/// Every top-level `(segment …)` on the board, in file order.
pub fn collect_segments(content: &str) -> (r: Vec<TraceSegment>)
    ensures
        are_segments(r@, top_level_items(bytes(content@), "segment"@), net_rows(bytes(content@))),
{
    let table = net_table(content);
    let items = collect_items(content, "segment");
    let ghost all = item_models(items@);
    let mut out: Vec<TraceSegment> = Vec::new();
    let mut k: usize = 0;
    while k < items.len()
        invariant
            k <= items.len(),
            all == item_models(items@),
            out.len() == k,
            forall|j: int| 0 <= j < k ==> is_segment(#[trigger] out[j], all[j], rows(table@)),
        decreases items.len() - k,
    {
        assert(all[k as int] == items[k as int].model());
        out.push(read_segment(&items[k], &table));
        k += 1;
    }
    out
}

// ─── Vias ────────────────────────────────────────────────────────────────────

/// A `(via …)`, with the byte range it occupies. A coordinate that it does not state is
/// zero.
#[derive(Debug)]
pub struct BoardVia {
    pub start: usize,
    pub end: usize,
    pub uuid: Option<String>,
    pub net_code: Option<i32>,
    pub net_name: Option<String>,
    pub x: String,
    pub y: String,
    pub size: Option<String>,
    pub drill: Option<String>,
    pub layers: Vec<String>,
}

/// The strings of the first node with the tag.
pub open spec fn child_strings(n: Sexp, tag: Seq<char>) -> Seq<Seq<char>> {
    match child_in(n, tag) {
        Some(c) => strings_in(c),
        None => Seq::empty(),
    }
}

/// What a via holds of an item.
pub open spec fn is_via(v: BoardVia, i: Item, table: Seq<(int, Seq<char>)>) -> bool {
    &&& v.start == i.start
    &&& v.end == i.end
    &&& string_opt(v.uuid) == item_uuid(i)
    &&& (int_opt(v.net_code), string_opt(v.net_name)) == net_in(i.node, table)
    &&& v.x@ == coordinate(i.node, "at"@, 1)
    &&& v.y@ == coordinate(i.node, "at"@, 2)
    &&& string_opt(v.size) == child_number(i.node, "size"@, 1)
    &&& string_opt(v.drill) == child_number(i.node, "drill"@, 1)
    &&& texts(v.layers@) == child_strings(i.node, "layers"@)
}

/// The strings of the first node with the tag.
fn read_child_strings(node: &SexpNode, tag: &str) -> (r: Vec<String>)
    ensures
        texts(r@) == child_strings(node.model(), tag@),
{
    match node.find(tag) {
        Some(c) => node_strings(c),
        None => {
            let out: Vec<String> = Vec::new();
            assert(texts(out@) =~= Seq::<Seq<char>>::empty());
            out
        },
    }
}

/// Read a via off an item.
pub fn read_via(i: &BoardItem, table: &Vec<NetEntry>) -> (r: BoardVia)
    ensures
        is_via(r, i.model(), rows(table@)),
{
    let (net_code, net_name) = read_net(&i.node, table);
    BoardVia {
        start: i.start,
        end: i.end,
        uuid: own(i.node.find_str("uuid")),
        net_code,
        net_name,
        x: read_coordinate(&i.node, "at", 1),
        y: read_coordinate(&i.node, "at", 2),
        size: read_child_number(&i.node, "size", 1),
        drill: read_child_number(&i.node, "drill", 1),
        layers: read_child_strings(&i.node, "layers"),
    }
}

/// A list of vias holds the items, one each, in order.
pub open spec fn are_vias(v: Seq<BoardVia>, items: Seq<Item>, table: Seq<(int, Seq<char>)>) -> bool {
    v.len() == items.len() && forall|k: int|
        0 <= k < v.len() ==> is_via(#[trigger] v[k], items[k], table)
}

/// Every top-level `(via …)`, in file order.
pub fn collect_vias(content: &str) -> (r: Vec<BoardVia>)
    ensures
        are_vias(r@, top_level_items(bytes(content@), "via"@), net_rows(bytes(content@))),
{
    let table = net_table(content);
    let items = collect_items(content, "via");
    let ghost all = item_models(items@);
    let mut out: Vec<BoardVia> = Vec::new();
    let mut k: usize = 0;
    while k < items.len()
        invariant
            k <= items.len(),
            all == item_models(items@),
            out.len() == k,
            forall|j: int| 0 <= j < k ==> is_via(#[trigger] out[j], all[j], rows(table@)),
        decreases items.len() - k,
    {
        assert(all[k as int] == items[k as int].model());
        out.push(read_via(&items[k], &table));
        k += 1;
    }
    out
}

// ─── Zones ───────────────────────────────────────────────────────────────────

/// A `(zone …)`, with the byte range it occupies.
#[derive(Debug)]
pub struct BoardZone {
    pub start: usize,
    pub end: usize,
    pub uuid: Option<String>,
    pub net_code: Option<i32>,
    /// The name the `(net …)` node itself carries.
    pub net_name: Option<String>,
    /// The separate `(net_name "…")` label of the numbered format. It is only a
    /// label: `(net 0) (net_name "GND")` is not on GND.
    pub net_label: Option<String>,
    pub layers: Vec<String>,
    /// The x and y of each outline point, in the text they are written in.
    pub points: Vec<(String, String)>,
    pub filled: bool,
    /// A `(keepout …)` zone is a rule area, not copper. It carries no net by
    /// design, so it is never a netless pour.
    pub keepout: bool,
    /// The zone's `(name "…")`.
    pub name: Option<String>,
}

/// The layers that a zone is on: `(layer "In1.Cu")`, and then those of
/// `(layers "F.Cu" "B.Cu")`.
pub open spec fn zone_layers(n: Sexp) -> Seq<Seq<char>> {
    (match child_text(n, "layer"@) {
        Some(l) => seq![l],
        None => Seq::empty(),
    }) + child_strings(n, "layers"@)
}

/// The numeric points among the first `n` of the `(xy …)` nodes.
pub open spec fn xy_points(nodes: Seq<Sexp>, n: int) -> Seq<(Seq<char>, Seq<char>)>
    decreases n,
{
    if n <= 0 {
        Seq::empty()
    } else {
        match (number_at(nodes[n - 1], 1), number_at(nodes[n - 1], 2)) {
            (Some(x), Some(y)) => xy_points(nodes, n - 1).push((x, y)),
            _ => xy_points(nodes, n - 1),
        }
    }
}

/// The points of the first `n` of the `(polygon …)` nodes.
pub open spec fn polygon_points(polys: Seq<Sexp>, n: int) -> Seq<(Seq<char>, Seq<char>)>
    decreases n,
{
    if n <= 0 {
        Seq::empty()
    } else {
        match child_in(polys[n - 1], "pts"@) {
            Some(list) => {
                let xs = children_in(list, "xy"@);
                polygon_points(polys, n - 1) + xy_points(xs, xs.len() as int)
            },
            None => polygon_points(polys, n - 1),
        }
    }
}

/// The outline of a zone. The cached fill is no part of it.
pub open spec fn zone_points(n: Sexp) -> Seq<(Seq<char>, Seq<char>)> {
    let polys = children_in(n, "polygon"@);
    polygon_points(polys, polys.len() as int)
}

/// The values of a list of points.
pub open spec fn point_texts(v: Seq<(String, String)>) -> Seq<(Seq<char>, Seq<char>)> {
    Seq::new(v.len(), |i: int| (v[i].0@, v[i].1@))
}

/// What a zone holds of an item.
pub open spec fn is_zone(z: BoardZone, i: Item, table: Seq<(int, Seq<char>)>) -> bool {
    &&& z.start == i.start
    &&& z.end == i.end
    &&& string_opt(z.uuid) == item_uuid(i)
    &&& (int_opt(z.net_code), string_opt(z.net_name)) == net_in(i.node, table)
    &&& string_opt(z.net_label) == child_text(i.node, "net_name"@)
    &&& texts(z.layers@) == zone_layers(i.node)
    &&& point_texts(z.points@) == zone_points(i.node)
    &&& z.filled == child_in(i.node, "filled_polygon"@).is_some()
    &&& z.keepout == child_in(i.node, "keepout"@).is_some()
    &&& string_opt(z.name) == child_text(i.node, "name"@)
}

/// Append the numeric points of a list of `(xy …)` nodes.
fn add_points(out: &mut Vec<(String, String)>, nodes: &Vec<&SexpNode>)
    ensures
        point_texts(final(out)@) == point_texts(old(out)@) + xy_points(
            node_refs(nodes@),
            nodes.len() as int,
        ),
{
    let ghost first = point_texts(out@);
    let ghost all = node_refs(nodes@);
    let mut k: usize = 0;
    assert(point_texts(out@) =~= first + xy_points(all, 0));
    while k < nodes.len()
        invariant
            k <= nodes.len(),
            all == node_refs(nodes@),
            point_texts(out@) == first + xy_points(all, k as int),
        decreases nodes.len() - k,
    {
        assert(all[k as int] == nodes[k as int].model());
        let x = read_number(nodes[k], 1);
        let y = read_number(nodes[k], 2);
        match (x, y) {
            (Some(x), Some(y)) => {
                let ghost was = point_texts(out@);
                let ghost p = (x@, y@);
                out.push((x, y));
                assert(point_texts(out@) =~= was.push(p));
                assert(was.push(p) =~= first + xy_points(all, k as int).push(p));
            },
            _ => {},
        }
        k += 1;
    }
}

/// The outline of a zone.
fn read_points(node: &SexpNode) -> (r: Vec<(String, String)>)
    ensures
        point_texts(r@) == zone_points(node.model()),
{
    let polys = node.find_all("polygon");
    let ghost all = node_refs(polys@);
    let mut out: Vec<(String, String)> = Vec::new();
    let mut k: usize = 0;
    assert(point_texts(out@) =~= polygon_points(all, 0));
    while k < polys.len()
        invariant
            k <= polys.len(),
            all == node_refs(polys@),
            point_texts(out@) == polygon_points(all, k as int),
        decreases polys.len() - k,
    {
        assert(all[k as int] == polys[k as int].model());
        match polys[k].find("pts") {
            Some(list) => {
                let xs = list.find_all("xy");
                add_points(&mut out, &xs);
            },
            None => {},
        }
        k += 1;
    }
    out
}

/// The layers that a zone is on.
fn read_zone_layers(node: &SexpNode) -> (r: Vec<String>)
    ensures
        texts(r@) == zone_layers(node.model()),
{
    let mut out: Vec<String> = Vec::new();
    assert(texts(out@) =~= Seq::<Seq<char>>::empty());
    match node.find_str("layer") {
        Some(l) => {
            out.push(copy(l));
            assert(texts(out@) =~= seq![l@]);
        },
        None => {},
    }
    let ghost first = texts(out@);
    let mut more = read_child_strings(node, "layers");
    let ghost added = texts(more@);
    out.append(&mut more);
    assert(texts(out@) =~= first + added);
    out
}

/// Read a zone off an item.
pub fn read_zone(i: &BoardItem, table: &Vec<NetEntry>) -> (r: BoardZone)
    ensures
        is_zone(r, i.model(), rows(table@)),
{
    let (net_code, net_name) = read_net(&i.node, table);
    BoardZone {
        start: i.start,
        end: i.end,
        uuid: own(i.node.find_str("uuid")),
        net_code,
        net_name,
        net_label: own(i.node.find_str("net_name")),
        layers: read_zone_layers(&i.node),
        points: read_points(&i.node),
        filled: i.node.find("filled_polygon").is_some(),
        keepout: i.node.find("keepout").is_some(),
        name: own(i.node.find_str("name")),
    }
}

/// A list of zones holds the items, one each, in order.
pub open spec fn are_zones(v: Seq<BoardZone>, items: Seq<Item>, table: Seq<(int, Seq<char>)>) -> bool {
    v.len() == items.len() && forall|k: int|
        0 <= k < v.len() ==> is_zone(#[trigger] v[k], items[k], table)
}

/// Every top-level `(zone …)`, in file order.
pub fn collect_zones(content: &str) -> (r: Vec<BoardZone>)
    ensures
        are_zones(r@, top_level_items(bytes(content@), "zone"@), net_rows(bytes(content@))),
{
    let table = net_table(content);
    let items = collect_items(content, "zone");
    let ghost all = item_models(items@);
    let mut out: Vec<BoardZone> = Vec::new();
    let mut k: usize = 0;
    while k < items.len()
        invariant
            k <= items.len(),
            all == item_models(items@),
            out.len() == k,
            forall|j: int| 0 <= j < k ==> is_zone(#[trigger] out[j], all[j], rows(table@)),
        decreases items.len() - k,
    {
        assert(all[k as int] == items[k as int].model());
        out.push(read_zone(&items[k], &table));
        k += 1;
    }
    out
}

impl BoardZone {
    /// Whether the zone is on a net. Net 0 is KiCAD's "no net", and stays that
    /// even with a stale label beside it.
    pub open spec fn on_net(&self) -> bool {
        match self.net_code {
            Some(c) => c != 0,
            None => self.net_name.is_some() && self.net_name.unwrap()@.len() > 0,
        }
    }

    /// Whether this pour actually belongs to a net.
    pub fn has_net(&self) -> (r: bool)
        ensures
            r == self.on_net(),
    {
        match self.net_code {
            Some(c) => c != 0,
            None => match &self.net_name {
                Some(n) => !n.as_str().is_empty(),
                None => false,
            },
        }
    }

    /// Whether this is a copper pour that should be on a net but is not.
    pub fn is_orphaned_pour(&self) -> (r: bool)
        ensures
            r == (!self.keepout && !self.on_net()),
    {
        !self.keepout && !self.has_net()
    }

    /// The net this zone is on. The stale label of a net-less zone is not its
    /// net.
    pub fn net(&self) -> (r: Option<&str>)
        ensures
            text_opt(r) == (if self.on_net() {
                string_opt(self.net_name)
            } else {
                None
            }),
    {
        if self.has_net() {
            match &self.net_name {
                Some(n) => Some(n.as_str()),
                None => None,
            }
        } else {
            None
        }
    }
}

/// Whether a list holds the text.
pub fn lists(v: &Vec<String>, t: &str) -> (r: bool)
    ensures
        r == texts(v@).contains(t@),
{
    let mut i: usize = 0;
    while i < v.len()
        invariant
            i <= v.len(),
            forall|k: int| 0 <= k < i ==> (#[trigger] texts(v@)[k]) != t@,
        decreases v.len() - i,
    {
        assert(texts(v@)[i as int] == v[i as int]@);
        if same(v[i].as_str(), t) {
            assert(texts(v@).contains(t@));
            return true;
        }
        i += 1;
    }
    false
}

} // verus!
