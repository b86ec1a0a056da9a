//! How boards refer to nets.
//!
//! Boards up to about format 20250513 declare a numbered table
//! (`(net 1 "GND")`) and refer to the number; format 20260206 dropped the table
//! and refers to nets by name (`(net "GND")`). Writing the wrong form, or net 0,
//! produces copper that belongs to no net.

#[allow(unused_imports)]
use crate::chars::{
    decimal_text, digit_run, int_value, join_first, joined, parse_int, signed_decimal, signed_text,
    skip_digits, sort_unique, sorted_unique, texts, trim_front,
};
use crate::scan::{block_starts, find_block_starts, offsets, opens, tag_opens, QUOTE};
use crate::sexp::{item_in, string_opt, text_at, Sexp, SexpNode};
#[allow(unused_imports)]
use crate::text::{
    boundary, byte_at, bytes, copy, find_byte, first_byte, lemma_ascii_boundary, lemma_bytes_ascii,
    lemma_ends, length, match_at, matches_at, put, slice, slice_from, text_of,
};
use crate::fields::{put_text_field, put_word_field, text_field, word_field};
use vstd::prelude::*;
use vstd::string::*;

verus! {

// ─── References ──────────────────────────────────────────────────────────────

/// How a board refers to a net.
#[derive(Debug, Clone, PartialEq)]
pub enum NetRef {
    /// `(net "GND")`: the current format.
    Named(String),
    /// `(net 1)` with `(net_name "GND")`: the older numbered table.
    Numbered(i32, String),
}

/// A net reference as a value.
pub enum Net {
    Named(Seq<char>),
    Numbered(int, Seq<char>),
}

impl Net {
    /// The name of the net.
    pub open spec fn name(&self) -> Seq<char> {
        match self {
            Net::Named(n) => *n,
            Net::Numbered(_, n) => *n,
        }
    }

    /// The code of the net, where the board has one.
    pub open spec fn code(&self) -> Option<int> {
        match self {
            Net::Named(_) => None,
            Net::Numbered(id, _) => Some(*id),
        }
    }

    /// The fields of a zone on this net.
    pub open spec fn zone_fields(&self) -> Seq<char> {
        match self {
            Net::Named(n) => text_field("net"@, *n),
            Net::Numbered(id, n) => word_field("net"@, signed_decimal(*id)) + " "@ + text_field(
                "net_name"@,
                *n,
            ),
        }
    }

    /// The field of a track or via on this net.
    pub open spec fn track_field(&self) -> Seq<char> {
        match self {
            Net::Named(n) => text_field("net"@, *n),
            Net::Numbered(id, _) => word_field("net"@, signed_decimal(*id)),
        }
    }
}

/// An optional integer as a value.
pub open spec fn int_opt(n: Option<i32>) -> Option<int> {
    match n {
        Some(v) => Some(v as int),
        None => None,
    }
}

/// An optional net reference as a value.
pub open spec fn net_opt(n: Option<NetRef>) -> Option<Net> {
    match n {
        Some(v) => Some(v.model()),
        None => None,
    }
}

impl NetRef {
    pub open spec fn model(&self) -> Net {
        match self {
            NetRef::Named(n) => Net::Named(n@),
            NetRef::Numbered(id, n) => Net::Numbered(*id as int, n@),
        }
    }

    /// The net fields to write inside a `(zone …)`, in this board's format.
    pub fn zone_fields(&self) -> (r: String)
        ensures
            r@ == self.model().zone_fields(),
    {
        let mut out = String::new();
        match self {
            NetRef::Named(n) => {
                put_text_field(&mut out, "net", n.as_str());
            },
            NetRef::Numbered(id, n) => {
                put_word_field(&mut out, "net", signed_text(*id).as_str());
                put(&mut out, " ");
                put_text_field(&mut out, "net_name", n.as_str());
            },
        }
        assert(out@ =~= self.model().zone_fields());
        out
    }

    /// The name of the net.
    pub fn name(&self) -> (r: &str)
        ensures
            r@ == self.model().name(),
    {
        match self {
            NetRef::Named(n) => n.as_str(),
            NetRef::Numbered(_, n) => n.as_str(),
        }
    }

    /// The numeric code, where the board still has one.
    pub fn code(&self) -> (r: Option<i32>)
        ensures
            int_opt(r) == self.model().code(),
    {
        match self {
            NetRef::Named(_) => None,
            NetRef::Numbered(id, _) => Some(*id),
        }
    }
}

/// The `(net …)` field a track or via carries, in this board's own convention.
pub fn net_field(net: &NetRef) -> (r: String)
    ensures
        r@ == net.model().track_field(),
{
    let mut out = String::new();
    match net {
        NetRef::Named(n) => {
            put_text_field(&mut out, "net", n.as_str());
        },
        NetRef::Numbered(id, _) => {
            put_word_field(&mut out, "net", signed_text(*id).as_str());
        },
    }
    assert(out@ =~= net.model().track_field());
    out
}

// ─── `(net …)` entries ───────────────────────────────────────────────────────

/// The bytes of a text without the white space it begins with.
pub open spec fn trimmed(s: Seq<u8>) -> Seq<u8> {
    bytes(trim_front(text_of(s)))
}

/// What follows `(net` in the entry that opens at `p`.
pub open spec fn net_head(s: Seq<u8>, p: int) -> Seq<u8> {
    trimmed(s.subrange(p + 4, s.len() as int))
}

/// The digits an entry begins with.
pub open spec fn net_digits(s: Seq<u8>, p: int) -> Seq<u8> {
    net_head(s, p).subrange(0, digit_run(net_head(s, p), 0))
}

/// What follows the digits of an entry.
pub open spec fn net_tail(s: Seq<u8>, p: int) -> Seq<u8> {
    let h = net_head(s, p);
    trimmed(h.subrange(digit_run(h, 0), h.len() as int))
}

/// A quoted name that `t` begins with.
pub open spec fn leading_name(t: Seq<u8>) -> Option<Seq<char>> {
    if t.len() > 0 && t[0] == QUOTE {
        match first_byte(t, QUOTE, 1) {
            Some(e) => Some(text_of(t.subrange(1, e))),
            None => None,
        }
    } else {
        None
    }
}

/// A name between quotes.
pub open spec fn in_quotes(name: Seq<char>) -> Seq<char> {
    "\""@ + name + "\""@
}

/// The code of the entry at `p`, if it declares `name` with one:
/// `(net <digits> "NAME"`.
pub open spec fn numbered_match(s: Seq<u8>, p: int, name: Seq<char>) -> Option<int> {
    if net_digits(s, p).len() > 0 && matches_at(net_tail(s, p), 0, bytes(in_quotes(name))) {
        int_value(net_digits(s, p))
    } else {
        None
    }
}

/// Whether the entry at `p` names the net: `(net "NAME"`.
pub open spec fn named_match(s: Seq<u8>, p: int, name: Seq<char>) -> bool {
    matches_at(net_head(s, p), 0, bytes(in_quotes(name)))
}

/// The code given by the first entry from `k` on that declares `name` with one.
pub open spec fn first_numbered(s: Seq<u8>, starts: Seq<int>, name: Seq<char>, k: int) -> Option<int>
    decreases starts.len() - k,
{
    if k < 0 || k >= starts.len() {
        None
    } else if numbered_match(s, starts[k], name).is_some() {
        numbered_match(s, starts[k], name)
    } else {
        first_numbered(s, starts, name, k + 1)
    }
}

/// The offsets of all `(net …)` blocks.
pub open spec fn net_starts(s: Seq<u8>) -> Seq<int> {
    block_starts(s, bytes("net"@), s.len() as int)
}

/// The net that `name` denotes on a board: by number where some entry declares
/// it with one, else by name where some entry names it.
pub open spec fn net_on_board(s: Seq<u8>, name: Seq<char>) -> Option<Net> {
    match first_numbered(s, net_starts(s), name, 0) {
        Some(id) => Some(Net::Numbered(id, name)),
        None => if exists|k: int|
            0 <= k < net_starts(s).len() && named_match(s, #[trigger] net_starts(s)[k], name) {
            Some(Net::Named(name))
        } else {
            None
        },
    }
}

/// A `(net` opening is four ASCII bytes, after which text may be cut.
proof fn lemma_net_opening(t: Seq<char>, p: int)
    requires
        opens(bytes(t), p),
        tag_opens(bytes(t), p, bytes("net"@)),
    ensures
        p + 4 <= bytes(t).len(),
        boundary(bytes(t), p + 4),
{
    reveal_strlit("net");
    lemma_bytes_ascii("net"@);
    let s = bytes(t);
    assert(s.subrange(p + 1, p + 4)[2] == s[p + 3]);
    lemma_ascii_boundary(t, p + 3);
}

/// What follows `(net` in the entry that opens at `p`.
pub(crate) fn entry_head(content: &str, p: usize) -> (r: &str)
    requires
        opens(bytes(content@), p as int),
        tag_opens(bytes(content@), p as int, bytes("net"@)),
    ensures
        bytes(r@) == net_head(bytes(content@), p as int),
{
    let n = length(content);
    proof {
        lemma_net_opening(content@, p as int);
        assert(p + 4 <= n);
    }
    slice_from(content, p + 4).trim_start()
}

/// The end of the digits that an entry begins with, and what follows them.
pub(crate) fn entry_tail(head: &str) -> (r: (usize, &str))
    ensures
        r.0 == digit_run(bytes(head@), 0),
        r.0 <= bytes(head@).len(),
        boundary(bytes(head@), r.0 as int),
        bytes(r.1@) == trimmed(
            bytes(head@).subrange(digit_run(bytes(head@), 0), bytes(head@).len() as int),
        ),
{
    let d = skip_digits(head, 0);
    proof {
        lemma_ends(head@);
        if d > 0 {
            assert(bytes(head@).subrange(0, d as int)[d - 1] == bytes(head@)[d - 1]);
            lemma_ascii_boundary(head@, d - 1);
        }
    }
    (d, slice_from(head, d).trim_start())
}

/// The quoted name that `t` begins with.
fn read_leading_name(t: &str) -> (r: Option<String>)
    ensures
        string_opt(r) == leading_name(bytes(t@)),
{
    if length(t) == 0 || byte_at(t, 0) != QUOTE {
        return None;
    }
    match find_byte(t, QUOTE, 1) {
        None => None,
        Some(e) => {
            proof {
                lemma_ascii_boundary(t@, 0);
                lemma_ascii_boundary(t@, e as int);
            }
            Some(copy(slice(t, 1, e)))
        },
    }
}

/// A name between quotes.
pub fn quoted_name(name: &str) -> (r: String)
    ensures
        r@ == in_quotes(name@),
{
    let mut q = copy("\"");
    put(&mut q, name);
    put(&mut q, "\"");
    q
}

/// Resolve `net_name` against the nets actually present on the board.
///
/// `None` means that the board has no such net. Falling back to net 0 there
/// would write copper connected to nothing.
pub fn resolve_net(content: &str, net_name: &str) -> (r: Option<NetRef>)
    ensures
        net_opt(r) == net_on_board(bytes(content@), net_name@),
{
    let ghost s = bytes(content@);
    let quoted = quoted_name(net_name);
    let starts = find_block_starts(content, "net");
    let ghost all = net_starts(s);
    let mut k: usize = 0;
    while k < starts.len()
        invariant
            s == bytes(content@),
            all == net_starts(s),
            all == offsets(starts@),
            quoted@ == in_quotes(net_name@),
            k <= starts.len(),
            forall|i: int|
                0 <= i < starts.len() ==> opens(s, #[trigger] starts[i] as int) && tag_opens(
                    s,
                    starts[i] as int,
                    bytes("net"@),
                ),
            first_numbered(s, all, net_name@, 0) == first_numbered(s, all, net_name@, k as int),
        decreases starts.len() - k,
    {
        let p = starts[k];
        assert(all[k as int] == p);
        let head = entry_head(content, p);
        let (d, tail) = entry_tail(head);
        if d > 0 && match_at(tail, 0, quoted.as_str()) {
            proof {
                lemma_ends(head@);
            }
            match parse_int(slice(head, 0, d)) {
                Some(id) => {
                    return Some(NetRef::Numbered(id, copy(net_name)));
                },
                None => {},
            }
        }
        k += 1;
    }
    let mut j: usize = 0;
    while j < starts.len()
        invariant
            s == bytes(content@),
            all == net_starts(s),
            all == offsets(starts@),
            quoted@ == in_quotes(net_name@),
            j <= starts.len(),
            forall|i: int|
                0 <= i < starts.len() ==> opens(s, #[trigger] starts[i] as int) && tag_opens(
                    s,
                    starts[i] as int,
                    bytes("net"@),
                ),
            first_numbered(s, all, net_name@, 0).is_none(),
            forall|i: int| 0 <= i < j ==> !named_match(s, #[trigger] all[i], net_name@),
        decreases starts.len() - j,
    {
        let p = starts[j];
        assert(all[j as int] == p);
        if match_at(entry_head(content, p), 0, quoted.as_str()) {
            assert(named_match(s, net_starts(s)[j as int], net_name@));
            return Some(NetRef::Named(copy(net_name)));
        }
        j += 1;
    }
    None
}

/// The non-empty names that the first `n` of the entries declare or refer to.
pub open spec fn known_names(s: Seq<u8>, starts: Seq<int>, n: int) -> Seq<Seq<char>>
    decreases n,
{
    if n <= 0 {
        Seq::empty()
    } else {
        match leading_name(net_tail(s, starts[n - 1])) {
            Some(name) => if name.len() > 0 {
                known_names(s, starts, n - 1).push(name)
            } else {
                known_names(s, starts, n - 1)
            },
            None => known_names(s, starts, n - 1),
        }
    }
}

/// The names of the nets on a board, in order, each once.
pub open spec fn board_net_names(s: Seq<u8>) -> Seq<Seq<char>> {
    sort_unique(known_names(s, net_starts(s), net_starts(s).len() as int))
}

/// How many net names a refusal lists.
pub const NET_SAMPLE: usize = 12;

/// The refusal to write copper on a net that the board does not have.
pub open spec fn net_not_found_text(s: Seq<u8>, name: Seq<char>) -> Seq<char> {
    let known = board_net_names(s);
    let shown = if known.len() < NET_SAMPLE as nat {
        known.len() as int
    } else {
        NET_SAMPLE as int
    };
    "Net '"@ + name
        + "' does not exist on this board. Refusing to write copper with no net — it would be connected to nothing, which DRC does not flag for a zone. Nets on this board: "@
        + joined(known.take(shown), ", "@) + if known.len() > shown {
        " … ("@ + crate::chars::decimal(known.len()) + " total)"@
    } else {
        Seq::empty()
    }
}

/// The names of the nets on a board, in order, each once.
pub fn net_names(content: &str) -> (r: Vec<String>)
    ensures
        texts(r@) == board_net_names(bytes(content@)),
{
    let ghost s = bytes(content@);
    let starts = find_block_starts(content, "net");
    let ghost all = net_starts(s);
    let mut names: Vec<String> = Vec::new();
    let mut k: usize = 0;
    assert(texts(names@) =~= known_names(s, all, 0));
    while k < starts.len()
        invariant
            s == bytes(content@),
            all == net_starts(s),
            all == offsets(starts@),
            k <= starts.len(),
            forall|i: int|
                0 <= i < starts.len() ==> opens(s, #[trigger] starts[i] as int) && tag_opens(
                    s,
                    starts[i] as int,
                    bytes("net"@),
                ),
            texts(names@) == known_names(s, all, k as int),
        decreases starts.len() - k,
    {
        let p = starts[k];
        assert(all[k as int] == p);
        let (_, tail) = entry_tail(entry_head(content, p));
        match read_leading_name(tail) {
            Some(name) => {
                if !name.as_str().is_empty() {
                    let ghost was = texts(names@);
                    let ghost n = name@;
                    names.push(name);
                    assert(texts(names@) =~= was.push(n));
                }
            },
            None => {},
        }
        k += 1;
    }
    sorted_unique(&names)
}

/// The error to return when a caller names a net the board does not have.
pub fn net_not_found_error(content: &str, net_name: &str) -> (r: String)
    ensures
        r@ == net_not_found_text(bytes(content@), net_name@),
{
    let known = net_names(content);
    let ghost names = texts(known@);
    let shown: usize = if known.len() < NET_SAMPLE {
        known.len()
    } else {
        NET_SAMPLE
    };
    let mut out = copy("Net '");
    put(&mut out, net_name);
    put(
        &mut out,
        "' does not exist on this board. Refusing to write copper with no net — it would be connected to nothing, which DRC does not flag for a zone. Nets on this board: ",
    );
    put(&mut out, join_first(&known, shown, ", ").as_str());
    if known.len() > shown {
        put(&mut out, " … (");
        put(&mut out, decimal_text(known.len() as u64).as_str());
        put(&mut out, " total)");
    }
    assert(out@ =~= net_not_found_text(bytes(content@), net_name@));
    out
}

// ─── The numbered table ──────────────────────────────────────────────────────

/// One row of a board's numbered net table.
#[derive(Debug)]
pub struct NetEntry {
    pub code: i32,
    pub name: String,
}

/// The row that the entry at `p` declares: `(net 7 "GND"`.
pub open spec fn table_row(s: Seq<u8>, p: int) -> Option<(int, Seq<char>)> {
    if net_digits(s, p).len() > 0 {
        match (int_value(net_digits(s, p)), leading_name(net_tail(s, p))) {
            (Some(id), Some(name)) => Some((id, name)),
            _ => None,
        }
    } else {
        None
    }
}

/// The rows that the first `n` entries declare.
pub open spec fn table_rows(s: Seq<u8>, starts: Seq<int>, n: int) -> Seq<(int, Seq<char>)>
    decreases n,
{
    if n <= 0 {
        Seq::empty()
    } else {
        match table_row(s, starts[n - 1]) {
            Some(row) => table_rows(s, starts, n - 1).push(row),
            None => table_rows(s, starts, n - 1),
        }
    }
}

/// The numbered net table of a board; empty on boards that name their nets.
pub open spec fn net_rows(s: Seq<u8>) -> Seq<(int, Seq<char>)> {
    table_rows(s, net_starts(s), net_starts(s).len() as int)
}

/// The values of a list of rows.
pub open spec fn rows(v: Seq<NetEntry>) -> Seq<(int, Seq<char>)> {
    Seq::new(v.len(), |i: int| (v[i].code as int, v[i].name@))
}

/// The name that a code has: the first row with the code gives it.
pub open spec fn name_of_code(table: Seq<(int, Seq<char>)>, code: int, k: int) -> Option<Seq<char>>
    decreases table.len() - k,
{
    if k < 0 || k >= table.len() {
        None
    } else if table[k].0 == code {
        Some(table[k].1)
    } else {
        name_of_code(table, code, k + 1)
    }
}

/// The board's numbered net table, in file order.
pub fn net_table(content: &str) -> (r: Vec<NetEntry>)
    ensures
        rows(r@) == net_rows(bytes(content@)),
{
    let ghost s = bytes(content@);
    let starts = find_block_starts(content, "net");
    let ghost all = net_starts(s);
    let mut out: Vec<NetEntry> = Vec::new();
    let mut k: usize = 0;
    assert(rows(out@) =~= table_rows(s, all, 0));
    while k < starts.len()
        invariant
            s == bytes(content@),
            all == net_starts(s),
            all == offsets(starts@),
            k <= starts.len(),
            forall|i: int|
                0 <= i < starts.len() ==> opens(s, #[trigger] starts[i] as int) && tag_opens(
                    s,
                    starts[i] as int,
                    bytes("net"@),
                ),
            rows(out@) == table_rows(s, all, k as int),
        decreases starts.len() - k,
    {
        let p = starts[k];
        assert(all[k as int] == p);
        let head = entry_head(content, p);
        let (d, tail) = entry_tail(head);
        if d > 0 {
            proof {
                lemma_ends(head@);
            }
            let name = read_leading_name(tail);
            let code = parse_int(slice(head, 0, d));
            match (code, name) {
                (Some(code), Some(name)) => {
                    let ghost was = rows(out@);
                    let ghost row = (code as int, name@);
                    out.push(NetEntry { code, name });
                    assert(rows(out@) =~= was.push(row));
                },
                _ => {},
            }
        }
        k += 1;
    }
    out
}

/// The name that `code` has in the table.
pub fn net_name_of(table: &Vec<NetEntry>, code: i32) -> (r: Option<String>)
    ensures
        string_opt(r) == name_of_code(rows(table@), code as int, 0),
{
    let mut k: usize = 0;
    while k < table.len()
        invariant
            k <= table.len(),
            name_of_code(rows(table@), code as int, 0) == name_of_code(
                rows(table@),
                code as int,
                k as int,
            ),
        decreases table.len() - k,
    {
        assert(rows(table@)[k as int] == (table@[k as int].code as int, table@[k as int].name@));
        if table[k].code == code {
            return Some(table[k].name.clone());
        }
        k += 1;
    }
    None
}

/// The code and name that a `(net …)` node refers to: `(net "GND")`, `(net 7)` or
/// `(net 7 "GND")`, the name of a bare code being looked up in the table.
pub open spec fn net_of_node(n: Sexp, table: Seq<(int, Seq<char>)>) -> (
    Option<int>,
    Option<Seq<char>>,
) {
    match item_in(n, 1) {
        Some(Sexp::Str(t)) => (None, Some(t)),
        Some(Sexp::Atom(t)) => match int_value(bytes(t)) {
            Some(id) => (
                Some(id),
                match text_at(n, 2) {
                    Some(name) => Some(name),
                    None => name_of_code(table, id, 0),
                },
            ),
            None => (None, Some(t)),
        },
        _ => (None, None),
    }
}

/// Read a `(net …)` node in either format.
pub fn read_net_node(node: &SexpNode, table: &Vec<NetEntry>) -> (r: (Option<i32>, Option<String>))
    ensures
        (int_opt(r.0), string_opt(r.1)) == net_of_node(node.model(), rows(table@)),
{
    match node.get(1) {
        Some(SexpNode::Str(t)) => (None, Some(t.clone())),
        Some(SexpNode::Atom(t)) => match parse_int(t.as_str()) {
            Some(id) => {
                let name = match node.text_at(2) {
                    Some(n) => Some(copy(n)),
                    None => net_name_of(table, id),
                };
                (Some(id), name)
            },
            None => (None, Some(t.clone())),
        },
        _ => (None, None),
    }
}

// ─── Laws ────────────────────────────────────────────────────────────────────

/// A net that the board resolves keeps the name it was asked for by.
pub proof fn law_resolved_name(s: Seq<u8>, name: Seq<char>)
    ensures
        net_on_board(s, name).is_some() ==> net_on_board(s, name).unwrap().name() == name,
{
}

/// A board without any `(net …)` block resolves no net, whatever its name: an
/// unknown net is never net 0.
pub proof fn law_no_entries_no_net(s: Seq<u8>, name: Seq<char>)
    requires
        net_starts(s).len() == 0,
    ensures
        net_on_board(s, name).is_none(),
{
}

} // verus!
