//! What is read back of a zone that was put on a net.

use crate::blocks::{children, children_from, law_children_are_direct, tag_byte, tag_end};
use crate::board_file::delete_range_of;
use crate::chars::{blank, ends_tag};
use crate::edit::{edited, law_one_edit, law_two_edits, Splice};
use crate::exchange::{lemma_exchanged_is_found, lemma_named_item};
use crate::fields::{is_block_of, lemma_tag_is_word, lemma_text_field, text_field};
use crate::grammar::{
    between, is_plain, law_parsed_list_is_a_block, lemma_atom_end_is, lemma_close_is, lemma_lex_node,
    lemma_reads_blank, lemma_reads_both, lemma_reads_one, reads,
};
use crate::items::{item_at, item_named, Item};
use crate::net::{net_on_board, Net};
use crate::placing::{is_tag, lemma_ascii_char, lemma_tag_ends, lemma_tag_same};
use crate::rewriting::{
    lemma_inside_string, lemma_items_end, lemma_node_moved, lemma_rewrite, lemma_rewrite_two, lemma_take_apart,
};
use crate::scan::{
    closes_at, indent_start, is_document, lead_start, lemma_block_cuttable, lemma_block_end,
    lemma_block_moved, lemma_depth_bound, lemma_lex_over_block, lex, lex_step, outside, tag_opens,
    CLOSE, OPEN, QUOTE,
};
use crate::sexp::{
    child_in, child_text, ends_atom, items_in, lemma_tagged_at, parse_items, parse_node, parse_text,
    tag_in, tagged_at, ParseError, Sexp,
};
use crate::substitution::swap;
use crate::text::{bytes, lemma_ascii_boundary, lemma_between_cuts, lemma_bytes_valid, text_of};
use crate::undo::{lemma_net_field, net_node};
use crate::zone_net::{
    direct_child, label_separator, label_text, net_field_edit, tag_child, zone_net_splices, zone_on_net,
};
use vstd::prelude::*;

verus! {

// ─── The first field with a tag ──────────────────────────────────────────────

proof fn lemma_tagged_before(a: Seq<Sexp>, b: Seq<Sexp>, tag: Seq<char>, k: int)
    requires
        0 <= k <= a.len(),
    ensures
        tagged_at(a + b, tag, k) == (match tagged_at(a, tag, k) {
            Some(i) => Some(i),
            None => match tagged_at(b, tag, 0) {
                Some(i) => Some(a.len() + i),
                None => None,
            },
        }),
    decreases a.len() - k,
{
    if k < a.len() {
        assert((a + b)[k] == a[k]);
        lemma_tagged_before(a, b, tag, k + 1);
    } else {
        lemma_tagged_after(a, b, tag, 0);
    }
}

proof fn lemma_tagged_after(a: Seq<Sexp>, b: Seq<Sexp>, tag: Seq<char>, k: int)
    requires
        0 <= k,
    ensures
        tagged_at(a + b, tag, a.len() + k) == (match tagged_at(b, tag, k) {
            Some(i) => Some(a.len() + i),
            None => None,
        }),
    decreases b.len() - k,
{
    if k < b.len() {
        assert((a + b)[a.len() + k] == b[k]);
        lemma_tagged_after(a, b, tag, k + 1);
    }
}

/// The first field with a tag in two lists one after the other.
proof fn lemma_first_of_both(a: Seq<Sexp>, b: Seq<Sexp>, tag: Seq<char>)
    ensures
        child_in(Sexp::List(a + b), tag) == (match child_in(Sexp::List(a), tag) {
            Some(n) => Some(n),
            None => child_in(Sexp::List(b), tag),
        }),
{
    lemma_tagged_before(a, b, tag, 0);
    lemma_tagged_at(a, tag, 0);
    lemma_tagged_at(b, tag, 0);
}

/// The first field with a tag in a list of one.
proof fn lemma_first_of_one(n: Sexp, tag: Seq<char>)
    ensures
        child_in(Sexp::List(seq![n]), tag) == (if tag_in(n) == Some(tag) {
            Some(n)
        } else {
            None
        }),
{
    let v = seq![n];
    assert(v[0] == n);
    reveal_with_fuel(tagged_at, 2);
}

/// Before the first field with a tag there is none.
proof fn lemma_none_before(ns: Seq<Sexp>, tag: Seq<char>, k: int)
    requires
        tagged_at(ns, tag, 0) == Some(k),
        0 <= k <= ns.len(),
    ensures
        child_in(Sexp::List(ns.take(k)), tag).is_none(),
{
    assert(ns.take(k) + ns.skip(k) =~= ns);
    lemma_tagged_before(ns.take(k), ns.skip(k), tag, 0);
    lemma_tagged_at(ns.take(k), tag, 0);
}

// ─── A zone and its fields ───────────────────────────────────────────────────

/// The first `(tag …)` field that the scanner finds in an item is the one that the
/// parser reads.
pub open spec fn agree_on(s: Seq<u8>, z: Item, tag: Seq<char>) -> bool {
    match (direct_child(s, z.start, z.end, tag), tagged_at(items_in(z.node), tag, 0)) {
        (None, None) => true,
        (Some((a, _)), Some(k)) => parse_items(s, a) == Ok::<(Seq<Sexp>, int), ParseError>(
            (items_in(z.node).skip(k), z.end),
        ),
        _ => false,
    }
}

/// The fields of an item, read where it stands.
proof fn lemma_item_fields(s: Seq<u8>, z: Item)
    requires
        item_at(s, z.start) == Some(z),
        closes_at(s, z.start, z.end),
    ensures
        z.node == Sexp::List(items_in(z.node)),
        parse_items(s, z.start + 1) == Ok::<(Seq<Sexp>, int), ParseError>((items_in(z.node), z.end)),
{
    let p = z.start;
    let e = z.end;
    let w = s.subrange(p, e);
    lemma_block_end(s, p, e);
    assert(w[0] == s[p]);
    assert(crate::scan::skip_blank(w, 0) == 0);
    let (n, j) = parse_node(w, 0)->Ok_0;
    law_parsed_list_is_a_block(w, 0);
    assert forall|k: int| p <= k < e implies #[trigger] s[k] == w[k + (-p)] by {}
    lemma_block_moved(s, w, p, e, -p);
    lemma_block_end(w, 0, j);
    assert forall|k: int| 0 <= k < j implies #[trigger] w[k] == s[k + p] by {}
    lemma_node_moved(w, s, 0, p);
}

/// The field that the scanner finds is a direct child.
proof fn lemma_tag_child(s: Seq<u8>, kids: Seq<(int, int)>, tag: Seq<u8>, k: int)
    requires
        0 <= k,
    ensures
        match tag_child(s, kids, tag, k) {
            Some(c) => exists|i: int| 0 <= i < kids.len() && kids[i] == c,
            None => true,
        },
    decreases kids.len() - k,
{
    if k < kids.len() {
        if tag_opens(s, kids[k].0, tag) {
            assert(kids[k] == tag_child(s, kids, tag, k).unwrap());
        } else {
            lemma_tag_child(s, kids, tag, k + 1);
        }
    }
}

/// Where a field of an item stands, as the scanner and the parser see it.
proof fn lemma_field(s: Seq<u8>, z: Item, tag: Seq<char>) -> (k: int)
    requires
        item_at(s, z.start) == Some(z),
        closes_at(s, z.start, z.end),
        direct_child(s, z.start, z.end, tag).is_some(),
        agree_on(s, z, tag),
    ensures
        ({
            let (a, b) = direct_child(s, z.start, z.end, tag).unwrap();
            let ns = items_in(z.node);
            &&& z.start + 1 <= a < b < z.end
            &&& closes_at(s, a, b)
            &&& lex(s, z.start, a) == lex(s, z.start, z.start + 1)
            &&& lex(s, z.start, b) == lex(s, z.start, z.start + 1)
            &&& tagged_at(ns, tag, 0) == Some(k)
            &&& 0 <= k < ns.len()
            &&& tag_in(ns[k]) == Some(tag)
            &&& reads(s.subrange(z.start + 1, a), ns.take(k), false)
            &&& parse_items(s, a) == Ok::<(Seq<Sexp>, int), ParseError>((ns.skip(k), z.end))
            &&& parse_items(s, b) == Ok::<(Seq<Sexp>, int), ParseError>((ns.skip(k + 1), z.end))
        }),
{
    let p = z.start;
    let e = z.end;
    let ns = items_in(z.node);
    let (a, b) = direct_child(s, p, e, tag).unwrap();
    lemma_item_fields(s, z);
    assert(lex(s, p, p) == outside());
    assert(lex(s, p, p + 1) == lex_step(lex(s, p, p), s[p]));
    let kids = children(s, p, e);
    law_children_are_direct(s, p, p + 1, e);
    lemma_tag_child(s, kids, bytes(tag), 0);
    let i = choose|i: int| 0 <= i < kids.len() && kids[i] == (a, b);
    assert(crate::blocks::children_from(s, p, p + 1, e)[i] == (a, b));
    lemma_depth_bound(s, p, a);
    lemma_lex_over_block(s, p, a, b);
    let k = tagged_at(ns, tag, 0).unwrap();
    lemma_tagged_at(ns, tag, 0);
    let m = lemma_take_apart(s, p, p + 1, a);
    assert(ns.skip(m).len() == ns.skip(k).len());
    law_parsed_list_is_a_block(s, a);
    lemma_block_end(s, a, b);
    lemma_block_end(s, a, parse_node(s, a)->Ok_0.1);
    let rest = parse_items(s, b)->Ok_0.0;
    assert(ns.skip(k) == seq![parse_node(s, a)->Ok_0.0] + rest);
    assert(ns.skip(k + 1) =~= ns.skip(k).skip(1));
    assert(ns.skip(k).skip(1) =~= rest);
    k
}

// ─── A zone that is rewritten in place ───────────────────────────────────────

/// A zone whose fields were rewritten is found under the uuid that it had, and has
/// the fields that stand there now.
proof fn lemma_rewritten_item(
    c: Seq<char>,
    v: Seq<char>,
    tag: Seq<char>,
    uuid: Seq<char>,
    a: int,
    e2: int,
    ns: Seq<Sexp>,
)
    requires
        is_document(bytes(c), bytes("kicad_pcb"@)),
        is_tag(tag),
        item_named(bytes(c), tag, uuid).is_some(),
        ({
            let z = item_named(bytes(c), tag, uuid).unwrap();
            let s = bytes(c);
            let t = bytes(v);
            &&& z.start < a < s.len()
            &&& a < t.len()
            &&& ends_atom(s[a]) && s[a] != QUOTE
            &&& ends_atom(t[a]) && t[a] != QUOTE
            &&& forall|k: int| 0 <= k < a ==> #[trigger] s[k] == t[k]
            &&& parse_items(t, z.start + 1) == Ok::<(Seq<Sexp>, int), ParseError>((ns, e2))
            &&& z.start < e2 <= t.len()
            &&& t.skip(e2) == s.skip(z.end)
        }),
        child_text(Sexp::List(ns), "uuid"@) == Some(uuid),
    ensures
        item_named(bytes(v), tag, uuid) == Some(
            Item {
                start: item_named(bytes(c), tag, uuid).unwrap().start,
                end: e2,
                node: Sexp::List(ns),
            },
        ),
{
    let s = bytes(c);
    let t = bytes(v);
    let z = item_named(s, tag, uuid).unwrap();
    let p = z.start;
    lemma_named_item(s, tag, uuid);
    assert(s[p] == t[p]);
    let w = t.subrange(p, e2);
    assert(parse_node(t, p) == Ok::<(Sexp, int), ParseError>((Sexp::List(ns), e2)));
    law_parsed_list_is_a_block(t, p);
    lemma_block_cuttable(v, p, e2);
    lemma_between_cuts(v, p, e2);
    let wt = text_of(w);
    assert(bytes(wt) == w);
    assert forall|k: int| p <= k < e2 implies #[trigger] t[k] == w[k + (-p)] by {}
    lemma_block_moved(t, w, p, e2, -p);
    lemma_node_moved(t, w, p, -p);
    assert(crate::scan::skip_blank(w, 0) == 0);
    assert(parse_text(w) == Ok::<Sexp, ParseError>(Sexp::List(ns)));
    assert(s.take(p) =~= t.take(p));
    assert(swap(s, p, z.end, w) =~= t);
    lemma_tag_ends(c, a);
    lemma_tag_ends(v, a);
    lemma_tag_same(c, v, p, a, tag);
    lemma_exchanged_is_found(c, wt, "kicad_pcb"@, tag, uuid, Sexp::List(ns));
}

// ─── The texts of the fields ─────────────────────────────────────────────────

/// The label of a numbered net, as a tree.
pub open spec fn label_node(name: Seq<char>) -> Sexp {
    Sexp::List(seq![Sexp::Atom("net_name"@), Sexp::Str(name)])
}

/// The text of a block reads as it wherever it stands.
proof fn lemma_block_reads(t: Seq<char>, n: Sexp)
    requires
        is_block_of(t, n),
    ensures
        reads(bytes(t), seq![n], true),
{
    lemma_reads_one(bytes(t), n);
}

/// How the net field of a zone reads.
proof fn lemma_field_text(n: Net)
    requires
        is_plain(n.name()),
    ensures
        reads(bytes(n.track_field()), seq![net_node(n)], true),
        bytes(n.track_field()).len() > 0,
        bytes(n.track_field())[0] == OPEN,
        tag_in(net_node(n)) == Some("net"@),
{
    lemma_net_field(n);
    lemma_block_reads(n.track_field(), net_node(n));
}

/// How the label of a numbered net reads.
proof fn lemma_label_text(name: Seq<char>)
    requires
        is_plain(name),
    ensures
        reads(bytes("(net_name \""@ + name + "\")"@), seq![label_node(name)], true),
        bytes("(net_name \""@ + name + "\")"@).len() > 0,
        bytes("(net_name \""@ + name + "\")"@)[0] == OPEN,
        tag_in(label_node(name)) == Some("net_name"@),
{
    reveal_strlit("(net_name \"");
    reveal_strlit("\")");
    reveal_strlit("net_name");
    reveal_strlit("(");
    reveal_strlit(")");
    reveal_strlit(" ");
    reveal_strlit("\"");
    lemma_tag_is_word("net_name"@);
    lemma_text_field("net_name"@, name);
    assert("(net_name \""@ + name + "\")"@ =~= text_field("net_name"@, name));
    lemma_block_reads(text_field("net_name"@, name), label_node(name));
}

/// The separator before a label is white space.
proof fn lemma_separator(s: Seq<u8>, at: int)
    requires
        0 <= at <= s.len(),
    ensures
        label_separator(s, at).len() > 0,
        forall|k: int| 0 <= k < label_separator(s, at).len() ==> blank(
            #[trigger] label_separator(s, at)[k],
        ),
{
    reveal_strlit("\n");
    reveal_strlit(" ");
    crate::grammar::lemma_char_bytes('\n');
    crate::grammar::lemma_char_bytes(' ');
    assert("\n"@ =~= seq!['\n']);
    assert(" "@ =~= seq![' ']);
    lemma_indent(s, at);
    let h = indent_start(s, at);
    let sep = label_separator(s, at);
    if h > 0 && s[h - 1] == 0x0a {
        assert forall|k: int| 0 <= k < sep.len() implies blank(#[trigger] sep[k]) by {
            if k > 0 {
                assert(sep[k] == s[h + k - 1]);
            }
        }
    }
}

proof fn lemma_indent(s: Seq<u8>, at: int)
    requires
        0 <= at <= s.len(),
    ensures
        0 <= indent_start(s, at) <= at,
        forall|k: int| indent_start(s, at) <= k < at ==> #[trigger] s[k] == 0x20 || s[k] == 0x09,
    decreases at,
{
    if at > 0 && (s[at - 1] == 0x20 || s[at - 1] == 0x09) {
        lemma_indent(s, at - 1);
    }
}

/// White space before an expression reads as nothing.
proof fn lemma_reads_after_blank(w: Seq<u8>, b: Seq<u8>, ns: Seq<Sexp>)
    requires
        w.len() > 0,
        forall|k: int| 0 <= k < w.len() ==> blank(#[trigger] w[k]),
        b.len() > 0,
        reads(b, ns, true),
    ensures
        reads(w + b, ns, true),
        ends_atom((w + b)[0]),
        (w + b)[0] != QUOTE,
{
    lemma_reads_blank(w);
    lemma_reads_both(w, Seq::empty(), true, b, ns, true);
    assert(Seq::<Sexp>::empty() + ns =~= ns);
    assert(blank(w[0]));
}

// ─── Fields exchanged ────────────────────────────────────────────────────────

/// The fields of a list whose second and fourth part are exchanged.
pub open spec fn parts(
    a: Seq<Sexp>,
    b: Seq<Sexp>,
    c: Seq<Sexp>,
    d: Seq<Sexp>,
    e: Seq<Sexp>,
) -> Seq<Sexp> {
    a + b + c + d + e
}

/// The first field with a tag among five parts.
proof fn lemma_first_of_parts(
    a: Seq<Sexp>,
    b: Seq<Sexp>,
    c: Seq<Sexp>,
    d: Seq<Sexp>,
    e: Seq<Sexp>,
    tag: Seq<char>,
)
    ensures
        child_in(Sexp::List(parts(a, b, c, d, e)), tag) == (match child_in(Sexp::List(a), tag) {
            Some(n) => Some(n),
            None => match child_in(Sexp::List(b), tag) {
                Some(n) => Some(n),
                None => match child_in(Sexp::List(c), tag) {
                    Some(n) => Some(n),
                    None => match child_in(Sexp::List(d), tag) {
                        Some(n) => Some(n),
                        None => child_in(Sexp::List(e), tag),
                    },
                },
            },
        }),
{
    lemma_first_of_both(a, b, tag);
    lemma_first_of_both(a + b, c, tag);
    lemma_first_of_both(a + b + c, d, tag);
    lemma_first_of_both(a + b + c + d, e, tag);
}

/// A list of no more than one field, which has the tag.
pub open spec fn only(v: Seq<Sexp>, tag: Seq<char>) -> bool {
    v.len() == 0 || (v.len() == 1 && tag_in(v[0]) == Some(tag))
}

proof fn lemma_only(v: Seq<Sexp>, tag: Seq<char>, other: Seq<char>)
    requires
        only(v, tag),
        other != tag,
    ensures
        child_in(Sexp::List(v), other).is_none(),
{
    if v.len() == 1 {
        assert(v =~= seq![v[0]]);
        lemma_first_of_one(v[0], other);
    }
}

// ─── Where the net goes ──────────────────────────────────────────────────────

/// What a zone has where its net goes: the fields before it, whether there is a net
/// field to exchange, and the fields after it.
proof fn lemma_net_place(c: Seq<char>, z: Item, n: Net) -> (r: (int, int))
    requires
        item_at(bytes(c), z.start) == Some(z),
        closes_at(bytes(c), z.start, z.end),
        tag_opens(bytes(c), z.start, bytes("zone"@)),
        agree_on(bytes(c), z, "net"@),
        direct_child(bytes(c), z.start, z.end, "net"@).is_none() ==> ends_atom(bytes(c)[z.start + 5]),
    ensures
        ({
            let s = bytes(c);
            let ns = items_in(z.node);
            let (field, a, b) = net_field_edit(s, z.start, z.end, n);
            let (k, j) = r;
            &&& z.start + 1 <= a <= b < z.end
            &&& field.start == a && field.end == b
            &&& ends_atom(s[a]) && s[a] != QUOTE
            &&& lex(s, z.start, a) == lex(s, z.start, z.start + 1)
            &&& lex(s, z.start, b) == lex(s, z.start, z.start + 1)
            &&& 0 <= k <= j <= ns.len()
            &&& reads(s.subrange(z.start + 1, a), ns.take(k), false)
            &&& parse_items(s, a) == Ok::<(Seq<Sexp>, int), ParseError>((ns.skip(k), z.end))
            &&& parse_items(s, b) == Ok::<(Seq<Sexp>, int), ParseError>((ns.skip(j), z.end))
            &&& only(ns.subrange(k, j), "net"@)
            &&& child_in(Sexp::List(ns.take(k)), "net"@).is_none()
        }),
{
    let s = bytes(c);
    let p = z.start;
    let e = z.end;
    let ns = items_in(z.node);
    lemma_item_fields(s, z);
    match direct_child(s, p, e, "net"@) {
        Some((a, b)) => {
            let k = lemma_field(s, z, "net"@);
            lemma_none_before(ns, "net"@, k);
            assert(ns.subrange(k, k + 1) =~= seq![ns[k]]);
            (k, k + 1)
        },
        None => {
            let a = p + 5;
            reveal_strlit("zone");
            crate::text::lemma_bytes_ascii("zone"@);
            let g = bytes("zone"@);
            assert forall|i: int| 0 <= i < 4 implies s[p + 1 + i] == #[trigger] g[i] by {
                assert(s.subrange(p + 1, p + 5)[i] == s[p + 1 + i]);
            }
            assert(g[0] == 'z' as u8 && g[1] == 'o' as u8 && g[2] == 'n' as u8 && g[3] == 'e' as u8);
            assert(s[p + 1] == g[0] && s[p + 2] == g[1] && s[p + 3] == g[2] && s[p + 4] == g[3]);
            lemma_block_end(s, p, e);
            crate::scan::lemma_block_end_is(s, p);
            assert(e - 1 >= p + 5);
            assert(lex(s, p, p) == outside());
            assert(lex(s, p, p + 1) == lex_step(lex(s, p, p), s[p]));
            assert(lex(s, p, p + 2) == lex_step(lex(s, p, p + 1), s[p + 1]));
            assert(lex(s, p, p + 3) == lex_step(lex(s, p, p + 2), s[p + 2]));
            assert(lex(s, p, p + 4) == lex_step(lex(s, p, p + 3), s[p + 3]));
            assert(lex(s, p, p + 5) == lex_step(lex(s, p, p + 4), s[p + 4]));
            assert(s[a] != QUOTE) by {
                if s[a] == QUOTE {
                    lemma_ascii_char(c, a);
                    assert(p + 1 + g.len() == a);
                }
            }
            let k = lemma_take_apart(s, p, p + 1, a);
            assert(ns.subrange(k, k) =~= Seq::<Sexp>::empty());
            assert(child_in(Sexp::List(ns.take(k)), "net"@).is_none()) by {
                assert(ns.take(k) + ns.skip(k) =~= ns);
                lemma_tagged_before(ns.take(k), ns.skip(k), "net"@, 0);
            }
            (k, k)
        },
    }
}

/// Behind an opening parenthesis a scan is one level in, outside strings.
proof fn lemma_one_in(s: Seq<u8>, p: int)
    requires
        0 <= p < s.len(),
        s[p] == OPEN,
    ensures
        between(lex(s, p, p + 1)),
        lex(s, p, p + 1).depth == 1,
{
    assert(lex(s, p, p) == outside());
    assert(lex(s, p, p + 1) == lex_step(lex(s, p, p), s[p]));
}

// ─── Where scanner and parser agree ──────────────────────────────────────────

/// The block that opens at `q` has a tag right behind its parenthesis, which white
/// space or a parenthesis ends.
pub open spec fn plainly_tagged(s: Seq<u8>, q: int) -> bool {
    let e = tag_end(s, q + 1);
    &&& q + 1 < s.len() && tag_byte(s[q + 1])
    &&& e < s.len() && (blank(s[e]) || s[e] == OPEN || s[e] == CLOSE)
}

/// Every field of an item is plainly tagged.
pub open spec fn plain_fields(s: Seq<u8>, z: Item) -> bool {
    forall|i: int|
        0 <= i < children(s, z.start, z.end).len() ==> plainly_tagged(
            s,
            (#[trigger] children(s, z.start, z.end)[i]).0,
        )
}

proof fn lemma_tag_end_in(s: Seq<u8>, i: int)
    requires
        0 <= i <= s.len(),
    ensures
        i <= tag_end(s, i) <= s.len(),
        forall|k: int| i <= k < tag_end(s, i) ==> tag_byte(#[trigger] s[k]),
        tag_end(s, i) < s.len() ==> !tag_byte(s[tag_end(s, i)]),
    decreases s.len() - i,
{
    if i < s.len() && tag_byte(s[i]) {
        lemma_tag_end_in(s, i + 1);
    }
}

proof fn lemma_tag_end_at(s: Seq<u8>, i: int, e: int)
    requires
        0 <= i <= e <= s.len(),
        forall|k: int| i <= k < e ==> tag_byte(#[trigger] s[k]),
        e < s.len() ==> !tag_byte(s[e]),
    ensures
        tag_end(s, i) == e,
    decreases e - i,
{
    if i < e {
        assert(tag_byte(s[i]));
        lemma_tag_end_at(s, i + 1, e);
    }
}

/// On a plainly tagged block the scanner and the parser agree.
proof fn lemma_plain_tag(c: Seq<char>, q: int, tag: Seq<char>)
    requires
        0 <= q < bytes(c).len(),
        bytes(c)[q] == OPEN,
        plainly_tagged(bytes(c), q),
        is_tag(tag),
        parse_node(bytes(c), q) is Ok,
    ensures
        tag_opens(bytes(c), q, bytes(tag)) == (tag_in(parse_node(bytes(c), q)->Ok_0.0) == Some(tag)),
{
    let s = bytes(c);
    let e = tag_end(s, q + 1);
    let g = bytes(tag);
    lemma_tag_end_in(s, q + 1);
    assert forall|k: int| q + 1 <= k < e implies !ends_atom(#[trigger] s[k]) by {
        assert(tag_byte(s[k]));
    }
    crate::grammar::lemma_atom_end(s, q + 1, e);
    let w = s.subrange(q + 1, e);
    assert(tag_byte(s[q + 1]));
    assert(parse_node(s, q + 1) == Ok::<(Sexp, int), ParseError>((Sexp::Atom(text_of(w)), e)));
    let n = parse_node(s, q)->Ok_0.0;
    assert(items_in(n)[0] == Sexp::Atom(text_of(w)));
    lemma_ascii_boundary(c, q);
    lemma_ascii_boundary(c, e);
    lemma_between_cuts(c, q + 1, e);
    lemma_tag_ends(c, e);
    lemma_bytes_valid(tag);
    if tag_opens(s, q, g) {
        let after = q + 1 + g.len();
        assert forall|k: int| q + 1 <= k < after implies tag_byte(#[trigger] s[k]) by {
            assert(s.subrange(q + 1, after)[k - q - 1] == s[k]);
            assert(tag_byte(g[k - q - 1]));
        }
        if after < s.len() && tag_byte(s[after]) {
            lemma_ascii_char(c, after);
            assert(!ends_tag(s[after] as char));
        }
        lemma_tag_end_at(s, q + 1, after);
        assert(w == g);
    }
}

/// Over the bytes of a string or a bare word there are no children.
proof fn lemma_no_child(s: Seq<u8>, st: int, i: int, j: int, e: int)
    requires
        i <= j <= e,
        forall|k: int| i <= k < j ==> #[trigger] s[k] != OPEN || lex(s, st, k).in_string,
    ensures
        children_from(s, st, i, e) == children_from(s, st, j, e),
    decreases j - i,
{
    if i < j {
        assert(s[i] != OPEN || lex(s, st, i).in_string);
        lemma_no_child(s, st, i + 1, j, e);
    }
}

/// From any point between two fields on, the first child that the scanner finds is
/// the first that the parser reads.
proof fn lemma_agree_from(c: Seq<char>, st: int, i: int, e: int, tag: Seq<char>)
    requires
        ({
            let s = bytes(c);
            &&& 0 <= st < i
            &&& parse_items(s, i) is Ok
            &&& parse_items(s, i)->Ok_0.1 == e
            &&& between(lex(s, st, i))
            &&& lex(s, st, i).depth == 1
            &&& forall|k: int|
                0 <= k < children_from(s, st, i, e).len() ==> plainly_tagged(
                    s,
                    (#[trigger] children_from(s, st, i, e)[k]).0,
                )
        }),
        is_tag(tag),
    ensures
        ({
            let s = bytes(c);
            let ns = parse_items(s, i)->Ok_0.0;
            match (tag_child(s, children_from(s, st, i, e), bytes(tag), 0), tagged_at(ns, tag, 0)) {
                (None, None) => true,
                (Some((a, _)), Some(k)) => parse_items(s, a) == Ok::<(Seq<Sexp>, int), ParseError>(
                    (ns.skip(k), e),
                ),
                _ => false,
            }
        }),
    decreases e - i,
{
    let s = bytes(c);
    let ns = parse_items(s, i)->Ok_0.0;
    let g = bytes(tag);
    let kids = children_from(s, st, i, e);
    lemma_items_end(s, i);
    if blank(s[i]) {
        assert(lex(s, st, i + 1) == lex_step(lex(s, st, i), s[i]));
        assert(kids == children_from(s, st, i + 1, e));
        lemma_agree_from(c, st, i + 1, e, tag);
    } else if s[i] == CLOSE {
        assert(children_from(s, st, i + 1, e) =~= Seq::<(int, int)>::empty());
        assert(kids =~= Seq::<(int, int)>::empty());
    } else {
        let (n, j) = parse_node(s, i)->Ok_0;
        let more = parse_items(s, j)->Ok_0.0;
        lemma_lex_node(s, st, i);
        lemma_items_end(s, j);
        assert(ns == seq![n] + more);
        let rest = children_from(s, st, j, e);
        if s[i] == OPEN {
            law_parsed_list_is_a_block(s, i);
            lemma_block_end(s, i, j);
            assert(kids == seq![(i, j)] + rest);
            assert(kids[0] == (i, j));
            lemma_plain_tag(c, i, tag);
            assert forall|k: int| 0 <= k < rest.len() implies plainly_tagged(s, (#[trigger] rest[k]).0) by {
                assert(kids[k + 1] == rest[k]);
            }
            lemma_agree_from(c, st, j, e, tag);
            lemma_child_after(s, (i, j), rest, g, 0);
            lemma_tagged_after(seq![n], more, tag, 0);
            lemma_tagged_at(more, tag, 0);
            assert(ns[0] == n);
            if tag_in(n) == Some(tag) {
                assert(ns.skip(0) =~= ns);
            } else {
                assert(tagged_at(ns, tag, 0) == tagged_at(ns, tag, 1));
                if let Some(k) = tagged_at(more, tag, 0) {
                    assert(ns.skip(1 + k) =~= more.skip(k));
                }
            }
        } else {
            if s[i] == QUOTE {
                lemma_close_is(s, i + 1, i + 1, s.len() as int);
                assert(lex(s, st, i + 1) == lex_step(lex(s, st, i), s[i]));
                lemma_inside_string(s, st, i + 1, i + 1, j - 1);
            } else {
                lemma_atom_end_is(s, i);
            }
            assert forall|k: int| i <= k < j implies #[trigger] s[k] != OPEN || lex(s, st, k).in_string by {
                if s[i] == QUOTE {
                    if k > i {
                        assert(lex(s, st, k).in_string);
                    }
                } else {
                    assert(!ends_atom(s[k]));
                }
            }
            lemma_no_child(s, st, i, j, e);
            lemma_agree_from(c, st, j, e, tag);
            lemma_tagged_after(seq![n], more, tag, 0);
            lemma_tagged_at(more, tag, 0);
            assert(ns[0] == n);
            assert(tag_in(n).is_none());
            assert(tagged_at(ns, tag, 0) == tagged_at(ns, tag, 1));
            if let Some(k) = tagged_at(more, tag, 0) {
                assert(ns.skip(1 + k) =~= more.skip(k));
            }
        }
    }
}

proof fn lemma_child_after(s: Seq<u8>, first: (int, int), rest: Seq<(int, int)>, tag: Seq<u8>, k: int)
    requires
        0 <= k,
    ensures
        tag_child(s, seq![first] + rest, tag, k + 1) == tag_child(s, rest, tag, k),
    decreases rest.len() - k,
{
    let all = seq![first] + rest;
    if k < rest.len() {
        assert(all[k + 1] == rest[k]);
        lemma_child_after(s, first, rest, tag, k + 1);
    }
}

/// Where every field of an item is plainly tagged, as KiCAD writes them, the first
/// field of a tag that the scanner finds is the one that the parser reads.
pub proof fn law_plain_fields_agree(c: Seq<char>, tag: Seq<char>, uuid: Seq<char>, field: Seq<char>)
    requires
        item_named(bytes(c), tag, uuid).is_some(),
        plain_fields(bytes(c), item_named(bytes(c), tag, uuid).unwrap()),
        is_tag(field),
    ensures
        agree_on(bytes(c), item_named(bytes(c), tag, uuid).unwrap(), field),
{
    let s = bytes(c);
    let z = item_named(s, tag, uuid).unwrap();
    lemma_named_item(s, tag, uuid);
    lemma_item_fields(s, z);
    lemma_one_in(s, z.start);
    let kids = children_from(s, z.start, z.start + 1, z.end);
    assert forall|k: int| 0 <= k < kids.len() implies plainly_tagged(s, (#[trigger] kids[k]).0) by {
        assert(children(s, z.start, z.end)[k] == kids[k]);
    }
    lemma_agree_from(c, z.start, z.start + 1, z.end, field);
}

// ─── The law ─────────────────────────────────────────────────────────────────

/// The fields of a zone after it was put on a net: the net is the first of its tag,
/// a numbered net has its label, and every other field is what it was.
pub open spec fn put_on(before: Sexp, after: Sexp, n: Net) -> bool {
    &&& child_in(after, "net"@) == Some(net_node(n))
    &&& n is Numbered ==> child_in(after, "net_name"@) == Some(label_node(n.name()))
    &&& forall|tag: Seq<char>|
        tag != "net"@ && tag != "net_name"@ ==> #[trigger] child_in(after, tag) == child_in(before, tag)
}

/// The tags of the two fields differ from each other and from that of the uuid.
proof fn lemma_tags()
    ensures
        "net"@ != "net_name"@,
        "net"@ != "uuid"@,
        "net_name"@ != "uuid"@,
        is_tag("zone"@),
{
    reveal_strlit("net");
    reveal_strlit("net_name");
    reveal_strlit("uuid");
    reveal_strlit("zone");
    assert("net"@.len() == 3 && "net_name"@.len() == 8 && "uuid"@.len() == 4);
    crate::placing::lemma_tag_chars("zone"@);
}

/// A net field exchanged, with nothing or a label put behind it.
proof fn lemma_put_on_net(ns: Seq<Sexp>, k: int, j: int, n: Net, more: Seq<Sexp>)
    requires
        0 <= k <= j <= ns.len(),
        only(ns.subrange(k, j), "net"@),
        child_in(Sexp::List(ns.take(k)), "net"@).is_none(),
        tag_in(net_node(n)) == Some("net"@),
        n is Numbered ==> more == seq![label_node(n.name())] && tagged_at(ns, "net_name"@, 0).is_none(),
        n is Named ==> more.len() == 0,
    ensures
        put_on(
            Sexp::List(ns),
            Sexp::List(parts(ns.take(k), seq![net_node(n)], Seq::empty(), more, ns.skip(j))),
            n,
        ),
{
    lemma_tags();
    let e = Seq::<Sexp>::empty();
    let head = ns.take(k);
    let old = ns.subrange(k, j);
    let tail = ns.skip(j);
    let one = seq![net_node(n)];
    assert(parts(head, old, e, e, tail) =~= ns);
    lemma_first_of_parts(head, one, e, more, tail, "net"@);
    lemma_first_of_one(net_node(n), "net"@);
    assert(tag_in(label_node(n.name())) == Some("net_name"@));
    if n is Numbered {
        lemma_first_of_parts(head, one, e, more, tail, "net_name"@);
        lemma_first_of_parts(head, old, e, e, tail, "net_name"@);
        lemma_first_of_one(net_node(n), "net_name"@);
        lemma_first_of_one(label_node(n.name()), "net_name"@);
    }
    assert forall|tag: Seq<char>| tag != "net"@ && tag != "net_name"@ implies #[trigger] child_in(
        Sexp::List(parts(head, one, e, more, tail)),
        tag,
    ) == child_in(Sexp::List(ns), tag) by {
        lemma_first_of_parts(head, one, e, more, tail, tag);
        lemma_first_of_parts(head, old, e, e, tail, tag);
        lemma_first_of_one(net_node(n), tag);
        lemma_only(old, "net"@, tag);
        if n is Numbered {
            lemma_first_of_one(label_node(n.name()), tag);
        }
    }
}

/// A net field and a label exchanged, the label behind the field; the label of a
/// named net is taken out.
proof fn lemma_put_on_both(ns: Seq<Sexp>, k: int, j: int, l: int, n: Net, label: Seq<Sexp>)
    requires
        0 <= k <= j <= l < ns.len(),
        only(ns.subrange(k, j), "net"@),
        child_in(Sexp::List(ns.take(k)), "net"@).is_none(),
        tag_in(net_node(n)) == Some("net"@),
        tagged_at(ns, "net_name"@, 0) == Some(l),
        n is Numbered ==> label == seq![label_node(n.name())],
        n is Named ==> label.len() == 0,
    ensures
        put_on(
            Sexp::List(ns),
            Sexp::List(
                parts(ns.take(k), seq![net_node(n)], ns.subrange(j, l), label, ns.skip(l + 1)),
            ),
            n,
        ),
{
    lemma_tags();
    let head = ns.take(k);
    let old = ns.subrange(k, j);
    let mid = ns.subrange(j, l);
    let gone = ns.subrange(l, l + 1);
    let tail = ns.skip(l + 1);
    let one = seq![net_node(n)];
    lemma_tagged_at(ns, "net_name"@, 0);
    assert(gone =~= seq![ns[l]]);
    assert(parts(head, old, mid, gone, tail) =~= ns);
    lemma_first_of_parts(head, one, mid, label, tail, "net"@);
    lemma_first_of_one(net_node(n), "net"@);
    assert(tag_in(label_node(n.name())) == Some("net_name"@));
    if n is Numbered {
        lemma_none_before(ns, "net_name"@, l);
        assert(ns.take(l) =~= head + old + mid);
        lemma_first_of_both(head, old, "net_name"@);
        lemma_first_of_both(head + old, mid, "net_name"@);
        lemma_first_of_parts(head, one, mid, label, tail, "net_name"@);
        lemma_first_of_one(net_node(n), "net_name"@);
        lemma_first_of_one(label_node(n.name()), "net_name"@);
    }
    assert forall|tag: Seq<char>| tag != "net"@ && tag != "net_name"@ implies #[trigger] child_in(
        Sexp::List(parts(head, one, mid, label, tail)),
        tag,
    ) == child_in(Sexp::List(ns), tag) by {
        lemma_first_of_parts(head, one, mid, label, tail, tag);
        lemma_first_of_parts(head, old, mid, gone, tail, tag);
        lemma_first_of_one(net_node(n), tag);
        lemma_first_of_one(ns[l], tag);
        lemma_only(old, "net"@, tag);
        if n is Numbered {
            lemma_first_of_one(label_node(n.name()), tag);
        }
    }
}

/// A label and a net field exchanged, the field behind the label.
proof fn lemma_put_on_back(ns: Seq<Sexp>, k: int, j: int, l: int, n: Net)
    requires
        0 <= l < k <= j <= ns.len(),
        only(ns.subrange(k, j), "net"@),
        child_in(Sexp::List(ns.take(k)), "net"@).is_none(),
        tag_in(net_node(n)) == Some("net"@),
        tagged_at(ns, "net_name"@, 0) == Some(l),
        n is Numbered,
    ensures
        put_on(
            Sexp::List(ns),
            Sexp::List(
                parts(
                    ns.take(l),
                    seq![label_node(n.name())],
                    ns.subrange(l + 1, k),
                    seq![net_node(n)],
                    ns.skip(j),
                ),
            ),
            n,
        ),
{
    lemma_tags();
    let head = ns.take(l);
    let gone = ns.subrange(l, l + 1);
    let mid = ns.subrange(l + 1, k);
    let old = ns.subrange(k, j);
    let tail = ns.skip(j);
    let one = seq![net_node(n)];
    let label = seq![label_node(n.name())];
    lemma_tagged_at(ns, "net_name"@, 0);
    assert(gone =~= seq![ns[l]]);
    assert(parts(head, gone, mid, old, tail) =~= ns);
    assert(tag_in(label_node(n.name())) == Some("net_name"@));
    // There is no net before the field.
    assert(ns.take(k) =~= head + gone + mid);
    lemma_first_of_both(head, gone, "net"@);
    lemma_first_of_both(head + gone, mid, "net"@);
    lemma_first_of_parts(head, label, mid, one, tail, "net"@);
    lemma_first_of_one(net_node(n), "net"@);
    lemma_first_of_one(label_node(n.name()), "net"@);
    lemma_none_before(ns, "net_name"@, l);
    lemma_first_of_parts(head, label, mid, one, tail, "net_name"@);
    lemma_first_of_one(label_node(n.name()), "net_name"@);
    assert forall|tag: Seq<char>| tag != "net"@ && tag != "net_name"@ implies #[trigger] child_in(
        Sexp::List(parts(head, label, mid, one, tail)),
        tag,
    ) == child_in(Sexp::List(ns), tag) by {
        lemma_first_of_parts(head, label, mid, one, tail, tag);
        lemma_first_of_parts(head, gone, mid, old, tail, tag);
        lemma_first_of_one(net_node(n), tag);
        lemma_first_of_one(ns[l], tag);
        lemma_first_of_one(label_node(n.name()), tag);
        lemma_only(old, "net"@, tag);
    }
}

/// The new text has the fields of `ns` in the place of the zone, and differs from
/// the old one from `a` on and only there.
pub open spec fn rewritten_at(
    s: Seq<u8>,
    t: Seq<u8>,
    z: Item,
    a: int,
    e: int,
    ns: Seq<Sexp>,
) -> bool {
    &&& z.start < a < s.len()
    &&& a < t.len()
    &&& ends_atom(s[a]) && s[a] != QUOTE
    &&& ends_atom(t[a]) && t[a] != QUOTE
    &&& forall|k: int| 0 <= k < a ==> #[trigger] s[k] == t[k]
    &&& parse_items(t, z.start + 1) == Ok::<(Seq<Sexp>, int), ParseError>((ns, e))
    &&& z.start < e <= t.len()
    &&& t.skip(e) == s.skip(z.end)
}

/// What the law asks of a zone.
pub open spec fn readable(c: Seq<char>, z: Item, n: Net) -> bool {
    let s = bytes(c);
    &&& agree_on(s, z, "net"@)
    &&& agree_on(s, z, "net_name"@)
    &&& direct_child(s, z.start, z.end, "net"@).is_none() ==> ends_atom(s[z.start + 5])
    &&& n is Named ==> (direct_child(s, z.start, z.end, "net_name"@) matches Some((_, q)) ==> ends_atom(
        s[q],
    ))
}

/// The net field as it is written, and how it reads.
proof fn lemma_written_field(s: Seq<u8>, z: Item, n: Net)
    requires
        is_plain(n.name()),
    ensures
        ({
            let m = net_field_edit(s, z.start, z.end, n).0.bytes;
            &&& reads(m, seq![net_node(n)], true)
            &&& m.len() > 0
            &&& ends_atom(m[0])
            &&& m[0] != QUOTE
        }),
{
    lemma_field_text(n);
    if direct_child(s, z.start, z.end, "net"@).is_none() {
        reveal_strlit(" ");
        crate::grammar::lemma_char_bytes(' ');
        assert(" "@ =~= seq![' ']);
        crate::text::lemma_bytes_concat(" "@, n.track_field());
        let w = bytes(" "@);
        assert forall|k: int| 0 <= k < w.len() implies blank(#[trigger] w[k]) by {}
        lemma_reads_after_blank(w, bytes(n.track_field()), seq![net_node(n)]);
    }
}

/// A zone without a label.
proof fn lemma_without_label(
    c: Seq<char>,
    t: Seq<u8>,
    z: Item,
    n: Net,
    es: Seq<Splice>,
    board: Seq<char>,
) -> (r: (Seq<Sexp>, int, int))
    requires
        item_at(bytes(c), z.start) == Some(z),
        closes_at(bytes(c), z.start, z.end),
        tag_opens(bytes(c), z.start, bytes("zone"@)),
        readable(c, z, n),
        is_plain(n.name()),
        direct_child(bytes(c), z.start, z.end, "net_name"@).is_none(),
        zone_net_splices(bytes(c), z.start, z.end, n, board) == Ok::<Seq<Splice>, Seq<char>>(es),
        t == edited(bytes(c), es),
    ensures
        rewritten_at(bytes(c), t, z, r.1, r.2, r.0),
        put_on(z.node, Sexp::List(r.0), n),
{
    let s = bytes(c);
    let p = z.start;
    let e = z.end;
    let ns = items_in(z.node);
    lemma_item_fields(s, z);
    let (k, j) = lemma_net_place(c, z, n);
    let (field, a, b) = net_field_edit(s, p, e, n);
    lemma_written_field(s, z, n);
    let head = ns.take(k);
    let tail = ns.skip(j);
    let none = Seq::<Sexp>::empty();
    let m: Seq<u8>;
    let more: Seq<Sexp>;
    match n {
        Net::Named(_) => {
            m = field.bytes;
            more = none;
            assert(es == seq![field]);
            law_one_edit(s, field);
            assert(seq![net_node(n)] + more =~= seq![net_node(n)]);
        },
        Net::Numbered(_, name) => {
            let label = bytes(label_text(n).unwrap());
            let sep = label_separator(s, a);
            lemma_label_text(name);
            lemma_separator(s, a);
            lemma_reads_after_blank(sep, label, seq![label_node(name)]);
            m = field.bytes + (sep + label);
            more = seq![label_node(name)];
            lemma_reads_both(field.bytes, seq![net_node(n)], true, sep + label, more, true);
            let put = Splice { start: b, end: b, bytes: sep + label };
            assert(es == seq![field, put]);
            law_two_edits(s, field, put);
            assert(s.take(a) + field.bytes + s.subrange(b, b) + (sep + label) + s.skip(b) =~= s.take(a) + m
                + s.skip(b));
            assert(m[0] == field.bytes[0]);
        },
    }
    assert(t == s.take(a) + m + s.skip(b));
    let new = seq![net_node(n)] + more;
    lemma_rewrite(s, p + 1, a, b, m, head, new, tail, e);
    let all = parts(head, seq![net_node(n)], none, more, tail);
    assert(head + new + tail =~= all);
    lemma_field_text(n);
    lemma_put_on_net(ns, k, j, n, more);
    let f = e - b + a + m.len();
    assert(t.skip(f) =~= s.skip(e));
    assert(t[a] == m[0]);
    (all, a, f)
}

/// A scan is the same before white space as after it.
proof fn lemma_lex_back(s: Seq<u8>, st: int, x: int, y: int)
    requires
        st <= x <= y <= s.len(),
        forall|k: int| x <= k < y ==> blank(#[trigger] s[k]),
        between(lex(s, st, y)),
    ensures
        lex(s, st, x) == lex(s, st, y),
    decreases y - x,
{
    if x < y {
        assert(blank(s[y - 1]));
        assert(lex(s, st, y) == lex_step(lex(s, st, y - 1), s[y - 1]));
        lemma_depth_bound(s, st, y - 1);
        lemma_lex_back(s, st, x, y - 1);
    }
}

/// A zone with a label behind its net field, on a numbered net: the label is kept in
/// step.
proof fn lemma_label_behind(
    c: Seq<char>,
    t: Seq<u8>,
    z: Item,
    n: Net,
    es: Seq<Splice>,
    board: Seq<char>,
) -> (r: (Seq<Sexp>, int, int))
    requires
        item_at(bytes(c), z.start) == Some(z),
        closes_at(bytes(c), z.start, z.end),
        tag_opens(bytes(c), z.start, bytes("zone"@)),
        readable(c, z, n),
        is_plain(n.name()),
        n is Numbered,
        direct_child(bytes(c), z.start, z.end, "net_name"@).is_some(),
        net_field_edit(bytes(c), z.start, z.end, n).2 <= direct_child(bytes(c), z.start, z.end, "net_name"@).unwrap().0,
        zone_net_splices(bytes(c), z.start, z.end, n, board) == Ok::<Seq<Splice>, Seq<char>>(es),
        t == edited(bytes(c), es),
    ensures
        rewritten_at(bytes(c), t, z, r.1, r.2, r.0),
        put_on(z.node, Sexp::List(r.0), n),
{
    let s = bytes(c);
    let p = z.start;
    let e = z.end;
    let ns = items_in(z.node);
    lemma_item_fields(s, z);
    let (k, j) = lemma_net_place(c, z, n);
    let (field, a, b) = net_field_edit(s, p, e, n);
    lemma_written_field(s, z, n);
    lemma_field_text(n);
    lemma_one_in(s, p);
    let l = lemma_field(s, z, "net_name"@);
    let (x, y) = direct_child(s, p, e, "net_name"@).unwrap();
    let label = Splice { start: x, end: y, bytes: bytes(label_text(n).unwrap()) };
    lemma_label_text(n.name());
    assert(es == seq![field, label]);
    let m = field.bytes;
    let w = label.bytes;
    let one = seq![net_node(n)];
    let two = seq![label_node(n.name())];
    law_two_edits(s, field, label);
    let i = lemma_take_apart(s, p, b, x);
    assert(ns.skip(j).skip(i).len() == ns.skip(l).len());
    let mid = ns.skip(j).take(i);
    assert(mid =~= ns.subrange(j, l));
    lemma_rewrite_two(s, p + 1, a, b, m, x, y, w, ns.take(k), one, mid, two, ns.skip(l + 1), e);
    let f = e - y + x + w.len() - b + a + m.len();
    lemma_put_on_both(ns, k, j, l, n, two);
    assert(t.skip(f) =~= s.skip(e));
    assert(t[a] == m[0]);
    (parts(ns.take(k), one, mid, two, ns.skip(l + 1)), a, f)
}

/// A zone with a label before its net field, on a numbered net.
#[verifier::rlimit(40)]
proof fn lemma_label_before(
    c: Seq<char>,
    t: Seq<u8>,
    z: Item,
    n: Net,
    es: Seq<Splice>,
    board: Seq<char>,
) -> (r: (Seq<Sexp>, int, int))
    requires
        item_at(bytes(c), z.start) == Some(z),
        closes_at(bytes(c), z.start, z.end),
        tag_opens(bytes(c), z.start, bytes("zone"@)),
        readable(c, z, n),
        is_plain(n.name()),
        n is Numbered,
        direct_child(bytes(c), z.start, z.end, "net_name"@).is_some(),
        direct_child(bytes(c), z.start, z.end, "net_name"@).unwrap().1 <= net_field_edit(bytes(c), z.start, z.end, n).1,
        zone_net_splices(bytes(c), z.start, z.end, n, board) == Ok::<Seq<Splice>, Seq<char>>(es),
        t == edited(bytes(c), es),
    ensures
        rewritten_at(bytes(c), t, z, r.1, r.2, r.0),
        put_on(z.node, Sexp::List(r.0), n),
{
    let s = bytes(c);
    let p = z.start;
    let e = z.end;
    let ns = items_in(z.node);
    lemma_item_fields(s, z);
    let (k, j) = lemma_net_place(c, z, n);
    let (field, a, b) = net_field_edit(s, p, e, n);
    lemma_written_field(s, z, n);
    lemma_field_text(n);
    lemma_one_in(s, p);
    let l = lemma_field(s, z, "net_name"@);
    let (x, y) = direct_child(s, p, e, "net_name"@).unwrap();
    let label = Splice { start: x, end: y, bytes: bytes(label_text(n).unwrap()) };
    lemma_label_text(n.name());
    assert(es == seq![field, label]);
    let m = field.bytes;
    let w = label.bytes;
    let one = seq![net_node(n)];
    let two = seq![label_node(n.name())];
    crate::edit::lemma_two_edits_back(s, field, label);
    let i = lemma_take_apart(s, p, y, a);
    assert(ns.skip(l + 1).skip(i).len() == ns.skip(k).len());
    let mid = ns.skip(l + 1).take(i);
    assert(mid =~= ns.subrange(l + 1, k));
    lemma_rewrite_two(s, p + 1, x, y, w, a, b, m, ns.take(l), two, mid, one, ns.skip(j), e);
    let f = e - b + a + m.len() - y + x + w.len();
    lemma_put_on_back(ns, k, j, l, n);
    assert(t.skip(f) =~= s.skip(e));
    assert(t[x] == w[0]);
    (parts(ns.take(l), two, mid, one, ns.skip(j)), x, f)
}

/// A zone with a label, on a named net: the label is taken out.
#[verifier::rlimit(40)]
proof fn lemma_label_dropped(
    c: Seq<char>,
    t: Seq<u8>,
    z: Item,
    n: Net,
    es: Seq<Splice>,
    board: Seq<char>,
) -> (r: (Seq<Sexp>, int, int))
    requires
        item_at(bytes(c), z.start) == Some(z),
        closes_at(bytes(c), z.start, z.end),
        tag_opens(bytes(c), z.start, bytes("zone"@)),
        readable(c, z, n),
        is_plain(n.name()),
        n is Named,
        direct_child(bytes(c), z.start, z.end, "net_name"@).is_some(),
        zone_net_splices(bytes(c), z.start, z.end, n, board) == Ok::<Seq<Splice>, Seq<char>>(es),
        t == edited(bytes(c), es),
    ensures
        rewritten_at(bytes(c), t, z, r.1, r.2, r.0),
        put_on(z.node, Sexp::List(r.0), n),
{
    let s = bytes(c);
    let p = z.start;
    let e = z.end;
    let ns = items_in(z.node);
    lemma_item_fields(s, z);
    let (k, j) = lemma_net_place(c, z, n);
    let (field, a, b) = net_field_edit(s, p, e, n);
    lemma_written_field(s, z, n);
    lemma_field_text(n);
    lemma_one_in(s, p);
    let l = lemma_field(s, z, "net_name"@);
    let (lp, lq) = direct_child(s, p, e, "net_name"@).unwrap();
    let (x, y) = delete_range_of(s, lp, lq, "the zone's stale (net_name …)"@, board)->Ok_0;
    // The range is the label with the white space before it.
    lemma_block_end(s, lp, lq);
    assert(crate::text::first_byte(s, OPEN, lp) == Some(lp));
    assert(crate::scan::balanced_block(s, lp) == Some((lp, lq)));
    assert(x == lead_start(s, lp) && y == lq);
    lemma_indent(s, lp);
    assert forall|i: int| x <= i < lp implies blank(#[trigger] s[i]) by {
        if i >= indent_start(s, lp) {
        }
    }
    let gone = Splice { start: x, end: y, bytes: Seq::empty() };
    assert(es == seq![field, gone]);
    assert(b <= x);
    law_two_edits(s, field, gone);
    lemma_lex_back(s, p, x, lp);
    let i = lemma_take_apart(s, p, b, x);
    crate::grammar::lemma_over_blanks(s, x, lp);
    assert(ns.skip(j).skip(i).len() == ns.skip(l).len());
    assert(l == j + i);
    let mid = ns.skip(j).take(i);
    assert(mid =~= ns.subrange(j, l));
    let one = seq![net_node(n)];
    let none = Seq::<Sexp>::empty();
    let m = field.bytes;
    let w = Seq::<u8>::empty();
    lemma_reads_blank(w);
    lemma_rewrite_two(s, p + 1, a, b, m, x, y, w, ns.take(k), one, mid, none, ns.skip(l + 1), e);
    let f = e - y + x + w.len() - b + a + m.len();
    lemma_put_on_both(ns, k, j, l, n, none);
    assert(t.skip(f) =~= s.skip(e));
    assert(t[a] == m[0]);
    (parts(ns.take(k), one, mid, none, ns.skip(l + 1)), a, f)
}

/// A zone that was put on a net is found under the uuid that it had, and reads as
/// being on that net: its first net field is the net's, in the board's own form, a
/// numbered net comes with its label, and every other field is what it was.
///
/// The name must need no escapes, and the parser must see the zone's net fields where
/// the scanner does: it would not where white space stands between the parenthesis
/// and the tag. Where the zone has no net field its tag, and where a stale label is
/// taken out what follows that, must not run into a bare word.
#[verifier::rlimit(40)]
pub proof fn law_zone_net_reads_back(
    c: Seq<char>,
    v: Seq<char>,
    uuid: Seq<char>,
    name: Seq<char>,
    board: Seq<char>,
)
    requires
        is_document(bytes(c), bytes("kicad_pcb"@)),
        is_plain(name),
        zone_on_net(bytes(c), uuid, name, board) is Ok,
        zone_on_net(bytes(c), uuid, name, board)->Ok_0.1 == bytes(v),
        readable(
            c,
            item_named(bytes(c), "zone"@, uuid).unwrap(),
            zone_on_net(bytes(c), uuid, name, board)->Ok_0.0,
        ),
    ensures
        item_named(bytes(v), "zone"@, uuid).is_some(),
        ({
            let was = item_named(bytes(c), "zone"@, uuid).unwrap();
            let now = item_named(bytes(v), "zone"@, uuid).unwrap();
            &&& now.start == was.start
            &&& now.end == was.end + bytes(v).len() - bytes(c).len()
            &&& put_on(was.node, now.node, zone_on_net(bytes(c), uuid, name, board)->Ok_0.0)
        }),
{
    let s = bytes(c);
    let t = bytes(v);
    let z = item_named(s, "zone"@, uuid).unwrap();
    let n = net_on_board(s, name).unwrap();
    crate::net::law_resolved_name(s, name);
    lemma_tags();
    lemma_named_item(s, "zone"@, uuid);
    lemma_item_fields(s, z);
    let es = zone_net_splices(s, z.start, z.end, n, board)->Ok_0;
    let (ns, a, e) = if direct_child(s, z.start, z.end, "net_name"@).is_none() {
        lemma_without_label(c, t, z, n, es, board)
    } else if n is Numbered {
        assert(crate::edit::apart(es[0], es[1]));
        let (x, y) = direct_child(s, z.start, z.end, "net_name"@).unwrap();
        if net_field_edit(s, z.start, z.end, n).2 <= x {
            lemma_label_behind(c, t, z, n, es, board)
        } else {
            lemma_net_place(c, z, n);
            lemma_label_before(c, t, z, n, es, board)
        }
    } else {
        lemma_label_dropped(c, t, z, n, es, board)
    };
    assert(child_in(Sexp::List(ns), "uuid"@) == child_in(z.node, "uuid"@));
    lemma_rewritten_item(c, v, "zone"@, uuid, a, e, ns);
    assert(t.skip(e).len() == s.skip(z.end).len());
}

} // verus!
