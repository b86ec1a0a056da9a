//! What is read back of a layer table that a layer was added to.

use crate::chars::{blank, law_integer_reads_back, signed_decimal};
use crate::edit::{law_one_edit, Splice};
use crate::grammar::{
    between, is_plain, is_word, law_parsed_list_is_a_block, lemma_listing_blank, lemma_listing_closes,
    lemma_listing_node, lemma_listing_opens, lemma_listing_word, lemma_reads_blank, lemma_reads_both,
    lemma_reads_one, lemma_reads_plain, reads,
};
use crate::layers::{
    added_layer, layer_id, layer_row, layer_row_text, layer_rows, layer_table, layers_from,
    layers_open, named_layer, row_indent_text, Layer,
};
use crate::placing::{lemma_lex_blank, lemma_lex_restart, lemma_skip_blank, lemma_skip_blank_is};
use crate::rewriting::{lemma_items_end, lemma_node_reads, lemma_rewrite, lemma_take_apart};
use crate::scan::{
    block_end, closes_at, lemma_block_end, lemma_block_end_is, lex, lex_step, outside, skip_blank,
    CLOSE, OPEN,
};
use crate::sexp::{
    ends_atom, items_in, lemma_tagged_at, parse_items, parse_node, parse_text, tag_in, tagged_at,
    ParseError, Sexp,
};
use crate::text::{bytes, lemma_bytes_concat};
use crate::undo::{lemma_decimal_is_word, lemma_leads};
use vstd::prelude::*;

verus! {

// ─── A list with one more at its end ─────────────────────────────────────────

/// An expression put before the close of a list is its last one.
pub proof fn lemma_appended(s: Seq<u8>, p: int, m: Seq<u8>, row: Sexp)
    requires
        0 <= p < s.len(),
        s[p] == OPEN,
        parse_node(s, p) is Ok,
        reads(m, seq![row], true),
        m.len() > 0,
        ends_atom(m[0]),
    ensures
        ({
            let (n, e) = parse_node(s, p)->Ok_0;
            let t = s.take(e - 1) + m + s.skip(e - 1);
            &&& p + 1 < e <= s.len()
            &&& closes_at(s, p, e)
            &&& s[e - 1] == CLOSE
            &&& n is List
            &&& parse_node(t, p) == Ok::<(Sexp, int), ParseError>(
                (Sexp::List(items_in(n).push(row)), e + m.len()),
            )
        }),
{
    let (n, e) = parse_node(s, p)->Ok_0;
    let ms = items_in(n);
    law_parsed_list_is_a_block(s, p);
    lemma_block_end(s, p, e);
    lemma_block_end_is(s, p);
    assert(parse_items(s, p + 1) == Ok::<(Seq<Sexp>, int), ParseError>((ms, e)));
    let a = e - 1;
    let t = s.take(a) + m + s.skip(a);
    assert(lex(s, p, p) == outside());
    assert(lex(s, p, p + 1) == lex_step(lex(s, p, p), s[p]));
    assert(lex(s, p, e) == lex_step(lex(s, p, a), s[a]));
    if a > p + 1 {
        assert(lex(s, p, a).depth > 0);
    }
    crate::scan::lemma_depth_bound(s, p, a);
    let k = lemma_take_apart(s, p, p + 1, a);
    assert(parse_items(s, a) == Ok::<(Seq<Sexp>, int), ParseError>((Seq::empty(), e)));
    assert(ms.skip(k).len() == 0);
    assert(ms.take(k) =~= ms);
    lemma_rewrite(s, p + 1, a, a, m, ms, seq![row], Seq::empty(), e);
    assert(ms + seq![row] + Seq::<Sexp>::empty() =~= ms.push(row));
    assert(t[p] == s[p]);
}

/// The list around a list that one was added to.
pub proof fn lemma_around_appended(s: Seq<u8>, r: int, p: int, m: Seq<u8>, row: Sexp) -> (k: int)
    requires
        0 <= r < p < s.len(),
        s[r] == OPEN,
        s[p] == OPEN,
        parse_node(s, r) is Ok,
        p < parse_node(s, r)->Ok_0.1,
        between(lex(s, r, p)),
        lex(s, r, p).depth == 1,
        reads(m, seq![row], true),
        m.len() > 0,
        ends_atom(m[0]),
    ensures
        parse_node(s, p) is Ok,
        ({
            let (n, last) = parse_node(s, r)->Ok_0;
            let (child, e) = parse_node(s, p)->Ok_0;
            let t = s.take(e - 1) + m + s.skip(e - 1);
            let ns = items_in(n);
            &&& 0 <= k < ns.len()
            &&& ns[k] == child
            &&& parse_items(s, p) is Ok
            &&& parse_items(s, p)->Ok_0.0 == ns.skip(k)
            &&& parse_node(t, r) == Ok::<(Sexp, int), ParseError>(
                (Sexp::List(ns.update(k, Sexp::List(items_in(child).push(row)))), last + m.len()),
            )
        }),
{
    let (n, last) = parse_node(s, r)->Ok_0;
    let ns = items_in(n);
    assert(parse_items(s, r + 1) == Ok::<(Seq<Sexp>, int), ParseError>((ns, last)));
    assert(lex(s, r, r) == outside());
    assert(lex(s, r, r + 1) == lex_step(lex(s, r, r), s[r]));
    let k = lemma_take_apart(s, r, r + 1, p);
    let (child, e) = parse_node(s, p)->Ok_0;
    lemma_appended(s, p, m, row);
    let t = s.take(e - 1) + m + s.skip(e - 1);
    let rest = parse_items(s, e)->Ok_0.0;
    assert(ns.skip(k) == seq![child] + rest);
    assert(ns.skip(k)[0] == child);
    assert(ns[k] == child);
    assert(rest =~= ns.skip(k + 1)) by {
        assert((seq![child] + rest).skip(1) =~= rest);
        assert(ns.skip(k).skip(1) =~= ns.skip(k + 1));
    }
    let new = Sexp::List(items_in(child).push(row));
    let w = t.subrange(p, e + m.len());
    assert(t[p] == s[p]);
    lemma_node_reads(t, p);
    lemma_items_end(s, e);
    lemma_rewrite(s, r + 1, p, e, w, ns.take(k), seq![new], rest, last);
    assert(s.take(p) + w + s.skip(e) =~= t);
    assert(w[0] == s[p]);
    assert(ns.take(k) + seq![new] + rest =~= ns.update(k, new));
    assert(t[r] == s[r]);
    k
}

// ─── The row ─────────────────────────────────────────────────────────────────

/// The row of a layer, as a tree.
pub open spec fn row_node(id: int, name: Seq<char>, kind: Seq<char>) -> Sexp {
    Sexp::List(seq![Sexp::Atom(signed_decimal(id)), Sexp::Str(name), Sexp::Atom(kind)])
}

/// White space, or nothing.
pub open spec fn is_blank(t: Seq<char>) -> bool {
    forall|k: int| 0 <= k < bytes(t).len() ==> blank(#[trigger] bytes(t)[k])
}

/// The text of a row reads as the row.
proof fn lemma_row_reads(indent: Seq<char>, id: int, name: Seq<char>, kind: Seq<char>)
    requires
        is_blank(indent),
        is_plain(name),
        is_word(kind),
    ensures
        ({
            let m = bytes(layer_row_text(indent, id, name, kind));
            &&& reads(m, seq![row_node(id, name, kind)], true)
            &&& m.len() > 0
            &&& ends_atom(m[0])
        }),
{
    reveal_strlit("(");
    reveal_strlit(" \"");
    reveal_strlit("\" ");
    reveal_strlit(")\n");
    reveal_strlit(" ");
    let dec = signed_decimal(id);
    let row = row_node(id, name, kind);
    lemma_decimal_is_word(id);
    lemma_leads();
    lemma_listing_opens(dec);
    let head = seq!['('] + dec;
    let one = seq![Sexp::Atom(dec)];
    lemma_listing_blank(head, one, false, " "@);
    lemma_reads_plain(name);
    let quoted = seq!['"'] + name + seq!['"'];
    lemma_listing_node(head + " "@, one, true, quoted, Sexp::Str(name));
    let two = one.push(Sexp::Str(name));
    lemma_listing_blank(head + " "@ + quoted, two, true, " "@);
    lemma_listing_word(head + " "@ + quoted + " "@, two, kind);
    let all = head + " "@ + quoted + " "@ + kind;
    lemma_listing_closes(all, two.push(Sexp::Atom(kind)), false);
    assert(two.push(Sexp::Atom(kind)) =~= items_in(row));
    let block = all + seq![')'];
    lemma_reads_one(bytes(block), row);
    let end = seq!['\n'];
    crate::grammar::lemma_char_bytes('\n');
    lemma_reads_blank(bytes(end));
    lemma_reads_both(bytes(block), seq![row], true, bytes(end), Seq::empty(), true);
    lemma_bytes_concat(block, end);
    lemma_reads_blank(bytes(indent));
    lemma_reads_both(bytes(indent), Seq::empty(), true, bytes(block + end), seq![row], true);
    lemma_bytes_concat(indent, block + end);
    assert(seq![row] + Seq::<Sexp>::empty() =~= seq![row]);
    assert(Seq::<Sexp>::empty() + seq![row] =~= seq![row]);
    assert(layer_row_text(indent, id, name, kind) =~= indent + (block + end));
    let m = bytes(layer_row_text(indent, id, name, kind));
    if bytes(indent).len() > 0 {
        assert(m[0] == bytes(indent)[0]);
    } else {
        assert(m[0] == bytes(block)[0]);
    }
}

/// What the row states.
proof fn lemma_row_states(id: int, name: Seq<char>, kind: Seq<char>)
    requires
        i32::MIN <= id <= i32::MAX,
    ensures
        layer_row(row_node(id, name, kind)) == Some(Layer { id, name, kind }),
{
    let row = row_node(id, name, kind);
    law_integer_reads_back(id);
    assert(items_in(row)[0] == Sexp::Atom(signed_decimal(id)));
    assert(items_in(row)[1] == Sexp::Str(name));
    assert(items_in(row)[2] == Sexp::Atom(kind));
}

// ─── The table ───────────────────────────────────────────────────────────────

proof fn lemma_layers_from(s: Seq<u8>, p: int)
    ensures
        layers_from(s, p) matches Some(q) ==> p <= q < s.len() && layers_open(s, q),
    decreases s.len() - p,
{
    if 0 <= p < s.len() && !layers_open(s, p) {
        lemma_layers_from(s, p + 1);
    }
}

/// The block that a row is put into is the table that is read: the first list with the
/// tag, inside the file's first expression.
pub open spec fn one_table(s: Seq<u8>) -> bool {
    let root = skip_blank(s, 0);
    &&& parse_node(s, root) is Ok
    &&& match (layers_from(s, 0), tagged_at(items_in(parse_node(s, root)->Ok_0.0), "layers"@, 0)) {
        (Some(p), Some(k)) => {
            &&& p < parse_node(s, root)->Ok_0.1
            &&& parse_items(s, p) is Ok
            &&& parse_items(s, p)->Ok_0.0 == items_in(parse_node(s, root)->Ok_0.0).skip(k)
        },
        _ => false,
    }
}

proof fn lemma_same_tags(a: Seq<Sexp>, b: Seq<Sexp>, tag: Seq<char>, k: int)
    requires
        a.len() == b.len(),
        forall|i: int| 0 <= i < a.len() ==> tag_in(#[trigger] a[i]) == tag_in(b[i]),
    ensures
        tagged_at(a, tag, k) == tagged_at(b, tag, k),
    decreases a.len() - k,
{
    if 0 <= k < a.len() {
        assert(tag_in(a[k]) == tag_in(b[k]));
        lemma_same_tags(a, b, tag, k + 1);
    }
}

proof fn lemma_rows_before(a: Seq<Sexp>, row: Sexp, n: int)
    requires
        0 <= n <= a.len(),
    ensures
        layer_rows(a.push(row), n) == layer_rows(a, n),
    decreases n,
{
    if n > 1 {
        assert(a.push(row)[n - 1] == a[n - 1]);
        lemma_rows_before(a, row, n - 1);
    }
}

proof fn lemma_named_behind(ls: Seq<Layer>, l: Layer, k: int)
    requires
        0 <= k <= ls.len(),
        named_layer(ls, l.name, k).is_none(),
    ensures
        named_layer(ls.push(l), l.name, k) == Some(l),
    decreases ls.len() - k,
{
    if k < ls.len() {
        assert(ls.push(l)[k] == ls[k]);
        lemma_named_behind(ls, l, k + 1);
    } else {
        assert(ls.push(l)[k] == l);
    }
}

/// How the board reads with the row in its table.
proof fn lemma_table_after(s: Seq<u8>, m: Seq<u8>, row: Sexp) -> (k: int)
    requires
        one_table(s),
        reads(m, seq![row], true),
        m.len() > 0,
        ends_atom(m[0]),
    ensures
        ({
            let p = layers_from(s, 0).unwrap();
            let e = block_end(s, p).unwrap();
            let t = s.take(e - 1) + m + s.skip(e - 1);
            let ns = items_in(parse_text(s)->Ok_0);
            &&& parse_text(s) is Ok
            &&& block_end(s, p).is_some()
            &&& p + 1 < e <= s.len()
            &&& tagged_at(ns, "layers"@, 0) == Some(k)
            &&& 0 <= k < ns.len()
            &&& items_in(ns[k]).len() > 0
            &&& parse_text(t) == Ok::<Sexp, ParseError>(
                Sexp::List(ns.update(k, Sexp::List(items_in(ns[k]).push(row)))),
            )
        }),
{
    let r = skip_blank(s, 0);
    let p = layers_from(s, 0).unwrap();
    let (n, last) = parse_node(s, r)->Ok_0;
    let ns = items_in(n);
    let k0 = tagged_at(ns, "layers"@, 0).unwrap();
    lemma_tagged_at(ns, "layers"@, 0);
    lemma_layers_from(s, 0);
    lemma_skip_blank(s, 0);
    assert(s[r] == OPEN);
    assert(lex(s, 0, 0) == outside());
    lemma_lex_blank(s, 0, 0, r);
    assert(lex(s, 0, r) == outside());
    if p < r {
        assert(blank(s[p]));
    }
    assert(r < p);
    lemma_lex_restart(s, 0, r, p);
    crate::scan::lemma_depth_bound(s, 0, p);
    let k = lemma_around_appended(s, r, p, m, row);
    let (child, e) = parse_node(s, p)->Ok_0;
    lemma_appended(s, p, m, row);
    lemma_block_end(s, p, e);
    assert(ns.skip(k).len() == ns.skip(k0).len());
    let t = s.take(e - 1) + m + s.skip(e - 1);
    assert forall|i: int| 0 <= i < r implies blank(#[trigger] t[i]) by {
        assert(t[i] == s[i]);
    }
    assert(t[r] == s[r]);
    lemma_skip_blank_is(t, 0, r);
    k
}

/// A layer that was added is the last row of the board's table, with the id that KiCAD
/// gives it and the kind that was asked for; the rows that were there stay, and adding
/// the layer once more is refused.
///
/// The kind must be a word, and the rows must be indented with plain white space. The
/// table must be the first list of its tag: in a board with a list like `( layers)`
/// before it the row is put into one list and read from the other.
pub proof fn law_added_layer_is_in_the_table(
    s: Seq<u8>,
    name: Seq<char>,
    kind: Seq<char>,
    board: Seq<char>,
)
    requires
        added_layer(s, name, kind, board) is Ok,
        one_table(s),
        is_plain(name),
        is_word(kind),
        is_blank(row_indent_text(s, layers_from(s, 0).unwrap())),
    ensures
        ({
            let (id, t) = added_layer(s, name, kind, board)->Ok_0;
            let before = layer_table(parse_text(s)->Ok_0);
            &&& Some(id) == layer_id(name)
            &&& before.is_some()
            &&& parse_text(t) is Ok
            &&& layer_table(parse_text(t)->Ok_0) == Some(before.unwrap().push(Layer { id, name, kind }))
            &&& added_layer(t, name, kind, board) is Err
        }),
{
    let (id, t) = added_layer(s, name, kind, board)->Ok_0;
    let p = layers_from(s, 0).unwrap();
    let e = block_end(s, p).unwrap();
    let indent = row_indent_text(s, p);
    let m = bytes(layer_row_text(indent, id, name, kind));
    let row = row_node(id, name, kind);
    lemma_row_reads(indent, id, name, kind);
    let k = lemma_table_after(s, m, row);
    law_one_edit(s, Splice { start: e - 1, end: e - 1, bytes: m });
    assert(t == s.take(e - 1) + m + s.skip(e - 1));
    let ns = items_in(parse_text(s)->Ok_0);
    let ms = items_in(ns[k]);
    let new = Sexp::List(ms.push(row));
    let after = ns.update(k, new);
    assert forall|i: int| 0 <= i < ns.len() implies tag_in(#[trigger] ns[i]) == tag_in(after[i]) by {
        if i == k {
            assert(ms.push(row)[0] == ms[0]);
        }
    }
    lemma_same_tags(ns, after, "layers"@, 0);
    lemma_layer_ids_fit(name);
    lemma_row_states(id, name, kind);
    let n = ms.len() as int;
    lemma_rows_before(ms, row, n);
    assert(ms.push(row)[n] == row);
    let ls = layer_rows(ms, n);
    let l = Layer { id, name, kind };
    assert(layer_rows(ms.push(row), n + 1) == ls.push(l));
    lemma_named_behind(ls, l, 0);
}

proof fn lemma_layer_ids_fit(name: Seq<char>)
    ensures
        layer_id(name) matches Some(id) ==> 0 <= id <= 55,
{
}

} // verus!
