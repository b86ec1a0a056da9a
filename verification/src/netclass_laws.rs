//! What is found of a board's net classes after one was created or joined.

use crate::chars::blank;
use crate::copper::{
    assigned_net, created_netclass, first_closed, is_netclass, net_member_text, netclass_at,
    netclass_index, netclass_place, netclass_text, NetClass,
};
use crate::edit::{law_one_edit, Splice};
use crate::fields::{
    is_blank_text, lemma_listing_block, lemma_tag_is_word, lemma_text_field, lemma_word_field, text_field,
    word_field,
};
use crate::grammar::{
    between, is_plain, is_word, law_parsed_list_is_a_block, lemma_listing_blank, lemma_listing_closes,
    lemma_listing_node, lemma_listing_opens, lemma_reads_blank, lemma_reads_both, lemma_reads_one,
    lemma_reads_plain, reads,
};
use crate::layer_laws::lemma_appended;
use crate::placing::{
    is_tag, lemma_block_tag, lemma_inner_closes, lemma_lex_blank, lemma_put_in_text, lemma_root,
    lemma_tag_ends, lemma_tag_same, put_in,
};
use crate::scan::{
    block_end, block_starts, closes_at, is_document, law_block_starts, lemma_block_end,
    lemma_block_end_is, lemma_block_moved, lemma_depth_bound, lemma_lex_same, lemma_lex_shift, lex,
    lex_step, opens, skip_blank, tag_opens, CLOSE, OPEN,
};
use crate::sexp::{ends_atom, items_in, parse_node, parse_text, text_at, ParseError, Sexp};
use crate::text::{
    bytes, lemma_ascii_boundary, lemma_bytes_ascii, lemma_bytes_concat, matches_at, text_of,
};
use crate::undo::{lemma_has_tag, lemma_leads};
use vstd::prelude::*;

verus! {

// ─── The first class with a name ─────────────────────────────────────────────

/// The net class with the name stands at `q`.
pub open spec fn class_here(s: Seq<u8>, q: int, name: Seq<char>) -> bool {
    opens(s, q) && tag_opens(s, q, bytes("netclass"@)) && is_netclass(s, q, name)
}

proof fn lemma_index(s: Seq<u8>, starts: Seq<int>, name: Seq<char>, k: int)
    requires
        0 <= k,
    ensures
        match netclass_index(s, starts, name, k) {
            Some(p) => exists|i: int|
                k <= i < starts.len() && #[trigger] starts[i] == p && is_netclass(s, p, name) && forall|
                    j: int,
                |
                    k <= j < i ==> !is_netclass(s, #[trigger] starts[j], name),
            None => forall|j: int| k <= j < starts.len() ==> !is_netclass(s, #[trigger] starts[j], name),
        },
    decreases starts.len() - k,
{
    if k < starts.len() {
        if is_netclass(s, starts[k], name) {
            assert(starts[k] == netclass_index(s, starts, name, k).unwrap());
        } else {
            lemma_index(s, starts, name, k + 1);
            if let Some(p) = netclass_index(s, starts, name, k + 1) {
                let i = choose|i: int|
                    k + 1 <= i < starts.len() && #[trigger] starts[i] == p && is_netclass(s, p, name)
                        && forall|j: int|
                        k + 1 <= j < i ==> !is_netclass(s, #[trigger] starts[j], name);
                assert(starts[i] == p);
            }
        }
    }
}

/// The class that is found is the first with the name.
proof fn lemma_first_class(s: Seq<u8>, name: Seq<char>)
    ensures
        match netclass_at(s, name) {
            Some(p) => class_here(s, p, name) && forall|q: int| q < p ==> !#[trigger] class_here(s, q, name),
            None => forall|q: int| !#[trigger] class_here(s, q, name),
        },
{
    let g = bytes("netclass"@);
    let starts = block_starts(s, g, s.len() as int);
    law_block_starts(s, g, s.len() as int);
    lemma_index(s, starts, name, 0);
    match netclass_at(s, name) {
        Some(p) => {
            let i = choose|i: int|
                0 <= i < starts.len() && #[trigger] starts[i] == p && is_netclass(s, p, name) && forall|j: int|
                    0 <= j < i ==> !is_netclass(s, #[trigger] starts[j], name);
            assert(starts.contains(p));
            assert forall|q: int| q < p implies !#[trigger] class_here(s, q, name) by {
                if class_here(s, q, name) {
                    assert(starts.contains(q));
                    let j = starts.index_of(q);
                    if j >= i {
                        if i < j {
                            assert(starts[i] < starts[j]);
                        }
                    }
                    assert(!is_netclass(s, starts[j], name));
                }
            }
        },
        None => {
            assert forall|q: int| !#[trigger] class_here(s, q, name) by {
                if class_here(s, q, name) {
                    assert(starts.contains(q));
                    let j = starts.index_of(q);
                    assert(!is_netclass(s, starts[j], name));
                }
            }
        },
    }
}

proof fn lemma_class_is(s: Seq<u8>, name: Seq<char>, p: int)
    requires
        class_here(s, p, name),
        forall|q: int| q < p ==> !#[trigger] class_here(s, q, name),
    ensures
        netclass_at(s, name) == Some(p),
{
    lemma_first_class(s, name);
    if let Some(q) = netclass_at(s, name) {
        if q < p {
            assert(!class_here(s, q, name));
        }
        if p < q {
            assert(!class_here(s, p, name));
        }
    } else {
        assert(!class_here(s, p, name));
    }
}

// ─── Text put before the close of a block ────────────────────────────────────

/// `t` is `s` with `ins` put in before the parenthesis at `at`.
pub open spec fn put_before(s: Seq<u8>, t: Seq<u8>, at: int, ins: Seq<u8>) -> bool {
    &&& t == put_in(s, at, ins)
    &&& 0 <= at < s.len()
    &&& s[at] == CLOSE
    &&& ins.len() > 0
    &&& blank(ins[0])
}

proof fn lemma_put_bytes(s: Seq<u8>, t: Seq<u8>, at: int, ins: Seq<u8>)
    requires
        put_before(s, t, at, ins),
    ensures
        t.len() == s.len() + ins.len(),
        forall|k: int| 0 <= k < at ==> #[trigger] s[k] == t[k],
        t[at] == ins[0],
        forall|k: int| 0 <= k <= at ==> #[trigger] lex(t, 0, k) == lex(s, 0, k),
{
    assert forall|k: int| 0 <= k < at implies #[trigger] s[k] == t[k] by {}
    assert forall|k: int| 0 <= k <= at implies #[trigger] lex(t, 0, k) == lex(s, 0, k) by {
        lemma_lex_same(s, t, 0, k, 0);
    }
}

proof fn lemma_netclass_tag()
    ensures
        is_tag("netclass"@),
        is_word("netclass"@),
{
    reveal_strlit("netclass");
    lemma_tag_is_word("netclass"@);
}

/// A block that opens in a board closes.
proof fn lemma_opening_ends(s: Seq<u8>, q: int)
    requires
        is_document(s, bytes("kicad_pcb"@)),
        opens(s, q),
    ensures
        block_end(s, q).is_some(),
        closes_at(s, q, block_end(s, q).unwrap()),
{
    lemma_root(s, bytes("kicad_pcb"@));
    let r = skip_blank(s, 0);
    let e = block_end(s, r).unwrap();
    if q < r || q >= e {
        assert(blank(s[q]));
    }
    if q > r {
        assert(lex(s, 0, q) == lex(s, r, q));
        lemma_inner_closes(s, r, e, q);
    }
}

/// Before the place, a class opens where one opened.
proof fn lemma_same_opening(u: Seq<char>, w: Seq<char>, at: int, ins: Seq<u8>, q: int)
    requires
        put_before(bytes(u), bytes(w), at, ins),
        0 <= q < at,
    ensures
        (opens(bytes(u), q) && tag_opens(bytes(u), q, bytes("netclass"@))) == (opens(bytes(w), q)
            && tag_opens(bytes(w), q, bytes("netclass"@))),
{
    let s = bytes(u);
    let t = bytes(w);
    lemma_put_bytes(s, t, at, ins);
    lemma_netclass_tag();
    lemma_tag_ends(u, at);
    lemma_tag_ends(w, at);
    assert(s[q] == t[q]);
    assert(lex(t, 0, q) == lex(s, 0, q));
    if opens(s, q) {
        lemma_tag_same(u, w, q, at, "netclass"@);
        assert forall|k: int| 0 <= k < at implies #[trigger] t[k] == s[k] by {
            assert(s[k] == t[k]);
        }
        lemma_tag_same(w, u, q, at, "netclass"@);
    }
}

/// No class before `stop` reaches to `at`.
pub open spec fn ends_by(s: Seq<u8>, stop: int, at: int) -> bool {
    forall|q: int|
        0 <= q < stop && #[trigger] opens(s, q) && tag_opens(s, q, bytes("netclass"@)) ==> (block_end(
            s,
            q,
        ) matches Some(f) ==> f <= at)
}

/// Where no class before `stop` had the name, none has it afterwards.
proof fn lemma_none_before(u: Seq<char>, w: Seq<char>, at: int, ins: Seq<u8>, stop: int, name: Seq<char>)
    requires
        is_document(bytes(u), bytes("kicad_pcb"@)),
        put_before(bytes(u), bytes(w), at, ins),
        stop <= at,
        ends_by(bytes(u), stop, at),
        forall|q: int| q < stop ==> !#[trigger] class_here(bytes(u), q, name),
    ensures
        forall|q: int| q < stop ==> !#[trigger] class_here(bytes(w), q, name),
{
    let s = bytes(u);
    let t = bytes(w);
    lemma_put_bytes(s, t, at, ins);
    assert forall|q: int| q < stop implies !#[trigger] class_here(t, q, name) by {
        if class_here(t, q, name) {
            lemma_same_opening(u, w, at, ins, q);
            lemma_opening_ends(s, q);
            let f = block_end(s, q).unwrap();
            assert(opens(s, q));
            assert(f <= at);
            assert forall|k: int| q <= k < f implies #[trigger] s[k] == t[k + 0] by {}
            lemma_block_moved(s, t, q, f, 0);
            assert(s.subrange(q, f) =~= t.subrange(q, f));
            assert(class_here(s, q, name));
        }
    }
}

// ─── Joining a class ─────────────────────────────────────────────────────────

/// The text that a net joins with reads as its entry.
proof fn lemma_member_reads(net: Seq<char>)
    requires
        is_plain(net),
    ensures
        ({
            let ins = bytes("\n        "@ + net_member_text(net));
            &&& reads(ins, seq![Sexp::List(seq![Sexp::Atom("net"@), Sexp::Str(net)])], true)
            &&& ins.len() > 0
            &&& blank(ins[0])
            &&& ends_atom(ins[0])
            &&& ins == bytes("\n        "@) + bytes(net_member_text(net))
            &&& bytes("\n        "@).len() == 9
        }),
{
    reveal_strlit("\n        ");
    reveal_strlit("(net \"");
    reveal_strlit("\")");
    reveal_strlit("(");
    reveal_strlit(")");
    reveal_strlit(" ");
    reveal_strlit("\"");
    reveal_strlit("net");
    let lead = "\n        "@;
    let node = Sexp::List(seq![Sexp::Atom("net"@), Sexp::Str(net)]);
    lemma_tag_is_word("net"@);
    lemma_text_field("net"@, net);
    assert(net_member_text(net) =~= text_field("net"@, net));
    lemma_bytes_ascii(lead);
    lemma_reads_one(bytes(net_member_text(net)), node);
    assert forall|k: int| 0 <= k < bytes(lead).len() implies blank(#[trigger] bytes(lead)[k]) by {
        assert(bytes(lead)[k] == lead[k] as u8);
        assert(lead[k] == '\n' || lead[k] == ' ');
    }
    lemma_reads_blank(bytes(lead));
    lemma_reads_both(bytes(lead), Seq::empty(), true, bytes(net_member_text(net)), seq![node], true);
    lemma_bytes_concat(lead, net_member_text(net));
    assert(Seq::<Sexp>::empty() + seq![node] =~= seq![node]);
    assert(bytes(lead + net_member_text(net))[0] == bytes(lead)[0]);
}

/// A block by itself with one expression more at its end.
proof fn lemma_block_grows(v: Seq<u8>, ins: Seq<u8>, row: Sexp)
    requires
        closes_at(v, 0, v.len() as int),
        parse_text(v) is Ok,
        reads(ins, seq![row], true),
        ins.len() > 0,
        ends_atom(ins[0]),
    ensures
        ({
            let x = put_in(v, v.len() - 1, ins);
            let n = parse_text(v)->Ok_0;
            &&& x.len() == v.len() + ins.len()
            &&& closes_at(x, 0, x.len() as int)
            &&& parse_text(x) == Ok::<Sexp, ParseError>(Sexp::List(items_in(n).push(row)))
        }),
{
    let l = v.len() as int;
    let x = put_in(v, l - 1, ins);
    assert(v[0] == OPEN);
    assert(skip_blank(v, 0) == 0);
    law_parsed_list_is_a_block(v, 0);
    let (node, f) = parse_node(v, 0)->Ok_0;
    lemma_block_end(v, 0, l);
    lemma_block_end(v, 0, f);
    lemma_block_end_is(v, 0);
    lemma_appended(v, 0, ins, row);
    assert(x =~= v.take(l - 1) + ins + v.skip(l - 1));
    assert(x[0] == OPEN);
    law_parsed_list_is_a_block(x, 0);
    assert(skip_blank(x, 0) == 0);
}

/// The class with one entry more at its end is the same class.
proof fn lemma_class_grows(s: Seq<u8>, p: int, e: int, ins: Seq<u8>, row: Sexp, name: Seq<char>)
    requires
        closes_at(s, p, e),
        is_netclass(s, p, name),
        reads(ins, seq![row], true),
        ins.len() > 0,
        ends_atom(ins[0]),
    ensures
        block_end(put_in(s, e - 1, ins), p) == Some(e + ins.len()),
        is_netclass(put_in(s, e - 1, ins), p, name),
{
    let t = put_in(s, e - 1, ins);
    let n = ins.len() as int;
    lemma_block_end(s, p, e);
    let v = s.subrange(p, e);
    assert forall|k: int| p <= k < e implies #[trigger] s[k] == v[k + (0 - p)] by {}
    lemma_block_moved(s, v, p, e, 0 - p);
    lemma_block_grows(v, ins, row);
    let x = put_in(v, v.len() - 1, ins);
    assert(x =~= t.subrange(p, e + n));
    assert forall|k: int| 0 <= k < x.len() implies #[trigger] x[k] == t[k + p] by {}
    lemma_block_moved(x, t, 0, x.len() as int, p);
    let items = items_in(parse_text(v)->Ok_0);
    assert(items.push(row)[1] == items[1]);
}

/// A net that joined a class is in it: joining once more changes nothing.
///
/// The names must need no escapes, and the class must not stand inside another.
#[verifier::rlimit(40)]
pub proof fn law_net_joins_once(c: Seq<char>, net: Seq<char>, class: Seq<char>, board: Seq<char>)
    requires
        is_document(bytes(c), bytes("kicad_pcb"@)),
        is_plain(net),
        assigned_net(bytes(c), net, class, board) matches Ok(Some(_)),
        ends_by(
            bytes(c),
            netclass_at(bytes(c), class).unwrap(),
            netclass_at(bytes(c), class).unwrap(),
        ),
    ensures
        ({
            let t = assigned_net(bytes(c), net, class, board)->Ok_0.unwrap();
            &&& netclass_at(t, class) == netclass_at(bytes(c), class)
            &&& assigned_net(t, net, class, board) == Ok::<Option<Seq<u8>>, Seq<char>>(None)
        }),
{
    let s = bytes(c);
    let p = netclass_at(s, class).unwrap();
    let e = block_end(s, p).unwrap();
    let at = e - 1;
    let text = "\n        "@ + net_member_text(net);
    let ins = bytes(text);
    let n = ins.len() as int;
    lemma_first_class(s, class);
    lemma_block_end_is(s, p);
    lemma_member_reads(net);
    law_one_edit(s, Splice { start: at, end: at, bytes: ins });
    let t = put_in(s, at, ins);
    assert(assigned_net(s, net, class, board)->Ok_0.unwrap() == t);
    lemma_ascii_boundary(c, at);
    lemma_put_in_text(c, at, text);
    let d = text_of(s.subrange(0, at)) + text + text_of(s.subrange(at, s.len() as int));
    assert(bytes(d) == t);
    assert(put_before(s, t, at, ins));
    lemma_put_bytes(s, t, at, ins);
    let row = Sexp::List(seq![Sexp::Atom("net"@), Sexp::Str(net)]);
    lemma_class_grows(s, p, e, ins, row, class);
    lemma_same_opening(c, d, at, ins, p);
    assert(class_here(t, p, class));
    assert(ends_by(s, p, at));
    lemma_none_before(c, d, at, ins, p, class);
    lemma_class_is(t, class, p);
    let member = bytes(net_member_text(net));
    let w = t.subrange(p, e + n - 1);
    assert(w.subrange(at + 9 - p, at + 9 - p + member.len()) =~= member);
    assert(matches_at(w, at + 9 - p, member));
}

// ─── Creating a class ────────────────────────────────────────────────────────

/// A class whose name needs no escapes and whose numbers are words.
pub open spec fn is_plain_class(c: NetClass) -> bool {
    &&& is_plain(c.name@)
    &&& is_word(c.clearance@)
    &&& is_word(c.trace_width@)
    &&& is_word(c.via_drill@)
    &&& is_word(c.via_diameter@)
}

/// A class as a tree.
pub open spec fn netclass_node(c: NetClass) -> Sexp {
    Sexp::List(
        seq![
            Sexp::Atom("netclass"@),
            Sexp::Str(c.name@),
            Sexp::List(seq![Sexp::Atom("clearance"@), Sexp::Atom(c.clearance@)]),
            Sexp::List(seq![Sexp::Atom("trace_width"@), Sexp::Atom(c.trace_width@)]),
            Sexp::List(seq![Sexp::Atom("via_drill"@), Sexp::Atom(c.via_drill@)]),
            Sexp::List(seq![Sexp::Atom("via_diameter"@), Sexp::Atom(c.via_diameter@)]),
        ],
    )
}

/// A class's block, without the line break before it.
pub open spec fn netclass_block(c: NetClass) -> Seq<char> {
    "(netclass"@ + " "@ + (seq!['"'] + c.name@ + seq!['"']) + "\n        "@ + word_field(
        "clearance"@,
        c.clearance@,
    ) + "\n        "@ + word_field("trace_width"@, c.trace_width@) + "\n        "@ + word_field(
        "via_drill"@,
        c.via_drill@,
    ) + "\n        "@ + word_field("via_diameter"@, c.via_diameter@) + "\n      "@ + seq![')']
}

proof fn lemma_class_text(c: NetClass)
    ensures
        netclass_text(c) == "\n      "@ + netclass_block(c),
{
    reveal_strlit("\n      (netclass \"");
    reveal_strlit("\"\n        (clearance ");
    reveal_strlit(")\n        (trace_width ");
    reveal_strlit(")\n        (via_drill ");
    reveal_strlit(")\n        (via_diameter ");
    reveal_strlit(")\n      )");
    reveal_strlit("(netclass");
    reveal_strlit("\n        ");
    reveal_strlit("\n      ");
    reveal_strlit("clearance");
    reveal_strlit("trace_width");
    reveal_strlit("via_drill");
    reveal_strlit("via_diameter");
    reveal_strlit("(");
    reveal_strlit(")");
    reveal_strlit(" ");
    let a = "\n      (netclass \""@ + c.name@ + "\"\n        (clearance "@ + c.clearance@;
    let b = "\n      "@ + ("(netclass"@ + " "@ + (seq!['"'] + c.name@ + seq!['"']) + "\n        "@ + ("("@
        + "clearance"@ + " "@ + c.clearance@));
    assert(a =~= b);
    let m = ")\n        (trace_width "@;
    assert(m =~= ")"@ + "\n        "@ + ("("@ + "trace_width"@ + " "@));
    let k = ")\n        (via_drill "@;
    assert(k =~= ")"@ + "\n        "@ + ("("@ + "via_drill"@ + " "@));
    let j = ")\n        (via_diameter "@;
    assert(j =~= ")"@ + "\n        "@ + ("("@ + "via_diameter"@ + " "@));
    assert(")\n      )"@ =~= ")"@ + "\n      "@ + seq![')']);
    assert(netclass_text(c) =~= "\n      "@ + netclass_block(c));
}

proof fn lemma_class_words()
    ensures
        is_word("clearance"@),
        is_word("trace_width"@),
        is_word("via_drill"@),
        is_word("via_diameter"@),
{
    reveal_strlit("clearance");
    reveal_strlit("trace_width");
    reveal_strlit("via_drill");
    reveal_strlit("via_diameter");
    lemma_tag_is_word("clearance"@);
    lemma_tag_is_word("trace_width"@);
    lemma_tag_is_word("via_drill"@);
    lemma_tag_is_word("via_diameter"@);
}

/// The block reads as the class.
proof fn lemma_class_reads(c: NetClass)
    requires
        is_plain_class(c),
    ensures
        closes_at(bytes(netclass_block(c)), 0, bytes(netclass_block(c)).len() as int),
        parse_text(bytes(netclass_block(c))) == Ok::<Sexp, ParseError>(netclass_node(c)),
        tag_opens(bytes(netclass_block(c)), 0, bytes("netclass"@)),
{
    reveal_strlit("(netclass");
    reveal_strlit("netclass");
    reveal_strlit("\n        ");
    let lead = "\n        "@;
    let quoted = seq!['"'] + c.name@ + seq!['"'];
    lemma_netclass_tag();
    lemma_class_words();
    lemma_leads();
    assert("(netclass"@ =~= seq!['('] + "netclass"@);
    lemma_listing_opens("netclass"@);
    let t0 = "(netclass"@;
    let x0 = seq![Sexp::Atom("netclass"@)];
    lemma_listing_blank(t0, x0, false, " "@);
    lemma_reads_plain(c.name@);
    lemma_listing_node(t0 + " "@, x0, true, quoted, Sexp::Str(c.name@));
    let t1 = t0 + " "@ + quoted;
    let x1 = x0.push(Sexp::Str(c.name@));
    lemma_word_field("clearance"@, c.clearance@);
    lemma_word_field("trace_width"@, c.trace_width@);
    lemma_word_field("via_drill"@, c.via_drill@);
    lemma_word_field("via_diameter"@, c.via_diameter@);
    let n2 = Sexp::List(seq![Sexp::Atom("clearance"@), Sexp::Atom(c.clearance@)]);
    let n3 = Sexp::List(seq![Sexp::Atom("trace_width"@), Sexp::Atom(c.trace_width@)]);
    let n4 = Sexp::List(seq![Sexp::Atom("via_drill"@), Sexp::Atom(c.via_drill@)]);
    let n5 = Sexp::List(seq![Sexp::Atom("via_diameter"@), Sexp::Atom(c.via_diameter@)]);
    assert(is_blank_text(lead));
    lemma_listing_block(t1, x1, true, lead, word_field("clearance"@, c.clearance@), n2);
    let t2 = t1 + lead + word_field("clearance"@, c.clearance@);
    lemma_listing_block(t2, x1.push(n2), true, lead, word_field("trace_width"@, c.trace_width@), n3);
    let t3 = t2 + lead + word_field("trace_width"@, c.trace_width@);
    let x3 = x1.push(n2).push(n3);
    lemma_listing_block(t3, x3, true, lead, word_field("via_drill"@, c.via_drill@), n4);
    let t4 = t3 + lead + word_field("via_drill"@, c.via_drill@);
    lemma_listing_block(t4, x3.push(n4), true, lead, word_field("via_diameter"@, c.via_diameter@), n5);
    let t5 = t4 + lead + word_field("via_diameter"@, c.via_diameter@);
    let x5 = x3.push(n4).push(n5);
    lemma_listing_blank(t5, x5, true, "\n      "@);
    lemma_listing_closes(t5 + "\n      "@, x5, true);
    assert(x5 =~= items_in(netclass_node(c)));
    let rest = quoted + (lead + word_field("clearance"@, c.clearance@)) + (lead + word_field(
        "trace_width"@,
        c.trace_width@,
    )) + (lead + word_field("via_drill"@, c.via_drill@)) + (lead + word_field(
        "via_diameter"@,
        c.via_diameter@,
    )) + ("\n      "@ + seq![')']);
    assert(netclass_block(c) =~= seq!['('] + "netclass"@ + " "@ + rest);
    lemma_has_tag(netclass_block(c), "netclass"@, " "@, rest);
}

/// The close of a block is outside every string.
proof fn lemma_close_is_outside(s: Seq<u8>, q: int, e: int)
    requires
        opens(s, q),
        closes_at(s, q, e),
    ensures
        between(lex(s, 0, e - 1)),
        s[e - 1] == CLOSE,
        0 < e <= s.len(),
{
    lemma_depth_bound(s, 0, q);
    lemma_block_end(s, q, e);
    lemma_block_end_is(s, q);
    lemma_lex_shift(s, 0, q, e - 1);
    assert(lex(s, q, e) == lex_step(lex(s, q, e - 1), s[e - 1]));
    assert(lex(s, q, e - 1).depth > 0);
    lemma_depth_bound(s, q, e - 1);
}

proof fn lemma_first_closed(s: Seq<u8>, starts: Seq<int>, k: int)
    requires
        0 <= k,
        forall|i: int| 0 <= i < starts.len() ==> opens(s, #[trigger] starts[i]),
    ensures
        first_closed(s, starts, k) matches Some(e) ==> between(lex(s, 0, e - 1)) && s[e - 1] == CLOSE && 0
            < e <= s.len(),
    decreases starts.len() - k,
{
    if k < starts.len() {
        lemma_first_closed(s, starts, k + 1);
        assert(opens(s, starts[k]));
        lemma_block_end_is(s, starts[k]);
        if let Some(e) = block_end(s, starts[k]) {
            lemma_close_is_outside(s, starts[k], e);
        }
    }
}

/// A new class goes before a parenthesis that closes a block.
proof fn lemma_class_place(s: Seq<u8>)
    requires
        is_document(s, bytes("kicad_pcb"@)),
    ensures
        netclass_place(s) matches Some(at) ==> 0 <= at < s.len() && s[at] == CLOSE && between(
            lex(s, 0, at),
        ),
{
    let n = s.len() as int;
    let a = block_starts(s, bytes("net_classes"@), n);
    let b = block_starts(s, bytes("net_settings"@), n);
    law_block_starts(s, bytes("net_classes"@), n);
    law_block_starts(s, bytes("net_settings"@), n);
    assert forall|i: int| 0 <= i < a.len() implies opens(s, #[trigger] a[i]) by {
        assert(a.contains(a[i]));
    }
    assert forall|i: int| 0 <= i < b.len() implies opens(s, #[trigger] b[i]) by {
        assert(b.contains(b[i]));
    }
    lemma_first_closed(s, a, 0);
    lemma_first_closed(s, b, 0);
    lemma_root(s, bytes("kicad_pcb"@));
    let r = skip_blank(s, 0);
    assert(lex(s, 0, r) == crate::scan::outside());
    lemma_close_is_outside(s, r, block_end(s, r).unwrap());
}

/// A class that is created is found under its name, and says what was asked for.
///
/// The name must need no escapes and be new to the board, the numbers must be words,
/// and no class may reach to the place where classes go.
#[verifier::rlimit(40)]
pub proof fn law_created_class_is_found(u: Seq<char>, c: NetClass, board: Seq<char>)
    requires
        is_document(bytes(u), bytes("kicad_pcb"@)),
        is_plain_class(c),
        created_netclass(bytes(u), c, board) is Ok,
        netclass_at(bytes(u), c.name@).is_none(),
        ends_by(bytes(u), netclass_place(bytes(u)).unwrap(), netclass_place(bytes(u)).unwrap()),
    ensures
        ({
            let t = created_netclass(bytes(u), c, board)->Ok_0;
            let p = netclass_at(t, c.name@).unwrap();
            &&& netclass_at(t, c.name@).is_some()
            &&& block_end(t, p).is_some()
            &&& parse_text(t.subrange(p, block_end(t, p).unwrap())) == Ok::<Sexp, ParseError>(
                netclass_node(c),
            )
        }),
{
    let s = bytes(u);
    let at = netclass_place(s).unwrap();
    let lead = "\n      "@;
    let block = netclass_block(c);
    let ins = bytes(netclass_text(c));
    lemma_class_text(c);
    lemma_class_place(s);
    lemma_class_reads(c);
    reveal_strlit("\n      ");
    lemma_bytes_ascii(lead);
    lemma_bytes_concat(lead, block);
    let l = bytes(lead);
    let bl = bytes(block);
    assert forall|k: int| 0 <= k < l.len() implies blank(#[trigger] l[k]) by {
        assert(l[k] == lead[k] as u8);
        assert(lead[k] == '\n' || lead[k] == ' ');
    }
    assert(ins[0] == l[0]);
    law_one_edit(s, Splice { start: at, end: at, bytes: ins });
    let t = put_in(s, at, ins);
    assert(created_netclass(s, c, board)->Ok_0 == t);
    lemma_ascii_boundary(u, at);
    lemma_put_in_text(u, at, lead + block);
    let d = text_of(s.subrange(0, at)) + (lead + block) + text_of(s.subrange(at, s.len() as int));
    assert(bytes(d) == t);
    assert(put_before(s, t, at, ins));
    lemma_put_bytes(s, t, at, ins);
    let p = at + l.len();
    let e = p + bl.len();
    assert(t.subrange(p, e) =~= bl);
    assert forall|k: int| 0 <= k < bl.len() implies #[trigger] bl[k] == t[k + p] by {}
    lemma_block_moved(bl, t, 0, bl.len() as int, p);
    assert forall|k: int| at <= k < p implies blank(#[trigger] t[k]) by {
        assert(t[k] == l[k - at]);
    }
    lemma_lex_blank(t, 0, at, p);
    assert(lex(t, 0, p) == lex(t, 0, at));
    lemma_netclass_tag();
    lemma_block_tag(block, d, p, "netclass"@);
    assert(text_at(netclass_node(c), 1) == Some(c.name@)) by {
        assert(items_in(netclass_node(c))[1] == Sexp::Str(c.name@));
    }
    assert(class_here(t, p, c.name@));
    lemma_first_class(s, c.name@);
    lemma_none_before(u, d, at, ins, at, c.name@);
    assert forall|q: int| q < p implies !#[trigger] class_here(t, q, c.name@) by {
        if at <= q {
            assert(blank(t[q]));
        } else {
            assert(!class_here(t, q, c.name@));
        }
    }
    lemma_class_is(t, c.name@, p);
}

} // verus!
