//! Moving an end of a wire, told by what the wire reads as afterwards.

#[allow(unused_imports)]
use crate::connectivity::{point_block, wire_edit};
#[allow(unused_imports)]
use crate::edit::{edited, law_one_edit, Splice};
#[allow(unused_imports)]
use crate::field_laws::lemma_enclosing_is;
#[allow(unused_imports)]
use crate::grammar::{
    between, is_word, law_parsed_list_is_a_block, lemma_lex_node, lemma_listing_blank,
    lemma_listing_closes, lemma_listing_opens, lemma_listing_word, lemma_reads_one, reads_node,
};
#[allow(unused_imports)]
use crate::rewriting::{lemma_items_end, lemma_node_moved, lemma_rewrite, lemma_take_apart};
#[allow(unused_imports)]
use crate::scan::{
    balanced_block, block_starts, closes_at, enclosing_block, law_block_starts, lemma_block_end,
    lemma_depth_bound,
    lex, lex_step, opens, outside, tag_opens, OPEN,
};
#[allow(unused_imports)]
use crate::sch_batch::uuid_text;
#[allow(unused_imports)]
use crate::sexp::{ends_atom, parse_items, parse_node, ParseError, Sexp};
#[allow(unused_imports)]
use crate::text::{bytes, first_match, lemma_first_byte, matches_at};
use vstd::prelude::*;
use vstd::string::*;

verus! {

// ─── Blocks by where they open ───────────────────────────────────────────────

/// A block with the tag opens at `p`.
pub open spec fn opens_tag(t: Seq<u8>, p: int, tag: Seq<char>) -> bool {
    opens(t, p) && tag_opens(t, p, bytes(tag))
}

/// The first block with the tag opens at `p`, and is a direct child of the block
/// that `t` is.
pub open spec fn first_child_with(t: Seq<u8>, p: int, tag: Seq<char>) -> bool {
    &&& 0 < p
    &&& opens_tag(t, p, tag)
    &&& lex(t, 0, p).depth == 1
    &&& forall|k: int| 0 <= k < p ==> !(#[trigger] opens_tag(t, k, tag))
}

/// The next block with the tag after the one at `p` opens at `q`, and is a direct
/// child of the block that `t` is.
pub open spec fn next_child_with(t: Seq<u8>, p: int, q: int, tag: Seq<char>) -> bool {
    &&& p < q
    &&& opens_tag(t, q, tag)
    &&& lex(t, 0, q).depth == 1
    &&& forall|k: int| p < k < q ==> !(#[trigger] opens_tag(t, k, tag))
}

/// No block with the tag opens in the text.
pub open spec fn lacks(t: Seq<u8>, tag: Seq<char>) -> bool {
    forall|k: int| 0 <= k < t.len() ==> !(#[trigger] opens_tag(t, k, tag))
}

/// A point as a node.
pub open spec fn point_node(tag: Seq<char>, x: Seq<char>, y: Seq<char>) -> Sexp {
    Sexp::List(seq![Sexp::Atom(tag), Sexp::Atom(x), Sexp::Atom(y)])
}

/// The points of a wire as a node.
pub open spec fn points_node(first: Sexp, second: Sexp) -> Sexp {
    Sexp::List(seq![Sexp::Atom("pts"@), first, second])
}

proof fn lemma_first_start(t: Seq<u8>, p: int, tag: Seq<char>)
    requires
        opens_tag(t, p, tag),
        forall|k: int| 0 <= k < p ==> !(#[trigger] opens_tag(t, k, tag)),
    ensures
        block_starts(t, bytes(tag), t.len() as int).len() > 0,
        block_starts(t, bytes(tag), t.len() as int)[0] == p,
{
    let all = block_starts(t, bytes(tag), t.len() as int);
    law_block_starts(t, bytes(tag), t.len() as int);
    assert(all.contains(p));
    let i = choose|i: int| 0 <= i < all.len() && all[i] == p;
    assert(all.contains(all[0]));
    if i > 0 {
        assert(all[0] < all[i]);
        assert(!opens_tag(t, all[0], tag));
    }
}

proof fn lemma_second_start(t: Seq<u8>, p: int, q: int, tag: Seq<char>)
    requires
        opens_tag(t, p, tag),
        forall|k: int| 0 <= k < p ==> !(#[trigger] opens_tag(t, k, tag)),
        p < q,
        opens_tag(t, q, tag),
        forall|k: int| p < k < q ==> !(#[trigger] opens_tag(t, k, tag)),
    ensures
        block_starts(t, bytes(tag), t.len() as int).len() > 1,
        block_starts(t, bytes(tag), t.len() as int)[1] == q,
{
    let all = block_starts(t, bytes(tag), t.len() as int);
    law_block_starts(t, bytes(tag), t.len() as int);
    lemma_first_start(t, p, tag);
    assert(all.contains(q));
    let i = choose|i: int| 0 <= i < all.len() && all[i] == q;
    assert(i > 0);
    assert(all.contains(all[1]));
    if i > 1 {
        assert(all[0] < all[1]);
        assert(all[1] < all[i]);
        assert(!opens_tag(t, all[1], tag));
    }
}

proof fn lemma_no_start(t: Seq<u8>, tag: Seq<char>)
    requires
        forall|k: int| 0 <= k < t.len() ==> !(#[trigger] opens_tag(t, k, tag)),
    ensures
        block_starts(t, bytes(tag), t.len() as int).len() == 0,
{
    let all = block_starts(t, bytes(tag), t.len() as int);
    law_block_starts(t, bytes(tag), t.len() as int);
    if all.len() > 0 {
        assert(all.contains(all[0]));
        assert(!opens_tag(t, all[0], tag));
    }
}

proof fn lemma_balanced(t: Seq<u8>, p: int, e: int)
    requires
        closes_at(t, p, e),
    ensures
        balanced_block(t, p) == Some((p, e)),
{
    lemma_block_end(t, p, e);
    lemma_first_byte(t, OPEN, p);
}

// ─── Exchanging a child ──────────────────────────────────────────────────────

/// A text that reads as a list reads so wherever it stands.
proof fn lemma_reads_anywhere(t: Seq<u8>, n: Sexp)
    requires
        t.len() > 0,
        t[0] == OPEN,
        parse_node(t, 0) == Ok::<(Sexp, int), ParseError>((n, t.len() as int)),
    ensures
        reads_node(t, n),
{
    assert forall|s: Seq<u8>, i: int| #[trigger] matches_at(s, i, t) implies parse_node(s, i) == Ok::<
        (Sexp, int),
        ParseError,
    >((n, i + t.len())) by {
        assert forall|k: int| 0 <= k < t.len() implies #[trigger] t[k] == s[k + i] by {
            assert(s.subrange(i, i + t.len())[k] == t[k]);
        }
        lemma_node_moved(t, s, 0, i);
    }
}

/// A direct child of a list that is exchanged for another node is exchanged in what
/// the list reads as, and nothing else is.
proof fn lemma_child_exchanged(t: Seq<u8>, v: Seq<Sexp>, p: int, w: Seq<u8>, n: Sexp) -> (r: (int, int))
    requires
        t.len() > 0,
        t[0] == OPEN,
        parse_node(t, 0) == Ok::<(Sexp, int), ParseError>((Sexp::List(v), t.len() as int)),
        0 < p,
        opens(t, p),
        lex(t, 0, p).depth == 1,
        w.len() > 0,
        w[0] == OPEN,
        reads_node(w, n),
    ensures
        ({
            let (k, e) = r;
            let z = t.take(p) + w + t.skip(e);
            &&& 0 <= k < v.len()
            &&& p < e < t.len()
            &&& closes_at(t, p, e)
            &&& parse_node(t, p) == Ok::<(Sexp, int), ParseError>((v[k], e))
            &&& parse_items(t, p) == Ok::<(Seq<Sexp>, int), ParseError>(
                (v.skip(k), t.len() as int),
            )
            &&& z[0] == OPEN
            &&& parse_node(z, 0) == Ok::<(Sexp, int), ParseError>(
                (Sexp::List(v.update(k, n)), z.len() as int),
            )
        }),
{
    assert(lex(t, 0, 0) == outside());
    assert(lex(t, 0, 1) == lex_step(lex(t, 0, 0), t[0]));
    lemma_depth_bound(t, 0, p);
    assert(lex(t, 0, p) == lex(t, 0, 1));
    assert(parse_items(t, 1) == Ok::<(Seq<Sexp>, int), ParseError>((v, t.len() as int)));
    let k = lemma_take_apart(t, 0, 1, p);
    let tail = v.skip(k);
    assert(parse_node(t, p) is Ok);
    let (c, e) = parse_node(t, p)->Ok_0;
    assert(tail.len() > 0 && tail[0] == c);
    law_parsed_list_is_a_block(t, p);
    let rest = parse_items(t, e)->Ok_0.0;
    assert(parse_items(t, e) is Ok);
    assert(tail =~= seq![c] + rest);
    assert(rest =~= tail.skip(1));
    assert(tail.skip(1) =~= v.skip(k + 1));
    lemma_items_end(t, e);
    lemma_reads_one(w, n);
    lemma_rewrite(t, 1, p, e, w, v.take(k), seq![n], rest, t.len() as int);
    assert(v.take(k) + seq![n] + rest =~= v.update(k, n));
    let z = t.take(p) + w + t.skip(e);
    assert(z[0] == t[0]);
    (k, e)
}

/// A point reads as its tag and its numbers.
proof fn lemma_point_reads(tag: Seq<char>, x: Seq<char>, y: Seq<char>)
    requires
        is_word(tag),
        is_word(x),
        is_word(y),
    ensures
        reads_node(bytes(point_block(tag, x, y)), point_node(tag, x, y)),
        bytes(point_block(tag, x, y)).len() > 0,
        bytes(point_block(tag, x, y))[0] == OPEN,
{
    reveal_strlit("(");
    reveal_strlit(" ");
    reveal_strlit(")");
    assert("("@ =~= seq!['(']);
    assert(")"@ =~= seq![')']);
    lemma_listing_opens(tag);
    let n0 = seq![Sexp::Atom(tag)];
    let t0 = "("@ + tag;
    lemma_listing_blank(t0, n0, false, " "@);
    lemma_listing_word(t0 + " "@, n0, x);
    let n1 = n0.push(Sexp::Atom(x));
    let t1 = t0 + " "@ + x;
    lemma_listing_blank(t1, n1, false, " "@);
    lemma_listing_word(t1 + " "@, n1, y);
    let n2 = n1.push(Sexp::Atom(y));
    lemma_listing_closes(t1 + " "@ + y, n2, false);
    assert(n2 =~= seq![Sexp::Atom(tag), Sexp::Atom(x), Sexp::Atom(y)]);
}

proof fn lemma_point_words()
    ensures
        is_word("xy"@),
        is_word("start"@),
        is_word("end"@),
{
    reveal_strlit("xy");
    reveal_strlit("start");
    reveal_strlit("end");
    crate::text::lemma_bytes_ascii("xy"@);
    crate::text::lemma_bytes_ascii("start"@);
    crate::text::lemma_bytes_ascii("end"@);
    assert forall|k: int| 0 <= k < bytes("xy"@).len() implies !ends_atom(#[trigger] bytes("xy"@)[k]) by {
        assert(bytes("xy"@)[k] == "xy"@[k] as u8);
    }
    assert forall|k: int| 0 <= k < bytes("start"@).len() implies !ends_atom(
        #[trigger] bytes("start"@)[k],
    ) by {
        assert(bytes("start"@)[k] == "start"@[k] as u8);
    }
    assert forall|k: int| 0 <= k < bytes("end"@).len() implies !ends_atom(
        #[trigger] bytes("end"@)[k],
    ) by {
        assert(bytes("end"@)[k] == "end"@[k] as u8);
    }
}

// ─── The wire ────────────────────────────────────────────────────────────────

/// The wire with the uuid is the block `a..b`, and reads as the list.
pub open spec fn wire_reads(s: Seq<u8>, uuid: Seq<char>, a: int, b: int, v: Seq<Sexp>) -> bool {
    &&& first_match(s, bytes(uuid_text(uuid)), 0) matches Some(p) && enclosing_block(
        s,
        bytes("wire"@),
        p,
    ) == Some((a, b))
    &&& parse_node(s, a) == Ok::<(Sexp, int), ParseError>((Sexp::List(v), b))
}

proof fn lemma_wire(s: Seq<u8>, uuid: Seq<char>, a: int, b: int, v: Seq<Sexp>)
    requires
        wire_reads(s, uuid, a, b, v),
    ensures
        closes_at(s, a, b),
        s.subrange(a, b)[0] == OPEN,
        parse_node(s.subrange(a, b), 0) == Ok::<(Sexp, int), ParseError>(
            (Sexp::List(v), s.subrange(a, b).len() as int),
        ),
{
    let p = first_match(s, bytes(uuid_text(uuid)), 0)->0;
    lemma_enclosing_is(s, bytes("wire"@), p, p);
    law_parsed_list_is_a_block(s, a);
    let t = s.subrange(a, b);
    assert forall|k: int| a <= k < b implies #[trigger] s[k] == t[k - a] by {}
    lemma_node_moved(s, t, a, -a);
}

/// Putting the exchanged wire back into the schematic.
proof fn lemma_wire_back(s: Seq<u8>, a: int, b: int, p: int, e: int, w: Seq<u8>, n: Sexp)
    requires
        0 <= a <= b <= s.len(),
        0 <= p <= e <= b - a,
        ({
            let t = s.subrange(a, b);
            let z = t.take(p) + w + t.skip(e);
            z.len() > 0 && z[0] == OPEN && parse_node(z, 0) == Ok::<(Sexp, int), ParseError>(
                (n, z.len() as int),
            )
        }),
    ensures
        parse_node(edited(s, seq![Splice { start: a + p, end: a + e, bytes: w }]), a) == Ok::<
            (Sexp, int),
            ParseError,
        >((n, b - (e - p) + w.len())),
{
    let t = s.subrange(a, b);
    let z = t.take(p) + w + t.skip(e);
    law_one_edit(s, Splice { start: a + p, end: a + e, bytes: w });
    let u = s.take(a + p) + w + s.skip(a + e);
    lemma_reads_anywhere(z, n);
    assert(u.subrange(a, a + z.len()) =~= z);
    assert(matches_at(u, a, z));
}

/// Exchanging one of the two points of a wire.
proof fn lemma_points_exchanged(
    u: Seq<u8>,
    first: Sexp,
    second: Sexp,
    p0: int,
    p1: int,
    is_start: bool,
    x: Seq<char>,
    y: Seq<char>,
) -> (r: (int, int))
    requires
        u.len() > 0,
        u[0] == OPEN,
        parse_node(u, 0) == Ok::<(Sexp, int), ParseError>(
            (points_node(first, second), u.len() as int),
        ),
        first_child_with(u, p0, "xy"@),
        next_child_with(u, p0, p1, "xy"@),
        is_word(x),
        is_word(y),
    ensures
        ({
            let (o, g) = r;
            let w = bytes(point_block("xy"@, x, y));
            let new = point_node("xy"@, x, y);
            let z = u.take(o) + w + u.skip(g);
            let n = if is_start {
                0int
            } else {
                1
            };
            &&& 0 < o < g < u.len()
            &&& block_starts(u, bytes("xy"@), u.len() as int).len() > n
            &&& balanced_block(u, block_starts(u, bytes("xy"@), u.len() as int)[n]) == Some((o, g))
            &&& z[0] == OPEN
            &&& parse_node(z, 0) == Ok::<(Sexp, int), ParseError>(
                (
                    if is_start {
                        points_node(new, second)
                    } else {
                        points_node(first, new)
                    },
                    z.len() as int,
                ),
            )
        }),
{
    lemma_point_words();
    let w = bytes(point_block("xy"@, x, y));
    let new = point_node("xy"@, x, y);
    lemma_point_reads("xy"@, x, y);
    let ns = seq![Sexp::Atom("pts"@), first, second];
    let (k0, e0) = lemma_child_exchanged(u, ns, p0, w, new);
    let (k1, e1) = lemma_child_exchanged(u, ns, p1, w, new);
    lemma_first_start(u, p0, "xy"@);
    lemma_second_start(u, p0, p1, "xy"@);
    lemma_balanced(u, p0, e0);
    lemma_balanced(u, p1, e1);
    lemma_depth_bound(u, 0, p0);
    lemma_depth_bound(u, 0, p1);
    lemma_later_child(u, ns, p0, k0, e0, p1, k1);
    assert(ns[0] is Atom);
    assert(k0 == 1 && k1 == 2);
    assert(ns.update(1, new) =~= seq![Sexp::Atom("pts"@), new, second]);
    assert(ns.update(2, new) =~= seq![Sexp::Atom("pts"@), first, new]);
    if is_start {
        (p0, e0)
    } else {
        (p1, e1)
    }
}

/// Moving an end of a wire with `(pts (xy A B) (xy C D))`: the first point is its
/// start and the second its end. The named end reads as the new point, and the
/// other end and the rest of the wire as before.
#[verifier::spinoff_prover]
#[verifier::rlimit(60)]
pub proof fn law_moved_end_reads_back(
    s: Seq<u8>,
    uuid: Seq<char>,
    a: int,
    b: int,
    v: Seq<Sexp>,
    q: int,
    f: int,
    p0: int,
    p1: int,
    first: Sexp,
    second: Sexp,
    is_start: bool,
    x: Seq<char>,
    y: Seq<char>,
) -> (k: int)
    requires
        wire_reads(s, uuid, a, b, v),
        first_child_with(s.subrange(a, b), q, "pts"@),
        parse_node(s.subrange(a, b), q) == Ok::<(Sexp, int), ParseError>(
            (points_node(first, second), f),
        ),
        first_child_with(s.subrange(a + q, a + f), p0, "xy"@),
        next_child_with(s.subrange(a + q, a + f), p0, p1, "xy"@),
        is_word(x),
        is_word(y),
    ensures
        0 <= k < v.len(),
        v[k] == points_node(first, second),
        wire_edit(s, uuid, is_start, x, y) matches Some(e) && ({
            let now = points_node(
                if is_start {
                    point_node("xy"@, x, y)
                } else {
                    first
                },
                if is_start {
                    second
                } else {
                    point_node("xy"@, x, y)
                },
            );
            &&& a < e.start <= e.end < b
            &&& parse_node(edited(s, seq![e]), a) == Ok::<(Sexp, int), ParseError>(
                (Sexp::List(v.update(k, now)), b - (e.end - e.start) + e.bytes.len()),
            )
        }),
{
    lemma_wire(s, uuid, a, b, v);
    let t = s.subrange(a, b);
    lemma_point_words();
    let w = bytes(point_block("xy"@, x, y));
    let new = point_node("xy"@, x, y);
    lemma_point_reads("xy"@, x, y);
    let (k, e) = lemma_child_exchanged(t, v, q, w, new);
    assert(e == f);
    lemma_first_start(t, q, "pts"@);
    lemma_balanced(t, q, f);
    let u = t.subrange(q, f);
    assert(u =~= s.subrange(a + q, a + f));
    assert forall|i: int| q <= i < f implies #[trigger] t[i] == u[i - q] by {}
    lemma_node_moved(t, u, q, -q);
    let (o, g) = lemma_points_exchanged(u, first, second, p0, p1, is_start, x, y);
    let now = if is_start {
        points_node(new, second)
    } else {
        points_node(first, new)
    };
    let z = u.take(o) + w + u.skip(g);
    lemma_reads_anywhere(z, now);
    let (k2, e2) = lemma_child_exchanged(t, v, q, z, now);
    assert(v.skip(k) == v.skip(k2));
    assert(k == k2);
    assert(t.take(q + o) + w + t.skip(q + g) =~= t.take(q) + z + t.skip(f));
    lemma_wire_back(s, a, b, q + o, q + g, w, Sexp::List(v.update(k, now)));
    k
}

/// Of two children the one that opens later comes later in what the list reads as.
proof fn lemma_later_child(t: Seq<u8>, v: Seq<Sexp>, p: int, k: int, e: int, q: int, m: int)
    requires
        0 <= p < q < t.len(),
        0 <= k < v.len(),
        0 <= m < v.len(),
        t[p] == OPEN,
        t[q] == OPEN,
        lex(t, 0, p) == lex(t, 0, q),
        between(lex(t, 0, p)),
        lex(t, 0, p).depth > 0,
        parse_node(t, p) == Ok::<(Sexp, int), ParseError>((v[k], e)),
        parse_items(t, p) == Ok::<(Seq<Sexp>, int), ParseError>((v.skip(k), t.len() as int)),
        parse_node(t, q) is Ok,
        parse_node(t, q)->Ok_0.0 == v[m],
        parse_items(t, q) == Ok::<(Seq<Sexp>, int), ParseError>((v.skip(m), t.len() as int)),
    ensures
        k < m,
        v[k] is List,
        v[m] is List,
{
    let j = lemma_take_apart(t, 0, p, q);
    assert(v.skip(k).skip(j).len() == v.skip(m).len());
    if j == 0 {
        lemma_lex_node(t, 0, p);
        law_parsed_list_is_a_block(t, p);
        lemma_take_apart_moves(t, v.skip(k), p, q);
    }
}

/// A list that is followed past a node has fewer nodes left.
proof fn lemma_take_apart_moves(t: Seq<u8>, v: Seq<Sexp>, p: int, q: int)
    requires
        0 <= p < q < t.len(),
        t[p] == OPEN,
        t[q] == OPEN,
        lex(t, 0, p) == lex(t, 0, q),
        between(lex(t, 0, p)),
        lex(t, 0, p).depth > 0,
        parse_items(t, p) == Ok::<(Seq<Sexp>, int), ParseError>((v, t.len() as int)),
    ensures
        parse_items(t, q) is Ok,
        parse_items(t, q)->Ok_0.0.len() < v.len(),
{
    let e = parse_node(t, p)->Ok_0.1;
    lemma_lex_node(t, 0, p);
    if q < e {
        assert(lex(t, 0, q).depth > lex(t, 0, p).depth);
    }
    assert(parse_items(t, e) is Ok);
    let _ = lemma_take_apart(t, 0, e, q);
}

/// Moving an end of a wire with `(start A B)` and `(end C D)`, as older files have
/// it: the named end reads as the new point, and the rest of the wire as before.
pub proof fn law_moved_end_of_older_wire_reads_back(
    s: Seq<u8>,
    uuid: Seq<char>,
    a: int,
    b: int,
    v: Seq<Sexp>,
    p: int,
    is_start: bool,
    x: Seq<char>,
    y: Seq<char>,
) -> (k: int)
    requires
        wire_reads(s, uuid, a, b, v),
        lacks(s.subrange(a, b), "pts"@),
        first_child_with(
            s.subrange(a, b),
            p,
            if is_start {
                "start"@
            } else {
                "end"@
            },
        ),
        is_word(x),
        is_word(y),
    ensures
        0 <= k < v.len(),
        parse_items(s.subrange(a, b), p) == Ok::<(Seq<Sexp>, int), ParseError>((v.skip(k), b - a)),
        wire_edit(s, uuid, is_start, x, y) matches Some(e) && ({
            let now = if is_start {
                point_node("start"@, x, y)
            } else {
                point_node("end"@, x, y)
            };
            &&& e.start == a + p
            &&& e.start <= e.end < b
            &&& parse_node(edited(s, seq![e]), a) == Ok::<(Sexp, int), ParseError>(
                (Sexp::List(v.update(k, now)), b - (e.end - e.start) + e.bytes.len()),
            )
        }),
{
    lemma_wire(s, uuid, a, b, v);
    let t = s.subrange(a, b);
    lemma_no_start(t, "pts"@);
    lemma_point_words();
    let tag = if is_start {
        "start"@
    } else {
        "end"@
    };
    let w = bytes(point_block(tag, x, y));
    lemma_point_reads(tag, x, y);
    let (k, e) = lemma_child_exchanged(t, v, p, w, point_node(tag, x, y));
    lemma_first_start(t, p, tag);
    lemma_balanced(t, p, e);
    lemma_wire_back(s, a, b, p, e, w, Sexp::List(v.update(k, point_node(tag, x, y))));
    k
}

/// A wire that is not there, or that has neither points nor the named end, is not
/// moved.
pub proof fn law_missing_end_is_not_moved(
    s: Seq<u8>,
    uuid: Seq<char>,
    a: int,
    b: int,
    v: Seq<Sexp>,
    x: Seq<char>,
    y: Seq<char>,
)
    ensures
        first_match(s, bytes(uuid_text(uuid)), 0) is None ==> wire_edit(s, uuid, true, x, y) is None
            && wire_edit(s, uuid, false, x, y) is None,
        wire_reads(s, uuid, a, b, v) && lacks(s.subrange(a, b), "pts"@) && lacks(
            s.subrange(a, b),
            "start"@,
        ) ==> wire_edit(s, uuid, true, x, y) is None,
        wire_reads(s, uuid, a, b, v) && lacks(s.subrange(a, b), "pts"@) && lacks(
            s.subrange(a, b),
            "end"@,
        ) ==> wire_edit(s, uuid, false, x, y) is None,
{
    if wire_reads(s, uuid, a, b, v) && lacks(s.subrange(a, b), "pts"@) {
        lemma_wire(s, uuid, a, b, v);
        let t = s.subrange(a, b);
        lemma_no_start(t, "pts"@);
        if lacks(t, "start"@) {
            lemma_no_start(t, "start"@);
        }
        if lacks(t, "end"@) {
            lemma_no_start(t, "end"@);
        }
    }
}

} // verus!
