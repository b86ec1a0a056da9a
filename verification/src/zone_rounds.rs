//! A zone put on one net after another: the last one counts.

use crate::blocks::{children, law_children_are_direct};
use crate::deletion::lemma_one_tag;
use crate::edit::{edited, edits_fit, law_one_edit, law_two_edits, lemma_two_edits_back, Splice};
use crate::fields::{lemma_tag_is_word, text_field};
use crate::grammar::{is_plain, lemma_list_text};
use crate::exchange::lemma_named_item;
use crate::items::item_named;
use crate::moving::lemma_children_order;
use crate::net::{net_on_board, Net};
use crate::placing::{is_tag, lemma_block_tag};
use crate::scan::{
    closes_at, is_document, lemma_block_cuttable, lex, lex_step, outside, tag_opens,
};
use crate::substitution::{
    lemma_swap_bytes, lemma_swap_children, lemma_swap_closes, lemma_swap_tag, lemma_swap_text, moved,
    moved_all, swap, swaps,
};
use crate::text::{bytes, text_of};
use crate::undo::{lemma_has_tag, lemma_leads, lemma_net_field};
use crate::zone_laws::{law_zone_net_reads_back, readable};
use crate::zone_net::{direct_child, label_text, tag_child, zone_net_splices, zone_on_net};
use vstd::prelude::*;

verus! {

// ─── A field exchanged ───────────────────────────────────────────────────────

/// A range after an exchange.
pub open spec fn moved_pair(r: Option<(int, int)>, a: int, b: int, n: int) -> Option<(int, int)> {
    match r {
        Some((x, y)) => Some((moved(x, a, b, n), moved(y, a, b, n))),
        None => None,
    }
}

proof fn lemma_same_child_tags(
    s: Seq<u8>,
    t: Seq<u8>,
    kids: Seq<(int, int)>,
    a: int,
    b: int,
    n: int,
    tag: Seq<u8>,
    k: int,
)
    requires
        0 <= k,
        forall|i: int|
            0 <= i < kids.len() ==> tag_opens(s, (#[trigger] kids[i]).0, tag) == tag_opens(
                t,
                moved(kids[i].0, a, b, n),
                tag,
            ),
    ensures
        tag_child(t, moved_all(kids, a, b, n), tag, k) == moved_pair(tag_child(s, kids, tag, k), a, b, n),
    decreases kids.len() - k,
{
    if k < kids.len() {
        assert(moved_all(kids, a, b, n)[k].0 == moved(kids[k].0, a, b, n));
        lemma_same_child_tags(s, t, kids, a, b, n, tag, k + 1);
    }
}

/// Exchanging a field for another of its tag leaves the fields what they were.
proof fn lemma_field_exchanged(
    c: Seq<char>,
    w: Seq<char>,
    st: int,
    e: int,
    m: int,
    own: Seq<char>,
    tag: Seq<char>,
)
    requires
        closes_at(bytes(c), st, e),
        0 <= m < children(bytes(c), st, e).len(),
        closes_at(bytes(w), 0, bytes(w).len() as int),
        tag_opens(bytes(c), children(bytes(c), st, e)[m].0, bytes(own)),
        tag_opens(bytes(w), 0, bytes(own)),
        is_tag(own),
        is_tag(tag),
    ensures
        ({
            let s = bytes(c);
            let (a, b) = children(s, st, e)[m];
            let n = bytes(w).len() as int;
            let t = swap(s, a, b, bytes(w));
            &&& swaps(s, a, b, bytes(w))
            &&& st < a < b < e
            &&& bytes(text_of(t)) == t
            &&& closes_at(t, st, moved(e, a, b, n))
            &&& children(t, st, moved(e, a, b, n)) == moved_all(children(s, st, e), a, b, n)
            &&& tag_opens(t, a, bytes(own))
            &&& direct_child(t, st, moved(e, a, b, n), tag) == moved_pair(
                direct_child(s, st, e, tag),
                a,
                b,
                n,
            )
        }),
{
    let s = bytes(c);
    let kids = children(s, st, e);
    let (a, b) = kids[m];
    let wb = bytes(w);
    let n = wb.len() as int;
    let t = swap(s, a, b, wb);
    assert(lex(s, st, st) == outside());
    assert(lex(s, st, st + 1) == lex_step(lex(s, st, st), s[st]));
    law_children_are_direct(s, st, st + 1, e);
    lemma_children_order(s, st, st + 1, e);
    assert(kids[m].0 == a);
    crate::scan::lemma_depth_bound(s, st, a);
    lemma_swap_bytes(s, a, b, wb);
    lemma_swap_text(c, a, b, w);
    let d = text_of(t);
    lemma_swap_children(s, a, b, wb, st, st + 1, e);
    lemma_swap_closes(s, a, b, wb, st, e);
    assert(t.subrange(a, a + n) =~= wb);
    lemma_block_tag(w, d, a, own);
    let g = bytes(tag);
    assert forall|i: int| 0 <= i < kids.len() implies tag_opens(s, (#[trigger] kids[i]).0, g) == tag_opens(
        t,
        moved(kids[i].0, a, b, n),
        g,
    ) by {
        let q = kids[i].0;
        if i == m {
            if tag_opens(s, a, g) {
                lemma_one_tag(c, a, own, tag);
            }
            if tag_opens(t, a, g) {
                lemma_one_tag(d, a, own, tag);
            }
        } else {
            if i < m {
                assert(kids[i].1 <= kids[m].0);
            } else {
                assert(kids[m].1 <= kids[i].0);
            }
            assert(closes_at(s, q, kids[i].1));
            lemma_swap_tag(c, a, b, w, q, tag);
        }
    }
    lemma_same_child_tags(s, t, kids, a, b, n, g, 0);
}

/// A field that is found is one of the fields, and has its tag.
proof fn lemma_found_child(s: Seq<u8>, kids: Seq<(int, int)>, tag: Seq<u8>, k: int) -> (m: int)
    requires
        0 <= k,
        tag_child(s, kids, tag, k).is_some(),
    ensures
        k <= m < kids.len(),
        tag_child(s, kids, tag, k) == Some(kids[m]),
        tag_opens(s, kids[m].0, tag),
    decreases kids.len() - k,
{
    if tag_opens(s, kids[k].0, tag) {
        k
    } else {
        lemma_found_child(s, kids, tag, k + 1)
    }
}

// ─── The fields of a net ─────────────────────────────────────────────────────

proof fn lemma_net_tags()
    ensures
        is_tag("net"@),
        is_tag("net_name"@),
        "net"@ != "net_name"@,
{
    reveal_strlit("net");
    reveal_strlit("net_name");
    lemma_tag_is_word("net"@);
    lemma_tag_is_word("net_name"@);
    assert("net"@.len() != "net_name"@.len());
}

/// The net field is a `(net …)` block.
proof fn lemma_net_block(n: Net)
    requires
        is_plain(n.name()),
    ensures
        closes_at(bytes(n.track_field()), 0, bytes(n.track_field()).len() as int),
        tag_opens(bytes(n.track_field()), 0, bytes("net"@)),
{
    reveal_strlit("(");
    reveal_strlit(" ");
    reveal_strlit("net");
    lemma_net_tags();
    lemma_leads();
    lemma_net_field(n);
    lemma_list_text(bytes(n.track_field()), crate::undo::net_node(n));
    let rest = match n {
        Net::Named(name) => crate::fields::in_marks(name) + ")"@,
        Net::Numbered(id, _) => crate::chars::signed_decimal(id) + ")"@,
    };
    assert(n.track_field() =~= seq!['('] + "net"@ + " "@ + rest);
    lemma_has_tag(n.track_field(), "net"@, " "@, rest);
}

/// The label is a `(net_name …)` block.
proof fn lemma_label_block(n: Net)
    requires
        n is Numbered,
        is_plain(n.name()),
    ensures
        label_text(n).is_some(),
        closes_at(bytes(label_text(n).unwrap()), 0, bytes(label_text(n).unwrap()).len() as int),
        tag_opens(bytes(label_text(n).unwrap()), 0, bytes("net_name"@)),
{
    reveal_strlit("(net_name \"");
    reveal_strlit("\")");
    reveal_strlit("net_name");
    reveal_strlit("(");
    reveal_strlit(")");
    reveal_strlit(" ");
    reveal_strlit("\"");
    lemma_net_tags();
    lemma_leads();
    lemma_tag_is_word("net_name"@);
    crate::fields::lemma_text_field("net_name"@, n.name());
    let t = label_text(n).unwrap();
    assert(t =~= text_field("net_name"@, n.name()));
    lemma_list_text(bytes(t), crate::zone_laws::label_node(n.name()));
    let rest = crate::fields::in_marks(n.name()) + ")"@;
    assert(t =~= seq!['('] + "net_name"@ + " "@ + rest);
    lemma_has_tag(t, "net_name"@, " "@, rest);
}

// ─── One net after another ───────────────────────────────────────────────────

/// The zone has its net in the form of `n`: a net field, and a label just where the net
/// has a number.
pub open spec fn in_form(s: Seq<u8>, st: int, e: int, n: Net) -> bool {
    &&& direct_child(s, st, e, "net"@).is_some()
    &&& n is Numbered <==> direct_child(s, st, e, "net_name"@).is_some()
}

/// The file with the zone on the net.
pub open spec fn on(s: Seq<u8>, st: int, e: int, n: Net, board: Seq<char>) -> Seq<u8> {
    edited(s, zone_net_splices(s, st, e, n, board)->Ok_0)
}

/// A named net: the one field.
proof fn lemma_named_turn(c: Seq<char>, st: int, e: int, n: Net, m: Net, board: Seq<char>)
    requires
        closes_at(bytes(c), st, e),
        in_form(bytes(c), st, e, n),
        n is Named,
        m is Named,
        is_plain(n.name()),
    ensures
        ({
            let s = bytes(c);
            let t = on(s, st, e, n, board);
            let f = e + t.len() - s.len();
            &&& zone_net_splices(s, st, e, n, board) is Ok
            &&& closes_at(t, st, f)
            &&& in_form(t, st, f, m)
            &&& on(t, st, f, m, board) == on(s, st, e, m, board)
        }),
{
    let s = bytes(c);
    let kids = children(s, st, e);
    let i = lemma_found_child(s, kids, bytes("net"@), 0);
    let (a, b) = kids[i];
    let w = bytes(n.track_field());
    let x = bytes(m.track_field());
    lemma_net_tags();
    lemma_net_block(n);
    lemma_field_exchanged(c, n.track_field(), st, e, i, "net"@, "net"@);
    lemma_field_exchanged(c, n.track_field(), st, e, i, "net"@, "net_name"@);
    law_one_edit(s, Splice { start: a, end: b, bytes: w });
    law_one_edit(s, Splice { start: a, end: b, bytes: x });
    let t = swap(s, a, b, w);
    assert(on(s, st, e, n, board) == t);
    let k = a + w.len();
    assert(moved(b, a, b, w.len() as int) == k);
    law_one_edit(t, Splice { start: a, end: k, bytes: x });
    assert(t.take(a) =~= s.take(a));
    assert(t.skip(k) =~= s.skip(b));
}

/// What both fields become, wherever the label stands.
proof fn lemma_two_fields(s: Seq<u8>, a: int, b: int, p: int, q: int, x: Seq<u8>, y: Seq<u8>)
    requires
        0 <= a < b <= s.len(),
        0 <= p < q <= s.len(),
        b <= p || q <= a,
    ensures
        edited(
            s,
            seq![Splice { start: a, end: b, bytes: x }, Splice { start: p, end: q, bytes: y }],
        ) == if b <= p {
            s.take(a) + x + s.subrange(b, p) + y + s.skip(q)
        } else {
            s.take(p) + y + s.subrange(q, a) + x + s.skip(b)
        },
{
    let f = Splice { start: a, end: b, bytes: x };
    let l = Splice { start: p, end: q, bytes: y };
    if b <= p {
        law_two_edits(s, f, l);
    } else {
        lemma_two_edits_back(s, f, l);
    }
}

/// Two pieces exchanged and exchanged again.
proof fn lemma_pieces_again(
    s: Seq<u8>,
    a: int,
    b: int,
    p: int,
    q: int,
    x: Seq<u8>,
    y: Seq<u8>,
    u: Seq<u8>,
    v: Seq<u8>,
)
    requires
        0 <= a < b <= p < q <= s.len(),
    ensures
        ({
            let t = s.take(a) + x + s.subrange(b, p) + y + s.skip(q);
            let b2 = a + x.len();
            let p2 = p - b + a + x.len();
            let q2 = p2 + y.len();
            &&& t.len() == s.len() - (b - a) - (q - p) + x.len() + y.len()
            &&& t.take(a) + u + t.subrange(b2, p2) + v + t.skip(q2) == s.take(a) + u + s.subrange(b, p) + v
                + s.skip(q)
            &&& t == swap(swap(s, a, b, x), p - b + a + x.len(), q - b + a + x.len(), y)
            &&& t == swap(swap(s, p, q, y), a, b, x)
        }),
{
    let t = s.take(a) + x + s.subrange(b, p) + y + s.skip(q);
    let b2 = a + x.len();
    let p2 = p - b + a + x.len();
    let q2 = p2 + y.len();
    assert(t.take(a) =~= s.take(a));
    assert(t.subrange(b2, p2) =~= s.subrange(b, p));
    assert(t.skip(q2) =~= s.skip(q));
    let one = swap(s, a, b, x);
    assert(t =~= swap(one, p2, q - b + a + x.len(), y));
    let two = swap(s, p, q, y);
    assert(t =~= swap(two, a, b, x));
}

/// A numbered net: the field and the label.
#[verifier::rlimit(40)]
proof fn lemma_numbered_turn(c: Seq<char>, st: int, e: int, n: Net, m: Net, board: Seq<char>)
    requires
        closes_at(bytes(c), st, e),
        in_form(bytes(c), st, e, n),
        n is Numbered,
        m is Numbered,
        is_plain(n.name()),
    ensures
        ({
            let s = bytes(c);
            let t = on(s, st, e, n, board);
            let f = e + t.len() - s.len();
            &&& zone_net_splices(s, st, e, n, board) is Ok
            &&& closes_at(t, st, f)
            &&& in_form(t, st, f, m)
            &&& on(t, st, f, m, board) == on(s, st, e, m, board)
        }),
{
    let s = bytes(c);
    let kids = children(s, st, e);
    let i = lemma_found_child(s, kids, bytes("net"@), 0);
    let j = lemma_found_child(s, kids, bytes("net_name"@), 0);
    let (a, b) = kids[i];
    let (p, q) = kids[j];
    let field = n.track_field();
    let label = label_text(n).unwrap();
    let x = bytes(field);
    let y = bytes(label);
    let u = bytes(m.track_field());
    let v = bytes(label_text(m).unwrap());
    lemma_net_tags();
    lemma_net_block(n);
    lemma_label_block(n);
    lemma_apart(c, st, e, i, j);
    lemma_two_fields(s, a, b, p, q, x, y);
    lemma_two_fields(s, a, b, p, q, u, v);
    let t = on(s, st, e, n, board);
    let f = e + t.len() - s.len();
    if b <= p {
        lemma_pieces_again(s, a, b, p, q, x, y, u, v);
        lemma_both_exchanged(c, field, label, st, e, i, j, "net"@, "net_name"@);
        let b2 = a + x.len();
        let p2 = p - b + a + x.len();
        lemma_two_fields(t, a, b2, p2, p2 + y.len(), u, v);
    } else {
        lemma_pieces_again(s, p, q, a, b, y, x, v, u);
        lemma_both_exchanged(c, label, field, st, e, j, i, "net_name"@, "net"@);
        let q2 = p + y.len();
        let a2 = a - q + p + y.len();
        lemma_two_fields(t, a2, a2 + x.len(), p, q2, u, v);
    }
}

/// Two fields of different tags stand apart.
proof fn lemma_apart(c: Seq<char>, st: int, e: int, i: int, j: int)
    requires
        closes_at(bytes(c), st, e),
        0 <= i < children(bytes(c), st, e).len(),
        0 <= j < children(bytes(c), st, e).len(),
        tag_opens(bytes(c), children(bytes(c), st, e)[i].0, bytes("net"@)),
        tag_opens(bytes(c), children(bytes(c), st, e)[j].0, bytes("net_name"@)),
    ensures
        ({
            let (a, b) = children(bytes(c), st, e)[i];
            let (p, q) = children(bytes(c), st, e)[j];
            &&& st < a < b < e
            &&& st < p < q < e
            &&& e <= bytes(c).len()
            &&& b <= p && i < j || q <= a && j < i
        }),
{
    let s = bytes(c);
    let kids = children(s, st, e);
    assert(lex(s, st, st) == outside());
    assert(lex(s, st, st + 1) == lex_step(lex(s, st, st), s[st]));
    law_children_are_direct(s, st, st + 1, e);
    lemma_children_order(s, st, st + 1, e);
    lemma_net_tags();
    if i == j {
        lemma_one_tag(c, kids[i].0, "net"@, "net_name"@);
    }
    assert(closes_at(s, kids[i].0, kids[i].1) && closes_at(s, kids[j].0, kids[j].1));
}

/// The second of two fields exchanged: the first is found where it was.
proof fn lemma_second_exchanged(
    c: Seq<char>,
    second: Seq<char>,
    st: int,
    e: int,
    i: int,
    j: int,
    g: Seq<char>,
    h: Seq<char>,
)
    requires
        closes_at(bytes(c), st, e),
        0 <= i < children(bytes(c), st, e).len(),
        0 <= j < children(bytes(c), st, e).len(),
        children(bytes(c), st, e)[i].1 <= children(bytes(c), st, e)[j].0,
        children(bytes(c), st, e)[i].0 < children(bytes(c), st, e)[i].1,
        direct_child(bytes(c), st, e, g) == Some(children(bytes(c), st, e)[i]),
        direct_child(bytes(c), st, e, h) == Some(children(bytes(c), st, e)[j]),
        tag_opens(bytes(c), children(bytes(c), st, e)[j].0, bytes(h)),
        closes_at(bytes(second), 0, bytes(second).len() as int),
        tag_opens(bytes(second), 0, bytes(h)),
        is_tag(g),
        is_tag(h),
    ensures
        ({
            let s = bytes(c);
            let (a, b) = children(s, st, e)[i];
            let (p, q) = children(s, st, e)[j];
            let y = bytes(second);
            let t = swap(s, p, q, y);
            let f = e - q + p + y.len();
            &&& bytes(text_of(t)) == t
            &&& q < e
            &&& p < q
            &&& t.len() == s.len() - q + p + y.len()
            &&& closes_at(t, st, f)
            &&& i < children(t, st, f).len()
            &&& children(t, st, f)[i] == (a, b)
            &&& tag_opens(t, a, bytes(g))
            &&& direct_child(t, st, f, g) == Some((a, b))
            &&& direct_child(t, st, f, h) == Some((p, p + y.len()))
        }),
{
    let s = bytes(c);
    let kids = children(s, st, e);
    let (a, b) = kids[i];
    let (p, q) = kids[j];
    let y = bytes(second);
    lemma_field_exchanged(c, second, st, e, j, h, g);
    lemma_field_exchanged(c, second, st, e, j, h, h);
    let t = swap(s, p, q, y);
    let f = e - q + p + y.len();
    let mine = children(t, st, f);
    assert(mine[i] == (a, b));
    let k = lemma_found_child(t, mine, bytes(g), 0);
    assert(mine[k] == (a, b));
}

/// Two fields exchanged, the first before the second: both are found where they stand
/// now.
proof fn lemma_both_exchanged(
    c: Seq<char>,
    first: Seq<char>,
    second: Seq<char>,
    st: int,
    e: int,
    i: int,
    j: int,
    g: Seq<char>,
    h: Seq<char>,
)
    requires
        closes_at(bytes(c), st, e),
        0 <= i < children(bytes(c), st, e).len(),
        0 <= j < children(bytes(c), st, e).len(),
        children(bytes(c), st, e)[i].1 <= children(bytes(c), st, e)[j].0,
        children(bytes(c), st, e)[i].0 < children(bytes(c), st, e)[i].1,
        direct_child(bytes(c), st, e, g) == Some(children(bytes(c), st, e)[i]),
        direct_child(bytes(c), st, e, h) == Some(children(bytes(c), st, e)[j]),
        tag_opens(bytes(c), children(bytes(c), st, e)[j].0, bytes(h)),
        closes_at(bytes(first), 0, bytes(first).len() as int),
        closes_at(bytes(second), 0, bytes(second).len() as int),
        tag_opens(bytes(first), 0, bytes(g)),
        tag_opens(bytes(second), 0, bytes(h)),
        is_tag(g),
        is_tag(h),
    ensures
        ({
            let s = bytes(c);
            let (a, b) = children(s, st, e)[i];
            let (p, q) = children(s, st, e)[j];
            let x = bytes(first);
            let y = bytes(second);
            let t = swap(swap(s, p, q, y), a, b, x);
            let f = e - q + p + y.len() - b + a + x.len();
            let p2 = p - b + a + x.len();
            &&& closes_at(t, st, f)
            &&& t.len() == s.len() - q + p + y.len() - b + a + x.len()
            &&& direct_child(t, st, f, g) == Some((a, a + x.len()))
            &&& direct_child(t, st, f, h) == Some((p2, p2 + y.len()))
        }),
{
    let s = bytes(c);
    let kids = children(s, st, e);
    let (p, q) = kids[j];
    let y = bytes(second);
    lemma_second_exchanged(c, second, st, e, i, j, g, h);
    let one = swap(s, p, q, y);
    let d = text_of(one);
    let e1 = e - q + p + y.len();
    lemma_field_exchanged(d, first, st, e1, i, g, g);
    lemma_field_exchanged(d, first, st, e1, i, g, h);
}

/// A zone that is put on one net and then on another is as if it had been put on the
/// last one at once. Put on the same net twice, it is as after the first time; put back
/// on the net it was on, it is as before, wherever its fields were written the way they
/// are written here.
///
/// Both nets must be of the board's one form, and the zone must have its fields in that
/// form.
pub proof fn law_last_net_counts(c: Seq<char>, st: int, e: int, n: Net, m: Net, board: Seq<char>)
    requires
        closes_at(bytes(c), st, e),
        in_form(bytes(c), st, e, n),
        n is Named <==> m is Named,
        is_plain(n.name()),
    ensures
        ({
            let s = bytes(c);
            let t = on(s, st, e, n, board);
            let f = e + t.len() - s.len();
            &&& zone_net_splices(s, st, e, n, board) is Ok
            &&& closes_at(t, st, f)
            &&& zone_net_splices(t, st, f, m, board) is Ok
            &&& on(t, st, f, m, board) == on(s, st, e, m, board)
            &&& on(t, st, f, n, board) == t
            &&& on(s, st, e, m, board) == s ==> on(t, st, f, m, board) == s
        }),
{
    match n {
        Net::Named(_) => {
            lemma_named_turn(c, st, e, n, m, board);
            lemma_named_turn(c, st, e, n, n, board);
        },
        Net::Numbered(_, _) => {
            lemma_numbered_turn(c, st, e, n, m, board);
            lemma_numbered_turn(c, st, e, n, n, board);
        },
    }
}

/// What is asked of a zone that has its fields in the form of a net fits in the file.
proof fn lemma_fits(c: Seq<char>, st: int, e: int, n: Net, board: Seq<char>)
    requires
        closes_at(bytes(c), st, e),
        in_form(bytes(c), st, e, n),
    ensures
        zone_net_splices(bytes(c), st, e, n, board) is Ok,
        edits_fit(bytes(c), zone_net_splices(bytes(c), st, e, n, board)->Ok_0),
{
    let s = bytes(c);
    let kids = children(s, st, e);
    let i = lemma_found_child(s, kids, bytes("net"@), 0);
    assert(lex(s, st, st) == outside());
    assert(lex(s, st, st + 1) == lex_step(lex(s, st, st), s[st]));
    law_children_are_direct(s, st, st + 1, e);
    assert(closes_at(s, kids[i].0, kids[i].1));
    lemma_block_cuttable(c, kids[i].0, kids[i].1);
    if n is Numbered {
        let j = lemma_found_child(s, kids, bytes("net_name"@), 0);
        assert(closes_at(s, kids[j].0, kids[j].1));
        lemma_block_cuttable(c, kids[j].0, kids[j].1);
        lemma_apart(c, st, e, i, j);
    }
}

/// Putting a zone on the net that it was just put on changes nothing.
///
/// It is asked of the zone that its net fields are read where they are found and stand
/// in the form of the net, and of the net that its name still means it: it would not
/// where the zone's own field was all that named it.
pub proof fn law_zone_net_twice(
    c: Seq<char>,
    v: Seq<char>,
    uuid: Seq<char>,
    name: Seq<char>,
    board: Seq<char>,
)
    requires
        is_document(bytes(c), bytes("kicad_pcb"@)),
        is_plain(name),
        zone_on_net(bytes(c), uuid, name, board) is Ok,
        zone_on_net(bytes(c), uuid, name, board)->Ok_0.1 == bytes(v),
        ({
            let z = item_named(bytes(c), "zone"@, uuid).unwrap();
            let n = zone_on_net(bytes(c), uuid, name, board)->Ok_0.0;
            &&& readable(c, z, n)
            &&& in_form(bytes(c), z.start, z.end, n)
            &&& net_on_board(bytes(v), name) == Some(n)
        }),
    ensures
        zone_on_net(bytes(v), uuid, name, board) == zone_on_net(bytes(c), uuid, name, board),
{
    let s = bytes(c);
    let t = bytes(v);
    let z = item_named(s, "zone"@, uuid).unwrap();
    let n = net_on_board(s, name).unwrap();
    law_zone_net_reads_back(c, v, uuid, name, board);
    crate::net::law_resolved_name(s, name);
    lemma_named_item(s, "zone"@, uuid);
    law_last_net_counts(c, z.start, z.end, n, n, board);
    let f = z.end + t.len() - s.len();
    assert(on(s, z.start, z.end, n, board) == t);
    assert(in_form(t, z.start, f, n)) by {
        if n is Named {
            lemma_named_turn(c, z.start, z.end, n, n, board);
        } else {
            lemma_numbered_turn(c, z.start, z.end, n, n, board);
        }
    }
    lemma_fits(v, z.start, f, n, board);
    reveal_strlit("keepout");
    reveal_strlit("net");
    reveal_strlit("net_name");
    assert("keepout"@.len() != "net"@.len() && "keepout"@.len() != "net_name"@.len());
}

} // verus!
