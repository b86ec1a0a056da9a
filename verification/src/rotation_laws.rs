//! Turning a footprint, told by how its position and those of its children read
//! afterwards.

#[allow(unused_imports)]
use crate::at_node::{Angle, At};
#[allow(unused_imports)]
use crate::bulk_move_laws::lemma_one_patch;
#[allow(unused_imports)]
use crate::chars::blank;
#[allow(unused_imports)]
use crate::components::{
    child_turns, commit_edits, footprint_named, key_index, present, rotate_splices, Key,
};
#[allow(unused_imports)]
use crate::edit::{
    apart, edited, edits_fit, in_line, lemma_sort_keeps, lemma_sorted_in_line, patched, sort_edits, Splice,
};
#[allow(unused_imports)]
use crate::footprint::{board_footprints, Footprint};
#[allow(unused_imports)]
use crate::grammar::between;
#[allow(unused_imports)]
use crate::label_laws::rising;
#[allow(unused_imports)]
use crate::moving::{
    all_blank, known_by, laid, lemma_ascii_text, lemma_key_in, lemma_laid_ascii, lemma_number_bytes,
    lemma_same_key, number_in, shifted,
};
#[allow(unused_imports)]
use crate::number::is_number;
#[allow(unused_imports)]
use crate::rename_laws::lemma_sorted_rises;
#[allow(unused_imports)]
use crate::scan::{cuttable, is_document, lex, CLOSE, OPEN};
#[allow(unused_imports)]
use crate::substitution::swap;
#[allow(unused_imports)]
use crate::text::{
    bytes, lemma_ascii_boundary, lemma_bytes_ascii, lemma_bytes_concat, lemma_bytes_valid, lemma_ends,
    replaced, text_of,
};
#[allow(unused_imports)]
use crate::turning::{
    at_inside, lemma_board_step, lemma_laid_inner, lemma_positions, numbers, position_at, same_at,
    same_footprint, Exchange,
};
use vstd::prelude::*;
use vstd::string::*;

verus! {

// ─── A position with another angle ───────────────────────────────────────────

/// The bytes of a position with the angle `text`.
#[verifier::opaque]
spec fn angled(s: Seq<u8>, at: At, text: Seq<u8>) -> Seq<u8> {
    let r = at.tokens;
    if r.len() == 3 {
        s.subrange(at.start, r[2].0) + text + s.subrange(r[2].1, at.end)
    } else {
        s.subrange(at.start, r[1].1) + (seq![32u8] + text) + s.subrange(r[1].1, at.end)
    }
}

/// Where the numbers are in it.
spec fn angled_tokens(at: At, n: int) -> Seq<(int, int)> {
    let r = at.tokens;
    let p = if r.len() == 3 {
        r[2].0 - at.start
    } else {
        r[1].1 - at.start + 1
    };
    seq![
        (r[0].0 - at.start, r[0].1 - at.start),
        (r[1].0 - at.start, r[1].1 - at.start),
        (p, p + n),
    ]
}

proof fn lemma_number_cut(s: Seq<u8>, w: Seq<u8>, r: (int, int), a: int, m: int)
    requires
        number_in(s, r),
        0 <= a <= r.0,
        r.1 <= m <= s.len(),
        m - a <= w.len(),
        w.subrange(0, m - a) == s.subrange(a, m),
    ensures
        number_in(w, (r.0 - a, r.1 - a)),
        w.subrange(r.0 - a, r.1 - a) == s.subrange(r.0, r.1),
{
    assert(w.subrange(r.0 - a, r.1 - a) =~= w.subrange(0, m - a).subrange(r.0 - a, r.1 - a));
    assert(s.subrange(r.0, r.1) =~= s.subrange(a, m).subrange(r.0 - a, r.1 - a));
}

proof fn lemma_blank_cut(s: Seq<u8>, w: Seq<u8>, i: int, j: int, a: int, m: int, p: int)
    requires
        all_blank(s, i, j),
        0 <= a <= i,
        j <= m <= s.len(),
        0 <= p,
        p + m - a <= w.len(),
        w.subrange(p, p + m - a) == s.subrange(a, m),
    ensures
        all_blank(w, p + i - a, p + j - a),
{
    assert forall|k: int| p + i - a <= k < p + j - a implies blank(#[trigger] w[k]) by {
        assert(w.subrange(p, p + m - a)[k - p] == w[k]);
        assert(s.subrange(a, m)[k - p] == s[k - p + a]);
        assert(blank(s[k - p + a]));
    }
}

/// Up to where a position stays when its angle is exchanged, and from where on.
spec fn kept(at: At) -> (int, int) {
    if at.tokens.len() == 3 {
        at.tokens[2]
    } else {
        (at.tokens[1].1, at.tokens[1].1)
    }
}

/// The pieces of a position with another angle.
spec fn angle_pieces(s: Seq<u8>, at: At, text: Seq<u8>, w: Seq<u8>) -> bool {
    let (m, rest) = kept(at);
    let p = angled_tokens(at, text.len() as int)[2].0;
    let n = text.len() as int;
    &&& w.len() == p + n + at.end - rest
    &&& w.subrange(0, m - at.start) == s.subrange(at.start, m)
    &&& w.subrange(p, p + n) == text
    &&& w.subrange(p + n, w.len() as int) == s.subrange(rest, at.end)
    &&& at.tokens.len() != 3 ==> w[m - at.start] == 32
}

proof fn lemma_angle_pieces(s: Seq<u8>, at: At, text: Seq<u8>)
    requires
        laid(s, at.start, at.end, at.tokens),
    ensures
        angle_pieces(s, at, text, angled(s, at, text)),
{
    reveal(angled);
    let w = angled(s, at, text);
    let (m, rest) = kept(at);
    let p = angled_tokens(at, text.len() as int)[2].0;
    let n = text.len() as int;
    assert(w.subrange(0, m - at.start) =~= s.subrange(at.start, m));
    assert(w.subrange(p, p + n) =~= text);
    assert(w.subrange(p + n, w.len() as int) =~= s.subrange(rest, at.end));
}

proof fn lemma_angle_ends(s: Seq<u8>, at: At, text: Seq<u8>, w: Seq<u8>)
    requires
        laid(s, at.start, at.end, at.tokens),
        angle_pieces(s, at, text, w),
    ensures
        w[0] == OPEN && w[1] == 97 && w[2] == 116,
        w[w.len() - 1] == CLOSE,
{
    let (m, rest) = kept(at);
    let a = at.start;
    let e = at.end;
    let p = angled_tokens(at, text.len() as int)[2].0 + text.len();
    let u = w.subrange(0, m - a);
    assert(u[0] == w[0] && u[1] == w[1] && u[2] == w[2]);
    assert(s.subrange(a, m)[0] == s[a] && s.subrange(a, m)[1] == s[a + 1] && s.subrange(a, m)[2] == s[a
        + 2]);
    let v = w.subrange(p, w.len() as int);
    assert(v[v.len() - 1] == w[w.len() - 1]);
    assert(s.subrange(rest, e)[e - rest - 1] == s[e - 1]);
}

proof fn lemma_pieces_laid(s: Seq<u8>, at: At, text: Seq<u8>, w: Seq<u8>)
    requires
        laid(s, at.start, at.end, at.tokens),
        is_number(text),
        angle_pieces(s, at, text, w),
    ensures
        ({
            let q = angled_tokens(at, text.len() as int);
            &&& laid(w, 0, w.len() as int, q)
            &&& w.subrange(q[0].0, q[0].1) == s.subrange(at.tokens[0].0, at.tokens[0].1)
            &&& w.subrange(q[1].0, q[1].1) == s.subrange(at.tokens[1].0, at.tokens[1].1)
            &&& w.subrange(q[2].0, q[2].1) == text
        }),
{
    let r = at.tokens;
    let a = at.start;
    let e = at.end;
    let (m, rest) = kept(at);
    let q = angled_tokens(at, text.len() as int);
    let n = text.len() as int;
    let p = q[2].0;
    lemma_number_bytes(text);
    lemma_angle_ends(s, at, text, w);
    lemma_number_cut(s, w, r[0], a, m);
    lemma_number_cut(s, w, r[1], a, m);
    lemma_blank_cut(s, w, a + 3, r[0].0, a, m, 0);
    lemma_blank_cut(s, w, r[0].1, r[1].0, a, m, 0);
    if r.len() == 3 {
        lemma_blank_cut(s, w, r[1].1, r[2].0, a, m, 0);
    }
    lemma_blank_cut(s, w, rest, e - 1, rest, e, p + n);
    assert(number_in(w, q[2]));
}

/// With another angle a position is still one, with the same place.
proof fn lemma_angled_laid(s: Seq<u8>, at: At, text: Seq<u8>)
    requires
        laid(s, at.start, at.end, at.tokens),
        is_number(text),
    ensures
        ({
            let w = angled(s, at, text);
            let q = angled_tokens(at, text.len() as int);
            &&& laid(w, 0, w.len() as int, q)
            &&& numbers(w, q) == numbers(s, at.tokens).take(2).push(text)
        }),
{
    let w = angled(s, at, text);
    let q = angled_tokens(at, text.len() as int);
    lemma_angle_pieces(s, at, text);
    lemma_pieces_laid(s, at, text, w);
    lemma_three_numbers(s, at.tokens, w, q, text);
}

proof fn lemma_three_numbers(
    s: Seq<u8>,
    r: Seq<(int, int)>,
    w: Seq<u8>,
    q: Seq<(int, int)>,
    text: Seq<u8>,
)
    requires
        r.len() >= 2,
        q.len() == 3,
        w.subrange(q[0].0, q[0].1) == s.subrange(r[0].0, r[0].1),
        w.subrange(q[1].0, q[1].1) == s.subrange(r[1].0, r[1].1),
        w.subrange(q[2].0, q[2].1) == text,
    ensures
        numbers(w, q) == numbers(s, r).take(2).push(text),
{
    let g = numbers(s, r).take(2).push(text);
    assert forall|i: int| 0 <= i < 3 implies numbers(w, q)[i] == g[i] by {
        assert(i == 0 || i == 1 || i == 2);
    }
    assert(numbers(w, q) =~= g);
}

/// What the numbers of a position become when it is to bear an angle: an angle that
/// is written is rewritten unless it is already the one; one that is not is added
/// unless it is zero.
pub open spec fn bearing(old: Seq<Seq<u8>>, g: Angle) -> Seq<Seq<u8>> {
    if (old.len() == 3 && g.unchanged) || (old.len() != 3 && g.is_zero) {
        old
    } else {
        old.take(2).push(bytes(g.text))
    }
}

/// The edit of a position's angle, as an exchange of the position.
proof fn lemma_angle_edit(s: Seq<u8>, at: At, g: Angle)
    requires
        laid(s, at.start, at.end, at.tokens),
        is_number(bytes(g.text)),
    ensures
        match at.angle_edit(g) {
            Some(e) => {
                let w = angled(s, at, bytes(g.text));
                &&& at.start < e.start <= e.end < at.end
                &&& replaced(s, e.start, e.end, e.bytes) == swap(s, at.start, at.end, w)
                &&& bearing(numbers(s, at.tokens), g) == numbers(s, at.tokens).take(2).push(
                    bytes(g.text),
                )
            },
            None => bearing(numbers(s, at.tokens), g) == numbers(s, at.tokens),
        },
{
    reveal(angled);
    let r = at.tokens;
    lemma_laid_inner(s, at.start, at.end, r);
    let w = angled(s, at, bytes(g.text));
    if let Some(e) = at.angle_edit(g) {
        if r.len() == 3 {
            assert(replaced(s, e.start, e.end, e.bytes) =~= swap(s, at.start, at.end, w));
        } else {
            reveal_strlit(" ");
            lemma_bytes_concat(" "@, g.text);
            lemma_bytes_ascii(" "@);
            assert(e.bytes =~= seq![32u8] + bytes(g.text));
            assert(replaced(s, e.start, e.end, e.bytes) =~= swap(s, at.start, at.end, w));
        }
    }
}

// ─── One position turned ─────────────────────────────────────────────────────

/// The exchange that gives a position another angle.
spec fn turning(c: Seq<char>, at: At, text: Seq<u8>) -> Exchange {
    Exchange {
        c,
        a: at.start,
        b: at.end,
        r: at.tokens,
        w: text_of(angled(bytes(c), at, text)),
        q: angled_tokens(at, text.len() as int),
    }
}

proof fn lemma_turning(c: Seq<char>, at: At, g: Angle, e: Splice)
    requires
        at_inside(bytes(c), at),
        is_number(bytes(g.text)),
        at.angle_edit(g) == Some(e),
    ensures
        ({
            let x = turning(c, at, bytes(g.text));
            &&& x.ok()
            &&& x.s() == bytes(c)
            &&& x.t() == replaced(bytes(c), e.start, e.end, e.bytes)
            &&& numbers(x.t(), shifted(x.q, x.a)) == bearing(numbers(bytes(c), at.tokens), g)
            &&& lex(bytes(c), 0, x.a).depth > 1
            &&& at.start < e.start <= e.end < at.end
        }),
{
    reveal(at_inside);
    reveal(Exchange::ok);
    reveal(Exchange::t);
    let s = bytes(c);
    let text = bytes(g.text);
    let w = angled(s, at, text);
    let q = angled_tokens(at, text.len() as int);
    lemma_angled_laid(s, at, text);
    lemma_laid_ascii(w, 0, w.len() as int, q);
    lemma_ascii_text(w);
    lemma_angle_edit(s, at, g);
    lemma_window_numbers(s, at.start, at.end, w, q);
}

proof fn lemma_window_numbers(s: Seq<u8>, a: int, b: int, w: Seq<u8>, q: Seq<(int, int)>)
    requires
        0 <= a <= b <= s.len(),
        laid(w, 0, w.len() as int, q),
    ensures
        numbers(swap(s, a, b, w), shifted(q, a)) == numbers(w, q),
{
    let t = swap(s, a, b, w);
    let o = shifted(q, a);
    lemma_laid_inner(w, 0, w.len() as int, q);
    assert forall|i: int| 0 <= i < q.len() implies #[trigger] numbers(t, o)[i] == numbers(w, q)[i] by {
        assert(i == 0 || i == 1 || i == 2);
        assert(0 <= q[i].0 <= q[i].1 <= w.len());
        assert(t.subrange(q[i].0 + a, q[i].1 + a) =~= w.subrange(q[i].0, q[i].1));
    }
    assert(numbers(t, o) =~= numbers(w, q));
}

/// How the positions of a footprint read before the one at `a` is turned and after.
#[verifier::opaque]
spec fn one_turned(s: Seq<u8>, t: Seq<u8>, a: int, g: Angle, p: At, o: At) -> bool {
    if p.start == a {
        o.start == a && numbers(t, o.tokens) == bearing(numbers(s, p.tokens), g)
    } else {
        &&& numbers(t, o.tokens) == numbers(s, p.tokens)
        &&& p.start < a ==> o == p
        &&& p.start > a ==> o.start > a
    }
}

proof fn lemma_one_turned(x: Exchange, g: Angle, p: At, o: At)
    requires
        same_at(x, p, o),
        numbers(x.t(), shifted(x.q, x.a)) == bearing(numbers(x.s(), x.r), g),
        p.start == x.a ==> p.tokens == x.r,
        x.a < x.b,
        x.n() > 0,
    ensures
        one_turned(x.s(), x.t(), x.a, g, p, o),
{
    reveal(one_turned);
    reveal(same_at);
    if p.start < x.a {
        assert(shifted(p.tokens, 0) =~= p.tokens);
        lemma_laid_inner(x.s(), p.start, p.end, p.tokens);
    }
}

/// A footprint with one of its positions turned: the board is still one, the footprints
/// are known by the same, and every other position of this one reads the same.
proof fn lemma_turn(c: Seq<char>, j: int, i: int, g: Angle, e: Splice)
    requires
        is_document(bytes(c), bytes("kicad_pcb"@)),
        0 <= j < board_footprints(bytes(c)).len(),
        board_footprints(bytes(c))[j].at is Some,
        0 <= i <= board_footprints(bytes(c))[j].child_ats.len(),
        position_at(board_footprints(bytes(c))[j], i).angle_edit(g) == Some(e),
        is_number(bytes(g.text)),
    ensures
        ({
            let s = bytes(c);
            let t = replaced(s, e.start, e.end, e.bytes);
            let before = board_footprints(s);
            let after = board_footprints(t);
            let a = position_at(before[j], i).start;
            &&& bytes(text_of(t)) == t
            &&& is_document(t, bytes("kicad_pcb"@))
            &&& before.len() == after.len()
            &&& forall|m: int| 0 <= m < before.len() ==> known_by(#[trigger] before[m]) == known_by(after[m])
            &&& after[j].at is Some
            &&& after[j].child_at_tags == before[j].child_at_tags
            &&& after[j].child_ats.len() == before[j].child_ats.len()
            &&& forall|k: int|
                0 <= k <= before[j].child_ats.len() ==> one_turned(
                    s,
                    t,
                    a,
                    g,
                    #[trigger] position_at(before[j], k),
                    position_at(after[j], k),
                )
            &&& a < e.start <= e.end < position_at(before[j], i).end
        }),
{
    let s = bytes(c);
    let before = board_footprints(s);
    let fp = before[j];
    let at = position_at(fp, i);
    lemma_positions(c, j);
    let x = turning(c, at, bytes(g.text));
    assert(at_inside(s, at));
    lemma_turning(c, at, g, e);
    lemma_board_step(x);
    let after = board_footprints(x.t());
    assert(same_footprint(x, before[j], after[j]));
    assert(x.a < x.b && x.n() > 0) by {
        reveal(Exchange::ok);
        lemma_laid_inner(bytes(x.w), 0, x.n(), x.q);
        lemma_laid_inner(x.s(), x.a, x.b, x.r);
    }
    assert forall|m: int| 0 <= m < before.len() implies known_by(#[trigger] before[m]) == known_by(
        after[m],
    ) by {
        assert(same_footprint(x, before[m], after[m]));
    }
    assert forall|k: int| 0 <= k <= fp.child_ats.len() implies one_turned(
        s,
        x.t(),
        at.start,
        g,
        #[trigger] position_at(fp, k),
        position_at(after[j], k),
    ) by {
        if k > 0 {
            assert(same_at(x, fp.child_ats[k - 1], after[j].child_ats[k - 1]));
        }
        if k != i {
            assert(position_at(fp, k).start != position_at(fp, i).start);
        }
        lemma_one_turned(x, g, position_at(fp, k), position_at(after[j], k));
    }
}

// ─── What is asked of each position ──────────────────────────────────────────

/// A footprint to be turned: the angle it is to have, whether its children turn with
/// it, and the angle that each of their positions is to have.
pub struct Rotation {
    pub fp: Footprint,
    pub own: Angle,
    pub turned: bool,
    pub to: Seq<Angle>,
}

impl Rotation {
    /// How many positions the footprint has, its own among them.
    pub open spec fn count(self) -> int {
        self.fp.child_ats.len() as int + 1
    }

    /// The angle that a position is to bear: the footprint's own always, that of a child
    /// where the children turn and the child either writes an angle or is a pad, a
    /// property or a text.
    pub open spec fn wish(self, i: int) -> Option<Angle> {
        if i == 0 {
            Some(self.own)
        } else if self.turned && (self.fp.child_ats[i - 1].tokens.len() == 3 || self.fp.child_at_tags[i - 1]
            == "pad"@ || self.fp.child_at_tags[i - 1] == "property"@ || self.fp.child_at_tags[i - 1]
            == "fp_text"@) {
            Some(self.to[i - 1])
        } else {
            None
        }
    }

    /// How a position reads once it is turned.
    pub open spec fn goal(self, s: Seq<u8>, i: int) -> Seq<Seq<u8>> {
        let old = numbers(s, position_at(self.fp, i).tokens);
        match self.wish(i) {
            Some(g) => bearing(old, g),
            None => old,
        }
    }

    /// The edit of a position.
    spec fn asked(self, i: int) -> Option<Splice> {
        match self.wish(i) {
            Some(g) => position_at(self.fp, i).angle_edit(g),
            None => None,
        }
    }

    /// Every angle is written as a number, and every child position has one.
    pub open spec fn in_numbers(self) -> bool {
        &&& is_number(bytes(self.own.text))
        &&& self.to.len() == self.fp.child_ats.len()
        &&& forall|i: int| 0 <= i < self.to.len() ==> is_number(bytes((#[trigger] self.to[i]).text))
    }

    /// The edits for the footprint and its first `n` children.
    spec fn edits(self, n: int) -> Seq<Splice> {
        present(self.fp.at->0.angle_edit(self.own)) + (if self.turned {
            child_turns(self.fp, self.to, n)
        } else {
            Seq::empty()
        })
    }
}

/// The edits are those of the positions, in order.
proof fn lemma_asked(x: Rotation, n: int) -> (at: Seq<int>)
    requires
        0 <= n <= x.fp.child_ats.len(),
        x.fp.child_at_tags.len() == x.fp.child_ats.len(),
        x.fp.at is Some,
    ensures
        rising(at, n + 1),
        x.edits(n).len() == at.len(),
        forall|k: int| 0 <= k < at.len() ==> x.asked(#[trigger] at[k]) == Some(x.edits(n)[k]),
        forall|i: int| 0 <= i <= n && #[trigger] x.asked(i) is Some ==> at.contains(i),
    decreases n,
{
    if n <= 0 {
        let first = x.fp.at->0.angle_edit(x.own);
        assert(x.edits(0) =~= present(first));
        match first {
            Some(e) => {
                let at = seq![0int];
                assert(at[0] == 0);
                assert(at.contains(0));
                at
            },
            None => Seq::empty(),
        }
    } else {
        let at = lemma_asked(x, n - 1);
        let es = x.edits(n - 1);
        match x.asked(n) {
            Some(e) => {
                let more = at.push(n);
                crate::label_laws::lemma_contains_push(at, n);
                assert(x.edits(n) =~= es.push(e));
                assert forall|k: int| 0 <= k < more.len() implies x.asked(#[trigger] more[k]) == Some(
                    x.edits(n)[k],
                ) by {
                    if k < at.len() {
                        assert(more[k] == at[k]);
                    }
                }
                more
            },
            None => {
                assert(x.edits(n) =~= es);
                at
            },
        }
    }
}

// ─── All of them, one after the other ────────────────────────────────────────

/// A footprint of a board that can be turned.
spec fn stands_on(x: Rotation, c: Seq<char>, j: int) -> bool {
    &&& is_document(bytes(c), bytes("kicad_pcb"@))
    &&& 0 <= j < board_footprints(bytes(c)).len()
    &&& x.fp == board_footprints(bytes(c))[j]
    &&& x.fp.at is Some
    &&& x.in_numbers()
}

/// Positions of a footprint that share a byte are the same.
proof fn lemma_same_block(s: Seq<u8>, p: At, o: At, z: int)
    requires
        at_inside(s, p),
        at_inside(s, o),
        p.start < z < p.end,
        o.start < z < o.end,
    ensures
        p.start == o.start,
{
    reveal(at_inside);
    lemma_laid_inner(s, p.start, p.end, p.tokens);
    lemma_laid_inner(s, o.start, o.end, o.tokens);
}

/// The edit of a position lies inside it, and may be made.
proof fn lemma_asked_inside(x: Rotation, c: Seq<char>, j: int, i: int)
    requires
        stands_on(x, c, j),
        0 <= i < x.count(),
        x.asked(i) is Some,
    ensures
        at_inside(bytes(c), position_at(x.fp, i)),
        position_at(x.fp, i).start < x.asked(i)->0.start <= x.asked(i)->0.end < position_at(x.fp, i).end,
        cuttable(bytes(c), x.asked(i)->0.start, x.asked(i)->0.end),
        x.wish(i) is Some,
        is_number(bytes(x.wish(i)->0.text)),
{
    lemma_positions(c, j);
    let at = position_at(x.fp, i);
    let e = x.asked(i)->0;
    assert(at_inside(bytes(c), at));
    let g = x.wish(i)->0;
    assert(is_number(bytes(g.text))) by {
        if i > 0 {
            assert(is_number(bytes(x.to[i - 1].text)));
        }
    }
    reveal(at_inside);
    lemma_angle_edit(bytes(c), at, g);
    lemma_laid_ascii(bytes(c), at.start, at.end, at.tokens);
    assert(bytes(c)[e.start] < 128 && bytes(c)[e.end] < 128);
    lemma_ascii_boundary(c, e.start);
    lemma_ascii_boundary(c, e.end);
}

/// Edits of different positions lie apart.
proof fn lemma_asked_apart(x: Rotation, c: Seq<char>, j: int, i: int, k: int)
    requires
        stands_on(x, c, j),
        0 <= i < k < x.count(),
        x.asked(i) is Some,
        x.asked(k) is Some,
    ensures
        apart(x.asked(i)->0, x.asked(k)->0),
        x.asked(i)->0.start != x.asked(k)->0.start,
{
    lemma_positions(c, j);
    lemma_asked_inside(x, c, j, i);
    lemma_asked_inside(x, c, j, k);
    let (p, o) = (position_at(x.fp, i), position_at(x.fp, k));
    let (e, f) = (x.asked(i)->0, x.asked(k)->0);
    assert(p.start != o.start);
    if p.start < o.start {
        if o.start < p.end {
            reveal(at_inside);
            lemma_laid_inner(bytes(c), p.start, p.end, p.tokens);
            lemma_laid_inner(bytes(c), o.start, o.end, o.tokens);
        }
    } else if p.start < o.end {
        reveal(at_inside);
        lemma_laid_inner(bytes(c), p.start, p.end, p.tokens);
        lemma_laid_inner(bytes(c), o.start, o.end, o.tokens);
    }
}

/// The edits are exactly those of the positions, in order.
#[verifier::opaque]
spec fn are_turns(x: Rotation, s: Seq<u8>, d: Seq<Splice>) -> bool {
    &&& in_line(s, d, 0)
    &&& forall|i: int, j: int| 0 <= i < j < d.len() ==> (#[trigger] d[i]).start < (#[trigger] d[j]).start
    &&& forall|k: int| 0 <= k < d.len() ==> turns_one(x, #[trigger] d[k])
    &&& forall|i: int| 0 <= i < x.count() && #[trigger] x.asked(i) is Some ==> d.contains(x.asked(i)->0)
}

/// An edit that turns a position.
spec fn turns_one(x: Rotation, e: Splice) -> bool {
    exists|i: int| 0 <= i < x.count() && #[trigger] x.asked(i) == Some(e)
}

/// The position that an edit turns.
spec fn mover(x: Rotation, e: Splice) -> int {
    choose|i: int| 0 <= i < x.count() && #[trigger] x.asked(i) == Some(e)
}

/// Where the position of edit `k` begins.
spec fn limit_of(x: Rotation, s: Seq<u8>, d: Seq<Splice>, k: int) -> int {
    if k < d.len() {
        position_at(x.fp, mover(x, d[k])).start
    } else {
        s.len() as int + 1
    }
}

proof fn lemma_mover(x: Rotation, c: Seq<char>, j: int, d: Seq<Splice>, k: int)
    requires
        stands_on(x, c, j),
        are_turns(x, bytes(c), d),
        0 <= k < d.len(),
    ensures
        0 <= mover(x, d[k]) < x.count(),
        x.asked(mover(x, d[k])) == Some(d[k]),
        in_line(bytes(c), d, 0),
        limit_of(x, bytes(c), d, k) < limit_of(x, bytes(c), d, k + 1),
{
    reveal(are_turns);
    assert(turns_one(x, d[k]));
    let m = mover(x, d[k]);
    lemma_asked_inside(x, c, j, m);
    let p = position_at(x.fp, m);
    reveal(at_inside);
    if k + 1 < d.len() {
        assert(turns_one(x, d[k + 1]));
        let l = mover(x, d[k + 1]);
        lemma_asked_inside(x, c, j, l);
        let o = position_at(x.fp, l);
        assert(d[k].start < d[k + 1].start);
        lemma_positions(c, j);
        if o.start < p.start {
            lemma_laid_inner(bytes(c), p.start, p.end, p.tokens);
            lemma_laid_inner(bytes(c), o.start, o.end, o.tokens);
        }
        if o.start == p.start {
            assert(m == l) by {
                if m < l {
                    assert(position_at(x.fp, m).start != position_at(x.fp, l).start);
                } else if l < m {
                    assert(position_at(x.fp, l).start != position_at(x.fp, m).start);
                }
            }
        }
    }
}

/// A position that is turned, before the one of edit `k + 1` and not by edit `k`, stands
/// before that of edit `k`.
proof fn lemma_before(x: Rotation, c: Seq<char>, j: int, d: Seq<Splice>, k: int, i: int)
    requires
        stands_on(x, c, j),
        are_turns(x, bytes(c), d),
        -1 <= k < d.len(),
        0 <= i < x.count(),
        x.asked(i) is Some,
        position_at(x.fp, i).start < limit_of(x, bytes(c), d, k + 1),
    ensures
        k >= 0,
        position_at(x.fp, i).start <= limit_of(x, bytes(c), d, k),
{
    let e = x.asked(i)->0;
    assert(d.contains(e)) by {
        reveal(are_turns);
    }
    let y = choose|y: int| 0 <= y < d.len() && d[y] == e;
    lemma_mover(x, c, j, d, y);
    let m = mover(x, d[y]);
    lemma_asked_inside(x, c, j, i);
    lemma_asked_inside(x, c, j, m);
    lemma_same_block(bytes(c), position_at(x.fp, i), position_at(x.fp, m), e.start);
    if y > k {
        lemma_rising(x, c, j, d, k + 1, y);
    } else {
        lemma_rising(x, c, j, d, y, k);
    }
}

proof fn lemma_rising(x: Rotation, c: Seq<char>, j: int, d: Seq<Splice>, k: int, l: int)
    requires
        stands_on(x, c, j),
        are_turns(x, bytes(c), d),
        0 <= k <= l <= d.len(),
    ensures
        limit_of(x, bytes(c), d, k) <= limit_of(x, bytes(c), d, l),
    decreases l - k,
{
    if k < l {
        lemma_mover(x, c, j, d, k);
        lemma_rising(x, c, j, d, k + 1, l);
    }
}

/// A position on the way: as it was, or as it is to be.
spec fn on_the_way(x: Rotation, s: Seq<u8>, u: Seq<u8>, now: Footprint, i: int, limit: int) -> bool {
    let p = position_at(x.fp, i);
    let o = position_at(now, i);
    if p.start < limit {
        o == p && numbers(u, o.tokens) == numbers(s, p.tokens)
    } else {
        o.start >= limit && numbers(u, o.tokens) == x.goal(s, i)
    }
}

/// The board on the way: still a board, its footprints known by the same, and the
/// positions of this one as they were or as they are to be.
#[verifier::opaque]
spec fn under_way(x: Rotation, c: Seq<char>, u: Seq<u8>, j: int, limit: int) -> bool {
    let before = board_footprints(bytes(c));
    let after = board_footprints(u);
    &&& bytes(text_of(u)) == u
    &&& is_document(u, bytes("kicad_pcb"@))
    &&& before.len() == after.len()
    &&& forall|m: int| 0 <= m < before.len() ==> known_by(#[trigger] before[m]) == known_by(after[m])
    &&& after[j].at is Some
    &&& after[j].child_at_tags == x.fp.child_at_tags
    &&& after[j].child_ats.len() == x.fp.child_ats.len()
    &&& forall|i: int|
        #![trigger position_at(x.fp, i)]
        0 <= i < x.count() ==> on_the_way(x, bytes(c), u, after[j], i, limit)
}

/// One more position on the way.
proof fn lemma_on_the_way(
    x: Rotation,
    s: Seq<u8>,
    u: Seq<u8>,
    t: Seq<u8>,
    mid: Footprint,
    now: Footprint,
    i: int,
    m: int,
    limit: int,
)
    requires
        0 <= i < x.count(),
        0 <= m < x.count(),
        x.asked(m) is Some,
        position_at(x.fp, m).start < limit,
        on_the_way(x, s, u, mid, i, limit),
        on_the_way(x, s, u, mid, m, limit),
        one_turned(
            u,
            t,
            position_at(x.fp, m).start,
            x.wish(m)->0,
            position_at(mid, i),
            position_at(now, i),
        ),
        i != m ==> position_at(x.fp, i).start != position_at(x.fp, m).start,
        x.asked(i) is Some && position_at(x.fp, i).start < limit ==> position_at(x.fp, i).start
            <= position_at(x.fp, m).start,
        x.asked(i) is None ==> x.goal(s, i) == numbers(s, position_at(x.fp, i).tokens),
    ensures
        on_the_way(x, s, t, now, i, position_at(x.fp, m).start),
{
    reveal(one_turned);
}

/// A position without an edit is to read as it does.
proof fn lemma_goal_kept(x: Rotation, c: Seq<char>, j: int, i: int)
    requires
        stands_on(x, c, j),
        0 <= i < x.count(),
        x.asked(i) is None,
    ensures
        x.goal(bytes(c), i) == numbers(bytes(c), position_at(x.fp, i).tokens),
{
    lemma_positions(c, j);
    assert(at_inside(bytes(c), position_at(x.fp, i)));
    if let Some(g) = x.wish(i) {
        assert(is_number(bytes(g.text))) by {
            if i > 0 {
                assert(is_number(bytes(x.to[i - 1].text)));
            }
        }
        reveal(at_inside);
        lemma_angle_edit(bytes(c), position_at(x.fp, i), g);
    }
}

/// With the edits from `k` on made, the board is on the way.
proof fn lemma_under_way(x: Rotation, c: Seq<char>, j: int, d: Seq<Splice>, k: int)
    requires
        stands_on(x, c, j),
        are_turns(x, bytes(c), d),
        0 <= k <= d.len(),
    ensures
        under_way(x, c, patched(bytes(c), d.skip(k), 0), j, limit_of(x, bytes(c), d, k)),
    decreases d.len() - k,
{
    let s = bytes(c);
    if k == d.len() {
        assert(patched(s, d.skip(k), 0) =~= s);
        lemma_bytes_valid(c);
        reveal(under_way);
        lemma_positions(c, j);
        reveal(at_inside);
        assert forall|i: int|
            #![trigger position_at(x.fp, i)]
            0 <= i < x.count() implies on_the_way(x, s, s, x.fp, i, limit_of(x, s, d, k)) by {
            assert(at_inside(s, position_at(x.fp, i)));
        }
    } else {
        lemma_under_way(x, c, j, d, k + 1);
        lemma_mover(x, c, j, d, k);
        lemma_one_patch(s, d, k);
        lemma_way_step(x, c, j, d, k, patched(s, d.skip(k + 1), 0));
    }
}

#[verifier::rlimit(30)]
proof fn lemma_way_step(x: Rotation, c: Seq<char>, j: int, d: Seq<Splice>, k: int, u: Seq<u8>)
    requires
        stands_on(x, c, j),
        are_turns(x, bytes(c), d),
        0 <= k < d.len(),
        under_way(x, c, u, j, limit_of(x, bytes(c), d, k + 1)),
    ensures
        under_way(
            x,
            c,
            replaced(u, d[k].start, d[k].end, d[k].bytes),
            j,
            limit_of(x, bytes(c), d, k),
        ),
{
    let s = bytes(c);
    let e = d[k];
    let t = replaced(u, e.start, e.end, e.bytes);
    let limit = limit_of(x, s, d, k + 1);
    reveal(under_way);
    lemma_mover(x, c, j, d, k);
    let m = mover(x, e);
    lemma_asked_inside(x, c, j, m);
    let mid = board_footprints(u)[j];
    assert(on_the_way(x, s, u, mid, m, limit)) by {
        assert(position_at(x.fp, m) == position_at(x.fp, m));
    }
    lemma_turn(text_of(u), j, m, x.wish(m)->0, e);
    let now = board_footprints(t)[j];
    lemma_positions(c, j);
    assert forall|i: int|
        #![trigger position_at(x.fp, i)]
        0 <= i < x.count() implies on_the_way(x, s, t, now, i, limit_of(x, s, d, k)) by {
        assert(on_the_way(x, s, u, mid, i, limit));
        if i < m {
            assert(position_at(x.fp, i).start != position_at(x.fp, m).start);
        } else if m < i {
            assert(position_at(x.fp, m).start != position_at(x.fp, i).start);
        }
        if x.asked(i) is None {
            lemma_goal_kept(x, c, j, i);
        } else if position_at(x.fp, i).start < limit {
            lemma_before(x, c, j, d, k, i);
        }
        assert(one_turned(
            u,
            t,
            position_at(mid, m).start,
            x.wish(m)->0,
            position_at(mid, i),
            position_at(now, i),
        ));
        lemma_on_the_way(x, s, u, t, mid, now, i, m, limit);
    }
    let before = board_footprints(s);
    let after = board_footprints(t);
    let between = board_footprints(u);
    assert forall|n: int| 0 <= n < before.len() implies known_by(#[trigger] before[n]) == known_by(
        after[n],
    ) by {
        assert(known_by(before[n]) == known_by(between[n]));
        assert(known_by(between[n]) == known_by(after[n]));
    }
}

// ─── The law ─────────────────────────────────────────────────────────────────

/// The number at `i` of a position, as it is written.
pub open spec fn written_at(s: Seq<u8>, at: At, i: int) -> Seq<u8> {
    s.subrange(at.tokens[i].0, at.tokens[i].1)
}

/// A position has the x and y that it had.
pub open spec fn place_kept(s: Seq<u8>, p: At, t: Seq<u8>, o: At) -> bool {
    &&& p.tokens.len() >= 2
    &&& o.tokens.len() >= 2
    &&& written_at(t, o, 0) == written_at(s, p, 0)
    &&& written_at(t, o, 1) == written_at(s, p, 1)
}

/// A position has the angle that it had, or has none where it had none.
pub open spec fn angle_kept(s: Seq<u8>, p: At, t: Seq<u8>, o: At) -> bool {
    &&& o.tokens.len() == p.tokens.len()
    &&& p.tokens.len() == 3 ==> written_at(t, o, 2) == written_at(s, p, 2)
}

/// A position has the angle that was asked for. One that already had its value keeps
/// the way it was written, and one that had none still has none where zero was asked.
pub open spec fn bears(s: Seq<u8>, p: At, t: Seq<u8>, o: At, g: Angle) -> bool {
    if (p.tokens.len() == 3 && g.unchanged) || (p.tokens.len() == 2 && g.is_zero) {
        angle_kept(s, p, t, o)
    } else {
        o.tokens.len() == 3 && written_at(t, o, 2) == bytes(g.text)
    }
}

proof fn lemma_edits_fit(x: Rotation, c: Seq<char>, j: int)
    requires
        stands_on(x, c, j),
    ensures
        edits_fit(bytes(c), x.edits(x.fp.child_ats.len() as int)),
        are_turns(x, bytes(c), sort_edits(x.edits(x.fp.child_ats.len() as int))),
{
    let s = bytes(c);
    let n = x.fp.child_ats.len() as int;
    let es = x.edits(n);
    lemma_positions(c, j);
    let at = lemma_asked(x, n);
    assert forall|i: int| 0 <= i < es.len() implies cuttable(s, (#[trigger] es[i]).start, es[i].end) by {
        assert(x.asked(at[i]) == Some(es[i]));
        lemma_asked_inside(x, c, j, at[i]);
    }
    assert forall|i: int, k: int| 0 <= i < k < es.len() implies apart(#[trigger] es[i], #[trigger] es[k])
        && es[i].start != es[k].start by {
        assert(x.asked(at[i]) == Some(es[i]));
        assert(x.asked(at[k]) == Some(es[k]));
        lemma_asked_apart(x, c, j, at[i], at[k]);
    }
    lemma_ends(c);
    let d = sort_edits(es);
    lemma_sorted_in_line(s, es);
    lemma_sorted_rises(s, es);
    assert forall|k: int| 0 <= k < d.len() implies turns_one(x, #[trigger] d[k]) by {
        assert(d.contains(d[k]));
        let y = choose|y: int| 0 <= y < es.len() && es[y] == d[k];
        assert(x.asked(at[y]) == Some(es[y]));
    }
    assert forall|i: int| 0 <= i < x.count() && #[trigger] x.asked(i) is Some implies d.contains(
        x.asked(i)->0,
    ) by {
        assert(at.contains(i));
        let y = choose|y: int| 0 <= y < at.len() && at[y] == i;
        assert(x.asked(at[y]) == Some(es[y]));
        assert(es.contains(es[y]));
        lemma_sort_keeps(es, es[y]);
    }
    reveal(are_turns);
}

/// The board with the footprint turned, and how every position of it reads.
proof fn lemma_turned(x: Rotation, c: Seq<char>, j: int)
    requires
        stands_on(x, c, j),
    ensures
        ({
            let s = bytes(c);
            let t = edited(s, x.edits(x.fp.child_ats.len() as int));
            let before = board_footprints(s);
            let after = board_footprints(t);
            &&& is_document(t, bytes("kicad_pcb"@))
            &&& before.len() == after.len()
            &&& forall|m: int| 0 <= m < before.len() ==> known_by(#[trigger] before[m]) == known_by(after[m])
            &&& after[j].at is Some
            &&& after[j].child_at_tags == x.fp.child_at_tags
            &&& after[j].child_ats.len() == x.fp.child_ats.len()
            &&& forall|i: int|
                0 <= i < x.count() ==> numbers(t, (#[trigger] position_at(after[j], i)).tokens) == x.goal(
                    s,
                    i,
                )
        }),
{
    let s = bytes(c);
    let es = x.edits(x.fp.child_ats.len() as int);
    let d = sort_edits(es);
    lemma_edits_fit(x, c, j);
    lemma_under_way(x, c, j, d, 0);
    assert(d.skip(0) =~= d);
    let t = edited(s, es);
    let now = board_footprints(t)[j];
    reveal(under_way);
    assert forall|i: int| 0 <= i < x.count() implies numbers(t, (#[trigger] position_at(now, i)).tokens)
        == x.goal(s, i) by {
        assert(on_the_way(x, s, t, now, i, limit_of(x, s, d, 0))) by {
            assert(position_at(x.fp, i) == position_at(x.fp, i));
        }
        if position_at(x.fp, i).start < limit_of(x, s, d, 0) {
            if x.asked(i) is Some {
                if d.len() == 0 {
                    reveal(are_turns);
                    assert(d.contains(x.asked(i)->0));
                } else {
                    lemma_before(x, c, j, d, -1, i);
                }
            }
            lemma_goal_kept(x, c, j, i);
        }
    }
}

/// How the numbers of a position that read as asked read one by one.
proof fn lemma_reads(s: Seq<u8>, p: At, t: Seq<u8>, o: At, g: Angle, asked: bool)
    requires
        p.tokens.len() == 2 || p.tokens.len() == 3,
        numbers(t, o.tokens) == if asked {
            bearing(numbers(s, p.tokens), g)
        } else {
            numbers(s, p.tokens)
        },
    ensures
        place_kept(s, p, t, o),
        asked ==> bears(s, p, t, o, g),
        !asked ==> angle_kept(s, p, t, o),
{
    let old = numbers(s, p.tokens);
    let new = numbers(t, o.tokens);
    assert(new.len() == o.tokens.len());
    assert(new[0] == old[0] && new[1] == old[1]);
    assert(old[0] == written_at(s, p, 0) && old[1] == written_at(s, p, 1));
    assert(new[0] == written_at(t, o, 0) && new[1] == written_at(t, o, 1));
    if p.tokens.len() == 3 {
        assert(old[2] == written_at(s, p, 2));
    }
    if o.tokens.len() == 3 {
        assert(new[2] == written_at(t, o, 2));
    }
}

/// A footprint that is turned and read again, by the same key, has the angle that was
/// asked for, and so has every pad, property and text in it, whether or not the file
/// wrote an angle there before, and every other child that did write one. Each of them
/// keeps its x and y, and the children are the same in the same order.
pub proof fn law_turned_footprint_reads_back(
    c: Seq<char>,
    key: Key,
    own: Angle,
    turned: bool,
    to: Seq<Angle>,
    board: Seq<char>,
)
    requires
        is_document(bytes(c), bytes("kicad_pcb"@)),
        footprint_named(bytes(c), key, board) matches Ok(fp) && fp.at is Some
            && fp.absolute_children.len() == 0 && to.len() == fp.child_ats.len(),
        is_number(bytes(own.text)),
        forall|i: int| 0 <= i < to.len() ==> is_number(bytes((#[trigger] to[i]).text)),
    ensures
        ({
            let s = bytes(c);
            let fp = footprint_named(s, key, board)->Ok_0;
            let r = commit_edits(s, rotate_splices(fp, own, turned, to, board), board);
            let t = r->Ok_0;
            let now = footprint_named(t, key, board)->Ok_0;
            &&& r is Ok
            &&& footprint_named(t, key, board) is Ok
            &&& now.at is Some
            &&& place_kept(s, fp.at->0, t, now.at->0)
            &&& bears(s, fp.at->0, t, now.at->0, own)
            &&& now.child_at_tags == fp.child_at_tags
            &&& now.child_ats.len() == fp.child_ats.len()
            &&& forall|i: int|
                0 <= i < fp.child_ats.len() ==> {
                    let p = fp.child_ats[i];
                    let o = #[trigger] now.child_ats[i];
                    let tag = fp.child_at_tags[i];
                    &&& place_kept(s, p, t, o)
                    &&& turned && (tag == "pad"@ || tag == "property"@ || tag == "fp_text"@) ==> bears(
                        s,
                        p,
                        t,
                        o,
                        to[i],
                    )
                    &&& turned && p.tokens.len() == 3 ==> bears(s, p, t, o, to[i])
                    &&& !turned ==> angle_kept(s, p, t, o)
                    &&& p.tokens.len() == 2 && tag != "pad"@ && tag != "property"@ && tag != "fp_text"@
                        ==> angle_kept(s, p, t, o)
                }
        }),
{
    let s = bytes(c);
    let before = board_footprints(s);
    lemma_key_in(before, key, 0);
    let j = key_index(before, key, 0)->0;
    let fp = before[j];
    let x = Rotation { fp, own, turned, to };
    let n = fp.child_ats.len() as int;
    assert(stands_on(x, c, j));
    lemma_positions(c, j);
    lemma_edits_fit(x, c, j);
    lemma_turned(x, c, j);
    let t = edited(s, x.edits(n));
    let after = board_footprints(t);
    lemma_same_key(before, after, key, 0);
    let now = after[j];
    assert forall|i: int| 0 <= i <= n implies ({
        let p = position_at(fp, i);
        let o = #[trigger] position_at(now, i);
        &&& place_kept(s, p, t, o)
        &&& x.wish(i) is Some ==> bears(s, p, t, o, x.wish(i)->0)
        &&& x.wish(i) is None ==> angle_kept(s, p, t, o)
    }) by {
        assert(at_inside(s, position_at(fp, i)));
        reveal(at_inside);
        lemma_reads(
            s,
            position_at(fp, i),
            t,
            position_at(now, i),
            x.wish(i).unwrap_or(own),
            x.wish(i) is Some,
        );
    }
    assert(position_at(now, 0) == now.at->0);
    assert forall|i: int| 0 <= i < n implies ({
        let p = fp.child_ats[i];
        let o = #[trigger] now.child_ats[i];
        let tag = fp.child_at_tags[i];
        &&& place_kept(s, p, t, o)
        &&& turned && (tag == "pad"@ || tag == "property"@ || tag == "fp_text"@) ==> bears(
            s,
            p,
            t,
            o,
            to[i],
        )
        &&& turned && p.tokens.len() == 3 ==> bears(s, p, t, o, to[i])
        &&& !turned ==> angle_kept(s, p, t, o)
        &&& p.tokens.len() == 2 && tag != "pad"@ && tag != "property"@ && tag != "fp_text"@
            ==> angle_kept(s, p, t, o)
    }) by {
        assert(position_at(now, i + 1) == now.child_ats[i]);
    }
}

} // verus!
