//! Edits to text, each against the text as it was read.

use crate::scan::{block_with_lead, closes_at, cuttable, indent_start, lead_start};
#[allow(unused_imports)]
use crate::scan::{balanced_block, lemma_block_moved};
#[allow(unused_imports)]
use crate::text::{boundary, bytes, first_byte, lemma_ends, length, put, slice, slice_from};
use vstd::prelude::*;
use vstd::string::*;

verus! {

/// Replace the bytes `start..end` with `replacement`.
#[derive(Debug)]
pub struct SexpEdit {
    pub start: usize,
    pub end: usize,
    pub replacement: String,
}

/// An edit as a value: the range it replaces and the bytes that take its place.
pub struct Splice {
    pub start: int,
    pub end: int,
    pub bytes: Seq<u8>,
}

impl SexpEdit {
    pub open spec fn model(&self) -> Splice {
        Splice { start: self.start as int, end: self.end as int, bytes: bytes(self.replacement@) }
    }

    /// Insert `text` at byte `at`.
    pub fn insert(at: usize, text: String) -> (r: SexpEdit)
        ensures
            r.model() == (Splice { start: at as int, end: at as int, bytes: bytes(text@) }),
            r.replacement@ == text@,
    {
        SexpEdit { start: at, end: at, replacement: text }
    }

    /// Replace the bytes `start..end`.
    pub fn replace(start: usize, end: usize, text: String) -> (r: SexpEdit)
        ensures
            r.model() == (Splice { start: start as int, end: end as int, bytes: bytes(text@) }),
            r.replacement@ == text@,
    {
        SexpEdit { start, end, replacement: text }
    }

    /// Delete the bytes `start..end`.
    pub fn delete(start: usize, end: usize) -> (r: SexpEdit)
        ensures
            r.model() == (Splice { start: start as int, end: end as int, bytes: Seq::empty() }),
    {
        let replacement = String::new();
        assert(bytes(replacement@) =~= Seq::<u8>::empty());
        SexpEdit { start, end, replacement }
    }

    /// A copy of this edit.
    pub fn duplicate(&self) -> (r: SexpEdit)
        ensures
            r.model() == self.model(),
    {
        SexpEdit { start: self.start, end: self.end, replacement: self.replacement.clone() }
    }
}

/// The values of a list of edits.
pub open spec fn splices(v: Seq<SexpEdit>) -> Seq<Splice> {
    Seq::new(v.len(), |i: int| v[i].model())
}

/// One edit stands no later than another.
pub open spec fn not_after(a: Splice, b: Splice) -> bool {
    a.start < b.start || (a.start == b.start && a.end <= b.end)
}

/// How many edits at the front of `sorted` stand no later than `e`.
pub open spec fn edit_place(sorted: Seq<Splice>, e: Splice) -> int
    decreases sorted.len(),
{
    if sorted.len() > 0 && not_after(sorted[0], e) {
        1 + edit_place(sorted.drop_first(), e)
    } else {
        0
    }
}

/// The edits in the order of the ranges they replace; edits of the same range
/// in the order given.
pub open spec fn sort_edits(es: Seq<Splice>) -> Seq<Splice>
    decreases es.len(),
{
    if es.len() == 0 {
        es
    } else {
        let sorted = sort_edits(es.drop_last());
        sorted.insert(edit_place(sorted, es.last()), es.last())
    }
}

/// `s` from `pos` on with the edits made, which stand in order and past `pos`.
pub open spec fn patched(s: Seq<u8>, es: Seq<Splice>, pos: int) -> Seq<u8>
    decreases es.len(),
{
    if es.len() == 0 {
        s.subrange(pos, s.len() as int)
    } else {
        s.subrange(pos, es[0].start) + es[0].bytes + patched(s, es.drop_first(), es[0].end)
    }
}

/// `s` with the edits made.
pub open spec fn edited(s: Seq<u8>, es: Seq<Splice>) -> Seq<u8> {
    patched(s, sort_edits(es), 0)
}

/// Two edits replace ranges that do not overlap.
pub open spec fn apart(a: Splice, b: Splice) -> bool {
    a.end <= b.start || b.end <= a.start
}

/// Every edit replaces a range of `s` that may be cut out, and no two overlap.
pub open spec fn edits_fit(s: Seq<u8>, es: Seq<Splice>) -> bool {
    &&& forall|i: int| 0 <= i < es.len() ==> cuttable(s, (#[trigger] es[i]).start, es[i].end)
    &&& forall|i: int, j: int| 0 <= i < j < es.len() ==> apart(#[trigger] es[i], #[trigger] es[j])
}

/// The edits stand in order, each at or past the end of the one before.
pub open spec fn in_line(s: Seq<u8>, es: Seq<Splice>, pos: int) -> bool {
    &&& 0 <= pos <= s.len()
    &&& boundary(s, pos)
    &&& forall|i: int| 0 <= i < es.len() ==> cuttable(s, (#[trigger] es[i]).start, es[i].end) && pos
        <= es[i].start
    &&& forall|i: int, j: int| 0 <= i < j < es.len() ==> (#[trigger] es[i]).end <= (#[trigger] es[j]).start
}

pub proof fn lemma_edit_place(sorted: Seq<Splice>, e: Splice)
    ensures
        0 <= edit_place(sorted, e) <= sorted.len(),
        forall|i: int| 0 <= i < edit_place(sorted, e) ==> not_after(#[trigger] sorted[i], e),
        edit_place(sorted, e) < sorted.len() ==> !not_after(sorted[edit_place(sorted, e)], e),
    decreases sorted.len(),
{
    if sorted.len() > 0 && not_after(sorted[0], e) {
        let rest = sorted.drop_first();
        lemma_edit_place(rest, e);
        assert forall|i: int| 0 <= i < edit_place(sorted, e) implies not_after(#[trigger] sorted[i], e) by {
            if i > 0 {
                assert(rest[i - 1] == sorted[i]);
            }
        }
    }
}

/// Sorting loses no edit.
pub proof fn lemma_sort_keeps(es: Seq<Splice>, x: Splice)
    requires
        es.contains(x),
    ensures
        sort_edits(es).contains(x),
    decreases es.len(),
{
    let front = es.drop_last();
    let e = es.last();
    let sorted = sort_edits(front);
    lemma_edit_place(sorted, e);
    let p = edit_place(sorted, e);
    let r = sorted.insert(p, e);
    if x == e {
        assert(r[p] == x);
    } else {
        let k = choose|k: int| 0 <= k < es.len() && es[k] == x;
        assert(front[k] == x);
        lemma_sort_keeps(front, x);
        let i = choose|i: int| 0 <= i < sorted.len() && sorted[i] == x;
        if i < p {
            assert(r[i] == x);
        } else {
            assert(r[i + 1] == x);
        }
    }
}

/// Sorted edits that do not overlap stand in line.
pub proof fn lemma_sorted_in_line(s: Seq<u8>, es: Seq<Splice>)
    requires
        edits_fit(s, es),
        boundary(s, 0),
    ensures
        in_line(s, sort_edits(es), 0),
        sort_edits(es).len() == es.len(),
        forall|x: Splice| #[trigger] sort_edits(es).contains(x) ==> es.contains(x),
        forall|i: int, j: int|
            0 <= i < j < es.len() ==> not_after(
                #[trigger] sort_edits(es)[i],
                #[trigger] sort_edits(es)[j],
            ),
    decreases es.len(),
{
    if es.len() > 0 {
        let front = es.drop_last();
        let e = es.last();
        assert(edits_fit(s, front)) by {
            assert forall|i: int| 0 <= i < front.len() implies cuttable(
                s,
                (#[trigger] front[i]).start,
                front[i].end,
            ) by {
                assert(front[i] == es[i]);
            }
            assert forall|i: int, j: int| 0 <= i < j < front.len() implies apart(
                #[trigger] front[i],
                #[trigger] front[j],
            ) by {
                assert(front[i] == es[i] && front[j] == es[j]);
            }
        }
        lemma_sorted_in_line(s, front);
        let sorted = sort_edits(front);
        lemma_edit_place(sorted, e);
        let p = edit_place(sorted, e);
        let r = sorted.insert(p, e);
        assert(cuttable(s, es[es.len() - 1].start, es[es.len() - 1].end));
        assert forall|x: Splice| #[trigger] r.contains(x) implies es.contains(x) by {
            let i = choose|i: int| 0 <= i < r.len() && r[i] == x;
            if i == p {
                assert(es[es.len() - 1] == x);
            } else {
                let a = if i < p {
                    i
                } else {
                    i - 1
                };
                assert(sorted[a] == x);
                assert(sorted.contains(x));
                assert(front.contains(x));
                let k = choose|k: int| 0 <= k < front.len() && front[k] == x;
                assert(es[k] == x);
            }
        }
        assert forall|i: int| 0 <= i < r.len() implies cuttable(
            s,
            (#[trigger] r[i]).start,
            r[i].end,
        ) && 0 <= r[i].start by {
            assert(r.contains(r[i]));
        }
        assert forall|a: int| 0 <= a < sorted.len() implies apart(#[trigger] sorted[a], e) by {
            assert(sorted.contains(sorted[a]));
            let k = choose|k: int| 0 <= k < front.len() && front[k] == sorted[a];
            assert(es[k] == sorted[a]);
            assert(apart(es[k], es[es.len() - 1]));
        }
        assert forall|i: int, j: int| 0 <= i < j < r.len() implies not_after(
            #[trigger] r[i],
            #[trigger] r[j],
        ) && r[i].end <= r[j].start by {
            if j == p {
                assert(r[i] == sorted[i]);
                assert(apart(sorted[i], e));
            } else if i == p {
                assert(r[j] == sorted[j - 1]);
                assert(!not_after(sorted[p], e));
                assert(not_after(e, sorted[p]));
                if j - 1 > p {
                    assert(not_after(sorted[p], sorted[j - 1]));
                }
                assert(apart(sorted[j - 1], e));
            } else {
                let a = if i < p {
                    i
                } else {
                    i - 1
                };
                let b = if j < p {
                    j
                } else {
                    j - 1
                };
                assert(r[i] == sorted[a] && r[j] == sorted[b]);
            }
        }
    }
}

/// Whether edits do not overlap and stay inside `content`.
pub fn edits_fit_in(content: &str, edits: &Vec<SexpEdit>) -> (r: bool)
    ensures
        r == edits_fit(bytes(content@), splices(edits@)),
{
    let n = length(content);
    let ghost s = bytes(content@);
    let ghost es = splices(edits@);
    let mut i: usize = 0;
    while i < edits.len()
        invariant
            s == bytes(content@),
            n == s.len(),
            es == splices(edits@),
            i <= edits.len(),
            forall|k: int| 0 <= k < i ==> cuttable(s, (#[trigger] es[k]).start, es[k].end),
            forall|a: int, b: int| 0 <= a < b < i ==> apart(#[trigger] es[a], #[trigger] es[b]),
        decreases edits.len() - i,
    {
        let start = edits[i].start;
        let end = edits[i].end;
        assert(es[i as int].start == start && es[i as int].end == end);
        if start > end || end > n || !content.is_char_boundary(start) || !content.is_char_boundary(end) {
            assert(!cuttable(s, es[i as int].start, es[i as int].end));
            return false;
        }
        let mut j: usize = 0;
        while j < i
            invariant
                i < edits.len(),
                j <= i,
                es == splices(edits@),
                es[i as int].start == start,
                es[i as int].end == end,
                forall|a: int| 0 <= a < j ==> apart(#[trigger] es[a], es[i as int]),
            decreases i - j,
        {
            assert(es[j as int].start == edits@[j as int].start);
            if !(edits[j].end <= start || end <= edits[j].start) {
                assert(!apart(es[j as int], es[i as int]));
                return false;
            }
            j += 1;
        }
        i += 1;
    }
    true
}

/// The edits in the order of the ranges they replace.
fn sorted_edits(edits: &Vec<SexpEdit>) -> (r: Vec<SexpEdit>)
    ensures
        splices(r@) == sort_edits(splices(edits@)),
{
    let ghost all = splices(edits@);
    let mut out: Vec<SexpEdit> = Vec::new();
    let mut i: usize = 0;
    assert(splices(out@) =~= sort_edits(all.take(0)));
    while i < edits.len()
        invariant
            all == splices(edits@),
            i <= edits.len(),
            splices(out@) == sort_edits(all.take(i as int)),
        decreases edits.len() - i,
    {
        let ghost sorted = splices(out@);
        let e = edits[i].duplicate();
        let mut p: usize = 0;
        assert(sorted.skip(0) =~= sorted);
        while p < out.len() && (out[p].start < e.start || (out[p].start == e.start && out[p].end
            <= e.end))
            invariant
                sorted == splices(out@),
                p <= out.len(),
                edit_place(sorted, e.model()) == p + edit_place(sorted.skip(p as int), e.model()),
            decreases out.len() - p,
        {
            assert(sorted.skip(p as int)[0] == out@[p as int].model());
            assert(sorted.skip(p as int).drop_first() =~= sorted.skip(p + 1));
            p += 1;
        }
        assert(p < out.len() ==> sorted.skip(p as int)[0] == out@[p as int].model());
        let ghost em = e.model();
        out.insert(p, e);
        proof {
            assert(splices(out@) =~= sorted.insert(p as int, em));
            assert(all.take(i + 1).drop_last() =~= all.take(i as int));
            assert(all.take(i + 1).last() == em);
        }
        i += 1;
    }
    assert(all.take(i as int) =~= all);
    out
}

/// `content` with every edit made. All offsets are offsets into `content` as it
/// was, whatever the order of the list.
pub fn apply_edits(content: &str, edits: &Vec<SexpEdit>) -> (r: String)
    requires
        edits_fit(bytes(content@), splices(edits@)),
    ensures
        bytes(r@) == edited(bytes(content@), splices(edits@)),
{
    let ghost s = bytes(content@);
    proof {
        lemma_ends(content@);
        lemma_sorted_in_line(s, splices(edits@));
    }
    let order = sorted_edits(edits);
    let ghost es = splices(order@);
    let mut out = String::new();
    let mut pos: usize = 0;
    let mut i: usize = 0;
    proof {
        assert(es.skip(0) =~= es);
        assert(bytes(out@) =~= Seq::<u8>::empty());
        assert(bytes(out@) + patched(s, es, 0) =~= patched(s, es, 0));
    }
    while i < order.len()
        invariant
            s == bytes(content@),
            es == splices(order@),
            i <= order.len(),
            pos <= s.len(),
            boundary(s, pos as int),
            forall|k: int| 0 <= k < es.len() ==> cuttable(s, (#[trigger] es[k]).start, es[k].end),
            forall|k: int| i <= k < es.len() ==> pos <= (#[trigger] es[k]).start,
            forall|a: int, b: int| 0 <= a < b < es.len() ==> (#[trigger] es[a]).end <= (#[trigger] es[b]).start,
            bytes(out@) + patched(s, es.skip(i as int), pos as int) == patched(s, es, 0),
        decreases order.len() - i,
    {
        let ghost was = bytes(out@);
        assert(es[i as int] == order@[i as int].model());
        assert(es.skip(i as int)[0] == es[i as int]);
        assert(es.skip(i as int).drop_first() =~= es.skip(i + 1));
        put(&mut out, slice(content, pos, order[i].start));
        put(&mut out, order[i].replacement.as_str());
        let ghost from = pos as int;
        pos = order[i].end;
        proof {
            let e = es[i as int];
            assert(bytes(out@) =~= was + s.subrange(from, e.start) + e.bytes);
            assert(was + (s.subrange(from, e.start) + e.bytes + patched(s, es.skip(i + 1), e.end))
                =~= bytes(out@) + patched(s, es.skip(i + 1), e.end));
        }
        i += 1;
    }
    let ghost was = bytes(out@);
    put(&mut out, slice_from(content, pos));
    assert(es.skip(i as int) =~= Seq::<Splice>::empty());
    out
}

// ─── Laws ────────────────────────────────────────────────────────────────────

/// No edits change nothing.
pub proof fn law_no_edits(s: Seq<u8>)
    ensures
        edited(s, Seq::<Splice>::empty()) == s,
{
    assert(s.subrange(0, s.len() as int) =~= s);
}

/// One edit replaces its range and leaves the rest as it was.
pub proof fn law_one_edit(s: Seq<u8>, e: Splice)
    requires
        0 <= e.start <= e.end <= s.len(),
    ensures
        edited(s, seq![e]) == s.take(e.start) + e.bytes + s.skip(e.end),
{
    let es = seq![e];
    assert(es.drop_last() =~= Seq::<Splice>::empty());
    assert(sort_edits(es.drop_last()) =~= Seq::<Splice>::empty());
    assert(sort_edits(es) =~= seq![e]);
    assert(sort_edits(es).drop_first() =~= Seq::<Splice>::empty());
    assert(patched(s, Seq::<Splice>::empty(), e.end) =~= s.skip(e.end));
    assert(s.subrange(0, e.start) =~= s.take(e.start));
}

/// Two edits in order replace their ranges and leave what is around and between
/// them as it was.
pub proof fn law_two_edits(s: Seq<u8>, a: Splice, b: Splice)
    requires
        0 <= a.start <= a.end <= b.start <= b.end <= s.len(),
    ensures
        edited(s, seq![a, b]) == s.take(a.start) + a.bytes + s.subrange(a.end, b.start) + b.bytes
            + s.skip(b.end),
{
    let es = seq![a, b];
    assert(es.drop_last() =~= seq![a]);
    assert(seq![a].drop_last() =~= Seq::<Splice>::empty());
    assert(sort_edits(Seq::<Splice>::empty()) =~= Seq::<Splice>::empty());
    assert(sort_edits(seq![a]) =~= seq![a]);
    reveal_with_fuel(edit_place, 3);
    assert(seq![a].drop_first() =~= Seq::<Splice>::empty());
    assert(sort_edits(es) =~= seq![a, b]);
    assert(es.drop_first() =~= seq![b]);
    assert(seq![b].drop_first() =~= Seq::<Splice>::empty());
    assert(patched(s, Seq::<Splice>::empty(), b.end) =~= s.skip(b.end));
    reveal_with_fuel(patched, 3);
    assert(s.subrange(0, a.start) =~= s.take(a.start));
    assert(edited(s, es) =~= s.take(a.start) + a.bytes + s.subrange(a.end, b.start) + b.bytes + s.skip(
        b.end,
    ));
}

/// Two edits given last one first come to the same.
pub proof fn lemma_two_edits_back(s: Seq<u8>, a: Splice, b: Splice)
    requires
        0 <= b.start < a.start,
        b.start <= b.end <= a.start <= a.end <= s.len(),
    ensures
        edited(s, seq![a, b]) == s.take(b.start) + b.bytes + s.subrange(b.end, a.start) + a.bytes
            + s.skip(a.end),
{
    let es = seq![a, b];
    assert(es.drop_last() =~= seq![a]);
    assert(seq![a].drop_last() =~= Seq::<Splice>::empty());
    assert(sort_edits(Seq::<Splice>::empty()) =~= Seq::<Splice>::empty());
    assert(sort_edits(seq![a]) =~= seq![a]);
    reveal_with_fuel(edit_place, 3);
    assert(sort_edits(es) =~= seq![b, a]);
    let to = seq![b, a];
    assert(to.drop_first() =~= seq![a]);
    assert(seq![a].drop_first() =~= Seq::<Splice>::empty());
    assert(patched(s, Seq::<Splice>::empty(), a.end) =~= s.skip(a.end));
    reveal_with_fuel(patched, 3);
    assert(s.subrange(0, b.start) =~= s.take(b.start));
    assert(edited(s, es) =~= s.take(b.start) + b.bytes + s.subrange(b.end, a.start) + a.bytes + s.skip(
        a.end,
    ));
}

/// Taking out a range that was just put in gives back the text as it was.
pub proof fn law_insert_delete(s: Seq<u8>, at: int, ins: Seq<u8>)
    requires
        0 <= at <= s.len(),
    ensures
        ({
            let t = edited(s, seq![Splice { start: at, end: at, bytes: ins }]);
            edited(t, seq![Splice { start: at, end: at + ins.len(), bytes: Seq::empty() }]) == s
        }),
{
    let t = edited(s, seq![Splice { start: at, end: at, bytes: ins }]);
    law_one_edit(s, Splice { start: at, end: at, bytes: ins });
    assert(t.len() == s.len() + ins.len());
    law_one_edit(t, Splice { start: at, end: at + ins.len(), bytes: Seq::empty() });
    assert(t.take(at) + Seq::<u8>::empty() + t.skip(at + ins.len()) =~= s);
}

/// A line break and an indentation of spaces and tabs.
pub open spec fn is_lead(l: Seq<u8>) -> bool {
    &&& l.len() > 0
    &&& l[0] == 0x0a
    &&& forall|i: int| 1 <= i < l.len() ==> #[trigger] l[i] == 0x20 || l[i] == 0x09
}

proof fn lemma_indent_over(s: Seq<u8>, from: int, to: int)
    requires
        0 <= from <= to <= s.len(),
        forall|i: int| from <= i < to ==> #[trigger] s[i] == 0x20 || s[i] == 0x09,
    ensures
        indent_start(s, to) == indent_start(s, from),
    decreases to - from,
{
    if from < to {
        assert(s[to - 1] == 0x20 || s[to - 1] == 0x09);
        lemma_indent_over(s, from, to - 1);
    }
}

/// A block put into text on a line of its own is found again, with the line
/// break and indentation it came with, and deleting that range restores the text
/// byte for byte.
pub proof fn law_insert_block_delete_block(s: Seq<u8>, at: int, lead: Seq<u8>, block: Seq<u8>)
    requires
        0 <= at <= s.len(),
        is_lead(lead),
        closes_at(block, 0, block.len() as int),
    ensures
        ({
            let t = edited(s, seq![Splice { start: at, end: at, bytes: lead + block }]);
            let found = block_with_lead(t, at + lead.len());
            &&& found == Some((at, at + lead.len() + block.len()))
            &&& edited(
                t,
                seq![Splice { start: found.unwrap().0, end: found.unwrap().1, bytes: Seq::empty() }],
            ) == s
        }),
{
    let ins = lead + block;
    let t = edited(s, seq![Splice { start: at, end: at, bytes: ins }]);
    law_one_edit(s, Splice { start: at, end: at, bytes: ins });
    law_insert_delete(s, at, ins);
    let p = at + lead.len();
    assert forall|i: int| 0 <= i < block.len() implies #[trigger] block[i] == t[i + p] by {}
    lemma_block_moved(block, t, 0, block.len() as int, p);
    assert(t[p] == block[0]);
    assert(first_byte(t, crate::scan::OPEN, p) == Some(p));
    assert(balanced_block(t, p) == Some((p, p + block.len())));
    assert forall|i: int| at + 1 <= i < p implies #[trigger] t[i] == 0x20 || t[i] == 0x09 by {
        assert(t[i] == lead[i - at]);
    }
    lemma_indent_over(t, at + 1, p);
    assert(t[at] == lead[0]);
    assert(indent_start(t, at + 1) == at + 1);
    assert(lead_start(t, p) == at);
}

} // verus!
