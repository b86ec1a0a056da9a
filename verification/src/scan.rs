//! Finding blocks in S-expression text without parsing it.
//!
//! Every scan is string-aware: a parenthesis inside a quoted string is text, and
//! a backslash inside a string takes the next byte with it. None of them looks
//! at indentation.

use crate::chars::{blank, ends_tag, first_char, is_blank, white};
#[allow(unused_imports)]
use crate::text::{
    boundary, byte_at, bytes, copy, find_byte, first_byte, lemma_ascii_boundary, lemma_between_cuts,
    lemma_bytes_valid, lemma_suffix_valid, length, match_at, matches_at, slice_from, text_of,
};
use vstd::prelude::*;
use vstd::string::*;
use vstd::utf8::*;

verus! {

pub const OPEN: u8 = 40;

pub const CLOSE: u8 = 41;

pub const QUOTE: u8 = 34;

pub const BACKSLASH: u8 = 92;

// ─── Lexical state ───────────────────────────────────────────────────────────

/// What is known of a position from the bytes before it: how many blocks are
/// open there, whether it is inside a string, and whether a backslash has just
/// been read there.
pub struct Lex {
    pub depth: nat,
    pub in_string: bool,
    pub escape: bool,
}

/// Outside every block and every string.
pub open spec fn outside() -> Lex {
    Lex { depth: 0, in_string: false, escape: false }
}

/// The state after one more byte.
pub open spec fn lex_step(l: Lex, b: u8) -> Lex {
    if l.escape {
        Lex { escape: false, ..l }
    } else if l.in_string {
        if b == BACKSLASH {
            Lex { escape: true, ..l }
        } else if b == QUOTE {
            Lex { in_string: false, ..l }
        } else {
            l
        }
    } else if b == QUOTE {
        Lex { in_string: true, ..l }
    } else if b == OPEN {
        Lex { depth: l.depth + 1, ..l }
    } else if b == CLOSE {
        Lex {
            depth: if l.depth > 0 {
                (l.depth - 1) as nat
            } else {
                0
            },
            ..l
        }
    } else {
        l
    }
}

/// The state at `to` of a scan that begins at `from`.
pub open spec fn lex(s: Seq<u8>, from: int, to: int) -> Lex
    decreases to - from,
{
    if to <= from {
        outside()
    } else {
        lex_step(lex(s, from, to - 1), s[to - 1])
    }
}

/// The depth never exceeds the number of bytes read.
pub proof fn lemma_depth_bound(s: Seq<u8>, from: int, to: int)
    requires
        from <= to,
    ensures
        lex(s, from, to).depth <= to - from,
        lex(s, from, to).escape ==> lex(s, from, to).in_string,
    decreases to - from,
{
    if from < to {
        lemma_depth_bound(s, from, to - 1);
    }
}

/// The state depends only on the bytes read.
pub proof fn lemma_lex_same(s: Seq<u8>, t: Seq<u8>, from: int, to: int, shift: int)
    requires
        forall|i: int| from <= i < to ==> #[trigger] s[i] == t[i + shift],
    ensures
        lex(s, from, to) == lex(t, from + shift, to + shift),
    decreases to - from,
{
    if from < to {
        lemma_lex_same(s, t, from, to - 1, shift);
        assert(s[to - 1] == t[to - 1 + shift]);
    }
}

/// Lexical state held while scanning.
#[derive(Clone, Copy)]
pub struct Lexer {
    pub depth: usize,
    pub in_string: bool,
    pub escape: bool,
}

impl Lexer {
    pub open spec fn model(&self) -> Lex {
        Lex { depth: self.depth as nat, in_string: self.in_string, escape: self.escape }
    }

    /// Outside every block and every string.
    pub fn start() -> (r: Lexer)
        ensures
            r.model() == outside(),
    {
        Lexer { depth: 0, in_string: false, escape: false }
    }

    /// The state after one more byte.
    pub fn step(&self, b: u8) -> (r: Lexer)
        requires
            self.depth < usize::MAX,
        ensures
            r.model() == lex_step(self.model(), b),
    {
        if self.escape {
            Lexer { depth: self.depth, in_string: self.in_string, escape: false }
        } else if self.in_string {
            if b == BACKSLASH {
                Lexer { depth: self.depth, in_string: true, escape: true }
            } else if b == QUOTE {
                Lexer { depth: self.depth, in_string: false, escape: false }
            } else {
                *self
            }
        } else if b == QUOTE {
            Lexer { depth: self.depth, in_string: true, escape: false }
        } else if b == OPEN {
            Lexer { depth: self.depth + 1, in_string: false, escape: false }
        } else if b == CLOSE {
            if self.depth > 0 {
                Lexer { depth: self.depth - 1, in_string: false, escape: false }
            } else {
                *self
            }
        } else {
            *self
        }
    }
}

// ─── Balanced blocks ─────────────────────────────────────────────────────────

/// The block that opens at `start` ends just before `end`.
pub open spec fn closes_at(s: Seq<u8>, start: int, end: int) -> bool {
    &&& 0 <= start < end <= s.len()
    &&& s[start] == OPEN
    &&& lex(s, start, end).depth == 0
    &&& forall|k: int| start < k < end ==> (#[trigger] lex(s, start, k)).depth > 0
}

/// Where the block that opens at `start` ends; `None` where it never closes.
pub open spec fn block_end(s: Seq<u8>, start: int) -> Option<int> {
    if exists|e: int| closes_at(s, start, e) {
        Some(choose|e: int| closes_at(s, start, e))
    } else {
        None
    }
}

/// A block has one end.
pub proof fn lemma_block_end(s: Seq<u8>, start: int, e: int)
    requires
        closes_at(s, start, e),
    ensures
        block_end(s, start) == Some(e),
{
    let f = block_end(s, start).unwrap();
    assert(closes_at(s, start, f));
    if f < e {
        assert(lex(s, start, f).depth > 0);
    } else if e < f {
        assert(lex(s, start, e).depth > 0);
    }
}

/// What `block_end` gives is the end of the block, which is a `)` outside
/// strings.
pub proof fn lemma_block_end_is(s: Seq<u8>, start: int)
    ensures
        match block_end(s, start) {
            Some(e) => closes_at(s, start, e) && e >= start + 2 && s[e - 1] == CLOSE,
            None => forall|e: int| !closes_at(s, start, e),
        },
{
    if let Some(e) = block_end(s, start) {
        assert(closes_at(s, start, e));
        assert(lex(s, start, start) == outside());
        assert(lex(s, start, start + 1).depth == 1);
        assert(lex(s, start, e) == lex_step(lex(s, start, e - 1), s[e - 1]));
    }
}

/// The first block that opens at or after `pos`: where it opens and where it
/// ends.
pub open spec fn balanced_block(s: Seq<u8>, pos: int) -> Option<(int, int)> {
    match first_byte(s, OPEN, pos) {
        None => None,
        Some(o) => match block_end(s, o) {
            None => None,
            Some(e) => Some((o, e)),
        },
    }
}

/// A byte range as a pair of integers.
pub open spec fn range_of(r: Option<(usize, usize)>) -> Option<(int, int)> {
    match r {
        Some((a, b)) => Some((a as int, b as int)),
        None => None,
    }
}

/// A range of text that may be cut out: both of its ends are cuts.
pub open spec fn cuttable(s: Seq<u8>, a: int, b: int) -> bool {
    0 <= a <= b <= s.len() && boundary(s, a) && boundary(s, b)
}

/// A block may be cut out of text.
pub proof fn lemma_block_cuttable(t: Seq<char>, start: int, end: int)
    requires
        closes_at(bytes(t), start, end),
    ensures
        cuttable(bytes(t), start, end),
        cuttable(bytes(t), start + 1, end),
        cuttable(bytes(t), start + 1, end - 1),
        bytes(t)[end - 1] == CLOSE,
{
    lemma_block_end(bytes(t), start, end);
    lemma_block_end_is(bytes(t), start);
    lemma_ascii_boundary(t, start);
    lemma_ascii_boundary(t, end - 1);
}

/// The end of the block that opens at `start`.
pub fn find_block_end(content: &str, start: usize) -> (r: Option<usize>)
    requires
        start < bytes(content@).len(),
        bytes(content@)[start as int] == OPEN,
    ensures
        match r {
            Some(e) => closes_at(bytes(content@), start as int, e as int) && block_end(
                bytes(content@),
                start as int,
            ) == Some(e as int),
            None => block_end(bytes(content@), start as int).is_none(),
        },
{
    let ghost s = bytes(content@);
    let n = length(content);
    let mut st = Lexer::start().step(OPEN);
    let mut i: usize = start + 1;
    proof {
        assert(lex(s, start as int, start as int) == outside());
        assert(lex(s, start as int, start + 1) == lex_step(outside(), OPEN));
    }
    while i < n
        invariant
            s == bytes(content@),
            n == s.len(),
            start < i <= n,
            s[start as int] == OPEN,
            st.model() == lex(s, start as int, i as int),
            st.depth <= i - start,
            forall|k: int| start < k <= i ==> (#[trigger] lex(s, start as int, k)).depth > 0,
        decreases n - i,
    {
        let b = byte_at(content, i);
        st = st.step(b);
        i += 1;
        assert(lex(s, start as int, i as int) == lex_step(lex(s, start as int, i - 1), b));
        if st.depth == 0 {
            proof {
                lemma_block_end(s, start as int, i as int);
            }
            return Some(i);
        }
    }
    proof {
        assert forall|e: int| !closes_at(s, start as int, e) by {
            if closes_at(s, start as int, e) {
                assert(lex(s, start as int, e).depth > 0);
            }
        }
    }
    None
}

/// The first block that opens at or after byte `pos`.
pub fn find_balanced_block(content: &str, pos: usize) -> (r: Option<(usize, usize)>)
    ensures
        range_of(r) == balanced_block(bytes(content@), pos as int),
        match r {
            Some((a, b)) => closes_at(bytes(content@), a as int, b as int) && pos <= a,
            None => true,
        },
{
    match find_byte(content, OPEN, pos) {
        None => None,
        Some(o) => match find_block_end(content, o) {
            None => None,
            Some(e) => Some((o, e)),
        },
    }
}

/// A scan of an outer block continues through an inner one: while the inner
/// block is open, the outer state is the inner one with the outer depth added.
pub proof fn lemma_lex_shift(s: Seq<u8>, outer: int, inner: int, to: int)
    requires
        outer <= inner <= to,
        !lex(s, outer, inner).in_string,
        !lex(s, outer, inner).escape,
        forall|k: int| inner < k < to ==> (#[trigger] lex(s, inner, k)).depth > 0,
    ensures
        lex(s, outer, to) == (Lex {
            depth: lex(s, outer, inner).depth + lex(s, inner, to).depth,
            ..lex(s, inner, to)
        }) || (to > inner && s[inner] == CLOSE),
    decreases to - inner,
{
    if to == inner {
    } else if to == inner + 1 {
        assert(lex(s, inner, inner) == outside());
    } else {
        lemma_lex_shift(s, outer, inner, to - 1);
        assert(lex(s, inner, to - 1).depth > 0);
    }
}

/// After an inner block the outer scan is where it was before it.
pub proof fn lemma_lex_over_block(s: Seq<u8>, outer: int, inner: int, end: int)
    requires
        outer <= inner,
        closes_at(s, inner, end),
        !lex(s, outer, inner).in_string,
        !lex(s, outer, inner).escape,
    ensures
        lex(s, outer, end) == lex(s, outer, inner),
        forall|k: int|
            inner < k < end ==> (#[trigger] lex(s, outer, k)).depth > lex(s, outer, inner).depth,
{
    lemma_lex_shift(s, outer, inner, end);
    lemma_block_end(s, inner, end);
    lemma_block_end_is(s, inner);
    lemma_depth_bound(s, inner, end - 1);
    assert forall|k: int| inner < k < end implies (#[trigger] lex(s, outer, k)).depth > lex(
        s,
        outer,
        inner,
    ).depth by {
        lemma_lex_shift(s, outer, inner, k);
        assert(lex(s, inner, k).depth > 0);
    }
    assert(lex(s, inner, end) == lex_step(lex(s, inner, end - 1), s[end - 1]));
    assert(!lex(s, inner, end).in_string && !lex(s, inner, end).escape) by {
        let l = lex(s, inner, end - 1);
        assert(l.depth > 0 || end - 1 == inner);
    }
}

/// A block moved elsewhere is still a block.
pub proof fn lemma_block_moved(s: Seq<u8>, t: Seq<u8>, start: int, end: int, shift: int)
    requires
        closes_at(s, start, end),
        0 <= start + shift,
        end + shift <= t.len(),
        forall|i: int| start <= i < end ==> #[trigger] s[i] == t[i + shift],
    ensures
        closes_at(t, start + shift, end + shift),
        block_end(t, start + shift) == Some(end + shift),
{
    lemma_lex_same(s, t, start, end, shift);
    assert(s[start] == t[start + shift]);
    assert forall|k: int| start + shift < k < end + shift implies (#[trigger] lex(
        t,
        start + shift,
        k,
    )).depth > 0 by {
        lemma_lex_same(s, t, start, k - shift, shift);
        assert(lex(s, start, k - shift).depth > 0);
    }
    lemma_block_end(t, start + shift, end + shift);
}

// ─── Tags ────────────────────────────────────────────────────────────────────

/// The `(` at `open` opens a `(tag …)` block: the tag stands there whole, with
/// white space, a parenthesis or the end of the text after it.
pub open spec fn tag_opens(s: Seq<u8>, open: int, tag: Seq<u8>) -> bool {
    let after = open + 1 + tag.len();
    &&& 0 <= open < s.len()
    &&& boundary(s, open + 1)
    &&& matches_at(s, open + 1, tag)
    &&& after == s.len() || ends_tag(text_of(s.subrange(after, s.len() as int))[0])
}

/// Whether the `(` at `open` opens a `(tag …)` block.
pub fn tag_opens_at(content: &str, open: usize, tag: &str) -> (r: bool)
    ensures
        r == tag_opens(bytes(content@), open as int, bytes(tag@)),
{
    let n = length(content);
    if open >= n || !content.is_char_boundary(open + 1) {
        return false;
    }
    if !match_at(content, open + 1, tag) {
        return false;
    }
    let after: usize = open + 1 + length(tag);
    if after == n {
        return true;
    }
    proof {
        let s = bytes(content@);
        lemma_bytes_valid(content@);
        lemma_bytes_valid(tag@);
        lemma_between_cuts(content@, 0, 0);
    }
    let rest = slice_from(content, open + 1);
    proof {
        let s = bytes(content@);
        let q = s.subrange(after as int, s.len() as int);
        assert(bytes(rest@) =~= bytes(tag@) + q);
        lemma_bytes_valid(rest@);
        lemma_suffix_valid(bytes(tag@), q);
    }
    let tail = slice_from(rest, length(tag));
    proof {
        let s = bytes(content@);
        assert(bytes(tail@) =~= s.subrange(after as int, s.len() as int));
        lemma_bytes_valid(tail@);
        if tail@.len() == 0 {
            assert(bytes(tail@) =~= Seq::<u8>::empty());
        }
    }
    match first_char(tail) {
        None => false,
        Some(c) => white(c) || c == '(' || c == ')',
    }
}

// ─── Block openings ──────────────────────────────────────────────────────────

/// A block opens at `p`, outside every string.
pub open spec fn opens(s: Seq<u8>, p: int) -> bool {
    0 <= p < s.len() && s[p] == OPEN && !lex(s, 0, p).in_string
}

/// The openings of `(tag …)` blocks before `n`, in order.
pub open spec fn block_starts(s: Seq<u8>, tag: Seq<u8>, n: int) -> Seq<int>
    decreases n,
{
    if n <= 0 {
        Seq::empty()
    } else if opens(s, n - 1) && tag_opens(s, n - 1, tag) {
        block_starts(s, tag, n - 1).push(n - 1)
    } else {
        block_starts(s, tag, n - 1)
    }
}

/// The openings before `n` of `(tag …)` blocks that are direct children of the
/// document's root, in order.
pub open spec fn top_level_starts(s: Seq<u8>, tag: Seq<u8>, n: int) -> Seq<int>
    decreases n,
{
    if n <= 0 {
        Seq::empty()
    } else if opens(s, n - 1) && lex(s, 0, n - 1).depth == 1 && tag_opens(s, n - 1, tag) {
        top_level_starts(s, tag, n - 1).push(n - 1)
    } else {
        top_level_starts(s, tag, n - 1)
    }
}

/// Offsets as integers.
pub open spec fn offsets(v: Seq<usize>) -> Seq<int> {
    Seq::new(v.len(), |i: int| v[i] as int)
}

/// A list of offsets holds exactly the block openings before `n`, rising.
pub proof fn law_block_starts(s: Seq<u8>, tag: Seq<u8>, n: int)
    ensures
        forall|i: int, j: int|
            0 <= i < j < block_starts(s, tag, n).len() ==> #[trigger] block_starts(s, tag, n)[i]
                < #[trigger] block_starts(s, tag, n)[j],
        forall|p: int| #[trigger]
            block_starts(s, tag, n).contains(p) <==> p < n && opens(s, p) && tag_opens(s, p, tag),
    decreases n,
{
    if n > 0 {
        law_block_starts(s, tag, n - 1);
        let prev = block_starts(s, tag, n - 1);
        let all = block_starts(s, tag, n);
        assert forall|i: int| 0 <= i < prev.len() implies #[trigger] prev[i] < n - 1 by {
            assert(prev.contains(prev[i]));
        }
        assert forall|p: int| #[trigger] all.contains(p) <==> p < n && opens(s, p) && tag_opens(
            s,
            p,
            tag,
        ) by {
            assert(prev.contains(p) <==> p < n - 1 && opens(s, p) && tag_opens(s, p, tag));
            if all != prev {
                if all.contains(p) {
                    let i = choose|i: int| 0 <= i < all.len() && all[i] == p;
                    if i < prev.len() {
                        assert(prev[i] == p);
                    }
                }
                if prev.contains(p) {
                    let i = choose|i: int| 0 <= i < prev.len() && prev[i] == p;
                    assert(all[i] == p);
                }
                assert(all[prev.len() as int] == n - 1);
            }
        }
    } else {
        assert forall|p: int| !#[trigger] block_starts(s, tag, n).contains(p) by {}
    }
}

/// Top-level openings are openings, at depth one, rising.
pub proof fn law_top_level_starts(s: Seq<u8>, tag: Seq<u8>, n: int)
    ensures
        forall|i: int, j: int|
            0 <= i < j < top_level_starts(s, tag, n).len() ==> #[trigger] top_level_starts(s, tag, n)[i]
                < #[trigger] top_level_starts(s, tag, n)[j],
        forall|p: int| #[trigger]
            top_level_starts(s, tag, n).contains(p) <==> p < n && opens(s, p) && lex(s, 0, p).depth
                == 1 && tag_opens(s, p, tag),
    decreases n,
{
    if n > 0 {
        law_top_level_starts(s, tag, n - 1);
        let prev = top_level_starts(s, tag, n - 1);
        let all = top_level_starts(s, tag, n);
        assert forall|i: int| 0 <= i < prev.len() implies #[trigger] prev[i] < n - 1 by {
            assert(prev.contains(prev[i]));
        }
        assert forall|p: int| #[trigger] all.contains(p) <==> p < n && opens(s, p) && lex(s, 0, p).depth
            == 1 && tag_opens(s, p, tag) by {
            assert(prev.contains(p) <==> p < n - 1 && opens(s, p) && lex(s, 0, p).depth == 1
                && tag_opens(s, p, tag));
            if all != prev {
                if all.contains(p) {
                    let i = choose|i: int| 0 <= i < all.len() && all[i] == p;
                    if i < prev.len() {
                        assert(prev[i] == p);
                    }
                }
                if prev.contains(p) {
                    let i = choose|i: int| 0 <= i < prev.len() && prev[i] == p;
                    assert(all[i] == p);
                }
                assert(all[prev.len() as int] == n - 1);
            }
        }
    } else {
        assert forall|p: int| !#[trigger] top_level_starts(s, tag, n).contains(p) by {}
    }
}

/// Byte offsets of every `(tag …)` block opening, in file order, at any depth.
pub fn find_block_starts(content: &str, tag: &str) -> (r: Vec<usize>)
    ensures
        offsets(r@) == block_starts(bytes(content@), bytes(tag@), bytes(content@).len() as int),
        forall|i: int|
            0 <= i < r.len() ==> opens(bytes(content@), #[trigger] r[i] as int) && tag_opens(
                bytes(content@),
                r[i] as int,
                bytes(tag@),
            ),
{
    let ghost s = bytes(content@);
    let n = length(content);
    let mut out: Vec<usize> = Vec::new();
    let mut st = Lexer::start();
    let mut i: usize = 0;
    assert(offsets(out@) =~= block_starts(s, bytes(tag@), 0));
    while i < n
        invariant
            s == bytes(content@),
            n == s.len(),
            i <= n,
            st.model() == lex(s, 0, i as int),
            st.depth <= i,
            offsets(out@) == block_starts(s, bytes(tag@), i as int),
            forall|k: int|
                0 <= k < out.len() ==> opens(s, #[trigger] out[k] as int) && tag_opens(
                    s,
                    out[k] as int,
                    bytes(tag@),
                ),
        decreases n - i,
    {
        let b = byte_at(content, i);
        let ghost prev = out@;
        if b == OPEN && !st.in_string && tag_opens_at(content, i, tag) {
            out.push(i);
            assert(offsets(out@) =~= offsets(prev).push(i as int));
        }
        st = st.step(b);
        i += 1;
    }
    out
}

/// Byte offsets of every top-level `(tag …)` block opening, in file order.
///
/// Same-named blocks nested inside another item are not among them.
pub fn top_level_block_starts(content: &str, tag: &str) -> (r: Vec<usize>)
    ensures
        offsets(r@) == top_level_starts(bytes(content@), bytes(tag@), bytes(content@).len() as int),
        forall|i: int|
            0 <= i < r.len() ==> opens(bytes(content@), #[trigger] r[i] as int) && tag_opens(
                bytes(content@),
                r[i] as int,
                bytes(tag@),
            ),
{
    let ghost s = bytes(content@);
    let n = length(content);
    let mut out: Vec<usize> = Vec::new();
    let mut st = Lexer::start();
    let mut i: usize = 0;
    assert(offsets(out@) =~= top_level_starts(s, bytes(tag@), 0));
    while i < n
        invariant
            s == bytes(content@),
            n == s.len(),
            i <= n,
            st.model() == lex(s, 0, i as int),
            st.depth <= i,
            offsets(out@) == top_level_starts(s, bytes(tag@), i as int),
            forall|k: int|
                0 <= k < out.len() ==> opens(s, #[trigger] out[k] as int) && tag_opens(
                    s,
                    out[k] as int,
                    bytes(tag@),
                ),
        decreases n - i,
    {
        let b = byte_at(content, i);
        let ghost prev = out@;
        if b == OPEN && !st.in_string && st.depth == 1 && tag_opens_at(content, i, tag) {
            out.push(i);
            assert(offsets(out@) =~= offsets(prev).push(i as int));
        }
        st = st.step(b);
        i += 1;
    }
    out
}

// ─── The block around a position ─────────────────────────────────────────────

/// The innermost `(tag …)` block that opens at or before `p` and ends after
/// `pos`.
pub open spec fn enclosing_from(s: Seq<u8>, tag: Seq<u8>, p: int, pos: int) -> Option<(int, int)>
    decreases p + 1,
{
    if p < 0 {
        None
    } else if opens(s, p) && tag_opens(s, p, tag) && block_end(s, p).is_some() && block_end(
        s,
        p,
    ).unwrap() > pos {
        Some((p, block_end(s, p).unwrap()))
    } else {
        enclosing_from(s, tag, p - 1, pos)
    }
}

/// The innermost `(tag …)` block that `pos` lies in.
pub open spec fn enclosing_block(s: Seq<u8>, tag: Seq<u8>, pos: int) -> Option<(int, int)> {
    enclosing_from(s, tag, pos, pos)
}

/// Stepping over positions that open no `(tag …)` block.
pub proof fn lemma_enclosing_skip(s: Seq<u8>, tag: Seq<u8>, p: int, q: int, pos: int)
    requires
        q <= p,
        forall|k: int| q < k <= p ==> !(#[trigger] opens(s, k) && tag_opens(s, k, tag)),
    ensures
        enclosing_from(s, tag, p, pos) == enclosing_from(s, tag, q, pos),
    decreases p - q,
{
    if q < p && p >= 0 {
        assert(!(opens(s, p) && tag_opens(s, p, tag)));
        lemma_enclosing_skip(s, tag, p - 1, q, pos);
    } else if p < 0 {
    }
}

/// The innermost `(tag …)` block that byte `pos` lies in.
pub fn find_enclosing_block(content: &str, tag: &str, pos: usize) -> (r: Option<(usize, usize)>)
    requires
        pos < bytes(content@).len(),
    ensures
        range_of(r) == enclosing_block(bytes(content@), bytes(tag@), pos as int),
        match r {
            Some((a, b)) => closes_at(bytes(content@), a as int, b as int) && a <= pos < b,
            None => true,
        },
{
    let ghost s = bytes(content@);
    let starts = find_block_starts(content, tag);
    let ghost all = block_starts(s, bytes(tag@), s.len() as int);
    proof {
        law_block_starts(s, bytes(tag@), s.len() as int);
    }
    let mut k: usize = starts.len();
    // Every opening past `reach` is past `pos` or ends before it.
    let ghost mut reach: int = pos as int;
    while k > 0
        invariant
            s == bytes(content@),
            all == offsets(starts@),
            all == block_starts(s, bytes(tag@), s.len() as int),
            pos < s.len(),
            k <= starts.len(),
            reach <= pos,
            enclosing_block(s, bytes(tag@), pos as int) == enclosing_from(
                s,
                bytes(tag@),
                reach,
                pos as int,
            ),
            forall|i: int, j: int| 0 <= i < j < all.len() ==> #[trigger] all[i] < #[trigger] all[j],
            forall|p: int| #[trigger]
                all.contains(p) <==> p < s.len() && opens(s, p) && tag_opens(s, p, bytes(tag@)),
            forall|i: int|
                0 <= i < starts.len() ==> opens(s, #[trigger] starts[i] as int) && tag_opens(
                    s,
                    starts[i] as int,
                    bytes(tag@),
                ),
            forall|i: int| k <= i < all.len() ==> #[trigger] all[i] > reach,
            reach >= -1,
            forall|i: int| 0 <= i < k && #[trigger] all[i] <= pos ==> all[i] <= reach,
        decreases k,
    {
        k -= 1;
        let p = starts[k];
        assert(all[k as int] == p);
        if p <= pos {
            proof {
                assert forall|q: int| p < q <= reach implies !(#[trigger] opens(s, q)
                    && tag_opens(s, q, bytes(tag@))) by {
                    if opens(s, q) && tag_opens(s, q, bytes(tag@)) {
                        assert(all.contains(q));
                        let i = choose|i: int| 0 <= i < all.len() && all[i] == q;
                        if i > k {
                            assert(all[i] > reach);
                        } else if i < k {
                            assert(all[i] < all[k as int]);
                        }
                    }
                }
                lemma_enclosing_skip(s, bytes(tag@), reach, p as int, pos as int);
            }
            match find_block_end(content, p) {
                Some(e) => {
                    if e > pos {
                        return Some((p, e));
                    }
                },
                None => {},
            }
            proof {
                reach = p - 1;
            }
        }
    }
    proof {
        assert forall|q: int| -1 < q <= reach implies !(#[trigger] opens(s, q) && tag_opens(
            s,
            q,
            bytes(tag@),
        )) by {
            if opens(s, q) && tag_opens(s, q, bytes(tag@)) {
                assert(all.contains(q));
                let i = choose|i: int| 0 <= i < all.len() && all[i] == q;
                assert(all[i] > reach);
            }
        }
        lemma_enclosing_skip(s, bytes(tag@), reach, -1, pos as int);
    }
    None
}

/// The last opening at or before `p` of a direct child of the root.
pub open spec fn top_level_opening(s: Seq<u8>, p: int) -> Option<int>
    decreases p + 1,
{
    if p < 0 {
        None
    } else if opens(s, p) && lex(s, 0, p).depth == 1 {
        Some(p)
    } else {
        top_level_opening(s, p - 1)
    }
}

/// The direct child of the root that `pos` lies in.
pub open spec fn top_level_item(s: Seq<u8>, pos: int) -> Option<(int, int)> {
    match top_level_opening(s, pos) {
        None => None,
        Some(p) => match block_end(s, p) {
            None => None,
            Some(e) => if e > pos {
                Some((p, e))
            } else {
                None
            },
        },
    }
}

/// The direct child of the root that byte `pos` lies in.
pub fn find_top_level_item(content: &str, pos: usize) -> (r: Option<(usize, usize)>)
    requires
        pos < bytes(content@).len(),
    ensures
        range_of(r) == top_level_item(bytes(content@), pos as int),
        match r {
            Some((a, b)) => closes_at(bytes(content@), a as int, b as int) && a <= pos < b,
            None => true,
        },
{
    let ghost s = bytes(content@);
    let mut st = Lexer::start();
    let mut i: usize = 0;
    let mut last: Option<usize> = None;
    let n = length(content);
    while i <= pos
        invariant
            s == bytes(content@),
            n == s.len(),
            pos < s.len(),
            i <= pos + 1,
            st.model() == lex(s, 0, i as int),
            st.depth <= i,
            match last {
                Some(p) => top_level_opening(s, i - 1) == Some(p as int) && p < i && s[p as int] == OPEN,
                None => top_level_opening(s, i - 1).is_none(),
            },
        decreases pos + 1 - i,
    {
        let b = byte_at(content, i);
        if b == OPEN && !st.in_string && st.depth == 1 {
            last = Some(i);
        }
        st = st.step(b);
        i += 1;
    }
    match last {
        None => None,
        Some(p) => match find_block_end(content, p) {
            None => None,
            Some(e) => if e > pos {
                Some((p, e))
            } else {
                None
            },
        },
    }
}

// ─── Leading white space ─────────────────────────────────────────────────────

/// Where the run of spaces and tabs before `at` begins.
pub open spec fn indent_start(s: Seq<u8>, at: int) -> int
    decreases at,
{
    if at > 0 && (s[at - 1] == 0x20 || s[at - 1] == 0x09) {
        indent_start(s, at - 1)
    } else {
        at
    }
}

/// Where the white space that belongs to the item at `at` begins: its
/// indentation, and the line break before that.
pub open spec fn lead_start(s: Seq<u8>, at: int) -> int {
    let h = indent_start(s, at);
    if h > 0 && s[h - 1] == 0x0a {
        h - 1
    } else {
        h
    }
}

/// The block at `start` together with the white space before it.
pub open spec fn block_with_lead(s: Seq<u8>, start: int) -> Option<(int, int)> {
    match balanced_block(s, start) {
        None => None,
        Some((a, e)) => Some((lead_start(s, a), e)),
    }
}

/// The indentation before a position lies before it and is made of spaces and
/// tabs.
pub proof fn lemma_lead(t: Seq<char>, at: int)
    requires
        0 <= at <= bytes(t).len(),
        boundary(bytes(t), at),
    ensures
        0 <= lead_start(bytes(t), at) <= indent_start(bytes(t), at) <= at,
        boundary(bytes(t), lead_start(bytes(t), at)),
        boundary(bytes(t), indent_start(bytes(t), at)),
    decreases at,
{
    let s = bytes(t);
    if at > 0 && (s[at - 1] == 0x20 || s[at - 1] == 0x09) {
        lemma_ascii_boundary(t, at - 1);
        lemma_lead(t, at - 1);
    } else if at > 0 && s[at - 1] == 0x0a {
        lemma_ascii_boundary(t, at - 1);
    }
}

/// Where the indentation before `at` begins.
pub fn find_indent(content: &str, at: usize) -> (r: usize)
    requires
        at <= bytes(content@).len(),
    ensures
        r == indent_start(bytes(content@), at as int),
        r <= at,
{
    let mut h: usize = at;
    while h > 0 && (byte_at(content, h - 1) == 0x20 || byte_at(content, h - 1) == 0x09)
        invariant
            h <= at <= bytes(content@).len(),
            indent_start(bytes(content@), at as int) == indent_start(bytes(content@), h as int),
        decreases h,
    {
        h -= 1;
    }
    h
}

/// The block at `start` together with the white space before it, so that
/// deleting the range leaves no blank line behind.
pub fn find_block_with_leading_whitespace(content: &str, start: usize) -> (r: Option<
    (usize, usize),
>)
    ensures
        range_of(r) == block_with_lead(bytes(content@), start as int),
        match r {
            Some((a, b)) => cuttable(bytes(content@), a as int, b as int) && a < b,
            None => true,
        },
{
    match find_balanced_block(content, start) {
        None => None,
        Some((a, e)) => {
            proof {
                lemma_block_cuttable(content@, a as int, e as int);
                lemma_lead(content@, a as int);
            }
            let h = find_indent(content, a);
            if h > 0 && byte_at(content, h - 1) == 0x0a {
                Some((h - 1, e))
            } else {
                Some((h, e))
            }
        },
    }
}

// ─── Whole documents ─────────────────────────────────────────────────────────

/// The first position at or after `i` that is not ASCII white space.
pub open spec fn skip_blank(s: Seq<u8>, i: int) -> int
    decreases s.len() - i,
{
    if 0 <= i < s.len() && blank(s[i]) {
        skip_blank(s, i + 1)
    } else {
        i
    }
}

/// Skips ASCII white space from `i` on, no further than `stop`.
pub fn skip_blanks(content: &str, i: usize) -> (r: usize)
    requires
        i <= bytes(content@).len(),
    ensures
        r == skip_blank(bytes(content@), i as int),
        i <= r <= bytes(content@).len(),
{
    let n = length(content);
    let mut k: usize = i;
    while k < n && is_blank(byte_at(content, k))
        invariant
            n == bytes(content@).len(),
            i <= k <= n,
            skip_blank(bytes(content@), i as int) == skip_blank(bytes(content@), k as int),
        decreases n - k,
    {
        k += 1;
    }
    k
}

/// Why a text is not a document with the expected root.
#[derive(Clone, Copy, Debug, PartialEq, Eq, Structural)]
pub enum DocumentError {
    /// It does not begin with a block.
    NoRoot,
    /// Its root block has another tag.
    WrongRoot,
    /// Its root block never closes.
    Unbalanced,
    /// Something follows its root block.
    TrailingContent,
}

/// What is wrong with `s` as a document whose root is `(tag …)`.
pub open spec fn document_fault(s: Seq<u8>, tag: Seq<u8>) -> Option<DocumentError> {
    let root = skip_blank(s, 0);
    if root >= s.len() || s[root] != OPEN {
        Some(DocumentError::NoRoot)
    } else if !tag_opens(s, root, tag) {
        Some(DocumentError::WrongRoot)
    } else {
        match block_end(s, root) {
            None => Some(DocumentError::Unbalanced),
            Some(e) => if skip_blank(s, e) < s.len() {
                Some(DocumentError::TrailingContent)
            } else {
                None
            },
        }
    }
}

/// `s` is one balanced `(tag …)` block with at most white space around it.
pub open spec fn is_document(s: Seq<u8>, tag: Seq<u8>) -> bool {
    document_fault(s, tag).is_none()
}

/// Accept `content` only if it is one balanced `(tag …)` block.
pub fn check_document(content: &str, tag: &str) -> (r: Result<(), DocumentError>)
    ensures
        match r {
            Ok(()) => is_document(bytes(content@), bytes(tag@)),
            Err(e) => document_fault(bytes(content@), bytes(tag@)) == Some(e),
        },
{
    let n = length(content);
    let root = skip_blanks(content, 0);
    if root >= n || byte_at(content, root) != OPEN {
        return Err(DocumentError::NoRoot);
    }
    if !tag_opens_at(content, root, tag) {
        return Err(DocumentError::WrongRoot);
    }
    match find_block_end(content, root) {
        None => Err(DocumentError::Unbalanced),
        Some(e) => {
            if skip_blanks(content, e) < n {
                Err(DocumentError::TrailingContent)
            } else {
                Ok(())
            }
        },
    }
}

impl DocumentError {
    /// The fault in words.
    pub open spec fn words(&self) -> Seq<char> {
        match self {
            DocumentError::NoRoot => "the document has no root block"@,
            DocumentError::WrongRoot => "the root block has the wrong tag"@,
            DocumentError::Unbalanced => "the root block is unbalanced"@,
            DocumentError::TrailingContent => "there is content after the root block"@,
        }
    }

    /// The fault in words.
    pub fn message(&self) -> (r: String)
        ensures
            r@ == self.words(),
    {
        match self {
            DocumentError::NoRoot => copy("the document has no root block"),
            DocumentError::WrongRoot => copy("the root block has the wrong tag"),
            DocumentError::Unbalanced => copy("the root block is unbalanced"),
            DocumentError::TrailingContent => copy("there is content after the root block"),
        }
    }
}

} // verus!
