//! The `(at x y [angle])` of an item, as byte ranges of its numbers.
//!
//! The token ranges are what make an edit surgical: setting x rewrites the x
//! token alone, so the file's own spacing and number formatting survive
//! everywhere else.

#[allow(unused_imports)]
use crate::chars::{blank, first_char, is_blank, is_white, white};
use crate::edit::{SexpEdit, Splice};
use crate::number::{is_number, number};
#[allow(unused_imports)]
use crate::scan::{balanced_block, closes_at, cuttable, find_balanced_block, lemma_block_cuttable, OPEN};
use crate::sexp::string_opt;
#[allow(unused_imports)]
use crate::text::{
    boundary, byte_at, bytes, copy, lemma_ascii_boundary, lemma_bytes_ascii, lemma_first_byte,
    match_at, matches_at, put, slice, text_of,
};
use vstd::prelude::*;
use vstd::string::*;

verus! {

/// An `(at x y [angle])` node, with the byte range of each number as written.
#[derive(Debug)]
pub struct AtNode {
    /// Byte range of the whole `(at …)` block.
    pub start: usize,
    pub end: usize,
    /// Byte ranges of the numbers, in order: x, y, and the angle when present.
    pub tokens: Vec<(usize, usize)>,
}

/// An `(at …)` node as a value.
pub struct At {
    pub start: int,
    pub end: int,
    pub tokens: Seq<(int, int)>,
}

/// A list of ranges as integers.
pub open spec fn ranges(v: Seq<(usize, usize)>) -> Seq<(int, int)> {
    Seq::new(v.len(), |i: int| (v[i].0 as int, v[i].1 as int))
}

/// An optional `(at …)` node as a value.
pub open spec fn at_opt(a: Option<AtNode>) -> Option<At> {
    match a {
        Some(x) => Some(x.model()),
        None => None,
    }
}

/// Where the word at `i` ends: at white space or at `stop`.
pub open spec fn word_end(s: Seq<u8>, i: int, stop: int) -> int
    decreases stop - i,
{
    if i < stop && !blank(s[i]) {
        word_end(s, i + 1, stop)
    } else {
        i
    }
}

/// The words of `s` in `i..stop`, split at ASCII white space.
pub open spec fn words_in(s: Seq<u8>, i: int, stop: int) -> Seq<(int, int)>
    decreases stop - i,
{
    if i >= stop {
        Seq::empty()
    } else if blank(s[i]) {
        words_in(s, i + 1, stop)
    } else if !(i < word_end(s, i + 1, stop) <= stop) {
        Seq::empty()
    } else {
        seq![(i, word_end(s, i + 1, stop))] + words_in(s, word_end(s, i + 1, stop), stop)
    }
}

/// Every word is a number.
pub open spec fn all_numbers(s: Seq<u8>, words: Seq<(int, int)>) -> bool {
    forall|k: int| 0 <= k < words.len() ==> is_number(
        s.subrange((#[trigger] words[k]).0, words[k].1),
    )
}

/// The `(at …)` node that opens at or after `node_start`: two or three numbers
/// after the tag, and nothing else.
pub open spec fn at_node(s: Seq<u8>, node_start: int) -> Option<At> {
    match balanced_block(s, node_start) {
        None => None,
        Some((a, e)) => {
            let words = words_in(s, a + 3, e - 1);
            if a + 3 <= e - 1 && matches_at(s, a + 1, bytes("at"@)) && (a + 3 == e - 1 || is_white(
                text_of(s.subrange(a + 3, e - 1))[0],
            )) && all_numbers(s, words) && (words.len() == 2 || words.len() == 3) {
                Some(At { start: a, end: e, tokens: words })
            } else {
                None
            }
        },
    }
}

/// The words in a range lie in it, in order, apart, and may be cut out.
pub proof fn lemma_words(t: Seq<char>, i: int, stop: int)
    requires
        0 <= i <= stop <= bytes(t).len(),
        boundary(bytes(t), i),
        boundary(bytes(t), stop),
    ensures
        forall|k: int| #![trigger words_in(bytes(t), i, stop)[k]]
            0 <= k < words_in(bytes(t), i, stop).len() ==> {
                let w = words_in(bytes(t), i, stop)[k];
                i <= w.0 < w.1 <= stop && cuttable(bytes(t), w.0, w.1)
            },
        forall|j: int, k: int|
            0 <= j < k < words_in(bytes(t), i, stop).len() ==> (#[trigger] words_in(bytes(t), i, stop)[j]).1
                <= (#[trigger] words_in(bytes(t), i, stop)[k]).0,
    decreases stop - i,
{
    let s = bytes(t);
    let all = words_in(s, i, stop);
    if i >= stop {
    } else if blank(s[i]) {
        lemma_ascii_boundary(t, i);
        lemma_words(t, i + 1, stop);
        assert(all == words_in(s, i + 1, stop));
        assert forall|k: int| #![trigger all[k]] 0 <= k < all.len() implies ({
            let w = all[k];
            i <= w.0 < w.1 <= stop && cuttable(s, w.0, w.1)
        }) by {
            assert(words_in(s, i + 1, stop)[k] == all[k]);
        }
    } else {
        let e = word_end(s, i + 1, stop);
        lemma_word_end(s, i + 1, stop);
        if e < stop {
            lemma_ascii_boundary(t, e);
        }
        lemma_words(t, e, stop);
        let rest = words_in(s, e, stop);
        assert forall|k: int| #![trigger all[k]] 0 <= k < all.len() implies ({
            let w = all[k];
            i <= w.0 < w.1 <= stop && cuttable(s, w.0, w.1)
        }) by {
            if k > 0 {
                assert(all[k] == rest[k - 1]);
            }
        }
        assert forall|j: int, k: int| 0 <= j < k < all.len() implies (#[trigger] all[j]).1 <= (
        #[trigger] all[k]).0 by {
            assert(all[k] == rest[k - 1]);
            if j > 0 {
                assert(all[j] == rest[j - 1]);
            }
        }
    }
}

proof fn lemma_word_end(s: Seq<u8>, i: int, stop: int)
    requires
        0 <= i <= stop,
    ensures
        i <= word_end(s, i, stop) <= stop,
        word_end(s, i, stop) < stop ==> blank(s[word_end(s, i, stop)]),
    decreases stop - i,
{
    if i < stop && !blank(s[i]) {
        lemma_word_end(s, i + 1, stop);
    }
}

impl AtNode {
    pub open spec fn model(&self) -> At {
        At { start: self.start as int, end: self.end as int, tokens: ranges(self.tokens@) }
    }

    /// A copy of this node.
    pub fn duplicate(&self) -> (r: AtNode)
        ensures
            r.model() == self.model(),
    {
        let mut tokens: Vec<(usize, usize)> = Vec::new();
        let mut i: usize = 0;
        while i < self.tokens.len()
            invariant
                i <= self.tokens.len(),
                tokens@ == self.tokens@.take(i as int),
            decreases self.tokens.len() - i,
        {
            tokens.push(self.tokens[i]);
            i += 1;
            assert(tokens@ =~= self.tokens@.take(i as int));
        }
        assert(tokens@ =~= self.tokens@);
        AtNode { start: self.start, end: self.end, tokens }
    }

    /// Whether the node gives an angle.
    pub fn has_angle(&self) -> (r: bool)
        ensures
            r == self.model().has_angle(),
    {
        self.tokens.len() == 3
    }

    /// The edit that makes token `i` read `text`; none where `text` is `None`,
    /// which says that the token already holds the value.
    pub fn set_token(&self, i: usize, text: &Option<String>) -> (r: Option<SexpEdit>)
        ensures
            edit_opt(r) == self.model().token_edit(i as int, string_opt(*text)),
    {
        if i >= self.tokens.len() {
            return None;
        }
        let (s, e) = self.tokens[i];
        assert(self.model().tokens[i as int] == (s as int, e as int));
        // A splice that reaches outside the node it belongs to is not made.
        if s < self.start || e > self.end {
            return None;
        }
        match text {
            None => None,
            Some(t) => Some(SexpEdit::replace(s, e, t.clone())),
        }
    }

    /// The edit that gives this node a new angle.
    ///
    /// An existing angle is rewritten in place. A node that omits the angle only
    /// gains one when the new angle is not zero, because omitted means zero.
    pub fn set_angle(&self, angle: &NewAngle) -> (r: Option<SexpEdit>)
        ensures
            edit_opt(r) == self.model().angle_edit(angle.model()),
    {
        if self.tokens.len() == 3 {
            if angle.unchanged {
                let none: Option<String> = None;
                return self.set_token(2, &none);
            }
            return self.set_token(2, &Some(angle.text.clone()));
        }
        if angle.is_zero || self.tokens.len() == 0 {
            return None;
        }
        let last = self.tokens.len() - 1;
        let after_last = self.tokens[last].1;
        assert(self.model().tokens[last as int].1 == after_last);
        // The new field goes inside the node, never past its closing parenthesis.
        if after_last >= self.end {
            return None;
        }
        let mut text = copy(" ");
        put(&mut text, angle.text.as_str());
        Some(SexpEdit::insert(after_last, text))
    }
}

/// A new angle: its text, whether it is zero, and whether the node that is to
/// get it already has that value.
#[derive(Debug)]
pub struct NewAngle {
    pub text: String,
    pub is_zero: bool,
    pub unchanged: bool,
}

/// A new angle as a value.
pub struct Angle {
    pub text: Seq<char>,
    pub is_zero: bool,
    pub unchanged: bool,
}

impl NewAngle {
    pub open spec fn model(&self) -> Angle {
        Angle { text: self.text@, is_zero: self.is_zero, unchanged: self.unchanged }
    }
}

/// The values of a list of new angles.
pub open spec fn angles(v: Seq<NewAngle>) -> Seq<Angle> {
    Seq::new(v.len(), |i: int| v[i].model())
}

/// An optional edit as a value.
pub open spec fn edit_opt(e: Option<SexpEdit>) -> Option<Splice> {
    match e {
        Some(x) => Some(x.model()),
        None => None,
    }
}

impl At {
    /// Whether the node gives an angle.
    pub open spec fn has_angle(&self) -> bool {
        self.tokens.len() == 3
    }

    /// The edit that makes token `i` read `text`.
    pub open spec fn token_edit(&self, i: int, text: Option<Seq<char>>) -> Option<Splice> {
        match text {
            None => None,
            Some(t) => if 0 <= i < self.tokens.len() && self.start <= self.tokens[i].0
                && self.tokens[i].1 <= self.end {
                Some(Splice { start: self.tokens[i].0, end: self.tokens[i].1, bytes: bytes(t) })
            } else {
                None
            },
        }
    }

    /// The edit that gives the node a new angle.
    pub open spec fn angle_edit(&self, angle: Angle) -> Option<Splice> {
        if self.has_angle() {
            self.token_edit(
                2,
                if angle.unchanged {
                    None
                } else {
                    Some(angle.text)
                },
            )
        } else if angle.is_zero || self.tokens.len() == 0 || self.tokens.last().1 >= self.end {
            None
        } else {
            Some(
                Splice {
                    start: self.tokens.last().1,
                    end: self.tokens.last().1,
                    bytes: bytes(" "@ + angle.text),
                },
            )
        }
    }
}

/// Parse the `(at …)` block that opens at `node_start`.
///
/// `None` when it is not an `(at …)`, when it has the wrong number of fields, or
/// when any field is not a plain number: anything else is unknown syntax and not
/// something to guess at.
pub fn parse_at(content: &str, node_start: usize) -> (r: Option<AtNode>)
    ensures
        at_opt(r) == at_node(bytes(content@), node_start as int),
{
    let ghost s = bytes(content@);
    let (a, e) = match find_balanced_block(content, node_start) {
        None => {
            return None;
        },
        Some(x) => x,
    };
    proof {
        lemma_block_cuttable(content@, a as int, e as int);
        reveal_strlit("at");
        lemma_bytes_ascii("at"@);
    }
    if e - a < 4 || !match_at(content, a + 1, "at") {
        return None;
    }
    let base: usize = a + 3;
    let stop: usize = e - 1;
    proof {
        assert(s.subrange(a + 1, a + 3)[1] == s[a + 2]);
        lemma_ascii_boundary(content@, a + 2);
    }
    if base < stop {
        let after = slice(content, base, stop);
        proof {
            if after@.len() == 0 {
                assert(bytes(after@) =~= Seq::<u8>::empty());
            }
        }
        match first_char(after) {
            Some(c) => {
                if !white(c) {
                    return None;
                }
            },
            None => {
                return None;
            },
        }
    }
    let ghost all = words_in(s, base as int, stop as int);
    proof {
        lemma_words(content@, base as int, stop as int);
    }
    let mut tokens: Vec<(usize, usize)> = Vec::new();
    let mut i: usize = base;
    assert(ranges(tokens@) + all =~= all);
    while i < stop
        invariant
            s == bytes(content@),
            base <= i <= stop < s.len(),
            base == a + 3,
            boundary(s, i as int),
            boundary(s, stop as int),
            all == words_in(s, base as int, stop as int),
            ranges(tokens@) + words_in(s, i as int, stop as int) == all,
            forall|k: int|
                0 <= k < tokens.len() ==> is_number(
                    s.subrange((#[trigger] tokens[k]).0 as int, tokens[k].1 as int),
                ),
            match at_node(s, node_start as int) {
                Some(at) => at == (At { start: a as int, end: e as int, tokens: all }),
                None => true,
            },
            !all_numbers(s, all) ==> at_node(s, node_start as int).is_none(),
        decreases stop - i,
    {
        if is_blank(byte_at(content, i)) {
            proof {
                lemma_ascii_boundary(content@, i as int);
            }
            i += 1;
            continue;
        }
        let from = i;
        i += 1;
        while i < stop && !is_blank(byte_at(content, i))
            invariant
                s == bytes(content@),
                from < i <= stop < s.len(),
                word_end(s, from + 1, stop as int) == word_end(s, i as int, stop as int),
            decreases stop - i,
        {
            i += 1;
        }
        proof {
            if i < stop {
                lemma_ascii_boundary(content@, i as int);
            }
        }
        let ghost was = ranges(tokens@);
        let ghost rest = words_in(s, i as int, stop as int);
        proof {
            assert(words_in(s, from as int, stop as int) == seq![(from as int, i as int)] + rest);
            assert(all =~= was.push((from as int, i as int)) + rest);
        }
        if !number(slice(content, from, i)) {
            proof {
                let k = was.len() as int;
                assert(all[k] == (from as int, i as int));
                assert(!is_number(s.subrange(all[k].0, all[k].1)));
                assert(!all_numbers(s, all));
            }
            return None;
        }
        tokens.push((from, i));
        assert(ranges(tokens@) =~= was.push((from as int, i as int)));
    }
    proof {
        assert(ranges(tokens@) =~= all);
        assert forall|k: int| 0 <= k < all.len() implies is_number(
            s.subrange((#[trigger] all[k]).0, all[k].1),
        ) by {
            assert(all[k] == (tokens[k].0 as int, tokens[k].1 as int));
        }
    }
    if tokens.len() != 2 && tokens.len() != 3 {
        return None;
    }
    Some(AtNode { start: a, end: e, tokens })
}

/// The numbers of an `(at …)` node stand inside it, in order and apart, and may be
/// cut out.
pub proof fn law_at_tokens(t: Seq<char>, node_start: int)
    requires
        0 <= node_start,
        at_node(bytes(t), node_start).is_some(),
    ensures
        ({
            let at = at_node(bytes(t), node_start).unwrap();
            &&& closes_at(bytes(t), at.start, at.end)
            &&& at.tokens.len() == 2 || at.tokens.len() == 3
            &&& forall|k: int| 0 <= k < at.tokens.len() ==> at.start < (#[trigger] at.tokens[k]).0
                && at.tokens[k].0 < at.tokens[k].1 < at.end && cuttable(
                bytes(t),
                at.tokens[k].0,
                at.tokens[k].1,
            )
            &&& forall|j: int, k: int| 0 <= j < k < at.tokens.len() ==> (#[trigger] at.tokens[j]).1 <= (
            #[trigger] at.tokens[k]).0
        }),
{
    let s = bytes(t);
    let at = at_node(s, node_start).unwrap();
    lemma_first_byte(s, OPEN, node_start);
    crate::scan::lemma_block_end_is(s, at.start);
    lemma_block_cuttable(t, at.start, at.end);
    reveal_strlit("at");
    lemma_bytes_ascii("at"@);
    assert(s.subrange(at.start + 1, at.start + 3)[1] == s[at.start + 2]);
    lemma_ascii_boundary(t, at.start + 2);
    lemma_words(t, at.start + 3, at.end - 1);
    assert forall|k: int| 0 <= k < at.tokens.len() implies at.start < (#[trigger] at.tokens[k]).0
        && at.tokens[k].0 < at.tokens[k].1 < at.end && cuttable(s, at.tokens[k].0, at.tokens[k].1) by {
        assert(at.tokens[k] == words_in(s, at.start + 3, at.end - 1)[k]);
    }
}

/// Giving a node another angle leaves its x and its y alone: what the edit replaces
/// comes after them and lies inside the node.
pub proof fn law_new_angle_keeps_the_place(t: Seq<char>, node_start: int, angle: Angle)
    requires
        0 <= node_start,
        at_node(bytes(t), node_start).is_some(),
    ensures
        ({
            let at = at_node(bytes(t), node_start).unwrap();
            at.angle_edit(angle) matches Some(e) ==> at.tokens[0].1 <= at.tokens[1].0 && at.tokens[1].1
                <= e.start && e.start <= e.end && e.end < at.end
        }),
{
    law_at_tokens(t, node_start);
}

} // verus!
