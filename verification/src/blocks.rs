//! The children and tokens of a block, as byte ranges.

#[allow(unused_imports)]
use crate::chars::{blank, digit, is_blank, is_digit};
#[allow(unused_imports)]
use crate::scan::{
    block_end, closes_at, cuttable, find_block_end, lemma_block_end_is, lemma_depth_bound,
    lemma_lex_over_block, lex, lex_step, outside, Lexer, CLOSE, OPEN, QUOTE,
};
use crate::sexp::{read_string, string_close, unescaped};
#[allow(unused_imports)]
use crate::sexp::{escape_text, quoted_text};
#[allow(unused_imports)]
use crate::text::{
    boundary, byte_at, bytes, copy, lemma_ascii_boundary, length, put, same, slice, text_of,
};
use vstd::prelude::*;
use vstd::string::*;

verus! {

// ─── Tags ────────────────────────────────────────────────────────────────────

/// A byte of a tag: an ASCII letter, a digit or an underscore.
pub open spec fn tag_byte(b: u8) -> bool {
    (65 <= b <= 90) || (97 <= b <= 122) || digit(b) || b == 95
}

/// Where the tag bytes from `i` on end.
pub open spec fn tag_end(s: Seq<u8>, i: int) -> int
    decreases s.len() - i,
{
    if 0 <= i < s.len() && tag_byte(s[i]) {
        tag_end(s, i + 1)
    } else {
        i
    }
}

/// The tag of the block that opens at `open`: `(fp_line …)` has `fp_line`.
pub open spec fn tag_text(s: Seq<u8>, open: int) -> Seq<char> {
    text_of(s.subrange(open + 1, tag_end(s, open + 1)))
}

/// The tag of the block that opens at `open`.
pub fn tag_at(content: &str, open: usize) -> (r: String)
    requires
        open < bytes(content@).len(),
        bytes(content@)[open as int] < 128,
    ensures
        r@ == tag_text(bytes(content@), open as int),
{
    let n = length(content);
    let mut i: usize = open + 1;
    proof {
        lemma_ascii_boundary(content@, open as int);
    }
    while i < n
        invariant
            n == bytes(content@).len(),
            open < i <= n,
            boundary(bytes(content@), open + 1),
            boundary(bytes(content@), i as int),
            tag_end(bytes(content@), open + 1) == tag_end(bytes(content@), i as int),
        decreases n - i,
    {
        let b = byte_at(content, i);
        if !((65 <= b && b <= 90) || (97 <= b && b <= 122) || is_digit(b) || b == 95) {
            return copy(slice(content, open + 1, i));
        }
        proof {
            lemma_ascii_boundary(content@, i as int);
        }
        i += 1;
    }
    copy(slice(content, open + 1, i))
}

// ─── Children ────────────────────────────────────────────────────────────────

/// A direct child of a block: its tag and the byte range it occupies.
#[derive(Debug)]
pub struct Child {
    pub tag: String,
    pub start: usize,
    pub end: usize,
}

/// The blocks that open at or after `pos`, directly inside the block that opens
/// at `start` and ends at `stop`.
pub open spec fn children_from(s: Seq<u8>, start: int, pos: int, stop: int) -> Seq<(int, int)>
    decreases stop - pos,
{
    if pos >= stop {
        Seq::empty()
    } else if s[pos] == OPEN && !lex(s, start, pos).in_string {
        match block_end(s, pos) {
            Some(e) => if pos < e < stop {
                seq![(pos, e)] + children_from(s, start, e, stop)
            } else {
                Seq::empty()
            },
            None => Seq::empty(),
        }
    } else {
        children_from(s, start, pos + 1, stop)
    }
}

/// The direct children of the block `start..end`, in order.
pub open spec fn children(s: Seq<u8>, start: int, end: int) -> Seq<(int, int)> {
    children_from(s, start, start + 1, end)
}

/// The ranges of a list of children.
pub open spec fn child_ranges(v: Seq<Child>) -> Seq<(int, int)> {
    Seq::new(v.len(), |i: int| (v[i].start as int, v[i].end as int))
}

/// A child as read from the text.
pub open spec fn child_fits(s: Seq<u8>, c: Child) -> bool {
    &&& closes_at(s, c.start as int, c.end as int)
    &&& c.tag@ == tag_text(s, c.start as int)
}

/// Every direct child of the block `start..end`, in file order, with its tag.
///
/// A footprint's own `(at …)` is a direct child; the `(at …)` inside one of its
/// properties is not, and neither is anything that merely looks like a block
/// inside a quoted string.
pub fn child_blocks(content: &str, start: usize, end: usize) -> (r: Vec<Child>)
    requires
        closes_at(bytes(content@), start as int, end as int),
    ensures
        child_ranges(r@) == children(bytes(content@), start as int, end as int),
        forall|i: int| 0 <= i < r.len() ==> child_fits(bytes(content@), #[trigger] r[i]),
        forall|i: int| 0 <= i < r.len() ==> start < (#[trigger] r[i]).start && r[i].end < end,
        forall|i: int, j: int| 0 <= i < j < r.len() ==> (#[trigger] r[i]).end <= (#[trigger] r[j]).start,
{
    let ghost s = bytes(content@);
    let n = length(content);
    let mut out: Vec<Child> = Vec::new();
    let mut st = Lexer::start().step(OPEN);
    let mut pos: usize = start + 1;
    proof {
        assert(lex(s, start as int, start as int) == outside());
        assert(child_ranges(out@) + children_from(s, start as int, pos as int, end as int)
            =~= children(s, start as int, end as int));
    }
    while pos < end
        invariant
            s == bytes(content@),
            n == s.len(),
            start < pos <= end <= n,
            st.model() == lex(s, start as int, pos as int),
            st.depth <= pos - start,
            child_ranges(out@) + children_from(s, start as int, pos as int, end as int) == children(
                s,
                start as int,
                end as int,
            ),
            forall|i: int| 0 <= i < out.len() ==> child_fits(s, #[trigger] out[i]),
            forall|i: int| 0 <= i < out.len() ==> start < (#[trigger] out[i]).start && out[i].end < end
                && out[i].end <= pos,
            forall|i: int, j: int|
                0 <= i < j < out.len() ==> (#[trigger] out[i]).end <= (#[trigger] out[j]).start,
        decreases end - pos,
    {
        let b = byte_at(content, pos);
        if b == OPEN && !st.in_string {
            match find_block_end(content, pos) {
                Some(e) => {
                    if e < end {
                        let tag = tag_at(content, pos);
                        let ghost was = child_ranges(out@);
                        out.push(Child { tag, start: pos, end: e });
                        proof {
                            lemma_depth_bound(s, start as int, pos as int);
                            lemma_lex_over_block(s, start as int, pos as int, e as int);
                            assert(child_ranges(out@) =~= was.push((pos as int, e as int)));
                            let rest = children_from(s, start as int, e as int, end as int);
                            assert(was + (seq![(pos as int, e as int)] + rest) =~= was.push(
                                (pos as int, e as int),
                            ) + rest);
                        }
                        pos = e;
                    } else {
                        assert(child_ranges(out@) =~= children(s, start as int, end as int));
                        return out;
                    }
                },
                None => {
                    assert(child_ranges(out@) =~= children(s, start as int, end as int));
                    return out;
                },
            }
        } else {
            st = st.step(b);
            pos += 1;
        }
    }
    assert(child_ranges(out@) =~= children(s, start as int, end as int));
    out
}

/// Every child listed is a block directly inside its parent, and so outside every
/// string and inside no other child.
pub proof fn law_children_are_direct(s: Seq<u8>, start: int, pos: int, end: int)
    requires
        closes_at(s, start, end),
        start < pos <= end,
        pos < end ==> lex(s, start, pos).depth == 1,
    ensures
        forall|i: int| #![trigger children_from(s, start, pos, end)[i]]
            0 <= i < children_from(s, start, pos, end).len() ==> {
                let c = children_from(s, start, pos, end)[i];
                &&& pos <= c.0
                &&& closes_at(s, c.0, c.1)
                &&& c.1 < end
                &&& lex(s, start, c.0).depth == 1
                &&& !lex(s, start, c.0).in_string
            },
    decreases end - pos,
{
    let l = lex(s, start, pos);
    if pos >= end {
    } else if s[pos] == OPEN && !l.in_string {
        lemma_block_end_is(s, pos);
        if let Some(e) = block_end(s, pos) {
            if pos < e < end {
                lemma_depth_bound(s, start, pos);
                lemma_lex_over_block(s, start, pos, e);
                law_children_are_direct(s, start, e, end);
                let rest = children_from(s, start, e, end);
                let all = children_from(s, start, pos, end);
                assert forall|i: int| #![trigger all[i]] 0 <= i < all.len() implies ({
                    let c = all[i];
                    &&& pos <= c.0
                    &&& closes_at(s, c.0, c.1)
                    &&& c.1 < end
                    &&& lex(s, start, c.0).depth == 1
                    &&& !lex(s, start, c.0).in_string
                }) by {
                    if i > 0 {
                        assert(all[i] == rest[i - 1]);
                    }
                }
            }
        }
    } else {
        assert(lex(s, start, pos + 1) == lex_step(l, s[pos]));
        if pos + 1 < end {
            assert(lex(s, start, pos + 1).depth > 0);
        }
        law_children_are_direct(s, start, pos + 1, end);
        let rest = children_from(s, start, pos + 1, end);
        assert(children_from(s, start, pos, end) == rest);
        assert forall|i: int| #![trigger children_from(s, start, pos, end)[i]]
            0 <= i < children_from(s, start, pos, end).len() implies ({
            let c = children_from(s, start, pos, end)[i];
            &&& pos <= c.0
            &&& closes_at(s, c.0, c.1)
            &&& c.1 < end
            &&& lex(s, start, c.0).depth == 1
            &&& !lex(s, start, c.0).in_string
        }) by {
            assert(rest[i] == children_from(s, start, pos, end)[i]);
        }
    }
}

/// Whether some child has the tag, at or after position `k` of the list.
pub open spec fn tagged_child(s: Seq<u8>, kids: Seq<(int, int)>, tag: Seq<char>, k: int) -> Option<int>
    decreases kids.len() - k,
{
    if k < 0 || k >= kids.len() {
        None
    } else if tag_text(s, kids[k].0) == tag {
        Some(kids[k].0)
    } else {
        tagged_child(s, kids, tag, k + 1)
    }
}

/// Where the first child with the tag opens.
pub fn find_child(content: &str, kids: &Vec<Child>, tag: &str) -> (r: Option<usize>)
    requires
        forall|i: int| 0 <= i < kids.len() ==> child_fits(bytes(content@), #[trigger] kids[i]),
    ensures
        match r {
            Some(p) => tagged_child(bytes(content@), child_ranges(kids@), tag@, 0) == Some(p as int) && p
                < bytes(content@).len() && bytes(content@)[p as int] == OPEN,
            None => tagged_child(bytes(content@), child_ranges(kids@), tag@, 0).is_none(),
        },
{
    let ghost s = bytes(content@);
    let ghost all = child_ranges(kids@);
    let mut k: usize = 0;
    while k < kids.len()
        invariant
            s == bytes(content@),
            all == child_ranges(kids@),
            k <= kids.len(),
            forall|i: int| 0 <= i < kids.len() ==> child_fits(s, #[trigger] kids[i]),
            tagged_child(s, all, tag@, 0) == tagged_child(s, all, tag@, k as int),
        decreases kids.len() - k,
    {
        assert(child_fits(s, kids[k as int]));
        assert(all[k as int] == (kids[k as int].start as int, kids[k as int].end as int));
        if same(kids[k].tag.as_str(), tag) {
            return Some(kids[k].start);
        }
        k += 1;
    }
    None
}

// ─── Tokens ──────────────────────────────────────────────────────────────────

/// The first position in `i..stop` that is not ASCII white space.
pub open spec fn skip_to(s: Seq<u8>, i: int, stop: int) -> int
    decreases stop - i,
{
    if i < stop && blank(s[i]) {
        skip_to(s, i + 1, stop)
    } else {
        i
    }
}

/// Where the bare word at `i` ends: at white space, at a parenthesis or at
/// `stop`.
pub open spec fn bare_end(s: Seq<u8>, i: int, stop: int) -> int
    decreases stop - i,
{
    if i < stop && !blank(s[i]) && s[i] != OPEN && s[i] != CLOSE {
        bare_end(s, i + 1, stop)
    } else {
        i
    }
}

/// The token at or after `from`: a quoted string with its escapes resolved, or a
/// bare word. Its text and the range it occupies, quotes among it.
pub open spec fn token_at(s: Seq<u8>, from: int, stop: int) -> Option<(Seq<char>, int, int)> {
    let i = skip_to(s, from, stop);
    if i >= stop {
        None
    } else if s[i] == QUOTE {
        match string_close(s, i + 1, i + 1, stop) {
            Some(e) => Some((text_of(unescaped(s, i + 1, e)), i, e + 1)),
            None => None,
        }
    } else {
        let j = bare_end(s, i, stop);
        if j > i {
            Some((text_of(s.subrange(i, j)), i, j))
        } else {
            None
        }
    }
}

/// A token as a value.
pub open spec fn token_of(r: Option<(String, usize, usize)>) -> Option<(Seq<char>, int, int)> {
    match r {
        Some((t, a, b)) => Some((t@, a as int, b as int)),
        None => None,
    }
}

/// Read the token that starts at or after `from` and before `stop`.
pub fn read_token(content: &str, from: usize, stop: usize) -> (r: Option<(String, usize, usize)>)
    requires
        from <= stop <= bytes(content@).len(),
        boundary(bytes(content@), from as int),
        boundary(bytes(content@), stop as int),
    ensures
        token_of(r) == token_at(bytes(content@), from as int, stop as int),
        match r {
            Some((_, a, b)) => from <= a < b <= stop && cuttable(
                bytes(content@),
                a as int,
                b as int,
            ),
            None => true,
        },
{
    let ghost s = bytes(content@);
    let mut i: usize = from;
    while i < stop && is_blank(byte_at(content, i))
        invariant
            s == bytes(content@),
            from <= i <= stop <= s.len(),
            boundary(s, i as int),
            skip_to(s, from as int, stop as int) == skip_to(s, i as int, stop as int),
        decreases stop - i,
    {
        proof {
            lemma_ascii_boundary(content@, i as int);
        }
        i += 1;
    }
    if i >= stop {
        return None;
    }
    if byte_at(content, i) == QUOTE {
        return match read_string(content, i, stop) {
            Some((text, e)) => {
                proof {
                    lemma_ascii_boundary(content@, e as int);
                    lemma_ascii_boundary(content@, i as int);
                }
                Some((text, i, e + 1))
            },
            None => None,
        };
    }
    let start = i;
    while i < stop && !is_blank(byte_at(content, i)) && byte_at(content, i) != OPEN && byte_at(content, i)
        != CLOSE
        invariant
            s == bytes(content@),
            from <= start <= i <= stop <= s.len(),
            bare_end(s, start as int, stop as int) == bare_end(s, i as int, stop as int),
        decreases stop - i,
    {
        i += 1;
    }
    if i > start {
        proof {
            if i < stop {
                lemma_ascii_boundary(content@, i as int);
            }
        }
        Some((copy(slice(content, start, i)), start, i))
    } else {
        None
    }
}

/// `text` as a quoted string, as KiCAD would write it.
pub fn quoted(text: &str) -> (r: String)
    ensures
        r@ == quoted_text(text@),
{
    let mut out = copy("\"");
    let ghost mut done: Seq<char> = Seq::empty();
    proof {
        reveal_strlit("\"");
        assert("\""@ =~= seq!['"']);
        assert(out@ =~= seq!['"'] + escape_text(done));
    }
    let mut rest = text;
    while !rest.is_empty()
        invariant
            text@ == done + rest@,
            out@ == seq!['"'] + escape_text(done),
        decreases rest@.len(),
    {
        let c = rest.get_char(0);
        let tail = rest.substring_char(1, rest.unicode_len());
        let head = rest.substring_char(0, 1);
        proof {
            assert(head@ =~= seq![c]);
            assert(rest@ =~= seq![c] + tail@);
            assert(done + rest@ =~= done.push(c) + tail@);
            assert(done.push(c).drop_last() =~= done);
            reveal_strlit("\\");
            assert("\\"@ =~= seq!['\\']);
        }
        let ghost was = out@;
        if c == '"' || c == '\\' {
            put(&mut out, "\\");
        }
        put(&mut out, head);
        proof {
            if c == '"' || c == '\\' {
                assert(out@ =~= seq!['"'] + escape_text(done).push('\\').push(c));
            } else {
                assert(out@ =~= seq!['"'] + escape_text(done).push(c));
            }
            done = done.push(c);
        }
        rest = tail;
    }
    proof {
        assert(text@ =~= done);
    }
    put(&mut out, "\"");
    out
}

} // verus!
