//! What putting an item on a board does to the items already there, and that
//! taking it off again restores the file byte for byte.

use crate::blocks::tag_byte;
use crate::board_file::root_close;
use crate::chars::{blank, ends_tag};
use crate::copper::without_item;
use crate::edit::{
    edited, edits_fit, is_lead, law_insert_block_delete_block, law_one_edit, Splice,
};
use crate::grammar::between;
use crate::items::{item_at, item_named, item_uuid, items_at, top_level_items, uuid_index, Item};
use crate::routing::with_item;
use crate::scan::{
    balanced_block, block_end, closes_at, cuttable, is_document, lemma_block_end, lemma_block_end_is,
    lemma_block_moved, lemma_depth_bound, lemma_lex_over_block, lemma_lex_same, lemma_lex_shift, lex,
    lex_step, opens, outside, skip_blank, tag_opens, top_level_starts, CLOSE, OPEN,
};
use crate::sexp::{parse_text, ParseError, Sexp};
use crate::text::{
    boundary, bytes, first_byte, lemma_ascii_boundary, lemma_between_cuts, lemma_bytes_ascii,
    lemma_bytes_concat, lemma_bytes_valid, lemma_ends, lemma_first_byte, matches_at, text_of,
};
use vstd::prelude::*;
use vstd::utf8::*;

verus! {

// ─── The root of a document ──────────────────────────────────────────────────

pub proof fn lemma_skip_blank(s: Seq<u8>, i: int)
    requires
        0 <= i <= s.len(),
    ensures
        i <= skip_blank(s, i) <= s.len(),
        forall|k: int| i <= k < skip_blank(s, i) ==> blank(#[trigger] s[k]),
        skip_blank(s, i) < s.len() ==> !blank(s[skip_blank(s, i)]),
    decreases s.len() - i,
{
    if i < s.len() && blank(s[i]) {
        lemma_skip_blank(s, i + 1);
    }
}

pub proof fn lemma_skip_blank_is(s: Seq<u8>, i: int, n: int)
    requires
        0 <= i <= n <= s.len(),
        forall|k: int| i <= k < n ==> blank(#[trigger] s[k]),
        n < s.len() ==> !blank(s[n]),
    ensures
        skip_blank(s, i) == n,
    decreases n - i,
{
    if i < n {
        assert(blank(s[i]));
        lemma_skip_blank_is(s, i + 1, n);
    }
}

/// White space leaves a scan where it is.
pub proof fn lemma_lex_blank(s: Seq<u8>, start: int, i: int, j: int)
    requires
        start <= i <= j <= s.len(),
        between(lex(s, start, i)),
        forall|k: int| i <= k < j ==> blank(#[trigger] s[k]),
    ensures
        forall|k: int| i <= k <= j ==> #[trigger] lex(s, start, k) == lex(s, start, i),
    decreases j - i,
{
    if i < j {
        lemma_lex_blank(s, start, i, j - 1);
        assert(blank(s[j - 1]));
        assert(lex(s, start, j) == lex_step(lex(s, start, j - 1), s[j - 1]));
    }
}

/// A scan that is outside everything at `mid` goes on like one that begins there.
pub proof fn lemma_lex_restart(s: Seq<u8>, start: int, mid: int, to: int)
    requires
        start <= mid <= to,
        lex(s, start, mid) == outside(),
    ensures
        lex(s, start, to) == lex(s, mid, to),
    decreases to - mid,
{
    if mid < to {
        lemma_lex_restart(s, start, mid, to - 1);
    }
}

/// Where the root of a document stands: nothing but white space is around it.
pub proof fn lemma_root(s: Seq<u8>, tag: Seq<u8>)
    requires
        is_document(s, tag),
    ensures
        ({
            let root = skip_blank(s, 0);
            let e = block_end(s, root).unwrap();
            &&& block_end(s, root).is_some()
            &&& closes_at(s, root, e)
            &&& s[e - 1] == CLOSE
            &&& root + 2 <= e
            &&& balanced_block(s, 0) == Some((root, e))
            &&& root_close(s) == Some(e - 1)
            &&& forall|k: int| 0 <= k < root ==> blank(#[trigger] s[k])
            &&& forall|k: int| e <= k < s.len() ==> blank(#[trigger] s[k])
            &&& forall|k: int| root <= k ==> #[trigger] lex(s, 0, k) == lex(s, root, k)
            &&& forall|k: int| 0 <= k <= root ==> #[trigger] lex(s, 0, k) == outside()
        }),
{
    let root = skip_blank(s, 0);
    let e = block_end(s, root).unwrap();
    lemma_skip_blank(s, 0);
    lemma_block_end_is(s, root);
    lemma_skip_blank(s, e);
    lemma_first_byte(s, OPEN, 0);
    assert(first_byte(s, OPEN, 0) == Some(root)) by {
        if let Some(o) = first_byte(s, OPEN, 0) {
            if o < root {
                assert(blank(s[o]));
            }
            if root < o {
                assert(s[root] != OPEN);
            }
        } else {
            assert(s[root] != OPEN);
        }
    }
    assert(lex(s, 0, 0) == outside());
    lemma_lex_blank(s, 0, 0, root);
    assert forall|k: int| root <= k implies #[trigger] lex(s, 0, k) == lex(s, root, k) by {
        lemma_lex_restart(s, 0, root, k);
    }
}

// ─── Blocks inside blocks ────────────────────────────────────────────────────

/// The first point after `q` where the scan that begins there is at depth 0.
pub proof fn lemma_first_zero(s: Seq<u8>, q: int, k: int) -> (e: int)
    requires
        q < k,
        lex(s, q, k).depth == 0,
    ensures
        q < e <= k,
        lex(s, q, e).depth == 0,
        forall|j: int| q < j < e ==> (#[trigger] lex(s, q, j)).depth > 0,
    decreases k - q,
{
    if exists|j: int| q < j < k && (#[trigger] lex(s, q, j)).depth == 0 {
        let j = choose|j: int| q < j < k && (#[trigger] lex(s, q, j)).depth == 0;
        lemma_first_zero(s, q, j)
    } else {
        k
    }
}

/// A block that opens inside a block closes inside it.
pub proof fn lemma_inner_closes(s: Seq<u8>, root: int, end: int, q: int)
    requires
        closes_at(s, root, end),
        root < q < end,
        s[q] == OPEN,
        !lex(s, root, q).in_string,
    ensures
        block_end(s, q).is_some(),
        closes_at(s, q, block_end(s, q).unwrap()),
        q < block_end(s, q).unwrap() < end,
{
    lemma_depth_bound(s, root, q);
    assert(lex(s, root, q).depth > 0);
    if forall|k: int| q < k <= end ==> (#[trigger] lex(s, q, k)).depth > 0 {
        lemma_lex_shift(s, root, q, end);
        assert(lex(s, q, end).depth > 0);
        assert(false);
    }
    let k = choose|k: int| q < k <= end && (#[trigger] lex(s, q, k)).depth == 0;
    let e = lemma_first_zero(s, q, k);
    assert(closes_at(s, q, e));
    lemma_block_end(s, q, e);
    lemma_lex_over_block(s, root, q, e);
}

// ─── Tags before and after an edit ───────────────────────────────────────────

/// A tag of ASCII letters, digits and underscores.
pub open spec fn is_tag(tag: Seq<char>) -> bool {
    &&& tag.len() > 0
    &&& is_ascii_chars(tag)
    &&& forall|k: int| 0 <= k < bytes(tag).len() ==> tag_byte(#[trigger] bytes(tag)[k])
}

/// The first character of a text depends only on the bytes up to any cut after it.
pub proof fn lemma_first_char(a: Seq<char>, x: int, y: int)
    requires
        0 <= x < y <= bytes(a).len(),
        boundary(bytes(a), x),
        boundary(bytes(a), y),
    ensures
        text_of(bytes(a).subrange(x, bytes(a).len() as int))[0] == text_of(bytes(a).subrange(x, y))[0],
        text_of(bytes(a).subrange(x, y)).len() > 0,
{
    let s = bytes(a);
    let n = s.len() as int;
    lemma_ends(a);
    lemma_between_cuts(a, x, y);
    lemma_between_cuts(a, y, n);
    let u = text_of(s.subrange(x, y));
    let v = text_of(s.subrange(y, n));
    lemma_bytes_concat(u, v);
    assert(s.subrange(x, n) =~= s.subrange(x, y) + s.subrange(y, n));
    lemma_bytes_valid(u + v);
    if u.len() == 0 {
        assert(bytes(u) =~= Seq::<u8>::empty());
    }
}

/// The first character of a text that goes on with an ASCII byte.
pub proof fn lemma_ascii_char(a: Seq<char>, x: int)
    requires
        0 <= x < bytes(a).len(),
        bytes(a)[x] < 128,
    ensures
        text_of(bytes(a).subrange(x, bytes(a).len() as int))[0] == bytes(a)[x] as char,
{
    let s = bytes(a);
    lemma_ascii_boundary(a, x);
    lemma_first_char(a, x, x + 1);
    let c = s[x] as char;
    crate::grammar::lemma_char_bytes(c);
    assert(s.subrange(x, x + 1) =~= seq![s[x]]);
    assert(c <= '\u{7f}');
    assert(c as u8 == s[x]);
    lemma_bytes_valid(seq![c]);
}

/// A character that ends a tag stands at `p`.
pub open spec fn tag_ends_at(s: Seq<u8>, p: int) -> bool {
    &&& 0 <= p < s.len()
    &&& boundary(s, p)
    &&& !tag_byte(s[p])
    &&& ends_tag(text_of(s.subrange(p, s.len() as int))[0])
}

/// White space and parentheses end a tag.
pub proof fn lemma_tag_ends(a: Seq<char>, p: int)
    requires
        0 <= p < bytes(a).len(),
        blank(bytes(a)[p]) || bytes(a)[p] == CLOSE || bytes(a)[p] == OPEN,
    ensures
        tag_ends_at(bytes(a), p),
{
    lemma_ascii_boundary(a, p);
    lemma_ascii_char(a, p);
}

/// Two texts that agree up to where a tag would end in either agree on the tags
/// before that.
pub proof fn lemma_tag_same(a: Seq<char>, b: Seq<char>, q: int, p: int, tag: Seq<char>)
    requires
        0 <= q < p,
        tag_ends_at(bytes(a), p),
        tag_ends_at(bytes(b), p),
        forall|k: int| 0 <= k < p ==> #[trigger] bytes(a)[k] == bytes(b)[k],
        bytes(a)[q] < 128,
        is_tag(tag),
    ensures
        tag_opens(bytes(a), q, bytes(tag)) ==> tag_opens(bytes(b), q, bytes(tag)),
{
    let s = bytes(a);
    let t = bytes(b);
    let g = bytes(tag);
    if tag_opens(s, q, g) {
        lemma_bytes_ascii(tag);
        let after = q + 1 + g.len();
        assert(s[q] == t[q]);
        lemma_ascii_boundary(b, q);
        assert forall|k: int| q + 1 <= k < after implies #[trigger] s[k] == g[k - q - 1] by {
            assert(s.subrange(q + 1, after)[k - q - 1] == s[k]);
        }
        if after > p {
            assert(s[p] == g[p - q - 1]);
            assert(tag_byte(g[p - q - 1]));
        }
        assert forall|k: int| q + 1 <= k < after implies #[trigger] t[k] == g[k - q - 1] by {
            assert(s[k] == t[k]);
        }
        assert(t.subrange(q + 1, after) =~= g);
        if after < p {
            crate::text::lemma_match_boundary(a, q + 1, tag);
            crate::text::lemma_match_boundary(b, q + 1, tag);
            lemma_first_char(a, after, p);
            lemma_first_char(b, after, p);
            assert(s.subrange(after, p) =~= t.subrange(after, p));
        }
    }
}

// ─── An item put before the root's close ─────────────────────────────────────

/// `s` with `ins` put in at `p`.
pub open spec fn put_in(s: Seq<u8>, p: int, ins: Seq<u8>) -> Seq<u8> {
    s.take(p) + ins + s.skip(p)
}

/// The lexical state through an item that is put before the close of the root.
pub proof fn lemma_lex_through(s: Seq<u8>, tag: Seq<u8>, lead: Seq<u8>, block: Seq<u8>)
    requires
        is_document(s, tag),
        is_lead(lead),
        closes_at(block, 0, block.len() as int),
    ensures
        ({
            let root = skip_blank(s, 0);
            let e = block_end(s, root).unwrap();
            let p = e - 1;
            let t = put_in(s, p, lead + block);
            let a = p + lead.len();
            let b = a + block.len();
            &&& closes_at(t, a, b)
            &&& closes_at(t, root, b + 1)
            &&& forall|k: int| 0 <= k <= p ==> #[trigger] lex(t, 0, k) == lex(s, 0, k)
            &&& lex(s, 0, p).depth == 1
            &&& between(lex(s, 0, p))
            &&& forall|k: int| p <= k <= a ==> #[trigger] lex(t, 0, k) == lex(s, 0, p)
            &&& forall|k: int| a < k < b ==> (#[trigger] lex(t, 0, k)).depth > 1
            &&& lex(t, 0, b) == lex(s, 0, p)
            &&& t[b] == CLOSE
            &&& forall|k: int| b < k < t.len() ==> blank(#[trigger] t[k])
        }),
{
    let root = skip_blank(s, 0);
    let e = block_end(s, root).unwrap();
    let p = e - 1;
    let ins = lead + block;
    let t = put_in(s, p, ins);
    let a = p + lead.len();
    let b = a + block.len();
    lemma_root(s, tag);
    assert forall|k: int| 0 <= k < p implies #[trigger] s[k] == t[k] by {}
    assert forall|k: int| 0 <= k <= p implies #[trigger] lex(t, 0, k) == lex(s, 0, k) by {
        lemma_lex_same(s, t, 0, k, 0);
    }
    lemma_depth_bound(s, root, p);
    assert(lex(s, root, e) == lex_step(lex(s, root, p), s[p]));
    assert(lex(s, root, p).depth > 0);
    assert(lex(s, 0, p) == lex(s, root, p));
    assert forall|k: int| p <= k < a implies blank(#[trigger] t[k]) by {
        assert(t[k] == lead[k - p]);
    }
    lemma_lex_blank(t, 0, p, a);
    assert forall|k: int| 0 <= k < block.len() implies #[trigger] block[k] == t[k + a] by {}
    lemma_block_moved(block, t, 0, block.len() as int, a);
    lemma_lex_over_block(t, 0, a, b);
    assert(t[b] == s[p]);
    assert(lex(t, 0, b + 1) == lex_step(lex(t, 0, b), t[b]));
    assert forall|k: int| b < k < t.len() implies blank(#[trigger] t[k]) by {
        assert(t[k] == s[k - ins.len()]);
    }
    assert(t[root] == s[root]);
    assert(lex(t, 0, root) == outside());
    assert forall|k: int| root < k < b + 1 implies (#[trigger] lex(t, root, k)).depth > 0 by {
        lemma_lex_restart(t, 0, root, k);
        if k <= p {
            assert(lex(s, 0, k) == lex(s, root, k));
            assert(lex(s, root, k).depth > 0);
            assert(lex(t, 0, k) == lex(s, 0, k));
        } else if k <= a {
            assert(lex(t, 0, k) == lex(s, 0, p));
        } else if k < b {
            assert(lex(t, 0, k).depth > 1);
        }
    }
    lemma_lex_restart(t, 0, root, b + 1);
}

/// The texts that an item's text is put between.
pub proof fn lemma_put_in_text(c: Seq<char>, p: int, ins: Seq<char>)
    requires
        0 <= p <= bytes(c).len(),
        boundary(bytes(c), p),
    ensures
        put_in(bytes(c), p, bytes(ins)) == bytes(
            text_of(bytes(c).subrange(0, p)) + ins + text_of(
                bytes(c).subrange(p, bytes(c).len() as int),
            ),
        ),
{
    let s = bytes(c);
    let n = s.len() as int;
    lemma_ends(c);
    lemma_between_cuts(c, 0, p);
    lemma_between_cuts(c, p, n);
    let u = text_of(s.subrange(0, p));
    let v = text_of(s.subrange(p, n));
    lemma_bytes_concat(u, ins);
    lemma_bytes_concat(u + ins, v);
    assert(put_in(s, p, bytes(ins)) =~= s.subrange(0, p) + bytes(ins) + s.subrange(p, n));
}

/// A block on a line of its own, put before the close of the root, leaves the
/// document sound and stands there as a block.
pub proof fn lemma_item_put(c: Seq<char>, root_tag: Seq<char>, lead: Seq<char>, block: Seq<char>)
    requires
        is_document(bytes(c), bytes(root_tag)),
        is_tag(root_tag),
        is_lead(bytes(lead)),
        closes_at(bytes(block), 0, bytes(block).len() as int),
    ensures
        ({
            let s = bytes(c);
            let p = root_close(s).unwrap();
            let t = put_in(s, p, bytes(lead + block));
            &&& root_close(s).is_some()
            &&& bytes(lead + block) == bytes(lead) + bytes(block)
            &&& cuttable(s, p, p)
            &&& edited(s, seq![Splice { start: p, end: p, bytes: bytes(lead + block) }]) == t
            &&& is_document(t, bytes(root_tag))
        }),
{
    let s = bytes(c);
    let l = bytes(lead);
    let b = bytes(block);
    lemma_bytes_concat(lead, block);
    lemma_root(s, bytes(root_tag));
    lemma_lex_through(s, bytes(root_tag), l, b);
    let root = skip_blank(s, 0);
    let e = block_end(s, root).unwrap();
    let p = e - 1;
    let t = put_in(s, p, l + b);
    lemma_ascii_boundary(c, p);
    lemma_put_in_text(c, p, lead + block);
    let d = text_of(s.subrange(0, p)) + (lead + block) + text_of(s.subrange(p, s.len() as int));
    law_one_edit(s, Splice { start: p, end: p, bytes: l + b });
    assert(bytes(d) == t);
    assert(t[p] == l[0]);
    assert(t[root] == s[root]);
    lemma_skip_blank(s, 0);
    assert forall|k: int| 0 <= k < root implies blank(#[trigger] t[k]) by {
        assert(t[k] == s[k]);
    }
    lemma_skip_blank_is(t, 0, root);
    lemma_tag_ends(c, p);
    lemma_tag_ends(d, p);
    lemma_tag_same(c, d, root, p, root_tag);
    let end = p + l.len() + b.len() + 1;
    lemma_block_end(t, root, end);
    lemma_skip_blank_is(t, end, t.len() as int);
}

// ─── The items of the board ──────────────────────────────────────────────────

/// A top-level `(tag …)` block opens at `q`.
pub open spec fn starts_item(s: Seq<u8>, tag: Seq<u8>, q: int) -> bool {
    opens(s, q) && lex(s, 0, q).depth == 1 && tag_opens(s, q, tag)
}

pub proof fn lemma_no_starts(s: Seq<u8>, tag: Seq<u8>, a: int, b: int)
    requires
        0 <= a <= b,
        forall|q: int| a <= q < b ==> !#[trigger] starts_item(s, tag, q),
    ensures
        top_level_starts(s, tag, b) == top_level_starts(s, tag, a),
    decreases b - a,
{
    if a < b {
        assert(!starts_item(s, tag, b - 1));
        lemma_no_starts(s, tag, a, b - 1);
    }
}

pub proof fn lemma_same_starts(s: Seq<u8>, t: Seq<u8>, tag: Seq<u8>, n: int)
    requires
        forall|q: int| 0 <= q < n ==> #[trigger] starts_item(s, tag, q) == starts_item(t, tag, q),
    ensures
        top_level_starts(s, tag, n) == top_level_starts(t, tag, n),
    decreases n,
{
    if n > 0 {
        assert(starts_item(s, tag, n - 1) == starts_item(t, tag, n - 1));
        lemma_same_starts(s, t, tag, n - 1);
    }
}

pub proof fn lemma_same_items(s: Seq<u8>, t: Seq<u8>, starts: Seq<int>, n: int)
    requires
        0 <= n <= starts.len(),
        forall|i: int| 0 <= i < n ==> item_at(s, #[trigger] starts[i]) == item_at(t, starts[i]),
    ensures
        items_at(s, starts, n) == items_at(t, starts, n),
    decreases n,
{
    if n > 0 {
        assert(item_at(s, starts[n - 1]) == item_at(t, starts[n - 1]));
        lemma_same_items(s, t, starts, n - 1);
    }
}

proof fn lemma_items_take(s: Seq<u8>, starts: Seq<int>, x: int, n: int)
    requires
        0 <= n <= starts.len(),
    ensures
        items_at(s, starts.push(x), n) == items_at(s, starts, n),
    decreases n,
{
    if n > 0 {
        assert(starts.push(x)[n - 1] == starts[n - 1]);
        lemma_items_take(s, starts, x, n - 1);
    }
}

/// Putting a `(tag …)` block before the close of the root puts it behind the items
/// of that tag, which stay what they are.
#[verifier::rlimit(40)]
pub proof fn lemma_items_after(
    c: Seq<char>,
    root_tag: Seq<char>,
    tag: Seq<char>,
    lead: Seq<char>,
    block: Seq<char>,
    node: Sexp,
)
    requires
        is_document(bytes(c), bytes(root_tag)),
        is_tag(root_tag),
        is_tag(tag),
        is_lead(bytes(lead)),
        closes_at(bytes(block), 0, bytes(block).len() as int),
        tag_opens(bytes(block), 0, bytes(tag)),
        parse_text(bytes(block)) == Ok::<Sexp, ParseError>(node),
    ensures
        ({
            let s = bytes(c);
            let p = root_close(s).unwrap();
            let a = p + bytes(lead).len();
            top_level_items(put_in(s, p, bytes(lead + block)), tag) == top_level_items(s, tag).push(
                Item { start: a, end: a + bytes(block).len(), node },
            )
        }),
{
    let s = bytes(c);
    let g = bytes(tag);
    let l = bytes(lead);
    let bl = bytes(block);
    lemma_item_put(c, root_tag, lead, block);
    lemma_root(s, bytes(root_tag));
    lemma_lex_through(s, bytes(root_tag), l, bl);
    let root = skip_blank(s, 0);
    let e = block_end(s, root).unwrap();
    let p = e - 1;
    let ins = l + bl;
    let t = put_in(s, p, ins);
    let a = p + l.len();
    let b = a + bl.len();
    lemma_ascii_boundary(c, p);
    lemma_put_in_text(c, p, lead + block);
    let d = text_of(s.subrange(0, p)) + (lead + block) + text_of(s.subrange(p, s.len() as int));
    assert(bytes(d) == t);
    assert(t[p] == l[0]);
    lemma_tag_ends(c, p);
    lemma_tag_ends(d, p);
    assert forall|k: int| 0 <= k < p implies #[trigger] s[k] == t[k] by {}
    assert forall|q: int| 0 <= q < p implies #[trigger] starts_item(s, g, q) == starts_item(t, g, q) by {
        assert(s[q] == t[q]);
        assert(lex(t, 0, q) == lex(s, 0, q));
        if opens(s, q) {
            lemma_tag_same(c, d, q, p, tag);
            lemma_tag_same(d, c, q, p, tag);
        }
    }
    lemma_same_starts(s, t, g, p);
    assert forall|q: int| p <= q < s.len() implies !#[trigger] starts_item(s, g, q) by {
        if q > p {
            assert(blank(s[q]));
        }
    }
    lemma_no_starts(s, g, p, s.len() as int);
    assert forall|q: int| p <= q < a implies !#[trigger] starts_item(t, g, q) by {
        assert(t[q] == l[q - p]);
    }
    lemma_no_starts(t, g, p, a);
    // The block itself.
    assert(starts_item(t, g, a)) by {
        assert(t[a] == bl[0]);
        assert(lex(t, 0, a) == lex(s, 0, p));
        assert(t.subrange(a, a + bl.len()) =~= bl);
        lemma_block_tag(block, d, a, tag);
    }
    let starts = top_level_starts(s, g, s.len() as int);
    assert(top_level_starts(t, g, a + 1) == starts.push(a));
    assert forall|q: int| a + 1 <= q < t.len() implies !#[trigger] starts_item(t, g, q) by {
        if q < b {
            assert(lex(t, 0, q).depth > 1);
        } else if q > b {
            assert(blank(t[q]));
        }
    }
    lemma_no_starts(t, g, a + 1, t.len() as int);
    // The items.
    crate::scan::law_top_level_starts(s, g, s.len() as int);
    assert forall|i: int| 0 <= i < starts.len() implies item_at(s, #[trigger] starts[i]) == item_at(
        t,
        starts[i],
    ) by {
        let q = starts[i];
        assert(starts.contains(q));
        assert(starts_item(s, g, q));
        assert(q != p);
        if q > p {
            assert(blank(s[q]));
        }
        assert(lex(s, 0, q) == lex(s, root, q)) by {
            if q < root {
                assert(blank(s[q]));
            }
        }
        if q < root {
            assert(blank(s[q]));
        }
        assert(q != root) by {
            if q == root {
                assert(lex(s, 0, root) == outside());
            }
        }
        lemma_inner_closes(s, root, e, q);
        let f = block_end(s, q).unwrap();
        assert(f <= p);
        lemma_block_moved(s, t, q, f, 0);
        assert(s.subrange(q, f) =~= t.subrange(q, f));
    }
    let n = starts.len() as int;
    lemma_same_items(s, t, starts, n);
    lemma_items_take(t, starts, a, n);
    lemma_block_end(t, a, b);
    assert(t.subrange(a, b) =~= bl);
    assert(item_at(t, a) == Some(Item { start: a, end: b, node }));
    assert(starts.push(a)[n] == a);
    assert(items_at(t, starts.push(a), n + 1) == items_at(s, starts, n).push(
        Item { start: a, end: b, node },
    ));
}

/// A block has the same tag wherever it stands.
pub proof fn lemma_block_tag(block: Seq<char>, d: Seq<char>, a: int, tag: Seq<char>)
    requires
        closes_at(bytes(block), 0, bytes(block).len() as int),
        matches_at(bytes(d), a, bytes(block)),
        is_tag(tag),
    ensures
        tag_opens(bytes(block), 0, bytes(tag)) == tag_opens(bytes(d), a, bytes(tag)),
{
    let bl = bytes(block);
    let t = bytes(d);
    let n = bl.len() as int;
    let g = bytes(tag);
    lemma_block_end(bl, 0, n);
    lemma_block_end_is(bl, 0);
    lemma_bytes_ascii(tag);
    let w = t.subrange(a, a + n);
    assert forall|k: int| 0 <= k < n implies #[trigger] bl[k] == t[a + k] by {
        assert(w[k] == bl[k]);
    }
    assert(t[a] == OPEN && t[a + n - 1] == CLOSE) by {
        assert(bl[0] == t[a + 0]);
        assert(bl[n - 1] == t[a + (n - 1)]);
    }
    lemma_ascii_boundary(block, 0);
    lemma_ascii_boundary(block, n - 1);
    lemma_ascii_boundary(d, a);
    lemma_ascii_boundary(d, a + n - 1);
    let after: int = 1 + g.len() as int;
    // The close is no part of a tag, so the tag and what follows it are inside.
    assert(matches_at(bl, 1, g) ==> after <= n - 1) by {
        if matches_at(bl, 1, g) && after > n - 1 {
            assert(bl.subrange(1, after)[n - 2] == g[n - 2]);
            assert(tag_byte(g[n - 2]));
        }
    }
    assert(matches_at(t, a + 1, g) ==> after <= n - 1) by {
        if matches_at(t, a + 1, g) && after > n - 1 {
            assert(t.subrange(a + 1, a + after)[n - 2] == g[n - 2]);
            assert(tag_byte(g[n - 2]));
        }
    }
    if after <= n - 1 {
        assert(bl.subrange(1, after) =~= t.subrange(a + 1, a + after));
        assert(matches_at(bl, 1, g) == matches_at(t, a + 1, g));
        if matches_at(bl, 1, g) {
            if after == n - 1 {
                lemma_ascii_char(block, after);
                lemma_ascii_char(d, a + after);
            } else {
                crate::text::lemma_match_boundary(block, 1, tag);
                crate::text::lemma_match_boundary(d, a + 1, tag);
                lemma_first_char(block, after, n - 1);
                lemma_first_char(d, a + after, a + n - 1);
                assert(bl.subrange(after, n - 1) =~= t.subrange(a + after, a + n - 1));
            }
        }
    }
}

proof fn lemma_uuid_pushed(items: Seq<Item>, x: Item, uuid: Seq<char>, k: int)
    requires
        0 <= k <= items.len(),
        uuid_index(items, uuid, k).is_none(),
        item_uuid(x) == Some(uuid),
    ensures
        uuid_index(items.push(x), uuid, k) == Some(items.len() as int),
    decreases items.len() - k,
{
    if k < items.len() {
        assert(items.push(x)[k] == items[k]);
        lemma_uuid_pushed(items, x, uuid, k + 1);
    } else {
        assert(items.push(x)[k] == x);
    }
}

/// A top-level item put on a board is found by its uuid, and taking it off again
/// restores the file byte for byte.
///
/// The item must read as a `(tag …)` expression that carries the uuid, and the
/// board must not hold such an item under that uuid already.
pub proof fn law_item_put_and_taken(
    c: Seq<char>,
    tag: Seq<char>,
    lead: Seq<char>,
    block: Seq<char>,
    node: Sexp,
    uuid: Seq<char>,
    what: Seq<char>,
    board: Seq<char>,
)
    requires
        is_document(bytes(c), bytes("kicad_pcb"@)),
        is_tag(tag),
        is_lead(bytes(lead)),
        closes_at(bytes(block), 0, bytes(block).len() as int),
        tag_opens(bytes(block), 0, bytes(tag)),
        parse_text(bytes(block)) == Ok::<Sexp, ParseError>(node),
        item_uuid(Item { start: 0, end: 0, node }) == Some(uuid),
        item_named(bytes(c), tag, uuid).is_none(),
    ensures
        with_item(bytes(c), lead + block, board) is Ok,
        ({
            let t = with_item(bytes(c), lead + block, board)->Ok_0;
            &&& item_named(t, tag, uuid).is_some()
            &&& item_named(t, tag, uuid).unwrap().node == node
            &&& without_item(t, item_named(t, tag, uuid).unwrap(), what, board) == Ok::<
                Seq<u8>,
                Seq<char>,
            >(bytes(c))
        }),
{
    let s = bytes(c);
    let root_tag = "kicad_pcb"@;
    lemma_kicad_pcb();
    let l = bytes(lead);
    let bl = bytes(block);
    lemma_item_put(c, root_tag, lead, block);
    lemma_items_after(c, root_tag, tag, lead, block, node);
    let p = root_close(s).unwrap();
    let ins = l + bl;
    let e = Splice { start: p, end: p, bytes: ins };
    let t = put_in(s, p, ins);
    assert(edits_fit(s, seq![e]));
    assert(with_item(s, lead + block, board) == Ok::<Seq<u8>, Seq<char>>(t));
    let a = p + l.len();
    let item = Item { start: a, end: a + bl.len(), node };
    let items = top_level_items(s, tag);
    assert(uuid_index(items, uuid, 0).is_none());
    lemma_uuid_pushed(items, item, uuid, 0);
    assert(items.push(item)[items.len() as int] == item);
    assert(item_named(t, tag, uuid) == Some(item));
    law_insert_block_delete_block(s, p, l, bl);
    let del = Splice { start: p, end: a + bl.len(), bytes: Seq::empty() };
    // Both ends of the range may be cut.
    let d = text_of(s.subrange(0, p)) + (lead + block) + text_of(s.subrange(p, s.len() as int));
    lemma_root(s, bytes(root_tag));
    lemma_lex_through(s, bytes(root_tag), l, bl);
    lemma_ascii_boundary(c, p);
    lemma_put_in_text(c, p, lead + block);
    assert(t[p] == l[0]);
    lemma_ascii_boundary(d, p);
    assert(t[a + bl.len()] == CLOSE);
    lemma_ascii_boundary(d, a + bl.len());
    assert(edits_fit(t, seq![del]));
}

/// The root tag of a board is a tag.
pub proof fn lemma_kicad_pcb()
    ensures
        is_tag("kicad_pcb"@),
{
    reveal_strlit("kicad_pcb");
    lemma_tag_chars("kicad_pcb"@);
}

/// A character of a tag.
pub open spec fn tag_char(c: char) -> bool {
    ('a' <= c <= 'z') || ('A' <= c <= 'Z') || ('0' <= c <= '9') || c == '_'
}

/// A text of letters, digits and underscores is a tag.
pub proof fn lemma_tag_chars(t: Seq<char>)
    requires
        t.len() > 0,
        forall|k: int| 0 <= k < t.len() ==> tag_char(#[trigger] t[k]),
    ensures
        is_tag(t),
{
    assert(is_ascii_chars(t)) by {
        assert forall|i: int| 0 <= i < t.len() implies '\0' <= #[trigger] t[i] <= '\u{7f}' by {
            assert(tag_char(t[i]));
        }
    }
    lemma_bytes_ascii(t);
    assert forall|k: int| 0 <= k < bytes(t).len() implies tag_byte(#[trigger] bytes(t)[k]) by {
        assert(tag_char(t[k]));
        crate::grammar::lemma_char_bytes(t[k]);
        assert(bytes(t)[k] == t[k] as u8);
    }
}

} // verus!
