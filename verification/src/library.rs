//! Symbol libraries: the symbols of a `.kicad_sym` file, library tables, and what
//! to say when a symbol cannot be found.
//!
//! A `lib_id` such as `Device:R` names a library and a symbol of it. The symbol
//! library tables are the source of truth for where a library lies; the installed
//! directories are only a fallback.

use crate::chars::{join_all, joined, sort_unique, sorted_unique, texts};
#[allow(unused_imports)]
use crate::scan::{
    block_end, closes_at, cuttable, find_block_end, lemma_block_cuttable, lemma_block_end_is,
    lemma_block_moved, lex, opens, Lexer, BACKSLASH, OPEN, QUOTE,
};
#[allow(unused_imports)]
use crate::sexp::{
    child_text, children_in, node_refs, parse_sexp, parse_text, string_opt, Sexp, SexpNode,
};
use crate::similar::{best, lowercase, rank_candidates, ranking};
#[allow(unused_imports)]
use crate::text::{
    boundary, byte_at, bytes, contains, copy, find_byte, find_from, first_byte, first_match, has,
    lemma_ascii_boundary, lemma_bytes_ascii, lemma_bytes_valid, lemma_ends, lemma_first_byte,
    lemma_match_boundary, length, match_at, matches_at, put, replace, replaced, same, slice,
    slice_from, text_of,
};
use vstd::prelude::*;
use vstd::string::*;

verus! {

// ─── Strings and headers ─────────────────────────────────────────────────────

/// One past the closing quote of a string whose text begins at `j`; the end of the
/// text where it is never closed.
pub open spec fn string_end(s: Seq<u8>, j: int) -> int
    decreases s.len() - j + 1,
{
    if j < 0 || j >= s.len() {
        s.len() as int
    } else if s[j] == BACKSLASH {
        string_end(s, j + 2)
    } else if s[j] == QUOTE {
        j + 1
    } else {
        string_end(s, j + 1)
    }
}

/// Byte offset one past the closing quote of the string that starts at `i`.
/// A backslash takes the next byte with it, so `\"` stays inside the string. Runs
/// to the end on a string that is never closed.
pub fn end_of_string(content: &str, i: usize) -> (r: usize)
    requires
        i < bytes(content@).len(),
    ensures
        r == string_end(bytes(content@), i + 1),
        i < r <= bytes(content@).len(),
{
    let ghost s = bytes(content@);
    let n = length(content);
    let mut j: usize = i + 1;
    while j < n
        invariant
            s == bytes(content@),
            n == s.len(),
            i < j <= n,
            string_end(s, i + 1) == string_end(s, j as int),
        decreases n - j,
    {
        let b = byte_at(content, j);
        if b == BACKSLASH {
            if j + 1 < n {
                j += 2;
            } else {
                assert(string_end(s, j as int) == string_end(s, j + 2));
                j += 1;
            }
        } else if b == QUOTE {
            return j + 1;
        } else {
            j += 1;
        }
    }
    n
}

/// What may stand between a tag and its first value.
pub open spec fn is_gap(b: u8) -> bool {
    b == 0x20 || b == 0x09 || b == 0x0a || b == 0x0d
}

/// The first position from `j` on that is no gap.
pub open spec fn past_gaps(s: Seq<u8>, j: int) -> int
    decreases s.len() - j,
{
    if 0 <= j < s.len() && is_gap(s[j]) {
        past_gaps(s, j + 1)
    } else {
        j
    }
}

fn skip_gaps(content: &str, from: usize) -> (r: usize)
    requires
        from <= bytes(content@).len(),
    ensures
        r == past_gaps(bytes(content@), from as int),
        from <= r <= bytes(content@).len(),
{
    let n = length(content);
    let mut j: usize = from;
    while j < n
        invariant
            n == bytes(content@).len(),
            from <= j <= n,
            past_gaps(bytes(content@), from as int) == past_gaps(bytes(content@), j as int),
        decreases n - j,
    {
        let b = byte_at(content, j);
        if b == 0x20 || b == 0x09 || b == 0x0a || b == 0x0d {
            j += 1;
        } else {
            return j;
        }
    }
    n
}

/// The text of the string at `j`, quotes excluded, as a range.
pub open spec fn string_range(s: Seq<u8>, j: int) -> Option<(int, int)> {
    let e = string_end(s, j + 1);
    if 0 <= j < s.len() && s[j] == QUOTE && j + 1 <= e - 1 && boundary(s, e - 1) {
        Some((j + 1, e - 1))
    } else {
        None
    }
}

fn find_string_range(content: &str, j: usize) -> (r: Option<(usize, usize)>)
    requires
        j <= bytes(content@).len(),
    ensures
        match r {
            Some((a, b)) => string_range(bytes(content@), j as int) == Some((a as int, b as int))
                && cuttable(bytes(content@), a as int, b as int) && a == j + 1 && b + 1 == string_end(
                bytes(content@),
                j + 1,
            ) && cuttable(bytes(content@), j as int, b + 1),
            None => string_range(bytes(content@), j as int).is_none(),
        },
{
    let n = length(content);
    if j >= n || byte_at(content, j) != QUOTE {
        return None;
    }
    let e = end_of_string(content, j);
    if j + 1 > e - 1 || !content.is_char_boundary(e - 1) {
        return None;
    }
    proof {
        lemma_ascii_boundary(content@, j as int);
        lemma_ends(content@);
        lemma_string_end(content@, j + 1);
    }
    Some((j + 1, e - 1))
}

/// A string ends where the text may be cut.
proof fn lemma_string_end(t: Seq<char>, j: int)
    requires
        0 <= j <= bytes(t).len(),
    ensures
        boundary(bytes(t), string_end(bytes(t), j)),
        string_end(bytes(t), j) <= bytes(t).len(),
    decreases bytes(t).len() - j,
{
    let s = bytes(t);
    lemma_ends(t);
    if j < s.len() {
        if s[j] == BACKSLASH {
            if j + 2 <= s.len() {
                lemma_string_end(t, j + 2);
            } else {
                assert(string_end(s, j + 2) == s.len());
            }
        } else if s[j] == QUOTE {
            lemma_ascii_boundary(t, j);
        } else {
            lemma_string_end(t, j + 1);
        }
    }
}

/// The name in the header of the list that opens at `p`, where it is
/// `(symbol "NAME" …)`. The name is taken as it stands, escapes and all.
pub open spec fn symbol_name(s: Seq<u8>, p: int) -> Option<(int, int)> {
    if matches_at(s, p + 1, bytes("symbol"@)) && p + 7 < s.len() && is_gap(s[p + 7]) {
        string_range(s, past_gaps(s, p + 7))
    } else {
        None
    }
}

/// The name in the header of the list that opens at `i`.
pub fn symbol_header_at(content: &str, i: usize) -> (r: Option<(usize, usize)>)
    requires
        i < bytes(content@).len(),
    ensures
        match r {
            Some((a, b)) => symbol_name(bytes(content@), i as int) == Some((a as int, b as int))
                && cuttable(bytes(content@), a as int, b as int),
            None => symbol_name(bytes(content@), i as int).is_none(),
        },
{
    let n = length(content);
    if !match_at(content, i + 1, "symbol") {
        return None;
    }
    proof {
        reveal_strlit("symbol");
        lemma_bytes_ascii("symbol"@);
    }
    // The tag must end here: `symbol_name` is another tag.
    if i + 7 >= n {
        return None;
    }
    let b = byte_at(content, i + 7);
    if !(b == 0x20 || b == 0x09 || b == 0x0a || b == 0x0d) {
        return None;
    }
    find_string_range(content, skip_gaps(content, i + 7))
}

// ─── The symbols of a library file ───────────────────────────────────────────

/// A `(symbol "NAME" …)` block located in a library file.
#[derive(Debug)]
pub struct SymbolBlock {
    pub name: String,
    /// Byte offset of the opening parenthesis.
    pub start: usize,
    /// Byte offset one past the matching parenthesis.
    pub end: usize,
    /// Nesting depth, 1 for the outermost list in the file.
    pub depth: usize,
}

/// A symbol block as a value.
pub struct SymBlock {
    pub name: Seq<char>,
    pub start: int,
    pub end: int,
    pub depth: int,
}

impl SymbolBlock {
    pub open spec fn model(&self) -> SymBlock {
        SymBlock {
            name: self.name@,
            start: self.start as int,
            end: self.end as int,
            depth: self.depth as int,
        }
    }
}

/// The values of a list of blocks.
pub open spec fn sym_blocks(v: Seq<SymbolBlock>) -> Seq<SymBlock> {
    Seq::new(v.len(), |i: int| v[i].model())
}

/// The symbol block that opens at `p`: it has a name, and it closes.
pub open spec fn symbol_at(s: Seq<u8>, p: int) -> Option<SymBlock> {
    if opens(s, p) {
        match (symbol_name(s, p), block_end(s, p)) {
            (Some((a, b)), Some(e)) => Some(
                SymBlock {
                    name: text_of(s.subrange(a, b)),
                    start: p,
                    end: e,
                    depth: (lex(s, 0, p).depth + 1) as int,
                },
            ),
            _ => None,
        }
    } else {
        None
    }
}

/// The symbol blocks that open before `n`, in file order.
pub open spec fn symbol_blocks(s: Seq<u8>, n: int) -> Seq<SymBlock>
    decreases n,
{
    if n <= 0 {
        Seq::empty()
    } else {
        match symbol_at(s, n - 1) {
            Some(b) => symbol_blocks(s, n - 1).push(b),
            None => symbol_blocks(s, n - 1),
        }
    }
}

/// The blocks of a list stand in the text that they were found in.
pub open spec fn blocks_stand(s: Seq<u8>, v: Seq<SymbolBlock>) -> bool {
    forall|k: int|
        0 <= k < v.len() ==> closes_at(s, (#[trigger] v[k]).start as int, v[k].end as int)
            && symbol_at(s, v[k].start as int) == Some(v[k].model())
}

/// Locate every `(symbol "NAME" …)` block of a library file.
///
/// The scan goes by quoted strings and escapes, since KiCAD's own libraries ship
/// quoted values with unbalanced parentheses. A block that never closes, in a
/// truncated file, is left out.
pub fn scan_symbol_blocks(content: &str) -> (r: Vec<SymbolBlock>)
    ensures
        sym_blocks(r@) == symbol_blocks(bytes(content@), bytes(content@).len() as int),
        blocks_stand(bytes(content@), r@),
{
    let n = length(content);
    blocks_before(content, n)
}

/// Locate the symbol blocks that open before `n`.
fn blocks_before(content: &str, n: usize) -> (r: Vec<SymbolBlock>)
    requires
        n <= bytes(content@).len(),
    ensures
        sym_blocks(r@) == symbol_blocks(bytes(content@), n as int),
        blocks_stand(bytes(content@), r@),
{
    let ghost s = bytes(content@);
    let mut out: Vec<SymbolBlock> = Vec::new();
    let mut st = Lexer::start();
    let mut i: usize = 0;
    assert(sym_blocks(out@) =~= symbol_blocks(s, 0));
    while i < n
        invariant
            s == bytes(content@),
            n <= s.len(),
            i <= n,
            st.model() == lex(s, 0, i as int),
            st.depth <= i,
            sym_blocks(out@) == symbol_blocks(s, i as int),
            blocks_stand(s, out@),
        decreases n - i,
    {
        let b = byte_at(content, i);
        if b == OPEN && !st.in_string {
            match symbol_header_at(content, i) {
                Some((x, y)) => match find_block_end(content, i) {
                    Some(e) => {
                        let ghost was = sym_blocks(out@);
                        let block = SymbolBlock {
                            name: copy(slice(content, x, y)),
                            start: i,
                            end: e,
                            depth: st.depth + 1,
                        };
                        let ghost m = block.model();
                        out.push(block);
                        assert(sym_blocks(out@) =~= was.push(m));
                    },
                    None => {},
                },
                None => {},
            }
        }
        st = st.step(b);
        i += 1;
    }
    out
}

/// The least depth among the first `n` blocks, or `deep` where there is none.
pub open spec fn least_depth(v: Seq<SymBlock>, n: int, deep: int) -> int
    decreases n,
{
    if n <= 0 {
        deep
    } else {
        let d = least_depth(v, n - 1, deep);
        if v[n - 1].depth < d {
            v[n - 1].depth
        } else {
            d
        }
    }
}

/// The blocks among the first `n` that are at the depth `d`.
pub open spec fn at_depth(v: Seq<SymBlock>, d: int, n: int) -> Seq<SymBlock>
    decreases n,
{
    if n <= 0 {
        Seq::empty()
    } else if v[n - 1].depth == d {
        at_depth(v, d, n - 1).push(v[n - 1])
    } else {
        at_depth(v, d, n - 1)
    }
}

/// The outermost blocks: those of the least depth.
pub open spec fn outermost(v: Seq<SymBlock>) -> Seq<SymBlock> {
    if v.len() == 0 {
        v
    } else {
        at_depth(v, least_depth(v, v.len() as int, v[0].depth), v.len() as int)
    }
}

/// A symbol block opens at `p` and never closes.
pub open spec fn is_cut_off(s: Seq<u8>, p: int) -> bool {
    opens(s, p) && symbol_name(s, p).is_some() && block_end(s, p).is_none()
}

/// Where the first symbol block from `i` on that never closes opens; the end of the
/// text where there is none. All that follows it lies inside it.
pub open spec fn cut_from(s: Seq<u8>, i: int) -> int
    decreases s.len() - i,
{
    if i < 0 || i >= s.len() {
        s.len() as int
    } else if is_cut_off(s, i) {
        i
    } else {
        cut_from(s, i + 1)
    }
}

/// The symbols of a library file: the outermost blocks, those that lie inside a
/// block that never closes left out.
pub open spec fn library_symbols(s: Seq<u8>) -> Seq<SymBlock> {
    outermost(symbol_blocks(s, cut_from(s, 0)))
}

/// Nothing in a list lies less deep than its least depth.
pub proof fn law_outermost(v: Seq<SymBlock>)
    ensures
        forall|i: int, j: int|
            0 <= i < outermost(v).len() && 0 <= j < v.len() ==> (#[trigger] outermost(v)[i]).depth
                <= (#[trigger] v[j]).depth,
        forall|i: int| 0 <= i < outermost(v).len() ==> v.contains(#[trigger] outermost(v)[i]),
        v.len() > 0 ==> outermost(v).len() > 0,
{
    if v.len() > 0 {
        let d = least_depth(v, v.len() as int, v[0].depth);
        lemma_least_depth(v, v.len() as int, v[0].depth);
        lemma_at_depth(v, d, v.len() as int);
        if exists|j: int| 0 <= j < v.len() && (#[trigger] v[j]).depth == d {
            let j = choose|j: int| 0 <= j < v.len() && (#[trigger] v[j]).depth == d;
            assert(outermost(v).contains(v[j]));
        }
    }
}

proof fn lemma_least_depth(v: Seq<SymBlock>, n: int, deep: int)
    requires
        n <= v.len(),
    ensures
        least_depth(v, n, deep) <= deep,
        forall|j: int| 0 <= j < n ==> least_depth(v, n, deep) <= (#[trigger] v[j]).depth,
        least_depth(v, n, deep) == deep || exists|j: int|
            0 <= j < n && (#[trigger] v[j]).depth == least_depth(v, n, deep),
    decreases n,
{
    if n > 0 {
        lemma_least_depth(v, n - 1, deep);
        if v[n - 1].depth < least_depth(v, n - 1, deep) {
            assert(v[n - 1].depth == least_depth(v, n, deep));
        }
    }
}

proof fn lemma_at_depth(v: Seq<SymBlock>, d: int, n: int)
    requires
        n <= v.len(),
    ensures
        forall|i: int|
            0 <= i < at_depth(v, d, n).len() ==> (#[trigger] at_depth(v, d, n)[i]).depth == d
                && v.contains(at_depth(v, d, n)[i]),
        forall|j: int|
            0 <= j < n && (#[trigger] v[j]).depth == d ==> at_depth(v, d, n).contains(v[j]),
    decreases n,
{
    if n > 0 {
        lemma_at_depth(v, d, n - 1);
        let prev = at_depth(v, d, n - 1);
        let all = at_depth(v, d, n);
        assert forall|i: int| 0 <= i < all.len() implies (#[trigger] all[i]).depth == d && v.contains(
            all[i],
        ) by {
            if i < prev.len() {
                assert(all[i] == prev[i]);
            } else {
                assert(all[i] == v[n - 1]);
            }
        }
        assert forall|j: int| 0 <= j < n && (#[trigger] v[j]).depth == d implies all.contains(v[j]) by {
            if j == n - 1 {
                assert(all[prev.len() as int] == v[j]);
            } else {
                assert(prev.contains(v[j]));
                let q = choose|q: int| 0 <= q < prev.len() && prev[q] == v[j];
                assert(all[q] == v[j]);
            }
        }
    }
}

/// Find the first symbol block that never closes.
fn find_cut(content: &str) -> (r: usize)
    ensures
        r == cut_from(bytes(content@), 0),
        r <= bytes(content@).len(),
{
    let ghost s = bytes(content@);
    let n = length(content);
    let mut st = Lexer::start();
    let mut i: usize = 0;
    while i < n
        invariant
            s == bytes(content@),
            n == s.len(),
            i <= n,
            st.model() == lex(s, 0, i as int),
            st.depth <= i,
            cut_from(s, 0) == cut_from(s, i as int),
        decreases n - i,
    {
        let b = byte_at(content, i);
        if b == OPEN && !st.in_string && symbol_header_at(content, i).is_some() && find_block_end(
            content,
            i,
        ).is_none() {
            return i;
        }
        st = st.step(b);
        i += 1;
    }
    n
}

/// The outermost symbol blocks: the library's actual symbols. A unit such as
/// `R_0_1` lies one level deeper inside its symbol and is never taken for one, not
/// even where the symbol is cut off at the end of the file.
pub fn top_level_symbol_blocks(content: &str) -> (r: Vec<SymbolBlock>)
    ensures
        sym_blocks(r@) == library_symbols(bytes(content@)),
        blocks_stand(bytes(content@), r@),
{
    let blocks = blocks_before(content, find_cut(content));
    let ghost s = bytes(content@);
    let ghost all = sym_blocks(blocks@);
    if blocks.len() == 0 {
        assert(all =~= Seq::<SymBlock>::empty());
        return blocks;
    }
    let mut least: usize = blocks[0].depth;
    let mut i: usize = 0;
    while i < blocks.len()
        invariant
            i <= blocks.len(),
            blocks.len() > 0,
            all == sym_blocks(blocks@),
            least == least_depth(all, i as int, all[0].depth),
        decreases blocks.len() - i,
    {
        assert(all[i as int].depth == blocks[i as int].depth);
        if blocks[i].depth < least {
            least = blocks[i].depth;
        }
        i += 1;
    }
    let mut out: Vec<SymbolBlock> = Vec::new();
    let mut k: usize = 0;
    assert(sym_blocks(out@) =~= at_depth(all, least as int, 0));
    while k < blocks.len()
        invariant
            k <= blocks.len(),
            all == sym_blocks(blocks@),
            s == bytes(content@),
            blocks_stand(s, blocks@),
            sym_blocks(out@) == at_depth(all, least as int, k as int),
            blocks_stand(s, out@),
        decreases blocks.len() - k,
    {
        let b = &blocks[k];
        assert(all[k as int] == b.model());
        if b.depth == least {
            let ghost was = sym_blocks(out@);
            out.push(
                SymbolBlock { name: copy(b.name.as_str()), start: b.start, end: b.end, depth: b.depth },
            );
            assert(sym_blocks(out@) =~= was.push(all[k as int]));
        }
        k += 1;
    }
    out
}

/// The first block with the name, from `k` on.
pub open spec fn block_named(v: Seq<SymBlock>, name: Seq<char>, k: int) -> Option<SymBlock>
    decreases v.len() - k,
{
    if k < 0 || k >= v.len() {
        None
    } else if v[k].name == name {
        Some(v[k])
    } else {
        block_named(v, name, k + 1)
    }
}

/// The text of the library's symbol with the name.
pub open spec fn symbol_text(s: Seq<u8>, name: Seq<char>) -> Option<Seq<u8>> {
    match block_named(library_symbols(s), name, 0) {
        Some(b) => Some(s.subrange(b.start, b.end)),
        None => None,
    }
}

/// A text as bytes.
pub open spec fn bytes_of(t: Option<String>) -> Option<Seq<u8>> {
    match t {
        Some(x) => Some(bytes(x@)),
        None => None,
    }
}

/// Extract a top-level `(symbol "NAME" …)` block from a library file.
pub fn extract_symbol_block(content: &str, symbol_name: &str) -> (r: Option<String>)
    ensures
        bytes_of(r) == symbol_text(bytes(content@), symbol_name@),
{
    let blocks = top_level_symbol_blocks(content);
    let ghost s = bytes(content@);
    let ghost all = sym_blocks(blocks@);
    let mut k: usize = 0;
    while k < blocks.len()
        invariant
            k <= blocks.len(),
            s == bytes(content@),
            all == sym_blocks(blocks@),
            all == library_symbols(s),
            blocks_stand(s, blocks@),
            block_named(all, symbol_name@, 0) == block_named(all, symbol_name@, k as int),
        decreases blocks.len() - k,
    {
        let b = &blocks[k];
        assert(all[k as int] == b.model());
        if same(b.name.as_str(), symbol_name) {
            proof {
                lemma_block_cuttable(content@, b.start as int, b.end as int);
            }
            return Some(copy(slice(content, b.start, b.end)));
        }
        k += 1;
    }
    None
}

/// The names of symbols.
pub open spec fn names_of(v: Seq<SymBlock>) -> Seq<Seq<char>> {
    Seq::new(v.len(), |i: int| v[i].name)
}

/// Names of every top-level symbol of a library file, in file order.
pub fn top_level_symbol_names(content: &str) -> (r: Vec<String>)
    ensures
        texts(r@) == names_of(library_symbols(bytes(content@))),
{
    let blocks = top_level_symbol_blocks(content);
    let ghost all = sym_blocks(blocks@);
    let mut out: Vec<String> = Vec::new();
    let mut k: usize = 0;
    while k < blocks.len()
        invariant
            k <= blocks.len(),
            all == sym_blocks(blocks@),
            out.len() == k,
            forall|j: int| 0 <= j < k ==> (#[trigger] out[j])@ == all[j].name,
        decreases blocks.len() - k,
    {
        out.push(copy(blocks[k].name.as_str()));
        k += 1;
    }
    assert(texts(out@) =~= names_of(all));
    out
}

pub proof fn lemma_block_named(v: Seq<SymBlock>, name: Seq<char>, k: int)
    requires
        0 <= k,
    ensures
        match block_named(v, name, k) {
            Some(b) => v.contains(b) && b.name == name,
            None => forall|i: int| k <= i < v.len() ==> (#[trigger] v[i]).name != name,
        },
    decreases v.len() - k,
{
    if k < v.len() {
        if v[k].name == name {
            assert(v.contains(v[k]));
        } else {
            lemma_block_named(v, name, k + 1);
        }
    }
}

proof fn lemma_symbol_blocks(s: Seq<u8>, n: int)
    ensures
        forall|i: int|
            0 <= i < symbol_blocks(s, n).len() ==> symbol_at(
                s,
                (#[trigger] symbol_blocks(s, n)[i]).start,
            ) == Some(symbol_blocks(s, n)[i]) && 0 <= symbol_blocks(s, n)[i].start < n,
        forall|p: int|
            0 <= p < n && (#[trigger] symbol_at(s, p)).is_some() ==> symbol_blocks(s, n).contains(
                symbol_at(s, p).unwrap(),
            ),
    decreases n,
{
    if n > 0 {
        lemma_symbol_blocks(s, n - 1);
        let prev = symbol_blocks(s, n - 1);
        let all = symbol_blocks(s, n);
        assert forall|i: int| 0 <= i < all.len() implies symbol_at(s, (#[trigger] all[i]).start) == Some(
            all[i],
        ) && 0 <= all[i].start < n by {
            if i < prev.len() {
                assert(all[i] == prev[i]);
            }
        }
        assert forall|p: int| 0 <= p < n && (#[trigger] symbol_at(s, p)).is_some() implies all.contains(
            symbol_at(s, p).unwrap(),
        ) by {
            let b = symbol_at(s, p).unwrap();
            if p == n - 1 {
                assert(all[prev.len() as int] == b);
            } else {
                let k = choose|k: int| 0 <= k < prev.len() && prev[k] == b;
                assert(all[k] == b);
            }
        }
    }
}

/// A symbol of a library file is a block of it.
pub proof fn lemma_library_symbol(s: Seq<u8>, b: SymBlock)
    requires
        library_symbols(s).contains(b),
    ensures
        symbol_at(s, b.start) == Some(b),
        0 <= b.start < cut_from(s, 0),
{
    let v = library_symbols(s);
    let n = cut_from(s, 0);
    let raw = symbol_blocks(s, n);
    law_outermost(raw);
    let i = choose|i: int| 0 <= i < v.len() && v[i] == b;
    assert(raw.contains(outermost(raw)[i]));
    let k = choose|k: int| 0 <= k < raw.len() && raw[k] == b;
    lemma_symbol_blocks(s, n);
    assert(symbol_at(s, raw[k].start) == Some(b));
}

proof fn lemma_cut(s: Seq<u8>, i: int)
    requires
        0 <= i,
    ensures
        cut_from(s, i) <= s.len(),
        forall|p: int| i <= p < cut_from(s, i) ==> !#[trigger] is_cut_off(s, p),
    decreases s.len() - i,
{
    if i < s.len() && !is_cut_off(s, i) {
        lemma_cut(s, i + 1);
    }
}

/// A symbol of a library lies inside no other symbol block, not even inside one that
/// is cut off: a unit is never taken for a symbol.
pub proof fn law_no_unit_is_a_symbol(s: Seq<u8>, b: SymBlock, p: int)
    requires
        library_symbols(s).contains(b),
        0 <= p < b.start,
        opens(s, p),
        symbol_name(s, p).is_some(),
    ensures
        block_end(s, p) matches Some(e) && e <= b.start,
{
    let n = cut_from(s, 0);
    let raw = symbol_blocks(s, n);
    lemma_library_symbol(s, b);
    lemma_cut(s, 0);
    lemma_symbol_blocks(s, n);
    assert(!is_cut_off(s, p));
    let e = block_end(s, p).unwrap();
    lemma_block_end_is(s, p);
    if e > b.start {
        let x = symbol_at(s, p).unwrap();
        assert(raw.contains(x));
        law_outermost(raw);
        let v = library_symbols(s);
        let i = choose|i: int| 0 <= i < v.len() && v[i] == b;
        let j = choose|j: int| 0 <= j < raw.len() && raw[j] == x;
        assert(outermost(raw)[i].depth <= raw[j].depth);
        assert forall|k: int| p < k < b.start implies (#[trigger] lex(s, p, k)).depth > 0 by {}
        crate::scan::lemma_lex_shift(s, 0, p, b.start);
        assert(lex(s, p, b.start).depth > 0);
        assert(false);
    }
}

/// An extracted symbol is one whole block: it opens at its first byte and closes
/// at its last, whatever parentheses its strings hold.
pub proof fn law_symbol_text_is_a_block(s: Seq<u8>, name: Seq<char>)
    requires
        symbol_text(s, name).is_some(),
    ensures
        block_end(symbol_text(s, name).unwrap(), 0) == Some(symbol_text(s, name).unwrap().len() as int),
        matches_at(symbol_text(s, name).unwrap(), 0, bytes("(symbol"@)),
{
    lemma_block_named(library_symbols(s), name, 0);
    let b = block_named(library_symbols(s), name, 0).unwrap();
    lemma_library_symbol(s, b);
    lemma_block_end_is(s, b.start);
    let t = s.subrange(b.start, b.end);
    lemma_block_moved(s, t, b.start, b.end, -b.start);
    reveal_strlit("(symbol");
    reveal_strlit("symbol");
    lemma_bytes_ascii("(symbol"@);
    lemma_bytes_ascii("symbol"@);
    lemma_block_reaches(s, b.start, b.end);
    let head = bytes("(symbol"@);
    assert(t.subrange(0, 7) =~= head) by {
        assert forall|q: int| 0 <= q < 7 implies t[q] == head[q] by {
            if q > 0 {
                assert(s.subrange(b.start + 1, b.start + 7)[q - 1] == s[b.start + q]);
                assert(bytes("symbol"@)[q - 1] == s[b.start + q]);
            }
        }
    }
}

/// A symbol block is longer than its tag.
proof fn lemma_block_reaches(s: Seq<u8>, p: int, e: int)
    requires
        closes_at(s, p, e),
        matches_at(s, p + 1, bytes("symbol"@)),
    ensures
        e >= p + 8,
{
    reveal_strlit("symbol");
    lemma_bytes_ascii("symbol"@);
    let tag = bytes("symbol"@);
    assert(s[p] == OPEN);
    assert forall|q: int| p < q < p + 7 implies s[q] != OPEN && s[q] != QUOTE && s[q]
        != crate::scan::CLOSE by {
        assert(s.subrange(p + 1, p + 7)[q - p - 1] == s[q]);
        assert(tag[q - p - 1] == s[q]);
    }
    lemma_plain_depth(s, p, p + 7);
    if e <= p + 7 {
        lemma_plain_depth(s, p, e);
    }
}

proof fn lemma_plain_depth(s: Seq<u8>, p: int, k: int)
    requires
        p < k,
        s[p] == OPEN,
        forall|q: int| p < q < k ==> s[q] != OPEN && s[q] != QUOTE && s[q] != crate::scan::CLOSE,
    ensures
        lex(s, p, k) == (crate::scan::Lex { depth: 1, in_string: false, escape: false }),
    decreases k - p,
{
    if k == p + 1 {
        assert(lex(s, p, p) == crate::scan::outside());
    } else {
        lemma_plain_depth(s, p, k - 1);
    }
}

// ─── Qualifying a symbol ─────────────────────────────────────────────────────

/// The quoted argument of the first `(extends "Parent")` from `i` on, outside
/// strings.
pub open spec fn extends_from(s: Seq<u8>, i: int) -> Option<(int, int)>
    decreases s.len() - i,
{
    if i < 0 || i >= s.len() {
        None
    } else {
        let j = past_gaps(s, i + 8);
        if opens(s, i) && matches_at(s, i, bytes("(extends"@)) && j < s.len() && s[j] == QUOTE {
            match string_range(s, j) {
                Some((a, b)) => Some((a - 1, b + 1)),
                None => None,
            }
        } else {
            extends_from(s, i + 1)
        }
    }
}

/// The byte range of the quoted argument of `(extends "Parent")`. An `(extends "`
/// inside a description is not mistaken for the tag.
pub fn find_extends(block: &str) -> (r: Option<(usize, usize)>)
    ensures
        match r {
            Some((a, b)) => extends_from(bytes(block@), 0) == Some((a as int, b as int)) && a + 2 <= b
                && cuttable(bytes(block@), a as int, b as int) && cuttable(
                bytes(block@),
                a + 1,
                b - 1,
            ),
            None => extends_from(bytes(block@), 0).is_none(),
        },
{
    let ghost s = bytes(block@);
    let n = length(block);
    let mut st = Lexer::start();
    let mut i: usize = 0;
    while i < n
        invariant
            s == bytes(block@),
            n == s.len(),
            i <= n,
            st.model() == lex(s, 0, i as int),
            st.depth <= i,
            extends_from(s, 0) == extends_from(s, i as int),
        decreases n - i,
    {
        let b = byte_at(block, i);
        if b == OPEN && !st.in_string && match_at(block, i, "(extends") {
            proof {
                reveal_strlit("(extends");
                lemma_bytes_ascii("(extends"@);
            }
            let j = skip_gaps(block, i + 8);
            if j < n && byte_at(block, j) == QUOTE {
                return match find_string_range(block, j) {
                    Some((x, y)) => Some((x - 1, y + 1)),
                    None => None,
                };
            }
        }
        st = st.step(b);
        i += 1;
    }
    None
}

/// A name of a library.
pub open spec fn lib_id_text(library: Seq<char>, name: Seq<char>) -> Seq<char> {
    library + ":"@ + name
}

/// A symbol block with the library's name before its own; a block of another name
/// stays as it is.
pub open spec fn with_own_name(block: Seq<u8>, library: Seq<char>, name: Seq<char>) -> Seq<u8> {
    match symbol_name(block, 0) {
        Some((a, b)) => if text_of(block.subrange(a, b)) == name {
            replaced(block, a, b, bytes(lib_id_text(library, name)))
        } else {
            block
        },
        None => block,
    }
}

/// A symbol block as it is embedded in a schematic: the outer name and the parent
/// that it extends carry the library's name.
pub open spec fn qualified(block: Seq<u8>, library: Seq<char>, name: Seq<char>) -> Seq<u8> {
    let out = with_own_name(block, library, name);
    match extends_from(out, 0) {
        None => out,
        Some((a, b)) => {
            let parent = out.subrange(a + 1, b - 1);
            if first_byte(parent, 0x3a, 0).is_some() {
                out
            } else {
                replaced(out, a, b, bytes("\""@ + lib_id_text(library, text_of(parent)) + "\""@))
            }
        },
    }
}

fn qualify_name(block: &str, library: &str, name: &str) -> (r: String)
    ensures
        bytes(r@) == with_own_name(bytes(block@), library@, name@),
{
    if length(block) == 0 {
        return copy(block);
    }
    match symbol_header_at(block, 0) {
        Some((a, b)) => {
            if same(slice(block, a, b), name) {
                let mut with = copy(library);
                put(&mut with, ":");
                put(&mut with, name);
                replace(block, a, b, with.as_str())
            } else {
                copy(block)
            }
        },
        None => copy(block),
    }
}

/// Qualify a raw library symbol for embedding in a schematic: the outer symbol's
/// name and any `(extends "Parent")` gain the `Library:` prefix.
///
/// The units (`Name_0_1`) stay as they are: eeschema refuses to load a schematic
/// whose units carry the prefix.
pub fn prefix_symbol_block(block: &str, library_name: &str, symbol_name: &str) -> (r: String)
    ensures
        bytes(r@) == qualified(bytes(block@), library_name@, symbol_name@),
{
    let out = qualify_name(block, library_name, symbol_name);
    match find_extends(out.as_str()) {
        None => out,
        Some((a, b)) => {
            let parent = slice(out.as_str(), a + 1, b - 1);
            match find_byte(parent, 0x3a, 0) {
                Some(_) => out,
                None => {
                    let mut with = copy("\"");
                    put(&mut with, library_name);
                    put(&mut with, ":");
                    put(&mut with, parent);
                    put(&mut with, "\"");
                    assert(with@ =~= "\""@ + lib_id_text(library_name@, parent@) + "\""@);
                    replace(out.as_str(), a, b, with.as_str())
                },
            }
        },
    }
}

// ─── Resolving a lib_id ──────────────────────────────────────────────────────

/// A `lib_id` parted at its first colon.
pub open spec fn lib_id_parts(lib_id: Seq<char>) -> Option<(Seq<char>, Seq<char>)> {
    let s = bytes(lib_id);
    match first_byte(s, 0x3a, 0) {
        Some(p) => Some((text_of(s.subrange(0, p)), text_of(s.subrange(p + 1, s.len() as int)))),
        None => None,
    }
}

/// Part a `lib_id` into the library's name and the symbol's.
pub fn split_lib_id(lib_id: &str) -> (r: Option<(&str, &str)>)
    ensures
        match r {
            Some((a, b)) => lib_id_parts(lib_id@) == Some((a@, b@)),
            None => lib_id_parts(lib_id@).is_none(),
        },
{
    let n = length(lib_id);
    match find_byte(lib_id, 0x3a, 0) {
        None => None,
        Some(p) => {
            proof {
                lemma_ascii_boundary(lib_id@, p as int);
                lemma_ends(lib_id@);
            }
            Some((slice(lib_id, 0, p), slice_from(lib_id, p + 1)))
        },
    }
}

/// The files to look for a symbol in, in order, each as the parts of its path: the
/// registered library as a directory and as a file, then each installed directory
/// in the layout of KiCAD 10 and in the older one.
pub open spec fn candidate_paths(
    library: Seq<char>,
    name: Seq<char>,
    registered: Option<Seq<char>>,
    dirs: Seq<Seq<char>>,
    n: int,
) -> Seq<Seq<Seq<char>>>
    decreases n,
{
    if n <= 0 {
        match registered {
            Some(p) => seq![seq![p, name + ".kicad_sym"@], seq![p]],
            None => Seq::empty(),
        }
    } else {
        candidate_paths(library, name, registered, dirs, n - 1).push(
            seq![dirs[n - 1], library + ".kicad_symdir"@, name + ".kicad_sym"@],
        ).push(seq![dirs[n - 1], library + ".kicad_sym"@])
    }
}

/// Lists of texts.
pub open spec fn text_lists(v: Seq<Vec<String>>) -> Seq<Seq<Seq<char>>> {
    Seq::new(v.len(), |i: int| texts(v[i]@))
}

fn joined_name(name: &str, ending: &str) -> (r: String)
    ensures
        r@ == name@ + ending@,
{
    let mut out = copy(name);
    put(&mut out, ending);
    out
}

/// The files to look for the symbol in, in order.
pub fn symbol_candidates(lib_id: &str, registered: &Option<String>, dirs: &Vec<String>) -> (r: Vec<
    Vec<String>,
>)
    ensures
        match lib_id_parts(lib_id@) {
            None => r.len() == 0,
            Some((library, name)) => text_lists(r@) == candidate_paths(
                library,
                name,
                string_opt(*registered),
                texts(dirs@),
                dirs.len() as int,
            ),
        },
{
    let mut out: Vec<Vec<String>> = Vec::new();
    match split_lib_id(lib_id) {
        None => out,
        Some((library, name)) => {
            let ghost all = texts(dirs@);
            let ghost reg = string_opt(*registered);
            match registered {
                Some(p) => {
                    let mut a: Vec<String> = Vec::new();
                    a.push(copy(p.as_str()));
                    a.push(joined_name(name, ".kicad_sym"));
                    let mut b: Vec<String> = Vec::new();
                    b.push(copy(p.as_str()));
                    assert(texts(a@) =~= seq![p@, name@ + ".kicad_sym"@]);
                    assert(texts(b@) =~= seq![p@]);
                    out.push(a);
                    out.push(b);
                },
                None => {},
            }
            assert(text_lists(out@) =~= candidate_paths(library@, name@, reg, all, 0));
            let mut i: usize = 0;
            while i < dirs.len()
                invariant
                    i <= dirs.len(),
                    all == texts(dirs@),
                    text_lists(out@) == candidate_paths(library@, name@, reg, all, i as int),
                decreases dirs.len() - i,
            {
                let ghost was = text_lists(out@);
                let mut a: Vec<String> = Vec::new();
                a.push(copy(dirs[i].as_str()));
                a.push(joined_name(library, ".kicad_symdir"));
                a.push(joined_name(name, ".kicad_sym"));
                let mut b: Vec<String> = Vec::new();
                b.push(copy(dirs[i].as_str()));
                b.push(joined_name(library, ".kicad_sym"));
                let ghost x = seq![all[i as int], library@ + ".kicad_symdir"@, name@ + ".kicad_sym"@];
                let ghost y = seq![all[i as int], library@ + ".kicad_sym"@];
                assert(texts(a@) =~= x);
                assert(texts(b@) =~= y);
                out.push(a);
                out.push(b);
                assert(text_lists(out@) =~= was.push(x).push(y));
                i += 1;
            }
            out
        },
    }
}

/// The qualified symbol out of the first file, from `k` on, that has it.
pub open spec fn resolved_from(
    files: Seq<Seq<char>>,
    library: Seq<char>,
    name: Seq<char>,
    k: int,
) -> Option<Seq<u8>>
    decreases files.len() - k,
{
    if k < 0 || k >= files.len() {
        None
    } else {
        match symbol_text(bytes(files[k]), name) {
            Some(b) => Some(qualified(b, library, name)),
            None => resolved_from(files, library, name, k + 1),
        }
    }
}

/// What a `lib_id` resolves to in the given files.
pub open spec fn resolved(lib_id: Seq<char>, files: Seq<Seq<char>>) -> Option<Seq<u8>> {
    match lib_id_parts(lib_id) {
        Some((library, name)) => resolved_from(files, library, name, 0),
        None => None,
    }
}

/// Resolve a `lib_id` to the full symbol, its name and its parent's prefixed with
/// the library's name. `files` holds the contents of the candidate files that
/// could be read, in order.
pub fn resolve_lib_symbol(lib_id: &str, files: &Vec<String>) -> (r: Option<String>)
    ensures
        bytes_of(r) == resolved(lib_id@, texts(files@)),
{
    let ghost all = texts(files@);
    match split_lib_id(lib_id) {
        None => None,
        Some((library, name)) => {
            let mut k: usize = 0;
            while k < files.len()
                invariant
                    k <= files.len(),
                    all == texts(files@),
                    lib_id_parts(lib_id@) == Some((library@, name@)),
                    resolved(lib_id@, all) == resolved_from(all, library@, name@, k as int),
                decreases files.len() - k,
            {
                assert(all[k as int] == files[k as int]@);
                match extract_symbol_block(files[k].as_str(), name) {
                    Some(block) => {
                        return Some(prefix_symbol_block(block.as_str(), library, name));
                    },
                    None => {},
                }
                k += 1;
            }
            None
        },
    }
}

/// Resolve a `lib_id` to a parsed tree.
pub fn resolve_lib_symbol_node(lib_id: &str, files: &Vec<String>) -> (r: Option<SexpNode>)
    ensures
        match resolved(lib_id@, texts(files@)) {
            None => r.is_none(),
            Some(t) => match parse_text(t) {
                Ok(n) => r.is_some() && r.unwrap().model() == n,
                Err(_) => r.is_none(),
            },
        },
{
    match resolve_lib_symbol(lib_id, files) {
        None => None,
        Some(raw) => match parse_sexp(raw.as_str()) {
            Ok(n) => Some(n),
            Err(_) => None,
        },
    }
}

// ─── Library tables ──────────────────────────────────────────────────────────

/// One `(lib (name …) (type …) (uri …))` row of a symbol library table.
#[derive(Debug)]
pub struct LibTableEntry {
    pub name: String,
    pub kind: String,
    pub uri: String,
}

/// A row as a value.
pub struct LibRow {
    pub name: Seq<char>,
    pub kind: Seq<char>,
    pub uri: Seq<char>,
}

/// The values of rows.
pub open spec fn lib_rows(v: Seq<LibTableEntry>) -> Seq<LibRow> {
    Seq::new(v.len(), |i: int| LibRow { name: v[i].name@, kind: v[i].kind@, uri: v[i].uri@ })
}

/// The row that a node states: it needs a name and a place.
pub open spec fn lib_row(n: Sexp) -> Option<LibRow> {
    match (child_text(n, "name"@), child_text(n, "uri"@)) {
        (Some(name), Some(uri)) => Some(
            LibRow {
                name,
                kind: match child_text(n, "type"@) {
                    Some(k) => k,
                    None => "KiCad"@,
                },
                uri,
            },
        ),
        _ => None,
    }
}

/// The rows that the first `n` nodes state.
pub open spec fn rows_in(nodes: Seq<Sexp>, n: int) -> Seq<LibRow>
    decreases n,
{
    if n <= 0 {
        Seq::empty()
    } else {
        match lib_row(nodes[n - 1]) {
            Some(r) => rows_in(nodes, n - 1).push(r),
            None => rows_in(nodes, n - 1),
        }
    }
}

/// The rows of a library table; none where the table does not parse.
pub open spec fn table_rows(s: Seq<u8>) -> Seq<LibRow> {
    match parse_text(s) {
        Ok(tree) => {
            let libs = children_in(tree, "lib"@);
            rows_in(libs, libs.len() as int)
        },
        Err(_) => Seq::empty(),
    }
}

/// Read the rows of a library table.
pub fn parse_lib_table(content: &str) -> (r: Vec<LibTableEntry>)
    ensures
        lib_rows(r@) == table_rows(bytes(content@)),
{
    let mut out: Vec<LibTableEntry> = Vec::new();
    match parse_sexp(content) {
        Err(_) => {
            assert(lib_rows(out@) =~= Seq::<LibRow>::empty());
            out
        },
        Ok(root) => {
            let libs = root.find_all("lib");
            let ghost nodes = children_in(root.model(), "lib"@);
            let mut i: usize = 0;
            assert(lib_rows(out@) =~= rows_in(nodes, 0));
            while i < libs.len()
                invariant
                    i <= libs.len(),
                    node_refs(libs@) == nodes,
                    lib_rows(out@) == rows_in(nodes, i as int),
                decreases libs.len() - i,
            {
                let n = libs[i];
                assert(n.model() == nodes[i as int]);
                match (n.find_str("name"), n.find_str("uri")) {
                    (Some(name), Some(uri)) => {
                        let kind = match n.find_str("type") {
                            Some(k) => copy(k),
                            None => copy("KiCad"),
                        };
                        let ghost was = lib_rows(out@);
                        let ghost r = LibRow { name: name@, kind: kind@, uri: uri@ };
                        out.push(LibTableEntry { name: copy(name), kind, uri: copy(uri) });
                        assert(lib_rows(out@) =~= was.push(r));
                    },
                    _ => {},
                }
                i += 1;
            }
            out
        },
    }
}

// ─── Variables in a URI ──────────────────────────────────────────────────────

/// Pairs of texts.
pub open spec fn text_pairs(v: Seq<(String, String)>) -> Seq<(Seq<char>, Seq<char>)> {
    Seq::new(v.len(), |i: int| (v[i].0@, v[i].1@))
}

/// The value of the variable in the environment, from `k` on.
pub open spec fn env_value(env: Seq<(Seq<char>, Seq<char>)>, var: Seq<char>, k: int) -> Option<Seq<char>>
    decreases env.len() - k,
{
    if k < 0 || k >= env.len() {
        None
    } else if env[k].0 == var {
        Some(env[k].1)
    } else {
        env_value(env, var, k + 1)
    }
}

/// What a variable stands for: its value in the environment, else, where it names
/// a symbol directory, the first installed one.
pub open spec fn var_value(
    env: Seq<(Seq<char>, Seq<char>)>,
    symbol_dir: Option<Seq<char>>,
    var: Seq<char>,
) -> Option<Seq<char>> {
    match env_value(env, var, 0) {
        Some(v) => Some(v),
        None => if has(bytes(var), bytes("SYMBOL_DIR"@)) {
            symbol_dir
        } else {
            None
        },
    }
}

/// The bytes of a URI from `i` on, with each `${VAR}` exchanged for what it stands
/// for. A variable that stands for nothing stays as it is.
pub open spec fn expanded(
    s: Seq<u8>,
    i: int,
    env: Seq<(Seq<char>, Seq<char>)>,
    symbol_dir: Option<Seq<char>>,
) -> Seq<u8>
    decreases s.len() - i,
{
    let n = s.len() as int;
    if i < 0 || i > n {
        Seq::empty()
    } else {
        match first_match(s, bytes("${"@), i) {
            None => s.subrange(i, n),
            Some(o) => match first_byte(s, 0x7d, o + 2) {
                None => s.subrange(i, n),
                Some(c) => if o < i || c < o || c >= n {
                    Seq::empty()
                } else {
                    s.subrange(i, o) + (match var_value(env, symbol_dir, text_of(s.subrange(o + 2, c))) {
                        Some(v) => bytes(v),
                        None => s.subrange(o, c + 1),
                    }) + expanded(s, c + 1, env, symbol_dir)
                },
            },
        }
    }
}

fn find_env_value<'a>(env: &'a Vec<(String, String)>, var: &str) -> (r: Option<&'a String>)
    ensures
        match r {
            Some(v) => env_value(text_pairs(env@), var@, 0) == Some(v@),
            None => env_value(text_pairs(env@), var@, 0).is_none(),
        },
{
    let ghost all = text_pairs(env@);
    let mut k: usize = 0;
    while k < env.len()
        invariant
            k <= env.len(),
            all == text_pairs(env@),
            env_value(all, var@, 0) == env_value(all, var@, k as int),
        decreases env.len() - k,
    {
        assert(all[k as int] == (env[k as int].0@, env[k as int].1@));
        if same(env[k].0.as_str(), var) {
            return Some(&env[k].1);
        }
        k += 1;
    }
    None
}

/// Expand `${VAR}` in a library table's URI.
///
/// KiCAD writes every stock entry as `${KICAD10_SYMBOL_DIR}/Device.kicad_sym` and
/// defines those variables itself rather than in the environment, so the symbol
/// directories fall back to the first installed one. A variable that cannot be
/// resolved is kept literally, so that nothing exists under the result.
#[verifier::rlimit(40)]
pub fn expand_uri_vars(uri: &str, env: &Vec<(String, String)>, symbol_dir: &Option<String>) -> (r:
    String)
    ensures
        bytes(r@) == expanded(bytes(uri@), 0, text_pairs(env@), string_opt(*symbol_dir)),
{
    let ghost s = bytes(uri@);
    let ghost pairs = text_pairs(env@);
    let ghost dir = string_opt(*symbol_dir);
    let n = length(uri);
    let mut out = String::new();
    let mut i: usize = 0;
    proof {
        lemma_ends(uri@);
        lemma_bytes_valid(Seq::<char>::empty());
        assert(bytes(Seq::<char>::empty()) =~= Seq::<u8>::empty());
        assert(out@ =~= Seq::<char>::empty());
        assert(Seq::<u8>::empty() + expanded(s, 0, pairs, dir) =~= expanded(s, 0, pairs, dir));
    }
    loop
        invariant
            s == bytes(uri@),
            n == s.len(),
            pairs == text_pairs(env@),
            dir == string_opt(*symbol_dir),
            i <= n,
            boundary(s, i as int),
            bytes(out@) + expanded(s, i as int, pairs, dir) == expanded(s, 0, pairs, dir),
        decreases n - i,
    {
        let o = match find_from(uri, "${", i) {
            None => {
                put(&mut out, slice_from(uri, i));
                return out;
            },
            Some(o) => o,
        };
        proof {
            reveal_strlit("${");
            lemma_match_boundary(uri@, o as int, "${"@);
        }
        let c = match find_byte(uri, 0x7d, o + 2) {
            None => {
                put(&mut out, slice_from(uri, i));
                return out;
            },
            Some(c) => c,
        };
        proof {
            lemma_first_byte(s, 0x7d, o + 2);
            lemma_ascii_boundary(uri@, c as int);
        }
        let ghost was = bytes(out@);
        put(&mut out, slice(uri, i, o));
        let var = slice(uri, o + 2, c);
        let ghost piece = match var_value(pairs, dir, var@) {
            Some(v) => bytes(v),
            None => s.subrange(o as int, c + 1),
        };
        match find_env_value(env, var) {
            Some(v) => {
                put(&mut out, v.as_str());
            },
            None => {
                let known = contains(var, "SYMBOL_DIR");
                match symbol_dir {
                    Some(d) => {
                        if known {
                            put(&mut out, d.as_str());
                        } else {
                            put(&mut out, slice(uri, o, c + 1));
                        }
                    },
                    None => {
                        put(&mut out, slice(uri, o, c + 1));
                    },
                }
            },
        }
        proof {
            let rest = expanded(s, c + 1, pairs, dir);
            assert(bytes(out@) =~= was + s.subrange(i as int, o as int) + piece);
            assert(was + (s.subrange(i as int, o as int) + piece + rest) =~= bytes(out@) + rest);
        }
        i = c + 1;
    }
}

// ─── Looking a library up ────────────────────────────────────────────────────

/// A byte in lower case, where it is an ASCII letter.
pub open spec fn ascii_lower(b: u8) -> u8 {
    if 65 <= b <= 90 {
        (b + 32) as u8
    } else {
        b
    }
}

/// Two texts are the same but for the case of ASCII letters.
pub open spec fn same_ignoring_case(a: Seq<char>, b: Seq<char>) -> bool {
    let s = bytes(a);
    let t = bytes(b);
    s.len() == t.len() && forall|i: int|
        0 <= i < s.len() ==> ascii_lower(#[trigger] s[i]) == ascii_lower(t[i])
}

fn lower_byte(b: u8) -> (r: u8)
    ensures
        r == ascii_lower(b),
{
    if 65 <= b && b <= 90 {
        b + 32
    } else {
        b
    }
}

/// Whether two texts are the same but for the case of ASCII letters.
pub fn eq_ignoring_case(a: &str, b: &str) -> (r: bool)
    ensures
        r == same_ignoring_case(a@, b@),
{
    let n = length(a);
    if n != length(b) {
        return false;
    }
    let mut i: usize = 0;
    while i < n
        invariant
            i <= n,
            n == bytes(a@).len(),
            n == bytes(b@).len(),
            forall|k: int|
                0 <= k < i ==> ascii_lower(#[trigger] bytes(a@)[k]) == ascii_lower(bytes(b@)[k]),
        decreases n - i,
    {
        if lower_byte(byte_at(a, i)) != lower_byte(byte_at(b, i)) {
            return false;
        }
        i += 1;
    }
    true
}

/// The rows of the first `n` tables, one table after the other.
pub open spec fn all_rows(tables: Seq<Seq<char>>, n: int) -> Seq<LibRow>
    decreases n,
{
    if n <= 0 {
        Seq::empty()
    } else {
        all_rows(tables, n - 1) + table_rows(bytes(tables[n - 1]))
    }
}

/// A row that points at another table.
pub open spec fn is_table(r: LibRow) -> bool {
    same_ignoring_case(r.kind, "table"@)
}

/// The first row from `k` on for the library.
pub open spec fn row_of(rows: Seq<LibRow>, nickname: Seq<char>, k: int) -> Option<LibRow>
    decreases rows.len() - k,
{
    if k < 0 || k >= rows.len() {
        None
    } else if !is_table(rows[k]) && rows[k].name == nickname {
        Some(rows[k])
    } else {
        row_of(rows, nickname, k + 1)
    }
}

/// The tables that the first `n` rows point at.
pub open spec fn tables_in(
    rows: Seq<LibRow>,
    n: int,
    env: Seq<(Seq<char>, Seq<char>)>,
    symbol_dir: Option<Seq<char>>,
) -> Seq<Seq<u8>>
    decreases n,
{
    if n <= 0 {
        Seq::empty()
    } else if is_table(rows[n - 1]) {
        tables_in(rows, n - 1, env, symbol_dir).push(
            expanded(bytes(rows[n - 1].uri), 0, env, symbol_dir),
        )
    } else {
        tables_in(rows, n - 1, env, symbol_dir)
    }
}

/// What looking a library up in some tables comes to.
#[derive(Debug)]
pub enum LibraryLookup {
    /// The library is registered under this path.
    Found(String),
    /// It is in none of these tables; these others are to be read next.
    Follow(Vec<String>),
    /// It is nowhere.
    Unknown,
}

/// What a lookup comes to, as a value.
pub enum Lookup {
    Found(Seq<u8>),
    Follow(Seq<Seq<u8>>),
    Unknown,
}

/// The bytes of texts.
pub open spec fn bytes_all(v: Seq<String>) -> Seq<Seq<u8>> {
    Seq::new(v.len(), |i: int| bytes(v[i]@))
}

impl LibraryLookup {
    pub open spec fn model(&self) -> Lookup {
        match self {
            LibraryLookup::Found(p) => Lookup::Found(bytes(p@)),
            LibraryLookup::Follow(v) => Lookup::Follow(bytes_all(v@)),
            LibraryLookup::Unknown => Lookup::Unknown,
        }
    }
}

/// How often a lookup may go on to further tables, the first ones included.
pub const TABLE_DEPTH: u8 = 4;

/// One round of looking a library up, with `depth` rounds left: the first row with
/// the name decides; without one, the tables that these point at are next, unless
/// this was the last round.
pub open spec fn looked_up(
    nickname: Seq<char>,
    tables: Seq<Seq<char>>,
    depth: int,
    env: Seq<(Seq<char>, Seq<char>)>,
    symbol_dir: Option<Seq<char>>,
) -> Lookup {
    if depth <= 0 {
        Lookup::Unknown
    } else {
        let rows = all_rows(tables, tables.len() as int);
        match row_of(rows, nickname, 0) {
            Some(r) => Lookup::Found(expanded(bytes(r.uri), 0, env, symbol_dir)),
            None => if depth == 1 {
                Lookup::Unknown
            } else {
                Lookup::Follow(tables_in(rows, rows.len() as int, env, symbol_dir))
            },
        }
    }
}

fn read_tables(tables: &Vec<String>) -> (r: Vec<LibTableEntry>)
    ensures
        lib_rows(r@) == all_rows(texts(tables@), tables.len() as int),
{
    let ghost all = texts(tables@);
    let mut out: Vec<LibTableEntry> = Vec::new();
    let mut i: usize = 0;
    assert(lib_rows(out@) =~= all_rows(all, 0));
    while i < tables.len()
        invariant
            i <= tables.len(),
            all == texts(tables@),
            lib_rows(out@) == all_rows(all, i as int),
        decreases tables.len() - i,
    {
        assert(all[i as int] == tables[i as int]@);
        let mut more = parse_lib_table(tables[i].as_str());
        let ghost was = lib_rows(out@);
        let ghost next = lib_rows(more@);
        out.append(&mut more);
        assert(lib_rows(out@) =~= was + next);
        i += 1;
    }
    out
}

/// One round of looking up where `nickname` is registered. `tables` holds the
/// contents of the tables that could be read, project-local first, and `depth` the
/// rounds that are left, so that a table that points at itself cannot loop.
pub fn library_path_from_tables(
    nickname: &str,
    tables: &Vec<String>,
    depth: u8,
    env: &Vec<(String, String)>,
    symbol_dir: &Option<String>,
) -> (r: LibraryLookup)
    ensures
        r.model() == looked_up(
            nickname@,
            texts(tables@),
            depth as int,
            text_pairs(env@),
            string_opt(*symbol_dir),
        ),
{
    if depth == 0 {
        return LibraryLookup::Unknown;
    }
    let ghost pairs = text_pairs(env@);
    let ghost dir = string_opt(*symbol_dir);
    let entries = read_tables(tables);
    let ghost rows = lib_rows(entries@);
    let mut next: Vec<String> = Vec::new();
    let mut k: usize = 0;
    assert(bytes_all(next@) =~= tables_in(rows, 0, pairs, dir));
    while k < entries.len()
        invariant
            k <= entries.len(),
            depth > 0,
            pairs == text_pairs(env@),
            dir == string_opt(*symbol_dir),
            rows == lib_rows(entries@),
            rows == all_rows(texts(tables@), tables.len() as int),
            bytes_all(next@) == tables_in(rows, k as int, pairs, dir),
            row_of(rows, nickname@, 0) == row_of(rows, nickname@, k as int),
        decreases entries.len() - k,
    {
        let e = &entries[k];
        assert(rows[k as int] == (LibRow { name: e.name@, kind: e.kind@, uri: e.uri@ }));
        let path = expand_uri_vars(e.uri.as_str(), env, symbol_dir);
        if eq_ignoring_case(e.kind.as_str(), "table") {
            let ghost was = bytes_all(next@);
            let ghost p = bytes(path@);
            next.push(path);
            assert(bytes_all(next@) =~= was.push(p));
        } else if same(e.name.as_str(), nickname) {
            return LibraryLookup::Found(path);
        }
        k += 1;
    }
    if depth == 1 {
        LibraryLookup::Unknown
    } else {
        LibraryLookup::Follow(next)
    }
}

/// A lookup never goes on for ever: whatever the tables hold, the last round
/// points at no further table.
pub proof fn law_lookup_ends(
    nickname: Seq<char>,
    tables: Seq<Seq<char>>,
    env: Seq<(Seq<char>, Seq<char>)>,
    symbol_dir: Option<Seq<char>>,
)
    ensures
        !(looked_up(nickname, tables, 1, env, symbol_dir) is Follow),
        looked_up(nickname, tables, 0, env, symbol_dir) is Unknown,
{
}

/// The project's own tables win: where one of them has the library, no table after
/// it is heard.
pub proof fn law_first_table_wins(
    nickname: Seq<char>,
    first: Seq<Seq<char>>,
    later: Seq<Seq<char>>,
    depth: int,
    env: Seq<(Seq<char>, Seq<char>)>,
    symbol_dir: Option<Seq<char>>,
)
    requires
        looked_up(nickname, first, depth, env, symbol_dir) is Found,
    ensures
        looked_up(nickname, first + later, depth, env, symbol_dir) == looked_up(
            nickname,
            first,
            depth,
            env,
            symbol_dir,
        ),
{
    let a = all_rows(first, first.len() as int);
    let b = all_rows(first + later, (first + later).len() as int);
    lemma_rows_prefix(first, first + later, first.len() as int);
    lemma_rows_grow(first + later, first.len() as int, (first + later).len() as int);
    lemma_row_of_prefix(a, b, nickname, 0);
}

proof fn lemma_rows_prefix(a: Seq<Seq<char>>, b: Seq<Seq<char>>, n: int)
    requires
        n <= a.len() <= b.len(),
        forall|i: int| 0 <= i < a.len() ==> a[i] == b[i],
    ensures
        all_rows(a, n) == all_rows(b, n),
    decreases n,
{
    if n > 0 {
        lemma_rows_prefix(a, b, n - 1);
    }
}

proof fn lemma_rows_grow(a: Seq<Seq<char>>, n: int, m: int)
    requires
        0 <= n <= m <= a.len(),
    ensures
        all_rows(a, n).len() <= all_rows(a, m).len(),
        forall|i: int| 0 <= i < all_rows(a, n).len() ==> #[trigger] all_rows(a, n)[i] == all_rows(a, m)[i],
    decreases m - n,
{
    if n < m {
        lemma_rows_grow(a, n, m - 1);
    }
}

proof fn lemma_row_of_prefix(a: Seq<LibRow>, b: Seq<LibRow>, nickname: Seq<char>, k: int)
    requires
        0 <= k,
        a.len() <= b.len(),
        forall|i: int| 0 <= i < a.len() ==> a[i] == b[i],
        row_of(a, nickname, k).is_some(),
    ensures
        row_of(b, nickname, k) == row_of(a, nickname, k),
    decreases a.len() - k,
{
    if k < a.len() && !(!is_table(a[k]) && a[k].name == nickname) {
        lemma_row_of_prefix(a, b, nickname, k + 1);
    }
}

/// How a library is found in an installed directory.
#[derive(Debug)]
pub struct Installed {
    /// As a directory with a file for each symbol.
    pub as_directory: bool,
    /// As a single file.
    pub as_file: bool,
}

/// Whether some directory has the library, in either layout.
pub open spec fn is_installed(dirs: Seq<Installed>) -> bool {
    exists|i: int| 0 <= i < dirs.len() && ((#[trigger] dirs[i]).as_directory || dirs[i].as_file)
}

/// Whether a library is registered under a path that exists, or present in an
/// installed symbol directory.
pub fn library_exists_in(registered_path_exists: bool, dirs: &Vec<Installed>) -> (r: bool)
    ensures
        r == (registered_path_exists || is_installed(dirs@)),
{
    if registered_path_exists {
        return true;
    }
    let mut i: usize = 0;
    while i < dirs.len()
        invariant
            i <= dirs.len(),
            forall|k: int| 0 <= k < i ==> !(#[trigger] dirs[k]).as_directory && !dirs[k].as_file,
        decreases dirs.len() - i,
    {
        if dirs[i].as_directory || dirs[i].as_file {
            assert(dirs@[i as int].as_directory || dirs@[i as int].as_file);
            return true;
        }
        i += 1;
    }
    false
}

/// Whether a library is known with no project to look in.
pub fn library_exists(registered_path_exists: bool, dirs: &Vec<Installed>) -> (r: bool)
    ensures
        r == (registered_path_exists || is_installed(dirs@)),
{
    library_exists_in(registered_path_exists, dirs)
}

// ─── Suggestions ─────────────────────────────────────────────────────────────

/// The symbol that a file of a library directory holds: its name without the
/// ending, where it has that ending and anything before it.
pub open spec fn stem_of(file: Seq<char>) -> Option<Seq<char>> {
    let s = bytes(file);
    let n = s.len() - 10;
    if n > 0 && matches_at(s, n, bytes(".kicad_sym"@)) {
        Some(text_of(s.subrange(0, n)))
    } else {
        None
    }
}

/// The symbols that the first `n` files hold.
pub open spec fn stems_of(files: Seq<Seq<char>>, n: int) -> Seq<Seq<char>>
    decreases n,
{
    if n <= 0 {
        Seq::empty()
    } else {
        match stem_of(files[n - 1]) {
            Some(t) => stems_of(files, n - 1).push(t),
            None => stems_of(files, n - 1),
        }
    }
}

/// The symbols of the first `n` library files.
pub open spec fn symbols_of(libraries: Seq<Seq<char>>, n: int) -> Seq<Seq<char>>
    decreases n,
{
    if n <= 0 {
        Seq::empty()
    } else {
        symbols_of(libraries, n - 1) + names_of(library_symbols(bytes(libraries[n - 1])))
    }
}

/// The symbols to choose suggestions from, each once, in order.
pub open spec fn known_symbols(files: Seq<Seq<char>>, libraries: Seq<Seq<char>>) -> Seq<Seq<char>> {
    sort_unique(stems_of(files, files.len() as int) + symbols_of(libraries, libraries.len() as int))
}

/// Names with the library's name before them.
pub open spec fn lib_ids(library: Seq<char>, names: Seq<Seq<char>>) -> Seq<Seq<char>> {
    Seq::new(names.len(), |i: int| lib_id_text(library, names[i]))
}

fn read_stem(file: &str) -> (r: Option<&str>)
    ensures
        match r {
            Some(t) => stem_of(file@) == Some(t@),
            None => stem_of(file@).is_none(),
        },
{
    let n = length(file);
    if n <= 10 || !match_at(file, n - 10, ".kicad_sym") {
        return None;
    }
    proof {
        reveal_strlit(".kicad_sym");
        lemma_match_boundary(file@, n - 10, ".kicad_sym"@);
        lemma_ends(file@);
    }
    Some(slice(file, 0, n - 10))
}

/// The symbols to choose suggestions from: `files` are the names of the files in
/// the library's directories, `libraries` the contents of its single-file forms.
pub fn collect_symbols(files: &Vec<String>, libraries: &Vec<String>) -> (r: Vec<String>)
    ensures
        texts(r@) == known_symbols(texts(files@), texts(libraries@)),
{
    let ghost fs = texts(files@);
    let ghost ls = texts(libraries@);
    let mut out: Vec<String> = Vec::new();
    let mut i: usize = 0;
    assert(texts(out@) =~= stems_of(fs, 0));
    while i < files.len()
        invariant
            i <= files.len(),
            fs == texts(files@),
            texts(out@) == stems_of(fs, i as int),
        decreases files.len() - i,
    {
        assert(fs[i as int] == files[i as int]@);
        match read_stem(files[i].as_str()) {
            Some(t) => {
                let ghost was = texts(out@);
                out.push(copy(t));
                assert(texts(out@) =~= was.push(t@));
            },
            None => {},
        }
        i += 1;
    }
    let ghost head = texts(out@);
    let mut k: usize = 0;
    assert(head + symbols_of(ls, 0) =~= head);
    while k < libraries.len()
        invariant
            k <= libraries.len(),
            ls == texts(libraries@),
            texts(out@) == head + symbols_of(ls, k as int),
        decreases libraries.len() - k,
    {
        assert(ls[k as int] == libraries[k as int]@);
        let mut more = top_level_symbol_names(libraries[k].as_str());
        let ghost was = texts(out@);
        let ghost prev = symbols_of(ls, k as int);
        let ghost next = texts(more@);
        out.append(&mut more);
        assert(texts(out@) =~= was + next);
        assert(texts(out@) =~= head + (prev + next));
        k += 1;
    }
    sorted_unique(&out)
}

/// Symbols similar to the one that `lib_id` names, for did-you-mean hints: full
/// `Library:Name` ids, closest first, at most `limit`.
pub fn suggest_symbols(lib_id: &str, files: &Vec<String>, libraries: &Vec<String>, limit: usize) -> (r:
    Vec<String>)
    ensures
        match lib_id_parts(lib_id@) {
            None => r.len() == 0,
            Some((library, name)) => texts(r@) == lib_ids(
                library,
                best(
                    ranking(
                        lowercase(name),
                        known_symbols(texts(files@), texts(libraries@)),
                        lowered(known_symbols(texts(files@), texts(libraries@))),
                        known_symbols(texts(files@), texts(libraries@)).len() as int,
                    ),
                    limit as int,
                ),
            ),
        },
{
    let mut out: Vec<String> = Vec::new();
    match split_lib_id(lib_id) {
        None => out,
        Some((library, name)) => {
            let wanted = name.to_lowercase();
            let known = collect_symbols(files, libraries);
            let ghost names = texts(known@);
            assert(lowered(names) =~= Seq::new(known@.len(), |i: int| lowercase(known@[i]@)));
            let ranked = rank_candidates(wanted.as_str(), known, limit);
            let ghost all = texts(ranked@);
            let mut i: usize = 0;
            while i < ranked.len()
                invariant
                    i <= ranked.len(),
                    all == texts(ranked@),
                    out.len() == i,
                    forall|k: int| 0 <= k < i ==> (#[trigger] out[k])@ == lib_id_text(library@, all[k]),
                decreases ranked.len() - i,
            {
                let mut id = copy(library);
                put(&mut id, ":");
                put(&mut id, ranked[i].as_str());
                out.push(id);
                i += 1;
            }
            assert(texts(out@) =~= lib_ids(library@, all));
            out
        },
    }
}

/// Names in lower case.
pub open spec fn lowered(names: Seq<Seq<char>>) -> Seq<Seq<char>> {
    Seq::new(names.len(), |i: int| lowercase(names[i]))
}

/// The message for a `lib_id` that does not resolve, given whether its library
/// exists and which symbols come close.
pub open spec fn symbol_not_found_text(
    lib_id: Seq<char>,
    library_exists: bool,
    suggestions: Seq<Seq<char>>,
) -> Seq<char> {
    let library = match lib_id_parts(lib_id) {
        Some((l, _)) => l,
        None => lib_id,
    };
    let what = if library_exists {
        "Library symbol '"@ + lib_id + "' not found in the installed KiCAD libraries."@
    } else {
        "Library '"@ + library + "' not found in the installed KiCAD symbol libraries (lib_id '"@ + lib_id
            + "'). Check the library name, the KiCAD install, or KICAD10_SYMBOL_DIR."@
    };
    if suggestions.len() == 0 {
        what
    } else {
        what + " Did you mean: "@ + joined(suggestions, ", "@)
            + "? (KiCAD 10 renamed several older symbol names)"@
    }
}

/// What to say of a `lib_id` that does not exist, with did-you-mean hints:
/// accepting it would write a component that the netlist cannot see.
pub fn lib_symbol_not_found_error(lib_id: &str, library_exists: bool, suggestions: &Vec<String>) -> (r:
    String)
    ensures
        r@ == symbol_not_found_text(lib_id@, library_exists, texts(suggestions@)),
{
    let library = match split_lib_id(lib_id) {
        Some((l, _)) => l,
        None => lib_id,
    };
    let mut out;
    if library_exists {
        out = copy("Library symbol '");
        put(&mut out, lib_id);
        put(&mut out, "' not found in the installed KiCAD libraries.");
    } else {
        out = copy("Library '");
        put(&mut out, library);
        put(&mut out, "' not found in the installed KiCAD symbol libraries (lib_id '");
        put(&mut out, lib_id);
        put(
            &mut out,
            "'). Check the library name, the KiCAD install, or KICAD10_SYMBOL_DIR.",
        );
    }
    if suggestions.len() > 0 {
        put(&mut out, " Did you mean: ");
        put(&mut out, join_all(suggestions, ", ").as_str());
        put(&mut out, "? (KiCAD 10 renamed several older symbol names)");
    }
    out
}

} // verus!
