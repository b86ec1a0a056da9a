//! What the schematic builder writes reads back as what it was written from, so
//! that reading and writing a schematic is a fixed point and loses nothing.

use crate::blocks::{children, children_from};
use crate::chars::{blank, is_white, lemma_trim_back_prefix, trim_back};
use crate::fields::{
    in_marks, is_block_of, lemma_tag_is_word, lemma_text_field, lemma_word_field, text_field, word_field,
};
use crate::grammar::{between, is_plain, lemma_char_bytes, lemma_list_text};
use crate::placing::{
    is_tag, lemma_block_tag, lemma_inner_closes, lemma_lex_blank, lemma_root, lemma_skip_blank,
    lemma_skip_blank_is, lemma_tag_ends, lemma_tag_same, tag_ends_at,
};
use crate::scan::{
    block_end, closes_at, document_fault, lemma_block_cuttable, lemma_block_end, lemma_block_end_is,
    lemma_block_moved, lemma_depth_bound, lemma_lex_over_block, lemma_lex_same, lex, lex_step, outside,
    skip_blank, tag_opens, DocumentError, BACKSLASH, CLOSE, OPEN, QUOTE,
};
use crate::schematic_builder::{
    block_texts, body_lines, file_of, first_body, header_of, is_header, library_blocks, new_header,
    only_header, parsed, parts_of, section_blocks, section_lines, section_of, tagged, Parts, Section,
};
use crate::sexp::Sexp;
use crate::text::{
    bytes, lemma_ascii_boundary, lemma_between_cuts, lemma_bytes_ascii, lemma_bytes_concat,
    lemma_bytes_valid, lemma_ends, matches_at, text_of,
};
use vstd::prelude::*;
use vstd::utf8::*;

verus! {

// ─── Sound parts ─────────────────────────────────────────────────────────────

/// A balanced block of text.
pub open spec fn is_block(b: Seq<u8>) -> bool {
    valid_utf8(b) && closes_at(b, 0, b.len() as int)
}

/// Every one is a block that goes to the section.
pub open spec fn all_in(blocks: Seq<Seq<u8>>, section: Section) -> bool {
    forall|i: int|
        0 <= i < blocks.len() ==> is_block(#[trigger] blocks[i]) && section_of(blocks[i], 0) == section
}

/// A header with a line break after it.
pub open spec fn header_line(h: Seq<char>) -> Seq<u8> {
    bytes(h) + bytes("\n"@)
}

/// A header: a schematic's root that is still open, with nothing in it but the
/// blocks of a header, and no white space at its end.
pub open spec fn sound_header(h: Seq<char>) -> bool {
    let t = header_line(h);
    let n = bytes(h).len() as int;
    let root = skip_blank(t, 0);
    &&& trim_back(h) == h
    &&& root < n
    &&& t[root] == OPEN
    &&& tag_opens(t, root, bytes("kicad_sch"@))
    &&& forall|k: int| root < k <= n ==> (#[trigger] lex(t, root, k)).depth > 0
    &&& lex(t, root, n).depth == 1
    &&& between(lex(t, root, n))
    &&& forall|i: int|
        0 <= i < children_from(t, root, root + 1, n + 1).len() ==> is_header(
            t,
            (#[trigger] children_from(t, root, root + 1, n + 1)[i]).0,
        )
}

/// Parts that a schematic can be made of: a header, and blocks that stand in the
/// sections they belong to.
pub open spec fn sound(p: Parts) -> bool {
    &&& sound_header(p.header)
    &&& forall|i: int| 0 <= i < p.lib_symbols.len() ==> is_block(#[trigger] p.lib_symbols[i])
    &&& all_in(p.junctions, Section::Junction)
    &&& all_in(p.no_connects, Section::NoConnect)
    &&& all_in(p.wires, Section::Wire)
    &&& all_in(p.buses, Section::Bus)
    &&& all_in(p.bus_entries, Section::BusEntry)
    &&& all_in(p.texts, Section::Text)
    &&& all_in(p.labels, Section::Label)
    &&& all_in(p.symbols, Section::Symbol)
    &&& all_in(p.trailing, Section::Trailing)
}

// ─── Tags of a block, wherever it stands ─────────────────────────────────────

proof fn lemma_known_tags()
    ensures
        is_tag("lib_symbols"@),
        is_tag("junction"@),
        is_tag("no_connect"@),
        is_tag("wire"@),
        is_tag("bus"@),
        is_tag("bus_entry"@),
        is_tag("text"@),
        is_tag("net_label"@),
        is_tag("global_label"@),
        is_tag("hierarchical_label"@),
        is_tag("label"@),
        is_tag("symbol"@),
        is_tag("sheet_instances"@),
        is_tag("symbol_instances"@),
        is_tag("embedded_fonts"@),
        is_tag("version"@),
        is_tag("generator"@),
        is_tag("generator_version"@),
        is_tag("uuid"@),
        is_tag("paper"@),
        is_tag("title_block"@),
        is_tag("kicad_sch"@),
{
    reveal_strlit("lib_symbols");
    lemma_tag_is_word("lib_symbols"@);
    reveal_strlit("junction");
    lemma_tag_is_word("junction"@);
    reveal_strlit("no_connect");
    lemma_tag_is_word("no_connect"@);
    reveal_strlit("wire");
    lemma_tag_is_word("wire"@);
    reveal_strlit("bus");
    lemma_tag_is_word("bus"@);
    reveal_strlit("bus_entry");
    lemma_tag_is_word("bus_entry"@);
    reveal_strlit("text");
    lemma_tag_is_word("text"@);
    reveal_strlit("net_label");
    lemma_tag_is_word("net_label"@);
    reveal_strlit("global_label");
    lemma_tag_is_word("global_label"@);
    reveal_strlit("hierarchical_label");
    lemma_tag_is_word("hierarchical_label"@);
    reveal_strlit("label");
    lemma_tag_is_word("label"@);
    reveal_strlit("symbol");
    lemma_tag_is_word("symbol"@);
    reveal_strlit("sheet_instances");
    lemma_tag_is_word("sheet_instances"@);
    reveal_strlit("symbol_instances");
    lemma_tag_is_word("symbol_instances"@);
    reveal_strlit("embedded_fonts");
    lemma_tag_is_word("embedded_fonts"@);
    reveal_strlit("version");
    lemma_tag_is_word("version"@);
    reveal_strlit("generator");
    lemma_tag_is_word("generator"@);
    reveal_strlit("generator_version");
    lemma_tag_is_word("generator_version"@);
    reveal_strlit("uuid");
    lemma_tag_is_word("uuid"@);
    reveal_strlit("paper");
    lemma_tag_is_word("paper"@);
    reveal_strlit("title_block");
    lemma_tag_is_word("title_block"@);
    reveal_strlit("kicad_sch");
    lemma_tag_is_word("kicad_sch"@);
}

/// A block goes to the same section wherever it stands.
proof fn lemma_same_section(block: Seq<char>, d: Seq<char>, a: int)
    requires
        closes_at(bytes(block), 0, bytes(block).len() as int),
        matches_at(bytes(d), a, bytes(block)),
    ensures
        section_of(bytes(block), 0) == section_of(bytes(d), a),
        is_header(bytes(block), 0) == is_header(bytes(d), a),
{
    lemma_known_tags();
    lemma_block_tag(block, d, a, "lib_symbols"@);
    lemma_block_tag(block, d, a, "junction"@);
    lemma_block_tag(block, d, a, "no_connect"@);
    lemma_block_tag(block, d, a, "wire"@);
    lemma_block_tag(block, d, a, "bus"@);
    lemma_block_tag(block, d, a, "bus_entry"@);
    lemma_block_tag(block, d, a, "text"@);
    lemma_block_tag(block, d, a, "net_label"@);
    lemma_block_tag(block, d, a, "global_label"@);
    lemma_block_tag(block, d, a, "hierarchical_label"@);
    lemma_block_tag(block, d, a, "label"@);
    lemma_block_tag(block, d, a, "symbol"@);
    lemma_block_tag(block, d, a, "sheet_instances"@);
    lemma_block_tag(block, d, a, "symbol_instances"@);
    lemma_block_tag(block, d, a, "embedded_fonts"@);
    lemma_block_tag(block, d, a, "version"@);
    lemma_block_tag(block, d, a, "generator"@);
    lemma_block_tag(block, d, a, "generator_version"@);
    lemma_block_tag(block, d, a, "uuid"@);
    lemma_block_tag(block, d, a, "paper"@);
    lemma_block_tag(block, d, a, "title_block"@);
}

/// A block of bytes is the encoding of a text.
proof fn lemma_text_of_block(b: Seq<u8>)
    requires
        valid_utf8(b),
    ensures
        bytes(text_of(b)) == b,
{
    decode_utf8_encode_utf8(b);
}

/// The same for blocks and texts given as bytes.
proof fn lemma_section_moves(b: Seq<u8>, f: Seq<u8>, a: int)
    requires
        is_block(b),
        valid_utf8(f),
        matches_at(f, a, b),
    ensures
        section_of(b, 0) == section_of(f, a),
        is_header(b, 0) == is_header(f, a),
{
    lemma_text_of_block(b);
    lemma_text_of_block(f);
    lemma_same_section(text_of(b), text_of(f), a);
}

// ─── Lines of blocks ─────────────────────────────────────────────────────────

/// The ranges of the first `n` blocks in lines that begin at `a`.
pub open spec fn line_ranges(a: int, indent: Seq<u8>, blocks: Seq<Seq<u8>>, n: int) -> Seq<(int, int)>
    decreases n,
{
    if n <= 0 {
        Seq::empty()
    } else {
        let x = a + section_lines(indent, blocks, n - 1).len() + indent.len();
        line_ranges(a, indent, blocks, n - 1).push((x, x + blocks[n - 1].len()))
    }
}

proof fn lemma_newline()
    ensures
        bytes("\n"@) == seq![0x0au8],
        bytes("\t"@) == seq![0x09u8],
        bytes("\t\t"@) == seq![0x09u8, 0x09u8],
        valid_utf8(bytes("\n"@)),
        valid_utf8(bytes("\t"@)),
        valid_utf8(bytes("\t\t"@)),
{
    reveal_strlit("\n");
    reveal_strlit("\t");
    reveal_strlit("\t\t");
    lemma_bytes_ascii("\n"@);
    lemma_bytes_ascii("\t"@);
    lemma_bytes_ascii("\t\t"@);
    assert("\n"@[0] == '\n' && "\t"@[0] == '\t' && "\t\t"@[0] == '\t' && "\t\t"@[1] == '\t');
    assert(bytes("\n"@) =~= seq![0x0au8]);
    assert(bytes("\t"@) =~= seq![0x09u8]);
    assert(bytes("\t\t"@) =~= seq![0x09u8, 0x09u8]);
    lemma_bytes_valid("\n"@);
    lemma_bytes_valid("\t"@);
    lemma_bytes_valid("\t\t"@);
}

proof fn lemma_children_blank(f: Seq<u8>, start: int, a: int, b: int, end: int)
    requires
        0 <= a <= b <= f.len(),
        b <= end,
        forall|k: int| a <= k < b ==> #[trigger] f[k] != OPEN,
    ensures
        children_from(f, start, a, end) == children_from(f, start, b, end),
    decreases b - a,
{
    if a < b {
        assert(f[a] != OPEN);
        lemma_children_blank(f, start, a + 1, b, end);
    }
}

/// Lines of blocks are children, one after the other, and leave a scan where it
/// was.
proof fn lemma_lines(
    f: Seq<u8>,
    start: int,
    a: int,
    indent: Seq<u8>,
    blocks: Seq<Seq<u8>>,
    n: int,
    end: int,
)
    requires
        0 <= start <= a,
        0 <= n <= blocks.len(),
        matches_at(f, a, section_lines(indent, blocks, n)),
        a + section_lines(indent, blocks, n).len() <= end,
        between(lex(f, start, a)),
        forall|k: int| 0 <= k < indent.len() ==> blank(#[trigger] indent[k]),
        forall|i: int|
            0 <= i < n ==> closes_at(#[trigger] blocks[i], 0, blocks[i].len() as int),
    ensures
        ({
            let b = a + section_lines(indent, blocks, n).len();
            &&& lex(f, start, b) == lex(f, start, a)
            &&& children_from(f, start, a, end) == line_ranges(a, indent, blocks, n) + children_from(
                f,
                start,
                b,
                end,
            )
            &&& forall|k: int|
                a <= k <= b ==> (#[trigger] lex(f, start, k)).depth >= lex(f, start, a).depth
            &&& block_texts(f, line_ranges(a, indent, blocks, n)) == blocks.take(n)
            &&& forall|i: int|
                0 <= i < n ==> matches_at(
                    f,
                    (#[trigger] line_ranges(a, indent, blocks, n)[i]).0,
                    blocks[i],
                ) && line_ranges(a, indent, blocks, n)[i].1 == line_ranges(a, indent, blocks, n)[i].0
                    + blocks[i].len() && a <= line_ranges(a, indent, blocks, n)[i].0
            &&& line_ranges(a, indent, blocks, n).len() == n
        }),
    decreases n,
{
    let all = section_lines(indent, blocks, n);
    let b = a + all.len();
    let w = f.subrange(a, b);
    lemma_newline();
    if n == 0 {
        assert(all =~= Seq::<u8>::empty());
        assert(line_ranges(a, indent, blocks, n) + children_from(f, start, b, end) =~= children_from(
            f,
            start,
            b,
            end,
        ));
        assert(block_texts(f, line_ranges(a, indent, blocks, n)) =~= blocks.take(n));
    } else {
        let front = section_lines(indent, blocks, n - 1);
        let block = blocks[n - 1];
        let nl = bytes("\n"@);
        assert(all == front + indent + block + nl);
        assert(w.subrange(0, front.len() as int) =~= front);
        assert(f.subrange(a, a + front.len()) =~= front);
        lemma_lines(f, start, a, indent, blocks, n - 1, end);
        let m = a + front.len();
        let x = m + indent.len();
        let y = x + block.len();
        assert forall|k: int| m <= k < x implies blank(#[trigger] f[k]) by {
            assert(w[k - a] == indent[k - m]);
        }
        assert forall|k: int| y <= k < b implies blank(#[trigger] f[k]) by {
            assert(w[k - a] == nl[k - y]);
        }
        assert forall|k: int| 0 <= k < block.len() implies #[trigger] block[k] == f[k + x] by {
            assert(w[k + x - a] == block[k]);
        }
        assert(closes_at(block, 0, block.len() as int));
        lemma_lex_blank(f, start, m, x);
        lemma_block_moved(block, f, 0, block.len() as int, x);
        lemma_lex_over_block(f, start, x, y);
        lemma_lex_blank(f, start, y, b);
        lemma_children_blank(f, start, m, x, end);
        assert(f[x] == block[0]);
        assert(y < end) by {
            assert(b == y + 1);
        }
        assert(children_from(f, start, x, end) == seq![(x, y)] + children_from(f, start, y, end));
        lemma_children_blank(f, start, y, b, end);
        let before = line_ranges(a, indent, blocks, n - 1);
        let rest = children_from(f, start, b, end);
        assert(before + (seq![(x, y)] + rest) =~= before.push((x, y)) + rest);
        let ranges = line_ranges(a, indent, blocks, n);
        assert(ranges == before.push((x, y)));
        assert(f.subrange(x, y) =~= block);
        assert(block_texts(f, ranges) =~= block_texts(f, before).push(block));
        assert(blocks.take(n) =~= blocks.take(n - 1).push(block));
        assert forall|k: int| a <= k <= b implies (#[trigger] lex(f, start, k)).depth >= lex(
            f,
            start,
            a,
        ).depth by {
            if k <= m {
            } else if k <= x {
                assert(lex(f, start, k) == lex(f, start, m));
            } else if k < y {
                assert(lex(f, start, k).depth > lex(f, start, x).depth);
            } else {
                assert(lex(f, start, k) == lex(f, start, y));
            }
        }
        assert forall|i: int| 0 <= i < n implies matches_at(f, (#[trigger] ranges[i]).0, blocks[i])
            && ranges[i].1 == ranges[i].0 + blocks[i].len() && a <= ranges[i].0 by {
            if i < n - 1 {
                assert(ranges[i] == before[i]);
            }
        }
    }
}

proof fn lemma_lines_valid(indent: Seq<u8>, blocks: Seq<Seq<u8>>, n: int)
    requires
        0 <= n <= blocks.len(),
        valid_utf8(indent),
        forall|i: int| 0 <= i < n ==> valid_utf8(#[trigger] blocks[i]),
    ensures
        valid_utf8(section_lines(indent, blocks, n)),
    decreases n,
{
    lemma_newline();
    if n > 0 {
        lemma_lines_valid(indent, blocks, n - 1);
        let front = section_lines(indent, blocks, n - 1);
        valid_utf8_concat(front, indent);
        valid_utf8_concat(front + indent, blocks[n - 1]);
        valid_utf8_concat(front + indent + blocks[n - 1], bytes("\n"@));
    }
}

proof fn lemma_lines_same(indent: Seq<u8>, x: Seq<Seq<u8>>, y: Seq<Seq<u8>>, n: int)
    requires
        0 <= n <= x.len(),
        n <= y.len(),
        forall|i: int| 0 <= i < n ==> #[trigger] x[i] == y[i],
    ensures
        section_lines(indent, x, n) == section_lines(indent, y, n),
    decreases n,
{
    if n > 0 {
        lemma_lines_same(indent, x, y, n - 1);
    }
}

proof fn lemma_lines_join(indent: Seq<u8>, x: Seq<Seq<u8>>, y: Seq<Seq<u8>>, n: int)
    requires
        0 <= n <= y.len(),
    ensures
        section_lines(indent, x + y, x.len() + n) == section_lines(indent, x, x.len() as int)
            + section_lines(indent, y, n),
    decreases n,
{
    let all = x + y;
    if n == 0 {
        lemma_lines_same(indent, all, x, x.len() as int);
        assert(section_lines(indent, x, x.len() as int) + section_lines(indent, y, 0)
            =~= section_lines(indent, x, x.len() as int));
    } else {
        lemma_lines_join(indent, x, y, n - 1);
        assert(all[x.len() + n - 1] == y[n - 1]);
        let a = section_lines(indent, x, x.len() as int);
        let b = section_lines(indent, y, n - 1);
        assert(a + b + indent + y[n - 1] + bytes("\n"@) =~= a + (b + indent + y[n - 1] + bytes("\n"@)));
    }
}

// ─── The body as one list of blocks ──────────────────────────────────────────

/// The `(lib_symbols …)` block of a schematic.
pub open spec fn library_block(lib_symbols: Seq<Seq<u8>>) -> Seq<u8> {
    bytes("(lib_symbols\n"@) + section_lines(
        bytes("\t\t"@),
        lib_symbols,
        lib_symbols.len() as int,
    ) + bytes("\t)"@)
}

/// The blocks of the body in the order in which they are written.
pub open spec fn body_of(p: Parts) -> Seq<Seq<u8>> {
    seq![library_block(p.lib_symbols)] + p.junctions + p.no_connects + p.wires + p.buses
        + p.bus_entries + p.texts + p.labels + p.symbols + p.trailing
}

proof fn lemma_assoc(a: Seq<u8>, b: Seq<u8>, c: Seq<u8>)
    ensures
        a + b + c == a + (b + c),
{
    assert(a + b + c =~= a + (b + c));
}

proof fn lemma_library_line(h: Seq<u8>, lib_symbols: Seq<Seq<u8>>)
    ensures
        h + bytes("\t(lib_symbols\n"@) + section_lines(
            bytes("\t\t"@),
            lib_symbols,
            lib_symbols.len() as int,
        ) + bytes("\t)\n"@) == h + body_lines(seq![library_block(lib_symbols)]),
{
    let tab = bytes("\t"@);
    let nl = bytes("\n"@);
    let lib = library_block(lib_symbols);
    let one = seq![lib];
    let l2 = section_lines(bytes("\t\t"@), lib_symbols, lib_symbols.len() as int);
    reveal_with_fuel(section_lines, 2);
    assert(section_lines(tab, one, 0) =~= Seq::<u8>::empty());
    assert(one[0] == lib);
    assert(section_lines(tab, one, 1) =~= tab + lib + nl);
    assert(bytes("\t(lib_symbols\n"@) == tab + bytes("(lib_symbols\n"@)) by {
        reveal_strlit("\t(lib_symbols\n");
        reveal_strlit("\t");
        reveal_strlit("(lib_symbols\n");
        assert("\t(lib_symbols\n"@ =~= "\t"@ + "(lib_symbols\n"@);
        lemma_bytes_concat("\t"@, "(lib_symbols\n"@);
    }
    assert(bytes("\t)\n"@) == bytes("\t)"@) + nl) by {
        reveal_strlit("\t)\n");
        reveal_strlit("\t)");
        reveal_strlit("\n");
        assert("\t)\n"@ =~= "\t)"@ + "\n"@);
        lemma_bytes_concat("\t)"@, "\n"@);
    }
    assert(h + bytes("\t(lib_symbols\n"@) + l2 + bytes("\t)\n"@) =~= h + (tab + lib + nl));
}

proof fn lemma_file(p: Parts)
    requires
        trim_back(p.header) == p.header,
    ensures
        file_of(p) == header_line(p.header) + body_lines(body_of(p)) + bytes(")\n"@),
{
    let tab = bytes("\t"@);
    let h = header_line(p.header);
    let b0 = seq![library_block(p.lib_symbols)];
    let b1 = b0 + p.junctions;
    let b2 = b1 + p.no_connects;
    let b3 = b2 + p.wires;
    let b4 = b3 + p.buses;
    let b5 = b4 + p.bus_entries;
    let b6 = b5 + p.texts;
    let b7 = b6 + p.labels;
    let b8 = b7 + p.symbols;
    lemma_library_line(h, p.lib_symbols);
    lemma_lines_join(tab, b0, p.junctions, p.junctions.len() as int);
    lemma_assoc(h, body_lines(b0), body_lines(p.junctions));
    lemma_lines_join(tab, b1, p.no_connects, p.no_connects.len() as int);
    lemma_assoc(h, body_lines(b1), body_lines(p.no_connects));
    lemma_lines_join(tab, b2, p.wires, p.wires.len() as int);
    lemma_assoc(h, body_lines(b2), body_lines(p.wires));
    lemma_lines_join(tab, b3, p.buses, p.buses.len() as int);
    lemma_assoc(h, body_lines(b3), body_lines(p.buses));
    lemma_lines_join(tab, b4, p.bus_entries, p.bus_entries.len() as int);
    lemma_assoc(h, body_lines(b4), body_lines(p.bus_entries));
    lemma_lines_join(tab, b5, p.texts, p.texts.len() as int);
    lemma_assoc(h, body_lines(b5), body_lines(p.texts));
    lemma_lines_join(tab, b6, p.labels, p.labels.len() as int);
    lemma_assoc(h, body_lines(b6), body_lines(p.labels));
    lemma_lines_join(tab, b7, p.symbols, p.symbols.len() as int);
    lemma_assoc(h, body_lines(b7), body_lines(p.symbols));
    lemma_lines_join(tab, b8, p.trailing, p.trailing.len() as int);
    lemma_assoc(h, body_lines(b8), body_lines(p.trailing));
}

// ─── The children of a written file ──────────────────────────────────────────

/// The children of a block come apart where nothing but the block is open.
proof fn lemma_children_split(s: Seq<u8>, root: int, pos: int, m: int, end: int)
    requires
        closes_at(s, root, end),
        root < pos <= m < end,
        lex(s, root, m).depth == 1,
        between(lex(s, root, m)),
        pos == root + 1 || lex(s, root, pos).depth == 1,
    ensures
        children_from(s, root, pos, end) == children_from(s, root, pos, m + 1) + children_from(
            s,
            root,
            m,
            end,
        ),
    decreases m - pos,
{
    let rest = children_from(s, root, m, end);
    let l = lex(s, root, pos);
    assert(lex(s, root, root) == outside());
    assert(lex(s, root, root + 1) == lex_step(outside(), s[root]));
    assert(l.depth == 1);
    lemma_depth_bound(s, root, pos);
    if pos == m {
        assert(children_from(s, root, m, m + 1) =~= Seq::<(int, int)>::empty()) by {
            lemma_block_end_is(s, m);
            assert(children_from(s, root, m + 1, m + 1) =~= Seq::<(int, int)>::empty());
        }
        assert(Seq::<(int, int)>::empty() + rest =~= rest);
    } else if s[pos] == OPEN && !l.in_string {
        lemma_inner_closes(s, root, end, pos);
        let e = block_end(s, pos).unwrap();
        lemma_lex_over_block(s, root, pos, e);
        if e > m {
            assert(lex(s, root, m).depth > l.depth);
        }
        lemma_children_split(s, root, e, m, end);
        let a = children_from(s, root, e, m + 1);
        assert(seq![(pos, e)] + (a + rest) =~= (seq![(pos, e)] + a) + rest);
    } else {
        assert(lex(s, root, pos + 1) == lex_step(l, s[pos]));
        assert(lex(s, root, pos + 1).depth > 0);
        lemma_children_split(s, root, pos + 1, m, end);
    }
}

/// Two texts that agree up to `m` have the same children up to there.
proof fn lemma_children_same(s: Seq<u8>, t: Seq<u8>, root: int, pos: int, m: int)
    requires
        0 <= root < pos <= m,
        m < s.len(),
        m < t.len(),
        forall|k: int| 0 <= k < m ==> #[trigger] s[k] == t[k],
        s[root] == OPEN,
        lex(s, root, m).depth == 1,
        between(lex(s, root, m)),
        forall|k: int| root < k <= m ==> (#[trigger] lex(s, root, k)).depth > 0,
        lex(s, root, pos).depth == 1,
    ensures
        children_from(s, root, pos, m + 1) == children_from(t, root, pos, m + 1),
        forall|i: int|
            0 <= i < children_from(s, root, pos, m + 1).len() ==> closes_at(
                s,
                (#[trigger] children_from(s, root, pos, m + 1)[i]).0,
                children_from(s, root, pos, m + 1)[i].1,
            ) && pos <= children_from(s, root, pos, m + 1)[i].0 && children_from(
                s,
                root,
                pos,
                m + 1,
            )[i].1 <= m,
    decreases m - pos,
{
    let l = lex(s, root, pos);
    let kids = children_from(s, root, pos, m + 1);
    lemma_depth_bound(s, root, pos);
    lemma_lex_same(s, t, root, pos, 0);
    if pos == m {
        lemma_block_end_is(s, m);
        lemma_block_end_is(t, m);
        assert(children_from(s, root, m + 1, m + 1) =~= Seq::<(int, int)>::empty());
        assert(children_from(t, root, m + 1, m + 1) =~= Seq::<(int, int)>::empty());
        assert(kids =~= Seq::<(int, int)>::empty());
        assert(children_from(t, root, m, m + 1) =~= Seq::<(int, int)>::empty());
    } else {
        assert(s[pos] == t[pos]);
        if s[pos] == OPEN && !l.in_string {
            lemma_closes_before(s, root, m, pos);
            let e = block_end(s, pos).unwrap();
            lemma_block_moved(s, t, pos, e, 0);
            lemma_lex_over_block(s, root, pos, e);
            lemma_children_same(s, t, root, e, m);
            let rest = children_from(s, root, e, m + 1);
            assert(kids =~= seq![(pos, e)] + rest);
            assert forall|i: int| 0 <= i < kids.len() implies closes_at(
                s,
                (#[trigger] kids[i]).0,
                kids[i].1,
            ) && pos <= kids[i].0 && kids[i].1 <= m by {
                if i > 0 {
                    assert(kids[i] == rest[i - 1]);
                }
            }
        } else {
            assert(lex(s, root, pos + 1) == lex_step(l, s[pos]));
            assert(lex(s, root, pos + 1).depth > 0);
            lemma_children_same(s, t, root, pos + 1, m);
        }
    }
}

/// A block that opens where one block is open closes before any later point where
/// one block is open.
proof fn lemma_closes_before(s: Seq<u8>, root: int, m: int, q: int)
    requires
        0 <= root < q < m < s.len(),
        lex(s, root, m).depth == 1,
        lex(s, root, q).depth == 1,
        s[q] == OPEN,
        !lex(s, root, q).in_string,
    ensures
        block_end(s, q).is_some(),
        closes_at(s, q, block_end(s, q).unwrap()),
        q < block_end(s, q).unwrap() <= m,
{
    lemma_depth_bound(s, root, q);
    if forall|k: int| q < k <= m ==> (#[trigger] lex(s, q, k)).depth > 0 {
        crate::scan::lemma_lex_shift(s, root, q, m);
        assert(lex(s, q, m).depth > 0);
        assert(false);
    }
    let k = choose|k: int| q < k <= m && (#[trigger] lex(s, q, k)).depth == 0;
    let e = crate::placing::lemma_first_zero(s, q, k);
    assert(closes_at(s, q, e));
    lemma_block_end(s, q, e);
}

proof fn lemma_lex_plain(f: Seq<u8>, start: int, a: int, b: int)
    requires
        0 <= start <= a <= b <= f.len(),
        between(lex(f, start, a)),
        forall|k: int| a <= k < b ==> #[trigger] f[k] != OPEN && f[k] != CLOSE && f[k] != QUOTE,
    ensures
        forall|k: int| a <= k <= b ==> #[trigger] lex(f, start, k) == lex(f, start, a),
    decreases b - a,
{
    if a < b {
        lemma_lex_plain(f, start, a, b - 1);
        assert(f[b - 1] != OPEN && f[b - 1] != CLOSE && f[b - 1] != QUOTE);
        assert(lex(f, start, b) == lex_step(lex(f, start, b - 1), f[b - 1]));
    }
}

proof fn lemma_library_head()
    ensures
        bytes("(lib_symbols\n"@).len() == 13,
        bytes("(lib_symbols\n"@)[0] == OPEN,
        forall|k: int|
            1 <= k < 13 ==> #[trigger] bytes("(lib_symbols\n"@)[k] != OPEN && bytes(
                "(lib_symbols\n"@,
            )[k] != CLOSE && bytes("(lib_symbols\n"@)[k] != QUOTE,
        bytes("\t)"@) == seq![0x09u8, CLOSE],
        valid_utf8(bytes("(lib_symbols\n"@)),
        valid_utf8(bytes("\t)"@)),
{
    reveal_strlit("(lib_symbols\n");
    reveal_strlit("\t)");
    let t = "(lib_symbols\n"@;
    lemma_bytes_ascii(t);
    lemma_bytes_ascii("\t)"@);
    lemma_bytes_valid(t);
    lemma_bytes_valid("\t)"@);
    assert(t[0] == '(');
    assert("\t)"@[0] == '\t' && "\t)"@[1] == ')');
    assert(bytes("\t)"@) =~= seq![0x09u8, CLOSE]);
    assert forall|k: int| 1 <= k < 13 implies #[trigger] bytes(t)[k] != OPEN && bytes(t)[k] != CLOSE
        && bytes(t)[k] != QUOTE by {
        lemma_char_bytes(t[k]);
        assert(t[k] != '(' && t[k] != ')' && t[k] != '"');
        assert(bytes(t)[k] == t[k] as u8);
    }
}

/// The `(lib_symbols …)` block is a block wherever it stands, and its children are
/// the library symbols.
proof fn lemma_library_stands(f: Seq<u8>, x: int, lib: Seq<Seq<u8>>)
    requires
        matches_at(f, x, library_block(lib)),
        forall|i: int| 0 <= i < lib.len() ==> is_block(#[trigger] lib[i]),
    ensures
        closes_at(f, x, x + library_block(lib).len()),
        block_texts(f, children(f, x, x + library_block(lib).len())) == lib,
{
    let head = bytes("(lib_symbols\n"@);
    let tabs = bytes("\t\t"@);
    let n = lib.len() as int;
    let lines = section_lines(tabs, lib, n);
    let tail = bytes("\t)"@);
    let all = library_block(lib);
    let end = x + all.len();
    let w = f.subrange(x, end);
    lemma_library_head();
    lemma_newline();
    assert(all == head + lines + tail);
    let a = x + 13;
    let b = a + lines.len();
    assert forall|k: int| x + 1 <= k < a implies #[trigger] f[k] != OPEN && f[k] != CLOSE && f[k]
        != QUOTE by {
        assert(w[k - x] == head[k - x]);
        assert(head[k - x] != OPEN);
    }
    assert(f[x] == OPEN) by {
        assert(w[0] == head[0]);
    }
    assert(f[b] == 0x09 && f[b + 1] == CLOSE) by {
        assert(w[b - x] == tail[0]);
        assert(w[b - x + 1] == tail[1]);
    }
    assert(lex(f, x, x) == outside());
    assert(lex(f, x, x + 1) == lex_step(outside(), f[x]));
    lemma_lex_plain(f, x, x + 1, a);
    assert(lex(f, x, a) == lex(f, x, x + 1));
    assert(w.subrange(13, 13 + lines.len() as int) =~= lines);
    assert(f.subrange(a, b) =~= lines);
    lemma_lines(f, x, a, tabs, lib, n, end);
    assert(lex(f, x, b + 1) == lex_step(lex(f, x, b), f[b]));
    assert(lex(f, x, b + 2) == lex_step(lex(f, x, b + 1), f[b + 1]));
    assert forall|k: int| x < k < end implies (#[trigger] lex(f, x, k)).depth > 0 by {
        if k <= a {
            assert(lex(f, x, k) == lex(f, x, x + 1));
        } else if k <= b {
            assert(lex(f, x, k).depth >= lex(f, x, a).depth);
        }
    }
    lemma_children_blank(f, x, x + 1, a, end);
    lemma_children_blank(f, x, b, end, end);
    assert(children_from(f, x, end, end) =~= Seq::<(int, int)>::empty());
    let ranges = line_ranges(a, tabs, lib, n);
    assert(children(f, x, end) =~= ranges);
    assert(lib.take(n) =~= lib);
}

proof fn lemma_library_block(lib: Seq<Seq<u8>>)
    requires
        forall|i: int| 0 <= i < lib.len() ==> is_block(#[trigger] lib[i]),
    ensures
        is_block(library_block(lib)),
        section_of(library_block(lib), 0) == Section::LibSymbols,
{
    let head = bytes("(lib_symbols\n"@);
    let tabs = bytes("\t\t"@);
    let n = lib.len() as int;
    let lines = section_lines(tabs, lib, n);
    let tail = bytes("\t)"@);
    let all = library_block(lib);
    lemma_library_head();
    lemma_newline();
    lemma_lines_valid(tabs, lib, n);
    valid_utf8_concat(head, lines);
    valid_utf8_concat(head + lines, tail);
    valid_utf8_concat(lines, tail);
    assert(all.subrange(0, all.len() as int) =~= all);
    lemma_library_stands(all, 0, lib);
    // Its tag.
    let rest = text_of(lines + tail);
    lemma_text_of_block(lines + tail);
    lemma_text_of_block(all);
    let d = "(lib_symbols\n"@ + rest;
    lemma_bytes_concat("(lib_symbols\n"@, rest);
    assert(bytes(d) =~= all);
    reveal_strlit("(lib_symbols\n");
    reveal_strlit("lib_symbols");
    reveal_strlit("\n");
    lemma_known_tags();
    assert("(lib_symbols\n"@ =~= seq!['('] + "lib_symbols"@ + "\n"@);
    crate::undo::lemma_has_tag(d, "lib_symbols"@, "\n"@, rest);
}

// ─── Which blocks go where ───────────────────────────────────────────────────

/// The first `n` blocks that go to the section.
pub open spec fn chosen(blocks: Seq<Seq<u8>>, section: Section, n: int) -> Seq<Seq<u8>>
    decreases n,
{
    if n <= 0 {
        Seq::empty()
    } else if section_of(blocks[n - 1], 0) == section {
        chosen(blocks, section, n - 1).push(blocks[n - 1])
    } else {
        chosen(blocks, section, n - 1)
    }
}

proof fn lemma_chosen_same(x: Seq<Seq<u8>>, y: Seq<Seq<u8>>, section: Section, n: int)
    requires
        0 <= n <= x.len(),
        n <= y.len(),
        forall|i: int| 0 <= i < n ==> #[trigger] x[i] == y[i],
    ensures
        chosen(x, section, n) == chosen(y, section, n),
    decreases n,
{
    if n > 0 {
        lemma_chosen_same(x, y, section, n - 1);
    }
}

proof fn lemma_chosen_join(x: Seq<Seq<u8>>, y: Seq<Seq<u8>>, section: Section, n: int)
    requires
        0 <= n <= y.len(),
    ensures
        chosen(x + y, section, x.len() + n) == chosen(x, section, x.len() as int) + chosen(
            y,
            section,
            n,
        ),
    decreases n,
{
    let all = x + y;
    let a = chosen(x, section, x.len() as int);
    if n == 0 {
        lemma_chosen_same(all, x, section, x.len() as int);
        assert(a + chosen(y, section, 0) =~= a);
    } else {
        lemma_chosen_join(x, y, section, n - 1);
        assert(all[x.len() + n - 1] == y[n - 1]);
        let b = chosen(y, section, n - 1);
        assert(a + b.push(y[n - 1]) =~= (a + b).push(y[n - 1]));
    }
}

proof fn lemma_chosen_section(x: Seq<Seq<u8>>, own: Section, section: Section, n: int)
    requires
        0 <= n <= x.len(),
        forall|i: int| 0 <= i < n ==> section_of(#[trigger] x[i], 0) == own,
    ensures
        chosen(x, section, n) == (if own == section {
            x.take(n)
        } else {
            Seq::empty()
        }),
    decreases n,
{
    if n == 0 {
        assert(x.take(0) =~= Seq::<Seq<u8>>::empty());
    } else {
        lemma_chosen_section(x, own, section, n - 1);
        assert(x.take(n) =~= x.take(n - 1).push(x[n - 1]));
    }
}

proof fn lemma_chosen_add(
    x: Seq<Seq<u8>>,
    had: Seq<Seq<u8>>,
    y: Seq<Seq<u8>>,
    own: Section,
    section: Section,
)
    requires
        all_in(y, own),
        chosen(x, section, x.len() as int) == had,
    ensures
        chosen(x + y, section, (x + y).len() as int) == (if own == section {
            had + y
        } else {
            had
        }),
{
    lemma_chosen_join(x, y, section, y.len() as int);
    assert forall|i: int| 0 <= i < y.len() implies section_of(#[trigger] y[i], 0) == own by {
        assert(is_block(y[i]));
    }
    lemma_chosen_section(y, own, section, y.len() as int);
    assert(y.take(y.len() as int) =~= y);
    if own != section {
        assert(had + Seq::<Seq<u8>>::empty() =~= had);
    }
}

/// The blocks of a section are what is chosen from the body.
proof fn lemma_chosen_body(p: Parts, section: Section)
    requires
        sound(p),
    ensures
        chosen(body_of(p), section, body_of(p).len() as int) == (match section {
            Section::LibSymbols => seq![library_block(p.lib_symbols)],
            Section::Junction => p.junctions,
            Section::NoConnect => p.no_connects,
            Section::Wire => p.wires,
            Section::Bus => p.buses,
            Section::BusEntry => p.bus_entries,
            Section::Text => p.texts,
            Section::Label => p.labels,
            Section::Symbol => p.symbols,
            Section::Trailing => p.trailing,
        }),
{
    let none = Seq::<Seq<u8>>::empty();
    let lib = seq![library_block(p.lib_symbols)];
    lemma_library_block(p.lib_symbols);
    assert(lib[0] == library_block(p.lib_symbols));
    assert(all_in(lib, Section::LibSymbols));
    assert(chosen(none, section, 0) =~= none);
    lemma_chosen_add(none, none, lib, Section::LibSymbols, section);
    assert(none + lib =~= lib);
    let c0 = if section == Section::LibSymbols {
        lib
    } else {
        none
    };
    let b1 = lib + p.junctions;
    lemma_chosen_add(lib, c0, p.junctions, Section::Junction, section);
    let c1 = if section == Section::Junction {
        c0 + p.junctions
    } else {
        c0
    };
    let b2 = b1 + p.no_connects;
    lemma_chosen_add(b1, c1, p.no_connects, Section::NoConnect, section);
    let c2 = if section == Section::NoConnect {
        c1 + p.no_connects
    } else {
        c1
    };
    let b3 = b2 + p.wires;
    lemma_chosen_add(b2, c2, p.wires, Section::Wire, section);
    let c3 = if section == Section::Wire {
        c2 + p.wires
    } else {
        c2
    };
    let b4 = b3 + p.buses;
    lemma_chosen_add(b3, c3, p.buses, Section::Bus, section);
    let c4 = if section == Section::Bus {
        c3 + p.buses
    } else {
        c3
    };
    let b5 = b4 + p.bus_entries;
    lemma_chosen_add(b4, c4, p.bus_entries, Section::BusEntry, section);
    let c5 = if section == Section::BusEntry {
        c4 + p.bus_entries
    } else {
        c4
    };
    let b6 = b5 + p.texts;
    lemma_chosen_add(b5, c5, p.texts, Section::Text, section);
    let c6 = if section == Section::Text {
        c5 + p.texts
    } else {
        c5
    };
    let b7 = b6 + p.labels;
    lemma_chosen_add(b6, c6, p.labels, Section::Label, section);
    let c7 = if section == Section::Label {
        c6 + p.labels
    } else {
        c6
    };
    let b8 = b7 + p.symbols;
    lemma_chosen_add(b7, c7, p.symbols, Section::Symbol, section);
    let c8 = if section == Section::Symbol {
        c7 + p.symbols
    } else {
        c7
    };
    lemma_chosen_add(b8, c8, p.trailing, Section::Trailing, section);
    assert(none + p.junctions =~= p.junctions);
    assert(none + p.no_connects =~= p.no_connects);
    assert(none + p.wires =~= p.wires);
    assert(none + p.buses =~= p.buses);
    assert(none + p.bus_entries =~= p.bus_entries);
    assert(none + p.texts =~= p.texts);
    assert(none + p.labels =~= p.labels);
    assert(none + p.symbols =~= p.symbols);
    assert(none + p.trailing =~= p.trailing);
}

/// What is chosen from a list of children is what is chosen from their texts.
proof fn lemma_sections_of_kids(
    f: Seq<u8>,
    kids: Seq<(int, int)>,
    k: int,
    blocks: Seq<Seq<u8>>,
    section: Section,
    n: int,
)
    requires
        0 <= k,
        0 <= n <= blocks.len(),
        kids.len() == k + blocks.len(),
        forall|i: int|
            0 <= i < blocks.len() ==> f.subrange((#[trigger] kids[k + i]).0, kids[k + i].1) == blocks[i]
                && section_of(f, kids[k + i].0) == section_of(blocks[i], 0),
    ensures
        section_blocks(f, kids, section, k, k + n) == chosen(blocks, section, n),
    decreases n,
{
    if n > 0 {
        lemma_sections_of_kids(f, kids, k, blocks, section, n - 1);
        let i = n - 1;
        assert(f.subrange(kids[k + i].0, kids[k + i].1) == blocks[i]);
    }
}

/// Only the first block of the body holds library symbols.
proof fn lemma_library_of_kids(f: Seq<u8>, kids: Seq<(int, int)>, k: int, n: int)
    requires
        0 <= k < n <= kids.len(),
        section_of(f, kids[k].0) == Section::LibSymbols,
        forall|i: int| k < i < n ==> section_of(f, (#[trigger] kids[i]).0) != Section::LibSymbols,
    ensures
        library_blocks(f, kids, k, n) == block_texts(f, children(f, kids[k].0, kids[k].1)),
    decreases n,
{
    let own = block_texts(f, children(f, kids[k].0, kids[k].1));
    if n == k + 1 {
        assert(library_blocks(f, kids, k, k) =~= Seq::<Seq<u8>>::empty());
        assert(Seq::<Seq<u8>>::empty() + own =~= own);
    } else {
        lemma_library_of_kids(f, kids, k, n - 1);
        assert(section_of(f, kids[n - 1].0) != Section::LibSymbols);
    }
}

// ─── Reading a written file ──────────────────────────────────────────────────

/// A list of blocks of which only the first may hold library symbols.
spec fn library_first(x: Seq<Seq<u8>>) -> bool {
    &&& x.len() > 0
    &&& is_block(x[0])
    &&& forall|i: int|
        1 <= i < x.len() ==> is_block(#[trigger] x[i]) && section_of(x[i], 0) != Section::LibSymbols
}

proof fn lemma_library_first(x: Seq<Seq<u8>>, y: Seq<Seq<u8>>, own: Section)
    requires
        library_first(x),
        all_in(y, own),
        own != Section::LibSymbols,
    ensures
        library_first(x + y),
{
    let all = x + y;
    assert forall|i: int| 1 <= i < all.len() implies is_block(#[trigger] all[i]) && section_of(
        all[i],
        0,
    ) != Section::LibSymbols by {
        if i < x.len() {
            assert(all[i] == x[i]);
        } else {
            assert(all[i] == y[i - x.len()]);
        }
    }
}

proof fn lemma_body_blocks(p: Parts)
    requires
        sound(p),
    ensures
        library_first(body_of(p)),
        body_of(p)[0] == library_block(p.lib_symbols),
{
    let b0 = seq![library_block(p.lib_symbols)];
    lemma_library_block(p.lib_symbols);
    let b1 = b0 + p.junctions;
    lemma_library_first(b0, p.junctions, Section::Junction);
    let b2 = b1 + p.no_connects;
    lemma_library_first(b1, p.no_connects, Section::NoConnect);
    let b3 = b2 + p.wires;
    lemma_library_first(b2, p.wires, Section::Wire);
    let b4 = b3 + p.buses;
    lemma_library_first(b3, p.buses, Section::Bus);
    let b5 = b4 + p.bus_entries;
    lemma_library_first(b4, p.bus_entries, Section::BusEntry);
    let b6 = b5 + p.texts;
    lemma_library_first(b5, p.texts, Section::Text);
    let b7 = b6 + p.labels;
    lemma_library_first(b6, p.labels, Section::Label);
    let b8 = b7 + p.symbols;
    lemma_library_first(b7, p.symbols, Section::Symbol);
    lemma_library_first(b8, p.trailing, Section::Trailing);
}

/// A block has one tag.
proof fn lemma_one_tag(d: Seq<char>, q: int, g1: Seq<char>, g2: Seq<char>)
    requires
        is_tag(g1),
        is_tag(g2),
        tag_opens(bytes(d), q, bytes(g1)),
        tag_opens(bytes(d), q, bytes(g2)),
        bytes(g1).len() <= bytes(g2).len(),
    ensures
        g1 == g2,
{
    let s = bytes(d);
    let x = bytes(g1);
    let y = bytes(g2);
    let a = q + 1 + x.len();
    assert(s.subrange(q + 1, a) == x);
    assert(s.subrange(q + 1, q + 1 + y.len()) == y);
    if x.len() < y.len() {
        assert(s[a] == y[x.len() as int]) by {
            assert(s.subrange(q + 1, q + 1 + y.len())[x.len() as int] == s[a]);
        }
        assert(crate::blocks::tag_byte(y[x.len() as int]));
        crate::placing::lemma_ascii_char(d, a);
        assert(false);
    }
    assert(x =~= y);
    crate::text::lemma_bytes_injective(g1, g2);
}

/// A block of library symbols is no part of a header.
proof fn lemma_library_is_no_header(b: Seq<u8>)
    requires
        is_block(b),
        section_of(b, 0) == Section::LibSymbols,
    ensures
        !is_header(b, 0),
{
    lemma_text_of_block(b);
    let d = text_of(b);
    lemma_known_tags();
    reveal_strlit("lib_symbols");
    reveal_strlit("version");
    reveal_strlit("generator");
    reveal_strlit("generator_version");
    reveal_strlit("uuid");
    reveal_strlit("paper");
    reveal_strlit("title_block");
    let l = "lib_symbols"@;
    assert(l.len() == 11 && l[0] == 'l');
    assert("title_block"@[0] == 't');
    if tagged(b, 0, "version"@) {
        lemma_tags_agree(d, 0, "version"@, l);
    }
    if tagged(b, 0, "generator"@) {
        lemma_tags_agree(d, 0, "generator"@, l);
    }
    if tagged(b, 0, "generator_version"@) {
        lemma_tags_agree(d, 0, "generator_version"@, l);
    }
    if tagged(b, 0, "uuid"@) {
        lemma_tags_agree(d, 0, "uuid"@, l);
    }
    if tagged(b, 0, "paper"@) {
        lemma_tags_agree(d, 0, "paper"@, l);
    }
    if tagged(b, 0, "title_block"@) {
        lemma_tags_agree(d, 0, "title_block"@, l);
    }
}

proof fn lemma_tags_agree(d: Seq<char>, q: int, g1: Seq<char>, g2: Seq<char>)
    requires
        is_tag(g1),
        is_tag(g2),
        tag_opens(bytes(d), q, bytes(g1)),
        tag_opens(bytes(d), q, bytes(g2)),
    ensures
        g1 == g2,
{
    if bytes(g1).len() <= bytes(g2).len() {
        lemma_one_tag(d, q, g1, g2);
    } else {
        lemma_one_tag(d, q, g2, g1);
    }
}

proof fn lemma_first_body(s: Seq<u8>, kids: Seq<(int, int)>, k: int, i: int)
    requires
        0 <= i <= k <= kids.len(),
        forall|j: int| i <= j < k ==> is_header(s, (#[trigger] kids[j]).0),
        k < kids.len() ==> !is_header(s, kids[k].0),
    ensures
        first_body(s, kids, i) == k,
    decreases k - i,
{
    if i < k {
        assert(is_header(s, kids[i].0));
        lemma_first_body(s, kids, k, i + 1);
    }
}

/// A child's text is a block.
proof fn lemma_child_block(c: Seq<char>, q: int, e: int)
    requires
        closes_at(bytes(c), q, e),
    ensures
        is_block(bytes(c).subrange(q, e)),
        matches_at(bytes(c), q, bytes(c).subrange(q, e)),
{
    let s = bytes(c);
    lemma_block_cuttable(c, q, e);
    lemma_between_cuts(c, q, e);
    let b = s.subrange(q, e);
    lemma_block_moved(s, b, q, e, -q);
    assert(s.subrange(q, q + b.len()) =~= b);
}

proof fn lemma_trim_more(h: Seq<char>, c: char)
    requires
        is_white(c),
    ensures
        trim_back(h.push(c)) == trim_back(h),
{
    assert(h.push(c).drop_last() =~= h);
}

/// A header, the lines of a body, and the close of the root.
spec fn framed(h: Seq<char>, body: Seq<Seq<u8>>) -> Seq<u8> {
    header_line(h) + body_lines(body) + bytes(")\n"@)
}

/// Where the body of a framed file begins and where it ends.
spec fn body_start(h: Seq<char>) -> int {
    bytes(h).len() as int + 1
}

spec fn body_end(h: Seq<char>, body: Seq<Seq<u8>>) -> int {
    body_start(h) + body_lines(body).len()
}

proof fn lemma_framed_text(h: Seq<char>, body: Seq<Seq<u8>>)
    requires
        forall|i: int| 0 <= i < body.len() ==> is_block(#[trigger] body[i]),
    ensures
        ({
            let f = framed(h, body);
            let a = body_start(h);
            let b = body_end(h, body);
            &&& valid_utf8(f)
            &&& f.len() == b + 2
            &&& header_line(h).len() == a
            &&& header_line(h) == bytes(h + "\n"@)
            &&& header_line(h)[a - 1] == 0x0a
            &&& forall|k: int| 0 <= k < a ==> #[trigger] header_line(h)[k] == f[k]
            &&& matches_at(f, a, body_lines(body))
            &&& f[b] == CLOSE
            &&& f[b + 1] == 0x0a
        }),
{
    let f = framed(h, body);
    let hn = header_line(h);
    let lines = body_lines(body);
    let tail = bytes(")\n"@);
    let a = body_start(h);
    let b = body_end(h, body);
    lemma_newline();
    reveal_strlit(")\n");
    lemma_bytes_ascii(")\n"@);
    lemma_bytes_valid(")\n"@);
    assert(")\n"@[0] == ')' && ")\n"@[1] == '\n');
    assert(tail =~= seq![CLOSE, 0x0au8]);
    lemma_bytes_concat(h, "\n"@);
    lemma_bytes_valid(h + "\n"@);
    assert forall|i: int| 0 <= i < body.len() implies valid_utf8(#[trigger] body[i]) by {
        assert(is_block(body[i]));
    }
    lemma_lines_valid(bytes("\t"@), body, body.len() as int);
    valid_utf8_concat(hn, lines);
    valid_utf8_concat(hn + lines, tail);
    assert(f.subrange(a, a + lines.len()) =~= lines);
}

/// The root of a framed file, and its children.
proof fn lemma_framed_root(h: Seq<char>, body: Seq<Seq<u8>>)
    requires
        sound_header(h),
        forall|i: int| 0 <= i < body.len() ==> is_block(#[trigger] body[i]),
    ensures
        ({
            let f = framed(h, body);
            let hn = header_line(h);
            let m = bytes(h).len() as int;
            let root = skip_blank(hn, 0);
            let a = body_start(h);
            let b = body_end(h, body);
            let n = body.len() as int;
            let ranges = line_ranges(a, bytes("\t"@), body, n);
            let heads = children_from(hn, root, root + 1, m + 1);
            &&& skip_blank(f, 0) == root
            &&& closes_at(f, root, b + 1)
            &&& children(f, root, b + 1) == heads + ranges
            &&& ranges.len() == n
            &&& forall|i: int|
                0 <= i < n ==> matches_at(f, (#[trigger] ranges[i]).0, body[i]) && ranges[i].1
                    == ranges[i].0 + body[i].len()
            &&& forall|i: int|
                0 <= i < heads.len() ==> closes_at(hn, (#[trigger] heads[i]).0, heads[i].1)
                    && heads[i].1 <= m
        }),
{
    let f = framed(h, body);
    let hn = header_line(h);
    let m = bytes(h).len() as int;
    let a = body_start(h);
    let b = body_end(h, body);
    let end = b + 1;
    let n = body.len() as int;
    let tab = bytes("\t"@);
    lemma_newline();
    lemma_framed_text(h, body);
    let root = skip_blank(hn, 0);
    lemma_skip_blank(hn, 0);
    assert forall|k: int| 0 <= k < root implies blank(#[trigger] f[k]) by {
        assert(hn[k] == f[k]);
    }
    assert(f[root] == hn[root]);
    lemma_skip_blank_is(f, 0, root);
    assert forall|k: int| root <= k <= a implies #[trigger] lex(f, root, k) == lex(hn, root, k) by {
        lemma_lex_same(hn, f, root, k, 0);
    }
    assert(f[m] == hn[m]);
    assert(lex(f, root, a) == lex_step(lex(f, root, m), f[m]));
    assert(lex(f, root, a) == lex(f, root, m));
    assert forall|i: int| 0 <= i < n implies closes_at(#[trigger] body[i], 0, body[i].len() as int) by {
        assert(is_block(body[i]));
    }
    lemma_lines(f, root, a, tab, body, n, end);
    assert(lex(f, root, end) == lex_step(lex(f, root, b), f[b]));
    assert forall|k: int| root < k < end implies (#[trigger] lex(f, root, k)).depth > 0 by {
        if k <= m {
            assert(lex(f, root, k) == lex(hn, root, k));
            assert(lex(hn, root, k).depth > 0);
        } else {
            assert(lex(f, root, k).depth >= lex(f, root, a).depth);
        }
    }
    assert(closes_at(f, root, end));
    assert(lex(f, root, root) == outside());
    assert(lex(f, root, root + 1) == lex_step(outside(), f[root]));
    lemma_children_split(f, root, root + 1, m, end);
    lemma_children_blank(f, root, m, a, end);
    lemma_children_blank(f, root, b, end, end);
    assert(children_from(f, root, end, end) =~= Seq::<(int, int)>::empty());
    assert(lex(hn, root, root + 1) == lex(f, root, root + 1));
    lemma_children_same(hn, f, root, root + 1, m);
    let ranges = line_ranges(a, tab, body, n);
    assert(ranges + Seq::<(int, int)>::empty() =~= ranges);
}

/// A framed file is a schematic.
proof fn lemma_framed_document(h: Seq<char>, body: Seq<Seq<u8>>)
    requires
        sound_header(h),
        forall|i: int| 0 <= i < body.len() ==> is_block(#[trigger] body[i]),
    ensures
        document_fault(framed(h, body), bytes("kicad_sch"@)).is_none(),
{
    let f = framed(h, body);
    let hn = header_line(h);
    let m = bytes(h).len() as int;
    let root = skip_blank(hn, 0);
    let end = body_end(h, body) + 1;
    lemma_framed_text(h, body);
    lemma_framed_root(h, body);
    lemma_skip_blank(hn, 0);
    lemma_text_of_block(f);
    lemma_block_end(f, root, end);
    lemma_skip_blank_is(f, end, f.len() as int);
    lemma_known_tags();
    let hc = h + "\n"@;
    let fc = text_of(f);
    assert(f[m] == hn[m]);
    lemma_tag_ends(hc, m);
    lemma_tag_ends(fc, m);
    lemma_tag_same(hc, fc, root, m, "kicad_sch"@);
}

/// The header of a framed file whose body begins with library symbols.
proof fn lemma_framed_header(h: Seq<char>, body: Seq<Seq<u8>>)
    requires
        sound_header(h),
        library_first(body),
        section_of(body[0], 0) == Section::LibSymbols,
    ensures
        ({
            let f = framed(h, body);
            let hn = header_line(h);
            let m = bytes(h).len() as int;
            let root = skip_blank(hn, 0);
            let end = body_end(h, body) + 1;
            let kids = children(f, root, end);
            let k = children_from(hn, root, root + 1, m + 1).len() as int;
            &&& first_body(f, kids, 0) == k
            &&& header_of(f, kids, end) == h
        }),
{
    let f = framed(h, body);
    let hn = header_line(h);
    let m = bytes(h).len() as int;
    let a = body_start(h);
    let root = skip_blank(hn, 0);
    let end = body_end(h, body) + 1;
    let n = body.len() as int;
    let tab = bytes("\t"@);
    assert forall|i: int| 0 <= i < n implies is_block(#[trigger] body[i]) by {}
    lemma_newline();
    lemma_framed_text(h, body);
    lemma_framed_root(h, body);
    lemma_text_of_block(f);
    let hc = h + "\n"@;
    let heads = children_from(hn, root, root + 1, m + 1);
    let ranges = line_ranges(a, tab, body, n);
    let kids = children(f, root, end);
    let k = heads.len() as int;
    assert forall|j: int| 0 <= j < k implies is_header(f, (#[trigger] kids[j]).0) by {
        assert(kids[j] == heads[j]);
        let (q, e) = heads[j];
        assert(is_header(hn, heads[j].0));
        lemma_bytes_valid(hc);
        lemma_child_block(hc, q, e);
        let t = hn.subrange(q, e);
        assert(f.subrange(q, q + t.len()) =~= t);
        lemma_section_moves(t, hn, q);
        lemma_section_moves(t, f, q);
    }
    assert(kids[k] == ranges[0]);
    assert(!is_header(f, kids[k].0)) by {
        lemma_library_is_no_header(body[0]);
        lemma_section_moves(body[0], f, ranges[0].0);
    }
    lemma_first_body(f, kids, k, 0);
    lemma_first_line(a, tab, body, n);
    lemma_lines_begin(tab, body, n);
    let lines = body_lines(body);
    assert(f[a] == lines[0]) by {
        assert(f.subrange(a, a + lines.len())[0] == lines[0]);
    }
    assert(f.subrange(0, a + 1) =~= hn + tab);
    reveal_strlit("\n");
    reveal_strlit("\t");
    let hw = h.push('\n').push('\t');
    assert(hw =~= h + "\n"@ + "\t"@);
    lemma_bytes_concat(h + "\n"@, "\t"@);
    lemma_bytes_valid(hw);
    lemma_trim_more(h.push('\n'), '\t');
    lemma_trim_more(h, '\n');
}

proof fn lemma_first_line(a: int, indent: Seq<u8>, blocks: Seq<Seq<u8>>, n: int)
    requires
        0 < n <= blocks.len(),
    ensures
        line_ranges(a, indent, blocks, n).len() == n,
        line_ranges(a, indent, blocks, n)[0].0 == a + indent.len(),
    decreases n,
{
    if n > 1 {
        lemma_first_line(a, indent, blocks, n - 1);
    } else {
        assert(section_lines(indent, blocks, 0) =~= Seq::<u8>::empty());
        assert(line_ranges(a, indent, blocks, 0) =~= Seq::<(int, int)>::empty());
    }
}

proof fn lemma_lines_begin(indent: Seq<u8>, blocks: Seq<Seq<u8>>, n: int)
    requires
        0 < n <= blocks.len(),
        indent.len() > 0,
    ensures
        section_lines(indent, blocks, n).len() > 0,
        section_lines(indent, blocks, n)[0] == indent[0],
    decreases n,
{
    if n > 1 {
        lemma_lines_begin(indent, blocks, n - 1);
    } else {
        assert(section_lines(indent, blocks, 0) =~= Seq::<u8>::empty());
    }
}

/// The sections of a framed file are what is chosen from its body.
proof fn lemma_framed_section(h: Seq<char>, body: Seq<Seq<u8>>, section: Section)
    requires
        sound_header(h),
        library_first(body),
    ensures
        ({
            let f = framed(h, body);
            let hn = header_line(h);
            let m = bytes(h).len() as int;
            let root = skip_blank(hn, 0);
            let end = body_end(h, body) + 1;
            let kids = children(f, root, end);
            let k = children_from(hn, root, root + 1, m + 1).len() as int;
            let n = body.len() as int;
            &&& kids.len() == k + n
            &&& section_blocks(f, kids, section, k, k + n) == chosen(body, section, n)
            &&& forall|i: int|
                0 <= i < n ==> section_of(f, (#[trigger] kids[k + i]).0) == section_of(body[i], 0)
            &&& matches_at(f, kids[k].0, body[0])
            &&& kids[k].1 == kids[k].0 + body[0].len()
        }),
{
    let f = framed(h, body);
    let hn = header_line(h);
    let m = bytes(h).len() as int;
    let root = skip_blank(hn, 0);
    let end = body_end(h, body) + 1;
    let kids = children(f, root, end);
    let heads = children_from(hn, root, root + 1, m + 1);
    let k = heads.len() as int;
    let n = body.len() as int;
    assert forall|i: int| 0 <= i < n implies is_block(#[trigger] body[i]) by {}
    lemma_framed_text(h, body);
    lemma_framed_root(h, body);
    let ranges = line_ranges(body_start(h), bytes("\t"@), body, n);
    assert forall|i: int| 0 <= i < n implies f.subrange((#[trigger] kids[k + i]).0, kids[k + i].1)
        == body[i] && section_of(f, kids[k + i].0) == section_of(body[i], 0) by {
        assert(kids[k + i] == ranges[i]);
        assert(is_block(body[i]));
        lemma_section_moves(body[i], f, ranges[i].0);
    }
    assert(kids[k] == ranges[0]);
    lemma_sections_of_kids(f, kids, k, body, section, n);
}

proof fn lemma_framed_library(h: Seq<char>, body: Seq<Seq<u8>>, lib: Seq<Seq<u8>>)
    requires
        sound_header(h),
        library_first(body),
        body[0] == library_block(lib),
        section_of(body[0], 0) == Section::LibSymbols,
        forall|i: int| 0 <= i < lib.len() ==> is_block(#[trigger] lib[i]),
    ensures
        ({
            let f = framed(h, body);
            let hn = header_line(h);
            let m = bytes(h).len() as int;
            let root = skip_blank(hn, 0);
            let end = body_end(h, body) + 1;
            let kids = children(f, root, end);
            let k = children_from(hn, root, root + 1, m + 1).len() as int;
            library_blocks(f, kids, k, k + body.len()) == lib
        }),
{
    let f = framed(h, body);
    let hn = header_line(h);
    let m = bytes(h).len() as int;
    let root = skip_blank(hn, 0);
    let end = body_end(h, body) + 1;
    let kids = children(f, root, end);
    let k = children_from(hn, root, root + 1, m + 1).len() as int;
    let n = body.len() as int;
    lemma_framed_section(h, body, Section::LibSymbols);
    assert(section_of(f, kids[k + 0].0) == section_of(body[0], 0));
    assert forall|i: int| k < i < k + n implies section_of(f, (#[trigger] kids[i]).0)
        != Section::LibSymbols by {
        let j = i - k;
        assert(section_of(f, kids[k + j].0) == section_of(body[j], 0));
        assert(is_block(body[j]));
    }
    lemma_library_of_kids(f, kids, k, k + n);
    lemma_library_stands(f, kids[k].0, lib);
}

/// What is written from sound parts is a schematic, and reads back as those parts.
pub proof fn law_file_reads_back(p: Parts)
    requires
        sound(p),
    ensures
        parsed(file_of(p)) == Ok::<Parts, DocumentError>(p),
{
    let h = p.header;
    let body = body_of(p);
    let f = file_of(p);
    lemma_file(p);
    assert(f == framed(h, body));
    lemma_body_blocks(p);
    lemma_library_block(p.lib_symbols);
    assert forall|i: int| 0 <= i < body.len() implies is_block(#[trigger] body[i]) by {}
    lemma_framed_document(h, body);
    lemma_framed_root(h, body);
    lemma_framed_header(h, body);
    lemma_framed_library(h, body, p.lib_symbols);
    let hn = header_line(h);
    let root = skip_blank(hn, 0);
    let end = body_end(h, body) + 1;
    lemma_block_end(f, root, end);
    lemma_framed_section(h, body, Section::Junction);
    lemma_chosen_body(p, Section::Junction);
    lemma_framed_section(h, body, Section::NoConnect);
    lemma_chosen_body(p, Section::NoConnect);
    lemma_framed_section(h, body, Section::Wire);
    lemma_chosen_body(p, Section::Wire);
    lemma_framed_section(h, body, Section::Bus);
    lemma_chosen_body(p, Section::Bus);
    lemma_framed_section(h, body, Section::BusEntry);
    lemma_chosen_body(p, Section::BusEntry);
    lemma_framed_section(h, body, Section::Text);
    lemma_chosen_body(p, Section::Text);
    lemma_framed_section(h, body, Section::Label);
    lemma_chosen_body(p, Section::Label);
    lemma_framed_section(h, body, Section::Symbol);
    lemma_chosen_body(p, Section::Symbol);
    lemma_framed_section(h, body, Section::Trailing);
    lemma_chosen_body(p, Section::Trailing);
    let q = parts_of(f, root, end);
    assert(q.header == p.header);
    assert(q.lib_symbols == p.lib_symbols);
    assert(q =~= p);
}

// ─── What is read is sound ───────────────────────────────────────────────────

/// The bytes of white space mean nothing to a scan.
proof fn lemma_white_bytes(w: Seq<char>)
    requires
        forall|k: int| 0 <= k < w.len() ==> is_white(#[trigger] w[k]),
    ensures
        forall|k: int|
            0 <= k < bytes(w).len() ==> #[trigger] bytes(w)[k] != OPEN && bytes(w)[k] != CLOSE && bytes(
                w,
            )[k] != QUOTE && bytes(w)[k] != BACKSLASH && !crate::blocks::tag_byte(bytes(w)[k]),
    decreases w.len(),
{
    if w.len() > 0 {
        let front = w.drop_last();
        let c = w.last();
        assert(is_white(w[w.len() - 1]));
        assert forall|k: int| 0 <= k < front.len() implies is_white(#[trigger] front[k]) by {
            assert(front[k] == w[k]);
        }
        lemma_white_bytes(front);
        assert(w =~= front + seq![c]);
        lemma_bytes_concat(front, seq![c]);
        lemma_char_bytes(c);
        let one = bytes(seq![c]);
        assert forall|k: int| 0 <= k < one.len() implies #[trigger] one[k] != OPEN && one[k] != CLOSE
            && one[k] != QUOTE && one[k] != BACKSLASH && !crate::blocks::tag_byte(one[k]) by {
            if c <= '\u{7f}' {
                assert(one == seq![c as u8]);
                assert(one[k] == c as int);
            }
        }
        assert forall|k: int| 0 <= k < bytes(w).len() implies #[trigger] bytes(w)[k] != OPEN && bytes(
            w,
        )[k] != CLOSE && bytes(w)[k] != QUOTE && bytes(w)[k] != BACKSLASH && !crate::blocks::tag_byte(
            bytes(w)[k],
        ) by {
            if k < bytes(front).len() {
                assert(bytes(w)[k] == bytes(front)[k]);
            } else {
                assert(bytes(w)[k] == one[k - bytes(front).len()]);
            }
        }
    } else {
        assert(bytes(w) =~= Seq::<u8>::empty());
    }
}

proof fn lemma_trimmed_white(t: Seq<char>)
    ensures
        forall|k: int| trim_back(t).len() <= k < t.len() ==> is_white(#[trigger] t[k]),
    decreases t.len(),
{
    if t.len() > 0 && is_white(t.last()) {
        let front = t.drop_last();
        lemma_trimmed_white(front);
        assert forall|k: int| trim_back(t).len() <= k < t.len() implies is_white(#[trigger] t[k]) by {
            if k < front.len() {
                assert(front[k] == t[k]);
            }
        }
    }
}

/// A scan that is between two expressions was so before bytes that mean nothing.
proof fn lemma_lex_back(s: Seq<u8>, root: int, m: int, e: int)
    requires
        0 <= root <= m <= e <= s.len(),
        between(lex(s, root, e)),
        forall|k: int|
            m <= k < e ==> #[trigger] s[k] != OPEN && s[k] != CLOSE && s[k] != QUOTE && s[k]
                != BACKSLASH,
    ensures
        lex(s, root, m) == lex(s, root, e),
    decreases e - m,
{
    if m < e {
        let l = lex(s, root, e - 1);
        lemma_depth_bound(s, root, e - 1);
        assert(s[e - 1] != OPEN && s[e - 1] != CLOSE && s[e - 1] != QUOTE && s[e - 1] != BACKSLASH);
        assert(lex(s, root, e) == lex_step(l, s[e - 1]));
        lemma_lex_back(s, root, m, e - 1);
    }
}

proof fn lemma_first_body_is(s: Seq<u8>, kids: Seq<(int, int)>, i: int)
    requires
        0 <= i <= kids.len(),
    ensures
        i <= first_body(s, kids, i) <= kids.len(),
        forall|j: int| i <= j < first_body(s, kids, i) ==> is_header(s, (#[trigger] kids[j]).0),
    decreases kids.len() - i,
{
    if i < kids.len() && is_header(s, kids[i].0) {
        lemma_first_body_is(s, kids, i + 1);
    }
}

/// The header that is read from a schematic is sound.
#[verifier::rlimit(60)]
proof fn lemma_header_is_sound(c: Seq<char>)
    requires
        document_fault(bytes(c), bytes("kicad_sch"@)).is_none(),
    ensures
        ({
            let s = bytes(c);
            let root = skip_blank(s, 0);
            let e = block_end(s, root).unwrap();
            sound_header(header_of(s, children(s, root, e), e))
        }),
{
    let s = bytes(c);
    let tag = bytes("kicad_sch"@);
    let root = skip_blank(s, 0);
    let e = block_end(s, root).unwrap();
    let kids = children(s, root, e);
    lemma_root(s, tag);
    lemma_newline();
    assert(lex(s, root, root) == outside());
    assert(lex(s, root, root + 1) == lex_step(outside(), s[root]));
    crate::blocks::law_children_are_direct(s, root, root + 1, e);
    let k = first_body(s, kids, 0);
    lemma_first_body_is(s, kids, 0);
    let stop = if k < kids.len() {
        kids[k].0
    } else {
        e - 1
    };
    assert(root < stop < e && lex(s, root, stop).depth == 1 && !lex(s, root, stop).in_string && (s[stop]
        == OPEN || s[stop] == CLOSE)) by {
        if k < kids.len() {
            assert(closes_at(s, children_from(s, root, root + 1, e)[k].0, kids[k].1));
        } else {
            assert(lex(s, root, e) == lex_step(lex(s, root, e - 1), s[e - 1]));
            assert(lex(s, root, e - 1).depth > 0);
        }
    }
    lemma_depth_bound(s, root, stop);
    lemma_ascii_boundary(c, stop);
    lemma_ends(c);
    lemma_between_cuts(c, 0, stop);
    let u = text_of(s.subrange(0, stop));
    let h = trim_back(u);
    lemma_trim_back_prefix(u);
    lemma_trimmed_white(u);
    let w = u.skip(h.len() as int);
    assert(u =~= h + w);
    lemma_bytes_concat(h, w);
    let m = bytes(h).len() as int;
    assert(s.subrange(0, stop) == bytes(h) + bytes(w));
    assert forall|i: int| 0 <= i < w.len() implies is_white(#[trigger] w[i]) by {
        assert(w[i] == u[h.len() + i]);
    }
    lemma_white_bytes(w);
    assert forall|i: int| m <= i < stop implies #[trigger] s[i] != OPEN && s[i] != CLOSE && s[i] != QUOTE
        && s[i] != BACKSLASH && !crate::blocks::tag_byte(s[i]) by {
        assert(s.subrange(0, stop)[i] == bytes(w)[i - m]);
    }
    assert(root < m);
    lemma_lex_back(s, root, m, stop);
    // The header line agrees with the file up to the header's end.
    let hc = h + "\n"@;
    let hn = header_line(h);
    lemma_bytes_concat(h, "\n"@);
    assert(bytes(hc) == hn);
    assert forall|i: int| 0 <= i < m implies #[trigger] s[i] == hn[i] by {
        assert(s.subrange(0, stop)[i] == bytes(h)[i]);
    }
    assert(hn[m] == 0x0a);
    assert forall|i: int| 0 <= i < root implies blank(#[trigger] hn[i]) by {
        assert(s[i] == hn[i]);
    }
    assert(s[root] == hn[root]);
    lemma_skip_blank(s, 0);
    lemma_skip_blank_is(hn, 0, root);
    assert forall|i: int| root <= i <= m implies #[trigger] lex(hn, root, i) == lex(s, root, i) by {
        lemma_lex_same(s, hn, root, i, 0);
    }
    assert forall|i: int| root < i <= m implies (#[trigger] lex(hn, root, i)).depth > 0 by {
        assert(lex(s, root, i).depth > 0);
    }
    assert forall|i: int| root < i <= m implies (#[trigger] lex(s, root, i)).depth > 0 by {}
    // Its tag.
    lemma_known_tags();
    lemma_tag_ends(hc, m);
    assert(tag_ends_at(s, m)) by {
        if m == stop {
            lemma_tag_ends(c, m);
        } else {
            lemma_bytes_valid(h);
            lemma_bytes_valid(c);
            let q = s.subrange(m, s.len() as int);
            assert(s =~= bytes(h) + q);
            crate::text::lemma_suffix_valid(bytes(h), q);
            crate::placing::lemma_first_char(c, m, stop);
            assert(s.subrange(m, stop) =~= s.subrange(0, stop).subrange(m, stop));
            assert((bytes(h) + bytes(w)).subrange(m, stop) =~= bytes(w));
            lemma_bytes_valid(w);
            assert(is_white(w[0]));
        }
    }
    lemma_tag_same(c, hc, root, m, "kicad_sch"@);
    // Its children are those of the file that stand before the body.
    lemma_children_split(s, root, root + 1, m, e);
    lemma_children_same(s, hn, root, root + 1, m);
    let heads = children_from(s, root, root + 1, m + 1);
    assert forall|i: int| 0 <= i < heads.len() implies is_header(hn, (#[trigger] heads[i]).0) by {
        assert(kids[i] == heads[i]);
        let (q, f) = heads[i];
        assert(closes_at(s, q, f) && f <= m);
        if i >= k {
            assert(kids[k] == heads[k]);
            assert(heads[k].1 <= m);
            assert(closes_at(s, heads[k].0, heads[k].1));
            assert(false);
        }
        assert(is_header(s, kids[i].0));
        lemma_child_block(c, q, f);
        let b = s.subrange(q, f);
        assert(hn.subrange(q, q + b.len()) =~= b);
        lemma_bytes_valid(c);
        lemma_bytes_valid(hc);
        lemma_section_moves(b, s, q);
        lemma_section_moves(b, hn, q);
    }
}

proof fn lemma_read_section(
    c: Seq<char>,
    kids: Seq<(int, int)>,
    section: Section,
    from: int,
    n: int,
)
    requires
        0 <= from,
        n <= kids.len(),
        forall|i: int|
            0 <= i < kids.len() ==> closes_at(bytes(c), (#[trigger] kids[i]).0, kids[i].1),
    ensures
        all_in(section_blocks(bytes(c), kids, section, from, n), section),
    decreases n - from,
{
    let s = bytes(c);
    if from < n {
        lemma_read_section(c, kids, section, from, n - 1);
        let before = section_blocks(s, kids, section, from, n - 1);
        let all = section_blocks(s, kids, section, from, n);
        let (q, e) = kids[n - 1];
        assert(closes_at(s, kids[n - 1].0, kids[n - 1].1));
        lemma_child_block(c, q, e);
        lemma_bytes_valid(c);
        lemma_section_moves(s.subrange(q, e), s, q);
        assert forall|i: int| 0 <= i < all.len() implies is_block(#[trigger] all[i]) && section_of(
            all[i],
            0,
        ) == section by {
            if i < before.len() {
                assert(all[i] == before[i]);
            }
        }
    }
}

proof fn lemma_read_library(c: Seq<char>, kids: Seq<(int, int)>, from: int, n: int)
    requires
        0 <= from,
        n <= kids.len(),
        forall|i: int|
            0 <= i < kids.len() ==> closes_at(bytes(c), (#[trigger] kids[i]).0, kids[i].1),
    ensures
        forall|i: int|
            0 <= i < library_blocks(bytes(c), kids, from, n).len() ==> is_block(
                #[trigger] library_blocks(bytes(c), kids, from, n)[i],
            ),
    decreases n - from,
{
    let s = bytes(c);
    if from < n {
        lemma_read_library(c, kids, from, n - 1);
        let before = library_blocks(s, kids, from, n - 1);
        let all = library_blocks(s, kids, from, n);
        let (q, e) = kids[n - 1];
        assert(closes_at(s, kids[n - 1].0, kids[n - 1].1));
        assert(lex(s, q, q) == outside());
        assert(lex(s, q, q + 1) == lex_step(outside(), s[q]));
        crate::blocks::law_children_are_direct(s, q, q + 1, e);
        let inner = children(s, q, e);
        assert forall|i: int| 0 <= i < all.len() implies is_block(#[trigger] all[i]) by {
            if i < before.len() {
                assert(all[i] == before[i]);
            } else {
                let j = i - before.len();
                assert(all[i] == block_texts(s, inner)[j]);
                assert(closes_at(s, children_from(s, q, q + 1, e)[j].0, inner[j].1));
                lemma_child_block(c, inner[j].0, inner[j].1);
            }
        }
    }
}

/// What is read from a schematic is sound.
pub proof fn law_read_is_sound(c: Seq<char>)
    ensures
        match parsed(bytes(c)) {
            Ok(p) => sound(p),
            Err(_) => true,
        },
{
    let s = bytes(c);
    if parsed(s) is Ok {
        let p = parsed(s)->Ok_0;
        let root = skip_blank(s, 0);
        let e = block_end(s, root).unwrap();
        let kids = children(s, root, e);
        let k = first_body(s, kids, 0);
        let n = kids.len() as int;
        lemma_root(s, bytes("kicad_sch"@));
        lemma_first_body_is(s, kids, 0);
        assert(lex(s, root, root) == outside());
        assert(lex(s, root, root + 1) == lex_step(outside(), s[root]));
        crate::blocks::law_children_are_direct(s, root, root + 1, e);
        assert forall|i: int| 0 <= i < kids.len() implies closes_at(
            s,
            (#[trigger] kids[i]).0,
            kids[i].1,
        ) by {
            assert(closes_at(s, children_from(s, root, root + 1, e)[i].0, kids[i].1));
        }
        lemma_header_is_sound(c);
        lemma_read_library(c, kids, k, n);
        lemma_read_section(c, kids, Section::Junction, k, n);
        lemma_read_section(c, kids, Section::NoConnect, k, n);
        lemma_read_section(c, kids, Section::Wire, k, n);
        lemma_read_section(c, kids, Section::Bus, k, n);
        lemma_read_section(c, kids, Section::BusEntry, k, n);
        lemma_read_section(c, kids, Section::Text, k, n);
        lemma_read_section(c, kids, Section::Label, k, n);
        lemma_read_section(c, kids, Section::Symbol, k, n);
        lemma_read_section(c, kids, Section::Trailing, k, n);
    }
}

/// Reading a schematic and writing it again is a fixed point: what is written is a
/// schematic that reads as the same parts, and so is written the same way again.
pub proof fn law_rewriting_is_a_fixed_point(c: Seq<char>)
    ensures
        match parsed(bytes(c)) {
            Ok(p) => parsed(file_of(p)) == Ok::<Parts, DocumentError>(p),
            Err(_) => true,
        },
{
    law_read_is_sound(c);
    if parsed(bytes(c)) is Ok {
        law_file_reads_back(parsed(bytes(c))->Ok_0);
    }
}

/// No block of a schematic's body is lost: each goes to its section, and each
/// library symbol to the library symbols.
pub proof fn law_no_block_is_lost(s: Seq<u8>, kids: Seq<(int, int)>, from: int, n: int, j: int)
    requires
        0 <= from <= j < n <= kids.len(),
    ensures
        ({
            let section = section_of(s, kids[j].0);
            if section == Section::LibSymbols {
                forall|i: int|
                    0 <= i < children(s, kids[j].0, kids[j].1).len() ==> library_blocks(
                        s,
                        kids,
                        from,
                        n,
                    ).contains(
                        #[trigger] block_texts(s, children(s, kids[j].0, kids[j].1))[i],
                    )
            } else {
                section_blocks(s, kids, section, from, n).contains(
                    s.subrange(kids[j].0, kids[j].1),
                )
            }
        }),
    decreases n - from,
{
    let section = section_of(s, kids[j].0);
    if section == Section::LibSymbols {
        let before = library_blocks(s, kids, from, n - 1);
        let all = library_blocks(s, kids, from, n);
        let own = block_texts(s, children(s, kids[j].0, kids[j].1));
        if j < n - 1 {
            law_no_block_is_lost(s, kids, from, n - 1, j);
        }
        assert forall|i: int| 0 <= i < children(s, kids[j].0, kids[j].1).len() implies all.contains(
            #[trigger] own[i],
        ) by {
            if j < n - 1 {
                assert(before.contains(own[i]));
                let q = choose|q: int| 0 <= q < before.len() && before[q] == own[i];
                assert(all[q] == own[i]);
            } else {
                assert(all[before.len() + i] == own[i]);
            }
        }
    } else {
        let before = section_blocks(s, kids, section, from, n - 1);
        let all = section_blocks(s, kids, section, from, n);
        let b = s.subrange(kids[j].0, kids[j].1);
        if j < n - 1 {
            law_no_block_is_lost(s, kids, from, n - 1, j);
            let q = choose|q: int| 0 <= q < before.len() && before[q] == b;
            assert(all[q] == b);
        } else {
            assert(all[all.len() - 1] == b);
        }
    }
}

// ─── A new schematic ─────────────────────────────────────────────────────────

/// The header blocks of a new schematic.
spec fn new_blocks(uuid: Seq<char>) -> Seq<Seq<char>> {
    seq![
        word_field("version"@, "20250610"@),
        text_field("generator"@, "konnect"@),
        text_field("generator_version"@, "10.0"@),
        text_field("uuid"@, uuid),
        text_field("paper"@, "A4"@),
    ]
}

proof fn lemma_header_field(t: Seq<char>, tag: Seq<char>, rest: Seq<char>, n: Sexp)
    requires
        t == "("@ + tag + " "@ + rest,
        is_tag(tag),
        is_block_of(t, n),
    ensures
        is_block(bytes(t)),
        tag_opens(bytes(t), 0, bytes(tag)),
{
    reveal_strlit("(");
    reveal_strlit(" ");
    assert("("@ =~= seq!['(']);
    lemma_bytes_valid(t);
    lemma_list_text(bytes(t), n);
    crate::undo::lemma_has_tag(t, tag, " "@, rest);
}

proof fn lemma_new_blocks(uuid: Seq<char>)
    requires
        is_plain(uuid),
    ensures
        forall|i: int|
            0 <= i < 5 ==> is_block(bytes(#[trigger] new_blocks(uuid)[i])) && is_header(
                bytes(new_blocks(uuid)[i]),
                0,
            ),
{
    let ts = new_blocks(uuid);
    lemma_known_tags();
    reveal_strlit("version");
    reveal_strlit("generator");
    reveal_strlit("generator_version");
    reveal_strlit("uuid");
    reveal_strlit("paper");
    reveal_strlit("20250610");
    reveal_strlit("konnect");
    reveal_strlit("10.0");
    reveal_strlit("A4");
    lemma_tag_is_word("version"@);
    lemma_tag_is_word("generator"@);
    lemma_tag_is_word("generator_version"@);
    lemma_tag_is_word("uuid"@);
    lemma_tag_is_word("paper"@);
    lemma_tag_is_word("20250610"@);
    lemma_word_field("version"@, "20250610"@);
    lemma_text_field("generator"@, "konnect"@);
    lemma_text_field("generator_version"@, "10.0"@);
    lemma_text_field("uuid"@, uuid);
    lemma_text_field("paper"@, "A4"@);
    let r0 = "20250610"@ + ")"@;
    assert(ts[0] =~= "("@ + "version"@ + " "@ + r0);
    lemma_header_field(
        ts[0],
        "version"@,
        r0,
        Sexp::List(seq![Sexp::Atom("version"@), Sexp::Atom("20250610"@)]),
    );
    let r1 = in_marks("konnect"@) + ")"@;
    assert(ts[1] =~= "("@ + "generator"@ + " "@ + r1);
    lemma_header_field(
        ts[1],
        "generator"@,
        r1,
        Sexp::List(seq![Sexp::Atom("generator"@), Sexp::Str("konnect"@)]),
    );
    let r2 = in_marks("10.0"@) + ")"@;
    assert(ts[2] =~= "("@ + "generator_version"@ + " "@ + r2);
    lemma_header_field(
        ts[2],
        "generator_version"@,
        r2,
        Sexp::List(seq![Sexp::Atom("generator_version"@), Sexp::Str("10.0"@)]),
    );
    let r3 = in_marks(uuid) + ")"@;
    assert(ts[3] =~= "("@ + "uuid"@ + " "@ + r3);
    lemma_header_field(
        ts[3],
        "uuid"@,
        r3,
        Sexp::List(seq![Sexp::Atom("uuid"@), Sexp::Str(uuid)]),
    );
    let r4 = in_marks("A4"@) + ")"@;
    assert(ts[4] =~= "("@ + "paper"@ + " "@ + r4);
    lemma_header_field(
        ts[4],
        "paper"@,
        r4,
        Sexp::List(seq![Sexp::Atom("paper"@), Sexp::Str("A4"@)]),
    );
}

/// The bytes of texts.
spec fn all_bytes(ts: Seq<Seq<char>>) -> Seq<Seq<u8>> {
    Seq::new(ts.len(), |i: int| bytes(ts[i]))
}

/// The header of a new schematic in lines.
proof fn lemma_new_header_lines(uuid: Seq<char>)
    ensures
        header_line(new_header(uuid)) == bytes("(kicad_sch\n"@) + section_lines(
            bytes("\t"@),
            all_bytes(new_blocks(uuid)),
            5,
        ),
{
    let ts = new_blocks(uuid);
    let bs = all_bytes(ts);
    let tab = "\t"@;
    let nl = "\n"@;
    let l1 = tab + ts[0] + nl;
    let l2 = tab + ts[1] + nl;
    let l3 = tab + ts[2] + nl;
    let l4 = tab + ts[3] + nl;
    let l5 = tab + ts[4] + nl;
    reveal_with_fuel(section_lines, 6);
    assert(section_lines(bytes(tab), bs, 0) =~= Seq::<u8>::empty());
    lemma_line_bytes(Seq::empty(), ts[0]);
    lemma_line_bytes(Seq::empty() + l1, ts[1]);
    lemma_line_bytes(Seq::empty() + l1 + l2, ts[2]);
    lemma_line_bytes(Seq::empty() + l1 + l2 + l3, ts[3]);
    lemma_line_bytes(Seq::empty() + l1 + l2 + l3 + l4, ts[4]);
    assert(bytes(Seq::<char>::empty()) =~= Seq::<u8>::empty());
    let lines = Seq::<char>::empty() + l1 + l2 + l3 + l4 + l5;
    assert(bs[0] == bytes(ts[0]) && bs[1] == bytes(ts[1]) && bs[2] == bytes(ts[2]) && bs[3] == bytes(
        ts[3],
    ) && bs[4] == bytes(ts[4]));
    assert(section_lines(bytes(tab), bs, 1) == bytes(Seq::<char>::empty() + l1));
    assert(section_lines(bytes(tab), bs, 2) == bytes(Seq::<char>::empty() + l1 + l2));
    assert(section_lines(bytes(tab), bs, 3) == bytes(Seq::<char>::empty() + l1 + l2 + l3));
    assert(section_lines(bytes(tab), bs, 4) == bytes(Seq::<char>::empty() + l1 + l2 + l3 + l4));
    assert(section_lines(bytes(tab), bs, 5) == bytes(lines));
    lemma_bytes_concat("(kicad_sch\n"@, lines);
    lemma_bytes_concat(new_header(uuid), nl);
    lemma_new_header_text(uuid);
}

proof fn lemma_line_bytes(done: Seq<char>, t: Seq<char>)
    ensures
        bytes(done + ("\t"@ + t + "\n"@)) == bytes(done) + bytes("\t"@) + bytes(t) + bytes("\n"@),
{
    lemma_bytes_concat(done, "\t"@ + t + "\n"@);
    lemma_bytes_concat("\t"@ + t, "\n"@);
    lemma_bytes_concat("\t"@, t);
    assert(bytes(done) + (bytes("\t"@) + bytes(t) + bytes("\n"@)) =~= bytes(done) + bytes("\t"@)
        + bytes(t) + bytes("\n"@));
}

proof fn lemma_new_header_text(uuid: Seq<char>)
    ensures
        new_header(uuid) + "\n"@ == "(kicad_sch\n"@ + (Seq::<char>::empty() + ("\t"@ + new_blocks(
            uuid,
        )[0] + "\n"@) + ("\t"@ + new_blocks(uuid)[1] + "\n"@) + ("\t"@ + new_blocks(uuid)[2]
            + "\n"@) + ("\t"@ + new_blocks(uuid)[3] + "\n"@) + ("\t"@ + new_blocks(uuid)[4] + "\n"@)),
{
    reveal_strlit("(kicad_sch\n");
    reveal_strlit(
        "(kicad_sch\n\t(version 20250610)\n\t(generator \"konnect\")\n\t(generator_version \"10.0\")\n\t(uuid \"",
    );
    reveal_strlit("\")\n\t(paper \"A4\")");
    reveal_strlit("version");
    reveal_strlit("generator");
    reveal_strlit("generator_version");
    reveal_strlit("uuid");
    reveal_strlit("paper");
    reveal_strlit("20250610");
    reveal_strlit("konnect");
    reveal_strlit("10.0");
    reveal_strlit("A4");
    reveal_strlit("(");
    reveal_strlit(")");
    reveal_strlit(" ");
    reveal_strlit("\"");
    reveal_strlit("\t");
    reveal_strlit("\n");
    let a = "(kicad_sch\n"@ + (Seq::<char>::empty() + ("\t"@ + new_blocks(uuid)[0] + "\n"@) + ("\t"@
        + new_blocks(uuid)[1] + "\n"@) + ("\t"@ + new_blocks(uuid)[2] + "\n"@) + ("\t"@ + "("@
        + "uuid"@ + " "@ + "\""@));
    let b =
        "(kicad_sch\n\t(version 20250610)\n\t(generator \"konnect\")\n\t(generator_version \"10.0\")\n\t(uuid \""@;
    assert(a =~= b);
    let d = "\""@ + ")"@ + "\n"@ + ("\t"@ + new_blocks(uuid)[4] + "\n"@);
    let e = "\")\n\t(paper \"A4\")"@ + "\n"@;
    assert(d =~= e);
    assert(new_header(uuid) + "\n"@ =~= b + uuid + e);
    let l = "(kicad_sch\n"@ + (Seq::<char>::empty() + ("\t"@ + new_blocks(uuid)[0] + "\n"@) + ("\t"@
        + new_blocks(uuid)[1] + "\n"@) + ("\t"@ + new_blocks(uuid)[2] + "\n"@) + ("\t"@ + new_blocks(
        uuid,
    )[3] + "\n"@) + ("\t"@ + new_blocks(uuid)[4] + "\n"@));
    assert(l =~= a + uuid + d);
}

/// A new schematic is sound, so that it is a valid file with nothing in it.
#[verifier::rlimit(40)]
pub proof fn law_new_schematic_is_sound(uuid: Seq<char>)
    requires
        is_plain(uuid),
    ensures
        sound(only_header(new_header(uuid))),
{
    let h = new_header(uuid);
    let hn = header_line(h);
    let bs = all_bytes(new_blocks(uuid));
    let tab = bytes("\t"@);
    let head = bytes("(kicad_sch\n"@);
    let lines = section_lines(tab, bs, 5);
    let m = bytes(h).len() as int;
    lemma_newline();
    lemma_new_header_lines(uuid);
    lemma_new_blocks(uuid);
    lemma_root_head();
    lemma_bytes_concat(h, "\n"@);
    let hc = h + "\n"@;
    lemma_bytes_valid(hc);
    assert(hn.len() == m + 1);
    assert(hn[0] == OPEN);
    assert(skip_blank(hn, 0) == 0);
    assert forall|k: int| 1 <= k < 11 implies #[trigger] hn[k] != OPEN && hn[k] != CLOSE && hn[k]
        != QUOTE by {
        assert(hn[k] == head[k]);
    }
    assert(lex(hn, 0, 0) == outside());
    assert(lex(hn, 0, 1) == lex_step(outside(), hn[0]));
    lemma_lex_plain(hn, 0, 1, 11);
    assert(lex(hn, 0, 11) == lex(hn, 0, 1));
    assert(hn.subrange(11, 11 + lines.len() as int) =~= lines);
    assert forall|i: int| 0 <= i < 5 implies closes_at(#[trigger] bs[i], 0, bs[i].len() as int) by {
        assert(is_block(bytes(new_blocks(uuid)[i])));
    }
    lemma_lines(hn, 0, 11, tab, bs, 5, m + 1);
    lemma_children_blank(hn, 0, 1, 11, m + 1);
    assert(children_from(hn, 0, m + 1, m + 1) =~= Seq::<(int, int)>::empty());
    let ranges = line_ranges(11, tab, bs, 5);
    assert(children_from(hn, 0, 1, m + 1) =~= ranges);
    assert(hn[m] == 0x0a);
    assert(lex(hn, 0, m + 1) == lex_step(lex(hn, 0, m), hn[m]));
    lemma_lex_back(hn, 0, m, m + 1);
    assert forall|k: int| 0 < k <= m implies (#[trigger] lex(hn, 0, k)).depth > 0 by {
        if k <= 11 {
            assert(lex(hn, 0, k) == lex(hn, 0, 1));
        } else {
            assert(lex(hn, 0, k).depth >= lex(hn, 0, 11).depth);
        }
    }
    assert forall|i: int| 0 <= i < ranges.len() implies is_header(hn, (#[trigger] ranges[i]).0) by {
        assert(is_block(bytes(new_blocks(uuid)[i])));
        assert(matches_at(hn, ranges[i].0, bs[i]));
        lemma_section_moves(bs[i], hn, ranges[i].0);
    }
    // Its tag and its end.
    lemma_known_tags();
    reveal_strlit("kicad_sch");
    reveal_strlit("(kicad_sch\n");
    reveal_strlit("\n");
    assert("(kicad_sch\n"@ =~= seq!['('] + "kicad_sch"@ + "\n"@);
    lemma_new_header_text(uuid);
    let rest = hc.skip(11);
    assert(hc =~= "(kicad_sch\n"@ + rest);
    crate::undo::lemma_has_tag(hc, "kicad_sch"@, "\n"@, rest);
    reveal_strlit("\")\n\t(paper \"A4\")");
    assert(h.last() == ')');
    let p = only_header(h);
    assert(p.lib_symbols.len() == 0);
}

proof fn lemma_root_head()
    ensures
        bytes("(kicad_sch\n"@).len() == 11,
        bytes("(kicad_sch\n"@)[0] == OPEN,
        forall|k: int|
            1 <= k < 11 ==> #[trigger] bytes("(kicad_sch\n"@)[k] != OPEN && bytes("(kicad_sch\n"@)[k]
                != CLOSE && bytes("(kicad_sch\n"@)[k] != QUOTE,
{
    reveal_strlit("(kicad_sch\n");
    let t = "(kicad_sch\n"@;
    lemma_bytes_ascii(t);
    assert(t[0] == '(');
    assert forall|k: int| 1 <= k < 11 implies #[trigger] bytes(t)[k] != OPEN && bytes(t)[k] != CLOSE
        && bytes(t)[k] != QUOTE by {
        lemma_char_bytes(t[k]);
        assert(t[k] != '(' && t[k] != ')' && t[k] != '"');
        assert(bytes(t)[k] == t[k] as u8);
    }
}

/// A block added to its section keeps the section sound.
pub proof fn law_added_block_is_sound(blocks: Seq<Seq<u8>>, section: Section, b: Seq<u8>)
    requires
        all_in(blocks, section),
        is_block(b),
        section_of(b, 0) == section,
    ensures
        all_in(blocks.push(b), section),
{
    let all = blocks.push(b);
    assert forall|i: int| 0 <= i < all.len() implies is_block(#[trigger] all[i]) && section_of(all[i], 0)
        == section by {
        if i < blocks.len() {
            assert(all[i] == blocks[i]);
        }
    }
}

} // verus!
