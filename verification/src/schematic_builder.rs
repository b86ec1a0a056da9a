//! A schematic in sections, written back in the order that KiCAD requires.
//!
//! The order is: header, library symbols, junctions, no-connects, wires, buses,
//! bus entries, texts, labels, symbols, and the blocks that KiCAD writes after the
//! symbols. Reading goes by blocks and strings alone, never by indentation.

#[allow(unused_imports)]
use crate::blocks::{child_blocks, child_fits, child_ranges, children};
use crate::chars::{trim_back, trim_front};
use crate::ident::{is_uuid, new_uuid};
#[allow(unused_imports)]
use crate::library::{bytes_all, symbol_header_at, symbol_name};
#[allow(unused_imports)]
use crate::scan::{
    block_end, check_document, closes_at, document_fault, find_block_end, lemma_block_cuttable,
    skip_blank, skip_blanks, tag_opens, tag_opens_at, DocumentError, OPEN,
};
#[allow(unused_imports)]
use crate::text::{
    bytes, copy, find_byte, first_byte, lemma_ascii_boundary, lemma_bytes_injective, lemma_ends,
    lemma_first_byte, put, same, slice, text_of,
};
use vstd::prelude::*;
use vstd::string::*;

verus! {

// ─── Sections ────────────────────────────────────────────────────────────────

/// The section that a block of the schematic's body goes to.
#[derive(Clone, Copy, Debug, PartialEq, Eq, Structural)]
pub enum Section {
    LibSymbols,
    Junction,
    NoConnect,
    Wire,
    Bus,
    BusEntry,
    Text,
    Label,
    Symbol,
    Trailing,
}

/// The block at `p` has the tag.
pub open spec fn tagged(s: Seq<u8>, p: int, tag: Seq<char>) -> bool {
    tag_opens(s, p, bytes(tag))
}

/// The block at `p` belongs to the schematic's header.
pub open spec fn is_header(s: Seq<u8>, p: int) -> bool {
    tagged(s, p, "version"@) || tagged(s, p, "generator"@) || tagged(s, p, "generator_version"@)
        || tagged(s, p, "uuid"@) || tagged(s, p, "paper"@) || tagged(s, p, "title_block"@)
}

/// The section that the block at `p` goes to. What is not known goes to the texts,
/// so that nothing is lost.
pub open spec fn section_of(s: Seq<u8>, p: int) -> Section {
    if tagged(s, p, "lib_symbols"@) {
        Section::LibSymbols
    } else if tagged(s, p, "junction"@) {
        Section::Junction
    } else if tagged(s, p, "no_connect"@) {
        Section::NoConnect
    } else if tagged(s, p, "wire"@) {
        Section::Wire
    } else if tagged(s, p, "bus"@) {
        Section::Bus
    } else if tagged(s, p, "bus_entry"@) {
        Section::BusEntry
    } else if tagged(s, p, "text"@) {
        Section::Text
    } else if tagged(s, p, "net_label"@) || tagged(s, p, "global_label"@) || tagged(
        s,
        p,
        "hierarchical_label"@,
    ) || tagged(s, p, "label"@) {
        Section::Label
    } else if tagged(s, p, "symbol"@) {
        Section::Symbol
    } else if tagged(s, p, "sheet_instances"@) || tagged(s, p, "symbol_instances"@) || tagged(
        s,
        p,
        "embedded_fonts"@,
    ) {
        Section::Trailing
    } else {
        Section::Text
    }
}

fn in_header(content: &str, p: usize) -> (r: bool)
    ensures
        r == is_header(bytes(content@), p as int),
{
    tag_opens_at(content, p, "version") || tag_opens_at(content, p, "generator") || tag_opens_at(
        content,
        p,
        "generator_version",
    ) || tag_opens_at(content, p, "uuid") || tag_opens_at(content, p, "paper") || tag_opens_at(
        content,
        p,
        "title_block",
    )
}

/// The section that the block at `p` goes to.
pub fn find_section(content: &str, p: usize) -> (r: Section)
    ensures
        r == section_of(bytes(content@), p as int),
{
    if tag_opens_at(content, p, "lib_symbols") {
        Section::LibSymbols
    } else if tag_opens_at(content, p, "junction") {
        Section::Junction
    } else if tag_opens_at(content, p, "no_connect") {
        Section::NoConnect
    } else if tag_opens_at(content, p, "wire") {
        Section::Wire
    } else if tag_opens_at(content, p, "bus") {
        Section::Bus
    } else if tag_opens_at(content, p, "bus_entry") {
        Section::BusEntry
    } else if tag_opens_at(content, p, "text") {
        Section::Text
    } else if tag_opens_at(content, p, "net_label") || tag_opens_at(content, p, "global_label")
        || tag_opens_at(content, p, "hierarchical_label") || tag_opens_at(content, p, "label") {
        Section::Label
    } else if tag_opens_at(content, p, "symbol") {
        Section::Symbol
    } else if tag_opens_at(content, p, "sheet_instances") || tag_opens_at(
        content,
        p,
        "symbol_instances",
    ) || tag_opens_at(content, p, "embedded_fonts") {
        Section::Trailing
    } else {
        Section::Text
    }
}

// ─── The parts of a schematic ────────────────────────────────────────────────

/// A schematic in sections, as values.
#[verifier::ext_equal]
pub struct Parts {
    pub header: Seq<char>,
    pub lib_symbols: Seq<Seq<u8>>,
    pub junctions: Seq<Seq<u8>>,
    pub no_connects: Seq<Seq<u8>>,
    pub wires: Seq<Seq<u8>>,
    pub buses: Seq<Seq<u8>>,
    pub bus_entries: Seq<Seq<u8>>,
    pub texts: Seq<Seq<u8>>,
    pub labels: Seq<Seq<u8>>,
    pub symbols: Seq<Seq<u8>>,
    pub trailing: Seq<Seq<u8>>,
}

/// The first block from `k` on that does not belong to the header.
pub open spec fn first_body(s: Seq<u8>, kids: Seq<(int, int)>, k: int) -> int
    decreases kids.len() - k,
{
    if k < 0 || k >= kids.len() {
        kids.len() as int
    } else if is_header(s, kids[k].0) {
        first_body(s, kids, k + 1)
    } else {
        k
    }
}

/// The texts of the blocks `from..n` that go to the section, in order.
pub open spec fn section_blocks(
    s: Seq<u8>,
    kids: Seq<(int, int)>,
    section: Section,
    from: int,
    n: int,
) -> Seq<Seq<u8>>
    decreases n - from,
{
    if n <= from {
        Seq::empty()
    } else {
        let before = section_blocks(s, kids, section, from, n - 1);
        let c = kids[n - 1];
        if section_of(s, c.0) == section {
            before.push(s.subrange(c.0, c.1))
        } else {
            before
        }
    }
}

/// The texts of blocks.
pub open spec fn block_texts(s: Seq<u8>, kids: Seq<(int, int)>) -> Seq<Seq<u8>> {
    Seq::new(kids.len(), |i: int| s.subrange(kids[i].0, kids[i].1))
}

/// The library symbols in the blocks `from..n`, in order.
pub open spec fn library_blocks(s: Seq<u8>, kids: Seq<(int, int)>, from: int, n: int) -> Seq<Seq<u8>>
    decreases n - from,
{
    if n <= from {
        Seq::empty()
    } else {
        let before = library_blocks(s, kids, from, n - 1);
        let c = kids[n - 1];
        if section_of(s, c.0) == Section::LibSymbols {
            before + block_texts(s, children(s, c.0, c.1))
        } else {
            before
        }
    }
}

/// The header: everything before the first block of the body, or before the end of
/// the root where there is none, without the white space at its end.
pub open spec fn header_of(s: Seq<u8>, kids: Seq<(int, int)>, root_end: int) -> Seq<char> {
    let k = first_body(s, kids, 0);
    let end = if k < kids.len() {
        kids[k].0
    } else {
        root_end - 1
    };
    trim_back(text_of(s.subrange(0, end)))
}

/// The sections of a schematic whose root spans `root..end`.
pub open spec fn parts_of(s: Seq<u8>, root: int, end: int) -> Parts {
    let kids = children(s, root, end);
    let k = first_body(s, kids, 0);
    let n = kids.len() as int;
    Parts {
        header: header_of(s, kids, end),
        lib_symbols: library_blocks(s, kids, k, n),
        junctions: section_blocks(s, kids, Section::Junction, k, n),
        no_connects: section_blocks(s, kids, Section::NoConnect, k, n),
        wires: section_blocks(s, kids, Section::Wire, k, n),
        buses: section_blocks(s, kids, Section::Bus, k, n),
        bus_entries: section_blocks(s, kids, Section::BusEntry, k, n),
        texts: section_blocks(s, kids, Section::Text, k, n),
        labels: section_blocks(s, kids, Section::Label, k, n),
        symbols: section_blocks(s, kids, Section::Symbol, k, n),
        trailing: section_blocks(s, kids, Section::Trailing, k, n),
    }
}

/// The sections of a schematic, or what is wrong with it as a document.
pub open spec fn parsed(s: Seq<u8>) -> Result<Parts, DocumentError> {
    match document_fault(s, bytes("kicad_sch"@)) {
        Some(e) => Err(e),
        None => {
            let root = skip_blank(s, 0);
            Ok(parts_of(s, root, block_end(s, root).unwrap()))
        },
    }
}

/// The lines of a section: each block on a line of its own, after `indent`.
pub open spec fn section_lines(indent: Seq<u8>, blocks: Seq<Seq<u8>>, n: int) -> Seq<u8>
    decreases n,
{
    if n <= 0 {
        Seq::empty()
    } else {
        section_lines(indent, blocks, n - 1) + indent + blocks[n - 1] + bytes("\n"@)
    }
}

/// A section of the body.
pub open spec fn body_lines(blocks: Seq<Seq<u8>>) -> Seq<u8> {
    section_lines(bytes("\t"@), blocks, blocks.len() as int)
}

/// The schematic as a file: its sections in the order that KiCAD requires.
pub open spec fn file_of(p: Parts) -> Seq<u8> {
    bytes(trim_back(p.header)) + bytes("\n"@) + bytes("\t(lib_symbols\n"@) + section_lines(
        bytes("\t\t"@),
        p.lib_symbols,
        p.lib_symbols.len() as int,
    ) + bytes("\t)\n"@) + body_lines(p.junctions) + body_lines(p.no_connects) + body_lines(p.wires)
        + body_lines(p.buses) + body_lines(p.bus_entries) + body_lines(p.texts) + body_lines(p.labels)
        + body_lines(p.symbols) + body_lines(p.trailing) + bytes(")\n"@)
}

// ─── The builder ─────────────────────────────────────────────────────────────

/// Structured representation of a schematic file. Each section holds raw blocks
/// that are written in order.
#[derive(Debug)]
pub struct SchematicBuilder {
    /// Everything before the body: version, generator, uuid, paper, title block.
    pub header: String,
    /// What is inside `(lib_symbols …)`: a `(symbol "Lib:Name" …)` block each.
    pub lib_symbols: Vec<String>,
    /// Junction dots.
    pub junctions: Vec<String>,
    /// No-connect flags.
    pub no_connects: Vec<String>,
    /// Wire segments.
    pub wires: Vec<String>,
    /// Bus segments.
    pub buses: Vec<String>,
    /// Bus entry points.
    pub bus_entries: Vec<String>,
    /// Text annotations.
    pub texts: Vec<String>,
    /// Labels of nets, global and hierarchical ones included.
    pub labels: Vec<String>,
    /// Placed symbols.
    pub symbols: Vec<String>,
    /// Blocks that KiCAD writes after the symbols.
    pub trailing: Vec<String>,
}

/// The header of a new schematic.
pub open spec fn new_header(uuid: Seq<char>) -> Seq<char> {
    "(kicad_sch\n\t(version 20250610)\n\t(generator \"konnect\")\n\t(generator_version \"10.0\")\n\t(uuid \""@
        + uuid + "\")\n\t(paper \"A4\")"@
}

/// A schematic with nothing but a header.
pub open spec fn only_header(header: Seq<char>) -> Parts {
    Parts {
        header,
        lib_symbols: Seq::empty(),
        junctions: Seq::empty(),
        no_connects: Seq::empty(),
        wires: Seq::empty(),
        buses: Seq::empty(),
        bus_entries: Seq::empty(),
        texts: Seq::empty(),
        labels: Seq::empty(),
        symbols: Seq::empty(),
        trailing: Seq::empty(),
    }
}

/// A block with the white space around it taken away.
pub open spec fn trimmed(t: Seq<char>) -> Seq<u8> {
    bytes(trim_back(trim_front(t)))
}

/// The name in the header of a definition, as it stands there. The names of its units
/// are not looked at.
pub open spec fn defined_name(d: Seq<u8>) -> Option<Seq<u8>> {
    match first_byte(d, OPEN, 0) {
        None => None,
        Some(p) => match symbol_name(d, p) {
            None => None,
            Some((a, b)) => Some(d.subrange(a, b)),
        },
    }
}

/// A library symbol with the name is there.
pub open spec fn has_symbol(blocks: Seq<Seq<u8>>, name: Seq<u8>) -> bool {
    exists|i: int| 0 <= i < blocks.len() && defined_name(#[trigger] blocks[i]) == Some(name)
}

/// The library symbols with a definition added, unless one of that name is there.
pub open spec fn with_symbol(blocks: Seq<Seq<u8>>, d: Seq<u8>) -> Seq<Seq<u8>> {
    match defined_name(d) {
        Some(name) => if has_symbol(blocks, name) {
            blocks
        } else {
            blocks.push(d)
        },
        None => blocks.push(d),
    }
}

/// A definition is added once: adding it again changes nothing.
pub proof fn law_symbol_is_added_once(blocks: Seq<Seq<u8>>, d: Seq<u8>)
    requires
        defined_name(d).is_some(),
    ensures
        has_symbol(with_symbol(blocks, d), defined_name(d).unwrap()),
        with_symbol(with_symbol(blocks, d), d) == with_symbol(blocks, d),
{
    let name = defined_name(d).unwrap();
    if !has_symbol(blocks, name) {
        assert(defined_name(blocks.push(d)[blocks.len() as int]) == Some(name));
    }
}

/// Read the name in the header of a definition.
fn find_defined_name(definition: &str) -> (r: Option<&str>)
    ensures
        match r {
            Some(t) => defined_name(bytes(definition@)) == Some(bytes(t@)),
            None => defined_name(bytes(definition@)).is_none(),
        },
{
    match find_byte(definition, OPEN, 0) {
        None => None,
        Some(p) => {
            proof {
                lemma_first_byte(bytes(definition@), OPEN, 0);
            }
            match symbol_header_at(definition, p) {
                None => None,
                Some((a, b)) => Some(slice(definition, a, b)),
            }
        },
    }
}

fn push_block(v: &mut Vec<String>, t: &str)
    ensures
        bytes_all(final(v)@) == bytes_all(old(v)@).push(bytes(t@)),
{
    let ghost was = bytes_all(v@);
    v.push(copy(t));
    assert(bytes_all(v@) =~= was.push(bytes(t@)));
}

impl SchematicBuilder {
    /// The sections as values.
    pub open spec fn parts(&self) -> Parts {
        Parts {
            header: self.header@,
            lib_symbols: bytes_all(self.lib_symbols@),
            junctions: bytes_all(self.junctions@),
            no_connects: bytes_all(self.no_connects@),
            wires: bytes_all(self.wires@),
            buses: bytes_all(self.buses@),
            bus_entries: bytes_all(self.bus_entries@),
            texts: bytes_all(self.texts@),
            labels: bytes_all(self.labels@),
            symbols: bytes_all(self.symbols@),
            trailing: bytes_all(self.trailing@),
        }
    }

    fn with_header(header: String) -> (r: SchematicBuilder)
        ensures
            r.parts() == only_header(header@),
    {
        let r = SchematicBuilder {
            header,
            lib_symbols: Vec::new(),
            junctions: Vec::new(),
            no_connects: Vec::new(),
            wires: Vec::new(),
            buses: Vec::new(),
            bus_entries: Vec::new(),
            texts: Vec::new(),
            labels: Vec::new(),
            symbols: Vec::new(),
            trailing: Vec::new(),
        };
        assert(r.parts() =~= only_header(header@));
        r
    }

    /// Create an empty schematic with a KiCAD 10 header and a fresh uuid.
    pub fn new() -> (r: SchematicBuilder)
        ensures
            exists|u: Seq<char>| is_uuid(u) && r.parts() == #[trigger] only_header(new_header(u)),
    {
        let uuid = new_uuid();
        let mut header = copy(
            "(kicad_sch\n\t(version 20250610)\n\t(generator \"konnect\")\n\t(generator_version \"10.0\")\n\t(uuid \"",
        );
        put(&mut header, uuid.as_str());
        put(&mut header, "\")\n\t(paper \"A4\")");
        assert(header@ == new_header(uuid@));
        SchematicBuilder::with_header(header)
    }

    fn file_block(&mut self, section: Section, t: &str)
        requires
            section != Section::LibSymbols,
        ensures
            final(self).parts().header == old(self).parts().header,
            final(self).parts().lib_symbols == old(self).parts().lib_symbols,
            final(self).parts().junctions == filed(
                old(self).parts().junctions,
                section == Section::Junction,
                bytes(t@),
            ),
            final(self).parts().no_connects == filed(
                old(self).parts().no_connects,
                section == Section::NoConnect,
                bytes(t@),
            ),
            final(self).parts().wires == filed(
                old(self).parts().wires,
                section == Section::Wire,
                bytes(t@),
            ),
            final(self).parts().buses == filed(
                old(self).parts().buses,
                section == Section::Bus,
                bytes(t@),
            ),
            final(self).parts().bus_entries == filed(
                old(self).parts().bus_entries,
                section == Section::BusEntry,
                bytes(t@),
            ),
            final(self).parts().texts == filed(
                old(self).parts().texts,
                section == Section::Text,
                bytes(t@),
            ),
            final(self).parts().labels == filed(
                old(self).parts().labels,
                section == Section::Label,
                bytes(t@),
            ),
            final(self).parts().symbols == filed(
                old(self).parts().symbols,
                section == Section::Symbol,
                bytes(t@),
            ),
            final(self).parts().trailing == filed(
                old(self).parts().trailing,
                section == Section::Trailing,
                bytes(t@),
            ),
    {
        match section {
            Section::Junction => push_block(&mut self.junctions, t),
            Section::NoConnect => push_block(&mut self.no_connects, t),
            Section::Wire => push_block(&mut self.wires, t),
            Section::Bus => push_block(&mut self.buses, t),
            Section::BusEntry => push_block(&mut self.bus_entries, t),
            Section::Text => push_block(&mut self.texts, t),
            Section::Label => push_block(&mut self.labels, t),
            Section::Symbol => push_block(&mut self.symbols, t),
            Section::Trailing => push_block(&mut self.trailing, t),
            Section::LibSymbols => {},
        }
    }

    fn file_library(&mut self, content: &str, start: usize, end: usize)
        requires
            closes_at(bytes(content@), start as int, end as int),
        ensures
            final(self).parts() == (Parts {
                lib_symbols: old(self).parts().lib_symbols + block_texts(
                    bytes(content@),
                    children(bytes(content@), start as int, end as int),
                ),
                ..old(self).parts()
            }),
    {
        let ghost s = bytes(content@);
        let kids = child_blocks(content, start, end);
        let ghost all = child_ranges(kids@);
        let ghost texts = block_texts(s, all);
        let ghost was = self.parts();
        let mut i: usize = 0;
        assert(was.lib_symbols + texts.take(0) =~= was.lib_symbols);
        assert(self.parts() =~= (Parts { lib_symbols: was.lib_symbols + texts.take(0), ..was }));
        while i < kids.len()
            invariant
                i <= kids.len(),
                s == bytes(content@),
                all == child_ranges(kids@),
                texts == block_texts(s, all),
                forall|k: int| 0 <= k < kids.len() ==> child_fits(s, #[trigger] kids[k]),
                self.parts() == (Parts {
                    lib_symbols: was.lib_symbols + texts.take(i as int),
                    ..was
                }),
            decreases kids.len() - i,
        {
            let c = &kids[i];
            proof {
                assert(child_fits(s, *c));
                assert(all[i as int] == (c.start as int, c.end as int));
                lemma_block_cuttable(content@, c.start as int, c.end as int);
            }
            let block = slice(content, c.start, c.end);
            push_block(&mut self.lib_symbols, block);
            proof {
                assert(texts.take(i + 1) =~= texts.take(i as int).push(texts[i as int]));
                assert(was.lib_symbols + texts.take(i + 1) =~= (was.lib_symbols + texts.take(
                    i as int,
                )).push(bytes(block@)));
                assert(self.parts() =~= (Parts {
                    lib_symbols: was.lib_symbols + texts.take(i + 1),
                    ..was
                }));
            }
            i += 1;
        }
        assert(texts.take(kids.len() as int) =~= texts);
    }

    /// Parse a schematic into its sections, whatever its indentation.
    ///
    /// Refuses what is not one balanced `(kicad_sch …)` block: a truncated file
    /// must not become a valid but empty schematic.
    pub fn parse(content: &str) -> (r: Result<SchematicBuilder, DocumentError>)
        ensures
            match parsed(bytes(content@)) {
                Err(e) => r is Err && r->Err_0 == e,
                Ok(p) => r is Ok && r->Ok_0.parts() == p,
            },
    {
        let ghost s = bytes(content@);
        match check_document(content, "kicad_sch") {
            Err(e) => {
                return Err(e);
            },
            Ok(()) => {},
        }
        let root = skip_blanks(content, 0);
        let end = match find_block_end(content, root) {
            None => {
                return Err(DocumentError::Unbalanced);
            },
            Some(e) => e,
        };
        let kids = child_blocks(content, root, end);
        let ghost all = child_ranges(kids@);
        let n = kids.len();
        let mut k: usize = 0;
        while k < n && in_header(content, kids[k].start)
            invariant
                n == kids.len(),
                k <= n,
                s == bytes(content@),
                all == child_ranges(kids@),
                first_body(s, all, 0) == first_body(s, all, k as int),
            decreases n - k,
        {
            assert(all[k as int].0 == kids[k as int].start);
            k += 1;
        }
        proof {
            if k < n {
                assert(all[k as int].0 == kids[k as int].start);
                assert(child_fits(s, kids[k as int]));
                lemma_ascii_boundary(content@, kids[k as int].start as int);
            }
            lemma_block_cuttable(content@, root as int, end as int);
            lemma_ends(content@);
        }
        let header_end: usize = if k < n {
            kids[k].start
        } else {
            end - 1
        };
        let header = copy(slice(content, 0, header_end).trim_end());
        let mut builder = SchematicBuilder::with_header(header);
        let ghost head = header_of(s, all, end as int);
        let first: usize = k;
        while k < n
            invariant
                n == kids.len(),
                first <= k <= n,
                s == bytes(content@),
                all == child_ranges(kids@),
                forall|i: int| 0 <= i < kids.len() ==> child_fits(s, #[trigger] kids[i]),
                builder.parts().header == head,
                builder.parts().lib_symbols == library_blocks(s, all, first as int, k as int),
                builder.parts().junctions == section_blocks(
                    s,
                    all,
                    Section::Junction,
                    first as int,
                    k as int,
                ),
                builder.parts().no_connects == section_blocks(
                    s,
                    all,
                    Section::NoConnect,
                    first as int,
                    k as int,
                ),
                builder.parts().wires == section_blocks(
                    s,
                    all,
                    Section::Wire,
                    first as int,
                    k as int,
                ),
                builder.parts().buses == section_blocks(s, all, Section::Bus, first as int, k as int),
                builder.parts().bus_entries == section_blocks(
                    s,
                    all,
                    Section::BusEntry,
                    first as int,
                    k as int,
                ),
                builder.parts().texts == section_blocks(
                    s,
                    all,
                    Section::Text,
                    first as int,
                    k as int,
                ),
                builder.parts().labels == section_blocks(
                    s,
                    all,
                    Section::Label,
                    first as int,
                    k as int,
                ),
                builder.parts().symbols == section_blocks(
                    s,
                    all,
                    Section::Symbol,
                    first as int,
                    k as int,
                ),
                builder.parts().trailing == section_blocks(
                    s,
                    all,
                    Section::Trailing,
                    first as int,
                    k as int,
                ),
            decreases n - k,
        {
            let c = &kids[k];
            proof {
                assert(child_fits(s, *c));
                assert(all[k as int] == (c.start as int, c.end as int));
                lemma_block_cuttable(content@, c.start as int, c.end as int);
            }
            let section = find_section(content, c.start);
            if section == Section::LibSymbols {
                builder.file_library(content, c.start, c.end);
            } else {
                builder.file_block(section, slice(content, c.start, c.end));
            }
            k += 1;
        }
        proof {
            assert(builder.parts() =~= parts_of(s, root as int, end as int));
        }
        Ok(builder)
    }

    /// Add the definition of a library symbol, unless one of its name is there.
    pub fn add_lib_symbol(&mut self, definition: &str)
        ensures
            final(self).parts() == (Parts {
                lib_symbols: with_symbol(old(self).parts().lib_symbols, bytes(definition@)),
                ..old(self).parts()
            }),
    {
        let ghost d = bytes(definition@);
        match find_defined_name(definition) {
            Some(name) => {
                if self.holds_symbol(name) {
                    assert(self.parts() =~= old(self).parts());
                    return;
                }
            },
            None => {},
        }
        push_block(&mut self.lib_symbols, definition);
        assert(final(self).parts() =~= (Parts {
            lib_symbols: with_symbol(old(self).parts().lib_symbols, d),
            ..old(self).parts()
        }));
    }

    fn holds_symbol(&self, name: &str) -> (r: bool)
        ensures
            r == has_symbol(self.parts().lib_symbols, bytes(name@)),
    {
        let ghost all = bytes_all(self.lib_symbols@);
        let mut i: usize = 0;
        while i < self.lib_symbols.len()
            invariant
                i <= self.lib_symbols.len(),
                all == bytes_all(self.lib_symbols@),
                forall|k: int| 0 <= k < i ==> defined_name(#[trigger] all[k]) != Some(bytes(name@)),
            decreases self.lib_symbols.len() - i,
        {
            assert(all[i as int] == bytes(self.lib_symbols[i as int]@));
            match find_defined_name(self.lib_symbols[i].as_str()) {
                Some(t) => {
                    if same(t, name) {
                        assert(defined_name(self.parts().lib_symbols[i as int]) == Some(bytes(name@)));
                        return true;
                    }
                    proof {
                        if bytes(t@) == bytes(name@) {
                            lemma_bytes_injective(t@, name@);
                        }
                    }
                },
                None => {},
            }
            i += 1;
        }
        false
    }

    /// Add a wire segment.
    pub fn add_wire(&mut self, sexp: &str)
        ensures
            final(self).parts() == (Parts {
                wires: old(self).parts().wires.push(trimmed(sexp@)),
                ..old(self).parts()
            }),
    {
        push_block(&mut self.wires, sexp.trim());
    }

    /// Add a junction.
    pub fn add_junction(&mut self, sexp: &str)
        ensures
            final(self).parts() == (Parts {
                junctions: old(self).parts().junctions.push(trimmed(sexp@)),
                ..old(self).parts()
            }),
    {
        push_block(&mut self.junctions, sexp.trim());
    }

    /// Add a no-connect flag.
    pub fn add_no_connect(&mut self, sexp: &str)
        ensures
            final(self).parts() == (Parts {
                no_connects: old(self).parts().no_connects.push(trimmed(sexp@)),
                ..old(self).parts()
            }),
    {
        push_block(&mut self.no_connects, sexp.trim());
    }

    /// Add a label.
    pub fn add_label(&mut self, sexp: &str)
        ensures
            final(self).parts() == (Parts {
                labels: old(self).parts().labels.push(trimmed(sexp@)),
                ..old(self).parts()
            }),
    {
        push_block(&mut self.labels, sexp.trim());
    }

    /// Add a text annotation.
    pub fn add_text(&mut self, sexp: &str)
        ensures
            final(self).parts() == (Parts {
                texts: old(self).parts().texts.push(trimmed(sexp@)),
                ..old(self).parts()
            }),
    {
        push_block(&mut self.texts, sexp.trim());
    }

    /// Add a placed symbol.
    pub fn add_symbol(&mut self, sexp: &str)
        ensures
            final(self).parts() == (Parts {
                symbols: old(self).parts().symbols.push(trimmed(sexp@)),
                ..old(self).parts()
            }),
    {
        push_block(&mut self.symbols, sexp.trim());
    }

    /// Write the sections in the order that KiCAD requires.
    pub fn to_string(&self) -> (r: String)
        ensures
            bytes(r@) == file_of(self.parts()),
    {
        let mut out = copy(self.header.trim_end());
        put(&mut out, "\n");
        put(&mut out, "\t(lib_symbols\n");
        put_section(&mut out, "\t\t", &self.lib_symbols);
        put(&mut out, "\t)\n");
        put_section(&mut out, "\t", &self.junctions);
        put_section(&mut out, "\t", &self.no_connects);
        put_section(&mut out, "\t", &self.wires);
        put_section(&mut out, "\t", &self.buses);
        put_section(&mut out, "\t", &self.bus_entries);
        put_section(&mut out, "\t", &self.texts);
        put_section(&mut out, "\t", &self.labels);
        put_section(&mut out, "\t", &self.symbols);
        put_section(&mut out, "\t", &self.trailing);
        put(&mut out, ")\n");
        out
    }
}

/// A section with a block more, where it goes there.
pub open spec fn filed(blocks: Seq<Seq<u8>>, here: bool, b: Seq<u8>) -> Seq<Seq<u8>> {
    if here {
        blocks.push(b)
    } else {
        blocks
    }
}

fn put_section(out: &mut String, indent: &str, blocks: &Vec<String>)
    ensures
        bytes(final(out)@) == bytes(old(out)@) + section_lines(
            bytes(indent@),
            bytes_all(blocks@),
            blocks.len() as int,
        ),
{
    let ghost head = bytes(out@);
    let ghost all = bytes_all(blocks@);
    let mut i: usize = 0;
    assert(head + section_lines(bytes(indent@), all, 0) =~= head);
    while i < blocks.len()
        invariant
            i <= blocks.len(),
            all == bytes_all(blocks@),
            bytes(out@) == head + section_lines(bytes(indent@), all, i as int),
        decreases blocks.len() - i,
    {
        assert(all[i as int] == bytes(blocks[i as int]@));
        put(out, indent);
        put(out, blocks[i].as_str());
        put(out, "\n");
        assert(bytes(out@) =~= head + section_lines(bytes(indent@), all, i + 1));
        i += 1;
    }
}

impl Default for SchematicBuilder {
    /// An empty schematic with a KiCAD 10 header and a fresh uuid.
    fn default() -> (r: SchematicBuilder)
        ensures
            exists|u: Seq<char>| is_uuid(u) && r.parts() == #[trigger] only_header(new_header(u)),
    {
        SchematicBuilder::new()
    }
}

} // verus!
