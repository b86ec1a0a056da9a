//! The footprints of a board, as they stand in the file.

#[allow(unused_imports)]
use crate::at_node::{at_node, at_opt, parse_at, At, AtNode};
#[allow(unused_imports)]
use crate::blocks::{
    child_blocks, child_fits, child_ranges, children, find_child, read_token, tag_text, tagged_child,
    token_at, token_of, Child,
};
use crate::chars::{decimal, decimal_text, joined, join_all, texts};
#[allow(unused_imports)]
use crate::scan::{
    block_end, closes_at, cuttable, find_block_end, lemma_block_cuttable, offsets, opens, range_of,
    tag_opens, top_level_block_starts, top_level_starts, QUOTE,
};
use crate::sexp::string_opt;
#[allow(unused_imports)]
use crate::text::{boundary, byte_at, bytes, copy, lemma_ascii_boundary, lemma_bytes_ascii, put, same};
use vstd::prelude::*;
use vstd::string::*;

verus! {

// ─── Properties ──────────────────────────────────────────────────────────────

/// A `(property "Name" "Value" …)` inside a footprint.
#[derive(Debug)]
pub struct FootprintProperty {
    pub name: String,
    pub value: Option<String>,
    /// Byte range of the value exactly as written, quotes among it, so that it
    /// can be replaced without disturbing the rest of the property.
    pub value_range: Option<(usize, usize)>,
    pub at: Option<AtNode>,
}

/// A property as a value.
pub struct Prop {
    pub name: Seq<char>,
    pub value: Option<Seq<char>>,
    pub value_range: Option<(int, int)>,
    pub at: Option<At>,
}

impl FootprintProperty {
    pub open spec fn model(&self) -> Prop {
        Prop {
            name: self.name@,
            value: string_opt(self.value),
            value_range: range_of(self.value_range),
            at: at_opt(self.at),
        }
    }
}

/// The first `(at …)` directly inside the block `start..end`.
pub open spec fn nested_at(s: Seq<u8>, start: int, end: int) -> Option<At> {
    match tagged_child(s, children(s, start, end), "at"@, 0) {
        Some(p) => at_node(s, p),
        None => None,
    }
}

/// The quoted token at or after `from`.
pub open spec fn quoted_token(s: Seq<u8>, from: int, stop: int) -> Option<(Seq<char>, int, int)> {
    match token_at(s, from, stop) {
        Some((t, a, b)) => if s[a] == QUOTE {
            Some((t, a, b))
        } else {
            None
        },
        None => None,
    }
}

/// The property that the block `start..end` states: a name, a quoted value if
/// there is one, and the position of its text.
pub open spec fn property_at(s: Seq<u8>, start: int, end: int) -> Option<Prop> {
    match token_at(s, start + 9, end) {
        None => None,
        Some((name, _, name_end)) => {
            let value = quoted_token(s, name_end, end);
            Some(
                Prop {
                    name,
                    value: match value {
                        Some((v, _, _)) => Some(v),
                        None => None,
                    },
                    value_range: match value {
                        Some((_, a, b)) => Some((a, b)),
                        None => None,
                    },
                    at: nested_at(s, start, end),
                },
            )
        },
    }
}

/// A block whose tag is the ASCII word `tag` has that word after its
/// parenthesis, where text may be cut.
pub proof fn lemma_tag_stands(t: Seq<char>, start: int, end: int, tag: Seq<char>)
    requires
        closes_at(bytes(t), start, end),
        tag_text(bytes(t), start) == tag,
        vstd::utf8::is_ascii_chars(tag),
    ensures
        start + 1 + tag.len() < end,
        boundary(bytes(t), start + 1 + tag.len()),
{
    let s = bytes(t);
    lemma_block_cuttable(t, start, end);
    lemma_tag_end(t, start + 1, end - 1);
    let e = crate::blocks::tag_end(s, start + 1);
    crate::text::lemma_between_cuts(t, start + 1, e);
    lemma_bytes_ascii(tag);
    assert(bytes(tag) == s.subrange(start + 1, e));
}

/// Tag bytes end at or before the first byte that is none, and text may be cut
/// there.
proof fn lemma_tag_end(t: Seq<char>, i: int, stop: int)
    requires
        0 <= i <= stop < bytes(t).len(),
        boundary(bytes(t), i),
        bytes(t)[stop] == crate::scan::CLOSE,
    ensures
        i <= crate::blocks::tag_end(bytes(t), i) <= stop,
        boundary(bytes(t), crate::blocks::tag_end(bytes(t), i)),
    decreases stop - i,
{
    if crate::blocks::tag_byte(bytes(t)[i]) {
        lemma_ascii_boundary(t, i);
        lemma_tag_end(t, i + 1, stop);
    }
}

/// The first `(at …)` directly inside a block.
fn read_nested_at(content: &str, start: usize, end: usize) -> (r: Option<AtNode>)
    requires
        closes_at(bytes(content@), start as int, end as int),
    ensures
        at_opt(r) == nested_at(bytes(content@), start as int, end as int),
{
    let kids = child_blocks(content, start, end);
    match find_child(content, &kids, "at") {
        Some(p) => parse_at(content, p),
        None => None,
    }
}

/// The quoted token at or after `from`.
fn read_quoted(content: &str, from: usize, stop: usize) -> (r: Option<(String, usize, usize)>)
    requires
        from <= stop <= bytes(content@).len(),
        boundary(bytes(content@), from as int),
        boundary(bytes(content@), stop as int),
    ensures
        token_of(r) == quoted_token(bytes(content@), from as int, stop as int),
        match r {
            Some((_, a, b)) => from <= a < b <= stop && cuttable(bytes(content@), a as int, b as int),
            None => true,
        },
{
    match read_token(content, from, stop) {
        Some((t, a, b)) => {
            if byte_at(content, a) == QUOTE {
                Some((t, a, b))
            } else {
                None
            }
        },
        None => None,
    }
}

/// Read the `(property …)` block `start..end`.
pub fn parse_property(content: &str, start: usize, end: usize) -> (r: Option<FootprintProperty>)
    requires
        closes_at(bytes(content@), start as int, end as int),
        tag_text(bytes(content@), start as int) == "property"@,
    ensures
        match r {
            Some(p) => property_at(bytes(content@), start as int, end as int) == Some(p.model()),
            None => property_at(bytes(content@), start as int, end as int).is_none(),
        },
{
    proof {
        reveal_strlit("property");
        lemma_tag_stands(content@, start as int, end as int, "property"@);
        lemma_block_cuttable(content@, start as int, end as int);
    }
    match read_token(content, start + 9, end) {
        None => None,
        Some((name, _, name_end)) => {
            let (value, value_range) = match read_quoted(content, name_end, end) {
                Some((v, a, b)) => (Some(v), Some((a, b))),
                None => (None, None),
            };
            let at = read_nested_at(content, start, end);
            Some(FootprintProperty { name, value, value_range, at })
        },
    }
}

// ─── Footprints ──────────────────────────────────────────────────────────────

/// A top-level `(footprint …)` of a board, with the byte range it occupies.
#[derive(Debug)]
pub struct BoardFootprint {
    pub start: usize,
    pub end: usize,
    /// The `Library:Footprint` id in the block header.
    pub library_id: Option<String>,
    pub uuid: Option<String>,
    pub layer: Option<String>,
    pub reference: Option<String>,
    pub value: Option<String>,
    /// The footprint's own `(at …)`: the only thing a move changes.
    pub at: Option<AtNode>,
    pub properties: Vec<FootprintProperty>,
    /// The tag of every direct child that carries its own `(at …)`.
    pub child_at_tags: Vec<String>,
    /// Those children's `(at …)`, in the same order. These are what a rotation
    /// turns.
    pub child_ats: Vec<AtNode>,
    pub pad_count: usize,
    /// Tags of direct children whose coordinates are absolute: with any of them,
    /// the footprint cannot be moved by editing its `(at …)` alone.
    pub absolute_children: Vec<String>,
}

/// A footprint as a value.
pub struct Footprint {
    pub start: int,
    pub end: int,
    pub library_id: Option<Seq<char>>,
    pub uuid: Option<Seq<char>>,
    pub layer: Option<Seq<char>>,
    pub reference: Option<Seq<char>>,
    pub value: Option<Seq<char>>,
    pub at: Option<At>,
    pub properties: Seq<Prop>,
    pub child_at_tags: Seq<Seq<char>>,
    pub child_ats: Seq<At>,
    pub pad_count: int,
    pub absolute_children: Seq<Seq<char>>,
}

/// The values of a list of properties.
pub open spec fn props(v: Seq<FootprintProperty>) -> Seq<Prop> {
    Seq::new(v.len(), |i: int| v[i].model())
}

/// The values of a list of `(at …)` nodes.
pub open spec fn ats(v: Seq<AtNode>) -> Seq<At> {
    Seq::new(v.len(), |i: int| v[i].model())
}

/// The values of a list of footprints.
pub open spec fn footprints(v: Seq<BoardFootprint>) -> Seq<Footprint> {
    Seq::new(v.len(), |i: int| v[i].model())
}

impl BoardFootprint {
    pub open spec fn model(&self) -> Footprint {
        Footprint {
            start: self.start as int,
            end: self.end as int,
            library_id: string_opt(self.library_id),
            uuid: string_opt(self.uuid),
            layer: string_opt(self.layer),
            reference: string_opt(self.reference),
            value: string_opt(self.value),
            at: at_opt(self.at),
            properties: props(self.properties@),
            child_at_tags: texts(self.child_at_tags@),
            child_ats: ats(self.child_ats@),
            pad_count: self.pad_count as int,
            absolute_children: texts(self.absolute_children@),
        }
    }
}

/// The text of the token at or after `from`.
pub open spec fn token_text(s: Seq<u8>, from: int, stop: int) -> Option<Seq<char>> {
    match token_at(s, from, stop) {
        Some((t, _, _)) => Some(t),
        None => None,
    }
}

/// The footprint block `start..end` before any of its children is looked at.
pub open spec fn footprint_header(s: Seq<u8>, start: int, end: int) -> Footprint {
    Footprint {
        start,
        end,
        library_id: match quoted_token(s, start + 10, end) {
            Some((t, _, _)) => Some(t),
            None => None,
        },
        uuid: None,
        layer: None,
        reference: None,
        value: None,
        at: None,
        properties: Seq::empty(),
        child_at_tags: Seq::empty(),
        child_ats: Seq::empty(),
        pad_count: 0,
        absolute_children: Seq::empty(),
    }
}

/// What a `(property …)` child adds to a footprint.
pub open spec fn with_property(fp: Footprint, p: Prop, tag: Seq<char>) -> Footprint {
    Footprint {
        reference: if p.name == "Reference"@ {
            p.value
        } else {
            fp.reference
        },
        value: if p.name != "Reference"@ && p.name == "Value"@ {
            p.value
        } else {
            fp.value
        },
        child_at_tags: if p.at.is_some() {
            fp.child_at_tags.push(tag)
        } else {
            fp.child_at_tags
        },
        child_ats: if p.at.is_some() {
            fp.child_ats.push(p.at.unwrap())
        } else {
            fp.child_ats
        },
        properties: fp.properties.push(p),
        ..fp
    }
}

/// What the child block `start..end` adds to a footprint: its own position, its
/// uuid and layer, its properties, and the positions of its other children.
pub open spec fn with_child(s: Seq<u8>, fp: Footprint, start: int, end: int) -> Footprint {
    let tag = tag_text(s, start);
    if tag == "at"@ {
        Footprint { at: at_node(s, start), ..fp }
    } else if tag == "uuid"@ {
        Footprint { uuid: token_text(s, start + 5, end), ..fp }
    } else if tag == "layer"@ {
        Footprint { layer: token_text(s, start + 6, end), ..fp }
    } else if tag == "property"@ {
        match property_at(s, start, end) {
            Some(p) => with_property(fp, p, tag),
            None => fp,
        }
    } else {
        let at = nested_at(s, start, end);
        Footprint {
            pad_count: if tag == "pad"@ {
                fp.pad_count + 1
            } else {
                fp.pad_count
            },
            absolute_children: if tag == "zone"@ {
                fp.absolute_children.push(tag)
            } else {
                fp.absolute_children
            },
            child_at_tags: if at.is_some() {
                fp.child_at_tags.push(tag)
            } else {
                fp.child_at_tags
            },
            child_ats: if at.is_some() {
                fp.child_ats.push(at.unwrap())
            } else {
                fp.child_ats
            },
            ..fp
        }
    }
}

/// A footprint after its first `n` children.
pub open spec fn with_children(s: Seq<u8>, fp: Footprint, kids: Seq<(int, int)>, n: int) -> Footprint
    decreases n,
{
    if n <= 0 {
        fp
    } else {
        with_child(s, with_children(s, fp, kids, n - 1), kids[n - 1].0, kids[n - 1].1)
    }
}

/// The footprint that the block `start..end` states.
pub open spec fn footprint_at(s: Seq<u8>, start: int, end: int) -> Footprint {
    let kids = children(s, start, end);
    with_children(s, footprint_header(s, start, end), kids, kids.len() as int)
}

/// The footprints among the first `n` of the openings.
pub open spec fn footprints_of(s: Seq<u8>, starts: Seq<int>, n: int) -> Seq<Footprint>
    decreases n,
{
    if n <= 0 {
        Seq::empty()
    } else {
        match block_end(s, starts[n - 1]) {
            Some(e) => footprints_of(s, starts, n - 1).push(footprint_at(s, starts[n - 1], e)),
            None => footprints_of(s, starts, n - 1),
        }
    }
}

/// Every top-level footprint of a board, in file order.
pub open spec fn board_footprints(s: Seq<u8>) -> Seq<Footprint> {
    let starts = top_level_starts(s, bytes("footprint"@), s.len() as int);
    footprints_of(s, starts, starts.len() as int)
}

/// A fresh token read after a child's tag.
fn read_after_tag(content: &str, start: usize, skip: usize, end: usize) -> (r: Option<String>)
    requires
        closes_at(bytes(content@), start as int, end as int),
        start + skip <= end,
        boundary(bytes(content@), start + skip),
    ensures
        string_opt(r) == token_text(bytes(content@), start + skip, end as int),
{
    proof {
        lemma_block_cuttable(content@, start as int, end as int);
    }
    match read_token(content, start + skip, end) {
        Some((t, _, _)) => Some(t),
        None => None,
    }
}

impl BoardFootprint {
    /// Take in a `(property …)` child.
    fn add_property(&mut self, p: FootprintProperty, tag: &str)
        ensures
            final(self).model() == with_property(old(self).model(), p.model(), tag@),
    {
        if same(p.name.as_str(), "Reference") {
            self.reference = p.value.clone();
        } else if same(p.name.as_str(), "Value") {
            self.value = p.value.clone();
        }
        match &p.at {
            Some(at) => {
                let ghost was_tags = self.child_at_tags@;
                let ghost was_ats = self.child_ats@;
                let copy_of = at.duplicate();
                let ghost at_model = copy_of.model();
                self.child_at_tags.push(copy(tag));
                self.child_ats.push(copy_of);
                proof {
                    assert(texts(self.child_at_tags@) =~= texts(was_tags).push(tag@));
                    assert(ats(self.child_ats@) =~= ats(was_ats).push(at_model));
                }
            },
            None => {},
        }
        let ghost was = self.properties@;
        let ghost pm = p.model();
        self.properties.push(p);
        proof {
            assert(props(self.properties@) =~= props(was).push(pm));
            assert(self.model() == with_property(old(self).model(), pm, tag@));
        }
    }

    /// Take in the child block `child`.
    fn add_child(&mut self, content: &str, child: &Child)
        requires
            child_fits(bytes(content@), *child),
            old(self).pad_count < usize::MAX,
        ensures
            final(self).model() == with_child(
                bytes(content@),
                old(self).model(),
                child.start as int,
                child.end as int,
            ),
            final(self).pad_count <= old(self).pad_count + 1,
    {
        let ghost s = bytes(content@);
        let ghost was = self.model();
        let tag = child.tag.as_str();
        if same(tag, "at") {
            self.at = parse_at(content, child.start);
            assert(self.model() == (Footprint { at: at_node(s, child.start as int), ..was }));
        } else if same(tag, "uuid") {
            proof {
                reveal_strlit("uuid");
                lemma_tag_stands(content@, child.start as int, child.end as int, "uuid"@);
            }
            self.uuid = read_after_tag(content, child.start, 5, child.end);
            assert(self.model() == with_child(s, was, child.start as int, child.end as int));
        } else if same(tag, "layer") {
            proof {
                reveal_strlit("layer");
                lemma_tag_stands(content@, child.start as int, child.end as int, "layer"@);
            }
            self.layer = read_after_tag(content, child.start, 6, child.end);
            assert(self.model() == with_child(s, was, child.start as int, child.end as int));
        } else if same(tag, "property") {
            match parse_property(content, child.start, child.end) {
                Some(p) => self.add_property(p, tag),
                None => {},
            }
        } else {
            if same(tag, "pad") {
                self.pad_count = self.pad_count + 1;
            }
            if same(tag, "zone") {
                let ghost list = self.absolute_children@;
                self.absolute_children.push(copy(tag));
                assert(texts(self.absolute_children@) =~= texts(list).push(tag@));
            }
            match read_nested_at(content, child.start, child.end) {
                Some(at) => {
                    let ghost was_tags = self.child_at_tags@;
                    let ghost was_ats = self.child_ats@;
                    let ghost at_model = at.model();
                    self.child_at_tags.push(copy(tag));
                    self.child_ats.push(at);
                    proof {
                        assert(texts(self.child_at_tags@) =~= texts(was_tags).push(tag@));
                        assert(ats(self.child_ats@) =~= ats(was_ats).push(at_model));
                    }
                },
                None => {},
            }
            assert(self.model() == with_child(s, was, child.start as int, child.end as int));
        }
    }
}

/// Read the footprint block `start..end`.
fn read_footprint(content: &str, start: usize, end: usize) -> (r: BoardFootprint)
    requires
        closes_at(bytes(content@), start as int, end as int),
        start + 10 <= end,
        boundary(bytes(content@), start + 10),
    ensures
        r.model() == footprint_at(bytes(content@), start as int, end as int),
{
    let ghost s = bytes(content@);
    proof {
        lemma_block_cuttable(content@, start as int, end as int);
    }
    let library_id = match read_quoted(content, start + 10, end) {
        Some((t, _, _)) => Some(t),
        None => None,
    };
    let mut fp = BoardFootprint {
        start,
        end,
        library_id,
        uuid: None,
        layer: None,
        reference: None,
        value: None,
        at: None,
        properties: Vec::new(),
        child_at_tags: Vec::new(),
        child_ats: Vec::new(),
        pad_count: 0,
        absolute_children: Vec::new(),
    };
    let ghost header = footprint_header(s, start as int, end as int);
    proof {
        assert(props(fp.properties@) =~= Seq::<Prop>::empty());
        assert(texts(fp.child_at_tags@) =~= Seq::<Seq<char>>::empty());
        assert(ats(fp.child_ats@) =~= Seq::<At>::empty());
        assert(texts(fp.absolute_children@) =~= Seq::<Seq<char>>::empty());
        assert(fp.model() == header);
    }
    let kids = child_blocks(content, start, end);
    let ghost all = children(s, start as int, end as int);
    let mut i: usize = 0;
    while i < kids.len()
        invariant
            s == bytes(content@),
            all == child_ranges(kids@),
            i <= kids.len(),
            fp.pad_count <= i,
            forall|k: int| 0 <= k < kids.len() ==> child_fits(s, #[trigger] kids[k]),
            fp.model() == with_children(s, header, all, i as int),
        decreases kids.len() - i,
    {
        assert(child_fits(s, kids[i as int]));
        assert(all[i as int] == (kids[i as int].start as int, kids[i as int].end as int));
        fp.add_child(content, &kids[i]);
        i += 1;
    }
    fp
}

/// Every top-level `(footprint …)` on the board, in file order.
///
/// A footprint nested inside another block is part of that block's definition
/// and is not among them.
pub fn collect_footprints(content: &str) -> (r: Vec<BoardFootprint>)
    ensures
        footprints(r@) == board_footprints(bytes(content@)),
{
    let ghost s = bytes(content@);
    let starts = top_level_block_starts(content, "footprint");
    let ghost all = top_level_starts(s, bytes("footprint"@), s.len() as int);
    let mut out: Vec<BoardFootprint> = Vec::new();
    let mut i: usize = 0;
    assert(footprints(out@) =~= footprints_of(s, all, 0));
    while i < starts.len()
        invariant
            s == bytes(content@),
            all == offsets(starts@),
            i <= starts.len(),
            forall|k: int|
                0 <= k < starts.len() ==> opens(s, #[trigger] starts[k] as int) && tag_opens(
                    s,
                    starts[k] as int,
                    bytes("footprint"@),
                ),
            footprints(out@) == footprints_of(s, all, i as int),
        decreases starts.len() - i,
    {
        let p = starts[i];
        assert(all[i as int] == p);
        match find_block_end(content, p) {
            Some(e) => {
                proof {
                    reveal_strlit("footprint");
                    lemma_bytes_ascii("footprint"@);
                    lemma_block_cuttable(content@, p as int, e as int);
                    lemma_header(content@, p as int, e as int);
                }
                let fp = read_footprint(content, p, e);
                let ghost was = footprints(out@);
                let ghost m = fp.model();
                out.push(fp);
                assert(footprints(out@) =~= was.push(m));
            },
            None => {},
        }
        i += 1;
    }
    out
}

/// A `(footprint` opening is ten ASCII bytes, all before the block's end.
proof fn lemma_header(t: Seq<char>, p: int, e: int)
    requires
        tag_opens(bytes(t), p, bytes("footprint"@)),
        closes_at(bytes(t), p, e),
    ensures
        p + 10 <= e,
        boundary(bytes(t), p + 10),
{
    let s = bytes(t);
    reveal_strlit("footprint");
    lemma_bytes_ascii("footprint"@);
    assert forall|k: int| 0 <= k < 9 implies #[trigger] s[p + 1 + k] == bytes("footprint"@)[k] by {
        assert(s.subrange(p + 1, p + 10)[k] == s[p + 1 + k]);
    }
    assert(s[p + 1 + 8] == bytes("footprint"@)[8]);
    lemma_ascii_boundary(t, p + 9);
    lemma_block_cuttable(t, p, e);
    if e < p + 10 {
        let k = e - 1 - (p + 1);
        crate::scan::lemma_block_end(s, p, e);
        crate::scan::lemma_block_end_is(s, p);
        assert(s[p + 1 + k] == bytes("footprint"@)[k]);
    }
}

// ─── Naming a footprint ──────────────────────────────────────────────────────

impl Footprint {
    /// A short name for messages and reports.
    pub open spec fn label(&self) -> Seq<char> {
        match (self.reference, self.uuid) {
            (Some(r), _) => r,
            (None, Some(u)) => "uuid "@ + u,
            (None, None) => "the footprint at byte "@ + decimal(self.start as nat),
        }
    }

    /// The refusal to change a footprint without a position.
    pub open spec fn no_at_text(&self, board: Seq<char>) -> Seq<char> {
        "Refusing to change '"@ + self.label() + "' in '"@ + board
            + "': it has no readable (at x y …) of its own. Nothing was written."@
    }

    /// The refusal to move a footprint with absolute geometry.
    pub open spec fn absolute_text(&self, board: Seq<char>, what: Seq<char>) -> Seq<char> {
        "Refusing to "@ + what + " '"@ + self.label() + "' in '"@ + board
            + "': it contains a nested ("@ + joined(self.absolute_children, "), ("@)
            + ") whose points are in board coordinates, not footprint coordinates, so moving the footprint alone would leave it behind. Move this one in KiCAD. Nothing was written."@
    }
}

impl BoardFootprint {
    /// A short name for messages and reports.
    pub fn label(&self) -> (r: String)
        ensures
            r@ == self.model().label(),
    {
        match &self.reference {
            Some(t) => t.clone(),
            None => match &self.uuid {
                Some(u) => {
                    let mut out = copy("uuid ");
                    put(&mut out, u.as_str());
                    out
                },
                None => {
                    let mut out = copy("the footprint at byte ");
                    put(&mut out, decimal_text(self.start as u64).as_str());
                    out
                },
            },
        }
    }

    /// The footprint's own `(at …)`, or the reason it cannot be edited.
    pub fn require_at(&self, board: &str) -> (r: Result<&AtNode, String>)
        ensures
            match r {
                Ok(a) => self.model().at == Some(a.model()),
                Err(e) => self.model().at.is_none() && e@ == self.model().no_at_text(board@),
            },
    {
        match &self.at {
            Some(a) => Ok(a),
            None => {
                let mut out = copy("Refusing to change '");
                put(&mut out, self.label().as_str());
                put(&mut out, "' in '");
                put(&mut out, board);
                put(
                    &mut out,
                    "': it has no readable (at x y …) of its own. Nothing was written.",
                );
                Err(out)
            },
        }
    }

    /// Whether this footprint can be repositioned by editing its own `(at …)`.
    pub fn require_relative_geometry(&self, board: &str, what: &str) -> (r: Result<(), String>)
        ensures
            match r {
                Ok(()) => self.model().absolute_children.len() == 0,
                Err(e) => self.model().absolute_children.len() > 0 && e@ == self.model().absolute_text(
                    board@,
                    what@,
                ),
            },
    {
        if self.absolute_children.len() == 0 {
            return Ok(());
        }
        let mut out = copy("Refusing to ");
        put(&mut out, what);
        put(&mut out, " '");
        put(&mut out, self.label().as_str());
        put(&mut out, "' in '");
        put(&mut out, board);
        put(&mut out, "': it contains a nested (");
        put(&mut out, join_all(&self.absolute_children, "), (").as_str());
        put(
            &mut out,
            ") whose points are in board coordinates, not footprint coordinates, so moving the footprint alone would leave it behind. Move this one in KiCAD. Nothing was written.",
        );
        Err(out)
    }
}

} // verus!
