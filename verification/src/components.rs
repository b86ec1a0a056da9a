//! Finding, moving, turning, editing and deleting the footprints of a board.

#[allow(unused_imports)]
use crate::at_node::{angles, edit_opt, Angle, NewAngle};
use crate::blocks::quoted;
use crate::board_file::{commit, committed, delete_range, delete_range_of, written};
use crate::chars::{
    decimal, decimal_text, join_all, join_first, joined, sort_names, sorted_names, texts,
};
use crate::edit::{splices, SexpEdit, Splice};
#[allow(unused_imports)]
use crate::footprint::{
    board_footprints, collect_footprints, footprints, props, BoardFootprint, Footprint,
    FootprintProperty, Prop,
};
use crate::sexp::{quoted_text, string_opt};
use crate::text::{bytes, copy, put, same, same_opt};
use vstd::prelude::*;
use vstd::string::*;

verus! {

// ─── Which footprint ─────────────────────────────────────────────────────────

/// How the caller named a footprint.
#[derive(Debug)]
pub enum ComponentKey {
    Reference(String),
    Uuid(String),
}

/// A key as a value.
pub enum Key {
    Reference(Seq<char>),
    Uuid(Seq<char>),
}

impl Key {
    /// Whether the key names the footprint.
    pub open spec fn matches(&self, fp: Footprint) -> bool {
        match self {
            Key::Reference(r) => fp.reference == Some(*r),
            Key::Uuid(u) => fp.uuid == Some(*u),
        }
    }

    /// The key in words.
    pub open spec fn describe(&self) -> Seq<char> {
        match self {
            Key::Reference(r) => "reference '"@ + *r + "'"@,
            Key::Uuid(u) => "uuid '"@ + *u + "'"@,
        }
    }
}

impl ComponentKey {
    pub open spec fn model(&self) -> Key {
        match self {
            ComponentKey::Reference(r) => Key::Reference(r@),
            ComponentKey::Uuid(u) => Key::Uuid(u@),
        }
    }

    /// Whether this key names the footprint.
    pub fn matches(&self, fp: &BoardFootprint) -> (r: bool)
        ensures
            r == self.model().matches(fp.model()),
    {
        match self {
            ComponentKey::Reference(t) => same_opt(&fp.reference, t.as_str()),
            ComponentKey::Uuid(t) => same_opt(&fp.uuid, t.as_str()),
        }
    }

    /// The key in words.
    pub fn describe(&self) -> (r: String)
        ensures
            r@ == self.model().describe(),
    {
        match self {
            ComponentKey::Reference(t) => {
                let mut out = copy("reference '");
                put(&mut out, t.as_str());
                put(&mut out, "'");
                out
            },
            ComponentKey::Uuid(t) => {
                let mut out = copy("uuid '");
                put(&mut out, t.as_str());
                put(&mut out, "'");
                out
            },
        }
    }
}

/// The key that the arguments give: a reference that is not empty, else a uuid
/// that is not empty.
pub fn component_key(reference: &Option<String>, uuid: &Option<String>) -> (r: Option<ComponentKey>)
    ensures
        match r {
            Some(ComponentKey::Reference(t)) => reference.is_some() && reference.unwrap()@ == t@
                && t@.len() > 0,
            Some(ComponentKey::Uuid(t)) => (reference.is_none() || reference.unwrap()@.len() == 0)
                && uuid.is_some() && uuid.unwrap()@ == t@ && t@.len() > 0,
            None => (reference.is_none() || reference.unwrap()@.len() == 0) && (uuid.is_none()
                || uuid.unwrap()@.len() == 0),
        },
{
    match reference {
        Some(t) => {
            if !t.as_str().is_empty() {
                return Some(ComponentKey::Reference(t.clone()));
            }
        },
        None => {},
    }
    match uuid {
        Some(t) => {
            if !t.as_str().is_empty() {
                return Some(ComponentKey::Uuid(t.clone()));
            }
        },
        None => {},
    }
    None
}

/// The first footprint from `k` on that the key names.
pub open spec fn key_index(fps: Seq<Footprint>, key: Key, k: int) -> Option<int>
    decreases fps.len() - k,
{
    if k < 0 || k >= fps.len() {
        None
    } else if key.matches(fps[k]) {
        Some(k)
    } else {
        key_index(fps, key, k + 1)
    }
}

/// The references of the first `n` footprints, those without one left out.
pub open spec fn references_of(fps: Seq<Footprint>, n: int) -> Seq<Seq<char>>
    decreases n,
{
    if n <= 0 {
        Seq::empty()
    } else {
        match fps[n - 1].reference {
            Some(r) => references_of(fps, n - 1).push(r),
            None => references_of(fps, n - 1),
        }
    }
}

/// How many references a refusal lists.
pub const REFERENCE_SAMPLE: usize = 20;

/// Why a key did not name a footprint, and what is on the board instead.
pub open spec fn unknown_component_text(fps: Seq<Footprint>, key: Key, board: Seq<char>) -> Seq<char> {
    let mistaken = match key {
        Key::Reference(r) => key_index(fps, Key::Uuid(r), 0),
        Key::Uuid(_) => None,
    };
    match mistaken {
        Some(i) => "'"@ + key->Reference_0 + "' is the uuid of footprint '"@ + (match fps[i].reference {
            Some(r) => r,
            None => "?"@,
        }) + "' on '"@ + board + "', not a reference designator. Pass it as uuid."@,
        None => {
            let refs = sort_names(references_of(fps, fps.len() as int));
            let shown = if refs.len() < REFERENCE_SAMPLE as nat {
                refs.len() as int
            } else {
                REFERENCE_SAMPLE as int
            };
            "No footprint with "@ + key.describe() + " on '"@ + board + "'. The board has "@ + decimal(
                fps.len(),
            ) + " footprint(s)"@ + (if shown == 0 {
                Seq::empty()
            } else {
                ": "@ + joined(refs.take(shown), ", "@)
            }) + (if refs.len() > shown {
                " and "@ + decimal((refs.len() - shown) as nat) + " more"@
            } else {
                Seq::empty()
            }) + ". Run get_component_list to see them all."@
        },
    }
}

/// The position of the first footprint that the key names.
fn find_key(fps: &Vec<BoardFootprint>, key: &ComponentKey) -> (r: Option<usize>)
    ensures
        match r {
            Some(i) => key_index(footprints(fps@), key.model(), 0) == Some(i as int) && i < fps.len(),
            None => key_index(footprints(fps@), key.model(), 0).is_none(),
        },
{
    let mut k: usize = 0;
    while k < fps.len()
        invariant
            k <= fps.len(),
            key_index(footprints(fps@), key.model(), 0) == key_index(
                footprints(fps@),
                key.model(),
                k as int,
            ),
        decreases fps.len() - k,
    {
        assert(footprints(fps@)[k as int] == fps[k as int].model());
        if key.matches(&fps[k]) {
            return Some(k);
        }
        k += 1;
    }
    None
}

/// The references on the board, unordered.
fn references(fps: &Vec<BoardFootprint>) -> (r: Vec<String>)
    ensures
        texts(r@) == references_of(footprints(fps@), fps.len() as int),
{
    let mut out: Vec<String> = Vec::new();
    let mut i: usize = 0;
    assert(texts(out@) =~= references_of(footprints(fps@), 0));
    while i < fps.len()
        invariant
            i <= fps.len(),
            texts(out@) == references_of(footprints(fps@), i as int),
        decreases fps.len() - i,
    {
        assert(footprints(fps@)[i as int] == fps[i as int].model());
        match &fps[i].reference {
            Some(t) => {
                let ghost was = texts(out@);
                out.push(t.clone());
                assert(texts(out@) =~= was.push(t@));
            },
            None => {},
        }
        i += 1;
    }
    out
}

/// Why a key did not name a footprint. A bare "not found" sends the caller
/// looking in the wrong place, so say what is on the board.
#[verifier::rlimit(40)]
pub fn unknown_component_message(fps: &Vec<BoardFootprint>, key: &ComponentKey, board: &str) -> (r:
    String)
    ensures
        r@ == unknown_component_text(footprints(fps@), key.model(), board@),
{
    match key {
        ComponentKey::Reference(t) => {
            let as_uuid = ComponentKey::Uuid(t.clone());
            match find_key(fps, &as_uuid) {
                Some(i) => {
                    assert(footprints(fps@)[i as int] == fps[i as int].model());
                    let mut out = copy("'");
                    put(&mut out, t.as_str());
                    put(&mut out, "' is the uuid of footprint '");
                    match &fps[i].reference {
                        Some(r) => put(&mut out, r.as_str()),
                        None => put(&mut out, "?"),
                    }
                    put(&mut out, "' on '");
                    put(&mut out, board);
                    put(&mut out, "', not a reference designator. Pass it as uuid.");
                    return out;
                },
                None => {},
            }
        },
        ComponentKey::Uuid(_) => {},
    }
    let refs = sorted_names(&references(fps));
    let shown: usize = if refs.len() < REFERENCE_SAMPLE {
        refs.len()
    } else {
        REFERENCE_SAMPLE
    };
    let mut out = copy("No footprint with ");
    put(&mut out, key.describe().as_str());
    put(&mut out, " on '");
    put(&mut out, board);
    put(&mut out, "'. The board has ");
    put(&mut out, decimal_text(fps.len() as u64).as_str());
    put(&mut out, " footprint(s)");
    let ghost mid = out@;
    if shown > 0 {
        put(&mut out, ": ");
        put(&mut out, join_first(&refs, shown, ", ").as_str());
    }
    proof {
        let part = if shown == 0 {
            Seq::<char>::empty()
        } else {
            ": "@ + joined(texts(refs@).take(shown as int), ", "@)
        };
        assert(out@ =~= mid + part);
    }
    let ghost mid2 = out@;
    if refs.len() > shown {
        put(&mut out, " and ");
        put(&mut out, decimal_text((refs.len() - shown) as u64).as_str());
        put(&mut out, " more");
    }
    proof {
        let part = if refs.len() > shown {
            " and "@ + decimal((refs.len() - shown) as nat) + " more"@
        } else {
            Seq::<char>::empty()
        };
        assert(out@ =~= mid2 + part);
    }
    put(&mut out, ". Run get_component_list to see them all.");
    out
}

/// The footprint that `key` names, or the error explaining what is on the board
/// instead.
pub open spec fn footprint_named(s: Seq<u8>, key: Key, board: Seq<char>) -> Result<
    Footprint,
    Seq<char>,
> {
    let fps = board_footprints(s);
    match key_index(fps, key, 0) {
        Some(i) => Ok(fps[i]),
        None => Err(unknown_component_text(fps, key, board)),
    }
}

/// The footprint that `key` names, or the error explaining what is on the board
/// instead. Every operation resolves its component through here, so they all
/// refuse the same way.
pub fn find_footprint(content: &str, key: &ComponentKey, board: &str) -> (r: Result<
    BoardFootprint,
    String,
>)
    ensures
        match r {
            Ok(fp) => footprint_named(bytes(content@), key.model(), board@) == Ok::<
                Footprint,
                Seq<char>,
            >(fp.model()),
            Err(e) => footprint_named(bytes(content@), key.model(), board@) == Err::<
                Footprint,
                Seq<char>,
            >(e@),
        },
{
    let mut fps = collect_footprints(content);
    match find_key(&fps, key) {
        Some(i) => {
            assert(footprints(fps@)[i as int] == fps[i as int].model());
            Ok(fps.remove(i))
        },
        None => Err(unknown_component_message(&fps, key, board)),
    }
}

/// The footprints among the first `n` on the layer; on any layer where none is
/// given.
pub open spec fn on_layer(fps: Seq<Footprint>, layer: Option<Seq<char>>, n: int) -> Seq<Footprint>
    decreases n,
{
    if n <= 0 {
        Seq::empty()
    } else if layer.is_none() || fps[n - 1].layer == layer {
        on_layer(fps, layer, n - 1).push(fps[n - 1])
    } else {
        on_layer(fps, layer, n - 1)
    }
}

/// The footprints of the board, of one layer if one is given.
pub fn component_list(content: &str, layer: &Option<String>) -> (r: Vec<BoardFootprint>)
    ensures
        footprints(r@) == on_layer(
            board_footprints(bytes(content@)),
            string_opt(*layer),
            board_footprints(bytes(content@)).len() as int,
        ),
{
    let fps = collect_footprints(content);
    let ghost all = footprints(fps@);
    let n = fps.len();
    let mut out: Vec<BoardFootprint> = Vec::new();
    let mut left = fps;
    let mut i: usize = 0;
    assert(left@ =~= fps@.skip(0));
    assert(footprints(out@) =~= on_layer(all, string_opt(*layer), 0));
    while i < n
        invariant
            i <= n,
            all == footprints(fps@),
            n == fps@.len(),
            left@ == fps@.skip(i as int),
            footprints(out@) == on_layer(all, string_opt(*layer), i as int),
        decreases n - i,
    {
        let fp = left.remove(0);
        proof {
            assert(left@ =~= fps@.skip(i + 1));
            assert(all[i as int] == fp.model());
        }
        let keep = match layer {
            None => true,
            Some(l) => same_opt(&fp.layer, l.as_str()),
        };
        if keep {
            let ghost was = footprints(out@);
            let ghost m = fp.model();
            out.push(fp);
            assert(footprints(out@) =~= was.push(m));
        }
        i += 1;
    }
    out
}

// ─── Moving ──────────────────────────────────────────────────────────────────

/// The edits of a list of optional ones.
pub open spec fn present(a: Option<Splice>) -> Seq<Splice> {
    match a {
        Some(e) => seq![e],
        None => Seq::empty(),
    }
}

/// The edits that move a footprint: only its own `(at …)` changes, since every
/// child coordinate is relative to the footprint origin. A coordinate that is
/// `None` already holds its value.
pub open spec fn move_splices(
    fp: Footprint,
    x: Option<Seq<char>>,
    y: Option<Seq<char>>,
    board: Seq<char>,
) -> Result<Seq<Splice>, Seq<char>> {
    if fp.absolute_children.len() > 0 {
        Err(fp.absolute_text(board, "move"@))
    } else {
        match fp.at {
            None => Err(fp.no_at_text(board)),
            Some(at) => Ok(present(at.token_edit(0, x)) + present(at.token_edit(1, y))),
        }
    }
}

/// A list of edits, or the reason for none, as a value.
pub open spec fn edit_list(r: Result<Vec<SexpEdit>, String>) -> Result<Seq<Splice>, Seq<char>> {
    match r {
        Ok(v) => Ok(splices(v@)),
        Err(e) => Err(e@),
    }
}

/// Add an optional edit to a list.
fn push_opt(edits: &mut Vec<SexpEdit>, e: Option<SexpEdit>)
    ensures
        splices(final(edits)@) == splices(old(edits)@) + present(edit_opt(e)),
{
    match e {
        Some(x) => {
            let ghost was = splices(edits@);
            let ghost m = x.model();
            edits.push(x);
            assert(splices(edits@) =~= was + seq![m]);
        },
        None => {
            assert(splices(edits@) =~= splices(edits@) + Seq::<Splice>::empty());
        },
    }
}

/// The edits that move `fp` to `(x, y)`.
pub fn move_edits(fp: &BoardFootprint, x: &Option<String>, y: &Option<String>, board: &str) -> (r:
    Result<Vec<SexpEdit>, String>)
    ensures
        edit_list(r) == move_splices(fp.model(), string_opt(*x), string_opt(*y), board@),
{
    match fp.require_relative_geometry(board, "move") {
        Err(e) => {
            return Err(e);
        },
        Ok(()) => {},
    }
    match fp.require_at(board) {
        Err(e) => Err(e),
        Ok(at) => {
            let mut edits: Vec<SexpEdit> = Vec::new();
            assert(splices(edits@) =~= Seq::<Splice>::empty());
            push_opt(&mut edits, at.set_token(0, x));
            push_opt(&mut edits, at.set_token(1, y));
            proof {
                let a = present(at.model().token_edit(0, string_opt(*x)));
                let b = present(at.model().token_edit(1, string_opt(*y)));
                assert(Seq::<Splice>::empty() + a + b =~= a + b);
            }
            Ok(edits)
        },
    }
}

/// What an operation with these edits on a named footprint comes to.
pub open spec fn commit_edits(
    s: Seq<u8>,
    edits: Result<Seq<Splice>, Seq<char>>,
    board: Seq<char>,
) -> Result<Seq<u8>, Seq<char>> {
    match edits {
        Ok(es) => committed(s, es, "kicad_pcb"@, board),
        Err(e) => Err(e),
    }
}

/// The board with the footprint that `key` names moved, or the reason to write
/// nothing.
pub open spec fn moved_board(
    s: Seq<u8>,
    key: Key,
    x: Option<Seq<char>>,
    y: Option<Seq<char>>,
    board: Seq<char>,
) -> Result<Seq<u8>, Seq<char>> {
    match footprint_named(s, key, board) {
        Ok(fp) => commit_edits(s, move_splices(fp, x, y, board), board),
        Err(e) => Err(e),
    }
}

/// The board with the footprint moved, or the reason to write nothing.
pub fn move_component(
    content: &str,
    key: &ComponentKey,
    x: &Option<String>,
    y: &Option<String>,
    board: &str,
) -> (r: Result<String, String>)
    ensures
        written(r) == moved_board(
            bytes(content@),
            key.model(),
            string_opt(*x),
            string_opt(*y),
            board@,
        ),
{
    match find_footprint(content, key, board) {
        Err(e) => Err(e),
        Ok(fp) => match move_edits(&fp, x, y, board) {
            Err(e) => Err(e),
            Ok(edits) => commit(content, &edits, "kicad_pcb", board),
        },
    }
}

// ─── Turning ─────────────────────────────────────────────────────────────────

/// Whether a child of this kind takes on an angle that the file omits: only the
/// kinds whose angles are in board space do.
pub open spec fn turns_without_angle(tag: Seq<char>) -> bool {
    tag == "property"@ || tag == "pad"@ || tag == "fp_text"@
}

/// The edits that turn the first `n` children.
pub open spec fn child_turns(fp: Footprint, to: Seq<Angle>, n: int) -> Seq<Splice>
    decreases n,
{
    if n <= 0 {
        Seq::empty()
    } else if fp.child_ats[n - 1].has_angle() || turns_without_angle(fp.child_at_tags[n - 1]) {
        child_turns(fp, to, n - 1) + present(fp.child_ats[n - 1].angle_edit(to[n - 1]))
    } else {
        child_turns(fp, to, n - 1)
    }
}

/// The edits that turn a footprint to `own`, and each child `(at …)` to its angle
/// in `to`; the children only where the footprint does turn.
pub open spec fn rotate_splices(
    fp: Footprint,
    own: Angle,
    turned: bool,
    to: Seq<Angle>,
    board: Seq<char>,
) -> Result<Seq<Splice>, Seq<char>> {
    if fp.absolute_children.len() > 0 {
        Err(fp.absolute_text(board, "rotate"@))
    } else {
        match fp.at {
            None => Err(fp.no_at_text(board)),
            Some(at) => Ok(
                present(at.angle_edit(own)) + (if turned {
                    child_turns(fp, to, fp.child_ats.len() as int)
                } else {
                    Seq::empty()
                }),
            ),
        }
    }
}

/// The edits that set a footprint's rotation.
///
/// The footprint's own angle becomes `own`, and every child angle becomes the one
/// in `to`, while its x and y stay exactly where they are. An explicit child
/// angle always turns; a missing one only gains a value for the kinds that carry
/// board-space angles.
pub fn rotate_edits(
    fp: &BoardFootprint,
    own: &NewAngle,
    turned: bool,
    to: &Vec<NewAngle>,
    board: &str,
) -> (r: Result<Vec<SexpEdit>, String>)
    requires
        to.len() == fp.child_ats.len(),
        fp.child_at_tags.len() == fp.child_ats.len(),
    ensures
        edit_list(r) == rotate_splices(fp.model(), own.model(), turned, angles(to@), board@),
{
    match fp.require_relative_geometry(board, "rotate") {
        Err(e) => {
            return Err(e);
        },
        Ok(()) => {},
    }
    match fp.require_at(board) {
        Err(e) => Err(e),
        Ok(at) => {
            let mut edits: Vec<SexpEdit> = Vec::new();
            assert(splices(edits@) =~= Seq::<Splice>::empty());
            push_opt(&mut edits, at.set_angle(own));
            let ghost first = present(at.model().angle_edit(own.model()));
            assert(Seq::<Splice>::empty() + first =~= first);
            if !turned {
                assert(first + Seq::<Splice>::empty() =~= first);
                return Ok(edits);
            }
            let mut i: usize = 0;
            assert(first + child_turns(fp.model(), angles(to@), 0) =~= first);
            while i < fp.child_ats.len()
                invariant
                    i <= fp.child_ats.len(),
                    to.len() == fp.child_ats.len(),
                    fp.child_at_tags.len() == fp.child_ats.len(),
                    splices(edits@) == first + child_turns(fp.model(), angles(to@), i as int),
                decreases fp.child_ats.len() - i,
            {
                let tag = fp.child_at_tags[i].as_str();
                assert(fp.model().child_at_tags[i as int] == tag@);
                assert(fp.model().child_ats[i as int] == fp.child_ats[i as int].model());
                assert(angles(to@)[i as int] == to[i as int].model());
                if fp.child_ats[i].has_angle() || same(tag, "property") || same(tag, "pad") || same(
                    tag,
                    "fp_text",
                ) {
                    let ghost turns = child_turns(fp.model(), angles(to@), i as int);
                    let ghost one = present(
                        fp.model().child_ats[i as int].angle_edit(angles(to@)[i as int]),
                    );
                    push_opt(&mut edits, fp.child_ats[i].set_angle(&to[i]));
                    assert(first + turns + one =~= first + (turns + one));
                }
                i += 1;
            }
            Ok(edits)
        },
    }
}

// ─── Deleting ────────────────────────────────────────────────────────────────

/// The edit that deletes a footprint, or the reason to refuse.
pub open spec fn delete_splices(s: Seq<u8>, fp: Footprint, board: Seq<char>) -> Result<
    Seq<Splice>,
    Seq<char>,
> {
    match delete_range_of(s, fp.start, fp.end, "footprint "@ + fp.label(), board) {
        Ok((a, b)) => Ok(seq![Splice { start: a, end: b, bytes: Seq::empty() }]),
        Err(e) => Err(e),
    }
}

/// The board without the footprint, or the reason to write nothing.
pub fn delete_component(content: &str, key: &ComponentKey, board: &str) -> (r: Result<String, String>)
    ensures
        written(r) == (match footprint_named(bytes(content@), key.model(), board@) {
            Ok(fp) => commit_edits(
                bytes(content@),
                delete_splices(bytes(content@), fp, board@),
                board@,
            ),
            Err(e) => Err(e),
        }),
{
    match find_footprint(content, key, board) {
        Err(e) => Err(e),
        Ok(fp) => {
            let mut what = copy("footprint ");
            put(&mut what, fp.label().as_str());
            match delete_range(content, fp.start, fp.end, what.as_str(), board) {
                Err(e) => Err(e),
                Ok((a, b)) => {
                    let mut edits: Vec<SexpEdit> = Vec::new();
                    edits.push(SexpEdit::delete(a, b));
                    assert(splices(edits@) =~= seq![
                        Splice { start: a as int, end: b as int, bytes: Seq::empty() },
                    ]);
                    commit(content, &edits, "kicad_pcb", board)
                },
            }
        },
    }
}

// ─── Editing properties ──────────────────────────────────────────────────────

/// A property to set and the value it is to have.
#[derive(Debug)]
pub struct Setting {
    pub name: String,
    pub value: String,
}

/// One property that an edit changes.
#[derive(Debug)]
pub struct PropertyChange {
    pub name: String,
    pub from: Option<String>,
    pub to: String,
}

/// The values of a list of settings.
pub open spec fn settings(v: Seq<Setting>) -> Seq<(Seq<char>, Seq<char>)> {
    Seq::new(v.len(), |i: int| (v[i].name@, v[i].value@))
}

/// Whether one of the first `n` properties has no text, and which comes first.
pub open spec fn first_untexted(properties: Seq<(Seq<char>, Option<Seq<char>>)>, n: int) -> Option<int>
    decreases n,
{
    if n <= 0 {
        None
    } else {
        match first_untexted(properties, n - 1) {
            Some(i) => Some(i),
            None => if properties[n - 1].1.is_none() {
                Some(n - 1)
            } else {
                None
            },
        }
    }
}

/// Named properties as values; one that is no text has none.
pub open spec fn named(v: Seq<(String, Option<String>)>) -> Seq<(Seq<char>, Option<Seq<char>>)> {
    Seq::new(v.len(), |i: int| (v[i].0@, string_opt(v[i].1)))
}

/// What a caller asks to be set: `value` stands for the property of that name and
/// comes first. A property that is no text is refused.
pub open spec fn asked_settings(
    value: Option<Seq<char>>,
    properties: Seq<(Seq<char>, Option<Seq<char>>)>,
) -> Result<Seq<(Seq<char>, Seq<char>)>, Seq<char>> {
    let own: Seq<(Seq<char>, Seq<char>)> = match value {
        Some(v) => seq![("Value"@, v)],
        None => Seq::empty(),
    };
    match first_untexted(properties, properties.len() as int) {
        Some(i) => Err(
            "Property '"@ + properties[i].0
                + "' must be a string; footprint properties are text fields."@,
        ),
        None => Ok(
            own + Seq::new(properties.len(), |i: int| (properties[i].0, properties[i].1->Some_0)),
        ),
    }
}

/// The settings that a caller asks for.
pub fn collect_settings(value: &Option<String>, properties: &Vec<(String, Option<String>)>) -> (r:
    Result<Vec<Setting>, String>)
    ensures
        match r {
            Ok(v) => asked_settings(string_opt(*value), named(properties@)) == Ok::<
                Seq<(Seq<char>, Seq<char>)>,
                Seq<char>,
            >(settings(v@)),
            Err(e) => asked_settings(string_opt(*value), named(properties@)) == Err::<
                Seq<(Seq<char>, Seq<char>)>,
                Seq<char>,
            >(e@),
        },
{
    let ghost all = named(properties@);
    let mut out: Vec<Setting> = Vec::new();
    match value {
        Some(v) => {
            out.push(Setting { name: copy("Value"), value: copy(v.as_str()) });
        },
        None => {},
    }
    let ghost own = settings(out@);
    proof {
        assert(own =~= (match string_opt(*value) {
            Some(v) => seq![("Value"@, v)],
            None => Seq::<(Seq<char>, Seq<char>)>::empty(),
        }));
        assert(own =~= own + Seq::new(0, |k: int| (all[k].0, all[k].1->Some_0)));
    }
    let mut i: usize = 0;
    while i < properties.len()
        invariant
            i <= properties.len(),
            all == named(properties@),
            first_untexted(all, i as int).is_none(),
            settings(out@) == own + Seq::new(i as nat, |k: int| (all[k].0, all[k].1->Some_0)),
        decreases properties.len() - i,
    {
        match &properties[i].1 {
            None => {
                let mut e = copy("Property '");
                put(&mut e, properties[i].0.as_str());
                put(&mut e, "' must be a string; footprint properties are text fields.");
                proof {
                    assert(first_untexted(all, i + 1) == Some(i as int));
                    lemma_untexted_stays(all, i + 1, all.len() as int);
                }
                return Err(e);
            },
            Some(v) => {
                let ghost was = settings(out@);
                out.push(Setting { name: copy(properties[i].0.as_str()), value: copy(v.as_str()) });
                proof {
                    assert(settings(out@) =~= was.push((all[i as int].0, all[i as int].1->Some_0)));
                    assert(settings(out@) =~= own + Seq::new(
                        (i + 1) as nat,
                        |k: int| (all[k].0, all[k].1->Some_0),
                    ));
                }
            },
        }
        i += 1;
    }
    Ok(out)
}

/// The first property without a text stays the first, however many follow.
proof fn lemma_untexted_stays(properties: Seq<(Seq<char>, Option<Seq<char>>)>, k: int, n: int)
    requires
        0 <= k <= n,
        first_untexted(properties, k).is_some(),
    ensures
        first_untexted(properties, n) == first_untexted(properties, k),
    decreases n - k,
{
    if k < n {
        lemma_untexted_stays(properties, k, n - 1);
    }
}

/// The values of a list of changes.
pub open spec fn changes_of(v: Seq<PropertyChange>) -> Seq<
    (Seq<char>, Option<Seq<char>>, Seq<char>),
> {
    Seq::new(v.len(), |i: int| (v[i].name@, string_opt(v[i].from), v[i].to@))
}

/// The first property from `k` on with the name.
pub open spec fn prop_index(ps: Seq<Prop>, name: Seq<char>, k: int) -> Option<int>
    decreases ps.len() - k,
{
    if k < 0 || k >= ps.len() {
        None
    } else if ps[k].name == name {
        Some(k)
    } else {
        prop_index(ps, name, k + 1)
    }
}

/// The names of properties.
pub open spec fn prop_names(ps: Seq<Prop>) -> Seq<Seq<char>> {
    Seq::new(ps.len(), |i: int| ps[i].name)
}

/// The refusal to add a property.
pub open spec fn no_property_text(fp: Footprint, name: Seq<char>) -> Seq<char> {
    "Footprint '"@ + fp.label() + "' has no property '"@ + name + "'. It has: "@ + joined(
        prop_names(fp.properties),
        ", "@,
    )
        + ". Adding a new property needs a layer and text placement that only KiCAD can choose sensibly, so nothing was written."@
}

/// The refusal to set a property without a quoted value.
pub open spec fn no_value_text(fp: Footprint, name: Seq<char>) -> Seq<char> {
    "Property '"@ + name + "' on '"@ + fp.label()
        + "' has no quoted value field to replace. Nothing was written."@
}

/// The refusal to rename a footprint on the board alone.
pub open spec fn no_rename_text(fp: Footprint) -> Seq<char> {
    "Refusing to change the Reference of '"@ + fp.label()
        + "' here: the designator lives in the schematic and PCB sync would put it back. Rename it with edit_schematic_component, then run Tools > Update PCB from Schematic. Nothing was written."@
}

/// The refusal of a request that names nothing.
pub open spec fn nothing_to_change_text() -> Seq<char> {
    "Nothing to change: pass 'value', or 'properties' as a name→value object."@
}

/// What the first `n` settings change, and the edits that do it; a property that
/// already has the value is left alone. The first setting that cannot be made
/// refuses them all.
pub open spec fn setting_steps(
    fp: Footprint,
    wanted: Seq<(Seq<char>, Seq<char>)>,
    n: int,
) -> Result<(Seq<(Seq<char>, Option<Seq<char>>, Seq<char>)>, Seq<Splice>), Seq<char>>
    decreases n,
{
    if n <= 0 {
        Ok((Seq::empty(), Seq::empty()))
    } else {
        match setting_steps(fp, wanted, n - 1) {
            Err(e) => Err(e),
            Ok((changes, edits)) => {
                let (name, value) = wanted[n - 1];
                match prop_index(fp.properties, name, 0) {
                    None => Err(no_property_text(fp, name)),
                    Some(i) => {
                        let p = fp.properties[i];
                        match p.value_range {
                            None => Err(no_value_text(fp, name)),
                            Some((a, b)) => if p.value == Some(value) {
                                Ok((changes, edits))
                            } else {
                                Ok(
                                    (
                                        changes.push((name, p.value, value)),
                                        edits.push(
                                            Splice {
                                                start: a,
                                                end: b,
                                                bytes: bytes(quoted_text(value)),
                                            },
                                        ),
                                    ),
                                )
                            },
                        }
                    },
                }
            },
        }
    }
}

/// Whether some setting names the reference.
pub open spec fn renames(wanted: Seq<(Seq<char>, Seq<char>)>) -> bool {
    exists|i: int| 0 <= i < wanted.len() && (#[trigger] wanted[i]).0 == "Reference"@
}

/// What setting properties of a footprint comes to: what changed, and the new
/// board unless nothing did.
pub open spec fn edit_outcome(
    s: Seq<u8>,
    key: Key,
    wanted: Seq<(Seq<char>, Seq<char>)>,
    board: Seq<char>,
) -> Result<(Seq<(Seq<char>, Option<Seq<char>>, Seq<char>)>, Option<Seq<u8>>), Seq<char>> {
    if wanted.len() == 0 {
        Err(nothing_to_change_text())
    } else {
        match footprint_named(s, key, board) {
            Err(e) => Err(e),
            Ok(fp) => if renames(wanted) {
                Err(no_rename_text(fp))
            } else {
                match setting_steps(fp, wanted, wanted.len() as int) {
                    Err(e) => Err(e),
                    Ok((changes, edits)) => if edits.len() == 0 {
                        Ok((changes, None))
                    } else {
                        match committed(s, edits, "kicad_pcb"@, board) {
                            Err(e) => Err(e),
                            Ok(t) => Ok((changes, Some(t))),
                        }
                    },
                }
            },
        }
    }
}

/// An edited board: what changed, and the new text unless nothing did.
#[derive(Debug)]
pub struct ComponentEdit {
    pub changed: Vec<PropertyChange>,
    pub content: Option<String>,
}

/// An optional text's bytes.
pub open spec fn bytes_opt(t: Option<String>) -> Option<Seq<u8>> {
    match t {
        Some(x) => Some(bytes(x@)),
        None => None,
    }
}

/// The first property with the name.
fn find_property(ps: &Vec<FootprintProperty>, name: &str) -> (r: Option<usize>)
    ensures
        match r {
            Some(i) => prop_index(props(ps@), name@, 0) == Some(i as int) && i < ps.len(),
            None => prop_index(props(ps@), name@, 0).is_none(),
        },
{
    let mut k: usize = 0;
    while k < ps.len()
        invariant
            k <= ps.len(),
            prop_index(props(ps@), name@, 0) == prop_index(props(ps@), name@, k as int),
        decreases ps.len() - k,
    {
        assert(props(ps@)[k as int] == ps[k as int].model());
        if same(ps[k].name.as_str(), name) {
            return Some(k);
        }
        k += 1;
    }
    None
}

/// The refusal to add a property.
fn no_property_message(fp: &BoardFootprint, name: &str) -> (r: String)
    ensures
        r@ == no_property_text(fp.model(), name@),
{
    let mut names: Vec<String> = Vec::new();
    let mut i: usize = 0;
    while i < fp.properties.len()
        invariant
            i <= fp.properties.len(),
            names.len() == i,
            forall|k: int| 0 <= k < i ==> (#[trigger] names[k])@ == fp.properties[k].name@,
        decreases fp.properties.len() - i,
    {
        names.push(fp.properties[i].name.clone());
        i += 1;
    }
    assert(texts(names@) =~= prop_names(fp.model().properties));
    let mut out = copy("Footprint '");
    put(&mut out, fp.label().as_str());
    put(&mut out, "' has no property '");
    put(&mut out, name);
    put(&mut out, "'. It has: ");
    put(&mut out, join_all(&names, ", ").as_str());
    put(
        &mut out,
        ". Adding a new property needs a layer and text placement that only KiCAD can choose sensibly, so nothing was written.",
    );
    out
}

/// Whether some setting names the reference.
fn has_rename(wanted: &Vec<Setting>) -> (r: bool)
    ensures
        r == renames(settings(wanted@)),
{
    let mut i: usize = 0;
    while i < wanted.len()
        invariant
            i <= wanted.len(),
            forall|k: int| 0 <= k < i ==> (#[trigger] settings(wanted@)[k]).0 != "Reference"@,
        decreases wanted.len() - i,
    {
        assert(settings(wanted@)[i as int] == (wanted[i as int].name@, wanted[i as int].value@));
        if same(wanted[i].name.as_str(), "Reference") {
            return true;
        }
        i += 1;
    }
    false
}

/// What the settings change and the edits that do it.
fn setting_edits(fp: &BoardFootprint, wanted: &Vec<Setting>) -> (r: Result<
    (Vec<PropertyChange>, Vec<SexpEdit>),
    String,
>)
    ensures
        match r {
            Ok((c, e)) => setting_steps(fp.model(), settings(wanted@), wanted.len() as int) == Ok::<
                (Seq<(Seq<char>, Option<Seq<char>>, Seq<char>)>, Seq<Splice>),
                Seq<char>,
            >((changes_of(c@), splices(e@))),
            Err(e) => setting_steps(fp.model(), settings(wanted@), wanted.len() as int) == Err::<
                (Seq<(Seq<char>, Option<Seq<char>>, Seq<char>)>, Seq<Splice>),
                Seq<char>,
            >(e@),
        },
{
    let ghost m = fp.model();
    let ghost ws = settings(wanted@);
    let mut changed: Vec<PropertyChange> = Vec::new();
    let mut edits: Vec<SexpEdit> = Vec::new();
    let mut n: usize = 0;
    proof {
        assert(changes_of(changed@) =~= Seq::empty());
        assert(splices(edits@) =~= Seq::<Splice>::empty());
    }
    while n < wanted.len()
        invariant
            m == fp.model(),
            ws == settings(wanted@),
            n <= wanted.len(),
            setting_steps(m, ws, n as int) == Ok::<
                (Seq<(Seq<char>, Option<Seq<char>>, Seq<char>)>, Seq<Splice>),
                Seq<char>,
            >((changes_of(changed@), splices(edits@))),
        decreases wanted.len() - n,
    {
        let name = wanted[n].name.as_str();
        let value = wanted[n].value.as_str();
        assert(ws[n as int] == (name@, value@));
        match find_property(&fp.properties, name) {
            None => {
                proof {
                    lemma_steps_stop(m, ws, n + 1, ws.len() as int);
                }
                return Err(no_property_message(fp, name));
            },
            Some(i) => {
                let p = &fp.properties[i];
                assert(m.properties[i as int] == p.model());
                match p.value_range {
                    None => {
                        proof {
                            lemma_steps_stop(m, ws, n + 1, ws.len() as int);
                        }
                        let mut out = copy("Property '");
                        put(&mut out, name);
                        put(&mut out, "' on '");
                        put(&mut out, fp.label().as_str());
                        put(&mut out, "' has no quoted value field to replace. Nothing was written.");
                        return Err(out);
                    },
                    Some((a, b)) => {
                        if !same_opt(&p.value, value) {
                            let ghost was_c = changes_of(changed@);
                            let ghost was_e = splices(edits@);
                            changed.push(
                                PropertyChange { name: copy(name), from: p.value.clone(), to: copy(value) },
                            );
                            edits.push(SexpEdit::replace(a, b, quoted(value)));
                            proof {
                                assert(changes_of(changed@) =~= was_c.push(
                                    (name@, string_opt(p.value), value@),
                                ));
                                assert(splices(edits@) =~= was_e.push(
                                    Splice {
                                        start: a as int,
                                        end: b as int,
                                        bytes: bytes(quoted_text(value@)),
                                    },
                                ));
                            }
                        }
                    },
                }
            },
        }
        n += 1;
    }
    Ok((changed, edits))
}

/// A refusal of the first settings refuses them all.
proof fn lemma_steps_stop(fp: Footprint, wanted: Seq<(Seq<char>, Seq<char>)>, k: int, n: int)
    requires
        0 <= k <= n,
        setting_steps(fp, wanted, k) is Err,
    ensures
        setting_steps(fp, wanted, n) == setting_steps(fp, wanted, k),
    decreases n - k,
{
    if k < n {
        lemma_steps_stop(fp, wanted, k, n - 1);
    }
}

/// Set properties of a footprint to new values, in place.
pub fn edit_component(
    content: &str,
    key: &ComponentKey,
    wanted: &Vec<Setting>,
    board: &str,
) -> (r: Result<ComponentEdit, String>)
    ensures
        match r {
            Ok(o) => edit_outcome(bytes(content@), key.model(), settings(wanted@), board@) == Ok::<
                (Seq<(Seq<char>, Option<Seq<char>>, Seq<char>)>, Option<Seq<u8>>),
                Seq<char>,
            >((changes_of(o.changed@), bytes_opt(o.content))),
            Err(e) => edit_outcome(bytes(content@), key.model(), settings(wanted@), board@) == Err::<
                (Seq<(Seq<char>, Option<Seq<char>>, Seq<char>)>, Option<Seq<u8>>),
                Seq<char>,
            >(e@),
        },
{
    if wanted.len() == 0 {
        return Err(copy("Nothing to change: pass 'value', or 'properties' as a name→value object."));
    }
    let fp = match find_footprint(content, key, board) {
        Err(e) => {
            return Err(e);
        },
        Ok(fp) => fp,
    };
    if has_rename(wanted) {
        let mut out = copy("Refusing to change the Reference of '");
        put(&mut out, fp.label().as_str());
        put(
            &mut out,
            "' here: the designator lives in the schematic and PCB sync would put it back. Rename it with edit_schematic_component, then run Tools > Update PCB from Schematic. Nothing was written.",
        );
        return Err(out);
    }
    match setting_edits(&fp, wanted) {
        Err(e) => Err(e),
        Ok((changed, edits)) => {
            if edits.len() == 0 {
                return Ok(ComponentEdit { changed, content: None });
            }
            match commit(content, &edits, "kicad_pcb", board) {
                Err(e) => Err(e),
                Ok(t) => Ok(ComponentEdit { changed, content: Some(t) }),
            }
        },
    }
}


// ─── Aligning ────────────────────────────────────────────────────────────────

/// Where a footprint is to go; a coordinate that is `None` already holds its
/// value.
#[derive(Debug)]
pub struct NewPosition {
    pub x: Option<String>,
    pub y: Option<String>,
}

/// The values of a list of positions.
pub open spec fn positions(v: Seq<NewPosition>) -> Seq<(Option<Seq<char>>, Option<Seq<char>>)> {
    Seq::new(v.len(), |i: int| (string_opt(v[i].x), string_opt(v[i].y)))
}

/// The footprints that the first `n` references name, or the refusal that the
/// first unknown one gives.
pub open spec fn aligned(fps: Seq<Footprint>, refs: Seq<Seq<char>>, n: int, board: Seq<char>) -> Result<
    Seq<Footprint>,
    Seq<char>,
>
    decreases n,
{
    if n <= 0 {
        Ok(Seq::empty())
    } else {
        match aligned(fps, refs, n - 1, board) {
            Err(e) => Err(e),
            Ok(found) => match key_index(fps, Key::Reference(refs[n - 1]), 0) {
                Some(i) => Ok(found.push(fps[i])),
                None => Err(
                    unknown_component_text(fps, Key::Reference(refs[n - 1]), board)
                        + " No footprint was moved."@,
                ),
            },
        }
    }
}

/// The edits that move the first `n` footprints, or the first refusal among
/// them.
pub open spec fn align_steps(
    targets: Seq<Footprint>,
    to: Seq<(Option<Seq<char>>, Option<Seq<char>>)>,
    n: int,
    board: Seq<char>,
) -> Result<Seq<Splice>, Seq<char>>
    decreases n,
{
    if n <= 0 {
        Ok(Seq::empty())
    } else {
        match align_steps(targets, to, n - 1, board) {
            Err(e) => Err(e),
            Ok(edits) => {
                let fp = targets[n - 1];
                if fp.at.is_none() {
                    Err(fp.no_at_text(board) + " No footprint was moved."@)
                } else {
                    match move_splices(fp, to[n - 1].0, to[n - 1].1, board) {
                        Err(e) => Err(e + " No footprint was moved."@),
                        Ok(more) => Ok(edits + more),
                    }
                }
            },
        }
    }
}

/// The edits that align the named footprints: all of them, or none.
pub open spec fn align_splices(
    fps: Seq<Footprint>,
    refs: Seq<Seq<char>>,
    to: Seq<(Option<Seq<char>>, Option<Seq<char>>)>,
    board: Seq<char>,
) -> Result<Seq<Splice>, Seq<char>> {
    if refs.len() == 0 {
        Err("references must be a non-empty array of reference designators."@)
    } else {
        match aligned(fps, refs, refs.len() as int, board) {
            Err(e) => Err(e),
            Ok(targets) => align_steps(targets, to, refs.len() as int, board),
        }
    }
}

/// A refusal of the first references refuses them all.
proof fn lemma_aligned_stop(fps: Seq<Footprint>, refs: Seq<Seq<char>>, k: int, n: int, board: Seq<char>)
    requires
        0 <= k <= n,
        aligned(fps, refs, k, board) is Err,
    ensures
        aligned(fps, refs, n, board) == aligned(fps, refs, k, board),
    decreases n - k,
{
    if k < n {
        lemma_aligned_stop(fps, refs, k, n - 1, board);
    }
}

/// A refusal of the first moves refuses them all.
proof fn lemma_align_stop(
    targets: Seq<Footprint>,
    to: Seq<(Option<Seq<char>>, Option<Seq<char>>)>,
    k: int,
    n: int,
    board: Seq<char>,
)
    requires
        0 <= k <= n,
        align_steps(targets, to, k, board) is Err,
    ensures
        align_steps(targets, to, n, board) == align_steps(targets, to, k, board),
    decreases n - k,
{
    if k < n {
        lemma_align_stop(targets, to, k, n - 1, board);
    }
}

/// The positions in `fps` of the named footprints. Every reference is resolved
/// before anything is moved, so that a typo in the last one does not leave the
/// first half of the row moved.
pub fn align_targets(fps: &Vec<BoardFootprint>, refs: &Vec<String>, board: &str) -> (r: Result<
    Vec<usize>,
    String,
>)
    ensures
        match r {
            Ok(found) => {
                &&& found.len() == refs.len()
                &&& forall|i: int| 0 <= i < found.len() ==> (#[trigger] found[i]) < fps.len()
                &&& aligned(footprints(fps@), texts(refs@), refs.len() as int, board@) == Ok::<
                    Seq<Footprint>,
                    Seq<char>,
                >(Seq::new(found@.len(), |i: int| fps[found[i] as int].model()))
            },
            Err(e) => aligned(footprints(fps@), texts(refs@), refs.len() as int, board@) == Err::<
                Seq<Footprint>,
                Seq<char>,
            >(e@),
        },
{
    let ghost all = footprints(fps@);
    let ghost names = texts(refs@);
    let mut found: Vec<usize> = Vec::new();
    let mut n: usize = 0;
    assert(Seq::new(found@.len(), |i: int| fps[found[i] as int].model()) =~= Seq::<Footprint>::empty());
    while n < refs.len()
        invariant
            all == footprints(fps@),
            names == texts(refs@),
            n <= refs.len(),
            found.len() == n,
            forall|i: int| 0 <= i < found.len() ==> (#[trigger] found[i]) < fps.len(),
            aligned(all, names, n as int, board@) == Ok::<Seq<Footprint>, Seq<char>>(
                Seq::new(found@.len(), |i: int| fps[found[i] as int].model()),
            ),
        decreases refs.len() - n,
    {
        assert(names[n as int] == refs[n as int]@);
        let key = ComponentKey::Reference(refs[n].clone());
        match find_key(fps, &key) {
            Some(i) => {
                let ghost was = Seq::new(found@.len(), |i: int| fps[found[i] as int].model());
                found.push(i);
                proof {
                    assert(all[i as int] == fps[i as int].model());
                    assert(Seq::new(found@.len(), |i: int| fps[found[i] as int].model())
                        =~= was.push(all[i as int]));
                }
            },
            None => {
                proof {
                    lemma_aligned_stop(all, names, n + 1, names.len() as int, board@);
                }
                let mut out = unknown_component_message(fps, &key, board);
                put(&mut out, " No footprint was moved.");
                return Err(out);
            },
        }
        n += 1;
    }
    Ok(found)
}

/// A coordinate that footprints are brought to have in common.
#[derive(Debug, Clone, Copy, PartialEq, Eq, Structural)]
pub enum Axis {
    X,
    Y,
}

/// A character in ASCII lower case; one that is no ASCII letter is itself.
pub open spec fn ascii_lower(c: char) -> char {
    if 'A' <= c && c <= 'Z' {
        (c as u32 + 32) as char
    } else {
        c
    }
}

/// A text in ASCII lower case.
pub open spec fn ascii_lowered(t: Seq<char>) -> Seq<char> {
    Seq::new(t.len(), |i: int| ascii_lower(t[i]))
}

/// `str::to_ascii_lowercase`: the letters `A` to `Z` become `a` to `z`, one for one;
/// every other character stays.
pub assume_specification[ str::to_ascii_lowercase ](t: &str) -> (r: String)
    ensures
        r@ == ascii_lowered(t@),
;

/// The axis that a text names.
pub open spec fn named_axis(text: Option<Seq<char>>) -> Result<Axis, Seq<char>> {
    let t = ascii_lowered(text.unwrap_or("x"@));
    if t == "x"@ {
        Ok(Axis::X)
    } else if t == "y"@ {
        Ok(Axis::Y)
    } else {
        Err("axis must be 'x' (align to a common X) or 'y' (align to a common Y), not '"@ + t + "'."@)
    }
}

/// The axis that a caller names, in either case; `x` where none is named.
pub fn parse_axis(text: &Option<String>) -> (r: Result<Axis, String>)
    ensures
        match r {
            Ok(a) => named_axis(string_opt(*text)) == Ok::<Axis, Seq<char>>(a),
            Err(e) => named_axis(string_opt(*text)) == Err::<Axis, Seq<char>>(e@),
        },
{
    let named = match text {
        Some(t) => t.as_str(),
        None => "x",
    };
    let t = named.to_ascii_lowercase();
    if same(t.as_str(), "x") {
        Ok(Axis::X)
    } else if same(t.as_str(), "y") {
        Ok(Axis::Y)
    } else {
        let mut e = copy("axis must be 'x' (align to a common X) or 'y' (align to a common Y), not '");
        put(&mut e, t.as_str());
        put(&mut e, "'.");
        Err(e)
    }
}

/// The board with every named footprint moved to its new position, or the reason
/// to move none.
pub fn align_components(
    content: &str,
    refs: &Vec<String>,
    to: &Vec<NewPosition>,
    board: &str,
) -> (r: Result<String, String>)
    requires
        to.len() == refs.len(),
    ensures
        written(r) == commit_edits(
            bytes(content@),
            align_splices(board_footprints(bytes(content@)), texts(refs@), positions(to@), board@),
            board@,
        ),
{
    if refs.len() == 0 {
        return Err(copy("references must be a non-empty array of reference designators."));
    }
    let fps = collect_footprints(content);
    let found = match align_targets(&fps, refs, board) {
        Err(e) => {
            return Err(e);
        },
        Ok(f) => f,
    };
    let ghost targets = Seq::new(found@.len(), |i: int| fps[found[i] as int].model());
    let ghost ps = positions(to@);
    let mut edits: Vec<SexpEdit> = Vec::new();
    let mut n: usize = 0;
    assert(splices(edits@) =~= Seq::<Splice>::empty());
    while n < found.len()
        invariant
            n <= found.len(),
            found.len() == to.len(),
            forall|i: int| 0 <= i < found.len() ==> (#[trigger] found[i]) < fps.len(),
            targets == Seq::new(found@.len(), |i: int| fps[found[i] as int].model()),
            ps == positions(to@),
            refs.len() > 0,
            found.len() == refs.len(),
            aligned(
                board_footprints(bytes(content@)),
                texts(refs@),
                refs.len() as int,
                board@,
            ) == Ok::<Seq<Footprint>, Seq<char>>(targets),
            align_steps(targets, ps, n as int, board@) == Ok::<Seq<Splice>, Seq<char>>(
                splices(edits@),
            ),
        decreases found.len() - n,
    {
        let fp = &fps[found[n]];
        assert(targets[n as int] == fp.model());
        assert(ps[n as int] == (string_opt(to[n as int].x), string_opt(to[n as int].y)));
        match fp.require_at(board) {
            Err(e) => {
                proof {
                    lemma_align_stop(targets, ps, n + 1, found.len() as int, board@);
                }
                let mut out = e;
                put(&mut out, " No footprint was moved.");
                return Err(out);
            },
            Ok(_) => {},
        }
        match move_edits(fp, &to[n].x, &to[n].y, board) {
            Err(e) => {
                proof {
                    lemma_align_stop(targets, ps, n + 1, found.len() as int, board@);
                }
                let mut out = e;
                put(&mut out, " No footprint was moved.");
                return Err(out);
            },
            Ok(more) => {
                let ghost was = splices(edits@);
                let ghost added = splices(more@);
                let mut list = more;
                edits.append(&mut list);
                assert(splices(edits@) =~= was + added);
            },
        }
        n += 1;
    }
    commit(content, &edits, "kicad_pcb", board)
}

// ─── Placing an array ────────────────────────────────────────────────────────

/// A place of an array: its column and row, and the reference of what goes there.
#[derive(Debug)]
pub struct ArrayPlace {
    pub row: u64,
    pub column: u64,
    pub reference: String,
}

/// A place of an array as a value.
pub struct Spot {
    pub row: int,
    pub column: int,
    pub reference: Seq<char>,
}

/// The values of a list of places.
pub open spec fn spots(v: Seq<ArrayPlace>) -> Seq<Spot> {
    Seq::new(
        v.len(),
        |i: int| Spot { row: v[i].row as int, column: v[i].column as int, reference: v[i].reference@ },
    )
}

/// The `i`-th place of an array, which is filled row by row and numbered in that
/// order.
pub open spec fn spot(prefix: Seq<char>, start: int, columns: int, i: int) -> Spot {
    Spot {
        row: i / columns,
        column: i % columns,
        reference: prefix + decimal((start + i) as nat),
    }
}

/// All the places of an array.
pub open spec fn array_spots(prefix: Seq<char>, start: int, columns: int, rows: int) -> Seq<Spot> {
    Seq::new((columns * rows) as nat, |i: int| spot(prefix, start, columns, i))
}

/// The places of an array, row by row, with the references that count up from
/// `start`.
pub fn array_places(prefix: &str, start: u64, columns: u64, rows: u64) -> (r: Vec<ArrayPlace>)
    requires
        start + columns * rows <= u64::MAX,
    ensures
        spots(r@) == array_spots(prefix@, start as int, columns as int, rows as int),
{
    let mut out: Vec<ArrayPlace> = Vec::new();
    let ghost all = array_spots(prefix@, start as int, columns as int, rows as int);
    let ghost n = columns * rows;
    let mut row: u64 = 0;
    assert(0 <= n) by (nonlinear_arith)
        requires
            n == columns * rows,
    ;
    assert(spots(out@) =~= all.take(0));
    assert(columns * 0 == 0);
    while row < rows
        invariant
            row <= rows,
            n == columns * rows,
            0 <= n,
            start + n <= u64::MAX,
            all == array_spots(prefix@, start as int, columns as int, rows as int),
            out.len() == columns * row,
            spots(out@) == all.take(columns * row),
        decreases rows - row,
    {
        let ghost done = columns * row;
        let mut column: u64 = 0;
        proof {
            assert(0 <= done && done + columns <= n) by (nonlinear_arith)
                requires
                    done == columns * row,
                    n == columns * rows,
                    0 <= row < rows,
                    0 <= columns,
            ;
        }
        while column < columns
            invariant
                column <= columns,
                row < rows,
                n == columns * rows,
                start + n <= u64::MAX,
                done == columns * row,
                0 <= done,
                done + columns <= n,
                all == array_spots(prefix@, start as int, columns as int, rows as int),
                out.len() == done + column,
                spots(out@) == all.take(done + column),
            decreases columns - column,
        {
            let ghost i = done + column;
            let ghost was = out@;
            let number: u64 = start + out.len() as u64;
            let mut reference = copy(prefix);
            put(&mut reference, decimal_text(number).as_str());
            out.push(ArrayPlace { row, column, reference });
            proof {
                assert(i / columns as int == row && i % columns as int == column) by (nonlinear_arith)
                    requires
                        i == columns * row + column,
                        0 <= column < columns,
                        0 <= row,
                ;
                assert(all[i] == spot(prefix@, start as int, columns as int, i));
                assert(spots(out@) =~= spots(was).push(all[i]));
                assert(all.take(i + 1) =~= all.take(i).push(all[i]));
            }
            column += 1;
        }
        proof {
            assert(done + columns == columns * (row + 1)) by (nonlinear_arith)
                requires
                    done == columns * row,
            ;
        }
        row += 1;
    }
    assert(all.take(n) =~= all);
    out
}

} // verus!
