//! Loose ends of a schematic: finding them, and moving near misses onto what they
//! nearly meet.
//!
//! How far two points are from each other is measured elsewhere; here stand the
//! decisions that rest on it and the edits that they lead to.

use crate::board_file::{commit, committed};
use crate::chars::texts;
use crate::edit::{splices, SexpEdit, Splice};
#[allow(unused_imports)]
use crate::items::{lists, point_texts};
#[allow(unused_imports)]
use crate::scan::{
    balanced_block, block_starts, enclosing_block, find_balanced_block, find_block_starts,
    find_enclosing_block, lemma_block_cuttable, offsets,
};
#[allow(unused_imports)]
use crate::pads::{at_number, read_at_number};
use crate::sch_batch::uuid_text;
#[allow(unused_imports)]
use crate::sexp::{children_in, node_refs, string_opt, Sexp, SexpNode};
#[allow(unused_imports)]
use crate::text::{bytes, copy, find_from, first_match, lemma_bytes_injective, length, put, same, slice};
use vstd::prelude::*;
use vstd::string::*;

verus! {

// ─── Moving an end of a wire ─────────────────────────────────────────────────

/// A block of two numbers.
pub open spec fn point_block(tag: Seq<char>, x: Seq<char>, y: Seq<char>) -> Seq<char> {
    "("@ + tag + " "@ + x + " "@ + y + ")"@
}

/// The edit of the `n`-th block with the tag in `t`, which stands at `at`.
pub open spec fn nth_block_edit(t: Seq<u8>, at: int, tag: Seq<char>, n: int, with: Seq<char>) -> Option<
    Splice,
> {
    let starts = block_starts(t, bytes(tag), t.len() as int);
    if n >= starts.len() {
        None
    } else {
        match balanced_block(t, starts[n]) {
            None => None,
            Some((a, b)) => Some(Splice { start: at + a, end: at + b, bytes: bytes(with) }),
        }
    }
}

/// The edit that moves an end of the wire with the block `t`, which stands at `at`:
/// in `(pts (xy …) (xy …))`, or in `(start …)` and `(end …)` of older files.
pub open spec fn end_edit(t: Seq<u8>, at: int, is_start: bool, x: Seq<char>, y: Seq<char>) -> Option<
    Splice,
> {
    let pts = block_starts(t, bytes("pts"@), t.len() as int);
    if pts.len() > 0 {
        match balanced_block(t, pts[0]) {
            None => None,
            Some((a, b)) => nth_block_edit(
                t.subrange(a, b),
                at + a,
                "xy"@,
                if is_start {
                    0
                } else {
                    1
                },
                point_block("xy"@, x, y),
            ),
        }
    } else if is_start {
        nth_block_edit(t, at, "start"@, 0, point_block("start"@, x, y))
    } else {
        nth_block_edit(t, at, "end"@, 0, point_block("end"@, x, y))
    }
}

/// The edit that moves an end of the wire with the uuid.
pub open spec fn wire_edit(s: Seq<u8>, uuid: Seq<char>, is_start: bool, x: Seq<char>, y: Seq<char>)
    -> Option<Splice> {
    match first_match(s, bytes(uuid_text(uuid)), 0) {
        None => None,
        Some(p) => match enclosing_block(s, bytes("wire"@), p) {
            None => None,
            Some((a, b)) => end_edit(s.subrange(a, b), a, is_start, x, y),
        },
    }
}

/// An edit as a value.
pub open spec fn edit_of(e: Option<SexpEdit>) -> Option<Splice> {
    match e {
        Some(x) => Some(x.model()),
        None => None,
    }
}

fn write_point(tag: &str, x: &str, y: &str) -> (r: String)
    ensures
        r@ == point_block(tag@, x@, y@),
{
    let mut out = copy("(");
    put(&mut out, tag);
    put(&mut out, " ");
    put(&mut out, x);
    put(&mut out, " ");
    put(&mut out, y);
    put(&mut out, ")");
    out
}

fn find_nth_block_edit(block: &str, at: usize, tag: &str, n: usize, with: String) -> (r: Option<
    SexpEdit,
>)
    requires
        at + bytes(block@).len() <= usize::MAX,
    ensures
        edit_of(r) == nth_block_edit(bytes(block@), at as int, tag@, n as int, with@),
{
    let starts = find_block_starts(block, tag);
    let ghost all = offsets(starts@);
    if n >= starts.len() {
        return None;
    }
    assert(all[n as int] == starts[n as int]);
    match find_balanced_block(block, starts[n]) {
        None => None,
        Some((a, b)) => Some(SexpEdit::replace(at + a, at + b, with)),
    }
}

fn find_end_edit(block: &str, at: usize, is_start: bool, x: &str, y: &str) -> (r: Option<SexpEdit>)
    requires
        at + bytes(block@).len() <= usize::MAX,
    ensures
        edit_of(r) == end_edit(bytes(block@), at as int, is_start, x@, y@),
{
    let pts = find_block_starts(block, "pts");
    let ghost all = offsets(pts@);
    if pts.len() > 0 {
        assert(all[0] == pts[0]);
        match find_balanced_block(block, pts[0]) {
            None => None,
            Some((a, b)) => {
                proof {
                    lemma_block_cuttable(block@, a as int, b as int);
                }
                let n: usize = if is_start {
                    0
                } else {
                    1
                };
                find_nth_block_edit(slice(block, a, b), at + a, "xy", n, write_point("xy", x, y))
            },
        }
    } else if is_start {
        find_nth_block_edit(block, at, "start", 0, write_point("start", x, y))
    } else {
        find_nth_block_edit(block, at, "end", 0, write_point("end", x, y))
    }
}

/// The edit that moves one end of the wire with the uuid to (`tx`, `ty`), whatever
/// the indentation. `None` where the wire or its end cannot be located, so that no
/// edit is claimed that is not made.
pub fn wire_endpoint_edit(content: &str, uuid: &str, is_start: bool, tx: &str, ty: &str) -> (r: Option<
    SexpEdit,
>)
    ensures
        edit_of(r) == wire_edit(bytes(content@), uuid@, is_start, tx@, ty@),
{
    let mut pattern = copy("(uuid \"");
    put(&mut pattern, uuid);
    put(&mut pattern, "\")");
    proof {
        reveal_strlit("(uuid \"");
        if bytes(pattern@).len() == 0 {
            assert(bytes(pattern@) =~= bytes(Seq::<char>::empty()));
            lemma_bytes_injective(pattern@, Seq::empty());
        }
    }
    let n = length(content);
    let p = match find_from(content, pattern.as_str(), 0) {
        None => {
            return None;
        },
        Some(p) => p,
    };
    match find_enclosing_block(content, "wire", p) {
        None => None,
        Some((a, b)) => {
            proof {
                lemma_block_cuttable(content@, a as int, b as int);
            }
            find_end_edit(slice(content, a, b), a, is_start, tx, ty)
        },
    }
}

// ─── What an end of a wire meets ─────────────────────────────────────────────

/// A point that a wire's end may be moved onto.
#[derive(Debug)]
pub struct TargetFacts {
    pub x: String,
    pub y: String,
    /// It is where the end is.
    pub coincident: bool,
    /// It is near the end, but not where it is.
    pub near: bool,
}

/// How a wire's end lies to another wire.
#[derive(Clone, Copy, Debug)]
pub struct WireFacts {
    pub on_wire: bool,
    pub at_start: bool,
    pub at_end: bool,
}

/// An end of a wire and what lies about it.
#[derive(Debug)]
pub struct EndpointFacts {
    pub wire_uuid: Option<String>,
    pub is_start: bool,
    pub targets: Vec<TargetFacts>,
    pub wires: Vec<WireFacts>,
}

/// How many of the first `n` points are where the end is.
pub open spec fn coincident_count(targets: Seq<TargetFacts>, n: int) -> int
    decreases n,
{
    if n <= 0 {
        0
    } else {
        coincident_count(targets, n - 1) + if targets[n - 1].coincident {
            1int
        } else {
            0
        }
    }
}

/// The end lies on the inside of some wire: a T-junction.
pub open spec fn on_interior(wires: Seq<WireFacts>) -> bool {
    exists|i: int|
        0 <= i < wires.len() && (#[trigger] wires[i]).on_wire && !wires[i].at_start && !wires[i].at_end
}

/// The end meets something: itself and one more point, or the inside of a wire.
pub open spec fn is_met(e: EndpointFacts) -> bool {
    coincident_count(e.targets@, e.targets@.len() as int) >= 2 || on_interior(e.wires@)
}

/// The first near point, from `k` on.
pub open spec fn first_near(targets: Seq<TargetFacts>, k: int) -> Option<int>
    decreases targets.len() - k,
{
    if k < 0 || k >= targets.len() {
        None
    } else if targets[k].near {
        Some(k)
    } else {
        first_near(targets, k + 1)
    }
}

/// The point that a loose end is to be moved onto: the first near one.
pub open spec fn near_miss(e: EndpointFacts) -> Option<int> {
    if is_met(e) {
        None
    } else {
        first_near(e.targets@, 0)
    }
}

fn count_coincident(targets: &Vec<TargetFacts>) -> (r: usize)
    ensures
        r == coincident_count(targets@, targets.len() as int),
{
    let mut n: usize = 0;
    let mut i: usize = 0;
    while i < targets.len()
        invariant
            i <= targets.len(),
            n <= i,
            n == coincident_count(targets@, i as int),
        decreases targets.len() - i,
    {
        if targets[i].coincident {
            n += 1;
        }
        i += 1;
    }
    n
}

fn lies_on_interior(wires: &Vec<WireFacts>) -> (r: bool)
    ensures
        r == on_interior(wires@),
{
    let mut i: usize = 0;
    while i < wires.len()
        invariant
            i <= wires.len(),
            forall|k: int|
                0 <= k < i ==> !((#[trigger] wires[k]).on_wire && !wires[k].at_start
                    && !wires[k].at_end),
        decreases wires.len() - i,
    {
        if wires[i].on_wire && !wires[i].at_start && !wires[i].at_end {
            assert(wires@[i as int].on_wire);
            return true;
        }
        i += 1;
    }
    false
}

/// The point that a loose end is to be moved onto.
pub fn find_near_miss(e: &EndpointFacts) -> (r: Option<usize>)
    ensures
        match r {
            Some(k) => near_miss(*e) == Some(k as int) && k < e.targets.len(),
            None => near_miss(*e).is_none(),
        },
{
    if count_coincident(&e.targets) >= 2 || lies_on_interior(&e.wires) {
        return None;
    }
    let mut k: usize = 0;
    while k < e.targets.len()
        invariant
            k <= e.targets.len(),
            !is_met(*e),
            first_near(e.targets@, 0) == first_near(e.targets@, k as int),
        decreases e.targets.len() - k,
    {
        if e.targets[k].near {
            return Some(k);
        }
        k += 1;
    }
    None
}

// ─── Fixing ──────────────────────────────────────────────────────────────────

/// A fix that was found.
#[derive(Debug)]
pub struct Fix {
    /// Which of the ends it moves, by position.
    pub endpoint: usize,
    /// Which of that end's points it moves it onto, by position.
    pub target: usize,
    /// Whether an edit was made for it.
    pub applied: bool,
}

/// A fix as a value.
pub struct FixModel {
    pub endpoint: int,
    pub target: int,
    pub applied: bool,
}

/// The values of fixes.
pub open spec fn fix_models(v: Seq<Fix>) -> Seq<FixModel> {
    Seq::new(
        v.len(),
        |i: int|
            FixModel {
                endpoint: v[i].endpoint as int,
                target: v[i].target as int,
                applied: v[i].applied,
            },
    )
}

/// Fixes while they are collected.
pub struct Fixes {
    pub fixes: Seq<FixModel>,
    pub edits: Seq<Splice>,
}

/// The edit of a fix: the wire needs a uuid to be found by, and nothing is edited in
/// a dry run.
pub open spec fn fix_edit(s: Seq<u8>, e: EndpointFacts, k: int, dry_run: bool) -> Option<Splice> {
    if dry_run {
        None
    } else {
        match e.wire_uuid {
            None => None,
            Some(u) => wire_edit(s, u@, e.is_start, e.targets@[k].x@, e.targets@[k].y@),
        }
    }
}

/// The fixes of the first `n` ends.
pub open spec fn fixes_of(s: Seq<u8>, ends: Seq<EndpointFacts>, dry_run: bool, n: int) -> Fixes
    decreases n,
{
    if n <= 0 {
        Fixes { fixes: Seq::empty(), edits: Seq::empty() }
    } else {
        let before = fixes_of(s, ends, dry_run, n - 1);
        match near_miss(ends[n - 1]) {
            None => before,
            Some(k) => match fix_edit(s, ends[n - 1], k, dry_run) {
                Some(e) => Fixes {
                    fixes: before.fixes.push(
                        FixModel { endpoint: n - 1, target: k, applied: true },
                    ),
                    edits: before.edits.push(e),
                },
                None => Fixes {
                    fixes: before.fixes.push(
                        FixModel { endpoint: n - 1, target: k, applied: false },
                    ),
                    ..before
                },
            },
        }
    }
}

/// What fixing loose ends came to.
#[derive(Debug)]
pub struct FixOutcome {
    pub fixes: Vec<Fix>,
    pub fixes_applied: usize,
    pub applied: bool,
    /// Said where some fixes could not be made.
    pub note: Option<String>,
    /// The new schematic; `None` where nothing is to be written.
    pub content: Option<String>,
}

/// The note where some fixes could not be made.
pub open spec fn not_located_text() -> Seq<char> {
    "Some near-miss endpoints could not be located in the file and were left unchanged."@
}

/// What fixing loose ends comes to, apart from the text that is written.
pub open spec fn reported(o: FixOutcome, f: Fixes, dry_run: bool) -> bool {
    &&& fix_models(o.fixes@) == f.fixes
    &&& o.fixes_applied == f.edits.len()
    &&& o.applied == (f.edits.len() > 0)
    &&& string_opt(o.note) == (if !dry_run && f.edits.len() < f.fixes.len() {
        Some(not_located_text())
    } else {
        None
    })
}

/// Move loose ends of wires onto the points that they nearly meet. An end that
/// meets something stays where it is; a fix counts as applied only once its edit
/// has been located; a dry run edits nothing.
pub fn fix_connectivity(content: &str, ends: &Vec<EndpointFacts>, dry_run: bool, file: &str) -> (r:
    Result<FixOutcome, String>)
    ensures
        ({
            let f = fixes_of(bytes(content@), ends@, dry_run, ends.len() as int);
            if f.edits.len() == 0 {
                r is Ok && reported(r->Ok_0, f, dry_run) && r->Ok_0.content.is_none()
            } else {
                match committed(bytes(content@), f.edits, "kicad_sch"@, file@) {
                    Err(e) => r is Err && r->Err_0@ == e,
                    Ok(t) => r is Ok && reported(r->Ok_0, f, dry_run) && r->Ok_0.content.is_some()
                        && bytes(r->Ok_0.content.unwrap()@) == t,
                }
            }
        }),
{
    let ghost s = bytes(content@);
    let mut fixes: Vec<Fix> = Vec::new();
    let mut edits: Vec<SexpEdit> = Vec::new();
    let mut i: usize = 0;
    proof {
        assert(fix_models(fixes@) =~= Seq::<FixModel>::empty());
        assert(splices(edits@) =~= Seq::<Splice>::empty());
    }
    while i < ends.len()
        invariant
            i <= ends.len(),
            s == bytes(content@),
            fix_models(fixes@) == fixes_of(s, ends@, dry_run, i as int).fixes,
            splices(edits@) == fixes_of(s, ends@, dry_run, i as int).edits,
        decreases ends.len() - i,
    {
        let e = &ends[i];
        match find_near_miss(e) {
            None => {},
            Some(k) => {
                let mut applied = false;
                if !dry_run {
                    match &e.wire_uuid {
                        None => {},
                        Some(u) => match wire_endpoint_edit(
                            content,
                            u.as_str(),
                            e.is_start,
                            e.targets[k].x.as_str(),
                            e.targets[k].y.as_str(),
                        ) {
                            None => {},
                            Some(edit) => {
                                let ghost was = splices(edits@);
                                let ghost m = edit.model();
                                edits.push(edit);
                                assert(splices(edits@) =~= was.push(m));
                                applied = true;
                            },
                        },
                    }
                }
                let ghost was = fix_models(fixes@);
                fixes.push(Fix { endpoint: i, target: k, applied });
                assert(fix_models(fixes@) =~= was.push(
                    FixModel { endpoint: i as int, target: k as int, applied },
                ));
            },
        }
        i += 1;
    }
    let fixes_applied = edits.len();
    let note = if !dry_run && fixes_applied < fixes.len() {
        Some(
            copy(
                "Some near-miss endpoints could not be located in the file and were left unchanged.",
            ),
        )
    } else {
        None
    };
    if fixes_applied == 0 {
        return Ok(FixOutcome { fixes, fixes_applied, applied: false, note, content: None });
    }
    match commit(content, &edits, "kicad_sch", file) {
        Err(e) => Err(e),
        Ok(t) => Ok(FixOutcome { fixes, fixes_applied, applied: true, note, content: Some(t) }),
    }
}

/// A dry run finds the same fixes as a real one, edits nothing and claims nothing
/// as applied.
pub proof fn law_dry_run_changes_nothing(s: Seq<u8>, ends: Seq<EndpointFacts>, n: int)
    ensures
        fixes_of(s, ends, true, n).edits.len() == 0,
        fixes_of(s, ends, true, n).fixes.len() == fixes_of(s, ends, false, n).fixes.len(),
        forall|i: int|
            0 <= i < fixes_of(s, ends, true, n).fixes.len() ==> !(#[trigger] fixes_of(
                s,
                ends,
                true,
                n,
            ).fixes[i]).applied && fixes_of(s, ends, true, n).fixes[i].endpoint == fixes_of(
                s,
                ends,
                false,
                n,
            ).fixes[i].endpoint && fixes_of(s, ends, true, n).fixes[i].target == fixes_of(
                s,
                ends,
                false,
                n,
            ).fixes[i].target,
    decreases n,
{
    if n > 0 {
        law_dry_run_changes_nothing(s, ends, n - 1);
    }
}

/// As many fixes count as applied as there are edits.
pub proof fn law_applied_fixes_have_edits(s: Seq<u8>, ends: Seq<EndpointFacts>, dry_run: bool, n: int)
    ensures
        applied_count(fixes_of(s, ends, dry_run, n).fixes) == fixes_of(s, ends, dry_run, n).edits.len(),
    decreases n,
{
    if n > 0 {
        law_applied_fixes_have_edits(s, ends, dry_run, n - 1);
        let before = fixes_of(s, ends, dry_run, n - 1).fixes;
        let now = fixes_of(s, ends, dry_run, n).fixes;
        if now.len() > before.len() {
            assert(now.drop_last() =~= before);
        }
    }
}

/// How many fixes count as applied.
pub open spec fn applied_count(v: Seq<FixModel>) -> int
    decreases v.len(),
{
    if v.len() == 0 {
        0
    } else {
        applied_count(v.drop_last()) + if v.last().applied {
            1int
        } else {
            0
        }
    }
}

// ─── Stretching ──────────────────────────────────────────────────────────────

/// An end of a wire while a symbol moves.
#[derive(Debug)]
pub struct StretchFacts {
    pub wire_uuid: Option<String>,
    pub is_start: bool,
    /// For each pin of the symbol: whether the end is where the pin was.
    pub on_pins: Vec<bool>,
}

/// The first place, from `k` on, that is set.
pub open spec fn first_set(v: Seq<bool>, k: int) -> Option<int>
    decreases v.len() - k,
{
    if k < 0 || k >= v.len() {
        None
    } else if v[k] {
        Some(k)
    } else {
        first_set(v, k + 1)
    }
}

/// The edit that takes an end along with the pin that it stands on, to where that pin is
/// afterwards. An end that stands on no pin stays.
pub open spec fn stretch_edit(s: Seq<u8>, e: StretchFacts, places: Seq<(Seq<char>, Seq<char>)>) -> Option<
    Splice,
> {
    match (e.wire_uuid, first_set(e.on_pins@, 0)) {
        (Some(u), Some(k)) => if k < places.len() {
            wire_edit(s, u@, e.is_start, places[k].0, places[k].1)
        } else {
            None
        },
        _ => None,
    }
}

/// The edits of the first `n` ends.
pub open spec fn stretch_edits(
    s: Seq<u8>,
    ends: Seq<StretchFacts>,
    places: Seq<(Seq<char>, Seq<char>)>,
    n: int,
) -> Seq<Splice>
    decreases n,
{
    if n <= 0 {
        Seq::empty()
    } else {
        match stretch_edit(s, ends[n - 1], places) {
            Some(e) => stretch_edits(s, ends, places, n - 1).push(e),
            None => stretch_edits(s, ends, places, n - 1),
        }
    }
}

fn find_set(v: &Vec<bool>) -> (r: Option<usize>)
    ensures
        match r {
            Some(k) => first_set(v@, 0) == Some(k as int),
            None => first_set(v@, 0).is_none(),
        },
{
    let mut k: usize = 0;
    while k < v.len()
        invariant
            k <= v.len(),
            first_set(v@, 0) == first_set(v@, k as int),
        decreases v.len() - k,
    {
        if v[k] {
            return Some(k);
        }
        k += 1;
    }
    None
}

fn find_stretch_edit(content: &str, e: &StretchFacts, places: &Vec<(String, String)>) -> (r: Option<
    SexpEdit,
>)
    ensures
        edit_of(r) == stretch_edit(bytes(content@), *e, point_texts(places@)),
{
    match &e.wire_uuid {
        None => None,
        Some(u) => match find_set(&e.on_pins) {
            None => None,
            Some(k) => {
                if k < places.len() {
                    wire_endpoint_edit(
                        content,
                        u.as_str(),
                        e.is_start,
                        places[k].0.as_str(),
                        places[k].1.as_str(),
                    )
                } else {
                    None
                }
            },
        },
    }
}

/// Stretch the wires of a symbol that has moved: each end that stood on one of its pins
/// goes where that pin is now. `places` holds where the pins are now. Gives how many ends
/// went along, and the new schematic; `None` where nothing is to be written.
pub fn stretch_wires(
    content: &str,
    ends: &Vec<StretchFacts>,
    places: &Vec<(String, String)>,
    file: &str,
) -> (r: Result<(usize, Option<String>), String>)
    ensures
        ({
            let edits = stretch_edits(
                bytes(content@),
                ends@,
                point_texts(places@),
                ends.len() as int,
            );
            if edits.len() == 0 {
                r is Ok && r->Ok_0.0 == 0 && r->Ok_0.1.is_none()
            } else {
                match committed(bytes(content@), edits, "kicad_sch"@, file@) {
                    Err(e) => r is Err && r->Err_0@ == e,
                    Ok(t) => r is Ok && r->Ok_0.0 == edits.len() && r->Ok_0.1.is_some() && bytes(
                        r->Ok_0.1.unwrap()@,
                    ) == t,
                }
            }
        }),
{
    let ghost s = bytes(content@);
    let ghost to = point_texts(places@);
    let mut edits: Vec<SexpEdit> = Vec::new();
    let mut i: usize = 0;
    assert(splices(edits@) =~= stretch_edits(s, ends@, to, 0));
    while i < ends.len()
        invariant
            i <= ends.len(),
            s == bytes(content@),
            to == point_texts(places@),
            splices(edits@) == stretch_edits(s, ends@, to, i as int),
        decreases ends.len() - i,
    {
        match find_stretch_edit(content, &ends[i], places) {
            None => {},
            Some(edit) => {
                let ghost was = splices(edits@);
                let ghost m = edit.model();
                edits.push(edit);
                assert(splices(edits@) =~= was.push(m));
            },
        }
        i += 1;
    }
    let n = edits.len();
    if n == 0 {
        return Ok((0, None));
    }
    match commit(content, &edits, "kicad_sch", file) {
        Err(e) => Err(e),
        Ok(t) => Ok((n, Some(t))),
    }
}

/// No end moves that stood on no pin of the symbol.
pub proof fn law_other_ends_stay(
    s: Seq<u8>,
    ends: Seq<StretchFacts>,
    places: Seq<(Seq<char>, Seq<char>)>,
    n: int,
)
    requires
        n <= ends.len(),
        forall|i: int, k: int|
            0 <= i < n && 0 <= k < ends[i].on_pins@.len() ==> !(#[trigger] ends[i].on_pins@[k]),
    ensures
        stretch_edits(s, ends, places, n).len() == 0,
    decreases n,
{
    if n > 0 {
        law_other_ends_stay(s, ends, places, n - 1);
        lemma_none_set(ends[n - 1].on_pins@, 0);
    }
}

proof fn lemma_none_set(v: Seq<bool>, k: int)
    requires
        0 <= k,
        forall|i: int| 0 <= i < v.len() ==> !#[trigger] v[i],
    ensures
        first_set(v, k).is_none(),
    decreases v.len() - k,
{
    if k < v.len() {
        lemma_none_set(v, k + 1);
    }
}

// ─── Validating wires ────────────────────────────────────────────────────────

/// An end of a wire and everything that could connect it.
#[derive(Debug)]
pub struct WireEnd {
    /// For each end of a wire, itself included: whether it is where this end is.
    pub wire_ends: Vec<bool>,
    pub wires: Vec<WireFacts>,
    /// For each label: whether it is where this end is.
    pub labels: Vec<bool>,
    /// For each pin: whether it is where this end is.
    pub pins: Vec<bool>,
}

/// How many of the first `n` are set.
pub open spec fn count_true(v: Seq<bool>, n: int) -> int
    decreases n,
{
    if n <= 0 {
        0
    } else {
        count_true(v, n - 1) + if v[n - 1] {
            1int
        } else {
            0
        }
    }
}

/// Some is set.
pub open spec fn any_true(v: Seq<bool>) -> bool {
    exists|i: int| 0 <= i < v.len() && #[trigger] v[i]
}

/// An end is connected: another end is there, or it lies on the inside of a wire, or
/// a label or a pin is there.
pub open spec fn is_connected(e: WireEnd) -> bool {
    count_true(e.wire_ends@, e.wire_ends@.len() as int) >= 2 || on_interior(e.wires@) || any_true(
        e.labels@,
    ) || any_true(e.pins@)
}

/// The floating ones among the first `n` ends, by position.
pub open spec fn floating(ends: Seq<WireEnd>, n: int) -> Seq<int>
    decreases n,
{
    if n <= 0 {
        Seq::empty()
    } else if is_connected(ends[n - 1]) {
        floating(ends, n - 1)
    } else {
        floating(ends, n - 1).push(n - 1)
    }
}

fn count_set(v: &Vec<bool>) -> (r: usize)
    ensures
        r == count_true(v@, v.len() as int),
{
    let mut n: usize = 0;
    let mut i: usize = 0;
    while i < v.len()
        invariant
            i <= v.len(),
            n <= i,
            n == count_true(v@, i as int),
        decreases v.len() - i,
    {
        if v[i] {
            n += 1;
        }
        i += 1;
    }
    n
}

fn any_set(v: &Vec<bool>) -> (r: bool)
    ensures
        r == any_true(v@),
{
    let mut i: usize = 0;
    while i < v.len()
        invariant
            i <= v.len(),
            forall|k: int| 0 <= k < i ==> !#[trigger] v[k],
        decreases v.len() - i,
    {
        if v[i] {
            assert(v@[i as int]);
            return true;
        }
        i += 1;
    }
    false
}

/// Which ends of wires float: they meet no pin, no label and no other wire.
pub fn validate_wire_connections(ends: &Vec<WireEnd>) -> (r: Vec<usize>)
    ensures
        offsets(r@) == floating(ends@, ends.len() as int),
{
    let mut out: Vec<usize> = Vec::new();
    let mut i: usize = 0;
    assert(offsets(out@) =~= floating(ends@, 0));
    while i < ends.len()
        invariant
            i <= ends.len(),
            offsets(out@) == floating(ends@, i as int),
        decreases ends.len() - i,
    {
        let e = &ends[i];
        let connected = count_set(&e.wire_ends) >= 2 || lies_on_interior(&e.wires) || any_set(&e.labels)
            || any_set(&e.pins);
        if !connected {
            let ghost was = offsets(out@);
            out.push(i);
            assert(offsets(out@) =~= was.push(i as int));
        }
        i += 1;
    }
    out
}

// ─── Validating pins ─────────────────────────────────────────────────────────

/// A pin of a component and what lies about it.
#[derive(Debug)]
pub struct PinFacts {
    pub reference: String,
    /// The pin's electrical type as the symbol's definition writes it.
    pub electrical_type: String,
    /// For each no-connect flag: whether it is where the pin is.
    pub no_connects: Vec<bool>,
    /// For each end of a wire: whether it is where the pin is.
    pub wire_ends: Vec<bool>,
    /// Whether a named net reaches the pin.
    pub on_named_net: bool,
}

/// A pin that is to be looked at: all of them are, unless some designators are
/// named.
pub open spec fn is_asked(reference: Seq<char>, only: Seq<Seq<char>>) -> bool {
    only.len() == 0 || only.contains(reference)
}

/// A pin of a passive part. Such a pin may be left open.
pub open spec fn is_passive(electrical_type: Seq<char>) -> bool {
    electrical_type == "passive"@
}

/// A pin that takes power or gives it.
pub open spec fn is_power(electrical_type: Seq<char>) -> bool {
    electrical_type == "power_in"@ || electrical_type == "power_out"@
}

/// A pin that should be connected and is not.
pub open spec fn is_unconnected(p: PinFacts, only: Seq<Seq<char>>, ignore_power: bool) -> bool {
    is_asked(p.reference@, only) && !is_passive(p.electrical_type@) && !(ignore_power && is_power(
        p.electrical_type@,
    )) && !any_true(p.no_connects@) && !any_true(p.wire_ends@) && !p.on_named_net
}

/// The unconnected ones among the first `n` pins, by position.
pub open spec fn unconnected(
    pins: Seq<PinFacts>,
    only: Seq<Seq<char>>,
    ignore_power: bool,
    n: int,
) -> Seq<int>
    decreases n,
{
    if n <= 0 {
        Seq::empty()
    } else if is_unconnected(pins[n - 1], only, ignore_power) {
        unconnected(pins, only, ignore_power, n - 1).push(n - 1)
    } else {
        unconnected(pins, only, ignore_power, n - 1)
    }
}

/// Which pins have no connection. A pin with a no-connect flag is meant to have
/// none, a passive pin need not have one, and the pins that carry power are passed
/// over on demand.
pub fn validate_component_connections(
    pins: &Vec<PinFacts>,
    only: &Vec<String>,
    ignore_power: bool,
) -> (r: Vec<usize>)
    ensures
        offsets(r@) == unconnected(pins@, texts(only@), ignore_power, pins.len() as int),
{
    let mut out: Vec<usize> = Vec::new();
    let mut i: usize = 0;
    assert(offsets(out@) =~= unconnected(pins@, texts(only@), ignore_power, 0));
    while i < pins.len()
        invariant
            i <= pins.len(),
            offsets(out@) == unconnected(pins@, texts(only@), ignore_power, i as int),
        decreases pins.len() - i,
    {
        let p = &pins[i];
        let asked = only.len() == 0 || lists(only, p.reference.as_str());
        let passive = same(p.electrical_type.as_str(), "passive");
        let power = same(p.electrical_type.as_str(), "power_in") || same(
            p.electrical_type.as_str(),
            "power_out",
        );
        if asked && !passive && !(ignore_power && power) && !any_set(&p.no_connects) && !any_set(&p.wire_ends) && !p.on_named_net {
            let ghost was = offsets(out@);
            out.push(i);
            assert(offsets(out@) =~= was.push(i as int));
        }
        i += 1;
    }
    out
}

/// A pin with a no-connect flag is never called unconnected.
pub proof fn law_no_connect_is_respected(
    p: PinFacts,
    only: Seq<Seq<char>>,
    ignore_power: bool,
    i: int,
)
    requires
        0 <= i < p.no_connects@.len(),
        p.no_connects@[i],
    ensures
        !is_unconnected(p, only, ignore_power),
{
}

/// A passive pin is never called unconnected.
pub proof fn law_passive_pin_may_be_open(p: PinFacts, only: Seq<Seq<char>>, ignore_power: bool)
    requires
        is_passive(p.electrical_type@),
    ensures
        !is_unconnected(p, only, ignore_power),
{
}

/// With power pins passed over, no pin that carries power is called unconnected.
pub proof fn law_power_pins_are_passed_over(p: PinFacts, only: Seq<Seq<char>>)
    requires
        is_power(p.electrical_type@),
    ensures
        !is_unconnected(p, only, true),
{
}

// ─── Pins left open on purpose ───────────────────────────────────────────────

/// The places of the first `n` no-connect markers, those without a position left
/// out.
pub open spec fn marked_places(nodes: Seq<Sexp>, n: int) -> Seq<(Seq<char>, Seq<char>)>
    decreases n,
{
    if n <= 0 {
        Seq::empty()
    } else {
        match (at_number(nodes[n - 1], 1), at_number(nodes[n - 1], 2)) {
            (Some(x), Some(y)) => marked_places(nodes, n - 1).push((x, y)),
            _ => marked_places(nodes, n - 1),
        }
    }
}

/// The places of a schematic's no-connect markers. A pin that stands on one is not
/// loose.
pub fn no_connect_points(tree: &SexpNode) -> (r: Vec<(String, String)>)
    ensures
        point_texts(r@) == marked_places(
            children_in(tree.model(), "no_connect"@),
            children_in(tree.model(), "no_connect"@).len() as int,
        ),
{
    let found = tree.find_all("no_connect");
    let ghost nodes = children_in(tree.model(), "no_connect"@);
    let mut out: Vec<(String, String)> = Vec::new();
    let mut k: usize = 0;
    assert(point_texts(out@) =~= marked_places(nodes, 0));
    while k < found.len()
        invariant
            k <= found.len(),
            nodes == node_refs(found@),
            point_texts(out@) == marked_places(nodes, k as int),
        decreases found.len() - k,
    {
        assert(nodes[k as int] == found[k as int].model());
        match (read_at_number(found[k], 1), read_at_number(found[k], 2)) {
            (Some(x), Some(y)) => {
                let ghost was = point_texts(out@);
                let ghost p = (x@, y@);
                out.push((x, y));
                assert(point_texts(out@) =~= was.push(p));
            },
            _ => {},
        }
        k += 1;
    }
    out
}

} // verus!
