//! Checks, design rules, custom rules, and copying of routing.
//!
//! Design rule constraints live in a project's `.kicad_pro` and custom rules in its
//! `.kicad_dru`, never in the board.

use crate::chars::{join_all, joined, texts, trim_back};
#[allow(unused_imports)]
use crate::connectivity::is_asked;
use crate::graphics::append_place;
use crate::ident::{is_uuid, new_uuid};
use crate::items::{coordinate, lists, point_texts, read_coordinate};
use crate::number::{is_number, number};
use crate::pads::{find_by_reference, footprint_in};
use crate::sch_batch::{split_white, white_words};
#[allow(unused_imports)]
use crate::scan::{
    balanced_block, block_end, block_starts, closes_at, find_balanced_block, find_block_end,
    find_block_starts, lemma_block_cuttable, offsets, opens, top_level_block_starts, top_level_starts,
    CLOSE, QUOTE,
};
#[allow(unused_imports)]
use crate::sexp::{parse_sexp, parse_text, string_opt, Sexp, SexpNode};
#[allow(unused_imports)]
use crate::text::{
    boundary, bytes, copy, find_byte, find_from, first_byte, first_match, lemma_ascii_boundary,
    lemma_bytes_ascii, lemma_ends, lemma_first_byte, lemma_match_boundary, lemma_match_cuts, length,
    match_at, matches_at, put, replace, replace_all, replaced, replaced_all, rfind_byte, same, slice,
    slice_from, text_of,
};
use vstd::prelude::*;
use vstd::string::*;

verus! {

// ─── Violations ──────────────────────────────────────────────────────────────

/// How grave a severity is.
pub open spec fn gravity(severity: Seq<char>) -> int {
    if severity == "error"@ {
        2
    } else if severity == "warning"@ {
        1
    } else {
        0
    }
}

/// How grave a severity is: an error before a warning before anything else.
pub fn severity_rank(s: &str) -> (r: u8)
    ensures
        r == gravity(s@),
{
    if same(s, "error") {
        2
    } else if same(s, "warning") {
        1
    } else {
        0
    }
}

/// Those of the first `n` violations that are at least as grave as `min`, by
/// position.
pub open spec fn grave_enough(severities: Seq<Seq<char>>, min: Seq<char>, n: int) -> Seq<int>
    decreases n,
{
    if n <= 0 {
        Seq::empty()
    } else if gravity(severities[n - 1]) >= gravity(min) {
        grave_enough(severities, min, n - 1).push(n - 1)
    } else {
        grave_enough(severities, min, n - 1)
    }
}

/// How many of the first `n` violations are at least as grave as `min` and have the
/// severity.
pub open spec fn count_of(severities: Seq<Seq<char>>, min: Seq<char>, severity: Seq<char>, n: int) -> int
    decreases n,
{
    if n <= 0 {
        0
    } else {
        count_of(severities, min, severity, n - 1) + if gravity(severities[n - 1]) >= gravity(min)
            && severities[n - 1] == severity {
            1int
        } else {
            0
        }
    }
}

/// The ones among the first `n` violations that one of the tests found; all of them
/// where no test is named.
pub open spec fn found_by(kinds: Seq<Seq<char>>, tests: Seq<Seq<char>>, n: int) -> Seq<int>
    decreases n,
{
    if n <= 0 {
        Seq::empty()
    } else if is_asked(kinds[n - 1], tests) {
        found_by(kinds, tests, n - 1).push(n - 1)
    } else {
        found_by(kinds, tests, n - 1)
    }
}

/// Choose the violations that the named tests found. `kinds` holds the test that each of
/// them comes from.
pub fn violations_of_tests(kinds: &Vec<String>, tests: &Vec<String>) -> (r: Vec<usize>)
    ensures
        offsets(r@) == found_by(texts(kinds@), texts(tests@), kinds.len() as int),
{
    let ghost all = texts(kinds@);
    let mut out: Vec<usize> = Vec::new();
    let mut i: usize = 0;
    assert(offsets(out@) =~= found_by(all, texts(tests@), 0));
    while i < kinds.len()
        invariant
            i <= kinds.len(),
            all == texts(kinds@),
            offsets(out@) == found_by(all, texts(tests@), i as int),
        decreases kinds.len() - i,
    {
        assert(all[i as int] == kinds[i as int]@);
        if tests.len() == 0 || lists(tests, kinds[i].as_str()) {
            let ghost was = offsets(out@);
            out.push(i);
            assert(offsets(out@) =~= was.push(i as int));
        }
        i += 1;
    }
    out
}

/// Which violations are reported, and how many of them are errors and warnings.
#[derive(Debug)]
pub struct ViolationReport {
    pub kept: Vec<usize>,
    pub errors: usize,
    pub warnings: usize,
}

/// The least severity that is reported, `warning` unless another is named.
pub open spec fn least_severity(given: Option<Seq<char>>) -> Seq<char> {
    match given {
        Some(s) => s,
        None => "warning"@,
    }
}

/// Choose the violations to report from their severities.
pub fn filter_violations(severities: &Vec<String>, min: &Option<String>) -> (r: ViolationReport)
    ensures
        offsets(r.kept@) == grave_enough(
            texts(severities@),
            least_severity(string_opt(*min)),
            severities.len() as int,
        ),
        r.errors == count_of(
            texts(severities@),
            least_severity(string_opt(*min)),
            "error"@,
            severities.len() as int,
        ),
        r.warnings == count_of(
            texts(severities@),
            least_severity(string_opt(*min)),
            "warning"@,
            severities.len() as int,
        ),
{
    let least: &str = match min {
        Some(t) => t.as_str(),
        None => "warning",
    };
    let rank = severity_rank(least);
    let ghost all = texts(severities@);
    let ghost m = least_severity(string_opt(*min));
    let mut kept: Vec<usize> = Vec::new();
    let mut errors: usize = 0;
    let mut warnings: usize = 0;
    let mut i: usize = 0;
    assert(offsets(kept@) =~= grave_enough(all, m, 0));
    while i < severities.len()
        invariant
            i <= severities.len(),
            all == texts(severities@),
            rank == gravity(m),
            errors <= i,
            warnings <= i,
            offsets(kept@) == grave_enough(all, m, i as int),
            errors == count_of(all, m, "error"@, i as int),
            warnings == count_of(all, m, "warning"@, i as int),
        decreases severities.len() - i,
    {
        assert(all[i as int] == severities[i as int]@);
        let s = severities[i].as_str();
        if severity_rank(s) >= rank {
            let ghost was = offsets(kept@);
            kept.push(i);
            assert(offsets(kept@) =~= was.push(i as int));
            if same(s, "error") {
                errors += 1;
            }
            if same(s, "warning") {
                warnings += 1;
            }
        }
        i += 1;
    }
    ViolationReport { kept, errors, warnings }
}

/// Asking for a graver severity never reports more.
pub proof fn law_stricter_reports_no_more(
    severities: Seq<Seq<char>>,
    loose: Seq<char>,
    strict: Seq<char>,
    n: int,
)
    requires
        gravity(loose) <= gravity(strict),
    ensures
        forall|i: int|
            grave_enough(severities, strict, n).contains(i) ==> #[trigger] grave_enough(
                severities,
                loose,
                n,
            ).contains(i),
    decreases n,
{
    if n > 0 {
        law_stricter_reports_no_more(severities, loose, strict, n - 1);
        let a = grave_enough(severities, strict, n - 1);
        let b = grave_enough(severities, loose, n - 1);
        let c = grave_enough(severities, strict, n);
        let d = grave_enough(severities, loose, n);
        assert forall|i: int| c.contains(i) implies #[trigger] d.contains(i) by {
            let k = choose|k: int| 0 <= k < c.len() && c[k] == i;
            if k < a.len() {
                assert(a[k] == i);
                assert(a.contains(i));
                assert(b.contains(i));
                let j = choose|j: int| 0 <= j < b.len() && b[j] == i;
                assert(d[j] == i);
            } else {
                assert(d[b.len() as int] == i);
            }
        }
    }
}

// ─── Design rules ────────────────────────────────────────────────────────────

/// The constraints that may be set, each in the text it is to be written in.
#[derive(Debug)]
pub struct DesignRules {
    pub min_clearance: Option<String>,
    pub min_trace_width: Option<String>,
    pub min_via_size: Option<String>,
    pub min_via_drill: Option<String>,
    pub min_hole_to_hole: Option<String>,
    pub min_hole_clearance: Option<String>,
    pub min_via_annular_width: Option<String>,
    pub min_copper_edge_clearance: Option<String>,
}

/// The constraints in order: the name they are asked by, the key that KiCAD keeps
/// them under, and their value.
pub open spec fn rule_table(d: DesignRules) -> Seq<(Seq<char>, Seq<char>, Option<Seq<char>>)> {
    seq![
        ("min_clearance"@, "min_clearance"@, string_opt(d.min_clearance)),
        ("min_trace_width"@, "min_track_width"@, string_opt(d.min_trace_width)),
        ("min_via_size"@, "min_via_diameter"@, string_opt(d.min_via_size)),
        ("min_via_drill"@, "min_through_hole_diameter"@, string_opt(d.min_via_drill)),
        ("min_hole_to_hole"@, "min_hole_to_hole"@, string_opt(d.min_hole_to_hole)),
        ("min_hole_clearance"@, "min_hole_clearance"@, string_opt(d.min_hole_clearance)),
        ("min_via_annular_width"@, "min_via_annular_width"@, string_opt(d.min_via_annular_width)),
        (
            "min_copper_edge_clearance"@,
            "min_copper_edge_clearance"@,
            string_opt(d.min_copper_edge_clearance),
        ),
    ]
}

/// The entries to write for the first `n` constraints: those that are given.
pub open spec fn rule_entries(t: Seq<(Seq<char>, Seq<char>, Option<Seq<char>>)>, n: int) -> Seq<
    (Seq<char>, Seq<char>),
>
    decreases n,
{
    if n <= 0 {
        Seq::empty()
    } else {
        match t[n - 1].2 {
            Some(v) => rule_entries(t, n - 1).push((t[n - 1].1, v)),
            None => rule_entries(t, n - 1),
        }
    }
}

/// What stands at a place of the project file.
#[derive(Clone, Copy, Debug, PartialEq, Eq, Structural)]
pub enum Slot {
    Missing,
    Object,
    Other,
}

/// What a project file holds on the way to its design rules.
#[derive(Debug)]
pub struct ProjectShape {
    pub root: Slot,
    pub board: Slot,
    pub design_settings: Slot,
    pub rules: Slot,
}

/// The rules can be reached: each place on the way is an object or still free.
pub open spec fn reaches_rules(p: ProjectShape) -> bool {
    p.root == Slot::Object && p.board != Slot::Other && (p.board == Slot::Missing || (
    p.design_settings != Slot::Other && (p.design_settings == Slot::Missing || p.rules
        != Slot::Other)))
}

/// The refusal where the rules cannot be reached.
pub open spec fn not_object_text(project: Seq<char>) -> Seq<char> {
    "'"@ + project + "' has a 'board.design_settings' entry that is not an object"@
}

/// The refusal where no constraint is given.
pub open spec fn no_rule_text() -> Seq<char> {
    "No design rule given. Accepted: min_clearance, min_trace_width, min_via_size, min_via_drill, min_hole_to_hole, min_hole_clearance, min_via_annular_width, min_copper_edge_clearance."@
}

fn push_entry(out: &mut Vec<(String, String)>, key: &str, value: &Option<String>)
    ensures
        point_texts(final(out)@) == (match string_opt(*value) {
            Some(v) => point_texts(old(out)@).push((key@, v)),
            None => point_texts(old(out)@),
        }),
{
    match value {
        Some(v) => {
            let ghost was = point_texts(out@);
            out.push((copy(key), copy(v.as_str())));
            assert(point_texts(out@) =~= was.push((key@, v@)));
        },
        None => {},
    }
}

/// The entries to write under `board.design_settings.rules` of the project file.
pub fn set_design_rules(rules: &DesignRules, shape: &ProjectShape, project: &str) -> (r: Result<
    Vec<(String, String)>,
    String,
>)
    ensures
        if !reaches_rules(*shape) {
            r is Err && r->Err_0@ == not_object_text(project@)
        } else if rule_entries(rule_table(*rules), 8).len() == 0 {
            r is Err && r->Err_0@ == no_rule_text()
        } else {
            r is Ok && point_texts(r->Ok_0@) == rule_entries(rule_table(*rules), 8)
        },
{
    let reached = match shape.root {
        Slot::Object => match shape.board {
            Slot::Other => false,
            Slot::Missing => true,
            Slot::Object => match shape.design_settings {
                Slot::Other => false,
                Slot::Missing => true,
                Slot::Object => match shape.rules {
                    Slot::Other => false,
                    _ => true,
                },
            },
        },
        _ => false,
    };
    if !reached {
        let mut out = copy("'");
        put(&mut out, project);
        put(&mut out, "' has a 'board.design_settings' entry that is not an object");
        return Err(out);
    }
    let ghost t = rule_table(*rules);
    let mut out: Vec<(String, String)> = Vec::new();
    proof {
        reveal_with_fuel(rule_entries, 9);
        assert(point_texts(out@) =~= rule_entries(t, 0));
    }
    push_entry(&mut out, "min_clearance", &rules.min_clearance);
    assert(point_texts(out@) == rule_entries(t, 1));
    push_entry(&mut out, "min_track_width", &rules.min_trace_width);
    assert(point_texts(out@) == rule_entries(t, 2));
    push_entry(&mut out, "min_via_diameter", &rules.min_via_size);
    assert(point_texts(out@) == rule_entries(t, 3));
    push_entry(&mut out, "min_through_hole_diameter", &rules.min_via_drill);
    assert(point_texts(out@) == rule_entries(t, 4));
    push_entry(&mut out, "min_hole_to_hole", &rules.min_hole_to_hole);
    assert(point_texts(out@) == rule_entries(t, 5));
    push_entry(&mut out, "min_hole_clearance", &rules.min_hole_clearance);
    assert(point_texts(out@) == rule_entries(t, 6));
    push_entry(&mut out, "min_via_annular_width", &rules.min_via_annular_width);
    assert(point_texts(out@) == rule_entries(t, 7));
    push_entry(&mut out, "min_copper_edge_clearance", &rules.min_copper_edge_clearance);
    assert(point_texts(out@) == rule_entries(t, 8));
    if out.len() == 0 {
        return Err(
            copy(
                "No design rule given. Accepted: min_clearance, min_trace_width, min_via_size, min_via_drill, min_hole_to_hole, min_hole_clearance, min_via_annular_width, min_copper_edge_clearance.",
            ),
        );
    }
    Ok(out)
}

/// The names that constraints are asked by and the keys that KiCAD keeps them
/// under, in order.
pub open spec fn rule_keys() -> Seq<(Seq<char>, Seq<char>)> {
    seq![
        ("min_clearance"@, "min_clearance"@),
        ("min_trace_width"@, "min_track_width"@),
        ("min_via_size"@, "min_via_diameter"@),
        ("min_via_drill"@, "min_through_hole_diameter"@),
        ("min_hole_to_hole"@, "min_hole_to_hole"@),
        ("min_hole_clearance"@, "min_hole_clearance"@),
        ("min_via_annular_width"@, "min_via_annular_width"@),
        ("min_copper_edge_clearance"@, "min_copper_edge_clearance"@),
    ]
}

/// The names that constraints are read by and the keys that KiCAD keeps them under.
pub fn design_rule_keys() -> (r: Vec<(String, String)>)
    ensures
        point_texts(r@) == rule_keys(),
{
    let mut out: Vec<(String, String)> = Vec::new();
    out.push((copy("min_clearance"), copy("min_clearance")));
    out.push((copy("min_trace_width"), copy("min_track_width")));
    out.push((copy("min_via_size"), copy("min_via_diameter")));
    out.push((copy("min_via_drill"), copy("min_through_hole_diameter")));
    out.push((copy("min_hole_to_hole"), copy("min_hole_to_hole")));
    out.push((copy("min_hole_clearance"), copy("min_hole_clearance")));
    out.push((copy("min_via_annular_width"), copy("min_via_annular_width")));
    out.push((copy("min_copper_edge_clearance"), copy("min_copper_edge_clearance")));
    assert(point_texts(out@) =~= rule_keys());
    out
}

/// What is set is read back: constraints are written under the keys that they are
/// read from.
pub proof fn law_rules_are_read_where_they_are_written(d: DesignRules, i: int)
    requires
        0 <= i < 8,
    ensures
        rule_table(d).len() == 8,
        rule_keys().len() == 8,
        rule_table(d)[i].0 == rule_keys()[i].0,
        rule_table(d)[i].1 == rule_keys()[i].1,
{
}

// ─── Project files ───────────────────────────────────────────────────────────

/// What is wrong with a text as JSON, in the words of the parser; `None` where it
/// is JSON.
pub uninterp spec fn json_fault(text: Seq<char>) -> Option<Seq<char>>;

/// `serde_json::from_str` into a `serde_json::Value`: whether the text is JSON, and
/// otherwise the error's own message. Which texts are JSON, and how the message
/// reads, is left to the parser; the same text always gives the same answer.
#[verifier::external_body]
fn find_json_fault(text: &str) -> (r: Option<String>)
    ensures
        string_opt(r) == json_fault(text@),
{
    match serde_json::from_str::<serde_json::Value>(text) {
        Ok(_) => None,
        Err(e) => Some(e.to_string()),
    }
}

/// The message for a project file that is not JSON.
pub open spec fn not_json_text(project: Seq<char>, fault: Seq<char>) -> Seq<char> {
    "'"@ + project + "' is not valid JSON: "@ + fault
}

/// Accept a project file, given what is wrong with it as JSON.
pub fn accept_project(project: &str, fault: &Option<String>) -> (r: Result<(), String>)
    ensures
        match string_opt(*fault) {
            None => r is Ok,
            Some(f) => r is Err && r->Err_0@ == not_json_text(project@, f),
        },
{
    match fault {
        None => Ok(()),
        Some(f) => {
            let mut out = copy("'");
            put(&mut out, project);
            put(&mut out, "' is not valid JSON: ");
            put(&mut out, f.as_str());
            Err(out)
        },
    }
}

/// Accept a project file only if it is JSON.
pub fn check_project(content: &str, project: &str) -> (r: Result<(), String>)
    ensures
        match json_fault(content@) {
            None => r is Ok,
            Some(f) => r is Err && r->Err_0@ == not_json_text(project@, f),
        },
{
    let fault = find_json_fault(content);
    accept_project(project, &fault)
}

/// Let an edited project file replace the old one, given whether it is JSON.
pub fn accept_output(is_json: bool) -> (r: Result<(), String>)
    ensures
        r is Ok == is_json,
        r is Err ==> r->Err_0@
            == "Internal error: the edited project file is not valid JSON — nothing was written."@,
{
    if is_json {
        Ok(())
    } else {
        Err(copy("Internal error: the edited project file is not valid JSON — nothing was written."))
    }
}

/// Read an edited project file once more before it replaces the old one.
pub fn check_output(content: &str) -> (r: Result<(), String>)
    ensures
        r is Ok == json_fault(content@).is_none(),
        r is Err ==> r->Err_0@
            == "Internal error: the edited project file is not valid JSON — nothing was written."@,
{
    let fault = find_json_fault(content);
    accept_output(fault.is_none())
}

/// The message where a board has no project file.
pub open spec fn no_project_text(project: Seq<char>) -> Seq<char> {
    "No project file at '"@ + project
        + "'. Design rule constraints are stored in .kicad_pro (board.design_settings.rules), not in .kicad_pcb, so the project file must exist."@
}

/// Refuse to set rules where there is no project file, rather than write them into
/// the board.
pub fn require_project(exists: bool, project: &str) -> (r: Result<(), String>)
    ensures
        r is Ok == exists,
        r is Err ==> r->Err_0@ == no_project_text(project@),
{
    if exists {
        return Ok(());
    }
    let mut out = copy("No project file at '");
    put(&mut out, project);
    put(
        &mut out,
        "'. Design rule constraints are stored in .kicad_pro (board.design_settings.rules), not in .kicad_pcb, so the project file must exist.",
    );
    Err(out)
}

/// The message where there are no rules to read.
pub open spec fn no_rules_text(project: Seq<char>) -> Seq<char> {
    "No project file at '"@ + project
        + "'. Design rule constraints live in .kicad_pro (board.design_settings.rules)."@
}

/// Refuse to read rules where there is no project file, rather than report none.
pub fn require_rules(exists: bool, project: &str) -> (r: Result<(), String>)
    ensures
        r is Ok == exists,
        r is Err ==> r->Err_0@ == no_rules_text(project@),
{
    if exists {
        return Ok(());
    }
    let mut out = copy("No project file at '");
    put(&mut out, project);
    put(
        &mut out,
        "'. Design rule constraints live in .kicad_pro (board.design_settings.rules).",
    );
    Err(out)
}

/// A file name with another ending: what follows its last dot is exchanged, unless
/// that dot begins it.
pub open spec fn with_ending(name: Seq<char>, ending: Seq<char>) -> Seq<char> {
    crate::schematic::stem(name) + "."@ + ending
}

/// The project file beside a board.
pub fn project_file_for(board_name: &str) -> (r: String)
    ensures
        r@ == with_ending(board_name@, "kicad_pro"@),
{
    let mut out = crate::schematic::project_name_for(&Some(copy(board_name)));
    put(&mut out, ".");
    put(&mut out, "kicad_pro");
    out
}

// ─── The editor ──────────────────────────────────────────────────────────────

/// What to do after asking a started editor whether it answers.
#[derive(Clone, Copy, Debug, PartialEq, Eq, Structural)]
pub enum Poll {
    Ready,
    TimedOut,
    Again,
}

/// What to do after asking a started editor whether it answers: an answer ends the
/// wait, and so does the deadline.
pub fn poll_step(answered: bool, waited_ms: u64, timeout_ms: u64) -> (r: Poll)
    ensures
        r == (if answered {
            Poll::Ready
        } else if waited_ms >= timeout_ms {
            Poll::TimedOut
        } else {
            Poll::Again
        }),
{
    if answered {
        Poll::Ready
    } else if waited_ms >= timeout_ms {
        Poll::TimedOut
    } else {
        Poll::Again
    }
}

// ─── Copying routing ─────────────────────────────────────────────────────────

/// Ranges as pairs of integers.
pub open spec fn spans(v: Seq<(usize, usize)>) -> Seq<(int, int)> {
    Seq::new(v.len(), |i: int| (v[i].0 as int, v[i].1 as int))
}

/// The blocks at the first `n` openings, where they close.
pub open spec fn closed_blocks(s: Seq<u8>, starts: Seq<int>, n: int) -> Seq<(int, int)>
    decreases n,
{
    if n <= 0 {
        Seq::empty()
    } else {
        match block_end(s, starts[n - 1]) {
            Some(e) => closed_blocks(s, starts, n - 1).push((starts[n - 1], e)),
            None => closed_blocks(s, starts, n - 1),
        }
    }
}

/// The tracks of a board, then its vias.
pub open spec fn routing_blocks(s: Seq<u8>) -> Seq<(int, int)> {
    let a = top_level_starts(s, bytes("segment"@), s.len() as int);
    let b = top_level_starts(s, bytes("via"@), s.len() as int);
    closed_blocks(s, a, a.len() as int) + closed_blocks(s, b, b.len() as int)
}

fn push_blocks(out: &mut Vec<(usize, usize)>, content: &str, starts: &Vec<usize>)
    requires
        forall|i: int| 0 <= i < starts.len() ==> opens(bytes(content@), #[trigger] starts[i] as int),
        forall|i: int|
            0 <= i < old(out).len() ==> closes_at(
                bytes(content@),
                (#[trigger] old(out)[i]).0 as int,
                old(out)[i].1 as int,
            ),
    ensures
        spans(final(out)@) == spans(old(out)@) + closed_blocks(
            bytes(content@),
            offsets(starts@),
            starts.len() as int,
        ),
        forall|i: int|
            0 <= i < final(out).len() ==> closes_at(
                bytes(content@),
                (#[trigger] final(out)[i]).0 as int,
                final(out)[i].1 as int,
            ),
{
    let ghost s = bytes(content@);
    let ghost all = offsets(starts@);
    let ghost head = spans(out@);
    let mut i: usize = 0;
    assert(head + closed_blocks(s, all, 0) =~= head);
    while i < starts.len()
        invariant
            i <= starts.len(),
            s == bytes(content@),
            all == offsets(starts@),
            forall|k: int| 0 <= k < starts.len() ==> opens(s, #[trigger] starts[k] as int),
            forall|k: int|
                0 <= k < out.len() ==> closes_at(s, (#[trigger] out[k]).0 as int, out[k].1 as int),
            spans(out@) == head + closed_blocks(s, all, i as int),
        decreases starts.len() - i,
    {
        assert(all[i as int] == starts[i as int]);
        match find_block_end(content, starts[i]) {
            Some(e) => {
                let ghost was = closed_blocks(s, all, i as int);
                let ghost before = spans(out@);
                out.push((starts[i], e));
                assert(spans(out@) =~= before.push((all[i as int], e as int)));
                assert(spans(out@) =~= head + was.push((all[i as int], e as int)));
            },
            None => {},
        }
        i += 1;
    }
}

/// Find all `(segment …)` and `(via …)` blocks of a board, whatever its
/// indentation.
pub fn find_routing_blocks(content: &str) -> (r: Vec<(usize, usize)>)
    ensures
        spans(r@) == routing_blocks(bytes(content@)),
        forall|i: int|
            0 <= i < r.len() ==> closes_at(
                bytes(content@),
                (#[trigger] r[i]).0 as int,
                r[i].1 as int,
            ),
{
    let mut out: Vec<(usize, usize)> = Vec::new();
    let ghost s = bytes(content@);
    let segments = top_level_block_starts(content, "segment");
    let vias = top_level_block_starts(content, "via");
    assert(spans(out@) =~= Seq::<(int, int)>::empty());
    push_blocks(&mut out, content, &segments);
    push_blocks(&mut out, content, &vias);
    proof {
        let a = closed_blocks(s, offsets(segments@), segments.len() as int);
        assert(Seq::<(int, int)>::empty() + a =~= a);
    }
    out
}

/// The two numbers of the first `(key X Y …)` of a block.
pub open spec fn first_pair(s: Seq<u8>, key: Seq<char>) -> Option<(Seq<char>, Seq<char>)> {
    let head = bytes(key);
    match first_match(s, head, 0) {
        None => None,
        Some(p) => match first_byte(s, CLOSE, p + head.len()) {
            None => None,
            Some(e) => {
                let w = white_words(text_of(s.subrange(p + head.len(), e)));
                if w.len() >= 2 && is_number(bytes(w[0])) && is_number(bytes(w[1])) {
                    Some((w[0], w[1]))
                } else {
                    None
                }
            },
        },
    }
}

fn read_first_pair(block: &str, key: &str) -> (r: Option<(String, String)>)
    requires
        key@.len() > 0,
    ensures
        crate::types::pair_opt(r) == first_pair(bytes(block@), key@),
{
    let ghost s = bytes(block@);
    let p = match find_from(block, key, 0) {
        None => {
            return None;
        },
        Some(p) => p,
    };
    let n = length(block);
    let m = length(key);
    proof {
        lemma_match_cuts(block@, p as int, key@);
    }
    assert(p + m <= n);
    let e = match find_byte(block, CLOSE, p + m) {
        None => {
            return None;
        },
        Some(e) => e,
    };
    proof {
        lemma_first_byte(s, CLOSE, p + m);
        lemma_ascii_boundary(block@, e as int);
    }
    let w = split_white(slice(block, p + m, e));
    let ghost all = texts(w@);
    if w.len() < 2 {
        return None;
    }
    assert(all[0] == w[0]@ && all[1] == w[1]@);
    if number(w[0].as_str()) && number(w[1].as_str()) {
        Some((copy(w[0].as_str()), copy(w[1].as_str())))
    } else {
        None
    }
}

/// The coordinates in `(start X Y)` of a routing block.
pub fn extract_start_xy(block: &str) -> (r: Option<(String, String)>)
    ensures
        crate::types::pair_opt(r) == first_pair(bytes(block@), "(start "@),
{
    proof {
        reveal_strlit("(start ");
    }
    read_first_pair(block, "(start ")
}

/// Where a routing block stands: a track at its start, a via at its centre.
pub open spec fn anchor_of(s: Seq<u8>) -> Option<(Seq<char>, Seq<char>)> {
    match first_pair(s, "(start "@) {
        Some(p) => Some(p),
        None => first_pair(s, "(at "@),
    }
}

/// Where a routing block stands.
pub fn routing_anchor(block: &str) -> (r: Option<(String, String)>)
    ensures
        crate::types::pair_opt(r) == anchor_of(bytes(block@)),
{
    match extract_start_xy(block) {
        Some(p) => Some(p),
        None => {
            proof {
                reveal_strlit("(at ");
            }
            read_first_pair(block, "(at ")
        },
    }
}

/// A coordinate pair of a block: the words between a key and the next closing
/// parenthesis, where the first two are numbers.
pub open spec fn is_pair(words: Seq<Seq<char>>) -> bool {
    words.len() >= 2 && is_number(bytes(words[0])) && is_number(bytes(words[1]))
}

/// The coordinate pairs after the key, from `i` on.
pub open spec fn pairs_from(s: Seq<u8>, key: Seq<u8>, i: int) -> Seq<(Seq<char>, Seq<char>)>
    decreases s.len() - i,
{
    if i < 0 || i > s.len() || key.len() == 0 {
        Seq::empty()
    } else {
        match first_match(s, key, i) {
            None => Seq::empty(),
            Some(p) => match first_byte(s, CLOSE, p + key.len()) {
                None => Seq::empty(),
                Some(e) => if p < i || e < p || e >= s.len() {
                    Seq::empty()
                } else {
                    let w = white_words(text_of(s.subrange(p + key.len(), e)));
                    let rest = pairs_from(s, key, e + 1);
                    if is_pair(w) {
                        seq![(w[0], w[1])] + rest
                    } else {
                        rest
                    }
                },
            },
        }
    }
}

/// What stands in the place of a coordinate pair: the new numbers, and what
/// followed the old ones.
pub open spec fn shifted_words(to: (Seq<char>, Seq<char>), words: Seq<Seq<char>>) -> Seq<char> {
    let xy = to.0 + " "@ + to.1;
    if words.len() > 2 {
        xy + " "@ + joined(words.skip(2), " "@)
    } else {
        xy
    }
}

/// The bytes from `i` on with each coordinate pair after the key exchanged, from
/// the `k`-th of the new ones on.
pub open spec fn shifted_from(
    s: Seq<u8>,
    key: Seq<u8>,
    i: int,
    to: Seq<(Seq<char>, Seq<char>)>,
    k: int,
) -> Seq<u8>
    decreases s.len() - i,
{
    let n = s.len() as int;
    if i < 0 || i > n {
        Seq::empty()
    } else {
        match first_match(s, key, i) {
            None => s.subrange(i, n),
            Some(p) => match first_byte(s, CLOSE, p + key.len()) {
                None => s.subrange(i, n),
                Some(e) => if key.len() == 0 || p < i || e < p + key.len() || e >= n {
                    s.subrange(i, n)
                } else {
                    let a = p + key.len();
                    let w = white_words(text_of(s.subrange(a, e)));
                    if is_pair(w) && 0 <= k < to.len() {
                        s.subrange(i, a) + bytes(shifted_words(to[k], w)) + bytes(")"@) + shifted_from(
                            s,
                            key,
                            e + 1,
                            to,
                            k + 1,
                        )
                    } else {
                        s.subrange(i, e + 1) + shifted_from(s, key, e + 1, to, k)
                    }
                },
            },
        }
    }
}

/// The coordinate pairs of a block after a key such as `(start `.
pub fn coordinate_pairs(block: &str, key: &str) -> (r: Vec<(String, String)>)
    requires
        key@.len() > 0,
    ensures
        point_texts(r@) == pairs_from(bytes(block@), bytes(key@), 0),
{
    let ghost s = bytes(block@);
    let ghost k8 = bytes(key@);
    let n = length(block);
    let m = length(key);
    let mut out: Vec<(String, String)> = Vec::new();
    let mut i: usize = 0;
    proof {
        lemma_ends(block@);
        lemma_key(key@);
        assert(point_texts(out@) + pairs_from(s, k8, 0) =~= pairs_from(s, k8, 0));
    }
    loop
        invariant
            s == bytes(block@),
            k8 == bytes(key@),
            n == s.len(),
            m == k8.len(),
            m > 0,
            key@.len() > 0,
            i <= n,
            point_texts(out@) + pairs_from(s, k8, i as int) == pairs_from(s, k8, 0),
        decreases n - i,
    {
        let p = match find_from(block, key, i) {
            None => {
                assert(point_texts(out@) + Seq::<(Seq<char>, Seq<char>)>::empty() =~= point_texts(
                    out@,
                ));
                return out;
            },
            Some(p) => p,
        };
        proof {
            lemma_match_cuts(block@, p as int, key@);
        }
        assert(p + m <= n);
        let e = match find_byte(block, CLOSE, p + m) {
            None => {
                assert(point_texts(out@) + Seq::<(Seq<char>, Seq<char>)>::empty() =~= point_texts(
                    out@,
                ));
                return out;
            },
            Some(e) => e,
        };
        proof {
            lemma_first_byte(s, CLOSE, p + m);
            lemma_ascii_boundary(block@, e as int);
        }
        let w = split_white(slice(block, p + m, e));
        let ghost all = texts(w@);
        if w.len() >= 2 {
            assert(all[0] == w[0]@ && all[1] == w[1]@);
            if number(w[0].as_str()) && number(w[1].as_str()) {
                let ghost was = point_texts(out@);
                let ghost x = (w[0]@, w[1]@);
                out.push((copy(w[0].as_str()), copy(w[1].as_str())));
                proof {
                    assert(point_texts(out@) =~= was.push(x));
                    let rest = pairs_from(s, k8, e + 1);
                    assert(was + (seq![x] + rest) =~= point_texts(out@) + rest);
                }
            }
        }
        i = e + 1;
    }
}

proof fn lemma_key(key: Seq<char>)
    requires
        key.len() > 0,
    ensures
        bytes(key).len() > 0,
{
    if bytes(key).len() == 0 {
        assert(bytes(key) =~= bytes(Seq::<char>::empty()));
        crate::text::lemma_bytes_injective(key, Seq::empty());
    }
}

fn write_pair(to: &(String, String), words: &Vec<String>) -> (r: String)
    ensures
        r@ == shifted_words((to.0@, to.1@), texts(words@)),
{
    let mut out = copy(to.0.as_str());
    put(&mut out, " ");
    put(&mut out, to.1.as_str());
    if words.len() > 2 {
        let mut rest: Vec<String> = Vec::new();
        let mut i: usize = 2;
        while i < words.len()
            invariant
                2 <= i <= words.len(),
                rest.len() == i - 2,
                forall|k: int| 0 <= k < rest.len() ==> (#[trigger] rest[k])@ == words[k + 2]@,
            decreases words.len() - i,
        {
            rest.push(copy(words[i].as_str()));
            i += 1;
        }
        assert(texts(rest@) =~= texts(words@).skip(2));
        put(&mut out, " ");
        put(&mut out, join_all(&rest, " ").as_str());
    }
    out
}

/// A block with its coordinate pairs after the key exchanged for new ones.
pub fn shift_pairs(block: &str, key: &str, to: &Vec<(String, String)>) -> (r: String)
    requires
        key@.len() > 0,
    ensures
        bytes(r@) == shifted_from(bytes(block@), bytes(key@), 0, point_texts(to@), 0),
{
    let ghost s = bytes(block@);
    let ghost k8 = bytes(key@);
    let ghost news = point_texts(to@);
    let n = length(block);
    let m = length(key);
    let mut out = String::new();
    let mut i: usize = 0;
    let mut k: usize = 0;
    proof {
        lemma_ends(block@);
        lemma_key(key@);
        assert(out@ =~= Seq::<char>::empty());
        assert(bytes(out@) =~= Seq::<u8>::empty());
        assert(bytes(out@) + shifted_from(s, k8, 0, news, 0) =~= shifted_from(s, k8, 0, news, 0));
    }
    loop
        invariant
            s == bytes(block@),
            k8 == bytes(key@),
            news == point_texts(to@),
            n == s.len(),
            m == k8.len(),
            m > 0,
            key@.len() > 0,
            i <= n,
            k <= to.len(),
            boundary(s, i as int),
            bytes(out@) + shifted_from(s, k8, i as int, news, k as int) == shifted_from(
                s,
                k8,
                0,
                news,
                0,
            ),
        decreases n - i,
    {
        let p = match find_from(block, key, i) {
            None => {
                put(&mut out, slice_from(block, i));
                return out;
            },
            Some(p) => p,
        };
        proof {
            lemma_match_cuts(block@, p as int, key@);
        }
        assert(p + m <= n);
        let e = match find_byte(block, CLOSE, p + m) {
            None => {
                put(&mut out, slice_from(block, i));
                return out;
            },
            Some(e) => e,
        };
        proof {
            lemma_first_byte(s, CLOSE, p + m);
            lemma_ascii_boundary(block@, e as int);
        }
        let a: usize = p + m;
        let w = split_white(slice(block, a, e));
        let ghost all = texts(w@);
        let ghost was = bytes(out@);
        assert(w.len() >= 2 ==> all[0] == w[0]@ && all[1] == w[1]@);
        if w.len() >= 2 && number(w[0].as_str()) && number(w[1].as_str()) && k < to.len() {
            assert(news[k as int] == (to[k as int].0@, to[k as int].1@));
            put(&mut out, slice(block, i, a));
            put(&mut out, write_pair(&to[k], &w).as_str());
            put(&mut out, ")");
            proof {
                let rest = shifted_from(s, k8, e + 1, news, k + 1);
                let x = s.subrange(i as int, a as int);
                let y = bytes(shifted_words(news[k as int], all));
                assert(was + (x + y + bytes(")"@) + rest) =~= bytes(out@) + rest);
            }
            k += 1;
        } else {
            put(&mut out, slice(block, i, e + 1));
            proof {
                let rest = shifted_from(s, k8, e + 1, news, k as int);
                let x = s.subrange(i as int, e + 1);
                assert(was + (x + rest) =~= bytes(out@) + rest);
            }
        }
        i = e + 1;
    }
}

/// A net's reference by name.
pub open spec fn net_ref_text(name: Seq<char>) -> Seq<char> {
    "(net \""@ + name + "\")"@
}

/// The block with nets renamed by the first `n` entries of the map, one after the
/// other.
pub open spec fn remapped(s: Seq<u8>, map: Seq<(Seq<char>, Seq<char>)>, n: int) -> Seq<u8>
    decreases n,
{
    if n <= 0 {
        s
    } else {
        replaced_all(
            remapped(s, map, n - 1),
            bytes(net_ref_text(map[n - 1].0)),
            bytes(net_ref_text(map[n - 1].1)),
            0,
        )
    }
}

fn write_net_ref(name: &str) -> (r: String)
    ensures
        r@ == net_ref_text(name@),
        r@.len() > 0,
{
    let mut out = copy("(net \"");
    put(&mut out, name);
    put(&mut out, "\")");
    proof {
        reveal_strlit("(net \"");
    }
    out
}

/// Rename the nets of a block, by the entries of a map in the order given.
pub fn remap_nets(block: &str, map: &Vec<(String, String)>) -> (r: String)
    ensures
        bytes(r@) == remapped(bytes(block@), point_texts(map@), map.len() as int),
{
    let ghost all = point_texts(map@);
    let mut out = copy(block);
    let mut i: usize = 0;
    while i < map.len()
        invariant
            i <= map.len(),
            all == point_texts(map@),
            bytes(out@) == remapped(bytes(block@), all, i as int),
        decreases map.len() - i,
    {
        assert(all[i as int] == (map[i as int].0@, map[i as int].1@));
        let old_ref = write_net_ref(map[i].0.as_str());
        let new_ref = write_net_ref(map[i].1.as_str());
        out = replace_all(out.as_str(), old_ref.as_str(), new_ref.as_str());
        i += 1;
    }
    out
}

/// A copy of a track or via: the new places of its three kinds of points, then the
/// nets by the map.
pub open spec fn copied_block(
    s: Seq<u8>,
    starts: Seq<(Seq<char>, Seq<char>)>,
    ends: Seq<(Seq<char>, Seq<char>)>,
    ats: Seq<(Seq<char>, Seq<char>)>,
    nets: Seq<(Seq<char>, Seq<char>)>,
) -> Seq<u8> {
    let a = shifted_from(s, bytes("(start "@), 0, starts, 0);
    let b = shifted_from(a, bytes("(end "@), 0, ends, 0);
    let c = shifted_from(b, bytes("(at "@), 0, ats, 0);
    remapped(c, nets, nets.len() as int)
}

/// A copy of a track or via with its points and its net exchanged.
pub fn copy_block(
    block: &str,
    starts: &Vec<(String, String)>,
    ends: &Vec<(String, String)>,
    ats: &Vec<(String, String)>,
    nets: &Vec<(String, String)>,
) -> (r: String)
    ensures
        bytes(r@) == copied_block(
            bytes(block@),
            point_texts(starts@),
            point_texts(ends@),
            point_texts(ats@),
            point_texts(nets@),
        ),
{
    proof {
        reveal_strlit("(start ");
        reveal_strlit("(end ");
        reveal_strlit("(at ");
    }
    let a = shift_pairs(block, "(start ", starts);
    let b = shift_pairs(a.as_str(), "(end ", ends);
    let c = shift_pairs(b.as_str(), "(at ", ats);
    remap_nets(c.as_str(), nets)
}

/// The bytes from `i` on with each uuid exchanged, from the `k`-th of the new ones
/// on.
pub open spec fn reassigned(s: Seq<u8>, i: int, ids: Seq<Seq<char>>, k: int) -> Seq<u8>
    decreases s.len() - i,
{
    let n = s.len() as int;
    if i < 0 || i > n {
        Seq::empty()
    } else {
        match first_match(s, bytes("(uuid \""@), i) {
            None => s.subrange(i, n),
            Some(p) => match first_byte(s, QUOTE, p + 7) {
                None => s.subrange(i, n),
                Some(e) => if p < i || e < p || e >= n {
                    s.subrange(i, n)
                } else {
                    s.subrange(i, p + 7) + bytes(ids[k]) + bytes("\""@) + reassigned(
                        s,
                        e + 1,
                        ids,
                        k + 1,
                    )
                },
            },
        }
    }
}

/// How many uuids stand in the bytes from `i` on.
pub open spec fn uuid_count(s: Seq<u8>, i: int) -> int
    decreases s.len() - i,
{
    let n = s.len() as int;
    if i < 0 || i > n {
        0
    } else {
        match first_match(s, bytes("(uuid \""@), i) {
            None => 0,
            Some(p) => match first_byte(s, QUOTE, p + 7) {
                None => 0,
                Some(e) => if p < i || e < p || e >= n {
                    0
                } else {
                    1 + uuid_count(s, e + 1)
                },
            },
        }
    }
}

proof fn lemma_uuid_count(s: Seq<u8>, i: int)
    ensures
        uuid_count(s, i) >= 0,
    decreases s.len() - i,
{
    let n = s.len() as int;
    if 0 <= i <= n {
        if let Some(p) = first_match(s, bytes("(uuid \""@), i) {
            if let Some(e) = first_byte(s, QUOTE, p + 7) {
                if !(p < i || e < p || e >= n) {
                    lemma_uuid_count(s, e + 1);
                }
            }
        }
    }
}

/// Exchange the uuids after the boundary for the given ones, in order.
pub fn reassign_uuids_as(content: &str, insert_boundary: usize, ids: &Vec<String>) -> (r: String)
    requires
        insert_boundary <= bytes(content@).len(),
        boundary(bytes(content@), insert_boundary as int),
        uuid_count(bytes(content@), insert_boundary as int) <= ids.len(),
    ensures
        bytes(r@) == bytes(content@).subrange(0, insert_boundary as int) + reassigned(
            bytes(content@),
            insert_boundary as int,
            texts(ids@),
            0,
        ),
{
    let ghost s = bytes(content@);
    let ghost all = texts(ids@);
    let ghost b0 = insert_boundary as int;
    let n = length(content);
    let mut i: usize = insert_boundary;
    let mut k: usize = 0;
    proof {
        lemma_ends(content@);
    }
    let mut out = copy(slice(content, 0, insert_boundary));
    loop
        invariant
            s == bytes(content@),
            all == texts(ids@),
            n == s.len(),
            i <= n,
            boundary(s, i as int),
            k + uuid_count(s, i as int) <= ids.len(),
            b0 == insert_boundary,
            bytes(out@) + reassigned(s, i as int, all, k as int) == s.subrange(0, b0) + reassigned(
                s,
                b0,
                all,
                0,
            ),
        decreases n - i,
    {
        let p = match find_from(content, "(uuid \"", i) {
            None => {
                put(&mut out, slice_from(content, i));
                return out;
            },
            Some(p) => p,
        };
        proof {
            reveal_strlit("(uuid \"");
            lemma_match_boundary(content@, p as int, "(uuid \""@);
        }
        assert(p + 7 <= n);
        let e = match find_byte(content, QUOTE, p + 7) {
            None => {
                put(&mut out, slice_from(content, i));
                return out;
            },
            Some(e) => e,
        };
        proof {
            lemma_first_byte(s, QUOTE, p + 7);
            lemma_ascii_boundary(content@, e as int);
            lemma_uuid_count(s, e + 1);
        }
        let ghost was = bytes(out@);
        put(&mut out, slice(content, i, p + 7));
        put(&mut out, ids[k].as_str());
        put(&mut out, "\"");
        proof {
            assert(all[k as int] == ids[k as int]@);
            let rest = reassigned(s, e + 1, all, k + 1);
            let x = s.subrange(i as int, p + 7);
            assert(was + (x + bytes(all[k as int]) + bytes("\""@) + rest) =~= bytes(out@) + rest);
        }
        i = e + 1;
        k += 1;
    }
}

fn count_uuids(content: &str, from: usize) -> (r: usize)
    requires
        from <= bytes(content@).len(),
    ensures
        r == uuid_count(bytes(content@), from as int),
{
    let ghost s = bytes(content@);
    let n = length(content);
    let mut i: usize = from;
    let mut k: usize = 0;
    loop
        invariant
            s == bytes(content@),
            n == s.len(),
            from <= i <= n,
            k <= i - from,
            k + uuid_count(s, i as int) == uuid_count(s, from as int),
        decreases n - i,
    {
        let p = match find_from(content, "(uuid \"", i) {
            None => {
                return k;
            },
            Some(p) => p,
        };
        proof {
            reveal_strlit("(uuid \"");
            lemma_match_boundary(content@, p as int, "(uuid \""@);
        }
        assert(p + 7 <= n);
        let e = match find_byte(content, QUOTE, p + 7) {
            None => {
                return k;
            },
            Some(e) => e,
        };
        proof {
            lemma_first_byte(s, QUOTE, p + 7);
        }
        i = e + 1;
        k += 1;
    }
}

/// Give every item after the boundary a fresh uuid.
pub fn reassign_uuids(content: &str, insert_boundary: usize) -> (r: (Vec<String>, String))
    requires
        insert_boundary <= bytes(content@).len(),
        boundary(bytes(content@), insert_boundary as int),
    ensures
        r.0.len() == uuid_count(bytes(content@), insert_boundary as int),
        forall|i: int| 0 <= i < r.0.len() ==> is_uuid((#[trigger] r.0[i])@),
        bytes(r.1@) == bytes(content@).subrange(0, insert_boundary as int) + reassigned(
            bytes(content@),
            insert_boundary as int,
            texts(r.0@),
            0,
        ),
{
    let count = count_uuids(content, insert_boundary);
    let mut ids: Vec<String> = Vec::new();
    while ids.len() < count
        invariant
            ids.len() <= count,
            forall|i: int| 0 <= i < ids.len() ==> is_uuid((#[trigger] ids[i])@),
        decreases count - ids.len(),
    {
        ids.push(new_uuid());
    }
    let out = reassign_uuids_as(content, insert_boundary, &ids);
    (ids, out)
}

/// The board with copied blocks before its last closing parenthesis, a line each.
pub open spec fn with_copies(s: Seq<u8>, copies: Seq<Seq<char>>) -> Seq<u8> {
    let p = append_place(s);
    s.subrange(0, p) + bytes("\n"@) + bytes(joined(copies, "\n"@)) + bytes("\n"@) + s.subrange(
        p,
        s.len() as int,
    )
}

/// Put copied routing on the board, each item under a fresh uuid. `None` where
/// there is nothing to copy.
pub fn paste_routing(content: &str, copies: &Vec<String>) -> (r: Option<(Vec<String>, String)>)
    ensures
        match r {
            None => copies.len() == 0,
            Some((ids, t)) => {
                let s = with_copies(bytes(content@), texts(copies@));
                let p = append_place(bytes(content@));
                &&& copies.len() > 0
                &&& ids.len() == uuid_count(s, p)
                &&& forall|i: int| 0 <= i < ids.len() ==> is_uuid((#[trigger] ids[i])@)
                &&& bytes(t@) == s.subrange(0, p) + reassigned(s, p, texts(ids@), 0)
            },
        },
{
    if copies.len() == 0 {
        return None;
    }
    let at: usize = match rfind_byte(content, CLOSE) {
        Some(p) => {
            proof {
                lemma_ascii_boundary(content@, p as int);
            }
            p
        },
        None => {
            proof {
                lemma_ends(content@);
            }
            length(content)
        },
    };
    proof {
        lemma_ends(content@);
    }
    let mut out = copy(slice(content, 0, at));
    let ghost head = out@;
    put(&mut out, "\n");
    put(&mut out, join_all(copies, "\n").as_str());
    put(&mut out, "\n");
    put(&mut out, slice_from(content, at));
    proof {
        let s = with_copies(bytes(content@), texts(copies@));
        assert(bytes(out@) =~= s);
        reveal_strlit("\n");
        lemma_bytes_ascii("\n"@);
        assert(bytes(out@)[at as int] == 0x0a);
        lemma_ascii_boundary(out@, at as int);
    }
    Some(reassign_uuids(out.as_str(), at))
}

// ─── Custom rules ────────────────────────────────────────────────────────────

/// The header of a rule with the name.
pub open spec fn rule_head(name: Seq<u8>) -> Seq<u8> {
    bytes("(rule \""@) + name + bytes("\""@)
}

/// The block of the rule with the name, from the `k`-th opening on.
pub open spec fn rule_block(s: Seq<u8>, name: Seq<u8>, starts: Seq<int>, k: int) -> Option<(int, int)>
    decreases starts.len() - k,
{
    if k < 0 || k >= starts.len() {
        None
    } else if matches_at(s, starts[k], rule_head(name)) && balanced_block(s, starts[k]).is_some() {
        balanced_block(s, starts[k])
    } else {
        rule_block(s, name, starts, k + 1)
    }
}

/// The rules with one of the name set: it takes the place of the old one, or is
/// added at the end.
pub open spec fn upserted(s: Seq<u8>, name: Seq<u8>, rule: Seq<u8>) -> Seq<u8> {
    match rule_block(s, name, block_starts(s, bytes("rule"@), s.len() as int), 0) {
        Some((a, b)) => replaced(s, a, b, rule),
        None => bytes(trim_back(text_of(s))) + bytes("\n\n"@) + rule + bytes("\n"@),
    }
}

/// Put a rule into a `.kicad_dru`, replacing one of the same name so that repeated
/// calls do not stack up.
pub fn upsert_dru_rule(content: &str, name: &str, rule_text: &str) -> (r: String)
    ensures
        bytes(r@) == upserted(bytes(content@), bytes(name@), bytes(rule_text@)),
{
    let ghost s = bytes(content@);
    let mut head = copy("(rule \"");
    put(&mut head, name);
    put(&mut head, "\"");
    let starts = find_block_starts(content, "rule");
    let ghost all = offsets(starts@);
    let mut k: usize = 0;
    while k < starts.len()
        invariant
            k <= starts.len(),
            s == bytes(content@),
            bytes(head@) == rule_head(bytes(name@)),
            all == offsets(starts@),
            all == block_starts(s, bytes("rule"@), s.len() as int),
            rule_block(s, bytes(name@), all, 0) == rule_block(s, bytes(name@), all, k as int),
        decreases starts.len() - k,
    {
        assert(all[k as int] == starts[k as int]);
        if match_at(content, starts[k], head.as_str()) {
            match find_balanced_block(content, starts[k]) {
                Some((a, b)) => {
                    proof {
                        lemma_block_cuttable(content@, a as int, b as int);
                    }
                    return replace(content, a, b, rule_text);
                },
                None => {},
            }
        }
        k += 1;
    }
    let mut out = copy(content.trim_end());
    put(&mut out, "\n\n");
    put(&mut out, rule_text);
    put(&mut out, "\n");
    proof {
        crate::text::lemma_bytes_valid(content@);
    }
    out
}

/// The name of a layer's rules: its dots become underscores.
pub open spec fn rule_base(layer: Seq<char>) -> Seq<u8> {
    replaced_all(bytes(layer), bytes("."@), bytes("_"@), 0) + bytes("_constraints"@)
}

/// A layer's rule for a constraint.
pub open spec fn rule_of(
    layer: Seq<char>,
    suffix: Seq<char>,
    constraint: Seq<char>,
    value: Seq<char>,
) -> (Seq<u8>, Seq<u8>) {
    let name = rule_base(layer) + bytes("_"@) + bytes(suffix);
    (
        name,
        bytes("(rule \""@) + name + bytes("\"\n\t(constraint "@) + bytes(constraint) + bytes(
            " (min "@,
        ) + bytes(value) + bytes("mm))\n\t(condition \"A.Layer == '"@) + bytes(layer) + bytes(
            "'\"))"@,
        ),
    )
}

/// The rules of a layer after a constraint is set, where a value is given.
pub open spec fn rule_step(
    s: Seq<u8>,
    names: Seq<Seq<u8>>,
    layer: Seq<char>,
    suffix: Seq<char>,
    constraint: Seq<char>,
    value: Option<Seq<char>>,
) -> (Seq<u8>, Seq<Seq<u8>>) {
    match value {
        None => (s, names),
        Some(v) => {
            let (name, rule) = rule_of(layer, suffix, constraint, v);
            (upserted(s, name, rule), names.push(name))
        },
    }
}

/// The rules of a layer after its clearance and its track width are set.
pub open spec fn constrained(
    s: Seq<u8>,
    layer: Seq<char>,
    clearance: Option<Seq<char>>,
    width: Option<Seq<char>>,
) -> (Seq<u8>, Seq<Seq<u8>>) {
    let (t, names) = rule_step(s, Seq::empty(), layer, "clearance"@, "clearance"@, clearance);
    rule_step(t, names, layer, "trace_width"@, "track_width"@, width)
}

fn write_rule(layer: &str, suffix: &str, constraint: &str, value: &str) -> (r: (String, String))
    ensures
        (bytes(r.0@), bytes(r.1@)) == rule_of(layer@, suffix@, constraint@, value@),
{
    proof {
        reveal_strlit(".");
    }
    let mut name = replace_all(layer, ".", "_");
    put(&mut name, "_constraints");
    put(&mut name, "_");
    put(&mut name, suffix);
    let mut rule = copy("(rule \"");
    put(&mut rule, name.as_str());
    put(&mut rule, "\"\n\t(constraint ");
    put(&mut rule, constraint);
    put(&mut rule, " (min ");
    put(&mut rule, value);
    put(&mut rule, "mm))\n\t(condition \"A.Layer == '");
    put(&mut rule, layer);
    put(&mut rule, "'\"))");
    (name, rule)
}

fn set_rule(
    content: String,
    names: &mut Vec<String>,
    layer: &str,
    suffix: &str,
    constraint: &str,
    value: &Option<String>,
) -> (r: String)
    ensures
        (bytes(r@), crate::library::bytes_all(final(names)@)) == rule_step(
            bytes(content@),
            crate::library::bytes_all(old(names)@),
            layer@,
            suffix@,
            constraint@,
            string_opt(*value),
        ),
{
    match value {
        None => content,
        Some(v) => {
            let (name, rule) = write_rule(layer, suffix, constraint, v.as_str());
            let out = upsert_dru_rule(content.as_str(), name.as_str(), rule.as_str());
            let ghost was = crate::library::bytes_all(names@);
            let ghost m = bytes(name@);
            names.push(name);
            assert(crate::library::bytes_all(names@) =~= was.push(m));
            out
        },
    }
}

/// Set the constraints of a layer as custom rules. `existing` is the project's
/// `.kicad_dru`, where it has one.
pub fn set_layer_constraints(
    existing: &Option<String>,
    layer: &str,
    min_clearance: &Option<String>,
    min_trace_width: &Option<String>,
) -> (r: Result<(Vec<String>, String), String>)
    ensures
        ({
            let s = match existing {
                Some(t) => bytes(t@),
                None => bytes("(version 1)\n"@),
            };
            let (t, names) = constrained(
                s,
                layer@,
                string_opt(*min_clearance),
                string_opt(*min_trace_width),
            );
            if min_clearance.is_none() && min_trace_width.is_none() {
                r is Err && r->Err_0@ == "Give at least one of min_clearance or min_trace_width."@
            } else if parse_text(t) is Err {
                r is Err && r->Err_0@
                    == "Internal error: the edited .kicad_dru does not parse — nothing was written."@
            } else {
                r is Ok && crate::library::bytes_all(r->Ok_0.0@) == names && bytes(r->Ok_0.1@) == t
            }
        }),
{
    let content = match existing {
        Some(t) => copy(t.as_str()),
        None => copy("(version 1)\n"),
    };
    let mut names: Vec<String> = Vec::new();
    assert(crate::library::bytes_all(names@) =~= Seq::<Seq<u8>>::empty());
    let content = set_rule(content, &mut names, layer, "clearance", "clearance", min_clearance);
    let content = set_rule(
        content,
        &mut names,
        layer,
        "trace_width",
        "track_width",
        min_trace_width,
    );
    if min_clearance.is_none() && min_trace_width.is_none() {
        return Err(copy("Give at least one of min_clearance or min_trace_width."));
    }
    match parse_sexp(content.as_str()) {
        Err(_) => Err(
            copy("Internal error: the edited .kicad_dru does not parse — nothing was written."),
        ),
        Ok(_) => Ok((names, content)),
    }
}

// ─── Clearance ───────────────────────────────────────────────────────────────

/// The answer to where the footprint with the designator stands.
pub open spec fn is_position(r: Result<(String, String), String>, tree: Sexp, reference: Seq<char>) -> bool {
    match footprint_in(tree, reference) {
        None => r is Err && r->Err_0@ == "Footprint '"@ + reference + "' not found on board"@,
        Some(fp) => r is Ok && r->Ok_0.0@ == coordinate(fp, "at"@, 1) && r->Ok_0.1@ == coordinate(
            fp,
            "at"@,
            2,
        ),
    }
}

/// Where the footprint with the designator stands.
pub fn find_footprint_position(tree: &SexpNode, reference: &str) -> (r: Result<
    (String, String),
    String,
>)
    ensures
        is_position(r, tree.model(), reference@),
{
    match find_by_reference(tree, reference) {
        None => {
            let mut out = copy("Footprint '");
            put(&mut out, reference);
            put(&mut out, "' not found on board");
            Err(out)
        },
        Some(fp) => Ok((read_coordinate(fp, "at", 1), read_coordinate(fp, "at", 2))),
    }
}

} // verus!
