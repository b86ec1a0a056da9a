//! Ranges, edits and what they do to a board.

use konnect::at_node::NewAngle;
use konnect::blocks::{child_blocks, quoted, read_token};
use konnect::board_file::{
    board_sync_after, board_sync_plan, commit, root_close_offset, root_close_or_error, write_note,
    BoardSync, RevertReply, SyncAction,
};
use konnect::chars::{decimal_text, parse_int, parse_unsigned, signed_text, sorted_names, sorted_unique};
use konnect::components::{
    align_components, align_targets, collect_settings, component_key, find_footprint, parse_axis,
    rotate_edits, unknown_component_message, Axis, ComponentKey, NewPosition,
};
use konnect::edit::{apply_edits, edits_fit_in, SexpEdit};
use konnect::footprint::collect_footprints;
use konnect::items::{unknown_item_message, unknown_trace_message};
use konnect::net::net_table;
use konnect::pads::{find_pad_place, nets_list};
use konnect::routing::agree_on_net;
use konnect::scan::{
    check_document, find_balanced_block, find_block_starts, find_block_with_leading_whitespace,
    find_enclosing_block, find_top_level_item, top_level_block_starts, DocumentError,
};
use konnect::sexp::parse_sexp;

/// Two resistors, one of them turned, and a connector with a zone of its own.
const BOARD: &str = "(kicad_pcb\n\t(footprint \"L:R\"\n\t\t(uuid \"fp-1\")\n\t\t(at 10 20)\n\t\t(property \"Reference\" \"R1\"\n\t\t\t(at 0 -1 0)\n\t\t)\n\t\t(pad \"1\" smd rect\n\t\t\t(at -0.5 0)\n\t\t)\n\t)\n\t(footprint \"L:R\"\n\t\t(uuid \"fp-2\")\n\t\t(at 30 40 90)\n\t\t(property \"Reference\" \"R2\"\n\t\t\t(at 0 -1 90)\n\t\t)\n\t)\n\t(footprint \"L:J\"\n\t\t(uuid \"fp-3\")\n\t\t(at 50 60)\n\t\t(property \"Reference\" \"J1\")\n\t\t(zone\n\t\t\t(uuid \"z-1\")\n\t\t)\n\t)\n)\n";

fn text(t: &str) -> Option<String> {
    Some(t.to_string())
}

fn names(all: &[&str]) -> Vec<String> {
    all.iter().map(|t| t.to_string()).collect()
}

fn angle(t: &str, is_zero: bool, unchanged: bool) -> NewAngle {
    NewAngle { text: t.to_string(), is_zero, unchanged }
}

#[test]
fn strings_hide_their_parentheses() {
    let t = "(a \"(b\" (c \"\\\")\") (b 1))";
    assert_eq!(find_balanced_block(t, 0), Some((0, t.len())));
    assert_eq!(find_block_starts(t, "b"), vec![18]);
    assert_eq!(find_balanced_block("(a (b)", 0), None);
}

#[test]
fn only_children_of_the_root_are_top_level() {
    let t = "(r (via 1) (x (via 2)) (via 3))";
    assert_eq!(find_block_starts(t, "via"), vec![3, 14, 23]);
    assert_eq!(top_level_block_starts(t, "via"), vec![3, 23]);
}

#[test]
fn the_block_around_a_place() {
    let t = "(r\n  (wire (pts (xy 1 2)) (uuid \"u\"))\n)";
    let at = t.find("(uuid").unwrap();
    let (s, e) = find_enclosing_block(t, "wire", at).unwrap();
    assert_eq!(&t[s..e], "(wire (pts (xy 1 2)) (uuid \"u\"))");
    assert_eq!(find_top_level_item(t, at), Some((s, e)));
    let (ws, we) = find_block_with_leading_whitespace(t, s).unwrap();
    assert_eq!(&t[ws..we], "\n  (wire (pts (xy 1 2)) (uuid \"u\"))");
    assert_eq!(find_enclosing_block(t, "label", at), None);
}

#[test]
fn each_fault_of_a_document() {
    assert!(check_document("(kicad_pcb (a))\n", "kicad_pcb").is_ok());
    assert!(matches!(check_document("x", "kicad_pcb"), Err(DocumentError::NoRoot)));
    assert!(matches!(check_document("(kicad_sch)", "kicad_pcb"), Err(DocumentError::WrongRoot)));
    assert!(matches!(check_document("(kicad_pcb (a)", "kicad_pcb"), Err(DocumentError::Unbalanced)));
    assert!(matches!(
        check_document("(kicad_pcb) (a)", "kicad_pcb"),
        Err(DocumentError::TrailingContent)
    ));
    assert_eq!(DocumentError::Unbalanced.message(), "the root block is unbalanced");
}

#[test]
fn edits_are_applied_wherever_they_stand_in_the_list() {
    let edits = vec![
        SexpEdit::replace(4, 5, "B".to_string()),
        SexpEdit::insert(0, "<".to_string()),
        SexpEdit::delete(1, 3),
    ];
    assert!(edits_fit_in("abcdef", &edits));
    assert_eq!(apply_edits("abcdef", &edits), "<adBf");
    assert!(!edits_fit_in("abcdef", &vec![SexpEdit::delete(3, 9)]));
    assert!(!edits_fit_in("abcdef", &vec![SexpEdit::delete(1, 4), SexpEdit::delete(2, 5)]));
}

#[test]
fn a_commit_writes_a_sound_board_or_nothing() {
    let t = "(kicad_pcb (a) (b))";
    let ok = commit(t, &vec![SexpEdit::delete(10, 14)], "kicad_pcb", "f.kicad_pcb").unwrap();
    assert_eq!(ok, "(kicad_pcb (b))");
    let torn = commit(t, &vec![SexpEdit::delete(18, 19)], "kicad_pcb", "f.kicad_pcb").unwrap_err();
    assert!(torn.contains("f.kicad_pcb"), "{torn}");
    let twice = vec![SexpEdit::delete(10, 14), SexpEdit::delete(12, 16)];
    assert_eq!(
        commit(t, &twice, "kicad_pcb", "f").unwrap_err(),
        "Refusing to edit 'f': two changes touch the same bytes. Nothing was written."
    );
}

#[test]
fn the_root_closes_where_new_items_go() {
    assert_eq!(root_close_offset("(kicad_pcb (a))\n"), Some(14));
    assert_eq!(root_close_offset("(kicad_pcb (a)"), None);
    assert_eq!(
        root_close_or_error("(kicad_pcb (a)", "b").unwrap_err(),
        "'b' has no balanced (kicad_pcb …) root block — refusing to edit it."
    );
}

#[test]
fn an_open_board_is_saved_before_and_reloaded_after() {
    assert!(matches!(
        board_sync_plan(true).as_slice(),
        [SyncAction::SaveBoard, SyncAction::WriteFile, SyncAction::RevertBoard]
    ));
    assert!(matches!(board_sync_plan(false).as_slice(), [SyncAction::WriteFile]));
    assert!(matches!(board_sync_after(false, RevertReply::Reverted), BoardSync::NotOpen));
    let done = board_sync_after(true, RevertReply::Reverted);
    assert_eq!(write_note(&done), "Written to the file; KiCAD reloaded the board.");
    let failed = board_sync_after(true, RevertReply::Failed("busy".to_string()));
    assert!(matches!(&failed, BoardSync::ReloadFailed(e) if e == "busy"));
    assert_eq!(failed.note(), Some(write_note(&failed)));
}

#[test]
fn children_of_a_block_are_its_own() {
    let t = "(fp \"x\" (at 1 2) (prop \"(at 9 9)\" (at 3 4)) (uuid \"u\"))";
    let kids = child_blocks(t, 0, t.len());
    let tags: Vec<&str> = kids.iter().map(|k| k.tag.as_str()).collect();
    assert_eq!(tags, vec!["at", "prop", "uuid"]);
    assert_eq!(&t[kids[0].start..kids[0].end], "(at 1 2)");
}

#[test]
fn a_token_is_read_with_its_escapes() {
    let t = " \"a \\\"b\\\"\" c";
    let (token, s, e) = read_token(t, 0, t.len()).unwrap();
    assert_eq!(token, "a \"b\"");
    assert_eq!(quoted(&token), t[s..e]);
}

#[test]
fn numbers_are_written_and_read_back() {
    for n in [0u64, 7, 10, 4294967295] {
        assert_eq!(decimal_text(n), n.to_string());
    }
    for n in [0i32, -1, 42, i32::MIN, i32::MAX] {
        assert_eq!(signed_text(n), n.to_string());
        assert_eq!(parse_int(&signed_text(n)), Some(n));
    }
    assert_eq!(parse_int("+5"), Some(5));
    assert_eq!(parse_int("2147483648"), None);
    assert_eq!(parse_int(""), None);
    assert_eq!(parse_unsigned("17"), Some(17));
    assert_eq!(parse_unsigned("-1"), None);
}

#[test]
fn names_are_sorted_by_their_bytes() {
    let all = names(&["R10", "C1", "R2", "C1"]);
    assert_eq!(sorted_names(&all), names(&["C1", "C1", "R10", "R2"]));
    assert_eq!(sorted_unique(&all), names(&["C1", "R10", "R2"]));
}

#[test]
fn a_reference_names_a_footprint_before_a_uuid_does() {
    let key = component_key(&text("R1"), &text("u"));
    assert!(matches!(key, Some(ComponentKey::Reference(r)) if r == "R1"));
    let key = component_key(&text(""), &text("u"));
    assert!(matches!(key, Some(ComponentKey::Uuid(u)) if u == "u"));
    assert!(component_key(&None, &None).is_none());
    let fp = find_footprint(BOARD, &ComponentKey::Uuid("fp-2".to_string()), "b").unwrap();
    assert_eq!(fp.reference.as_deref(), Some("R2"));
}

#[test]
fn a_wrong_name_is_answered_with_the_right_ones() {
    let fps = collect_footprints(BOARD);
    assert_eq!(
        unknown_component_message(&fps, &ComponentKey::Reference("R9".to_string()), "b"),
        "No footprint with reference 'R9' on 'b'. The board has 3 footprint(s): J1, R1, R2. Run get_component_list to see them all."
    );
    assert_eq!(
        unknown_component_message(&fps, &ComponentKey::Reference("fp-2".to_string()), "b"),
        "'fp-2' is the uuid of footprint 'R2' on 'b', not a reference designator. Pass it as uuid."
    );
}

#[test]
fn aligning_moves_every_footprint_or_none() {
    let refs = names(&["R1", "R2"]);
    let to = vec![
        NewPosition { x: text("12.5"), y: None },
        NewPosition { x: text("12.5"), y: None },
    ];
    let after = align_components(BOARD, &refs, &to, "b").unwrap();
    assert_eq!(
        after,
        BOARD.replace("(at 10 20)", "(at 12.5 20)").replace("(at 30 40 90)", "(at 12.5 40 90)")
    );
    assert_eq!(
        align_components(BOARD, &vec![], &vec![], "b").unwrap_err(),
        "references must be a non-empty array of reference designators."
    );
    let fps = collect_footprints(BOARD);
    assert_eq!(align_targets(&fps, &refs, "b").unwrap(), vec![0, 1]);
    let err = align_targets(&fps, &names(&["R1", "R9"]), "b").unwrap_err();
    assert!(err.ends_with(" No footprint was moved."), "{err}");
}

#[test]
fn an_axis_is_named_in_either_case() {
    assert_eq!(parse_axis(&None).unwrap(), Axis::X);
    assert_eq!(parse_axis(&text("X")).unwrap(), Axis::X);
    assert_eq!(parse_axis(&text("Y")).unwrap(), Axis::Y);
    assert_eq!(
        parse_axis(&text("Zé")).unwrap_err(),
        "axis must be 'x' (align to a common X) or 'y' (align to a common Y), not 'zé'."
    );
}

#[test]
fn the_value_comes_before_the_other_properties() {
    let more = vec![("MPN".to_string(), text("A1")), ("Note".to_string(), text(""))];
    let all = collect_settings(&text("10k"), &more).unwrap();
    let read: Vec<(&str, &str)> = all.iter().map(|s| (s.name.as_str(), s.value.as_str())).collect();
    assert_eq!(read, vec![("Value", "10k"), ("MPN", "A1"), ("Note", "")]);
    assert!(collect_settings(&None, &vec![]).unwrap().is_empty());
    let bad = vec![("A".to_string(), text("x")), ("B".to_string(), None), ("C".to_string(), None)];
    assert_eq!(
        collect_settings(&None, &bad).unwrap_err(),
        "Property 'B' must be a string; footprint properties are text fields."
    );
}

#[test]
fn turning_a_footprint_turns_what_stands_on_it() {
    let fps = collect_footprints(BOARD);
    let r2 = &fps[1];
    let to = vec![angle("180", false, false)];
    let edits = rotate_edits(r2, &angle("180", false, false), true, &to, "b").unwrap();
    let after = commit(BOARD, &edits, "kicad_pcb", "b").unwrap();
    assert_eq!(
        after,
        BOARD.replace("(at 30 40 90)", "(at 30 40 180)").replace("(at 0 -1 90)", "(at 0 -1 180)")
    );
    let still = rotate_edits(r2, &angle("90", false, true), false, &to, "b").unwrap();
    assert!(still.is_empty());
    let err = rotate_edits(&fps[2], &angle("90", false, false), true, &vec![], "b").unwrap_err();
    assert!(err.contains("zone"), "{err}");
}

#[test]
fn an_unknown_uuid_says_what_it_is_instead() {
    let board = "(kicad_pcb (segment (start 1 1) (end 2 2) (uuid \"s-1\")) (via (at 1 1) (uuid \"v-1\")))";
    let as_trace = unknown_trace_message(board, "v-1", "b");
    assert!(as_trace.contains("via"), "{as_trace}");
    let as_via = unknown_item_message(board, "none", "b", "via", "query_vias");
    assert!(as_via.contains("none") && as_via.contains("query_vias"), "{as_via}");
}

#[test]
fn two_pads_agree_on_their_net() {
    let agree = |a: Option<&str>, b: Option<&str>, wanted: &str| {
        agree_on_net(&a.map(String::from), &b.map(String::from), wanted, "R1", "1", "R2", "2")
    };
    assert_eq!(agree(Some("GND"), Some("GND"), "").unwrap(), "GND");
    assert!(agree(Some("GND"), Some("VCC"), "").is_err());
    assert!(agree(Some("GND"), Some("GND"), "VCC").is_err());
}

#[test]
fn a_pad_is_placed_by_its_footprint() {
    let tree = parse_sexp(BOARD).unwrap();
    let p = find_pad_place(&tree, "R1", "1").unwrap();
    assert_eq!((p.fp_x.as_str(), p.fp_y.as_str(), p.fp_rotation.as_str()), ("10", "20", "0"));
    assert_eq!((p.x.as_str(), p.y.as_str()), ("-0.5", "0"));
    assert!(find_pad_place(&tree, "R1", "9").is_err());
    assert!(find_pad_place(&tree, "Q1", "1").is_err());
}

#[test]
fn nets_are_listed_once() {
    let board = "(kicad_pcb (net 0 \"\") (net 1 \"GND\") (segment (net 1)) (footprint \"F\" (pad \"1\" smd rect (net 1 \"GND\")) (pad \"2\" smd rect (net 2 \"VCC\"))))";
    let tree = parse_sexp(board).unwrap();
    let listed = nets_list(&tree, &net_table(board));
    let gnd = listed.iter().filter(|n| n.name == "GND").count();
    assert_eq!(gnd, 1);
    assert!(listed.iter().any(|n| n.name == "GND" && n.code == Some(1)));
}
