//! Several components of a schematic in one call.

use konnect::scan::check_document;
use konnect::sch_batch::{
    add_schematic_text, batch_connect_to_net, batch_delete, batch_delete_components, batch_edit,
    bulk_move, connect_passthrough, field_value_range, find_move_targets, find_pin, find_symbol_block,
    split_white, stub_direction, EditSpec, MoveTarget, NewPlace, PinSpec, PlacedPins, SchematicText,
};
use konnect::sexp::parse_sexp;

/// A schematic in tabs, as eeschema writes it.
const TAB_INDENTED: &str = "(kicad_sch\n\t(version 20250610)\n\t(generator \"eeschema\")\n\t(uuid \"11111111-2222-3333-4444-555555555555\")\n\t(lib_symbols\n\t\t(symbol \"Device:R\"\n\t\t\t(property \"Reference\" \"R\"\n\t\t\t\t(at 0 0 0)\n\t\t\t)\n\t\t)\n\t)\n\t(symbol\n\t\t(lib_id \"Device:R\")\n\t\t(at 100 80 0)\n\t\t(unit 1)\n\t\t(exclude_from_sim no)\n\t\t(uuid \"aaaaaaaa-bbbb-cccc-dddd-eeeeeeeeeeee\")\n\t\t(property \"Reference\" \"R1\"\n\t\t\t(at 102 78 0)\n\t\t)\n\t\t(property \"Value\" \"10k\"\n\t\t\t(at 102 82 0)\n\t\t)\n\t\t(instances\n\t\t\t(project \"tabs\"\n\t\t\t\t(path \"/11111111-2222-3333-4444-555555555555\"\n\t\t\t\t\t(reference \"R1\")\n\t\t\t\t\t(unit 1)\n\t\t\t\t)\n\t\t\t)\n\t\t)\n\t)\n)\n";

fn names(v: &[&str]) -> Vec<String> {
    v.iter().map(|t| t.to_string()).collect()
}

fn edit(reference: &str) -> EditSpec {
    EditSpec {
        reference: Some(reference.to_string()),
        new_reference: None,
        value: None,
        footprint: None,
        fields: Vec::new(),
    }
}

fn field(name: &str, value: &str) -> (String, Option<String>) {
    (name.to_string(), Some(value.to_string()))
}

#[test]
fn batch_rename_via_fields_updates_property_and_instances() {
    let mut e = edit("R1");
    e.fields.push(field("Reference", "R42"));
    e.value = Some("22k".to_string());
    let done = batch_edit(TAB_INDENTED, &vec![e], "f").unwrap();
    assert!(done.errors.is_empty(), "{:?}", done.errors);
    let text = done.content.unwrap();
    assert!(text.contains("(property \"Reference\" \"R42\""), "{text}");
    assert!(text.contains("(reference \"R42\")"), "{text}");
    assert!(!text.contains("\"R1\""), "old designator remains:\n{text}");
    assert!(text.contains("(property \"Value\" \"22k\""), "{text}");
    assert!(text.contains("(property \"Reference\" \"R\""), "{text}");
    assert!(text.contains("(exclude_from_sim no)"), "{text}");
    assert_eq!(done.updated.len(), 1);
    assert_eq!(
        done.updated[0].changes,
        vec!["Reference → R42", "instances reference → R42 (1)", "Value → 22k"]
    );
}

#[test]
fn batch_rename_via_new_reference_key() {
    let mut e = edit("R1");
    e.new_reference = Some("R7".to_string());
    let text = batch_edit(TAB_INDENTED, &vec![e], "f").unwrap().content.unwrap();
    assert!(text.contains("(property \"Reference\" \"R7\""), "{text}");
    assert!(text.contains("(reference \"R7\")"), "{text}");
}

#[test]
fn batch_rename_covers_every_unit_of_a_multi_unit_part() {
    let unit = |n: u32, y: u32| {
        format!("\t(symbol\n\t\t(lib_id \"Amp:LM358\")\n\t\t(at 100 {y} 0)\n\t\t(unit {n})\n\t\t(uuid \"unit-{n}\")\n\t\t(property \"Reference\" \"U1\"\n\t\t\t(at 102 78 0)\n\t\t)\n\t\t(property \"Value\" \"LM358\"\n\t\t\t(at 102 82 0)\n\t\t)\n\t\t(instances\n\t\t\t(project \"multi\"\n\t\t\t\t(path \"/root-uuid\"\n\t\t\t\t\t(reference \"U1\")\n\t\t\t\t\t(unit {n})\n\t\t\t\t)\n\t\t\t)\n\t\t)\n\t)\n")
    };
    let sch = format!(
        "(kicad_sch\n\t(version 20250610)\n\t(uuid \"root-uuid\")\n{}{})\n",
        unit(1, 80),
        unit(2, 100)
    );
    let mut e = edit("U1");
    e.fields.push(field("Reference", "U9"));
    let text = batch_edit(&sch, &vec![e], "f").unwrap().content.unwrap();
    assert!(!text.contains("\"U1\""), "a unit was left behind:\n{text}");
    assert_eq!(text.matches("(property \"Reference\" \"U9\"").count(), 2);
    assert_eq!(text.matches("(reference \"U9\")").count(), 2);
}

#[test]
fn batch_edit_that_matches_nothing_leaves_the_file_alone() {
    let mut e = edit("R99");
    e.value = Some("1k".to_string());
    let mut nameless = edit("x");
    nameless.reference = None;
    let done = batch_edit(TAB_INDENTED, &vec![e, nameless], "f").unwrap();
    assert!(done.content.is_none());
    assert!(done.updated.is_empty());
    assert_eq!(done.errors[1], "Missing 'reference' in edit spec");
}

#[test]
fn bulk_move_that_matches_nothing_leaves_the_file_alone() {
    let place = NewPlace { x: "0".into(), y: "0".into(), rotation: "0".into() };
    let done = bulk_move(TAB_INDENTED, &names(&["R99"]), &vec![place], "f").unwrap();
    assert!(done.content.is_none());
    assert_eq!(done.errors, vec!["'R99' not found"]);
}

#[test]
fn bulk_move_goes_to_the_given_place_and_back() {
    let targets = find_move_targets(TAB_INDENTED, &names(&["R1"]));
    match &targets[0] {
        MoveTarget::At { x, y, rotation, .. } => {
            assert_eq!((x.as_str(), y.as_str(), rotation.as_str()), ("100", "80", "0"))
        }
        other => panic!("{other:?}"),
    }
    let to = |x: &str| vec![NewPlace { x: x.into(), y: "80".into(), rotation: "0".into() }];
    let there = bulk_move(TAB_INDENTED, &names(&["R1"]), &to("102.54"), "f").unwrap();
    let text = there.content.unwrap();
    assert!(text.contains("(at 102.54 80 0)"));
    let back = bulk_move(&text, &names(&["R1"]), &to("100"), "f").unwrap();
    assert_eq!(back.content.unwrap(), TAB_INDENTED);
}

#[test]
fn batch_delete_components_that_matches_nothing_leaves_the_file_alone() {
    let done = batch_delete_components(TAB_INDENTED, &names(&["R99"]), "f").unwrap();
    assert!(done.content.is_none());
    assert!(done.done.is_empty());
    assert_eq!(done.errors.len(), 1);
}

fn pin(reference: &str, found: bool, label: Option<&str>) -> PinSpec {
    PinSpec {
        reference: Some(reference.to_string()),
        pin_number: Some("1".to_string()),
        component_found: found,
        label: label.map(|t| t.to_string()),
    }
}

#[test]
fn batch_connect_to_net_that_matches_nothing_leaves_the_file_alone() {
    let done = batch_connect_to_net(TAB_INDENTED, &vec![pin("R99", false, None)], "f").unwrap();
    assert!(done.content.is_none());
    assert!(done.added.is_empty());
    assert_eq!(done.errors.len(), 1);
}

#[test]
fn labels_are_added_for_the_pins_that_are_found() {
    let label = "\n  (label \"VCC\" (at 1 2 0))";
    let pins = vec![pin("R1", true, Some(label)), pin("R1", true, None)];
    let done = batch_connect_to_net(TAB_INDENTED, &pins, "f").unwrap();
    assert_eq!(done.added, vec![0]);
    assert_eq!(done.errors.len(), 1);
    assert!(done.content.unwrap().contains("(label \"VCC\" (at 1 2 0))"));
}

#[test]
fn batch_delete_that_matches_nothing_leaves_the_file_alone() {
    let done = batch_delete(
        TAB_INDENTED,
        &names(&["00000000-0000-0000-0000-000000000000"]),
        &names(&["R99"]),
        "f",
    )
    .unwrap();
    assert!(done.content.is_none());
    assert_eq!(done.errors.len(), 2);
}

#[test]
fn batch_delete_by_uuid_works_on_either_indentation() {
    for sch in [TAB_INDENTED.to_string(), TAB_INDENTED.replace('\t', "  ")] {
        let done =
            batch_delete(&sch, &names(&["aaaaaaaa-bbbb-cccc-dddd-eeeeeeeeeeee"]), &Vec::new(), "f")
                .unwrap();
        let text = done.content.unwrap();
        assert!(check_document(&text, "kicad_sch").is_ok(), "{text}");
        assert!(!text.contains("(property \"Reference\" \"R1\""), "{text}");
        assert!(!text.contains("aaaaaaaa-bbbb"), "{text}");
        assert!(text.contains("(lib_symbols"), "{text}");
        assert!(text.contains("(property \"Reference\" \"R\""), "{text}");
    }
}

#[test]
fn a_component_named_twice_is_refused() {
    let err = batch_delete_components(TAB_INDENTED, &names(&["R1", "R1"]), "f").unwrap_err();
    assert_eq!(
        err,
        "Refusing to edit 'f': two changes touch the same bytes. Nothing was written."
    );
}

#[test]
fn connect_passthrough_output_still_parses() {
    let text = connect_passthrough(
        TAB_INDENTED,
        "\n  (wire (pts (xy 100 80) (xy 102.54 80)))",
        "\n  (label \"VCC\" (at 102.54 80 0))",
        "f",
    )
    .unwrap();
    assert!(parse_sexp(&text).is_ok(), "{text}");
    assert!(text.contains("\"VCC\""), "{text}");
    assert!(text.contains("(property \"Reference\" \"R1\""), "{text}");
    // What does not balance is refused.
    assert!(connect_passthrough(TAB_INDENTED, "(wire", "", "f").is_err());
}

#[test]
fn add_schematic_text_output_still_parses_with_quotes_in_the_text() {
    let t = SchematicText {
        text: "say \"hi\" \\ (not a block)".to_string(),
        x: "50".into(),
        y: "50".into(),
        rotation: "0".into(),
        size: "1.27".into(),
    };
    let (uuid, done) = add_schematic_text(TAB_INDENTED, &t, "f");
    let text = done.unwrap();
    assert!(parse_sexp(&text).is_ok(), "{text}");
    assert!(text.contains("(property \"Reference\" \"R1\""), "{text}");
    assert!(text.contains(&uuid));
}

#[test]
fn stubs_go_to_the_right_unless_told_otherwise() {
    let s = |d| {
        let s = stub_direction(d);
        (s.dx, s.dy, s.label_rotation)
    };
    assert_eq!(s("left"), (-1, 0, 180));
    assert_eq!(s("up"), (0, -1, 90));
    assert_eq!(s("down"), (0, 1, 270));
    assert_eq!(s("right"), (1, 0, 0));
    assert_eq!(s("sideways"), (1, 0, 0));
}

#[test]
fn places_of_a_component_in_the_file() {
    let (s, e) = find_symbol_block(TAB_INDENTED, "R1").unwrap();
    assert!(TAB_INDENTED[s..e].trim().starts_with("(symbol"));
    let (s, e) = field_value_range(TAB_INDENTED, "R1", "Value").unwrap();
    assert_eq!(&TAB_INDENTED[s..e], "10k");
    assert_eq!(split_white("  1.5 \t2\n90 "), names(&["1.5", "2", "90"]));
    assert!(split_white("  ").is_empty());
}

#[test]
fn a_pin_is_found_by_its_component_and_number() {
    let placed = |r: &str, pins: &[&str]| PlacedPins {
        reference: r.to_string(),
        pins: pins.iter().map(|p| p.to_string()).collect(),
    };
    let all = vec![placed("R1", &["1", "2"]), placed("U1", &["A1", "2"]), placed("U1", &["9"])];
    assert_eq!(find_pin(&all, "U1", "2"), Some((1, Some(1))));
    assert_eq!(find_pin(&all, "U1", "9"), Some((1, None)));
    assert_eq!(find_pin(&all, "U2", "1"), None);
}
