//! Footprints and their parts, read off boards with any indentation.

use konnect::at_node::parse_at;
use konnect::board_file::delete_range;
use konnect::components::{
    array_places, component_list, delete_component, edit_component, move_component, ComponentKey,
    Setting,
};
use konnect::footprint::{collect_footprints, BoardFootprint};
use konnect::pads::{component_pads, find_pad_row};
use konnect::sexp::parse_sexp;

/// Tab-indented, with an unbalanced parenthesis inside a string, block-like text
/// inside another, and a footprint whose own position comes after a property's.
fn kicad10_board() -> String {
    [
        "(kicad_pcb",
        "\t(version 20260206)",
        "\t(generator \"pcbnew\")",
        "\t(gr_text \"REV (A\"",
        "\t\t(at 5 5 0)",
        "\t\t(layer \"F.SilkS\")",
        "\t\t(uuid \"text-1\")",
        "\t)",
        "\t(footprint \"Package_SO:SOIC-8_3.9x4.9mm_P1.27mm\"",
        "\t\t(layer \"F.Cu\")",
        "\t\t(uuid \"fp-u3\")",
        "\t\t(descr \"see (footprint \\\"other\\\") at (at 1 2)\")",
        "\t\t(property \"Reference\" \"U3\"",
        "\t\t\t(at 0 -3.4 90)",
        "\t\t\t(layer \"F.SilkS\")",
        "\t\t\t(uuid \"prop-u3-ref\")",
        "\t\t)",
        "\t\t(at 106.8 89 90)",
        "\t\t(property \"Value\" \"LM358\"",
        "\t\t\t(at 0 3.4 270)",
        "\t\t\t(layer \"F.Fab\")",
        "\t\t\t(uuid \"prop-u3-val\")",
        "\t\t)",
        "\t\t(pad \"1\" smd roundrect",
        "\t\t\t(at -2.475 -1.905 90)",
        "\t\t\t(size 1.5 0.6)",
        "\t\t\t(layers \"F.Cu\" \"F.Mask\" \"F.Paste\")",
        "\t\t\t(net \"GND\")",
        "\t\t\t(uuid \"pad-u3-1\")",
        "\t\t)",
        "\t\t(fp_line",
        "\t\t\t(start -2.5 -2.5)",
        "\t\t\t(end 2.5 -2.5)",
        "\t\t\t(layer \"F.SilkS\")",
        "\t\t\t(uuid \"line-u3\")",
        "\t\t)",
        "\t)",
        "\t(footprint \"Resistor_SMD:R_0402_1005Metric\"",
        "\t\t(layer \"B.Cu\")",
        "\t\t(uuid \"fp-r1\")",
        "\t\t(at 10.5 20.25)",
        "\t\t(property \"Reference\" \"R1\"",
        "\t\t\t(at 0 -1.16 0)",
        "\t\t\t(layer \"B.SilkS\")",
        "\t\t\t(uuid \"prop-r1-ref\")",
        "\t\t)",
        "\t\t(property \"Value\" \"10k\"",
        "\t\t\t(at 0 1.16 0)",
        "\t\t\t(layer \"B.Fab\")",
        "\t\t\t(uuid \"prop-r1-val\")",
        "\t\t)",
        "\t\t(pad \"1\" smd rect",
        "\t\t\t(at -0.485 0)",
        "\t\t\t(size 0.6 0.5)",
        "\t\t\t(net \"+3V3\")",
        "\t\t\t(uuid \"pad-r1-1\")",
        "\t\t)",
        "\t\t(pad \"2\" smd rect",
        "\t\t\t(at 0.485 0)",
        "\t\t\t(size 0.6 0.5)",
        "\t\t\t(uuid \"pad-r1-2\")",
        "\t\t)",
        "\t)",
        "\t(footprint \"Connector:USB_C\"",
        "\t\t(layer \"F.Cu\")",
        "\t\t(uuid \"fp-j1\")",
        "\t\t(at 50 60)",
        "\t\t(property \"Reference\" \"J1\"",
        "\t\t\t(at 0 -6.36 0)",
        "\t\t\t(uuid \"prop-j1-ref\")",
        "\t\t)",
        "\t\t(zone",
        "\t\t\t(layer \"B.Cu\")",
        "\t\t\t(uuid \"keepout-j1\")",
        "\t\t\t(polygon",
        "\t\t\t\t(pts",
        "\t\t\t\t\t(xy 47.23 55.365) (xy 52.77 55.365) (xy 52.77 64.635)",
        "\t\t\t\t)",
        "\t\t\t)",
        "\t\t)",
        "\t)",
        "\t(segment",
        "\t\t(start 1 1)",
        "\t\t(end 2 2)",
        "\t\t(width 0.2)",
        "\t\t(layer \"F.Cu\")",
        "\t\t(net \"GND\")",
        "\t\t(uuid \"seg-1\")",
        "\t)",
        ")",
        "",
    ]
    .join("\n")
}

/// Two spaces of indentation, and one footprint on a single line.
fn space_indented_board() -> String {
    [
        "(kicad_pcb",
        "  (version 20260206)",
        "  (footprint \"Resistor_SMD:R_0402_1005Metric\"",
        "    (layer \"F.Cu\")",
        "    (uuid \"fp-r9\")",
        "    (at 3.0 4.0)",
        "    (property \"Reference\" \"R9\" (at 0 -1.16 0) (uuid \"p-r9\"))",
        "    (pad \"1\" smd rect (at -0.485 0) (uuid \"pad-r9\"))",
        "  )",
        "  (footprint \"Capacitor_SMD:C_0402\" (layer \"F.Cu\") (uuid \"fp-c9\") \
         (at 7 8 180) (property \"Reference\" \"C9\" (at 0 1 180)))",
        ")",
        "",
    ]
    .join("\n")
}

fn fp_by_ref(content: &str, reference: &str) -> BoardFootprint {
    collect_footprints(content)
        .into_iter()
        .find(|f| f.reference.as_deref() == Some(reference))
        .unwrap_or_else(|| panic!("no footprint {reference}"))
}

fn tokens(content: &str, fp: &BoardFootprint) -> Vec<f64> {
    fp.at
        .as_ref()
        .unwrap()
        .tokens
        .iter()
        .map(|&(a, b)| content[a..b].parse::<f64>().unwrap())
        .collect()
}

#[test]
fn collect_footprints_sees_only_real_top_level_footprints() {
    let content = kicad10_board();
    let fps = collect_footprints(&content);
    assert_eq!(fps.len(), 3, "{fps:#?}");
    let refs: Vec<&str> = fps.iter().filter_map(|f| f.reference.as_deref()).collect();
    assert_eq!(refs, vec!["U3", "R1", "J1"]);
    for fp in &fps {
        assert!(content[fp.start..fp.end].starts_with("(footprint"));
        assert!(content[fp.start..fp.end].ends_with(')'));
    }
}

#[test]
fn a_nested_at_is_never_mistaken_for_the_footprints_own() {
    let content = kicad10_board();
    let u3 = fp_by_ref(&content, "U3");
    let at = u3.at.as_ref().expect("U3 has an (at …)");
    assert_eq!(tokens(&content, &u3), vec![106.8, 89.0, 90.0]);
    assert_eq!(&content[at.start..at.end], "(at 106.8 89 90)");
}

#[test]
fn footprint_metadata_is_read_off_the_file() {
    let content = kicad10_board();
    let u3 = fp_by_ref(&content, "U3");
    assert_eq!(u3.library_id.as_deref(), Some("Package_SO:SOIC-8_3.9x4.9mm_P1.27mm"));
    assert_eq!(u3.uuid.as_deref(), Some("fp-u3"));
    assert_eq!(u3.layer.as_deref(), Some("F.Cu"));
    assert_eq!(u3.value.as_deref(), Some("LM358"));
    assert_eq!(u3.pad_count, 1);

    let r1 = fp_by_ref(&content, "R1");
    assert_eq!(r1.layer.as_deref(), Some("B.Cu"));
    assert_eq!(r1.pad_count, 2);
    // No angle is written where it is 0.
    assert_eq!(tokens(&content, &r1).get(2).copied().unwrap_or(0.0), 0.0);
    assert!(!r1.at.as_ref().unwrap().has_angle());
}

#[test]
fn indentation_is_never_assumed() {
    let content = space_indented_board();
    let fps = collect_footprints(&content);
    assert_eq!(fps.len(), 2, "{fps:#?}");
    let r9 = fp_by_ref(&content, "R9");
    assert_eq!(tokens(&content, &r9), vec![3.0, 4.0]);
    let c9 = fp_by_ref(&content, "C9");
    assert_eq!(tokens(&content, &c9), vec![7.0, 8.0, 180.0]);
}

#[test]
fn an_at_node_with_a_non_numeric_field_is_refused_not_guessed_at() {
    assert!(parse_at("(at 1 2 3)", 0).is_some());
    assert!(parse_at("(at 1 2)", 0).is_some());
    assert!(parse_at("(at 1)", 0).is_none());
    assert!(parse_at("(at 1 2 3 4)", 0).is_none());
    assert!(parse_at("(at 1 2 unlocked)", 0).is_none());
    assert!(parse_at("(atom 1 2)", 0).is_none());
}

/// The text to write for a new number: none where the file says it already.
fn text_for(content: &str, token: (usize, usize), value: f64) -> Option<String> {
    if content[token.0..token.1].parse::<f64>().unwrap() == value {
        None
    } else {
        Some(format!("{value}"))
    }
}

#[test]
fn setting_a_number_to_what_it_already_says_edits_nothing() {
    let content = "(at 157.150000 2)";
    let at = parse_at(content, 0).unwrap();
    assert!(at.set_token(0, &text_for(content, at.tokens[0], 157.15)).is_none());
    assert!(at.set_token(1, &text_for(content, at.tokens[1], 3.0)).is_some());
}

#[test]
fn delete_range_refuses_a_range_that_is_not_the_block() {
    let content = kicad10_board();
    let fp = fp_by_ref(&content, "R1");
    let board = "/tmp/x.kicad_pcb";
    assert!(delete_range(&content, fp.start, fp.end, "R1", board).is_ok());
    let err = delete_range(&content, fp.start, fp.end - 1, "R1", board).unwrap_err();
    assert!(err.contains("Refusing to delete"), "{err}");
}

#[test]
fn a_layer_filter_keeps_that_layer_only() {
    let content = kicad10_board();
    assert_eq!(component_list(&content, &None).len(), 3);
    let back = component_list(&content, &Some("B.Cu".to_string()));
    assert_eq!(back.len(), 1);
    assert_eq!(back[0].reference.as_deref(), Some("R1"));
}

#[test]
fn a_move_there_and_back_restores_the_file() {
    let content = kicad10_board();
    let key = ComponentKey::Reference("U3".to_string());
    let to = |x: &str, y: &str| (Some(x.to_string()), Some(y.to_string()));
    let (x, y) = to("1.5", "2.5");
    let there = move_component(&content, &key, &x, &y, "b").unwrap();
    assert!(there.contains("(at 1.5 2.5 90)"), "{there}");
    // Only the footprint's own position moved.
    assert!(there.contains("(at 0 -3.4 90)"));
    let (x, y) = to("106.8", "89");
    assert_eq!(move_component(&there, &key, &x, &y, "b").unwrap(), content);
}

#[test]
fn deleting_takes_one_footprint_and_nothing_else() {
    let content = kicad10_board();
    let after = delete_component(&content, &ComponentKey::Uuid("fp-r1".to_string()), "b").unwrap();
    let refs: Vec<String> =
        collect_footprints(&after).into_iter().filter_map(|f| f.reference).collect();
    assert_eq!(refs, vec!["U3".to_string(), "J1".to_string()]);
    assert!(after.contains("(gr_text \"REV (A\""));
    let err =
        delete_component(&content, &ComponentKey::Reference("R99".to_string()), "b").unwrap_err();
    assert!(err.contains("R99"), "{err}");
}

#[test]
fn editing_a_value_with_quotes_reads_back() {
    let content = kicad10_board();
    let key = ComponentKey::Reference("R1".to_string());
    let settings =
        vec![Setting { name: "Value".to_string(), value: "4k7 \"1%\" \\ x".to_string() }];
    let done = edit_component(&content, &key, &settings, "b").unwrap();
    assert_eq!(done.changed.len(), 1);
    assert_eq!(done.changed[0].from.as_deref(), Some("10k"));
    let text = done.content.unwrap();
    assert_eq!(fp_by_ref(&text, "R1").value.as_deref(), Some("4k7 \"1%\" \\ x"));
}

#[test]
fn an_array_is_numbered_row_by_row() {
    let places = array_places("R", 7, 3, 2);
    let read: Vec<(u64, u64, &str)> = places
        .iter()
        .map(|p| (p.row, p.column, p.reference.as_str()))
        .collect();
    assert_eq!(
        read,
        [(0, 0, "R7"), (0, 1, "R8"), (0, 2, "R9"), (1, 0, "R10"), (1, 1, "R11"), (1, 2, "R12")]
    );
    assert!(array_places("R", 1, 0, 5).is_empty());
    assert!(array_places("R", 1, 5, 0).is_empty());
}

#[test]
fn a_pad_is_found_by_its_number() {
    let tree = parse_sexp(
        "(footprint \"L:F\" (pad \"1\" smd rect (at -1 0) (net 3 \"GND\")) (pad \"2\" smd rect (at 1 0)))",
    )
    .unwrap();
    let rows = component_pads(&tree);
    assert_eq!(find_pad_row(&rows, "2").unwrap(), 1);
    assert_eq!(rows[0].net, "GND");
    assert_eq!(find_pad_row(&rows, "9").unwrap_err(), "Pad '9' not found");
}
