//! The schematic builder.

use konnect::scan::{check_document, DocumentError};
use konnect::schematic_builder::SchematicBuilder;

#[test]
fn empty_builder_produces_valid_structure() {
    let builder = SchematicBuilder::new();
    let output = builder.to_string();
    assert!(output.starts_with("(kicad_sch"));
    assert!(output.contains("(version 20250610)"));
    assert!(output.contains("(lib_symbols"));
    assert!(output.ends_with(")\n"));
}

#[test]
fn elements_are_ordered_correctly() {
    let mut builder = SchematicBuilder::new();
    // Add in wrong order — builder should serialize in correct order
    builder.add_symbol("(symbol (lib_id \"Device:R\") (at 100 100 0) (uuid \"sym1\"))");
    builder
        .add_wire("(wire (pts (xy 100 90) (xy 100 100)) (stroke (width 0)) (uuid \"wire1\"))");
    builder.add_label("(net_label \"VCC\" (at 100 85 0) (uuid \"label1\"))");
    builder.add_junction("(junction (at 100 90) (uuid \"junc1\"))");

    let output = builder.to_string();

    // Verify order: junction < wire < label < symbol
    let junc_pos = output.find("(junction").unwrap();
    let wire_pos = output.find("(wire").unwrap();
    let label_pos = output.find("(net_label").unwrap();
    let sym_pos = output.find("(symbol").unwrap();

    assert!(junc_pos < wire_pos, "junction should come before wire");
    assert!(wire_pos < label_pos, "wire should come before label");
    assert!(label_pos < sym_pos, "label should come before symbol");
}

#[test]
fn parse_and_reserialize_preserves_elements() {
    let input = r#"(kicad_sch
	(version 20250610)
	(generator "konnect")
	(generator_version "10.0")
	(paper "A4")
	(lib_symbols
	)
  (wire (pts (xy 100 90) (xy 100 100)) (stroke (width 0) (type default)) (uuid "w1"))
  (net_label "VCC" (at 100 85 0) (effects (font (size 1.27 1.27))) (uuid "l1"))
  (symbol
    (lib_id "Device:R")
    (at 100 100 0)
    (uuid "s1")
    (property "Reference" "R1" (at 100 96 0) (effects (font (size 1.27 1.27))))
    (instances (project "" (path "/" (reference "R1") (unit 1))))
  )
)
"#;

    let builder = SchematicBuilder::parse(input).unwrap();
    assert_eq!(builder.wires.len(), 1);
    assert_eq!(builder.labels.len(), 1);
    assert_eq!(builder.symbols.len(), 1);

    let output = builder.to_string();
    assert!(output.contains("(wire"));
    assert!(output.contains("(net_label"));
    assert!(output.contains("(symbol"));
}

/// A schematic as eeschema saves it: tabs throughout, and quoted values whose
/// parentheses do not balance.
const TAB_SCH: &str = "(kicad_sch\n\
\t(version 20250610)\n\
\t(generator \"eeschema\")\n\
\t(generator_version \"10.0\")\n\
\t(uuid \"11111111-1111-1111-1111-111111111111\")\n\
\t(paper \"A4\")\n\
\t(lib_symbols\n\
\t\t(symbol \"Device:R\"\n\
\t\t\t(pin_numbers\n\t\t\t\t(hide yes)\n\t\t\t)\n\
\t\t\t(property \"Description\" \"Resistor scheme (pin number consists of\"\n\t\t\t)\n\
\t\t)\n\
\t\t(symbol \"MCU_ST_STM32H5:STM32H5\"\n\
\t\t\t(symbol \"STM32H5_1_1\"\n\
\t\t\t\t(pin bidirectional line\n\t\t\t\t\t(name \"PA13(JTMS\" (effects (font (size 1.27 1.27))))\n\t\t\t\t)\n\
\t\t\t)\n\
\t\t)\n\
\t)\n\
\t(junction\n\t\t(at 100 90)\n\t\t(uuid \"j1\")\n\t)\n\
\t(no_connect\n\t\t(at 120 90)\n\t\t(uuid \"nc1\")\n\t)\n\
\t(wire\n\t\t(pts\n\t\t\t(xy 100 90) (xy 100 100)\n\t\t)\n\t\t(uuid \"w1\")\n\t)\n\
\t(wire\n\t\t(pts\n\t\t\t(xy 100 100) (xy 120 100)\n\t\t)\n\t\t(uuid \"w2\")\n\t)\n\
\t(label \"VCC\"\n\t\t(at 100 85 0)\n\t\t(uuid \"l1\")\n\t)\n\
\t(symbol\n\t\t(lib_id \"Device:R\")\n\t\t(at 100 100 0)\n\t\t(uuid \"s1\")\n\
\t\t(property \"Reference\" \"R1\"\n\t\t\t(at 100 96 0)\n\t\t)\n\t)\n\
\t(symbol\n\t\t(lib_id \"MCU_ST_STM32H5:STM32H5\")\n\t\t(at 150 100 0)\n\t\t(uuid \"s2\")\n\t)\n\
\t(sheet_instances\n\t\t(path \"/\"\n\t\t\t(page \"1\")\n\t\t)\n\t)\n\
\t(embedded_fonts no)\n\
)\n";

#[test]
fn tab_indented_schematic_round_trips_without_loss() {
    let builder = SchematicBuilder::parse(TAB_SCH).unwrap();

    assert_eq!(builder.wires.len(), 2, "wires lost");
    assert_eq!(builder.symbols.len(), 2, "symbol instances lost");
    assert_eq!(builder.labels.len(), 1, "labels lost");
    assert_eq!(builder.junctions.len(), 1, "junctions lost");
    assert_eq!(builder.no_connects.len(), 1, "no_connects lost");
    assert_eq!(builder.lib_symbols.len(), 2, "lib_symbols lost");
    assert_eq!(
        builder.trailing.len(),
        2,
        "sheet_instances/embedded_fonts lost"
    );

    let output = builder.to_string();
    check_document(&output, "kicad_sch").expect("output must be valid");

    for needle in [
        "(uuid \"w1\")",
        "(uuid \"w2\")",
        "(uuid \"s1\")",
        "(uuid \"s2\")",
        "(uuid \"j1\")",
        "(uuid \"nc1\")",
        "(uuid \"l1\")",
        "(lib_id \"Device:R\")",
        "(lib_id \"MCU_ST_STM32H5:STM32H5\")",
        "(sheet_instances",
        "(embedded_fonts no)",
        "(paper \"A4\")",
    ] {
        assert!(output.contains(needle), "round-trip lost {needle}");
    }

    // Re-parsing the output must be a fixed point.
    let again = SchematicBuilder::parse(&output).unwrap();
    assert_eq!(again.wires.len(), 2);
    assert_eq!(again.symbols.len(), 2);
    assert_eq!(again.lib_symbols.len(), 2);
    assert_eq!(again.to_string(), output);
}

#[test]
fn lib_symbols_extent_ignores_parens_inside_strings() {
    let builder = SchematicBuilder::parse(TAB_SCH).unwrap();
    assert_eq!(builder.lib_symbols.len(), 2);
    assert!(builder.lib_symbols[0].starts_with("(symbol \"Device:R\""));
    assert!(builder.lib_symbols[1].contains("PA13(JTMS"));
    for ls in &builder.lib_symbols {
        assert!(
            !ls.contains("(lib_id "),
            "symbol instance swallowed into lib_symbols: {ls}"
        );
    }
}

#[test]
fn truncated_schematic_errors_instead_of_panicking() {
    let truncated =
        "(kicad_sch\n\t(version 20250610)\n\t(lib_symbols\n\t\t(symbol \"Device:R\"\n";
    assert!(SchematicBuilder::parse(truncated).is_err());
    assert!(SchematicBuilder::parse("").is_err());
    assert!(SchematicBuilder::parse("(kicad_pcb\n\t(version 20250610)\n)").is_err());
}

#[test]
fn schematic_without_lib_symbols_is_not_doubly_closed() {
    let input =
        "(kicad_sch\n\t(version 20250610)\n\t(generator \"eeschema\")\n\t(paper \"A4\")\n)\n";
    let builder = SchematicBuilder::parse(input).unwrap();
    let output = builder.to_string();
    check_document(&output, "kicad_sch")
        .expect("header-only schematic must not gain a second root close");
    assert!(!output.contains(")\n)\n)"));
    assert!(output.contains("(paper \"A4\")"));
}

#[test]
fn save_round_trip_preserves_tab_indented_file() {
    let after = SchematicBuilder::parse(TAB_SCH).unwrap().to_string();
    assert!(after.contains("(uuid \"w1\")"));
    assert!(after.contains("(uuid \"s2\")"));
    assert_eq!(after.matches("(wire").count(), 2);
    assert_eq!(after.matches("(lib_id ").count(), 2);
}

#[test]
fn each_fault_of_a_document_has_its_own_error() {
    assert_eq!(SchematicBuilder::parse("(kicad_sch").err(), Some(DocumentError::Unbalanced));
    assert!(SchematicBuilder::parse("(kicad_pcb)").is_err());
    assert!(SchematicBuilder::parse("(kicad_sch) x").is_err());
    assert!(SchematicBuilder::parse("").is_err());
}

#[test]
fn a_unit_of_another_symbol_is_no_definition() {
    let mut b = SchematicBuilder::new();
    b.add_lib_symbol("(symbol \"A:B\" (symbol \"B_0_1\"))");
    b.add_lib_symbol("(symbol \"B_0_1\")");
    b.add_lib_symbol("(symbol \"A:B\")");
    assert_eq!(b.lib_symbols.len(), 2);
}

#[test]
fn a_symbol_library_is_added_once_and_blank_text_is_kept_whole() {
    let mut b = SchematicBuilder::default();
    b.add_no_connect("(no_connect (at 1 2))");
    b.add_text("(text \"x\")");
    b.add_lib_symbol("(symbol \"Device:R\")");
    assert_eq!(b.lib_symbols.len(), 1);
    assert_eq!(b.no_connects.len(), 1);
    assert_eq!(b.texts.len(), 1);
    assert!(check_document(&b.to_string(), "kicad_sch").is_ok());
}
