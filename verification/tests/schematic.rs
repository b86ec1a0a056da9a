//! Schematics as text.

use konnect::schematic::{
    blank_schematic_template, ensure_lib_symbol, ensure_lib_symbol_in_schematic, ensure_root_uuid,
    find_symbol_instance_block, kicad_config_dir, next_definition, project_name_for, read_parent_id,
    rename_symbol_edits, ConfigDirs, Schematic,
};
use konnect::sch_components::{
    add_component_annotation, add_schematic_component, delete_schematic_component,
    edit_schematic_component, find_definition, get_schematic_component, group_components,
    list_schematic_components, missing_pins_message, region_components, rename_symbol, replace_component, stranded_labels,
    update_symbol_field, ComponentChange, EditFault, LabelFacts, LibraryFacts, NewComponent,
};
use konnect::scan::check_document;
use konnect::sexp::{parse_sexp, resolve_escapes, SexpNode};
use konnect::symbol::{Symbol, SymbolCollection};

/// Instance blocks as eeschema writes them.
const EESCHEMA_STYLE: &str = "(kicad_sch\n\t(lib_symbols\n\t\t(symbol \"Device:R\"\n\t\t\t(property \"Reference\" \"R\"\n\t\t\t\t(at 2.032 0 90)\n\t\t\t)\n\t\t)\n\t)\n\t(symbol\n\t\t(lib_id \"Device:R\")\n\t\t(at 100 80 0)\n\t\t(property \"Reference\" \"R1\"\n\t\t\t(at 102 78 0)\n\t\t)\n\t\t(property \"Value\" \"10k\"\n\t\t\t(at 102 82 0)\n\t\t)\n\t)\n)\n";

/// The same shape with two spaces.
const KONNECT_STYLE: &str = "(kicad_sch\n  (lib_symbols\n    (symbol \"Device:R\"\n      (property \"Reference\" \"R\"\n        (at 2.032 0 90)\n      )\n    )\n  )\n  (symbol\n    (lib_id \"Device:R\")\n    (at 100 80 0)\n    (property \"Reference\" \"R1\"\n      (at 102 78 0)\n    )\n  )\n)\n";

/// Two units of one part, each with its instance entry.
const TWO_UNITS: &str = "(kicad_sch\n\t(symbol\n\t\t(lib_id \"Amp:Dual\")\n\t\t(property \"Reference\" \"U1\"\n\t\t\t(at 1 1 0)\n\t\t)\n\t\t(property \"Value\" \"LM358\")\n\t\t(instances\n\t\t\t(project \"p\"\n\t\t\t\t(path \"/root\"\n\t\t\t\t\t(reference \"U1\")\n\t\t\t\t\t(unit 1)\n\t\t\t\t)\n\t\t\t)\n\t\t)\n\t)\n\t(symbol\n\t\t(lib_id \"Amp:Dual\")\n\t\t(property \"Reference\" \"U1\")\n\t\t(instances\n\t\t\t(project \"p\"\n\t\t\t\t(path \"/root\"\n\t\t\t\t\t(reference \"U1\")\n\t\t\t\t\t(unit 2)\n\t\t\t\t)\n\t\t\t)\n\t\t)\n\t)\n\t(symbol\n\t\t(lib_id \"Device:R\")\n\t\t(property \"Reference\" \"U10\")\n\t)\n)\n";

#[test]
fn finds_instance_in_tab_indented_file() {
    let (start, end) = find_symbol_instance_block(EESCHEMA_STYLE, "R1").expect("R1 block");
    let block = &EESCHEMA_STYLE[start..end];
    assert!(block.starts_with("(symbol"));
    assert!(block.contains("(lib_id \"Device:R\")"));
    assert!(block.contains("\"R1\""));
    assert!(block.contains("\"10k\""), "block must span the whole symbol");
}

#[test]
fn finds_instance_in_space_indented_file() {
    let (start, end) = find_symbol_instance_block(KONNECT_STYLE, "R1").expect("R1 block");
    assert!(KONNECT_STYLE[start..end].contains("(lib_id \"Device:R\")"));
}

#[test]
fn library_definition_is_not_mistaken_for_an_instance() {
    let sch = "(kicad_sch\n\t(lib_symbols\n\t\t(symbol \"Custom:Thing\"\n\t\t\t(property \"Reference\" \"U1\"\n\t\t\t\t(at 0 0 0)\n\t\t\t)\n\t\t)\n\t)\n\t(symbol\n\t\t(lib_id \"Custom:Thing\")\n\t\t(property \"Reference\" \"U1\"\n\t\t\t(at 5 5 0)\n\t\t)\n\t)\n)\n";
    let (start, end) = find_symbol_instance_block(sch, "U1").expect("instance");
    assert!(
        sch[start..end].contains("(lib_id "),
        "must skip the lib_symbols definition and return the placed instance"
    );
}

/// A `lib_id` inside a string does not make a definition a placed symbol.
#[test]
fn a_lib_id_in_a_description_does_not_count() {
    let sch = "(kicad_sch (lib_symbols (symbol \"X:Y\" (property \"Reference\" \"U1\") (property \"D\" \"(lib_id x\"))) (symbol (lib_id \"X:Y\") (property \"Reference\" \"U1\")))";
    let (a, b) = find_symbol_instance_block(sch, "U1").unwrap();
    assert_eq!(&sch[a..b], "(symbol (lib_id \"X:Y\") (property \"Reference\" \"U1\"))");
}

#[test]
fn unknown_reference_is_none() {
    assert!(find_symbol_instance_block(EESCHEMA_STYLE, "R99").is_none());
}

#[test]
fn reference_prefix_does_not_match_longer_designator() {
    let sch = "(kicad_sch\n\t(symbol\n\t\t(lib_id \"Device:R\")\n\t\t(property \"Reference\" \"R12\"\n\t\t\t(at 1 1 0)\n\t\t)\n\t)\n)\n";
    assert!(find_symbol_instance_block(sch, "R1").is_none());
}

#[test]
fn a_rename_reaches_every_unit_and_every_instance_entry() {
    let (edits, outcome) = rename_symbol_edits(TWO_UNITS, "U1", "U7").unwrap();
    assert_eq!((outcome.units, outcome.instances), (2, 2));
    assert_eq!(edits.len(), 4);
    assert!(edits.iter().all(|e| e.replacement == "U7"));
    let (after, _) = rename_symbol(TWO_UNITS, "U1", "U7").unwrap();
    assert_eq!(after, TWO_UNITS.replace("\"U1\"", "\"U7\""));
    let (back, _) = rename_symbol(&after, "U7", "U1").unwrap();
    assert_eq!(back, TWO_UNITS);
}

#[test]
fn renaming_an_unknown_component_says_so() {
    let err = rename_symbol_edits(TWO_UNITS, "R99", "R1").unwrap_err();
    assert_eq!(err, "symbol 'R99' not found in this schematic");
}

fn change() -> ComponentChange {
    ComponentChange {
        new_reference: None,
        value: None,
        footprint: None,
        datasheet: None,
        fields: Vec::new(),
    }
}

#[test]
fn an_edit_renames_first_and_then_looks_the_symbol_up_by_its_new_name() {
    let mut c = change();
    c.new_reference = Some("U2".to_string());
    c.value = Some("LM741".to_string());
    let done = edit_schematic_component(TWO_UNITS, "U1", &c, "f").unwrap();
    assert_eq!(
        done.changes,
        vec!["Reference → U2", "instances reference → U2 (2)", "Value → LM741"]
    );
    assert!(done.errors.is_empty());
    let text = done.content.unwrap();
    assert!(text.contains("(property \"Value\" \"LM741\")"));
    assert!(!text.contains("\"U1\""));
}

#[test]
fn an_edit_that_changes_nothing_is_a_failure() {
    let mut c = change();
    c.footprint = Some("X".to_string());
    let err = edit_schematic_component(TWO_UNITS, "U1", &c, "f").unwrap_err();
    let wanted = "No fields were updated on 'U1': Footprint: 'U1' has no 'Footprint' property";
    assert!(matches!(&err, EditFault::NothingUpdated(t) if t == wanted), "{err:?}");
    // What is not one schematic any more is not written.
    let mut c = change();
    c.value = Some("1k".to_string());
    let torn = &TWO_UNITS[..TWO_UNITS.rfind(')').unwrap()];
    let err = edit_schematic_component(torn, "U1", &c, "f").unwrap_err();
    assert!(matches!(&err, EditFault::Corrupt(t) if t.ends_with("nothing was written.")), "{err:?}");
    // Nothing asked for is nothing written.
    assert!(edit_schematic_component(TWO_UNITS, "U1", &change(), "f").unwrap().content.is_none());
}

#[test]
fn a_missing_instance_entry_is_reported() {
    let mut c = change();
    c.new_reference = Some("R2".to_string());
    let done = edit_schematic_component(EESCHEMA_STYLE, "R1", &c, "f").unwrap();
    assert_eq!(done.changes, vec!["Reference → R2"]);
    assert_eq!(done.errors.len(), 1);
    assert!(done.errors[0].contains("no (instances …) entry"));
}

#[test]
fn a_field_is_rewritten_in_place() {
    let after = update_symbol_field(EESCHEMA_STYLE, "R1", "Value", "4k7").unwrap();
    assert_eq!(after, EESCHEMA_STYLE.replace("\"10k\"", "\"4k7\""));
    let err = update_symbol_field(EESCHEMA_STYLE, "R1", "MPN", "x").unwrap_err();
    assert_eq!(err, "'R1' has no 'MPN' property");
}

#[test]
fn a_project_is_named_after_its_file() {
    let name = |t: &str| project_name_for(&Some(t.to_string()));
    assert_eq!(name("amp.kicad_sch"), "amp");
    assert_eq!(name("amp.v2.kicad_sch"), "amp.v2");
    assert_eq!(name("amp"), "amp");
    assert_eq!(name(".hidden"), ".hidden");
    assert_eq!(project_name_for(&None), "");
}

#[test]
fn a_blank_schematic_is_a_document_with_a_root_uuid() {
    let text = blank_schematic_template();
    assert!(check_document(&text, "kicad_sch").is_ok());
    assert!(text.contains("\t(uuid \""));
    assert!(text.contains("(paper \"A4\")"));
    assert_ne!(text, blank_schematic_template());
}

#[test]
fn a_root_uuid_is_kept_or_made() {
    let mut sch = Schematic { uuid: Some("abc".to_string()), raw_other: Vec::new() };
    assert_eq!(ensure_root_uuid(&mut sch), "abc");
    sch.uuid = None;
    let made = ensure_root_uuid(&mut sch);
    assert_eq!(made.len(), 36);
    assert_eq!(sch.uuid, Some(made));
}

#[test]
fn the_newest_configuration_wins() {
    let dirs = |base, ten, nine, eight| {
        kicad_config_dir("/c/kicad", &ConfigDirs { base, ten, nine, eight })
    };
    assert_eq!(dirs(true, true, true, true), vec!["/c/kicad", "10.0"]);
    assert_eq!(dirs(true, false, true, true), vec!["/c/kicad", "9.0"]);
    assert_eq!(dirs(true, false, false, true), vec!["/c/kicad", "8.0"]);
    assert_eq!(dirs(true, false, false, false), vec!["/c/kicad"]);
    assert_eq!(dirs(false, false, false, false), vec!["/c/kicad", "10.0"]);
}

#[test]
fn a_definition_is_embedded_once() {
    let mut text = "(kicad_sch\n\t(version 1)\n\t(lib_symbols\n\t)\n)\n".to_string();
    let d = vec![("Device:R".to_string(), "(symbol \"Device:R\"\n\t(pin)\n)".to_string())];
    assert!(ensure_lib_symbol_in_schematic(&mut text, "Device:R", &d));
    assert_eq!(
        text,
        "(kicad_sch\n\t(version 1)\n\t(lib_symbols\n\t\n\t\t(symbol \"Device:R\"\n\t\t\t(pin)\n\t\t)\n\t)\n)\n"
    );
    let before = text.clone();
    assert!(ensure_lib_symbol_in_schematic(&mut text, "Device:R", &d));
    assert_eq!(text, before);
    assert!(!ensure_lib_symbol_in_schematic(&mut text, "Device:C", &Vec::new()));
    assert_eq!(text, before);
}

#[test]
fn a_missing_section_is_made() {
    let mut text = "(kicad_sch\n\t(version 1)\n)\n".to_string();
    let d = vec![("Device:R".to_string(), "(symbol \"Device:R\")".to_string())];
    assert!(ensure_lib_symbol_in_schematic(&mut text, "Device:R", &d));
    assert!(check_document(&text, "kicad_sch").is_ok());
    assert!(text.contains("(lib_symbols"));
    assert!(text.contains("(symbol \"Device:R\")"));
}

/// A parenthesis inside a string does not close the section.
#[test]
fn a_definition_goes_before_the_end_of_the_section() {
    let before = "(kicad_sch\n\t(lib_symbols\n\t\t(symbol \"A:B\"\n\t\t\t(property \"D\" \"x (y\")\n\t\t)\n\t)\n)\n";
    let d = vec![("Device:R".to_string(), "(symbol \"Device:R\")".to_string())];
    let mut text = before.to_string();
    assert!(ensure_lib_symbol_in_schematic(&mut text, "Device:R", &d));
    let tree = parse_sexp(&text).unwrap();
    let section = tree.find("lib_symbols").unwrap();
    let names: Vec<&str> = section.find_all("symbol").iter().filter_map(|n| n.value()).collect();
    assert_eq!(names, ["A:B", "Device:R"]);
    assert_eq!(text.replacen("\n\t\t(symbol \"Device:R\")\n\t", "", 1), before);
}

#[test]
fn a_section_is_made_inside_a_document_of_one_line() {
    let d = vec![("Device:R".to_string(), "(symbol \"Device:R\")".to_string())];
    for before in ["(kicad_sch (version 1))", "(kicad_sch (version 1))\n", "(kicad_sch (title \"a)\nb\"))\n"] {
        let mut text = before.to_string();
        assert!(ensure_lib_symbol_in_schematic(&mut text, "Device:R", &d));
        let tree = parse_sexp(&text).unwrap();
        let section = tree.find("lib_symbols").expect(before);
        assert_eq!(section.find_all("symbol").len(), 1, "{text}");
        assert!(check_document(&text, "kicad_sch").is_ok(), "{text}");
    }
}

#[test]
fn a_replacement_brings_the_parents_of_its_definition() {
    let (_, text) =
        replace_component(EESCHEMA_STYLE, "R1", "L:Child", &definitions(), true, &Vec::new()).unwrap();
    let tree = parse_sexp(&text).unwrap();
    let section = tree.find("lib_symbols").unwrap();
    let names: Vec<&str> = section.find_all("symbol").iter().filter_map(|n| n.value()).collect();
    assert_eq!(names, ["Device:R", "L:Parent", "L:Child"]);
}

/// A definition is there when it is defined, not when its name is mentioned.
#[test]
fn a_name_in_a_property_is_no_definition() {
    let mut sch = Schematic {
        uuid: None,
        raw_other: vec![
            parse_sexp("(lib_symbols (symbol \"X:Y\" (property \"Note\" \"Device:R\")))").unwrap(),
        ],
    };
    assert!(ensure_lib_symbol(&mut sch, "Device:R", &facts(true).definitions));
    assert_eq!(defined(&sch), ["X:Y", "Device:R"]);
    assert!(ensure_lib_symbol(&mut sch, "Device:R", &facts(true).definitions));
    assert_eq!(defined(&sch), ["X:Y", "Device:R"]);
}

#[test]
fn a_parent_is_read_outside_strings() {
    let noted = "(symbol \"L:A\" (property \"D\" \"see (extends \\\"L:Z\\\")\"))";
    assert_eq!(read_parent_id(noted), None);
    let child = "(symbol \"L:A\" (property \"D\" \"(extends \\\"L:Z\\\")\") (extends \"L:B\"))";
    assert_eq!(read_parent_id(child), Some("L:B".to_string()));
    assert_eq!(read_parent_id("(symbol \"L:A\" (extends \"B\"))"), None);
}

#[test]
fn parents_are_looked_up_one_after_the_other() {
    let pair = |id: &str, text: &str| (id.to_string(), text.to_string());
    let mut known = Vec::new();
    assert_eq!(next_definition(&known), None);
    known.push(pair("L:A", "(symbol \"L:A\" (extends \"L:B\"))"));
    assert_eq!(next_definition(&known), Some("L:B".to_string()));
    known.push(pair("L:B", "(symbol \"L:B\" (extends \"L:A\"))"));
    assert_eq!(next_definition(&known), None);
}

/// A definition that another one extends stays.
#[test]
fn a_parent_is_not_pruned() {
    let mut sch = Schematic { uuid: Some("root-1".to_string()), raw_other: Vec::new() };
    assert!(ensure_lib_symbol(&mut sch, "L:Child", &definitions()));
    let mut parent = Symbol::new("L:Parent", "1", "2");
    parent.set_property("Reference", "U1");
    let mut child = Symbol::new("L:Child", "1", "2");
    child.set_property("Reference", "U2");
    let mut symbols = SymbolCollection::new(vec![parent, child]);
    assert_eq!(delete_schematic_component(&mut sch, &mut symbols, "U1"), Ok(false));
    assert_eq!(defined(&sch), ["L:Parent", "L:Child"]);
    assert_eq!(delete_schematic_component(&mut sch, &mut symbols, "U2"), Ok(true));
    assert_eq!(defined(&sch), ["L:Parent"]);
}

/// A value ends at the quote that closes its string.
#[test]
fn an_escaped_quote_belongs_to_the_value() {
    let before = "(kicad_sch (symbol (lib_id \"D:R\") (property \"Reference\" \"R1\") (property \"Value\" \"5\\\" x\")))";
    let after = update_symbol_field(before, "R1", "Value", "9").unwrap();
    assert_eq!(
        after,
        "(kicad_sch (symbol (lib_id \"D:R\") (property \"Reference\" \"R1\") (property \"Value\" \"9\")))"
    );
    assert_eq!(update_symbol_field(&after, "R1", "Value", "5\\\" x").unwrap(), before);
    let odd = "(kicad_sch (symbol (lib_id \"D:R\\\"s\") (property \"Reference\" \"R1\")))";
    let d = vec![("D:L".to_string(), "(symbol \"D:L\")".to_string())];
    let (old_id, text) = replace_component(odd, "R1", "D:L", &d, true, &Vec::new()).unwrap();
    assert_eq!(old_id, "D:R\\\"s");
    assert!(text.contains("(symbol (lib_id \"D:L\") (property \"Reference\" \"R1\"))"), "{text}");
}

#[test]
fn further_properties_are_set_by_name() {
    let sch = "(kicad_sch (symbol (lib_id \"D:R\") (property \"Reference\" \"R1\") (property \"MPN\" \"old\")))";
    let mut c = change();
    c.fields = vec![("MPN".to_string(), "X".to_string())];
    let done = edit_schematic_component(sch, "R1", &c, "f").unwrap();
    assert_eq!(done.changes, ["MPN → X"]);
    assert!(done.content.unwrap().contains("(property \"MPN\" \"X\")"));
    // A designator is stored twice, so naming it among the fields renames.
    c.fields = vec![("Reference".to_string(), "U7".to_string())];
    let done = edit_schematic_component(TWO_UNITS, "U1", &c, "f").unwrap();
    assert_eq!(done.changes, ["Reference → U7", "instances reference → U7 (2)"]);
    assert_eq!(done.content.unwrap(), TWO_UNITS.replace("\"U1\"", "\"U7\""));
}

#[test]
fn nothing_is_found_under_the_old_name() {
    let (after, _) = rename_symbol(TWO_UNITS, "U1", "U7").unwrap();
    assert_eq!(find_symbol_instance_block(&after, "U1"), None);
    assert!(find_symbol_instance_block(&after, "U7").is_some());
    let (edits, _) = rename_symbol_edits(TWO_UNITS, "U1", "U7").unwrap();
    for (i, a) in edits.iter().enumerate() {
        assert_eq!(&TWO_UNITS[a.start..a.end], "U1");
        assert!(edits[..i].iter().all(|b| a.end <= b.start || b.end <= a.start));
    }
}

fn definitions() -> Vec<(String, String)> {
    vec![
        (
            "L:Child".to_string(),
            "(symbol \"L:Child\"\n\t(extends \"L:Parent\"))".to_string(),
        ),
        ("L:Parent".to_string(), "(symbol \"L:Parent\")".to_string()),
    ]
}

fn defined(sch: &Schematic) -> Vec<String> {
    sch.raw_other
        .iter()
        .filter(|n| n.has_tag("lib_symbols"))
        .flat_map(|n| n.find_all("symbol"))
        .filter_map(|n| n.value().map(|t| t.to_string()))
        .collect()
}

#[test]
fn a_parent_is_embedded_before_its_child() {
    let mut sch = Schematic { uuid: None, raw_other: Vec::new() };
    assert!(ensure_lib_symbol(&mut sch, "L:Child", &definitions()));
    assert_eq!(defined(&sch), vec!["L:Parent", "L:Child"]);
    assert!(ensure_lib_symbol(&mut sch, "L:Child", &definitions()));
    assert_eq!(defined(&sch).len(), 2);
}

#[test]
fn ensure_lib_symbol_reports_failure_for_bogus_lib_id() {
    let mut sch = Schematic {
        uuid: None,
        raw_other: vec![parse_sexp("(lib_symbols\n\t)").unwrap()],
    };
    assert!(!ensure_lib_symbol(&mut sch, "Definitely_Not_A_Library_xyzzy:Nope", &Vec::new()));
}

fn resistor(reference: Option<&str>) -> NewComponent {
    NewComponent {
        lib_id: "Device:R".to_string(),
        x: "100.33".to_string(),
        y: "80.01".to_string(),
        rotation: "0".to_string(),
        reference_y: "76.2".to_string(),
        value_y: "83.82".to_string(),
        reference: reference.map(|r| r.to_string()),
        value: None,
        unit: 1,
    }
}

fn facts(known: bool) -> LibraryFacts {
    LibraryFacts {
        definitions: if known {
            vec![("Device:R".to_string(), "(symbol \"Device:R\")".to_string())]
        } else {
            Vec::new()
        },
        library_exists: true,
        suggestions: vec!["Device:R_US".to_string()],
    }
}

#[test]
fn a_new_component_has_its_instance_under_the_root_sheet() {
    let mut sch = Schematic { uuid: Some("root-1".to_string()), raw_other: Vec::new() };
    let mut symbols = SymbolCollection::new(Vec::new());
    let uuid =
        add_schematic_component(&mut sch, &mut symbols, &resistor(Some("R1")), "amp", &facts(true))
            .unwrap();
    assert_eq!(symbols.len(), 1);
    let s = symbols.by_reference("R1").unwrap();
    assert_eq!(s.uuid, uuid);
    assert_eq!(s.value_str(), Some("R"));
    assert!(s.has_instance_path("amp", "/root-1"));
    assert!(!s.has_instance_path("amp", "/"));
    assert_eq!(defined(&sch), vec!["Device:R"]);
    assert_eq!(
        s.property_position("Reference"),
        Some(("100.33".to_string(), "76.2".to_string()))
    );
}

#[test]
fn an_unknown_symbol_is_refused_with_a_suggestion() {
    let mut sch = Schematic { uuid: Some("root-1".to_string()), raw_other: Vec::new() };
    let mut symbols = SymbolCollection::new(Vec::new());
    let err =
        add_schematic_component(&mut sch, &mut symbols, &resistor(None), "amp", &facts(false))
            .unwrap_err();
    assert!(err.contains("Device:R_US"), "{err}");
    assert!(symbols.is_empty());
}

#[test]
fn deleting_the_last_user_prunes_the_definition() {
    let mut sch = Schematic { uuid: Some("root-1".to_string()), raw_other: Vec::new() };
    let mut symbols = SymbolCollection::new(Vec::new());
    for r in ["R1", "R2"] {
        add_schematic_component(&mut sch, &mut symbols, &resistor(Some(r)), "amp", &facts(true))
            .unwrap();
    }
    assert_eq!(delete_schematic_component(&mut sch, &mut symbols, "R1"), Ok(false));
    assert_eq!(defined(&sch).len(), 1);
    assert_eq!(delete_schematic_component(&mut sch, &mut symbols, "R2"), Ok(true));
    assert_eq!(defined(&sch).len(), 0);
    assert_eq!(
        delete_schematic_component(&mut sch, &mut symbols, "R2"),
        Err("Component 'R2' not found in schematic".to_string())
    );
}

#[test]
fn only_labels_that_nothing_else_holds_are_stranded() {
    let l = |on_deleted_pin, on_other_pin| LabelFacts { on_deleted_pin, on_other_pin };
    let labels = vec![l(true, false), l(true, true), l(false, false), l(true, false)];
    assert_eq!(stranded_labels(&labels), vec![0, 3]);
}

#[test]
fn components_are_listed_with_what_they_lack_filled_in() {
    let mut bare = Symbol::new("Device:C", "1", "2");
    bare.mirror = Some("x".to_string());
    let symbols = SymbolCollection::new(vec![bare]);
    let rows = list_schematic_components(&symbols);
    assert_eq!(rows.len(), 1);
    assert_eq!(rows[0].reference, "?");
    assert_eq!(rows[0].value, "");
    assert_eq!(rows[0].rotation, "0");
    assert!(rows[0].mirror_x && !rows[0].mirror_y);
    assert_eq!(
        get_schematic_component(&symbols, "C9").unwrap_err(),
        "Component 'C9' not found"
    );
    assert_eq!(region_components(&vec![true, false, true]), vec![0, 2]);
}

#[test]
fn a_component_without_its_definition_is_an_error() {
    let tree = parse_sexp(EESCHEMA_STYLE).unwrap();
    let d: &SexpNode = find_definition(&tree, "R1", "Device:R").unwrap();
    assert_eq!(d.value(), Some("Device:R"));
    let err = find_definition(&tree, "C1", "Device:CP").unwrap_err();
    assert!(err.starts_with("Component 'C1' has no embedded definition for 'Device:CP'"), "{err}");
}

#[test]
fn annotations_go_before_the_instances() {
    let after = add_component_annotation(TWO_UNITS, "U1", "MPN", "LM358DR").unwrap();
    assert!(check_document(&after, "kicad_sch").is_ok());
    let p = after.find("(property \"MPN\" \"LM358DR\"").unwrap();
    assert!(p < after.find("(instances").unwrap());
    assert_eq!(
        add_component_annotation(TWO_UNITS, "R9", "a", "b").unwrap_err(),
        "Component 'R9' not found"
    );
}

#[test]
fn a_group_passes_over_what_is_not_there() {
    let refs = vec!["U1".to_string(), "R9".to_string(), "U10".to_string()];
    let (done, text) = group_components(TWO_UNITS, &refs, "amp").unwrap();
    assert_eq!(done, vec!["U1", "U10"]);
    assert_eq!(text.matches("(property \"Group\" \"amp\"").count(), 2);
    assert_eq!(
        group_components(TWO_UNITS, &Vec::new(), "amp").unwrap_err(),
        "No references provided"
    );
}

/// A value that looks like a block does not draw the property into it.
#[test]
fn an_annotation_goes_before_the_instances() {
    let sch = "(kicad_sch (symbol (lib_id \"D:R\") (property \"Reference\" \"R1\") (property \"N\" \"(instances\") (instances (x))))";
    let out = add_component_annotation(sch, "R1", "K", "V").unwrap();
    assert!(out.contains("\"(instances\")     (property \"K\" \"V\""), "{out}");
    assert!(out.contains("\n    (instances (x))"), "{out}");
    assert!(check_document(&out, "kicad_sch").is_ok());
}

#[test]
fn a_replacement_needs_its_definition() {
    let d = vec![("Device:L".to_string(), "(symbol \"Device:L\")".to_string())];
    let (old_id, text) =
        replace_component(EESCHEMA_STYLE, "R1", "Device:L", &d, true, &Vec::new()).unwrap();
    assert_eq!(old_id, "Device:R");
    assert!(text.contains("(lib_id \"Device:L\")"));
    assert!(text.contains("(symbol \"Device:L\")"));
    assert!(check_document(&text, "kicad_sch").is_ok());
    let err =
        replace_component(EESCHEMA_STYLE, "R1", "Nope:L", &Vec::new(), false, &Vec::new()).unwrap_err();
    assert!(err.starts_with("Library 'Nope' not found"), "{err}");
}

#[test]
fn a_missing_definition_is_said_and_not_an_empty_list() {
    assert_eq!(
        missing_pins_message("Device:Nope"),
        "no embedded definition for 'Device:Nope' in lib_symbols — likely added with a nonexistent lib_id"
    );
}

#[test]
fn writing_the_old_value_again_restores_the_file() {
    let there = update_symbol_field(EESCHEMA_STYLE, "R1", "Value", "4k7 (1%)").unwrap();
    assert!(there.contains("(property \"Value\" \"4k7 (1%)\""));
    let (a, b) = find_symbol_instance_block(EESCHEMA_STYLE, "R1").unwrap();
    assert_eq!(find_symbol_instance_block(&there, "R1"), Some((a, b + 5)));
    assert_eq!(update_symbol_field(&there, "R1", "Value", "10k").unwrap(), EESCHEMA_STYLE);
}

#[test]
fn a_placed_component_is_found_and_the_others_stay() {
    let mut sch = Schematic { uuid: Some("root-1".to_string()), raw_other: Vec::new() };
    let mut symbols = SymbolCollection::new(Vec::new());
    let mut uuids = Vec::new();
    for r in ["R1", "R2", "R3"] {
        uuids.push(
            add_schematic_component(&mut sch, &mut symbols, &resistor(Some(r)), "amp", &facts(true))
                .unwrap(),
        );
    }
    for (r, uuid) in ["R1", "R2", "R3"].iter().zip(&uuids) {
        let row = get_schematic_component(&symbols, r).unwrap();
        assert_eq!((row.reference.as_str(), &row.uuid), (*r, uuid));
    }
    assert!(symbols.by_reference("R2").unwrap().has_instance_path("amp", "/root-1"));
    delete_schematic_component(&mut sch, &mut symbols, "R2").unwrap();
    assert!(get_schematic_component(&symbols, "R2").is_err());
    assert_eq!(&get_schematic_component(&symbols, "R1").unwrap().uuid, &uuids[0]);
    assert_eq!(&get_schematic_component(&symbols, "R3").unwrap().uuid, &uuids[2]);
}

#[test]
fn a_name_with_escapes_is_embedded_once() {
    let raw = "(symbol \"L:A\\\"B\" (property \"Value\" \"x\"))";
    let definitions = vec![("L:A\\\"B".to_string(), raw.to_string())];
    let mut sch = Schematic { uuid: None, raw_other: Vec::new() };
    assert!(ensure_lib_symbol(&mut sch, "L:A\\\"B", &definitions));
    assert!(ensure_lib_symbol(&mut sch, "L:A\\\"B", &definitions));
    assert_eq!(sch.raw_other.len(), 1);
    assert_eq!(sch.raw_other[0].find_all("symbol").len(), 1);
    assert_eq!(sch.raw_other[0].find_all("symbol")[0].value(), Some("L:A\"B"));
    assert_eq!(resolve_escapes("a\\\\b\\\"c"), "a\\b\"c");
}

#[test]
fn a_name_with_escapes_is_renamed() {
    let sch = "(kicad_sch\n\t(symbol\n\t\t(lib_id \"Device:R\")\n\t\t(property \"Reference\" \"R\\\"1\")\n\t\t(instances (project \"p\" (path \"/\" (reference\n\"R\\\"1\") (unit 1))))\n\t)\n)\n";
    let (after, outcome) = rename_symbol(sch, "R\\\"1", "R(property ").unwrap();
    assert_eq!((outcome.units, outcome.instances), (1, 1));
    assert_eq!(after, sch.replace("R\\\"1", "R(property "));
    assert!(find_symbol_instance_block(&after, "R\\\"1").is_none());
    assert!(find_symbol_instance_block(&after, "R(property ").is_some());
}
