//! Placed symbols.

use konnect::sexp::parse_sexp;
use konnect::symbol::{Symbol, SymbolCollection, SymbolError};
use konnect::types::{At, ChangeSet, Effects, Property, Stroke};

fn pair(x: &str, y: &str) -> Option<(String, String)> {
    Some((x.to_string(), y.to_string()))
}

/// A symbol whose Reference text sits 5 mm below it.
fn sym_at(x: &str, y: &str, rot: &str, below: &str, further: &str) -> Symbol {
    let text = format!(
        "(symbol\n\t(lib_id \"Device:R\")\n\t(at {x} {y} {rot})\n\t(unit 1)\n\t\
         (property \"Reference\" \"R3\"\n\t\t(at {x} {below} 0)\n\t)\n\t\
         (property \"Value\" \"10k\"\n\t\t(at {x} {further} 0)\n\t)\n)"
    );
    Symbol::from_sexp(&parse_sexp(&text).unwrap()).unwrap()
}

/// Field positions are absolute, so they go where the symbol goes.
#[test]
fn moving_carries_the_field_text() {
    let mut s = sym_at("100", "100", "0", "105", "108");
    assert_eq!(s.field_positions(), vec![pair("100", "105"), pair("100", "108")]);
    s.move_to("330.2", "196.85", &vec![pair("330.2", "201.85"), pair("330.2", "204.85")]);
    assert_eq!(s.at.x, "330.2");
    assert_eq!(s.property_position("Reference"), pair("330.2", "201.85"));
    assert_eq!(s.property_position("Value"), pair("330.2", "204.85"));
}

#[test]
fn translating_carries_the_field_text() {
    let mut s = sym_at("10", "20", "0", "25", "28");
    let by = |v: &str, d: f64| format!("{}", ((v.parse::<f64>().unwrap() + d) * 1e6).round() / 1e6);
    let fields: Vec<Option<(String, String)>> = s
        .field_positions()
        .iter()
        .map(|p| p.as_ref().map(|(x, y)| (by(x, 2.54), by(y, -1.27))))
        .collect();
    s.move_to(&by("10", 2.54), &by("20", -1.27), &fields);
    assert_eq!((s.at.x.as_str(), s.at.y.as_str()), ("12.54", "18.73"));
    assert_eq!(s.property_position("Reference"), pair("12.54", "23.73"));
}

#[test]
fn rotating_moves_fields_the_way_eeschema_does() {
    let mut s = sym_at("100", "100", "0", "105", "108");
    s.set_rotation("90", &vec![pair("105", "100"), pair("108", "100")]);
    assert_eq!(s.at.rotation.as_deref(), Some("90"));
    assert_eq!(s.property_position("Reference"), pair("105", "100"));
    let angle = s.properties.iter().find(|p| p.name == "Reference").and_then(|p| p.text_angle());
    assert_eq!(angle.as_deref(), Some("0"), "eeschema leaves the field angle alone");
}

#[test]
fn rotating_back_to_zero_restores_the_original_layout() {
    let mut s = sym_at("100", "100", "0", "105", "108");
    let before = s.field_positions();
    s.set_rotation("180", &vec![pair("100", "95"), pair("100", "92")]);
    assert_eq!(s.property_position("Reference"), pair("100", "95"));
    s.set_rotation("0", &before);
    assert_eq!(s.property_position("Reference"), pair("100", "105"));
    assert_eq!(s.field_positions(), before);
}

#[test]
fn a_symbol_is_written_as_it_was_read() {
    let text = "(symbol (lib_id \"Device:R\") (at 1 2 90) (mirror y) (unit 2) (exclude_from_sim no) (in_bom yes) (on_board no) (dnp yes) (fields_autoplaced yes) (uuid \"u1\") (property \"Reference\" \"R1\" (at 1 1 0)) (pin \"1\" (uuid \"p1\")))";
    let s = Symbol::from_sexp(&parse_sexp(text).unwrap()).unwrap();
    assert_eq!((s.unit, s.in_bom, s.on_board, s.dnp), (2, true, false, true));
    assert_eq!(s.mirror.as_deref(), Some("y"));
    let again = Symbol::from_sexp(&s.to_sexp()).unwrap();
    assert_eq!(again.lib_id, s.lib_id);
    assert_eq!(again.unit, 2);
    assert_eq!(again.uuid, "u1");
    assert_eq!(again.property("Reference"), Some("R1"));
    assert_eq!(again.raw_sub_nodes.len(), s.raw_sub_nodes.len());
}

#[test]
fn a_symbol_needs_its_library_and_its_place() {
    let read = |t: &str| Symbol::from_sexp(&parse_sexp(t).unwrap()).err();
    assert_eq!(read("(symbol (at 1 2 0))"), Some(SymbolError::MissingLibId));
    assert_eq!(read("(symbol (lib_id \"Device:R\"))"), Some(SymbolError::MissingAt));
}

#[test]
fn properties_are_set_read_and_removed() {
    let mut s = Symbol::new("Device:R", "1", "2");
    assert_eq!(s.reference(), None);
    s.set_reference("R1");
    s.set_value_str("10k");
    s.set_footprint("R_0805");
    s.set_datasheet("~");
    assert_eq!(s.reference(), Some("R1"));
    assert_eq!(s.value_str(), Some("10k"));
    assert_eq!(s.footprint(), Some("R_0805"));
    assert_eq!(s.datasheet(), Some("~"));
    s.set_property("MPN", "x");
    s.remove_property("MPN");
    assert_eq!(s.property("MPN"), None);
    s.set_instance_path("p", "/root", "R1", 1);
    assert!(s.has_instance_path("p", "/root"));
    assert!(!s.has_instance_path("p", "/"));
    assert!(!s.has_instance_path("q", "/root"));
}

fn named(reference: &str, value: &str) -> Symbol {
    let mut s = Symbol::new("Device:R", "1", "2");
    s.set_reference(reference);
    s.set_value_str(value);
    s
}

#[test]
fn a_collection_is_searched_and_changed() {
    let mut all = SymbolCollection::new(vec![named("R1", "10k"), named("R2", "1k")]);
    all.push(named("C1", "100n"));
    assert_eq!(all.len(), 3);
    assert!(!all.is_empty());
    assert_eq!(all.reference_startswith("R").len(), 2);
    assert_eq!(all.value_startswith("1").len(), 3);
    assert_eq!(all.by_value("1k").len(), 1);
    assert_eq!(all.by_lib_id("Device:R").len(), 3);
    assert_eq!(all.get(2).and_then(|s| s.reference()), Some("C1"));
    assert!(all.get(3).is_none());
    all.by_reference_mut("R2").unwrap().set_value_str("2k");
    assert_eq!(all.by_reference("R2").unwrap().value_str(), Some("2k"));
    all.get_mut(0).unwrap().set_value_str("3k");
    all.set_all_dnp(true);
    assert!(all.as_slice().iter().all(|s| s.dnp));
    assert_eq!(all.remove_by_reference("R1").unwrap().value_str(), Some("3k"));
    assert!(all.remove_by_reference("R1").is_none());
    let uuid = all.get(0).unwrap().uuid.clone();
    assert!(all.remove_by_uuid(&uuid).is_some());
    all.retain(|s: &Symbol| s.dnp);
    assert_eq!(all.into_vec().len(), 1);
}

#[test]
fn positions_and_properties_read_back() {
    for text in ["(at 1 2)", "(at 1.5 -2 90)"] {
        let at = At::from_sexp(&parse_sexp(text).unwrap()).unwrap();
        let again = At::from_sexp(&at.to_sexp()).unwrap();
        assert_eq!((again.x, again.y, again.rotation), (at.x, at.y, at.rotation));
    }
    assert!(At::from_sexp(&parse_sexp("(at 1)").unwrap()).is_none());
    assert_eq!(At::with_rotation("1", "2", "90").rotation.as_deref(), Some("90"));
    assert!(At::new("1", "2").rotation.is_none());
    // Without a position there is nothing to move.
    let mut bare = Property::new("Value", "10k");
    bare.set_position("3", "4");
    assert_eq!(bare.position(), None);
    let mut p =
        Property::from_sexp(&parse_sexp("(property \"Value\" \"10k\" (at 1 2))").unwrap()).unwrap();
    p.set_position("3", "4");
    assert_eq!(p.position(), pair("3", "4"));
    p.set_text_angle("90");
    assert_eq!(p.text_angle().as_deref(), Some("90"));
    let again = Property::from_sexp(&p.to_sexp()).unwrap();
    assert_eq!((again.name.as_str(), again.value.as_str()), ("Value", "10k"));
    assert_eq!(again.position(), pair("3", "4"));
    assert!(Property::from_sexp(&parse_sexp("(property \"x\")").unwrap()).is_none());
    let node = parse_sexp("(effects (hide yes))").unwrap();
    assert!(Effects::from_sexp(&node).unwrap().to_sexp().has_tag("effects"));
    assert!(Stroke::from_sexp(&node).is_some());
}

#[test]
fn changes_are_summed_up() {
    let mut c = ChangeSet::new();
    assert!(c.is_empty());
    c.record("a");
    c.record("b");
    assert_eq!(c.len(), 2);
    assert_eq!(c.changes(), &vec!["a".to_string(), "b".to_string()]);
    assert!(c.summary().contains("a") && c.summary().contains("b"));
}

#[test]
fn a_symbol_is_read_back_as_it_was_written() {
    let node = parse_sexp(
        "(symbol (lib_id \"Device:R\") (at 10 20 90) (mirror x) (unit 2) (in_bom no) (on_board yes) (dnp yes) (fields_autoplaced) (uuid \"u-1\") (property \"Reference\" \"R1\" (at 1 2 0)) (pin \"1\" (uuid \"p\")) (instances (project \"p\" (path \"/a\" (reference \"R1\") (unit 2)))))",
    )
    .unwrap();
    let first = Symbol::from_sexp(&node).unwrap();
    let again = Symbol::from_sexp(&first.to_sexp()).unwrap();
    assert_eq!(format!("{:?}", first), format!("{:?}", again));
    assert_eq!(again.unit, 2);
    assert_eq!(again.mirror.as_deref(), Some("x"));
    assert!(!again.in_bom && again.on_board && again.dnp && again.fields_autoplaced);
    assert_eq!(again.raw_sub_nodes.len(), 2);
}
