//! Net references.

use konnect::net::{
    net_field, net_name_of, net_names, net_not_found_error, net_table, quoted_name, resolve_net,
    NetRef,
};

/// KiCAD 10 has no numeric net table at all.
const NAMED: &str = "(kicad_pcb\n\t(version 20260206)\n\t(footprint \"x\"\n\t\t(pad \"1\" smd rect\n\t\t\t(net \"GND\")\n\t\t)\n\t\t(pad \"2\" smd rect\n\t\t\t(net \"+3V3\")\n\t\t)\n\t)\n)\n";
/// Older boards declare `(net N "NAME")`.
const NUMBERED: &str = "(kicad_pcb\n\t(version 20250513)\n\t(net 0 \"\")\n\t(net 1 \"GND\")\n\t(net 2 \"+5V\")\n)\n";

#[test]
fn resolves_named_format() {
    assert_eq!(resolve_net(NAMED, "GND"), Some(NetRef::Named("GND".into())));
    assert_eq!(resolve_net(NAMED, "GND").unwrap().zone_fields(), "(net \"GND\")");
    assert!(resolve_net(NAMED, "GND").unwrap().code().is_none());
}

#[test]
fn resolves_numbered_format() {
    let n = resolve_net(NUMBERED, "GND").expect("GND is net 1");
    assert_eq!(n, NetRef::Numbered(1, "GND".into()));
    assert_eq!(n.zone_fields(), "(net 1) (net_name \"GND\")");
    assert_eq!(resolve_net(NUMBERED, "+5V").unwrap().code(), Some(2));
}

#[test]
fn unknown_net_is_none_not_zero() {
    assert_eq!(resolve_net(NAMED, "VBUS"), None);
    assert_eq!(resolve_net(NUMBERED, "VBUS"), None);
}

#[test]
fn a_net_name_that_is_a_prefix_of_another_does_not_match() {
    let c = "(kicad_pcb\n\t(pad\n\t\t(net \"GND_ANALOG\")\n\t)\n)\n";
    assert_eq!(resolve_net(c, "GND"), None, "prefix must not match");
    assert!(resolve_net(c, "GND_ANALOG").is_some());
}

#[test]
fn net_fields_follow_the_boards_convention() {
    assert_eq!(net_field(&NetRef::Named("+3V3".into())), "(net \"+3V3\")");
    assert_eq!(net_field(&NetRef::Numbered(7, "GND".into())), "(net 7)");
    assert_eq!(quoted_name("x"), "\"x\"");
}

#[test]
fn the_table_and_the_names_of_a_board_are_read_off_it() {
    let table = net_table(NUMBERED);
    assert_eq!(table.len(), 3);
    assert_eq!(net_name_of(&table, 2).as_deref(), Some("+5V"));
    assert_eq!(net_name_of(&table, 9), None);
    assert_eq!(net_names(NAMED), vec!["+3V3", "GND"]);
    let err = net_not_found_error(NAMED, "VBUS");
    assert!(err.contains("VBUS") && err.contains("GND"), "{err}");
}
