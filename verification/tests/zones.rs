//! Vias and zones.

use konnect::copper::{
    add_copper_pour, add_via, assign_net_to_class, create_netclass, delete_via, delete_zone, NetClass,
    NewVia,
};
use konnect::items::{collect_vias, collect_zones, BoardZone};
use konnect::query::{netless_note, netless_zones, query_vias, query_zones};
use konnect::scan::check_document;
use konnect::zone_net::set_zone_net;

/// Nets by name; one pour is left on net 0 with a leftover label.
fn kicad10_board() -> String {
    [
        "(kicad_pcb",
        "\t(version 20260206)",
        "\t(generator \"pcbnew\")",
        "\t(gr_text \"REV (A\"",
        "\t\t(at 5 5 0)",
        "\t\t(layer \"F.SilkS\")",
        "\t\t(uuid \"text-1\")",
        "\t)",
        "\t(footprint \"Resistor_SMD:R_0603\"",
        "\t\t(layer \"F.Cu\")",
        "\t\t(at 10 10)",
        "\t\t(property \"Reference\" \"R1\")",
        "\t\t(property \"Description\" \"shunt (zone sense)\")",
        "\t\t(pad \"1\" smd rect",
        "\t\t\t(at 0 0)",
        "\t\t\t(net \"+3V3\")",
        "\t\t\t(uuid \"pad-r1-1\")",
        "\t\t)",
        "\t\t(pad \"2\" smd rect",
        "\t\t\t(at 2 0)",
        "\t\t\t(net \"GND\")",
        "\t\t\t(uuid \"pad-r1-2\")",
        "\t\t)",
        "\t\t(zone",
        "\t\t\t(net \"GND\")",
        "\t\t\t(layer \"F.Cu\")",
        "\t\t\t(uuid \"fp-zone\")",
        "\t\t)",
        "\t\t(via",
        "\t\t\t(at 1 1)",
        "\t\t\t(size 0.6)",
        "\t\t\t(drill 0.3)",
        "\t\t\t(layers \"F.Cu\" \"B.Cu\")",
        "\t\t\t(net \"GND\")",
        "\t\t\t(uuid \"fp-via\")",
        "\t\t)",
        "\t)",
        "\t(via",
        "\t\t(at 3 3)",
        "\t\t(size 0.6)",
        "\t\t(drill 0.3)",
        "\t\t(layers \"F.Cu\" \"B.Cu\")",
        "\t\t(net \"GND\")",
        "\t\t(uuid \"via-1\")",
        "\t)",
        "\t(via",
        "\t\t(at 4 4)",
        "\t\t(size 0.8)",
        "\t\t(drill 0.4)",
        "\t\t(layers \"F.Cu\" \"In1.Cu\")",
        "\t\t(net \"+3V3\")",
        "\t\t(uuid \"via-2\")",
        "\t)",
        "\t(zone",
        "\t\t(net 0)",
        "\t\t(net_name \"GND\")",
        "\t\t(layer \"In1.Cu\")",
        "\t\t(uuid \"zone-broken\")",
        "\t\t(hatch edge 0.508)",
        "\t\t(polygon",
        "\t\t\t(pts",
        "\t\t\t\t(xy 0 0)",
        "\t\t\t\t(xy 20 0)",
        "\t\t\t\t(xy 20 20)",
        "\t\t\t\t(xy 0 20)",
        "\t\t\t)",
        "\t\t)",
        "\t\t(filled_polygon",
        "\t\t\t(layer \"In1.Cu\")",
        "\t\t\t(pts",
        "\t\t\t\t(xy 1 1)",
        "\t\t\t\t(xy 19 1)",
        "\t\t\t\t(xy 19 19)",
        "\t\t\t)",
        "\t\t)",
        "\t)",
        "\t(zone",
        "\t\t(net \"+3V3\")",
        "\t\t(layer \"F.Cu\")",
        "\t\t(uuid \"zone-ok\")",
        "\t\t(polygon",
        "\t\t\t(pts",
        "\t\t\t\t(xy 30 30)",
        "\t\t\t\t(xy 40 30)",
        "\t\t\t\t(xy 40 40)",
        "\t\t\t)",
        "\t\t)",
        "\t)",
        ")",
        "",
    ]
    .join("\n")
}

/// A numbered net table; one pour has no label at all.
fn numbered_board() -> String {
    [
        "(kicad_pcb",
        "\t(version 20250513)",
        "\t(net 0 \"\")",
        "\t(net 7 \"GND\")",
        "\t(net 8 \"+3V3\")",
        "\t(footprint \"Resistor_SMD:R_0603\"",
        "\t\t(at 10 10)",
        "\t\t(property \"Reference\" \"R1\")",
        "\t\t(pad \"1\" smd rect",
        "\t\t\t(at 0 0)",
        "\t\t\t(net 7 \"GND\")",
        "\t\t)",
        "\t\t(zone",
        "\t\t\t(net 7)",
        "\t\t\t(net_name \"GND\")",
        "\t\t\t(layer \"F.Cu\")",
        "\t\t\t(uuid \"fp-zone\")",
        "\t\t)",
        "\t)",
        "\t(via",
        "\t\t(at 3 3)",
        "\t\t(size 0.6)",
        "\t\t(drill 0.3)",
        "\t\t(layers \"F.Cu\" \"B.Cu\")",
        "\t\t(net 7)",
        "\t\t(uuid \"via-old\")",
        "\t)",
        "\t(zone",
        "\t\t(net 0)",
        "\t\t(net_name \"GND\")",
        "\t\t(layer \"In1.Cu\")",
        "\t\t(uuid \"zone-broken\")",
        "\t\t(polygon",
        "\t\t\t(pts",
        "\t\t\t\t(xy 0 0)",
        "\t\t\t\t(xy 10 0)",
        "\t\t\t\t(xy 10 10)",
        "\t\t\t)",
        "\t\t)",
        "\t)",
        "\t(zone",
        "\t\t(net 0)",
        "\t\t(layer \"In2.Cu\")",
        "\t\t(uuid \"zone-nolabel\")",
        "\t\t(polygon",
        "\t\t\t(pts",
        "\t\t\t\t(xy 0 0)",
        "\t\t\t\t(xy 5 0)",
        "\t\t\t\t(xy 5 5)",
        "\t\t\t)",
        "\t\t)",
        "\t)",
        ")",
        "",
    ]
    .join("\n")
}

/// A rule area, a sound pour and one on no net.
const KEEPOUT_BOARD: &str = "(kicad_pcb\n\t(version 20260206)\n\
\t(zone\n\t\t(net \"GND\")\n\t\t(layer \"F.Cu\")\n\t\t(uuid \"pour-ok\")\n\
\t\t(polygon (pts (xy 0 0) (xy 1 0) (xy 1 1)))\n\t)\n\
\t(zone\n\t\t(net 0)\n\t\t(layer \"F.Cu\")\n\t\t(uuid \"pour-broken\")\n\
\t\t(polygon (pts (xy 0 0) (xy 1 0) (xy 1 1)))\n\t)\n\
\t(zone\n\t\t(layers \"F.Cu\" \"B.Cu\" \"In1.Cu\" \"In2.Cu\")\n\t\t(uuid \"ant-keepout\")\n\
\t\t(name \"ANT_KEEPOUT\")\n\t\t(keepout\n\t\t\t(tracks allowed)\n\t\t\t(copperpour not_allowed)\n\t\t)\n\
\t\t(polygon (pts (xy 0 0) (xy 1 0) (xy 1 1)))\n\t)\n)\n";

fn zone_by_uuid(content: &str, uuid: &str) -> BoardZone {
    collect_zones(content)
        .into_iter()
        .find(|z| z.uuid.as_deref() == Some(uuid))
        .unwrap_or_else(|| panic!("no zone '{uuid}' in:\n{content}"))
}

fn bbox(z: &BoardZone) -> Option<(f64, f64, f64, f64)> {
    let n = |t: &String| t.parse::<f64>().unwrap();
    let xs: Vec<f64> = z.points.iter().map(|p| n(&p.0)).collect();
    let ys: Vec<f64> = z.points.iter().map(|p| n(&p.1)).collect();
    if xs.is_empty() {
        return None;
    }
    let low = |v: &Vec<f64>| v.iter().cloned().fold(f64::MAX, f64::min);
    let high = |v: &Vec<f64>| v.iter().cloned().fold(f64::MIN, f64::max);
    Some((low(&xs), low(&ys), high(&xs), high(&ys)))
}

#[test]
fn collectors_see_only_top_level_items() {
    let content = kicad10_board();
    let vias: Vec<String> = collect_vias(&content).into_iter().filter_map(|v| v.uuid).collect();
    assert_eq!(vias, vec!["via-1".to_string(), "via-2".to_string()]);

    let zones: Vec<String> = collect_zones(&content).into_iter().filter_map(|z| z.uuid).collect();
    assert_eq!(
        zones,
        vec!["zone-broken".to_string(), "zone-ok".to_string()],
        "the footprint's zone and the `(zone` inside a quoted string are not board items"
    );

    for z in collect_zones(&content) {
        assert!(content[z.start..z.end].starts_with("(zone"));
        assert!(content[z.start..z.end].ends_with(')'));
    }
    for v in collect_vias(&content) {
        assert!(content[v.start..v.end].starts_with("(via"));
    }
}

#[test]
fn a_zone_reports_its_geometry_fill_and_missing_net() {
    let content = kicad10_board();

    let broken = zone_by_uuid(&content, "zone-broken");
    assert!(!broken.has_net(), "net 0 is no net, label or not");
    assert_eq!(broken.net(), None);
    assert_eq!(broken.net_label.as_deref(), Some("GND"));
    assert_eq!(broken.layers, vec!["In1.Cu".to_string()]);
    // The outline is counted, not the cached fill.
    assert_eq!(broken.points.len(), 4);
    assert_eq!(bbox(&broken), Some((0.0, 0.0, 20.0, 20.0)));
    assert!(broken.filled);

    let ok = zone_by_uuid(&content, "zone-ok");
    assert!(ok.has_net());
    assert_eq!(ok.net(), Some("+3V3"));
    assert_eq!(ok.points.len(), 3);
    assert!(!ok.filled);

    let old = numbered_board();
    assert_eq!(zone_by_uuid(&old, "zone-broken").net_code, Some(0));
    assert!(!zone_by_uuid(&old, "zone-broken").has_net());
    assert_eq!(collect_vias(&old)[0].net_name.as_deref(), Some("GND"));
    assert_eq!(collect_vias(&old)[0].net_code, Some(7));
}

#[test]
fn a_keepout_is_recognised_and_not_called_netless() {
    let k = zone_by_uuid(KEEPOUT_BOARD, "ant-keepout");
    assert!(k.keepout, "(keepout …) must be detected");
    assert_eq!(k.name.as_deref(), Some("ANT_KEEPOUT"));
    assert!(!k.has_net(), "it genuinely carries no net");
    assert!(!k.is_orphaned_pour());
}

#[test]
fn a_real_netless_pour_is_still_flagged() {
    let broken = zone_by_uuid(KEEPOUT_BOARD, "pour-broken");
    assert!(!broken.keepout);
    assert!(broken.is_orphaned_pour(), "net 0 pour must still be reported");
    assert!(!zone_by_uuid(KEEPOUT_BOARD, "pour-ok").is_orphaned_pour());
    let all = query_zones(KEEPOUT_BOARD, &None, &None);
    let netless = netless_zones(&all);
    assert_eq!(netless, vec!["pour-broken".to_string()]);
    assert!(netless_note(&netless).unwrap().contains("pour-broken"));
    assert!(netless_note(&Vec::new()).is_none());
}

fn via(x: &str, y: &str) -> NewVia {
    NewVia {
        x: x.to_string(),
        y: y.to_string(),
        drill: "0.3".to_string(),
        size: "0.6".to_string(),
        start_layer: "F.Cu".to_string(),
        end_layer: "B.Cu".to_string(),
    }
}

#[test]
fn a_new_via_reads_back_and_deleting_it_restores_the_file() {
    let original = kicad10_board();
    let (uuid, added) = add_via(&original, "+3V3", &via("58.92", "60"), false, "b");
    let after = added.unwrap().content;
    assert!(check_document(&after, "kicad_pcb").is_ok());
    let found = query_vias(&after, &Some("+3V3".to_string()), &None);
    assert_eq!(found.len(), 2);
    let v = found.iter().find(|v| v.uuid.as_deref() == Some(uuid.as_str())).unwrap();
    assert_eq!(v.x, "58.92");
    assert_eq!(v.drill.as_deref(), Some("0.3"));
    assert_eq!(delete_via(&after, &uuid, "b").unwrap(), original);
}

#[test]
fn a_via_smaller_than_its_drill_is_refused() {
    let (_, r) = add_via(&kicad10_board(), "+3V3", &via("1", "1"), true, "b");
    assert!(r.is_err());
}

#[test]
fn a_new_pour_reads_back_and_deleting_it_restores_the_file() {
    let original = numbered_board();
    let p = |x: &str, y: &str| (x.to_string(), y.to_string());
    let pts = vec![p("0", "0"), p("5", "0"), p("5", "5")];
    let (uuid, added) = add_copper_pour(&original, "GND", "F.Cu", "0.2", "0.25", &pts, "b");
    let after = added.unwrap().content;
    let z = zone_by_uuid(&after, &uuid);
    assert_eq!(z.net_code, Some(7));
    assert_eq!(z.points.len(), 3);
    assert_eq!(delete_zone(&after, &uuid, "b").unwrap(), original);
}

#[test]
fn setting_a_zones_net_twice_changes_nothing_and_setting_it_back_restores_the_file() {
    let original = kicad10_board();
    let once = set_zone_net(&original, "zone-ok", "GND", "b").unwrap();
    assert_eq!(once.before.net(), Some("+3V3"));
    let twice = set_zone_net(&once.content, "zone-ok", "GND", "b").unwrap();
    assert_eq!(twice.content, once.content);
    let back = set_zone_net(&once.content, "zone-ok", "+3V3", "b").unwrap();
    assert_eq!(back.content, original);
}

#[test]
fn repairing_a_pour_gives_it_its_net_in_the_boards_form() {
    let named = set_zone_net(&kicad10_board(), "zone-broken", "GND", "b").unwrap();
    assert_eq!(zone_by_uuid(&named.content, "zone-broken").net(), Some("GND"));
    let numbered = set_zone_net(&numbered_board(), "zone-nolabel", "GND", "b").unwrap();
    let z = zone_by_uuid(&numbered.content, "zone-nolabel");
    assert_eq!(z.net_code, Some(7));
    assert_eq!(z.net_label.as_deref(), Some("GND"));
    assert!(set_zone_net(&kicad10_board(), "zone-broken", "VBUS", "b").is_err());
}

#[test]
fn a_net_class_is_created_once_and_nets_join_it() {
    let class = NetClass {
        name: "Power".to_string(),
        clearance: "0.3".to_string(),
        trace_width: "0.5".to_string(),
        via_diameter: "0.8".to_string(),
        via_drill: "0.4".to_string(),
    };
    let with_class = create_netclass(&kicad10_board(), &class, "b").unwrap();
    assert!(check_document(&with_class, "kicad_pcb").is_ok());
    let joined = assign_net_to_class(&with_class, "GND", "Power", "b").unwrap().unwrap();
    assert!(joined.contains("(netclass \"Power\""), "{joined}");
    // Once is enough.
    assert!(assign_net_to_class(&joined, "GND", "Power", "b").unwrap().is_none());
    assert!(assign_net_to_class(&with_class, "GND", "NoSuchClass", "b").is_err());
}

#[test]
fn a_created_class_is_found_under_its_name() {
    let class = |name: &str| NetClass {
        name: name.to_string(),
        clearance: "0.3".to_string(),
        trace_width: "0.5".to_string(),
        via_diameter: "0.8".to_string(),
        via_drill: "0.4".to_string(),
    };
    assert!(assign_net_to_class(&kicad10_board(), "GND", "Power", "b").is_err());
    let one = create_netclass(&kicad10_board(), &class("Power"), "b").unwrap();
    let two = create_netclass(&one, &class("Fast (USB)"), "b").unwrap();
    let joined = assign_net_to_class(&two, "GND", "Fast (USB)", "b").unwrap().unwrap();
    let at = joined.find("(netclass \"Fast (USB)\"").unwrap();
    assert!(joined[at..].contains("(net \"GND\")"));
    assert!(!joined[..at].contains("(netclass \"Fast (USB)\""));
    assert!(assign_net_to_class(&joined, "GND", "Fast (USB)", "b").unwrap().is_none());
    assert!(assign_net_to_class(&joined, "GND", "Power", "b").unwrap().is_some());
}
