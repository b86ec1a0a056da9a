//! Connectivity, design rules and copied routing.

use konnect::connectivity::{
    find_near_miss, fix_connectivity, no_connect_points, stretch_wires, validate_component_connections,
    validate_wire_connections, wire_endpoint_edit, EndpointFacts, PinFacts, StretchFacts, TargetFacts,
    WireEnd, WireFacts,
};
use konnect::install::{find_kicad_binary, Platform};
use konnect::sexp::parse_sexp;
use konnect::verification::{
    accept_output, accept_project, check_output, check_project, coordinate_pairs, copy_block, design_rule_keys,
    extract_start_xy, filter_violations, find_footprint_position, find_routing_blocks, paste_routing,
    poll_step, project_file_for, remap_nets, require_project, require_rules, routing_anchor, set_design_rules, set_layer_constraints, severity_rank, shift_pairs,
    upsert_dru_rule, violations_of_tests, DesignRules, Poll, ProjectShape, Slot,
};

fn tab_schematic() -> String {
    [
        "(kicad_sch",
        "\t(version 20250610)",
        "\t(generator \"eeschema\")",
        "\t(uuid \"22222222-2222-2222-2222-222222222222\")",
        "\t(paper \"A4\")",
        "\t(lib_symbols",
        "\t)",
        "\t(wire",
        "\t\t(pts",
        "\t\t\t(xy 100 100) (xy 110 100)",
        "\t\t)",
        "\t\t(stroke",
        "\t\t\t(width 0)",
        "\t\t\t(type default)",
        "\t\t)",
        "\t\t(uuid \"aaaaaaaa-0000-0000-0000-000000000001\")",
        "\t)",
        "\t(label \"NET1\"",
        "\t\t(at 110.02 100 0)",
        "\t\t(uuid \"bbbbbbbb-0000-0000-0000-000000000002\")",
        "\t)",
        ")",
        "",
    ]
    .join("\n")
}

const WIRE: &str = "aaaaaaaa-0000-0000-0000-000000000001";

#[test]
fn wire_endpoint_edit_handles_tabs_and_legacy_format() {
    let sch = tab_schematic();
    let edit = wire_endpoint_edit(&sch, WIRE, false, "110.02", "100")
        .expect("tab-indented wire must be found");
    assert_eq!(&sch[edit.start..edit.end], "(xy 110 100)");

    // KiCAD 8/9 form, two-space indented.
    let legacy = "(kicad_sch\n  (wire (start 1 2) (end 3 4) (uuid \"w9\"))\n)\n";
    let edit = wire_endpoint_edit(legacy, "w9", true, "5", "6").unwrap();
    assert_eq!(&legacy[edit.start..edit.end], "(start 1 2)");
    assert_eq!(edit.replacement, "(start 5 6)");

    assert!(wire_endpoint_edit(&sch, "no-such-uuid", true, "0", "0").is_none());
    // A uuid that belongs to a label, not a wire.
    assert!(
        wire_endpoint_edit(&sch, "bbbbbbbb-0000-0000-0000-000000000002", true, "0", "0").is_none()
    );
}

fn near(coincident: bool, near: bool) -> TargetFacts {
    TargetFacts { x: "110.02".into(), y: "100".into(), coincident, near }
}

fn endpoint(targets: Vec<TargetFacts>) -> EndpointFacts {
    EndpointFacts { wire_uuid: Some(WIRE.to_string()), is_start: false, targets, wires: Vec::new() }
}

#[test]
fn applies_edit_to_tab_indented_schematic() {
    let ends = vec![endpoint(vec![near(false, true)])];
    let out = fix_connectivity(&tab_schematic(), &ends, false, "f").unwrap();
    assert_eq!(out.fixes.len(), 1);
    assert_eq!(out.fixes_applied, 1);
    assert!(out.applied);
    let text = out.content.unwrap();
    assert!(text.contains("(xy 110.02 100)"), "{text}");
    assert!(parse_sexp(&text).is_ok());
}

#[test]
fn dry_run_reports_not_applied_and_leaves_file_alone() {
    let ends = vec![endpoint(vec![near(false, true)])];
    let out = fix_connectivity(&tab_schematic(), &ends, true, "f").unwrap();
    assert_eq!(out.fixes.len(), 1);
    assert!(!out.applied && out.fixes_applied == 0);
    assert!(out.content.is_none());
}

#[test]
fn applied_is_false_when_no_edit_can_be_located() {
    let sch = tab_schematic().replace(&format!("\t\t(uuid \"{WIRE}\")\n"), "");
    let ends = vec![endpoint(vec![near(false, true)])];
    let out = fix_connectivity(&sch, &ends, false, "f").unwrap();
    assert_eq!(out.fixes.len(), 1);
    assert_eq!(out.fixes_applied, 0);
    assert!(!out.applied);
    assert!(out.content.is_none());
    assert!(out.note.is_some());
}

#[test]
fn an_end_that_is_connected_is_left_alone() {
    // The end itself is one of the points it is compared with.
    let met = endpoint(vec![near(true, false), near(false, true), near(true, false)]);
    assert_eq!(find_near_miss(&met), None);
    let mut crossed = endpoint(vec![near(true, false), near(false, true)]);
    assert_eq!(find_near_miss(&crossed), Some(1));
    crossed.wires.push(WireFacts { on_wire: true, at_start: false, at_end: false });
    assert_eq!(find_near_miss(&crossed), None);
    assert_eq!(find_near_miss(&endpoint(vec![near(false, false), near(false, true)])), Some(1));
}

#[test]
fn unconnected_ends_and_pins_are_listed() {
    let end = |label: bool| WireEnd {
        wire_ends: vec![false],
        wires: vec![WireFacts { on_wire: false, at_start: false, at_end: false }],
        labels: vec![label],
        pins: Vec::new(),
    };
    assert_eq!(validate_wire_connections(&vec![end(true), end(false)]), vec![1]);
    let pin = |r: &str, nc: bool, wired: bool, named: bool| PinFacts {
        reference: r.to_string(),
        electrical_type: "input".to_string(),
        no_connects: vec![nc],
        wire_ends: vec![wired],
        on_named_net: named,
    };
    let pins = vec![
        pin("R1", false, false, false),
        pin("R1", true, false, false),
        pin("R2", false, true, false),
        pin("R3", false, false, false),
    ];
    assert_eq!(validate_component_connections(&pins, &Vec::new(), false), vec![0, 3]);
    assert_eq!(validate_component_connections(&pins, &vec!["R3".to_string()], false), vec![3]);
}

#[test]
fn passive_pins_may_be_open_and_power_pins_may_be_passed_over() {
    let pin = |t: &str| PinFacts {
        reference: "U1".to_string(),
        electrical_type: t.to_string(),
        no_connects: Vec::new(),
        wire_ends: Vec::new(),
        on_named_net: false,
    };
    assert_eq!(validate_component_connections(&vec![pin("passive")], &Vec::new(), false).len(), 0);
    let pins = vec![pin("passive"), pin("power_in"), pin("output"), pin("power_out")];
    assert_eq!(validate_component_connections(&pins, &Vec::new(), false), vec![1, 2, 3]);
    assert_eq!(validate_component_connections(&pins, &Vec::new(), true), vec![2]);
}

#[test]
fn wires_go_along_with_the_pins_they_stand_on() {
    let sch = tab_schematic();
    let uuid = "aaaaaaaa-0000-0000-0000-000000000001";
    let end = |is_start: bool, on: bool| StretchFacts {
        wire_uuid: Some(uuid.to_string()),
        is_start,
        on_pins: vec![false, on],
    };
    let to = vec![("1".to_string(), "2".to_string()), ("120.65".to_string(), "95".to_string())];
    let ends = vec![end(true, false), end(false, true)];
    let (n, text) = stretch_wires(&sch, &ends, &to, "f").unwrap();
    assert_eq!(n, 1);
    assert_eq!(text.unwrap(), sch.replace("(xy 110 100)", "(xy 120.65 95)"));
    assert_eq!(stretch_wires(&sch, &vec![end(true, false)], &to, "f"), Ok((0, None)));
}

#[test]
fn violations_are_chosen_by_their_test() {
    let kinds: Vec<String> = ["clearance", "silk_overlap", "clearance"].map(String::from).to_vec();
    assert_eq!(violations_of_tests(&kinds, &Vec::new()), vec![0, 1, 2]);
    assert_eq!(violations_of_tests(&kinds, &vec!["clearance".to_string()]), vec![0, 2]);
    assert!(violations_of_tests(&kinds, &vec!["holes".to_string()]).is_empty());
}

#[test]
fn a_copied_track_has_its_points_and_its_net_exchanged() {
    let pair = |a: &str, b: &str| vec![(a.to_string(), b.to_string())];
    let track = "(segment (start 1 2) (end 3 4) (width 0.25) (net \"A\"))";
    assert_eq!(
        copy_block(track, &pair("11", "12"), &pair("13", "14"), &Vec::new(), &pair("A", "B")),
        "(segment (start 11 12) (end 13 14) (width 0.25) (net \"B\"))"
    );
    let via = "(via (at 5 6) (size 0.8) (net \"A\"))";
    assert_eq!(
        copy_block(via, &Vec::new(), &Vec::new(), &pair("15", "16"), &Vec::new()),
        "(via (at 15 16) (size 0.8) (net \"A\"))"
    );
}

#[test]
fn upsert_replaces_only_the_named_rule() {
    let src = "(version 1)\n\n(rule \"a\"\n\t(constraint clearance (min 0.1mm)))\n\n(rule \"b\"\n\t(constraint clearance (min 0.2mm)))\n";
    let rule = "(rule \"a\"\n\t(constraint clearance (min 0.9mm)))";
    let out = upsert_dru_rule(src, "a", rule);
    assert!(out.contains("0.9mm"));
    assert!(out.contains("(rule \"b\""), "sibling rule survived: {out}");
    assert_eq!(out.matches("(rule ").count(), 2);
    // Once more changes nothing.
    assert_eq!(upsert_dru_rule(&out, "a", rule), out);
}

#[test]
fn layer_constraints_write_a_dru_file_and_are_idempotent() {
    let mut text: Option<String> = None;
    for clearance in ["0.2", "0.3"] {
        let (names, t) =
            set_layer_constraints(&text, "F.Cu", &Some(clearance.to_string()), &None).unwrap();
        assert_eq!(names, vec!["F_Cu_constraints_clearance"]);
        text = Some(t);
    }
    let text = text.unwrap();
    assert_eq!(text.matches("(rule ").count(), 1, "{text}");
    assert!(text.contains("0.3mm"), "latest value wins: {text}");
    assert!(text.starts_with("(version 1)"));
    assert!(parse_sexp(&text).is_ok());
    assert!(set_layer_constraints(&None, "F.Cu", &None, &None).is_err());
}

fn rules() -> DesignRules {
    DesignRules {
        min_clearance: None,
        min_trace_width: None,
        min_via_size: None,
        min_via_drill: None,
        min_hole_to_hole: None,
        min_hole_clearance: None,
        min_via_annular_width: None,
        min_copper_edge_clearance: None,
    }
}

#[test]
fn rules_go_under_kicads_own_keys() {
    let shape = |root, rules| ProjectShape {
        root,
        board: Slot::Object,
        design_settings: Slot::Object,
        rules,
    };
    let mut r = rules();
    assert!(set_design_rules(&r, &shape(Slot::Object, Slot::Missing), "p").is_err());
    r.min_trace_width = Some("0.15".to_string());
    r.min_via_drill = Some("0.2".to_string());
    let got = set_design_rules(&r, &shape(Slot::Object, Slot::Missing), "p").unwrap();
    assert_eq!(
        got,
        vec![
            ("min_track_width".to_string(), "0.15".to_string()),
            ("min_through_hole_diameter".to_string(), "0.2".to_string()),
        ]
    );
    assert!(set_design_rules(&r, &shape(Slot::Other, Slot::Missing), "p").is_err());
    assert!(set_design_rules(&r, &shape(Slot::Object, Slot::Other), "p").is_err());
    assert!(design_rule_keys()
        .contains(&("min_via_size".to_string(), "min_via_diameter".to_string())));
}

#[test]
fn a_project_file_must_be_there_and_be_json() {
    assert_eq!(project_file_for("b.kicad_pcb"), "b.kicad_pro");
    assert!(require_project(true, "p").is_ok());
    assert!(require_project(false, "p").unwrap_err().starts_with("No project file at 'p'."));
    assert!(check_project("{\"a\": [1, 2.5]}", "p").is_ok());
    let err = check_project("{\"a\": ", "p").unwrap_err();
    assert!(err.starts_with("'p' is not valid JSON: EOF while parsing"), "{err}");
    assert!(check_output("[]").is_ok() && check_output("[").is_err());
    assert!(accept_output(true).is_ok() && accept_output(false).is_err());
    assert_eq!(
        accept_project("p", &Some("bad".to_string())).unwrap_err(),
        "'p' is not valid JSON: bad"
    );
}

#[test]
fn violations_are_filtered_by_severity() {
    let list: Vec<String> =
        ["error", "warning", "ignore", "error"].iter().map(|t| t.to_string()).collect();
    assert!(severity_rank("error") > severity_rank("warning"));
    let all = filter_violations(&list, &None);
    assert_eq!((all.errors, all.warnings), (2, 1));
    let errors = filter_violations(&list, &Some("error".to_string()));
    assert_eq!(errors.kept, vec![0, 3]);
    assert!(errors.kept.len() <= all.kept.len());
}

#[test]
fn the_editor_is_started_once_and_waited_for() {
    let none: Option<String> = None;
    assert_eq!(find_kicad_binary("/k", true, &none, Platform::Other), "/k");
    assert_eq!(find_kicad_binary("/k", false, &none, Platform::Other), "kicad");
    assert_eq!(
        find_kicad_binary("", true, &Some("C:/k.exe".to_string()), Platform::Windows),
        "C:/k.exe"
    );
    assert_eq!(poll_step(true, 9, 5), Poll::Ready);
    assert_eq!(poll_step(false, 5, 5), Poll::TimedOut);
    assert_eq!(poll_step(false, 4, 5), Poll::Again);
}

const ROUTED: &str = "(kicad_pcb\n\t(segment\n\t\t(start 1 2)\n\t\t(end 3 4)\n\t\t(net 1)\n\t\t(uuid \"s1\")\n\t)\n  (via (at 5 6) (net 1) (uuid \"v1\"))\n\t(footprint \"R\"\n\t\t(property \"Reference\" \"R1\")\n\t\t(at 7 8)\n\t)\n)\n";

#[test]
fn routing_is_copied_with_new_nets_and_uuids() {
    let blocks = find_routing_blocks(ROUTED);
    assert_eq!(blocks.len(), 2);
    let segment = ROUTED[blocks[0].0..blocks[0].1].to_string();
    let via = ROUTED[blocks[1].0..blocks[1].1].to_string();
    assert_eq!(extract_start_xy(&segment), Some(("1".to_string(), "2".to_string())));
    assert_eq!(routing_anchor(&via), Some(("5".to_string(), "6".to_string())));
    assert_eq!(coordinate_pairs(&segment, "(end "), vec![("3".to_string(), "4".to_string())]);
    let moved = shift_pairs(&segment, "(end ", &vec![("13".to_string(), "14".to_string())]);
    assert!(moved.contains("(end 13 14)") && moved.contains("(start 1 2)"), "{moved}");
    let (ids, text) = paste_routing(ROUTED, &vec![moved]).unwrap();
    assert_eq!(ids.len(), 1);
    assert_eq!(text.matches("(uuid \"s1\")").count(), 1);
    assert!(text.contains(&format!("(uuid \"{}\")", ids[0])));
    assert!(parse_sexp(&text).is_ok());
    assert!(paste_routing(ROUTED, &Vec::new()).is_none());
    let named = "(segment (net \"A\"))";
    assert_eq!(
        remap_nets(named, &vec![("A".to_string(), "B".to_string())]),
        "(segment (net \"B\"))"
    );
}

#[test]
fn a_footprint_is_found_by_its_designator() {
    let tree = parse_sexp(ROUTED).unwrap();
    assert_eq!(
        find_footprint_position(&tree, "R1"),
        Ok(("7".to_string(), "8".to_string()))
    );
    assert_eq!(
        find_footprint_position(&tree, "R2").unwrap_err(),
        "Footprint 'R2' not found on board"
    );
}

#[test]
fn rules_are_not_read_from_nowhere() {
    assert!(require_rules(true, "p.kicad_pro").is_ok());
    assert_eq!(
        require_rules(false, "p.kicad_pro").unwrap_err(),
        "No project file at 'p.kicad_pro'. Design rule constraints live in .kicad_pro (board.design_settings.rules)."
    );
}

#[test]
fn setting_a_rule_again_replaces_it() {
    let start = "(version 1)\n(rule \"other\"\n\t(constraint clearance (min 1mm)))\n";
    let first = "(rule \"mine\"\n\t(constraint clearance (min 0.1mm)))";
    let second = "(rule \"mine\"\n\t(constraint clearance (min 0.25mm)))";
    let once = upsert_dru_rule(start, "mine", second);
    let twice = upsert_dru_rule(&upsert_dru_rule(start, "mine", first), "mine", second);
    assert_eq!(once, twice);
    assert_eq!(twice.matches("(rule \"mine\"").count(), 1);
    assert!(twice.contains("(rule \"other\""));
    // And where the rule stood already, it is exchanged in place.
    let again = upsert_dru_rule(&twice, "mine", first);
    assert_eq!(again, upsert_dru_rule(start, "mine", first));
}

#[test]
fn no_connect_markers_are_read_with_their_places() {
    let tree = parse_sexp(
        "(kicad_sch (no_connect (at 10.16 20.32)) (no_connect (uuid \"x\")) (junction (at 1 1)) (no_connect (at 5 x)) (no_connect (at 3 4)))",
    )
    .unwrap();
    assert_eq!(
        no_connect_points(&tree),
        vec![
            ("10.16".to_string(), "20.32".to_string()),
            ("3".to_string(), "4".to_string())
        ]
    );
}
