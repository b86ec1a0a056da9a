//! Tracks and pads on boards with named and with numbered nets.

use konnect::copper::{delete_trace, format_via, modify_trace, NewVia};
use konnect::items::{collect_segments, collect_vias};
use konnect::net::{resolve_net, NetRef};
use konnect::pads::find_pad_net;
use konnect::query::query_traces;
use konnect::routing::{
    add_net, route_diff_pair, route_pad_to_pad, route_trace, route_trace_as, AddedNet, Leg, PadPair,
};
use konnect::scan::check_document;
use konnect::sexp::{parse_sexp, SexpNode};

/// TP3's pad is on +3V3 and C12's first one on /OSC_OUT.
const BOARD: &str = "(kicad_pcb\n\t(version 20260206)\n\
\t(footprint \"TP\"\n\t\t(at 10 10)\n\t\t(property \"Reference\" \"TP3\")\n\
\t\t(pad \"1\" smd rect\n\t\t\t(at 0 0)\n\t\t\t(net \"+3V3\")\n\t\t)\n\t)\n\
\t(footprint \"C\"\n\t\t(at 20 20)\n\t\t(property \"Reference\" \"C12\")\n\
\t\t(pad \"1\" smd rect\n\t\t\t(at 0 0)\n\t\t\t(net \"/OSC_OUT\")\n\t\t)\n\
\t\t(pad \"2\" smd rect\n\t\t\t(at 1 0)\n\t\t)\n\t)\n)\n";

fn tree() -> SexpNode {
    parse_sexp(BOARD).unwrap()
}

/// Nets by name, no net table; block-like text inside strings.
fn kicad10_board() -> String {
    [
        "(kicad_pcb",
        "\t(version 20260206)",
        "\t(generator \"pcbnew\")",
        "\t(gr_text \"REV (A\"",
        "\t\t(at 5 5 0)",
        "\t\t(layer \"F.SilkS\")",
        "\t\t(uuid \"text-1\")",
        "\t)",
        "\t(footprint \"Resistor_SMD:R_0603\"",
        "\t\t(layer \"F.Cu\")",
        "\t\t(at 10 10)",
        "\t\t(property \"Reference\" \"R1\")",
        "\t\t(property \"Description\" \"shunt (segment sense)\")",
        "\t\t(pad \"1\" smd rect",
        "\t\t\t(at 0 0)",
        "\t\t\t(net \"+3V3\")",
        "\t\t\t(uuid \"pad-r1-1\")",
        "\t\t)",
        "\t\t(pad \"2\" smd rect",
        "\t\t\t(at 2 0)",
        "\t\t\t(net \"GND\")",
        "\t\t\t(uuid \"pad-r1-2\")",
        "\t\t)",
        "\t)",
        "\t(footprint \"Capacitor_SMD:C_0603\"",
        "\t\t(layer \"F.Cu\")",
        "\t\t(at 20 15)",
        "\t\t(property \"Reference\" \"C1\")",
        "\t\t(pad \"1\" smd rect",
        "\t\t\t(at 0 0)",
        "\t\t\t(net \"+3V3\")",
        "\t\t\t(uuid \"pad-c1-1\")",
        "\t\t)",
        "\t)",
        "\t(segment",
        "\t\t(start 1 1)",
        "\t\t(end 2 2)",
        "\t\t(width 0.2)",
        "\t\t(layer \"B.Cu\")",
        "\t\t(net \"GND\")",
        "\t\t(uuid \"seg-existing\")",
        "\t)",
        "\t(via",
        "\t\t(at 3 3)",
        "\t\t(size 0.6)",
        "\t\t(drill 0.3)",
        "\t\t(layers \"F.Cu\" \"B.Cu\")",
        "\t\t(net \"GND\")",
        "\t\t(uuid \"via-1\")",
        "\t)",
        ")",
        "",
    ]
    .join("\n")
}

/// A numbered net table.
fn numbered_board() -> String {
    [
        "(kicad_pcb",
        "\t(version 20250513)",
        "\t(net 0 \"\")",
        "\t(net 7 \"GND\")",
        "\t(net 8 \"+3V3\")",
        "\t(footprint \"Resistor_SMD:R_0603\"",
        "\t\t(at 10 10)",
        "\t\t(property \"Reference\" \"R1\")",
        "\t\t(pad \"1\" smd rect",
        "\t\t\t(at 0 0)",
        "\t\t\t(net 7 \"GND\")",
        "\t\t)",
        "\t)",
        "\t(segment",
        "\t\t(start 4 4)",
        "\t\t(end 5 5)",
        "\t\t(width 0.25)",
        "\t\t(layer \"F.Cu\")",
        "\t\t(net 7)",
        "\t\t(uuid \"old-seg\")",
        "\t)",
        ")",
        "",
    ]
    .join("\n")
}

#[test]
fn reads_a_pads_actual_net_by_name() {
    assert_eq!(find_pad_net(&tree(), "TP3", "1").unwrap(), Some("+3V3".to_string()));
    assert_eq!(find_pad_net(&tree(), "C12", "1").unwrap(), Some("/OSC_OUT".to_string()));
    // A pad without a net is unassigned, not on a net without a name.
    assert_eq!(find_pad_net(&tree(), "C12", "2").unwrap(), None);
}

#[test]
fn reads_a_pads_net_in_the_numbered_format_too() {
    let old = "(kicad_pcb\n\t(footprint \"R\"\n\t\t(property \"Reference\" \"R1\")\n\
\t\t(pad \"1\" smd rect\n\t\t\t(net 7 \"GND\")\n\t\t)\n\t)\n)\n";
    assert_eq!(
        find_pad_net(&parse_sexp(old).unwrap(), "R1", "1").unwrap(),
        Some("GND".to_string())
    );
}

fn via(x: f64, y: f64) -> NewVia {
    NewVia {
        x: format!("{x}"),
        y: format!("{y}"),
        drill: "0.3".to_string(),
        size: "0.6".to_string(),
        start_layer: "F.Cu".to_string(),
        end_layer: "B.Cu".to_string(),
    }
}

#[test]
fn via_is_written_in_the_boards_net_convention() {
    let named = format_via(&NetRef::Named("+3V3".into()), &via(58.92, 60.0), "u");
    assert!(named.contains("(net \"+3V3\")"), "{named}");
    assert!(named.contains("(size 0.6)") && named.contains("(drill 0.3)"));
    assert!(named.contains("(layers \"F.Cu\" \"B.Cu\")"));
    assert!(!named.contains("net_name"), "vias carry no net_name field");

    let numbered = format_via(&NetRef::Numbered(7, "GND".into()), &via(1.0, 2.0), "u");
    assert!(numbered.contains("(net 7)"), "{numbered}");

    let board = BOARD.trim_end().trim_end_matches(')').to_string() + &named + "\n)\n";
    assert!(
        check_document(&board, "kicad_pcb").is_ok(),
        "a board with the via must still parse"
    );
}

#[test]
fn collect_segments_sees_only_real_top_level_segments() {
    let content = kicad10_board();
    let segs = collect_segments(&content);
    assert_eq!(segs.len(), 1, "{segs:#?}");
    let s = &segs[0];
    assert_eq!(s.uuid.as_deref(), Some("seg-existing"));
    assert_eq!(s.net_name.as_deref(), Some("GND"));
    assert_eq!(s.layer.as_deref(), Some("B.Cu"));
    assert_eq!(s.width.as_deref(), Some("0.2"));
    let n = |t: &String| t.parse::<f64>().unwrap();
    assert_eq!((n(&s.x1), n(&s.y1), n(&s.x2), n(&s.y2)), (1.0, 1.0, 2.0, 2.0));
    assert!(content[s.start..s.end].starts_with("(segment"));
    assert!(content[s.start..s.end].ends_with(')'));
}

#[test]
fn numbered_segments_resolve_their_name_through_the_net_table() {
    let content = numbered_board();
    let segs = collect_segments(&content);
    assert_eq!(segs.len(), 1);
    assert_eq!(segs[0].net_code, Some(7));
    assert_eq!(segs[0].net_name.as_deref(), Some("GND"));
}

fn leg(x1: &str, y1: &str, x2: &str, y2: &str) -> Leg {
    Leg {
        x1: x1.to_string(),
        y1: y1.to_string(),
        x2: x2.to_string(),
        y2: y2.to_string(),
    }
}

#[test]
fn a_routed_track_reads_back_and_deleting_it_restores_the_file() {
    let original = kicad10_board();
    let (uuid, added) = route_trace(
        &original,
        "+3V3",
        "F.Cu",
        "0.1",
        &leg("111.8885", "84.9173", "110.83", "85.9758"),
        "b",
    );
    let after = added.unwrap().content;
    assert!(check_document(&after, "kicad_pcb").is_ok());
    assert!(after.contains("(net \"+3V3\")"));
    let found = query_traces(&after, &None, &None);
    assert_eq!(found.len(), 2);
    let t = found.iter().find(|t| t.uuid.as_deref() == Some(uuid.as_str())).unwrap();
    assert_eq!(t.net_name.as_deref(), Some("+3V3"));
    assert_eq!(t.layer.as_deref(), Some("F.Cu"));
    assert_eq!(t.width.as_deref(), Some("0.1"));
    assert_eq!(t.x1, "111.8885");
    assert_eq!(t.y2, "85.9758");
    assert_eq!(delete_trace(&after, &uuid, "b").unwrap(), original);
}

#[test]
fn a_fresh_uuid_has_the_usual_form_and_is_new_each_time() {
    let original = kicad10_board();
    let line = leg("0", "0", "1", "1");
    let (a, _) = route_trace(&original, "GND", "F.Cu", "0.1", &line, "b");
    let (b, _) = route_trace(&original, "GND", "F.Cu", "0.1", &line, "b");
    assert_ne!(a, b);
    assert_eq!(a.len(), 36);
    for (i, c) in a.chars().enumerate() {
        if matches!(i, 8 | 13 | 18 | 23) {
            assert_eq!(c, '-');
        } else {
            assert!(c.is_ascii_hexdigit() && !c.is_ascii_uppercase());
        }
    }
}

#[test]
fn deleting_refuses_what_is_not_a_track() {
    let original = kicad10_board();
    let err = delete_trace(&original, "via-1", "b").unwrap_err();
    assert!(err.contains("(via)"), "{err}");
    let err = delete_trace(&original, "no-such-uuid", "b").unwrap_err();
    assert!(err.contains("no-such-uuid"), "{err}");
}

#[test]
fn a_numbered_board_gets_a_number() {
    let content = numbered_board();
    let routed =
        route_trace_as(&content, "GND", "F.Cu", "0.25", &leg("0", "0", "1", "1"), "u", "b").unwrap();
    assert_eq!(routed.net, NetRef::Numbered(7, "GND".to_string()));
    assert!(routed.content.contains("\t\t(net 7)\n"), "{}", routed.content);
    assert!(!routed.content.contains("(net \"GND\")"));
}

#[test]
fn an_unknown_net_is_refused() {
    let original = kicad10_board();
    let line = leg("0", "0", "1", "1");
    let err = route_trace_as(&original, "VBUS", "F.Cu", "0.25", &line, "u", "b").unwrap_err();
    assert!(err.contains("VBUS"), "{err}");
    assert!(err.contains("GND"), "{err}");
    assert!(route_trace_as(&original, "", "F.Cu", "0.25", &line, "u", "b").is_err());
}

#[test]
fn a_differential_pair_is_both_tracks_or_neither() {
    let original = kicad10_board();
    let p = leg("0", "0", "1", "0");
    let n = leg("0", "1", "1", "1");
    let (_, _, done) = route_diff_pair(&original, "+3V3", "GND", "F.Cu", "0.2", &p, &n, "b");
    let done = done.unwrap();
    assert_eq!(collect_segments(&done.content).len(), 3);
    let (_, _, refused) = route_diff_pair(&original, "+3V3", "NOPE", "F.Cu", "0.2", &p, &n, "b");
    assert!(refused.is_err());
}

#[test]
fn pads_on_different_nets_are_never_joined() {
    let pair = PadPair {
        ref1: "TP3".to_string(),
        pad1: "1".to_string(),
        ref2: "C12".to_string(),
        pad2: "1".to_string(),
    };
    let line = leg("10", "10", "20", "20");
    let (_, _, r) = route_pad_to_pad(BOARD, "+3V3", &pair, "F.Cu", "0.2", &line, false, "b");
    let err = r.unwrap_err();
    assert!(err.contains("+3V3") && err.contains("/OSC_OUT"), "{err}");
}

#[test]
fn a_modified_track_keeps_its_uuid_and_its_place_in_the_file() {
    let original = kicad10_board();
    let done =
        modify_trace(&original, "seg-existing", "+3V3", "F.Cu", "0.5", &leg("1", "1", "9", "2"), "b")
            .unwrap();
    let segs = collect_segments(&done.content);
    assert_eq!(segs.len(), 1);
    assert_eq!(segs[0].uuid.as_deref(), Some("seg-existing"));
    assert_eq!(segs[0].width.as_deref(), Some("0.5"));
    assert_eq!(segs[0].layer.as_deref(), Some("F.Cu"));
    assert_eq!(segs[0].x2, "9");
    assert_eq!(done.content.find("(segment"), original.find("(segment"));
}

#[test]
fn a_new_net_gets_the_next_number() {
    match add_net(&numbered_board(), "VBUS", "b").unwrap() {
        AddedNet::Added(code, content) => {
            assert_eq!(code, 9);
            assert!(content.contains("(net 9 \"VBUS\")"), "{content}");
        },
        AddedNet::Exists(_) => panic!("VBUS is new"),
    }
    assert!(matches!(add_net(&numbered_board(), "GND", "b"), Ok(AddedNet::Exists(_))));
    assert!(add_net(&kicad10_board(), "VBUS", "b").is_err());
}

#[test]
fn an_added_net_is_found_and_the_others_stay() {
    let (code, content) = match add_net(&numbered_board(), "VBUS", "b").unwrap() {
        AddedNet::Added(code, content) => (code, content),
        AddedNet::Exists(_) => panic!("VBUS is new"),
    };
    assert_eq!(resolve_net(&content, "VBUS"), Some(NetRef::Numbered(code, "VBUS".to_string())));
    assert_eq!(resolve_net(&content, "GND"), Some(NetRef::Numbered(7, "GND".to_string())));
    assert_eq!(resolve_net(&content, "+3V3"), Some(NetRef::Numbered(8, "+3V3".to_string())));
    assert_eq!(resolve_net(&content, "NOPE"), None);
    match add_net(&content, "VBUS", "b").unwrap() {
        AddedNet::Exists(n) => assert_eq!(n, NetRef::Numbered(9, "VBUS".to_string())),
        AddedNet::Added(..) => panic!("VBUS is there"),
    }
    match add_net(&content, "VCC (5V)", "b").unwrap() {
        AddedNet::Added(code, content) => {
            assert_eq!(code, 10);
            assert!(resolve_net(&content, "VCC (5V)").is_some());
        },
        AddedNet::Exists(_) => panic!("VCC (5V) is new"),
    }
}

#[test]
fn a_differential_pair_that_is_deleted_leaves_the_file_as_it_was() {
    let original = kicad10_board();
    let (p, n, done) = route_diff_pair(
        &original,
        "+3V3",
        "GND",
        "F.Cu",
        "0.2",
        &leg("0", "0", "1", "0"),
        &leg("0", "1", "1", "1"),
        "b",
    );
    let both = done.unwrap().content;
    let found = query_traces(&both, &None, &None);
    let net = |u: &str| {
        found.iter().find(|t| t.uuid.as_deref() == Some(u)).unwrap().net_name.clone().unwrap()
    };
    assert_eq!((net(&p).as_str(), net(&n).as_str()), ("+3V3", "GND"));
    let one = delete_trace(&both, &p, "b").unwrap();
    assert_eq!(delete_trace(&one, &n, "b").unwrap(), original);
}

#[test]
fn a_bent_track_that_is_deleted_leaves_the_file_as_it_was() {
    let original = kicad10_board();
    let pads = PadPair {
        ref1: "R1".to_string(),
        pad1: "1".to_string(),
        ref2: "C1".to_string(),
        pad2: "1".to_string(),
    };
    let line = leg("10", "10", "20", "15");
    let (a, b, done) =
        route_pad_to_pad(&original, "+3V3", &pads, "F.Cu", "0.2", &line, false, "b");
    let bent = done.unwrap().content;
    assert_eq!(collect_segments(&bent).len(), 3);
    let one = delete_trace(&bent, &b, "b").unwrap();
    assert_eq!(delete_trace(&one, &a, "b").unwrap(), original);
}

#[test]
fn deleting_one_track_leaves_the_others() {
    let original = kicad10_board();
    let line = leg("0", "0", "1", "1");
    let first = route_trace_as(&original, "GND", "F.Cu", "0.2", &line, "seg-a", "b").unwrap().content;
    let second = route_trace_as(&first, "+3V3", "B.Cu", "0.3", &line, "seg-b", "b").unwrap().content;
    let after = delete_trace(&second, "seg-a", "b").unwrap();
    let uuids: Vec<Option<String>> =
        collect_segments(&after).into_iter().map(|s| s.uuid).collect();
    assert_eq!(uuids, [Some("seg-existing".to_string()), Some("seg-b".to_string())]);
    assert!(after.contains("(uuid \"via-1\")"));
    assert!(delete_trace(&after, "seg-a", "b").is_err());
}

#[test]
fn a_coordinate_that_is_not_stated_is_zero() {
    let board = "(kicad_pcb\n\t(segment (start 1 x) (width 0.2) (uuid \"s\"))\n\t(via (size 0.6) (uuid \"v\"))\n)";
    let segs = collect_segments(board);
    assert_eq!((segs[0].x1.as_str(), segs[0].y1.as_str()), ("1", "0"));
    assert_eq!((segs[0].x2.as_str(), segs[0].y2.as_str()), ("0", "0"));
    let vias = collect_vias(board);
    assert_eq!((vias[0].x.as_str(), vias[0].y.as_str()), ("0", "0"));
    assert_eq!(vias[0].drill, None);
}
