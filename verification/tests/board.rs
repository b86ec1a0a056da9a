//! Layers, graphics and pictures of a board.

use konnect::graphics::{
    add_board_outline, add_board_text, add_mounting_hole, add_rounded_outline,
    add_rounded_outline_as, add_zone, board_info, board_points, find_net_id, format_gr_arc,
    format_gr_line, format_gr_poly, place_polygons, require_paths, set_active_layer, NewHole, NewText,
    NewZone, RoundedOutline,
};
use konnect::image::{board_picture, picture_layers};
use konnect::layers::{
    add_layer, canonical_layer_id, inner_copper_id, is_copper_layer, new_layer_id, read_layers,
    row_indent, validate_layer_table,
};
use konnect::scan::check_document;
use konnect::sexp::parse_sexp;

const BOARD: &str = "(kicad_pcb\n\t(version 20250610)\n\t(paper \"A4\")\n\t(title_block\n\t\t(title \"Amp\")\n\t\t(rev \"B\")\n\t)\n\t(layers\n\t\t(0 \"F.Cu\" signal)\n\t\t(2 \"B.Cu\" signal)\n\t\t(5 \"F.SilkS\" user \"F.Silkscreen\")\n\t)\n\t(net 0 \"\")\n\t(net 1 \"GND\")\n\t(gr_line\n\t\t(start 0 0)\n\t\t(end 10 5.5)\n\t\t(layer \"Edge.Cuts\")\n\t)\n)\n";

fn points(v: &[(&str, &str)]) -> Vec<(String, String)> {
    v.iter().map(|(x, y)| (x.to_string(), y.to_string())).collect()
}

#[test]
fn format_gr_poly_contains_layer_fill_and_points() {
    let sexp = format_gr_poly(&points(&[("0", "0"), ("1", "0"), ("1", "1")]), "F.SilkS", "u-1");
    assert!(sexp.contains("(gr_poly"));
    assert!(sexp.contains("(fill solid)"));
    assert!(sexp.contains("(layer \"F.SilkS\")"));
    assert!(sexp.contains("(xy 1 0)") || sexp.contains("(xy 1.0 0)"));
    assert!(sexp.contains("(uuid \"u-1\")"));
}

#[test]
fn layers_have_the_numbers_that_kicad_gives_them() {
    for (name, id) in [
        ("F.Mask", 1), ("B.Mask", 3), ("F.SilkS", 5), ("B.SilkS", 7),
        ("Edge.Cuts", 25), ("Margin", 27), ("User.1", 39), ("User.9", 55),
    ] {
        assert_eq!(canonical_layer_id(name), Some(id), "{name}");
    }
    assert_eq!(canonical_layer_id("F.Cu"), None);
    assert_eq!(canonical_layer_id("User.0"), None);
    assert_eq!(inner_copper_id(1), 4);
    assert!(is_copper_layer("In3.Cu") && !is_copper_layer("F.SilkS"));
}

#[test]
fn a_layer_is_added_under_its_own_number() {
    let (id, text) = add_layer(BOARD, "B.SilkS", "user", "b").unwrap();
    assert_eq!(id, 7);
    assert!(text.contains("(7 \"B.SilkS\" user)"), "{text}");
    assert!(check_document(&text, "kicad_pcb").is_ok());
    assert!(validate_layer_table(&text).is_ok());
    // A copper layer is part of the stackup.
    assert!(add_layer(&text, "In1.Cu", "signal", "b")
        .unwrap_err()
        .starts_with("Refusing to add copper layer 'In1.Cu'"));
    let names: Vec<String> = read_layers(&parse_sexp(&text).unwrap())
        .unwrap()
        .into_iter()
        .map(|l| l.name)
        .collect();
    assert_eq!(names.len(), 4);
    assert!(names.contains(&"B.SilkS".to_string()));
}

#[test]
fn each_refusal_of_a_layer_says_why() {
    assert!(add_layer(BOARD, "F.SilkS", "user", "b").unwrap_err().contains("already"));
    assert!(add_layer(BOARD, "Nonsense", "user", "b").is_err());
    assert!(add_layer("(kicad_pcb)", "B.SilkS", "user", "b").is_err());
    assert!(validate_layer_table("(kicad_pcb (layers (0 \"F.Cu\" signal) (0 \"B.Cu\" signal)))").is_err());
}

#[test]
fn graphics_leave_the_rest_of_the_board_alone() {
    let text = NewText {
        text: "say \"hi\"".into(), x: "1".into(), y: "2".into(), rotation: "0".into(),
        layer: "F.SilkS".into(), size: "1.5".into(),
    };
    let (uuid, after) = add_board_text(BOARD, &text);
    assert!(after.contains(&format!("(uuid \"{uuid}\")")));
    assert!(after.contains("(gr_text \"say \\\"hi\\\"\""));
    assert!(check_document(&after, "kicad_pcb").is_ok());
    let head = &BOARD[..BOARD.rfind(')').unwrap()];
    assert!(after.starts_with(head.trim_end()) || after.starts_with(head), "{after}");
    let (_, outline) = add_board_outline(BOARD, "0", "0", "10", "10");
    assert_eq!(outline.matches("(gr_line").count(), 5);
    let hole = NewHole {
        x: "5".into(), y: "5".into(), drill: "3.2".into(), drill_name: "3.2".into(),
        pad_size: "6.4".into(), offset: "-4.2".into(), reference: "H1".into(),
    };
    let (_, holed) = add_mounting_hole(BOARD, &hole);
    assert!(holed.contains("MountingHole_3.2mm"));
    assert!(check_document(&holed, "kicad_pcb").is_ok());
    let (n, placed) =
        match place_polygons(BOARD, &vec![points(&[("0", "0"), ("1", "0"), ("1", "1")])], "F.SilkS") {
            Ok((ids, t)) => (ids.len(), t),
            Err(e) => panic!("{e}"),
        };
    assert_eq!(n, 1);
    assert!(placed.contains("(gr_poly"));
    assert!(place_polygons(BOARD, &Vec::new(), "F.SilkS").is_err());
    assert!(format_gr_line("0", "0", "1", "1", "Edge.Cuts", "0.05", "u").contains("(start 0 0)"));
}

#[test]
fn a_zone_is_on_a_net_of_the_board() {
    assert_eq!(find_net_id(BOARD, "GND"), Some(1));
    assert_eq!(find_net_id(BOARD, "VCC"), None);
    let mut zone = NewZone {
        net_name: "GND".into(), layer: "F.Cu".into(), clearance: "0.2".into(),
        min_width: "0.25".into(), points: points(&[("0", "0"), ("1", "0"), ("1", "1")]),
    };
    let (_, done) = add_zone(BOARD, &zone);
    let (net, text) = done.unwrap();
    assert_eq!(net, 1);
    assert!(text.contains("(net 1)"));
    zone.net_name = "VCC".into();
    assert_eq!(add_zone(BOARD, &zone).1.unwrap().0, 0);
    zone.points.pop();
    assert_eq!(add_zone(BOARD, &zone).1.unwrap_err(), "Zone requires at least 3 points");
}

#[test]
fn a_board_describes_itself() {
    let info = board_info(BOARD).unwrap();
    assert_eq!(info.title, "Amp");
    assert_eq!(info.revision, "B");
    assert_eq!(info.company, "");
    assert_eq!(info.paper, "A4");
    assert_eq!(info.layer_count, 3);
    // Net 0 is no net.
    assert_eq!(info.net_count, 1);
    assert!(board_info("(kicad_pcb").is_err());
    assert_eq!(board_points(BOARD).unwrap(), points(&[("0", "0"), ("10", "5.5")]));
    assert!(check_document(&set_active_layer(BOARD, "B.Cu"), "kicad_pcb").is_ok());
}

#[test]
fn the_active_layer_is_named_in_the_setup() {
    let board = "(kicad_pcb (title_block (title \"a (setup b\")) (setup (pad 0)))";
    let once = set_active_layer(board, "B.Cu");
    assert_eq!(
        once,
        "(kicad_pcb (title_block (title \"a (setup b\")) (setup\n    (active_layer \"B.Cu\") (pad 0)))"
    );
    assert_eq!(set_active_layer(&once, "F.Cu"), once.replace("B.Cu", "F.Cu"));
    let lines = "(kicad_pcb\n\t(setup\n\t\t(pad 0)\n\t)\n)\n";
    assert_eq!(
        set_active_layer(lines, "F.Cu"),
        "(kicad_pcb\n\t(setup\n    (active_layer \"F.Cu\")\n\t\t(pad 0)\n\t)\n)\n"
    );
    assert_eq!(
        set_active_layer("(kicad_pcb\n\t(setup (pad 0)\n\t\t(rest 1)\n\t)\n)", "F.Cu"),
        "(kicad_pcb\n\t(setup (pad 0)\n    (active_layer \"F.Cu\")\n\t\t(rest 1)\n\t)\n)"
    );
}

#[test]
fn a_net_number_is_that_of_its_entry() {
    let board = "(kicad_pcb (title_block (title \"GND\")) (net 0 \"\") (net 1 \"GND\") (net 2 \"VCC\") (footprint \"R\" (property \"Value\" \"10k\")))";
    assert_eq!(find_net_id(board, "GND"), Some(1));
    assert_eq!(find_net_id(board, "VCC"), Some(2));
    assert_eq!(find_net_id(board, "10k"), None);
    assert_eq!(find_net_id("(kicad_pcb (segment (net \"GND\")))", "GND"), None);
}

#[test]
fn rows_are_indented_as_the_second_line_is() {
    let table = "(layers\n   (0 \"F.Cu\" signal)\n)";
    assert_eq!(row_indent(table, 0), "   ");
    assert_eq!(row_indent(table, table.len()), "\t\t");
}

#[test]
fn a_picture_is_sent_in_base64() {
    let p = board_picture(&vec![0x89, b'P', b'N', b'G']);
    assert_eq!(p.data, "iVBORw==");
    assert_eq!(p.mime_type, "image/png");
    assert_eq!(board_picture(&b"Man".to_vec()).data, "TWFu");
    assert_eq!(board_picture(&b"Ma".to_vec()).data, "TWE=");
    assert_eq!(board_picture(&Vec::new()).data, "");
    assert!(!picture_layers(Vec::new()).is_empty());
    assert_eq!(picture_layers(vec!["B.Cu".to_string()]), vec!["B.Cu"]);
}

#[test]
fn an_added_layer_is_the_last_row_of_the_table() {
    let rows = |text: &str| read_layers(&parse_sexp(text).unwrap()).unwrap();
    let (_, after) = add_layer(BOARD, "User.3", "user", "b").unwrap();
    let table = rows(&after);
    assert_eq!(table.len(), 4);
    for (old, new) in rows(BOARD).iter().zip(&table) {
        assert_eq!((old.id, &old.name, &old.kind), (new.id, &new.name, &new.kind));
    }
    let last = &table[3];
    assert_eq!((last.id, last.name.as_str(), last.kind.as_str()), (43, "User.3", "user"));
    assert_eq!(
        add_layer(&after, "User.3", "user", "b").unwrap_err(),
        "Layer 'User.3' is already on the board (id 43)"
    );
}

fn rounded() -> RoundedOutline {
    RoundedOutline {
        x1: "0".to_string(),
        y1: "0".to_string(),
        x2: "50".to_string(),
        y2: "30".to_string(),
        left: "2".to_string(),
        right: "48".to_string(),
        top: "2".to_string(),
        bottom: "28".to_string(),
        mid_left: "0.6".to_string(),
        mid_right: "49.4".to_string(),
        mid_top: "0.6".to_string(),
        mid_bottom: "29.4".to_string(),
    }
}

#[test]
fn an_arc_goes_through_its_middle() {
    assert_eq!(
        format_gr_arc(("48", "0"), ("49.4", "0.6"), ("50", "2"), "Edge.Cuts", "0.05", "u"),
        "\n  (gr_arc\n    (start 48 0)\n    (mid 49.4 0.6)\n    (end 50 2)\n    (stroke (width 0.05) (type solid))\n    (layer \"Edge.Cuts\")\n    (uuid \"u\")\n  )"
    );
}

#[test]
fn a_rounded_outline_closes() {
    let ids: Vec<String> = (0..8).map(|i| format!("id{}", i)).collect();
    let out = add_rounded_outline_as("(kicad_pcb\n)", &rounded(), &ids);
    let side = |a: (&str, &str), b: (&str, &str), i: usize| {
        format_gr_line(a.0, a.1, b.0, b.1, "Edge.Cuts", "0.05", &ids[i])
    };
    let corner = |a: (&str, &str), m: (&str, &str), b: (&str, &str), i: usize| {
        format_gr_arc(a, m, b, "Edge.Cuts", "0.05", &ids[i])
    };
    let wanted = [
        side(("2", "0"), ("48", "0"), 0),
        corner(("48", "0"), ("49.4", "0.6"), ("50", "2"), 1),
        side(("50", "2"), ("50", "28"), 2),
        corner(("50", "28"), ("49.4", "29.4"), ("48", "30"), 3),
        side(("48", "30"), ("2", "30"), 4),
        corner(("2", "30"), ("0.6", "29.4"), ("0", "28"), 5),
        side(("0", "28"), ("0", "2"), 6),
        corner(("0", "2"), ("0.6", "0.6"), ("2", "0"), 7),
    ]
    .concat();
    assert!(out.contains(&wanted));
    assert!(out.starts_with("(kicad_pcb"));

    let (fresh, drawn) = add_rounded_outline("(kicad_pcb\n)", &rounded());
    assert_eq!(fresh.len(), 8);
    for id in &fresh {
        assert!(drawn.contains(id.as_str()));
    }
    assert_eq!(drawn, add_rounded_outline_as("(kicad_pcb\n)", &rounded(), &fresh));
}

#[test]
fn a_layer_is_refused_by_its_name_alone() {
    assert!(new_layer_id("In1.Cu").unwrap_err().starts_with("Refusing to add copper layer 'In1.Cu'"));
    assert!(new_layer_id("Nope").unwrap_err().starts_with("Unknown layer name 'Nope'"));
    assert_eq!(new_layer_id("Edge.Cuts").ok(), canonical_layer_id("Edge.Cuts"));
    assert!(require_paths(&Vec::new()).is_err());
    assert!(require_paths(&vec![points(&[("0", "0")])]).is_ok());
}
