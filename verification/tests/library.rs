//! Symbol libraries and name suggestions.

use konnect::library::{
    eq_ignoring_case, expand_uri_vars, extract_symbol_block, find_extends, lib_symbol_not_found_error,
    library_exists_in, library_path_from_tables, parse_lib_table, prefix_symbol_block,
    resolve_lib_symbol, resolve_lib_symbol_node, split_lib_id, suggest_symbols, symbol_candidates,
    top_level_symbol_names, Installed, LibraryLookup, TABLE_DEPTH,
};
use konnect::sexp::parse_sexp;
use konnect::similar::{edit_distance, rank_candidates, stylized_match};

#[test]
fn edit_distance_basics() {
    assert_eq!(edit_distance("", ""), 0);
    assert_eq!(edit_distance("abc", "abc"), 0);
    assert_eq!(edit_distance("abc", "abd"), 1);
    assert_eq!(edit_distance("kitten", "sitting"), 3);
}

#[test]
fn stylized_match_covers_the_kicad10_renames() {
    assert!(stylized_match("cp", "c_polarized"));
    assert!(stylized_match("r_pot_trim", "r_potentiometer_trim"));
    // Not everything matches.
    assert!(!stylized_match("cp", "resistor"));
    assert!(!stylized_match("irf830", "irf840"));
}

#[test]
fn rank_candidates_surfaces_the_renamed_symbol() {
    let candidates = vec![
        "C".to_string(),
        "C_Polarized".to_string(),
        "C_Polarized_Small".to_string(),
        "R".to_string(),
        "L".to_string(),
    ];
    let ranked = rank_candidates("cp", candidates, 3);
    assert!(
        ranked.contains(&"C_Polarized".to_string()),
        "CP must suggest C_Polarized, got {ranked:?}"
    );
    assert!(!ranked.contains(&"R".to_string()));
}

#[test]
fn rank_candidates_close_typo_and_cap() {
    let candidates = vec![
        "R_Potentiometer".to_string(),
        "R_Potentiometer_Trim".to_string(),
        "Fuse".to_string(),
    ];
    let ranked = rank_candidates("r_pot_trim", candidates, 2);
    assert_eq!(ranked.len().min(2), ranked.len(), "limit respected");
    assert_eq!(ranked[0], "R_Potentiometer_Trim");
    assert!(!ranked.contains(&"Fuse".to_string()));
}

/// KiCAD's own libraries ship quoted values with unbalanced parentheses.
#[test]
fn extract_symbol_block_survives_parens_inside_strings() {
    // Unmatched '(' — the Connector_Generic / STM32 shape.
    let lib = "(kicad_symbol_lib\n\
         \t(symbol \"Conn_02x20\"\n\
         \t\t(property \"Description\" \"double row (pin number consists of\")\n\
         \t\t(symbol \"Conn_02x20_1_1\"\n\
         \t\t\t(pin passive line (at 0 0 0) (name \"PA13(JTMS\") (number \"1\"))\n\
         \t\t)\n\
         \t)\n\
         \t(symbol \"Conn_01x01\"\n\
         \t\t(property \"Value\" \"Conn_01x01\")\n\
         \t)\n\
         )\n";

    let block = extract_symbol_block(lib, "Conn_02x20")
        .expect("symbol with an unmatched '(' in a quoted value must resolve");
    assert!(block.starts_with("(symbol \"Conn_02x20\""));
    assert!(block.ends_with(')'));
    // The block must stop at its own end, not swallow the next symbol.
    assert!(!block.contains("Conn_01x01"), "block overran: {block}");
    // And it must be parseable — this is what the embed path needs.
    parse_sexp(&block).expect("extracted block must parse");

    // The following symbol is still reachable.
    assert!(extract_symbol_block(lib, "Conn_01x01").is_some());

    // Unmatched ')' — the Regulator_Switching shape — must not truncate.
    let lib2 = "(kicad_symbol_lib\n\
         \t(symbol \"X\"\n\
         \t\t(property \"Description\" \"Limit 1950mA typ),), 2.7-5.5V\")\n\
         \t\t(property \"Value\" \"X\")\n\
         \t)\n\
         )\n";
    let b2 = extract_symbol_block(lib2, "X").expect("unmatched ')' must not truncate");
    assert!(b2.contains("(property \"Value\" \"X\")"), "truncated: {b2}");
    parse_sexp(&b2).expect("extracted block must parse");
}

#[test]
fn escaped_quote_does_not_end_a_string() {
    // Connector_Generic really does embed an escaped quote in a description.
    let lib = "(kicad_symbol_lib\n\
         \t(symbol \"A\"\n\
         \t\t(property \"Description\" \"say \\\"hi (\\\" ok\")\n\
         \t)\n\
         \t(symbol \"B\")\n\
         )\n";
    let a = extract_symbol_block(lib, "A").expect("A resolves");
    assert!(!a.contains("\"B\""), "block overran into B: {a}");
    assert!(extract_symbol_block(lib, "B").is_some());
}

#[test]
fn unit_sub_symbols_are_not_mistaken_for_symbols() {
    let lib = "(kicad_symbol_lib\n\
         \t(symbol \"R\"\n\
         \t\t(symbol \"R_0_1\" (rectangle))\n\
         \t)\n\
         )\n";
    assert_eq!(top_level_symbol_names(lib), vec!["R".to_string()]);
    // A unit is not a resolvable symbol in its own right.
    assert!(extract_symbol_block(lib, "R_0_1").is_none());
}

/// A symbol that is cut off hides its units too.
#[test]
fn a_unit_of_a_cut_off_symbol_is_no_symbol() {
    let lib = "(kicad_symbol_lib (symbol \"R\" (symbol \"R_0_1\" (rectangle))";
    assert!(top_level_symbol_names(lib).is_empty());
    assert!(extract_symbol_block(lib, "R_0_1").is_none());
    let lib = "(kicad_symbol_lib (symbol \"C\" (symbol \"C_0_1\")) (symbol \"R\" (symbol \"R_0_1\" (rectangle))";
    assert_eq!(top_level_symbol_names(lib), ["C"]);
}

#[test]
fn a_resolved_symbol_begins_with_its_own_header() {
    let files = vec!["(kicad_symbol_lib\n\t(symbol \"R\"\n\t\t(extends \"Base\")))\n".to_string()];
    let text = resolve_lib_symbol("Device:R", &files).unwrap();
    assert!(text.starts_with("(symbol \"Device:R\""), "{text}");
    assert!(text.contains("(extends \"Device:Base\")"));
    // Whatever stands between the tag and the name.
    let files = vec!["(kicad_symbol_lib (symbol\n\t\"R\" (pin)))".to_string()];
    assert_eq!(
        resolve_lib_symbol("Device:R", &files),
        Some("(symbol\n\t\"Device:R\" (pin))".to_string())
    );
    assert_eq!(resolve_lib_symbol("R", &files), None);
}

#[test]
fn ranking_does_not_depend_on_the_order_of_the_candidates() {
    let names = |v: [&str; 4]| v.map(String::from).to_vec();
    let a = rank_candidates("r_us", names(["R_US", "R_Small", "R", "R_Small_US"]), 3);
    let b = rank_candidates("r_us", names(["R_Small_US", "R", "R_US", "R_Small"]), 3);
    assert_eq!(a, b);
}

#[test]
fn prefixing_rewrites_the_outer_name_and_extends_only() {
    let block = "(symbol \"ATmega48\"\n\
         \t(extends \"ATmega8\")\n\
         \t(property \"Note\" \"see (symbol \\\"ATmega48\\\") elsewhere\")\n\
         )";
    let out = prefix_symbol_block(block, "MCU_Atmel", "ATmega48");
    assert!(out.starts_with("(symbol \"MCU_Atmel:ATmega48\""));
    assert!(out.contains("(extends \"MCU_Atmel:ATmega8\")"));
    // The property text is data, not structure — it must be left alone.
    assert!(out.contains("see (symbol \\\"ATmega48\\\") elsewhere"));
}

const PROJECT_LIB: &str = "(kicad_symbol_lib\n\t(version 20251024)\n\t(symbol \"CH32V208GBU6\"\n\t\t(property \"Reference\" \"U\")\n\t)\n)\n";

/// A library registered in a project's table resolves without being copied into
/// the installation.
#[test]
fn project_local_library_resolves_from_sym_lib_table() {
    let table = "(sym_lib_table\n\t(version 7)\n\t(lib (name \"KonnectTestProjLib\") (type \"KiCad\") (uri \"/p/L.kicad_sym\") (options \"\") (descr \"\"))\n)\n";
    let lookup = |tables: Vec<String>| {
        library_path_from_tables("KonnectTestProjLib", &tables, TABLE_DEPTH, &Vec::new(), &None)
    };
    let path = match lookup(vec![table.to_string()]) {
        LibraryLookup::Found(p) => p,
        other => panic!("{other:?}"),
    };
    assert_eq!(path, "/p/L.kicad_sym");
    let got = resolve_lib_symbol("KonnectTestProjLib:CH32V208GBU6", &vec![PROJECT_LIB.to_string()])
        .expect("the library must resolve from its table");
    assert!(got.starts_with("(symbol \"KonnectTestProjLib:CH32V208GBU6\""), "{got}");
    assert!(library_exists_in(true, &Vec::new()));
    // Without the project scope it is not findable.
    assert!(matches!(lookup(Vec::new()), LibraryLookup::Follow(more) if more.is_empty()));
    assert!(resolve_lib_symbol("KonnectTestProjLib:CH32V208GBU6", &Vec::new()).is_none());
}

/// KiCAD's stock user table is a row that points at the installation's own table.
#[test]
fn table_indirection_is_followed() {
    let outer = "(sym_lib_table\n\t(lib (name \"Pointer\") (type \"Table\") (uri \"/r/inner\"))\n)\n";
    let inner = "(sym_lib_table\n\t(lib (name \"KonnectTestInner\") (type \"KiCad\") (uri \"/r/Inner.kicad_sym\"))\n)\n";
    let ask = |t: &str, depth| {
        library_path_from_tables("KonnectTestInner", &vec![t.to_string()], depth, &Vec::new(), &None)
    };
    match ask(outer, TABLE_DEPTH) {
        LibraryLookup::Follow(more) => assert_eq!(more, vec!["/r/inner"]),
        other => panic!("{other:?}"),
    }
    match ask(inner, TABLE_DEPTH - 1) {
        LibraryLookup::Found(p) => assert_eq!(p, "/r/Inner.kicad_sym"),
        other => panic!("{other:?}"),
    }
    // A table that points at itself ends.
    assert!(matches!(ask(outer, 1), LibraryLookup::Unknown));
}

#[test]
fn unresolvable_uri_vars_stay_literal() {
    let got = expand_uri_vars(
        "${KONNECT_DEFINITELY_UNSET_XYZZY}/Device.kicad_sym",
        &Vec::new(),
        &None,
    );
    assert_eq!(got, "${KONNECT_DEFINITELY_UNSET_XYZZY}/Device.kicad_sym");
}

#[test]
fn known_uri_vars_are_expanded() {
    let env = vec![("KIPRJMOD".to_string(), "/home/p".to_string())];
    assert_eq!(expand_uri_vars("${KIPRJMOD}/a/${KIPRJMOD}", &env, &None), "/home/p/a//home/p");
    assert_eq!(expand_uri_vars("${KIPRJMOD", &env, &None), "${KIPRJMOD");
    assert_eq!(
        expand_uri_vars("${KICAD10_SYMBOL_DIR}/D.kicad_sym", &env, &Some("/usr/s".to_string())),
        "/usr/s/D.kicad_sym"
    );
}

#[test]
fn rows_of_a_table_are_read_in_order() {
    let rows = parse_lib_table(
        "(sym_lib_table\n (lib (name \"A\") (type \"KiCad\") (uri \"a\"))\n (lib (name B)(type KiCad)(uri b))\n)",
    );
    let names: Vec<&str> = rows.iter().map(|r| r.name.as_str()).collect();
    assert_eq!(names, vec!["A", "B"]);
    assert_eq!(rows[1].uri, "b");
    assert!(parse_lib_table("(sym_lib_table").is_empty());
    assert!(eq_ignoring_case("KiCad", "kicad") && !eq_ignoring_case("KiCad", "kica"));
}

#[test]
fn an_id_splits_at_its_first_colon() {
    assert_eq!(split_lib_id("Device:R"), Some(("Device", "R")));
    assert_eq!(split_lib_id("A:B:C"), Some(("A", "B:C")));
    assert_eq!(split_lib_id("Device"), None);
}

#[test]
fn a_symbol_is_looked_for_where_it_is_registered_and_then_in_each_directory() {
    let got = symbol_candidates(
        "Device:R",
        &Some("/p/Device.kicad_sym".to_string()),
        &vec!["/s".to_string()],
    );
    assert_eq!(
        got,
        vec![
            vec!["/p/Device.kicad_sym", "R.kicad_sym"],
            vec!["/p/Device.kicad_sym"],
            vec!["/s", "Device.kicad_symdir", "R.kicad_sym"],
            vec!["/s", "Device.kicad_sym"],
        ]
    );
    assert!(!library_exists_in(false, &vec![Installed { as_directory: false, as_file: false }]));
    assert!(library_exists_in(false, &vec![Installed { as_directory: true, as_file: false }]));
}

#[test]
fn a_resolved_symbol_is_a_node_with_its_full_name() {
    let node =
        resolve_lib_symbol_node("L:CH32V208GBU6", &vec![PROJECT_LIB.to_string()]).unwrap();
    assert_eq!(node.value(), Some("L:CH32V208GBU6"));
    assert!(resolve_lib_symbol_node("L:Nope", &vec![PROJECT_LIB.to_string()]).is_none());
    let block = "(symbol \"B\" (extends \"A\"))";
    let (s, e) = find_extends(block).unwrap();
    assert_eq!(&block[s..e], "\"A\"");
}

/// Names are compared without regard to case.
#[test]
fn suggestions_name_symbols_of_the_library_or_libraries() {
    let lib = "(kicad_symbol_lib\n\t(symbol \"LM358\")\n\t(symbol \"TL072\")\n)\n".to_string();
    let got = suggest_symbols("Amp:lm385", &vec!["TL072.kicad_sym".to_string()], &vec![lib], 3);
    assert_eq!(got, vec!["Amp:LM358"]);
    assert_eq!(
        lib_symbol_not_found_error("Amp:lm385", true, &got),
        "Library symbol 'Amp:lm385' not found in the installed KiCAD libraries. Did you mean: Amp:LM358? (KiCAD 10 renamed several older symbol names)"
    );
}

#[test]
fn a_distance_is_symmetric_and_no_longer_than_the_longer_text() {
    for (a, b) in [("", "abc"), ("Ω1", "1"), ("kitten", "sitting"), ("abc", "xyz1")] {
        assert_eq!(edit_distance(a, b), edit_distance(b, a));
        assert!(edit_distance(a, b) <= a.chars().count().max(b.chars().count()));
    }
    assert_eq!(edit_distance("Ω1", "1"), 1);
}

#[test]
fn what_resolves_is_headed_whatever_its_name() {
    let file = "(kicad_symbol_lib (symbol \"R\\\"1\" (extends \"P\")))".to_string();
    let found = resolve_lib_symbol("a\"b:R\\\"1", &vec![file.clone()]).unwrap();
    assert_eq!(found, "(symbol \"a\"b:R\\\"1\" (extends \"a\"b:P\"))");
    // Here the header itself names a parent, which is taken for the symbol's.
    let hidden = resolve_lib_symbol("a\"(extends \"b\":R\\\"1", &vec![file]).unwrap();
    assert!(!hidden.starts_with("(symbol \"a\"(extends \"b\":R\\\"1\""));
}
