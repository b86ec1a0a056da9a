//! Where KiCAD keeps its libraries, its configuration and its program.

use konnect::install::{
    find_symbol_dirs, kicad_binary_candidates, kicad_config_base, kicad_config_dirs, sym_lib_table_candidates,
    sym_lib_tables, symbol_dir_candidates, user_config_base, Place, Platform, UserDirs,
};
use konnect::library::{library_exists, Installed};

fn some(t: &str) -> Option<String> {
    Some(t.to_string())
}

fn place(path: &str, found: bool, repeats: bool) -> Place {
    Place { path: path.to_string(), found, repeats }
}

#[test]
fn configuration_follows_the_platform() {
    let dirs = UserDirs { appdata: some("C:/A"), home: some("/h"), xdg_config_home: None };
    assert_eq!(user_config_base(Platform::Windows, &dirs).unwrap(), ["C:/A", "kicad"]);
    assert_eq!(user_config_base(Platform::MacOs, &dirs).unwrap(), ["/h", "Library/Preferences/kicad"]);
    assert_eq!(user_config_base(Platform::Other, &dirs).unwrap(), ["/h", ".config", "kicad"]);
    let xdg = UserDirs { appdata: None, home: some("/h"), xdg_config_home: some("/x") };
    assert_eq!(user_config_base(Platform::Other, &xdg).unwrap(), ["/x", "kicad"]);
    assert!(user_config_base(Platform::Windows, &xdg).is_none());
    let nothing = UserDirs { appdata: None, home: None, xdg_config_home: None };
    assert!(user_config_base(Platform::Other, &nothing).is_none());
    assert!(user_config_base(Platform::MacOs, &nothing).is_none());
    assert_eq!(kicad_config_base(Platform::Other, &nothing), ["", ".config", "kicad"]);
    assert_eq!(kicad_config_base(Platform::Other, &xdg), ["/h", ".config", "kicad"]);
    assert_eq!(kicad_config_base(Platform::Windows, &dirs), ["C:/A", "kicad"]);
}

#[test]
fn version_directories_come_before_the_base() {
    let versions = vec!["/c/10.0".to_string(), "/c/9.0".to_string()];
    assert_eq!(kicad_config_dirs(versions, "/c", true), ["/c/10.0", "/c/9.0", "/c"]);
    assert!(kicad_config_dirs(Vec::new(), "/c", false).is_empty());
}

#[test]
fn symbol_directories_are_taken_once_and_in_order() {
    assert_eq!(
        symbol_dir_candidates(Platform::Other, &None),
        [vec!["/usr/share/kicad/symbols"], vec!["/usr/local/share/kicad/symbols"]]
    );
    let mac = symbol_dir_candidates(Platform::MacOs, &some("/Users/a"));
    assert_eq!(mac.len(), 3);
    assert_eq!(mac[2], ["/Users/a", "Applications/KiCad/KiCad.app/Contents/SharedSupport/symbols"]);
    assert_eq!(symbol_dir_candidates(Platform::MacOs, &None).len(), 2);
    assert_eq!(
        symbol_dir_candidates(Platform::Windows, &None)[1],
        ["C:\\Program Files\\KiCad\\10.0\\share\\kicad\\symbols"]
    );
    let places = vec![
        place("/mine", true, false),
        place("/usr/share/kicad/symbols", false, false),
        place("/usr/local/share/kicad/symbols", true, false),
        place("/mine", true, true),
    ];
    assert_eq!(find_symbol_dirs(&places), ["/mine", "/usr/local/share/kicad/symbols"]);
}

#[test]
fn the_project_table_is_read_first() {
    let configs = vec!["/c/10.0".to_string(), "/c".to_string()];
    assert_eq!(
        sym_lib_table_candidates(&some("/p"), &configs),
        [vec!["/p", "sym-lib-table"], vec!["/c/10.0", "sym-lib-table"], vec!["/c", "sym-lib-table"]]
    );
    assert_eq!(sym_lib_table_candidates(&None, &Vec::new()).len(), 0);
    let listed = |there: &[(&str, bool)]| -> Vec<(String, bool)> {
        there.iter().map(|(p, found)| (p.to_string(), *found)).collect()
    };
    let places = listed(&[("/p/sym-lib-table", false), ("/c/sym-lib-table", true)]);
    assert_eq!(sym_lib_tables(&places), ["/c/sym-lib-table"]);
    // A table that is listed twice is read twice.
    let places = listed(&[("/c/sym-lib-table", true), ("/c/sym-lib-table", true)]);
    assert_eq!(sym_lib_tables(&places).len(), 2);
}

#[test]
fn the_program_is_looked_for_where_it_is_installed() {
    let all = kicad_binary_candidates(Platform::Windows);
    assert_eq!(all.len(), 16);
    assert_eq!(all[0], "C:\\Program Files\\KiCad\\10.0\\bin\\kicad.exe");
    assert_eq!(all[3], "C:\\Program Files\\KiCad\\bin\\kicad.exe");
    assert_eq!(all[13], "D:\\Program Files\\KiCad\\9.0\\bin\\kicad.exe");
    assert!(kicad_binary_candidates(Platform::MacOs).is_empty());
    assert!(kicad_binary_candidates(Platform::Other).is_empty());
}

#[test]
fn a_library_is_known_without_a_project() {
    let dirs = vec![Installed { as_directory: false, as_file: true }];
    assert!(library_exists(false, &dirs));
    assert!(library_exists(true, &Vec::new()));
    assert!(!library_exists(false, &Vec::new()));
}
