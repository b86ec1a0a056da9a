//! Where KiCAD keeps its libraries and its configuration.
//!
//! Which of these places are there is for the caller to find out: the functions
//! take what the file system and the environment say. A path is given as the parts
//! to join.

use crate::chars::texts;
use crate::library::text_lists;
use crate::sexp::string_opt;
use crate::text::{copy, put};
use vstd::prelude::*;

verus! {

/// The systems that KiCAD installs differently on.
#[derive(Clone, Copy, Debug, PartialEq, Eq, Structural)]
pub enum Platform {
    Windows,
    MacOs,
    Other,
}

/// The variables of the environment that say where a user's files are.
#[derive(Debug)]
pub struct UserDirs {
    pub appdata: Option<String>,
    pub home: Option<String>,
    pub xdg_config_home: Option<String>,
}

// ─── Configuration ───────────────────────────────────────────────────────────

/// The directory of all of a user's KiCAD configurations, where the environment
/// tells.
pub open spec fn config_base(platform: Platform, dirs: UserDirs) -> Option<Seq<Seq<char>>> {
    match platform {
        Platform::Windows => match dirs.appdata {
            Some(a) => Some(seq![a@, "kicad"@]),
            None => None,
        },
        Platform::MacOs => match dirs.home {
            Some(h) => Some(seq![h@, "Library/Preferences/kicad"@]),
            None => None,
        },
        Platform::Other => match dirs.xdg_config_home {
            Some(x) => Some(seq![x@, "kicad"@]),
            None => match dirs.home {
                Some(h) => Some(seq![h@, ".config"@, "kicad"@]),
                None => None,
            },
        },
    }
}

/// A path of up to three parts.
fn parts(first: &str, second: &str, third: &Option<&str>) -> (r: Vec<String>)
    ensures
        texts(r@) == (match third {
            Some(t) => seq![first@, second@, t@],
            None => seq![first@, second@],
        }),
{
    let mut out: Vec<String> = Vec::new();
    out.push(copy(first));
    out.push(copy(second));
    match third {
        Some(t) => {
            out.push(copy(t));
            assert(texts(out@) =~= seq![first@, second@, t@]);
        },
        None => {
            assert(texts(out@) =~= seq![first@, second@]);
        },
    }
    out
}

/// The directory of all of a user's KiCAD configurations; none where the
/// environment does not tell.
pub fn user_config_base(platform: Platform, dirs: &UserDirs) -> (r: Option<Vec<String>>)
    ensures
        match r {
            Some(p) => config_base(platform, *dirs) == Some(texts(p@)),
            None => config_base(platform, *dirs).is_none(),
        },
{
    match platform {
        Platform::Windows => match &dirs.appdata {
            Some(a) => Some(parts(a.as_str(), "kicad", &None)),
            None => None,
        },
        Platform::MacOs => match &dirs.home {
            Some(h) => Some(parts(h.as_str(), "Library/Preferences/kicad", &None)),
            None => None,
        },
        Platform::Other => match &dirs.xdg_config_home {
            Some(x) => Some(parts(x.as_str(), "kicad", &None)),
            None => match &dirs.home {
                Some(h) => Some(parts(h.as_str(), ".config", &Some("kicad"))),
                None => None,
            },
        },
    }
}

/// A variable's value, empty where it is not set.
pub open spec fn or_empty(v: Option<String>) -> Seq<char> {
    match v {
        Some(t) => t@,
        None => ""@,
    }
}

/// The directory that a configuration is made in: the one of the platform, under a
/// relative path where the environment does not tell.
pub open spec fn config_home(platform: Platform, dirs: UserDirs) -> Seq<Seq<char>> {
    match platform {
        Platform::Windows => seq![or_empty(dirs.appdata), "kicad"@],
        Platform::MacOs => seq![or_empty(dirs.home), "Library/Preferences/kicad"@],
        Platform::Other => seq![or_empty(dirs.home), ".config"@, "kicad"@],
    }
}

fn set_or_empty(v: &Option<String>) -> (r: &str)
    ensures
        r@ == or_empty(*v),
{
    match v {
        Some(t) => t.as_str(),
        None => "",
    }
}

/// The directory that a configuration is made in.
pub fn kicad_config_base(platform: Platform, dirs: &UserDirs) -> (r: Vec<String>)
    ensures
        texts(r@) == config_home(platform, *dirs),
{
    match platform {
        Platform::Windows => parts(set_or_empty(&dirs.appdata), "kicad", &None),
        Platform::MacOs => parts(set_or_empty(&dirs.home), "Library/Preferences/kicad", &None),
        Platform::Other => parts(set_or_empty(&dirs.home), ".config", &Some("kicad")),
    }
}

/// The directories that hold a user's configuration: those of the versions, and
/// after them the base itself for the flat layout, where it is there.
pub fn kicad_config_dirs(versions: Vec<String>, base: &str, base_is_dir: bool) -> (r: Vec<String>)
    ensures
        texts(r@) == (if base_is_dir {
            texts(versions@).push(base@)
        } else {
            texts(versions@)
        }),
{
    let mut out = versions;
    if base_is_dir {
        out.push(copy(base));
        assert(texts(out@) =~= texts(versions@).push(base@));
    }
    out
}

// ─── Places that are there ───────────────────────────────────────────────────

/// A place to look at, and what is known of it.
#[derive(Debug)]
pub struct Place {
    pub path: String,
    /// It is there, as what it should be.
    pub found: bool,
    /// An earlier place of the list is the same one.
    pub repeats: bool,
}

/// The paths of the first `n` places that are there, each one once, in order.
pub open spec fn found_in(places: Seq<Place>, n: int) -> Seq<Seq<char>>
    decreases n,
{
    if n <= 0 {
        Seq::empty()
    } else if places[n - 1].found && !places[n - 1].repeats {
        found_in(places, n - 1).push(places[n - 1].path@)
    } else {
        found_in(places, n - 1)
    }
}

fn take_found(places: &Vec<Place>) -> (r: Vec<String>)
    ensures
        texts(r@) == found_in(places@, places.len() as int),
{
    let mut out: Vec<String> = Vec::new();
    let mut i: usize = 0;
    assert(texts(out@) =~= Seq::<Seq<char>>::empty());
    while i < places.len()
        invariant
            i <= places.len(),
            texts(out@) == found_in(places@, i as int),
        decreases places.len() - i,
    {
        if places[i].found && !places[i].repeats {
            let ghost was = out@;
            out.push(places[i].path.clone());
            assert(texts(out@) =~= texts(was).push(places@[i as int].path@));
        }
        i += 1;
    }
    out
}

/// Where KiCAD installs its symbol libraries on a system, in the order to look.
pub open spec fn symbol_places(platform: Platform, home: Option<String>) -> Seq<Seq<Seq<char>>> {
    match platform {
        Platform::Windows => seq![
            seq!["C:\\KiCad\\10.0\\share\\kicad\\symbols"@],
            seq!["C:\\Program Files\\KiCad\\10.0\\share\\kicad\\symbols"@],
            seq!["C:\\KiCad\\9.0\\share\\kicad\\symbols"@],
            seq!["C:\\Program Files\\KiCad\\9.0\\share\\kicad\\symbols"@],
        ],
        Platform::MacOs => {
            let shared = seq![
                seq!["/Applications/KiCad/KiCad.app/Contents/SharedSupport/symbols"@],
                seq!["/usr/local/share/kicad/symbols"@],
            ];
            match home {
                Some(h) => shared.push(
                    seq![h@, "Applications/KiCad/KiCad.app/Contents/SharedSupport/symbols"@],
                ),
                None => shared,
            }
        },
        Platform::Other => seq![
            seq!["/usr/share/kicad/symbols"@],
            seq!["/usr/local/share/kicad/symbols"@],
        ],
    }
}

fn one(path: &str) -> (r: Vec<String>)
    ensures
        texts(r@) == seq![path@],
{
    let mut out: Vec<String> = Vec::new();
    out.push(copy(path));
    assert(texts(out@) =~= seq![path@]);
    out
}

/// Where KiCAD installs its symbol libraries on a system, in the order to look. On
/// macOS they are inside the app, which may also be the user's own.
pub fn symbol_dir_candidates(platform: Platform, home: &Option<String>) -> (r: Vec<Vec<String>>)
    ensures
        text_lists(r@) == symbol_places(platform, *home),
{
    let mut out: Vec<Vec<String>> = Vec::new();
    match platform {
        Platform::Windows => {
            out.push(one("C:\\KiCad\\10.0\\share\\kicad\\symbols"));
            out.push(one("C:\\Program Files\\KiCad\\10.0\\share\\kicad\\symbols"));
            out.push(one("C:\\KiCad\\9.0\\share\\kicad\\symbols"));
            out.push(one("C:\\Program Files\\KiCad\\9.0\\share\\kicad\\symbols"));
        },
        Platform::MacOs => {
            out.push(one("/Applications/KiCad/KiCad.app/Contents/SharedSupport/symbols"));
            out.push(one("/usr/local/share/kicad/symbols"));
            match home {
                Some(h) => {
                    out.push(
                        parts(
                            h.as_str(),
                            "Applications/KiCad/KiCad.app/Contents/SharedSupport/symbols",
                            &None,
                        ),
                    );
                },
                None => {},
            }
        },
        Platform::Other => {
            out.push(one("/usr/share/kicad/symbols"));
            out.push(one("/usr/local/share/kicad/symbols"));
        },
    }
    assert(text_lists(out@) =~= symbol_places(platform, *home));
    out
}

/// The directories that hold symbol libraries: of the configured one and then the
/// installed ones, those that are there, each one once.
pub fn find_symbol_dirs(places: &Vec<Place>) -> (r: Vec<String>)
    ensures
        texts(r@) == found_in(places@, places.len() as int),
{
    take_found(places)
}

/// Where symbol library tables are looked for: next to the project first, then in
/// the configurations, newest first.
pub open spec fn table_places(project: Option<String>, configs: Seq<Seq<char>>) -> Seq<Seq<Seq<char>>> {
    let there = Seq::new(configs.len(), |i: int| seq![configs[i], "sym-lib-table"@]);
    match project {
        Some(p) => seq![seq![p@, "sym-lib-table"@]] + there,
        None => there,
    }
}

/// Where symbol library tables are looked for: next to the project first, then in
/// the configurations, newest first.
pub fn sym_lib_table_candidates(project_dir: &Option<String>, config_dirs: &Vec<String>) -> (r: Vec<
    Vec<String>,
>)
    ensures
        text_lists(r@) == table_places(*project_dir, texts(config_dirs@)),
{
    let mut out: Vec<Vec<String>> = Vec::new();
    match project_dir {
        Some(p) => {
            out.push(parts(p.as_str(), "sym-lib-table", &None));
        },
        None => {},
    }
    let ghost front = text_lists(out@);
    let ghost there = Seq::new(
        config_dirs@.len(),
        |i: int| seq![texts(config_dirs@)[i], "sym-lib-table"@],
    );
    let mut i: usize = 0;
    assert(front + there.take(0) =~= front);
    while i < config_dirs.len()
        invariant
            i <= config_dirs.len(),
            there == Seq::new(
                config_dirs@.len(),
                |i: int| seq![texts(config_dirs@)[i], "sym-lib-table"@],
            ),
            text_lists(out@) == front + there.take(i as int),
        decreases config_dirs.len() - i,
    {
        let ghost was = out@;
        out.push(parts(config_dirs[i].as_str(), "sym-lib-table", &None));
        proof {
            assert(text_lists(out@) =~= text_lists(was).push(there[i as int]));
            assert(front + there.take(i + 1) =~= (front + there.take(i as int)).push(there[i as int]));
        }
        i += 1;
    }
    assert(there.take(there.len() as int) =~= there);
    assert(text_lists(out@) =~= table_places(*project_dir, texts(config_dirs@)));
    out
}

/// The first `n` places that are there, each as often as it is listed.
pub open spec fn there_in(places: Seq<(String, bool)>, n: int) -> Seq<Seq<char>>
    decreases n,
{
    if n <= 0 {
        Seq::empty()
    } else if places[n - 1].1 {
        there_in(places, n - 1).push(places[n - 1].0@)
    } else {
        there_in(places, n - 1)
    }
}

/// The symbol library tables that are there, in the order to read them. `places`
/// holds where they are looked for and whether a file is there.
pub fn sym_lib_tables(places: &Vec<(String, bool)>) -> (r: Vec<String>)
    ensures
        texts(r@) == there_in(places@, places.len() as int),
{
    let mut out: Vec<String> = Vec::new();
    let mut i: usize = 0;
    assert(texts(out@) =~= there_in(places@, 0));
    while i < places.len()
        invariant
            i <= places.len(),
            texts(out@) == there_in(places@, i as int),
        decreases places.len() - i,
    {
        if places[i].1 {
            let ghost was = texts(out@);
            out.push(copy(places[i].0.as_str()));
            assert(texts(out@) =~= was.push(places[i as int].0@));
        }
        i += 1;
    }
    out
}

/// Nothing is taken but what is there, and nothing that is there and new is left
/// out.
pub proof fn law_found_places(places: Seq<Place>, n: int, i: int)
    requires
        0 <= i < n <= places.len(),
    ensures
        places[i].found && !places[i].repeats ==> found_in(places, n).contains(places[i].path@),
        found_in(places, n).len() <= n,
    decreases n,
{
    let all = found_in(places, n);
    let before = found_in(places, n - 1);
    if i < n - 1 {
        law_found_places(places, n - 1, i);
        if before.contains(places[i].path@) {
            let k = choose|k: int| 0 <= k < before.len() && before[k] == places[i].path@;
            assert(all[k] == places[i].path@);
        }
    } else {
        lemma_found_length(places, n - 1);
        if places[i].found && !places[i].repeats {
            assert(all.last() == places[i].path@);
        }
    }
}

proof fn lemma_found_length(places: Seq<Place>, n: int)
    requires
        0 <= n <= places.len(),
    ensures
        found_in(places, n).len() <= n,
    decreases n,
{
    if n > 0 {
        lemma_found_length(places, n - 1);
    }
}

// ─── The program ─────────────────────────────────────────────────────────────

/// The program to start: the configured one where it is there, else one that was
/// found in a usual place, else the platform's own name for it.
pub open spec fn kicad_program(
    configured: Seq<char>,
    configured_exists: bool,
    found: Option<Seq<char>>,
    platform: Platform,
) -> Seq<char> {
    if configured.len() > 0 && configured_exists {
        configured
    } else {
        match platform {
            Platform::Windows => match found {
                Some(p) => p,
                None => "kicad"@,
            },
            Platform::MacOs => "/Applications/KiCad/KiCad.app/Contents/MacOS/kicad"@,
            Platform::Other => "kicad"@,
        }
    }
}

/// The program to start.
pub fn find_kicad_binary(
    configured: &str,
    configured_exists: bool,
    found: &Option<String>,
    platform: Platform,
) -> (r: String)
    ensures
        r@ == kicad_program(configured@, configured_exists, string_opt(*found), platform),
{
    if !configured.is_empty() && configured_exists {
        return copy(configured);
    }
    match platform {
        Platform::Windows => match found {
            Some(p) => copy(p.as_str()),
            None => copy("kicad"),
        },
        Platform::MacOs => copy("/Applications/KiCad/KiCad.app/Contents/MacOS/kicad"),
        Platform::Other => copy("kicad"),
    }
}

/// The roots that KiCAD is installed under on Windows.
pub open spec fn windows_roots() -> Seq<Seq<char>> {
    seq![
        "C:\\Program Files\\KiCad"@,
        "C:\\KiCad"@,
        "D:\\KiCad"@,
        "D:\\Program Files\\KiCad"@,
    ]
}

/// Where the program is under a root: in the directory of each version, newest
/// first, and then in the root itself.
pub open spec fn programs_under(root: Seq<char>) -> Seq<Seq<char>> {
    seq![
        root + "\\10.0\\bin\\kicad.exe"@,
        root + "\\9.0\\bin\\kicad.exe"@,
        root + "\\8.0\\bin\\kicad.exe"@,
        root + "\\bin\\kicad.exe"@,
    ]
}

/// Where the program is looked for on a system.
pub open spec fn program_places(platform: Platform) -> Seq<Seq<char>> {
    match platform {
        Platform::Windows => programs_under(windows_roots()[0]) + programs_under(windows_roots()[1])
            + programs_under(windows_roots()[2]) + programs_under(windows_roots()[3]),
        _ => Seq::empty(),
    }
}

fn put_program(out: &mut Vec<String>, root: &str, rest: &str)
    ensures
        texts(final(out)@) == texts(old(out)@).push(root@ + rest@),
{
    let mut path = copy(root);
    put(&mut path, rest);
    let ghost was = out@;
    out.push(path);
    assert(texts(out@) =~= texts(was).push(root@ + rest@));
}

fn put_programs(out: &mut Vec<String>, root: &str)
    ensures
        texts(final(out)@) == texts(old(out)@) + programs_under(root@),
{
    let ghost was = texts(out@);
    put_program(out, root, "\\10.0\\bin\\kicad.exe");
    put_program(out, root, "\\9.0\\bin\\kicad.exe");
    put_program(out, root, "\\8.0\\bin\\kicad.exe");
    put_program(out, root, "\\bin\\kicad.exe");
    assert(texts(out@) =~= was + programs_under(root@));
}

/// Where the program is looked for, in order. Only on Windows is there more than
/// one usual place.
pub fn kicad_binary_candidates(platform: Platform) -> (r: Vec<String>)
    ensures
        texts(r@) == program_places(platform),
{
    let mut out: Vec<String> = Vec::new();
    assert(texts(out@) =~= Seq::<Seq<char>>::empty());
    match platform {
        Platform::Windows => {
            put_programs(&mut out, "C:\\Program Files\\KiCad");
            put_programs(&mut out, "C:\\KiCad");
            put_programs(&mut out, "D:\\KiCad");
            put_programs(&mut out, "D:\\Program Files\\KiCad");
            assert(texts(out@) =~= program_places(platform));
        },
        _ => {},
    }
    out
}

} // verus!
