use grabber::locate::{
    detect_project, find_go_project, find_project_info_toml, find_python_project,
    find_rust_project, has_file_with_extension, has_python_file_in_top_level, locate,
    marker_present, DirEntryInfo, DirListing, Ecosystem, EntryKind, Marker,
};

fn file(name: &str) -> DirEntryInfo {
    DirEntryInfo { name: name.to_string(), kind: EntryKind::File }
}

fn dir(name: &str) -> DirEntryInfo {
    DirEntryInfo { name: name.to_string(), kind: EntryKind::Dir }
}

fn listing(entries: Vec<DirEntryInfo>) -> DirListing {
    DirListing { entries }
}

fn empty() -> DirListing {
    listing(vec![])
}

#[test]
fn rust_marker_needs_manifest_and_src_dir() {
    let m = Marker::Project(Ecosystem::Rust);
    assert!(marker_present(&m, &listing(vec![file("Cargo.toml"), dir("src")])));
    assert!(!marker_present(&m, &listing(vec![file("Cargo.toml")])));
    assert!(!marker_present(&m, &listing(vec![dir("src")])));
    assert!(!marker_present(&m, &listing(vec![file("Cargo.toml"), file("src")])));
    assert!(marker_present(&m, &listing(vec![dir("Cargo.toml"), dir("src")])));
}

#[test]
fn python_marker_accepts_any_of_three() {
    let m = Marker::Project(Ecosystem::Python);
    assert!(marker_present(&m, &listing(vec![file("requirements.txt")])));
    assert!(marker_present(&m, &listing(vec![file("setup.py")])));
    assert!(marker_present(&m, &listing(vec![file("tool.py")])));
    assert!(!marker_present(&m, &listing(vec![dir("pkg.py")])));
    assert!(!marker_present(&m, &listing(vec![file(".py"), file("README")])));
}

#[test]
fn go_marker_accepts_mod_or_src() {
    let m = Marker::Project(Ecosystem::Go);
    assert!(marker_present(&m, &listing(vec![file("go.mod")])));
    assert!(marker_present(&m, &listing(vec![dir("src")])));
    assert!(!marker_present(&m, &listing(vec![file("main.go")])));
}

#[test]
fn top_level_python_file_check() {
    assert!(has_python_file_in_top_level(&listing(vec![dir("a"), file("b.py")])));
    assert!(!has_python_file_in_top_level(&listing(vec![file("b.pyc"), dir("c.py")])));
    assert!(!has_python_file_in_top_level(&empty()));
    assert!(has_file_with_extension(&listing(vec![file("x.go")]), "go"));
}

#[test]
fn locate_prefers_the_closest_directory() {
    let chain = vec![
        listing(vec![file("go.mod")]),
        empty(),
        listing(vec![file("go.mod")]),
    ];
    assert_eq!(find_go_project(&chain), Some(0));
    let chain = vec![empty(), listing(vec![file("go.mod")]), listing(vec![file("go.mod")])];
    assert_eq!(find_go_project(&chain), Some(1));
}

#[test]
fn locate_looks_at_two_ancestors_at_most() {
    let chain = vec![empty(), empty(), listing(vec![file("project_info.toml")])];
    assert_eq!(find_project_info_toml(&chain), Some(2));
    let chain = vec![empty(), empty(), empty(), listing(vec![file("project_info.toml")])];
    assert_eq!(find_project_info_toml(&chain), None);
}

#[test]
fn locate_stops_at_filesystem_root() {
    let chain = vec![empty(), empty()];
    assert_eq!(locate(&Marker::ProjectInfo, &chain), None);
    assert_eq!(locate(&Marker::ProjectInfo, &vec![]), None);
}

#[test]
fn rust_project_found_in_parent() {
    let chain = vec![
        listing(vec![file("main.rs")]),
        listing(vec![file("Cargo.toml"), dir("src")]),
    ];
    assert_eq!(find_rust_project(&chain), Some(1));
    assert_eq!(find_python_project(&chain), None);
}

#[test]
fn detection_follows_priority_order() {
    let chain = vec![
        listing(vec![file("setup.py"), dir("src")]),
        listing(vec![file("Cargo.toml"), dir("src")]),
    ];
    let found = detect_project(&chain);
    assert!(matches!(found, Some((Ecosystem::Rust, 1))));
    let chain = vec![listing(vec![file("setup.py"), dir("src")])];
    assert!(matches!(detect_project(&chain), Some((Ecosystem::Python, 0))));
    let chain = vec![listing(vec![dir("src")])];
    assert!(matches!(detect_project(&chain), Some((Ecosystem::Go, 0))));
}

#[test]
fn no_marker_within_three_levels_detects_nothing() {
    let chain = vec![
        listing(vec![file("README.md")]),
        listing(vec![dir("docs")]),
        empty(),
        listing(vec![file("Cargo.toml"), dir("src"), file("go.mod")]),
    ];
    assert!(detect_project(&chain).is_none());
    assert_eq!(find_project_info_toml(&chain), None);
}

#[test]
fn ecosystem_extensions() {
    assert_eq!(Ecosystem::Rust.extension(), "rs");
    assert_eq!(Ecosystem::Python.extension(), "py");
    assert_eq!(Ecosystem::Go.extension(), "go");
    assert_eq!(Ecosystem::Go.display_name(), "Go");
}

#[test]
fn empty_chain_detects_nothing() {
    assert!(detect_project(&vec![]).is_none());
    assert_eq!(Ecosystem::Rust.display_name(), "Rust");
    assert_eq!(Ecosystem::Python.display_name(), "Python");
}
