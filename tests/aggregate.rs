use grabber::aggregate::{aggregate, build_tree, format_record, select_sources, SourceFile, WalkEntry};
use grabber::locate::{find_rust_project, DirEntryInfo, DirListing, EntryKind};

fn entry(root: &str, rel: &[&str], is_file: bool) -> WalkEntry {
    let mut path = root.to_string();
    for r in rel {
        path.push('/');
        path.push_str(r);
    }
    WalkEntry {
        path,
        file_name: rel.last().map(|s| s.to_string()).unwrap_or_else(|| root.to_string()),
        relative: rel.iter().map(|s| s.to_string()).collect(),
        is_file,
    }
}

fn paths(files: &[SourceFile]) -> Vec<String> {
    files.iter().map(|f| f.path.clone()).collect()
}

#[test]
fn record_format_is_exact() {
    assert_eq!(format_record("/p/a.rs", "fn a() {}"), "=== /p/a.rs ===\nfn a() {}\n\n");
    assert_eq!(format_record("x", ""), "=== x ===\n\n\n");
}

#[test]
fn selection_keeps_regular_files_with_extension_in_walk_order() {
    let entries = vec![
        entry("/p", &[], false),
        entry("/p", &["main.rs"], true),
        entry("/p", &["lib"], false),
        entry("/p", &["lib", "util.rs"], true),
        entry("/p", &["lib", "notes.txt"], true),
        entry("/p", &["dir.rs"], false),
        entry("/p", &["UP.RS"], true),
    ];
    let files = select_sources(&entries, "rs");
    assert_eq!(paths(&files), vec!["/p/main.rs", "/p/lib/util.rs"]);
    assert_eq!(files[1].relative, vec!["lib", "util.rs"]);
}

#[test]
fn main_and_lib_util_scenario() {
    let entries = vec![
        entry("/p", &[], false),
        entry("/p", &["main.rs"], true),
        entry("/p", &["lib"], false),
        entry("/p", &["lib", "util.rs"], true),
    ];
    let files = select_sources(&entries, "rs");
    let tree = build_tree(&files);
    assert_eq!(tree.name, "");
    assert_eq!(tree.print_lines(0), vec!["lib", "  util.rs", "main.rs"]);
    let contents = vec!["fn main() {}".to_string(), "pub fn u() {}".to_string()];
    let text = aggregate(&files, &contents);
    assert_eq!(
        text,
        "=== /p/main.rs ===\nfn main() {}\n\n=== /p/lib/util.rs ===\npub fn u() {}\n\n"
    );
}

#[test]
fn single_file_block_occurs_once() {
    let entries = vec![entry("/r", &["only.py"], true)];
    let files = select_sources(&entries, "py");
    let text = aggregate(&files, &vec!["print(1)\n".to_string()]);
    let block = "=== /r/only.py ===\nprint(1)\n\n\n";
    assert_eq!(text, block);
    assert_eq!(text.matches(block).count(), 1);
}

#[test]
fn aggregation_twice_is_identical() {
    let entries = vec![entry("/r", &["a.go"], true), entry("/r", &["b", "c.go"], true)];
    let contents = vec!["package a".to_string(), "package c".to_string()];
    let first = aggregate(&select_sources(&entries, "go"), &contents);
    let second = aggregate(&select_sources(&entries, "go"), &contents);
    assert_eq!(first, second);
    assert!(!first.is_empty());
}

#[test]
fn no_matching_files_gives_empty_text() {
    let entries = vec![entry("/r", &["a.txt"], true), entry("/r", &["src"], false)];
    let files = select_sources(&entries, "rs");
    assert!(files.is_empty());
    assert_eq!(aggregate(&files, &vec![]), "");
    assert!(build_tree(&files).print_lines(0).is_empty());
}

#[test]
fn empty_file_still_gives_a_block() {
    let entries = vec![entry("/r", &["e.rs"], true)];
    let files = select_sources(&entries, "rs");
    assert_eq!(aggregate(&files, &vec![String::new()]), "=== /r/e.rs ===\n\n\n");
}

#[test]
fn manifest_and_src_without_sources_aggregates_nothing() {
    let chain = vec![DirListing {
        entries: vec![
            DirEntryInfo { name: "Cargo.toml".to_string(), kind: EntryKind::File },
            DirEntryInfo { name: "src".to_string(), kind: EntryKind::Dir },
        ],
    }];
    assert_eq!(find_rust_project(&chain), Some(0));
    let entries = vec![
        entry("/p", &[], false),
        entry("/p", &["Cargo.toml"], true),
        entry("/p", &["src"], false),
        entry("/p", &["src", "README.md"], true),
    ];
    let files = select_sources(&entries, "rs");
    assert!(files.is_empty());
    assert_eq!(aggregate(&files, &vec![]), "");
}
