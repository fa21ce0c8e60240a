use grabber::text::{has_extension, same_text, text_lt};

#[test]
fn extension_matches_plain_name() {
    assert!(has_extension("main.rs", "rs"));
    assert!(has_extension("archive.tar.rs", "rs"));
    assert!(has_extension("a.py", "py"));
}

#[test]
fn extension_is_case_sensitive() {
    assert!(!has_extension("main.RS", "rs"));
}

#[test]
fn extension_needs_a_dot_after_the_first_character() {
    assert!(!has_extension("rs", "rs"));
    assert!(!has_extension(".rs", "rs"));
    assert!(!has_extension("..", ""));
    assert!(has_extension("..rs", "rs"));
}

#[test]
fn extension_is_the_text_after_the_last_dot() {
    assert!(!has_extension("main.rs.bak", "rs"));
    assert!(has_extension("name.", ""));
    assert!(!has_extension("main.rs", "s"));
}

#[test]
fn extension_of_non_ascii_name() {
    assert!(has_extension("données.py", "py"));
    assert!(has_extension("файл.go", "go"));
}

#[test]
fn same_text_compares_characters() {
    assert!(same_text("Cargo.toml", "Cargo.toml"));
    assert!(!same_text("Cargo.toml", "cargo.toml"));
    assert!(!same_text("src", "src/"));
    assert!(same_text("", ""));
}

#[test]
fn text_order_is_by_code_point() {
    assert!(text_lt("a", "b"));
    assert!(text_lt("B", "a"));
    assert!(text_lt("a", "ab"));
    assert!(!text_lt("ab", "a"));
    assert!(!text_lt("a", "a"));
    assert!(text_lt("z", "é"));
}
