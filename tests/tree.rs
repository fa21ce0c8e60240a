use grabber::tree::FileNode;

fn comps(parts: &[&str]) -> Vec<String> {
    parts.iter().map(|p| p.to_string()).collect()
}

fn names(node: &FileNode) -> Vec<String> {
    node.children.iter().map(|c| c.name.clone()).collect()
}

#[test]
fn new_node_has_name_and_no_children() {
    let n = FileNode::new("root");
    assert_eq!(n.name, "root");
    assert!(n.children.is_empty());
}

#[test]
fn insert_empty_path_changes_nothing() {
    let mut n = FileNode::new("");
    n.insert(&[]);
    assert!(n.children.is_empty());
}

#[test]
fn insert_builds_chain() {
    let mut n = FileNode::new("");
    n.insert(&comps(&["a", "b", "c.rs"]));
    assert_eq!(names(&n), vec!["a"]);
    assert_eq!(names(&n.children[0]), vec!["b"]);
    assert_eq!(names(&n.children[0].children[0]), vec!["c.rs"]);
    assert!(n.children[0].children[0].children[0].children.is_empty());
}

#[test]
fn insert_order_does_not_change_shape() {
    let mut x = FileNode::new("");
    x.insert(&comps(&["a", "b"]));
    x.insert(&comps(&["a", "c"]));
    let mut y = FileNode::new("");
    y.insert(&comps(&["a", "c"]));
    y.insert(&comps(&["a", "b"]));
    assert_eq!(names(&x), vec!["a"]);
    assert_eq!(names(&y), vec!["a"]);
    assert_eq!(names(&x.children[0]), vec!["b", "c"]);
    assert_eq!(names(&y.children[0]), vec!["b", "c"]);
    assert_eq!(x.print_lines(0), y.print_lines(0));
}

#[test]
fn children_are_kept_in_name_order() {
    let mut n = FileNode::new("");
    for p in ["zeta.rs", "Alpha.rs", "mid.rs", "alpha.rs", "mid.rs"] {
        n.insert(&comps(&[p]));
    }
    assert_eq!(names(&n), vec!["Alpha.rs", "alpha.rs", "mid.rs", "zeta.rs"]);
}

#[test]
fn prefix_names_order_before_longer_ones() {
    let mut n = FileNode::new("");
    n.insert(&comps(&["ab"]));
    n.insert(&comps(&["a"]));
    n.insert(&comps(&["b"]));
    assert_eq!(names(&n), vec!["a", "ab", "b"]);
}

#[test]
fn print_skips_root_and_indents_by_depth() {
    let mut n = FileNode::new("root");
    n.insert(&comps(&["a", "b", "c"]));
    n.insert(&comps(&["d"]));
    assert_eq!(n.print_lines(0), vec!["a", "  b", "    c", "d"]);
    assert_eq!(n.print_lines(1), vec!["root", "  a", "    b", "      c", "  d"]);
}

#[test]
fn print_of_lone_root_is_empty() {
    let n = FileNode::new("");
    assert!(n.print_lines(0).is_empty());
}

#[test]
fn tree_of_main_and_lib_util() {
    let mut n = FileNode::new("");
    n.insert(&comps(&["main.rs"]));
    n.insert(&comps(&["lib", "util.rs"]));
    assert_eq!(n.print_lines(0), vec!["lib", "  util.rs", "main.rs"]);
}
