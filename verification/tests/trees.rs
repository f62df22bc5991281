use git_sync::order::{path_compare, PathOrder};
use git_sync::tree::Tree;

#[test]
fn path_compare_orders_lexicographically() {
    assert_eq!(path_compare("a.txt", "b.txt"), PathOrder::Before);
    assert_eq!(path_compare("b.txt", "a.txt"), PathOrder::After);
    assert_eq!(path_compare("a.txt", "a.txt"), PathOrder::Same);
    assert_eq!(path_compare("a", "a.txt"), PathOrder::Before);
    assert_eq!(path_compare("a.txt", "a"), PathOrder::After);
    assert_eq!(path_compare("", "a"), PathOrder::Before);
    assert_eq!(path_compare("", ""), PathOrder::Same);
}

#[test]
fn tree_set_get_remove() {
    let mut t = Tree::empty();
    assert_eq!(t.get("a.txt"), None);
    t.set("a.txt", 1);
    t.set("b.txt", 2);
    assert_eq!(t.get("a.txt"), Some(1));
    assert_eq!(t.get("b.txt"), Some(2));
    t.set("a.txt", 9);
    assert_eq!(t.get("a.txt"), Some(9));
    assert_eq!(t.len(), 2);
    t.remove("a.txt");
    assert_eq!(t.get("a.txt"), None);
    assert_eq!(t.get("b.txt"), Some(2));
    t.remove("missing.txt");
    assert_eq!(t.len(), 1);
}

#[test]
fn tree_entries_stay_sorted() {
    let mut t = Tree::empty();
    t.set("c", 3);
    t.set("a", 1);
    t.set("b", 2);
    let paths: Vec<&str> = t.entries.iter().map(|e| e.path.as_str()).collect();
    assert_eq!(paths, vec!["a", "b", "c"]);
}

#[test]
fn tree_duplicate_is_equal_and_independent() {
    let mut t = Tree::empty();
    t.set("a", 1);
    let mut d = t.duplicate();
    assert_eq!(d.get("a"), Some(1));
    d.set("a", 2);
    assert_eq!(t.get("a"), Some(1));
    assert_eq!(d.get("a"), Some(2));
}
