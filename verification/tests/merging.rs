use git_sync::merge::merge_trees;
use git_sync::tree::Tree;

fn tree(entries: &[(&str, u64)]) -> Tree {
    let mut t = Tree::empty();
    for (p, b) in entries {
        t.set(p, *b);
    }
    t
}

#[test]
fn merge_keeps_agreement_and_unchanged_sides() {
    let base = tree(&[("a", 1), ("b", 2), ("c", 3)]);
    let local = tree(&[("a", 1), ("b", 9), ("c", 3)]);
    let remote = tree(&[("a", 1), ("b", 2), ("c", 8)]);
    let (merged, conflicts) = merge_trees(&base, &local, &remote);
    assert!(conflicts.is_empty());
    assert_eq!(merged.get("a"), Some(1));
    assert_eq!(merged.get("b"), Some(9));
    assert_eq!(merged.get("c"), Some(8));
    assert_eq!(merged.len(), 3);
}

#[test]
fn merge_takes_additions_from_either_side() {
    let base = tree(&[]);
    let local = tree(&[("only-local", 1)]);
    let remote = tree(&[("only-remote", 2)]);
    let (merged, conflicts) = merge_trees(&base, &local, &remote);
    assert!(conflicts.is_empty());
    assert_eq!(merged.get("only-local"), Some(1));
    assert_eq!(merged.get("only-remote"), Some(2));
}

#[test]
fn merge_honors_deletion_by_one_side() {
    let base = tree(&[("gone-local", 1), ("gone-remote", 2), ("kept", 3)]);
    let local = tree(&[("gone-remote", 2), ("kept", 3)]);
    let remote = tree(&[("gone-local", 1), ("kept", 3)]);
    let (merged, conflicts) = merge_trees(&base, &local, &remote);
    assert!(conflicts.is_empty());
    assert_eq!(merged.get("gone-local"), None);
    assert_eq!(merged.get("gone-remote"), None);
    assert_eq!(merged.get("kept"), Some(3));
    assert_eq!(merged.len(), 1);
}

#[test]
fn merge_conflicts_on_divergent_edits() {
    let base = tree(&[("f", 1)]);
    let local = tree(&[("f", 2)]);
    let remote = tree(&[("f", 3)]);
    let (merged, conflicts) = merge_trees(&base, &local, &remote);
    let listed: Vec<&str> = conflicts.iter().map(|s| s.as_str()).collect();
    assert_eq!(listed, vec!["f"]);
    assert_eq!(merged.get("f"), None);
}

#[test]
fn merge_conflicts_on_edit_against_delete() {
    let base = tree(&[("f", 1)]);
    let local = tree(&[("f", 2)]);
    let remote = tree(&[]);
    let (_, conflicts) = merge_trees(&base, &local, &remote);
    let listed: Vec<&str> = conflicts.iter().map(|s| s.as_str()).collect();
    assert_eq!(listed, vec!["f"]);
}

#[test]
fn merge_conflicts_on_divergent_additions() {
    let base = tree(&[]);
    let local = tree(&[("new", 1)]);
    let remote = tree(&[("new", 2)]);
    let (_, conflicts) = merge_trees(&base, &local, &remote);
    let listed: Vec<&str> = conflicts.iter().map(|s| s.as_str()).collect();
    assert_eq!(listed, vec!["new"]);
}

#[test]
fn merge_accepts_identical_changes_on_both_sides() {
    let base = tree(&[("f", 1)]);
    let local = tree(&[("f", 5)]);
    let remote = tree(&[("f", 5)]);
    let (merged, conflicts) = merge_trees(&base, &local, &remote);
    assert!(conflicts.is_empty());
    assert_eq!(merged.get("f"), Some(5));
}

#[test]
fn merge_drops_paths_deleted_by_both_sides() {
    let base = tree(&[("f", 1)]);
    let local = tree(&[]);
    let remote = tree(&[]);
    let (merged, conflicts) = merge_trees(&base, &local, &remote);
    assert!(conflicts.is_empty());
    assert_eq!(merged.len(), 0);
}
