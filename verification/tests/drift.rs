use git_sync::change::{apply_batch, classify_status, diff, ChangeKind, RawStatus};
use git_sync::errors::SyncError;
use git_sync::message::build_commit_message;
use git_sync::tree::Tree;

#[test]
fn classify_status_recognizes_worktree_states() {
    assert_eq!(classify_status(RawStatus::WorktreeNew), Ok(ChangeKind::Added));
    assert_eq!(
        classify_status(RawStatus::WorktreeModified),
        Ok(ChangeKind::Modified)
    );
    assert_eq!(
        classify_status(RawStatus::WorktreeDeleted),
        Ok(ChangeKind::Deleted)
    );
}

#[test]
fn classify_status_refuses_unrecognized_states() {
    assert_eq!(
        classify_status(RawStatus::Other),
        Err(SyncError::UnclassifiedStatus)
    );
}

#[test]
fn sync_errors_describe_themselves() {
    assert_eq!(SyncError::Backend.describe(), "backend operation failed");
    assert_eq!(SyncError::Credential.describe(), "credential acquisition failed");
    assert_eq!(
        SyncError::UnclassifiedStatus.describe(),
        "unrecognized working-tree status"
    );
}

#[test]
fn diff_classifies_each_path() {
    let mut worktree = Tree::empty();
    worktree.set("a.txt", 1);
    worktree.set("b.txt", 2);
    let mut index = Tree::empty();
    index.set("b.txt", 3);
    index.set("c.txt", 4);
    let batch = diff(&worktree, &index);
    let got: Vec<(&str, ChangeKind)> = batch
        .records
        .iter()
        .map(|r| (r.path.as_str(), r.kind))
        .collect();
    assert_eq!(
        got,
        vec![
            ("a.txt", ChangeKind::Added),
            ("b.txt", ChangeKind::Modified),
            ("c.txt", ChangeKind::Deleted),
        ]
    );
}

#[test]
fn diff_ignores_unchanged_paths() {
    let mut worktree = Tree::empty();
    worktree.set("same.txt", 5);
    worktree.set("new.txt", 6);
    let mut index = Tree::empty();
    index.set("same.txt", 5);
    let batch = diff(&worktree, &index);
    assert_eq!(batch.len(), 1);
    assert_eq!(batch.records[0].path.as_str(), "new.txt");
}

#[test]
fn diff_empty_exactly_when_equal() {
    let mut worktree = Tree::empty();
    worktree.set("a", 1);
    let mut index = Tree::empty();
    index.set("a", 1);
    assert!(diff(&worktree, &index).is_empty());
    index.set("a", 2);
    assert!(!diff(&worktree, &index).is_empty());
}

#[test]
fn staging_the_drift_matches_index_to_worktree() {
    let mut worktree = Tree::empty();
    worktree.set("a", 1);
    worktree.set("b", 2);
    let mut index = Tree::empty();
    index.set("b", 9);
    index.set("c", 3);
    let batch = diff(&worktree, &index);
    apply_batch(&mut index, &batch, &worktree);
    assert_eq!(index.get("a"), Some(1));
    assert_eq!(index.get("b"), Some(2));
    assert_eq!(index.get("c"), None);
    assert_eq!(index.len(), 2);
}

#[test]
fn staging_twice_equals_staging_once() {
    let mut worktree = Tree::empty();
    worktree.set("a", 1);
    worktree.set("d", 4);
    let mut index = Tree::empty();
    index.set("a", 7);
    index.set("gone", 8);
    let batch = diff(&worktree, &index);
    apply_batch(&mut index, &batch, &worktree);
    let after_once: Vec<(String, u64)> = index
        .entries
        .iter()
        .map(|e| (e.path.clone(), e.blob))
        .collect();
    apply_batch(&mut index, &batch, &worktree);
    let after_twice: Vec<(String, u64)> = index
        .entries
        .iter()
        .map(|e| (e.path.clone(), e.blob))
        .collect();
    assert_eq!(after_once, after_twice);
}

#[test]
fn commit_message_names_every_change() {
    let mut worktree = Tree::empty();
    worktree.set("a.txt", 1);
    let mut index = Tree::empty();
    index.set("b.txt", 2);
    let batch = diff(&worktree, &index);
    let msg = build_commit_message(&batch);
    assert_eq!(
        msg,
        "Add changes from a.txt to the repository\nRemove b.txt from the repository\n"
    );
}

#[test]
fn commit_message_of_empty_batch_is_empty() {
    let worktree = Tree::empty();
    let index = Tree::empty();
    let batch = diff(&worktree, &index);
    assert_eq!(build_commit_message(&batch), "");
}
