use git_sync::history::{is_ancestor, merge_analysis, merge_base, Commit, MergeAnalysis};
use git_sync::tree::Tree;

fn commit(parents: Vec<usize>) -> Commit {
    Commit {
        parents,
        tree: Tree::empty(),
        message: String::from("x"),
    }
}

/// A graph with a root, a local chain and a remote chain:
/// 0 <- 1 <- 2 (local side), 0 <- 3 <- 4 (remote side).
fn forked_graph() -> Vec<Commit> {
    vec![
        commit(vec![]),
        commit(vec![0]),
        commit(vec![1]),
        commit(vec![0]),
        commit(vec![3]),
    ]
}

#[test]
fn ancestry_follows_parent_edges() {
    let g = forked_graph();
    assert!(is_ancestor(&g, 0, 2));
    assert!(is_ancestor(&g, 1, 2));
    assert!(is_ancestor(&g, 2, 2));
    assert!(is_ancestor(&g, 0, 4));
    assert!(!is_ancestor(&g, 1, 4));
    assert!(!is_ancestor(&g, 3, 2));
    assert!(!is_ancestor(&g, 2, 1));
}

#[test]
fn merge_base_is_the_fork_point() {
    let g = forked_graph();
    assert_eq!(merge_base(&g, 2, 4), Some(0));
    assert_eq!(merge_base(&g, 2, 1), Some(1));
    assert_eq!(merge_base(&g, 2, 2), Some(2));
}

#[test]
fn merge_base_none_for_unrelated_roots() {
    let g = vec![commit(vec![]), commit(vec![])];
    assert_eq!(merge_base(&g, 0, 1), None);
}

#[test]
fn analysis_up_to_date_when_tips_equal() {
    let g = forked_graph();
    assert_eq!(merge_analysis(&g, Some(2), 2), MergeAnalysis::UpToDate);
}

#[test]
fn analysis_up_to_date_when_remote_is_behind() {
    let g = forked_graph();
    assert_eq!(merge_analysis(&g, Some(2), 1), MergeAnalysis::UpToDate);
}

#[test]
fn analysis_fast_forward_when_remote_is_strictly_ahead() {
    let g = forked_graph();
    assert_eq!(
        merge_analysis(&g, Some(1), 2),
        MergeAnalysis::FastForwardable(2)
    );
}

#[test]
fn analysis_unborn_without_local_tip() {
    let g = forked_graph();
    assert_eq!(merge_analysis(&g, None, 2), MergeAnalysis::Unborn);
}

#[test]
fn analysis_diverged_when_neither_contains_the_other() {
    let g = forked_graph();
    assert_eq!(
        merge_analysis(&g, Some(2), 4),
        MergeAnalysis::Diverged(2, 4)
    );
}

/// A local branch three commits ahead of the fork and a remote two commits
/// ahead of it share only the fork: both sides hold unique commits, so the
/// analysis must report divergence, not a fast-forward.
#[test]
fn analysis_diverged_when_both_sides_are_ahead() {
    let g = vec![
        commit(vec![]),
        commit(vec![0]),
        commit(vec![1]),
        commit(vec![2]),
        commit(vec![0]),
        commit(vec![4]),
    ];
    assert_eq!(
        merge_analysis(&g, Some(3), 5),
        MergeAnalysis::Diverged(3, 5)
    );
    assert_eq!(merge_base(&g, 3, 5), Some(0));
}
