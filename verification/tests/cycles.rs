use git_sync::debounce::Debouncer;
use git_sync::engine::{FetchResult, RepoModel, SyncOutcome};
use git_sync::errors::SyncError;
use git_sync::tree::Tree;

fn outcome(committed: bool, pushed: bool, conflict: bool) -> SyncOutcome {
    SyncOutcome {
        committed,
        pushed,
        conflict,
    }
}

#[test]
fn setup_creates_one_initial_commit() {
    let repo = RepoModel::setup(String::from("A"), String::from("a@x"));
    assert_eq!(repo.commits.len(), 1);
    assert_eq!(repo.commits[0].parents, Vec::<usize>::new());
    assert_eq!(repo.commits[0].tree.entries.len(), 0);
    assert_eq!(repo.commits[0].message, "Initial commit");
    assert_eq!(repo.branch, Some(0));
    assert_eq!(repo.author_name, "A");
    assert_eq!(repo.author_email, "a@x");
}

#[test]
fn no_op_cycle_without_drift() {
    let mut repo = RepoModel::setup(String::from("A"), String::from("a@x"));
    let r = repo.sync_cycle(FetchResult::NoRemoteTip);
    assert_eq!(r, Ok(outcome(false, false, false)));
    assert_eq!(repo.commits.len(), 1);
}

#[test]
fn deleting_a_tracked_file_commits_its_removal() {
    let mut repo = RepoModel::init(String::from("A"), String::from("a@x"));
    repo.worktree.set("f.txt", 7);
    let r = repo.sync_cycle(FetchResult::NoRemoteTip);
    assert_eq!(r, Ok(outcome(true, true, false)));
    assert_eq!(repo.commits.len(), 1);
    assert_eq!(repo.commits[0].tree.get("f.txt"), Some(7));

    // An external process deletes the file; one watch cycle commits a tree
    // without it, under a message that references the removal.
    repo.worktree.remove("f.txt");
    let r = repo.sync_cycle(FetchResult::NoRemoteTip);
    assert_eq!(r, Ok(outcome(true, true, false)));
    assert_eq!(repo.commits.len(), 2);
    let last = &repo.commits[1];
    assert_eq!(last.tree.get("f.txt"), None);
    assert!(last.message.contains("Remove f.txt"));
    assert_eq!(last.parents, vec![0]);
}

#[test]
fn credential_failure_aborts_cycle_unchanged() {
    let mut repo = RepoModel::setup(String::from("A"), String::from("a@x"));
    repo.worktree.set("x", 1);
    let r = repo.sync_cycle(FetchResult::CredentialFailure);
    assert_eq!(r, Err(SyncError::Credential));
    assert_eq!(repo.commits.len(), 1);
    assert_eq!(repo.index.get("x"), None);
}

#[test]
fn transport_failure_aborts_cycle_unchanged() {
    let mut repo = RepoModel::setup(String::from("A"), String::from("a@x"));
    repo.worktree.set("x", 1);
    let r = repo.sync_cycle(FetchResult::TransportFailure);
    assert_eq!(r, Err(SyncError::Backend));
    assert_eq!(repo.commits.len(), 1);
}

/// Builds a repository whose branch stands at commit 0 while commit 1,
/// descending from it, is the remote tip.
fn repo_behind_remote() -> RepoModel {
    let mut repo = RepoModel::init(String::from("A"), String::from("a@x"));
    repo.worktree.set("shared.txt", 1);
    repo.sync_cycle(FetchResult::NoRemoteTip).unwrap();
    // The remote holds one more commit on top.
    repo.worktree.set("remote.txt", 2);
    repo.sync_cycle(FetchResult::NoRemoteTip).unwrap();
    // Rewind the local branch to the older commit.
    repo.branch = Some(0);
    repo.checkout_commit(0);
    repo
}

#[test]
fn fast_forward_moves_branch_and_worktree_to_remote_tip() {
    let mut repo = repo_behind_remote();
    // Local drift that the forced checkout overwrites.
    repo.worktree.set("scratch.txt", 9);
    let r = repo.sync_cycle(FetchResult::Tip(1));
    assert_eq!(r, Ok(outcome(false, true, false)));
    assert_eq!(repo.branch, Some(1));
    assert_eq!(repo.remote_branch, Some(1));
    // The working tree matches the remote tip's tree exactly.
    assert_eq!(repo.worktree.get("shared.txt"), Some(1));
    assert_eq!(repo.worktree.get("remote.txt"), Some(2));
    assert_eq!(repo.worktree.get("scratch.txt"), None);
    assert_eq!(repo.worktree.len(), repo.commits[1].tree.len());
    assert_eq!(repo.commits.len(), 2);
}

/// Builds a repository with a fork: commit 0 is the base, commit 1 the
/// local tip and commit 2 the remote tip, with the given trees.
fn forked_repo(
    base: &[(&str, u64)],
    local: &[(&str, u64)],
    remote: &[(&str, u64)],
) -> RepoModel {
    let mut repo = RepoModel::init(String::from("A"), String::from("a@x"));
    for (p, b) in base {
        repo.worktree.set(p, *b);
    }
    repo.sync_cycle(FetchResult::NoRemoteTip).unwrap();
    repo.worktree = Tree::empty();
    for (p, b) in local {
        repo.worktree.set(p, *b);
    }
    repo.sync_cycle(FetchResult::NoRemoteTip).unwrap();
    // Build the remote side on top of the base.
    repo.branch = Some(0);
    repo.checkout_commit(0);
    repo.worktree = Tree::empty();
    for (p, b) in remote {
        repo.worktree.set(p, *b);
    }
    repo.sync_cycle(FetchResult::NoRemoteTip).unwrap();
    // Stand on the local tip again, clean.
    repo.branch = Some(1);
    repo.checkout_commit(1);
    repo
}

#[test]
fn diverged_without_conflicts_creates_a_two_parent_merge_commit() {
    let mut repo = forked_repo(
        &[("a.txt", 1)],
        &[("a.txt", 1), ("local.txt", 2)],
        &[("a.txt", 1), ("remote.txt", 3)],
    );
    // Some drift, so the cycle runs.
    repo.worktree.set("scratch.txt", 9);
    let r = repo.sync_cycle(FetchResult::Tip(2));
    assert_eq!(r, Ok(outcome(true, true, false)));
    assert_eq!(repo.commits.len(), 4);
    let merge = &repo.commits[3];
    assert_eq!(merge.parents, vec![1, 2]);
    // The merged tree is the conflict-free merge of both sides.
    assert_eq!(merge.tree.get("a.txt"), Some(1));
    assert_eq!(merge.tree.get("local.txt"), Some(2));
    assert_eq!(merge.tree.get("remote.txt"), Some(3));
    assert_eq!(merge.tree.len(), 3);
    assert_eq!(repo.branch, Some(3));
    assert_eq!(repo.remote_branch, Some(3));
    assert_eq!(repo.worktree.get("remote.txt"), Some(3));
}

#[test]
fn diverged_with_conflicts_halts_without_committing() {
    let mut repo = forked_repo(
        &[("f.txt", 1)],
        &[("f.txt", 2)],
        &[("f.txt", 3)],
    );
    repo.worktree.set("scratch.txt", 9);
    let commits_before = repo.commits.len();
    let r = repo.sync_cycle(FetchResult::Tip(2));
    assert_eq!(r, Ok(outcome(false, false, true)));
    assert_eq!(repo.commits.len(), commits_before);
    assert_eq!(repo.branch, Some(1));
    let listed: Vec<&str> = repo.conflicts.iter().map(|s| s.as_str()).collect();
    assert_eq!(listed, vec!["f.txt"]);
    // A further trigger does not attempt another merge while the conflict
    // stands.
    let r2 = repo.sync_cycle(FetchResult::Tip(2));
    assert_eq!(r2, Ok(outcome(false, false, true)));
    assert_eq!(repo.commits.len(), commits_before);
    // Once the conflicts are cleared, cycles run again.
    repo.conflicts.clear();
    let r3 = repo.sync_cycle(FetchResult::NoRemoteTip);
    assert_eq!(r3, Ok(outcome(true, true, false)));
}

#[test]
fn one_quiet_period_yields_one_trigger_and_one_commit_for_both_changes() {
    // Two raw events inside one quiet period: only the second deadline
    // fires, once.
    let mut watcher = Debouncer::new(10);
    watcher.note_event(0); // a.txt added
    watcher.note_event(4); // b.txt deleted
    assert!(!watcher.poll(9));
    assert!(!watcher.poll(13));
    assert!(watcher.poll(14));
    assert!(!watcher.poll(15));

    // The one cycle that the trigger drives commits both changes, and its
    // message reflects both.
    let mut repo = RepoModel::init(String::from("A"), String::from("a@x"));
    repo.worktree.set("b.txt", 1);
    repo.sync_cycle(FetchResult::NoRemoteTip).unwrap();
    repo.worktree.set("a.txt", 2);
    repo.worktree.remove("b.txt");
    let r = repo.sync_cycle(FetchResult::NoRemoteTip);
    assert_eq!(r, Ok(outcome(true, true, false)));
    let last = repo.commits.last().unwrap();
    assert_eq!(
        last.message,
        "Add changes from a.txt to the repository\nRemove b.txt from the repository\n"
    );
    assert_eq!(last.tree.get("a.txt"), Some(2));
    assert_eq!(last.tree.get("b.txt"), None);
}

#[test]
fn unborn_local_branch_takes_remote_tip_as_basis() {
    // The graph already holds the fetched remote commit, but the local
    // branch has no history of its own yet.
    let mut repo = RepoModel::init(String::from("A"), String::from("a@x"));
    repo.worktree.set("remote.txt", 3);
    repo.sync_cycle(FetchResult::NoRemoteTip).unwrap();
    repo.branch = None;
    repo.worktree = Tree::empty();
    repo.index = Tree::empty();
    repo.worktree.set("local.txt", 1);
    let r = repo.sync_cycle(FetchResult::Tip(0));
    assert_eq!(r, Ok(outcome(false, true, false)));
    assert_eq!(repo.branch, Some(0));
    assert_eq!(repo.worktree.get("remote.txt"), Some(3));
    assert_eq!(repo.worktree.get("local.txt"), None);
}

#[test]
fn up_to_date_remote_still_commits_local_drift() {
    let mut repo = repo_behind_remote();
    // Stand on the newer commit; the remote tip 0 is behind us.
    repo.branch = Some(1);
    repo.checkout_commit(1);
    repo.worktree.set("new.txt", 5);
    let r = repo.sync_cycle(FetchResult::Tip(0));
    assert_eq!(r, Ok(outcome(true, true, false)));
    let last = repo.commits.last().unwrap();
    assert_eq!(last.parents, vec![1]);
    assert_eq!(last.tree.get("new.txt"), Some(5));
    assert_eq!(repo.remote_branch, Some(2));
}
