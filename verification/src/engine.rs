//! The synchronization engine.
//!
//! [`RepoModel`] is the engine's view of one repository: the commit graph,
//! the branch tips, the staging index, the working tree, the recorded
//! author identity, and any unresolved conflict paths. One call to
//! [`RepoModel::sync_cycle`] performs a whole cycle — scan, fetch result in
//! hand, analyze, merge, stage, commit, push — and its contract pins down
//! every transition the cycle may take.

use vstd::prelude::*;
use vstd::string::StringExecFns;

use crate::change::apply_batch;
use crate::change::diff;
use crate::change::is_drift;
use crate::change::lemma_stage_drift;
use crate::change::records_sorted;
use crate::change::ChangeRecord;
use crate::errors::SyncError;
use crate::history::commits_wf;
use crate::history::merge_analysis;
use crate::history::merge_base;
use crate::history::reaches;
use crate::history::Commit;
use crate::history::MergeAnalysis;
use crate::merge::conflict_listed;
use crate::merge::merge_conflict_at;
use crate::merge::merge_trees;
use crate::merge::merged_at;
use crate::message::build_commit_message;
use crate::message::message_of;
use crate::tree::Tree;

verus! {

/// `bc` is a merge base of `a` and `b`: a common ancestor above which no
/// common ancestor stands, or `None` when the histories share nothing.
pub open spec fn base_choice_ok(g: Seq<Commit>, a: int, b: int, bc: Option<usize>) -> bool {
    match bc {
        Some(c) => c < g.len() && reaches(g, a, c as int) && reaches(g, b, c as int) && forall|
            d: int,
        |
            c < d < g.len() ==> !(reaches(g, a, d) && reaches(g, b, d)),
        None => forall|d: int| 0 <= d < g.len() ==> !(reaches(g, a, d) && reaches(g, b, d)),
    }
}

/// The tree of the merge base; unrelated histories merge against nothing.
pub open spec fn base_map(g: Seq<Commit>, bc: Option<usize>) -> Map<Seq<char>, u64> {
    match bc {
        Some(c) => g[c as int].tree@,
        None => Map::empty(),
    }
}

/// The merge base is unique: any two valid choices agree.
pub proof fn lemma_base_choice_unique(
    g: Seq<Commit>,
    a: int,
    b: int,
    bc1: Option<usize>,
    bc2: Option<usize>,
)
    requires
        base_choice_ok(g, a, b, bc1),
        base_choice_ok(g, a, b, bc2),
    ensures
        bc1 == bc2,
{
    match (bc1, bc2) {
        (Some(c1), Some(c2)) => {
            if c1 < c2 {
                assert(!(reaches(g, a, c2 as int) && reaches(g, b, c2 as int)));
            } else if c2 < c1 {
                assert(!(reaches(g, a, c1 as int) && reaches(g, b, c1 as int)));
            }
        },
        (Some(c1), None) => {
            assert(!(reaches(g, a, c1 as int) && reaches(g, b, c1 as int)));
        },
        (None, Some(c2)) => {
            assert(!(reaches(g, a, c2 as int) && reaches(g, b, c2 as int)));
        },
        (None, None) => {},
    }
}

/// `msg` summarizes the drift that separates working tree `w` from index
/// `m`: it is the aggregated message of that drift's batch.
pub open spec fn summarizes_drift(
    msg: Seq<char>,
    w: Map<Seq<char>, u64>,
    m: Map<Seq<char>, u64>,
) -> bool {
    exists|recs: Seq<ChangeRecord>|
        records_sorted(recs) && #[trigger] is_drift(recs, w, m) && msg == message_of(recs)
}

/// What fetching from the remote produced.
#[derive(Clone, Copy, PartialEq, Eq, Structural, Debug)]
pub enum FetchResult {
    /// The remote branch tip, already entered in the commit graph.
    Tip(usize),
    /// The remote is reachable but its branch holds no commits yet.
    NoRemoteTip,
    /// Authentication failed; the cycle aborts.
    CredentialFailure,
    /// Transport failed; the cycle aborts.
    TransportFailure,
}

/// After a cycle with nothing to merge: the drift was staged, committed
/// with a message summarizing all of it, and pushed.
pub open spec fn quiet_cycle_post(
    pre: RepoModel,
    post: RepoModel,
    r: Result<SyncOutcome, SyncError>,
) -> bool {
    &&& r == Result::<SyncOutcome, SyncError>::Ok(
        SyncOutcome { committed: true, pushed: true, conflict: false },
    )
    &&& post.commits@.len() == pre.commits@.len() + 1
    &&& post.commits@[pre.commits@.len() as int].parents@ == match pre.branch {
        Some(l) => seq![l],
        None => Seq::<usize>::empty(),
    }
    &&& post.commits@[pre.commits@.len() as int].tree@ == pre.worktree@
    &&& summarizes_drift(
        post.commits@[pre.commits@.len() as int].message@,
        pre.worktree@,
        pre.index@,
    )
    &&& (post.branch matches Some(id) && id == pre.commits@.len())
    &&& post.remote_branch == post.branch
    &&& post.worktree@ == pre.worktree@
    &&& post.index@ == pre.worktree@
    &&& post.conflicts@.len() == 0
}

/// After a fast-forward cycle: the branch and the remote tracking state
/// stand at the remote tip, the working tree and index match its tree
/// exactly, and no commit was created.
pub open spec fn fast_forward_post(
    pre: RepoModel,
    post: RepoModel,
    r: Result<SyncOutcome, SyncError>,
    t: usize,
) -> bool {
    &&& r == Result::<SyncOutcome, SyncError>::Ok(
        SyncOutcome { committed: false, pushed: true, conflict: false },
    )
    &&& post.commits@ == pre.commits@
    &&& post.branch == Some(t)
    &&& post.remote_branch == Some(t)
    &&& post.worktree@ == pre.commits@[t as int].tree@
    &&& post.index@ == pre.commits@[t as int].tree@
    &&& post.conflicts@.len() == 0
}

/// After a cycle that found the tips diverged: for the merge base of the
/// two tips, either no path conflicts — then a merge commit with exactly
/// the two tips as parents carries the merged tree, is checked out and
/// pushed — or some path conflicts — then nothing is committed or pushed,
/// the conflicting paths are recorded, and the rest of the state is
/// untouched.
pub open spec fn diverged_post(
    pre: RepoModel,
    post: RepoModel,
    r: Result<SyncOutcome, SyncError>,
    l: usize,
    t: usize,
) -> bool {
    forall|bc: Option<usize>|
        #[trigger] base_choice_ok(pre.commits@, l as int, t as int, bc) ==> {
            let bm = base_map(pre.commits@, bc);
            let lt = pre.commits@[l as int].tree@;
            let rt = pre.commits@[t as int].tree@;
            &&& ((forall|q: Seq<char>| !(#[trigger] merge_conflict_at(bm, lt, rt, q))) ==> {
                &&& r == Result::<SyncOutcome, SyncError>::Ok(
                    SyncOutcome { committed: true, pushed: true, conflict: false },
                )
                &&& post.commits@.len() == pre.commits@.len() + 1
                &&& post.commits@[pre.commits@.len() as int].parents@ == seq![l, t]
                &&& (forall|q: Seq<char>|
                    #[trigger] post.commits@[pre.commits@.len() as int].tree@.contains_key(q)
                        <==> merged_at(bm, lt, rt, q) is Some)
                &&& (forall|q: Seq<char>|
                    #[trigger] post.commits@[pre.commits@.len() as int].tree@.contains_key(q)
                        ==> Some(post.commits@[pre.commits@.len() as int].tree@[q]) == merged_at(
                        bm,
                        lt,
                        rt,
                        q,
                    ))
                &&& (post.branch matches Some(id) && id == pre.commits@.len())
                &&& post.remote_branch == post.branch
                &&& post.worktree@ == post.commits@[pre.commits@.len() as int].tree@
                &&& post.index@ == post.commits@[pre.commits@.len() as int].tree@
                &&& post.conflicts@.len() == 0
            })
            &&& ((exists|q: Seq<char>| #[trigger] merge_conflict_at(bm, lt, rt, q)) ==> {
                &&& r == Result::<SyncOutcome, SyncError>::Ok(
                    SyncOutcome { committed: false, pushed: false, conflict: true },
                )
                &&& post.commits@ == pre.commits@
                &&& post.branch == pre.branch
                &&& post.worktree@ == pre.worktree@
                &&& post.index@ == pre.index@
                &&& (forall|q: Seq<char>|
                    #[trigger] conflict_listed(post.conflicts@, q) <==> merge_conflict_at(
                        bm,
                        lt,
                        rt,
                        q,
                    ))
                &&& post.conflicts@.len() > 0
            })
        }
}

/// How a divergence was resolved.
pub enum MergeResolution {
    /// A merge commit was created; its position and the base used.
    Clean { merge_commit: usize, base: Option<usize> },
    /// Conflicting paths were found and recorded; nothing was committed.
    Halted { base: Option<usize> },
}

/// What one sync cycle did.
#[derive(Clone, Copy, PartialEq, Eq, Structural, Debug)]
pub struct SyncOutcome {
    pub committed: bool,
    pub pushed: bool,
    pub conflict: bool,
}

/// What a commit is made of, before it enters the graph.
pub struct CommitDescriptor {
    pub message: String,
    pub author_name: String,
    pub author_email: String,
    pub parent_ids: Vec<usize>,
}

/// The engine's model of one repository.
pub struct RepoModel {
    /// All commits, in creation order; positions are commit identifiers.
    pub commits: Vec<Commit>,
    /// The local branch tip, if the branch is born.
    pub branch: Option<usize>,
    /// The remote branch tip as last pushed or fetched.
    pub remote_branch: Option<usize>,
    /// The staging index.
    pub index: Tree,
    /// The working tree.
    pub worktree: Tree,
    /// Paths left in conflict by a halted merge; nonempty halts syncing.
    pub conflicts: Vec<String>,
    /// The configured author identity.
    pub author_name: String,
    pub author_email: String,
}

impl RepoModel {
    pub open spec fn wf(&self) -> bool {
        &&& commits_wf(self.commits@)
        &&& (self.branch matches Some(l) ==> l < self.commits@.len())
        &&& (self.remote_branch matches Some(t) ==> t < self.commits@.len())
        &&& self.index.wf()
        &&& self.worktree.wf()
    }

    /// A freshly initialized repository: no commits, no branch, empty
    /// index and working tree, the given author identity recorded.
    pub fn init(author_name: String, author_email: String) -> (r: RepoModel)
        ensures
            r.wf(),
            r.commits@.len() == 0,
            r.branch is None,
            r.remote_branch is None,
            r.index@ == Map::<Seq<char>, u64>::empty(),
            r.worktree@ == Map::<Seq<char>, u64>::empty(),
            r.conflicts@.len() == 0,
            r.author_name@ == author_name@,
            r.author_email@ == author_email@,
    {
        RepoModel {
            commits: Vec::new(),
            branch: None,
            remote_branch: None,
            index: Tree::empty(),
            worktree: Tree::empty(),
            conflicts: Vec::new(),
            author_name,
            author_email,
        }
    }

    /// First-time setup: initializes the repository with the given author
    /// identity and creates the initial commit — zero parents, empty tree —
    /// so the branch is born.
    pub fn setup(author_name: String, author_email: String) -> (r: RepoModel)
        ensures
            r.wf(),
            r.commits@.len() == 1,
            r.commits@[0].parents@.len() == 0,
            r.commits@[0].tree@ == Map::<Seq<char>, u64>::empty(),
            r.commits@[0].message@ == "Initial commit"@,
            r.branch == Some(0usize),
            r.remote_branch is None,
            r.worktree@ == Map::<Seq<char>, u64>::empty(),
            r.index@ == Map::<Seq<char>, u64>::empty(),
            r.conflicts@.len() == 0,
            r.author_name@ == author_name@,
            r.author_email@ == author_email@,
    {
        let mut model = RepoModel::init(author_name, author_email);
        let message = String::from_str("Initial commit");
        model.build_commit(message);
        model
    }

    /// Selects the parents of the next commit: none on an unborn branch,
    /// exactly the current tip otherwise; the author identity comes from
    /// the repository configuration.
    pub fn prepare_commit(&self, message: String) -> (d: CommitDescriptor)
        ensures
            d.message == message,
            d.author_name@ == self.author_name@,
            d.author_email@ == self.author_email@,
            d.parent_ids@ == match self.branch {
                Some(l) => seq![l],
                None => Seq::<usize>::empty(),
            },
    {
        let parent_ids = match self.branch {
            Some(l) => {
                let mut v: Vec<usize> = Vec::new();
                v.push(l);
                proof {
                    assert(v@ =~= seq![l]);
                }
                v
            },
            None => Vec::new(),
        };
        CommitDescriptor {
            message,
            author_name: self.author_name.clone(),
            author_email: self.author_email.clone(),
            parent_ids,
        }
    }

    /// Turns the staging index into a new commit on the current branch and
    /// advances the branch to it. The new commit's tree is the index as it
    /// stands; its parents follow the rule of `prepare_commit`.
    pub fn build_commit(&mut self, message: String) -> (id: usize)
        requires
            old(self).wf(),
        ensures
            final(self).wf(),
            id == old(self).commits@.len(),
            final(self).commits@.len() == old(self).commits@.len() + 1,
            forall|c: int|
                0 <= c < old(self).commits@.len() ==> final(self).commits@[c] == old(
                    self,
                ).commits@[c],
            final(self).commits@[id as int].parents@ == match old(self).branch {
                Some(l) => seq![l],
                None => Seq::<usize>::empty(),
            },
            final(self).commits@[id as int].tree@ == old(self).index@,
            final(self).commits@[id as int].message == message,
            final(self).branch == Some(id),
            final(self).remote_branch == old(self).remote_branch,
            final(self).index@ == old(self).index@,
            final(self).worktree@ == old(self).worktree@,
            final(self).conflicts@ == old(self).conflicts@,
            final(self).author_name@ == old(self).author_name@,
            final(self).author_email@ == old(self).author_email@,
    {
        let d = self.prepare_commit(message);
        let id = self.commits.len();
        let tree = self.index.duplicate();
        let commit = Commit { parents: d.parent_ids, tree, message: d.message };
        self.commits.push(commit);
        self.branch = Some(id);
        proof {
            let g = self.commits@;
            assert forall|i: int| 0 <= i < g.len() implies (#[trigger] g[i]).tree.wf() by {
                if i < g.len() - 1 {
                    assert(g[i] == old(self).commits@[i]);
                }
            }
            assert forall|i: int, k: int|
                0 <= i < g.len() && 0 <= k < g[i].parents@.len() implies (
            #[trigger] g[i].parents@[k]) < i by {
                if i < g.len() - 1 {
                    assert(g[i] == old(self).commits@[i]);
                }
            }
        }
        id
    }

    /// Materializes commit `c`: working tree and index both become exact
    /// copies of its tree, overwriting whatever they held.
    pub fn checkout_commit(&mut self, c: usize)
        requires
            old(self).wf(),
            c < old(self).commits@.len(),
        ensures
            final(self).wf(),
            final(self).worktree@ == old(self).commits@[c as int].tree@,
            final(self).index@ == old(self).commits@[c as int].tree@,
            final(self).commits@ == old(self).commits@,
            final(self).branch == old(self).branch,
            final(self).remote_branch == old(self).remote_branch,
            final(self).conflicts@ == old(self).conflicts@,
            final(self).author_name@ == old(self).author_name@,
            final(self).author_email@ == old(self).author_email@,
    {
        let wt = self.commits[c].tree.duplicate();
        let ix = self.commits[c].tree.duplicate();
        self.worktree = wt;
        self.index = ix;
    }

    /// Fast-forward: moves the branch reference straight to `target` and
    /// forces the working tree (and index) to match that commit's tree.
    /// No commit is created.
    pub fn fast_forward(&mut self, target: usize)
        requires
            old(self).wf(),
            target < old(self).commits@.len(),
        ensures
            final(self).wf(),
            final(self).branch == Some(target),
            final(self).worktree@ == old(self).commits@[target as int].tree@,
            final(self).index@ == old(self).commits@[target as int].tree@,
            final(self).commits@ == old(self).commits@,
            final(self).remote_branch == old(self).remote_branch,
            final(self).conflicts@ == old(self).conflicts@,
            final(self).author_name@ == old(self).author_name@,
            final(self).author_email@ == old(self).author_email@,
    {
        self.branch = Some(target);
        self.checkout_commit(target);
    }

    /// Three-way merge of two divergent tips against their merge base.
    ///
    /// With no conflicting path, a merge commit with exactly the two tips
    /// as parents enters the graph, the branch moves to it, and the
    /// working tree and index are checked out to the merged tree. With
    /// conflicting paths, nothing is committed: the conflicts are recorded
    /// and the state is otherwise untouched.
    pub fn resolve_divergence(&mut self, local: usize, remote: usize) -> (r: MergeResolution)
        requires
            old(self).wf(),
            local < old(self).commits@.len(),
            remote < old(self).commits@.len(),
        ensures
            final(self).wf(),
            final(self).author_name@ == old(self).author_name@,
            final(self).author_email@ == old(self).author_email@,
            final(self).remote_branch == old(self).remote_branch,
            forall|c: int|
                0 <= c < old(self).commits@.len() ==> final(self).commits@[c] == old(
                    self,
                ).commits@[c],
            r matches MergeResolution::Halted { base } ==> {
                &&& base_choice_ok(old(self).commits@, local as int, remote as int, base)
                &&& final(self).commits@ == old(self).commits@
                &&& final(self).branch == old(self).branch
                &&& final(self).index@ == old(self).index@
                &&& final(self).worktree@ == old(self).worktree@
                &&& forall|q: Seq<char>|
                    #[trigger] conflict_listed(final(self).conflicts@, q) <==> merge_conflict_at(
                        base_map(old(self).commits@, base),
                        old(self).commits@[local as int].tree@,
                        old(self).commits@[remote as int].tree@,
                        q,
                    )
                &&& final(self).conflicts@.len() > 0
            },
            r matches MergeResolution::Clean { merge_commit, base } ==> {
                &&& base_choice_ok(old(self).commits@, local as int, remote as int, base)
                &&& forall|q: Seq<char>|
                    !(#[trigger] merge_conflict_at(
                        base_map(old(self).commits@, base),
                        old(self).commits@[local as int].tree@,
                        old(self).commits@[remote as int].tree@,
                        q,
                    ))
                &&& merge_commit == old(self).commits@.len()
                &&& final(self).commits@.len() == old(self).commits@.len() + 1
                &&& final(self).commits@[merge_commit as int].parents@ == seq![local, remote]
                &&& forall|q: Seq<char>|
                    #[trigger] final(self).commits@[merge_commit as int].tree@.contains_key(q)
                        <==> merged_at(
                        base_map(old(self).commits@, base),
                        old(self).commits@[local as int].tree@,
                        old(self).commits@[remote as int].tree@,
                        q,
                    ) is Some
                &&& forall|q: Seq<char>|
                    #[trigger] final(self).commits@[merge_commit as int].tree@.contains_key(q)
                        ==> Some(final(self).commits@[merge_commit as int].tree@[q]) == merged_at(
                        base_map(old(self).commits@, base),
                        old(self).commits@[local as int].tree@,
                        old(self).commits@[remote as int].tree@,
                        q,
                    )
                &&& final(self).branch == Some(merge_commit)
                &&& final(self).worktree@ == final(self).commits@[merge_commit as int].tree@
                &&& final(self).index@ == final(self).commits@[merge_commit as int].tree@
                &&& final(self).conflicts@ == old(self).conflicts@
            },
    {
        let bc = merge_base(&self.commits, local, remote);
        let base_tree = match bc {
            Some(c) => self.commits[c].tree.duplicate(),
            None => Tree::empty(),
        };
        proof {
            assert(base_tree@ == base_map(self.commits@, bc));
        }
        let (merged, conflict_paths) = merge_trees(
            &base_tree,
            &self.commits[local].tree,
            &self.commits[remote].tree,
        );
        if conflict_paths.len() == 0 {
            proof {
                assert forall|q: Seq<char>|
                    !(#[trigger] merge_conflict_at(
                        base_map(old(self).commits@, bc),
                        old(self).commits@[local as int].tree@,
                        old(self).commits@[remote as int].tree@,
                        q,
                    )) by {
                    assert(!conflict_listed(conflict_paths@, q));
                }
            }
            let mut parents: Vec<usize> = Vec::new();
            parents.push(local);
            parents.push(remote);
            proof {
                assert(parents@ =~= seq![local, remote]);
            }
            let id = self.commits.len();
            let commit_tree = merged.duplicate();
            let index_tree = merged.duplicate();
            let msg = String::from_str("Merge remote history into local branch");
            self.commits.push(Commit { parents, tree: commit_tree, message: msg });
            self.branch = Some(id);
            self.index = index_tree;
            self.worktree = merged;
            proof {
                let g = self.commits@;
                assert forall|i: int| 0 <= i < g.len() implies (#[trigger] g[i]).tree.wf() by {
                    if i < g.len() - 1 {
                        assert(g[i] == old(self).commits@[i]);
                    }
                }
                assert forall|i: int, k: int|
                    0 <= i < g.len() && 0 <= k < g[i].parents@.len() implies (
                #[trigger] g[i].parents@[k]) < i by {
                    if i < g.len() - 1 {
                        assert(g[i] == old(self).commits@[i]);
                    }
                }
            }
            MergeResolution::Clean { merge_commit: id, base: bc }
        } else {
            self.conflicts = conflict_paths;
            MergeResolution::Halted { base: bc }
        }
    }

    /// One whole sync cycle, driven by one watcher trigger, with the
    /// result of the fetch in hand.
    ///
    /// The cycle refuses to run over unresolved conflicts; a cycle with no
    /// drift is a no-op; a failed fetch aborts the cycle unchanged. With a
    /// remote tip fetched, the analysis decides: nothing to merge, a
    /// fast-forward (a forced checkout that overwrites the working tree),
    /// or a three-way merge that either commits cleanly or halts on
    /// conflicts. Whatever drift then remains is staged, committed with a
    /// message naming every changed path, and the branch is pushed.
    pub fn sync_cycle(&mut self, fetched: FetchResult) -> (r: Result<SyncOutcome, SyncError>)
        requires
            old(self).wf(),
            fetched matches FetchResult::Tip(t) ==> t < old(self).commits@.len(),
        ensures
            final(self).wf(),
            final(self).author_name@ == old(self).author_name@,
            final(self).author_email@ == old(self).author_email@,
            forall|c: int|
                0 <= c < old(self).commits@.len() ==> final(self).commits@[c] == old(
                    self,
                ).commits@[c],
            old(self).conflicts@.len() > 0 ==> r == Result::<SyncOutcome, SyncError>::Ok(
                SyncOutcome { committed: false, pushed: false, conflict: true },
            ) && *final(self) == *old(self),
            (old(self).conflicts@.len() == 0 && old(self).worktree@ == old(self).index@) ==> r
                == Result::<SyncOutcome, SyncError>::Ok(
                SyncOutcome { committed: false, pushed: false, conflict: false },
            ) && *final(self) == *old(self),
            (old(self).conflicts@.len() == 0 && old(self).worktree@ != old(self).index@)
                ==> match fetched {
                FetchResult::CredentialFailure => r == Result::<SyncOutcome, SyncError>::Err(
                    SyncError::Credential,
                ) && *final(self) == *old(self),
                FetchResult::TransportFailure => r == Result::<SyncOutcome, SyncError>::Err(
                    SyncError::Backend,
                ) && *final(self) == *old(self),
                FetchResult::NoRemoteTip => quiet_cycle_post(*old(self), *final(self), r),
                FetchResult::Tip(t) => match old(self).branch {
                    None => fast_forward_post(*old(self), *final(self), r, t),
                    Some(l) => if reaches(old(self).commits@, l as int, t as int) {
                        quiet_cycle_post(*old(self), *final(self), r)
                    } else if reaches(old(self).commits@, t as int, l as int) {
                        fast_forward_post(*old(self), *final(self), r, t)
                    } else {
                        diverged_post(*old(self), *final(self), r, l, t)
                    },
                },
            },
    {
        if self.conflicts.len() > 0 {
            return Ok(SyncOutcome { committed: false, pushed: false, conflict: true });
        }
        let drift0 = diff(&self.worktree, &self.index);
        if drift0.is_empty() {
            return Ok(SyncOutcome { committed: false, pushed: false, conflict: false });
        }
        let tip: Option<usize> = match fetched {
            FetchResult::CredentialFailure => {
                return Err(SyncError::Credential);
            },
            FetchResult::TransportFailure => {
                return Err(SyncError::Backend);
            },
            FetchResult::NoRemoteTip => None,
            FetchResult::Tip(t) => Some(t),
        };
        let mut merge_committed = false;
        if let Some(t) = tip {
            let analysis = merge_analysis(&self.commits, self.branch, t);
            match analysis {
                MergeAnalysis::UpToDate => {},
                MergeAnalysis::Unborn => {
                    self.fast_forward(t);
                },
                MergeAnalysis::FastForwardable(target) => {
                    self.fast_forward(target);
                },
                MergeAnalysis::Diverged(l, target) => {
                    let res = self.resolve_divergence(l, target);
                    match res {
                        MergeResolution::Halted { base } => {
                            proof {
                                let pre = *old(self);
                                let bm = base_map(pre.commits@, base);
                                let lt = pre.commits@[l as int].tree@;
                                let rt = pre.commits@[target as int].tree@;
                                assert(self.conflicts@.len() > 0);
                                assert(conflict_listed(self.conflicts@, self.conflicts@[0]@));
                                assert(exists|q: Seq<char>| #[trigger]
                                    merge_conflict_at(bm, lt, rt, q)) by {
                                    assert(merge_conflict_at(bm, lt, rt, self.conflicts@[0]@));
                                }
                                assert forall|bc: Option<usize>| #[trigger]
                                    base_choice_ok(
                                        pre.commits@,
                                        l as int,
                                        target as int,
                                        bc,
                                    ) implies bc == base by {
                                    lemma_base_choice_unique(
                                        pre.commits@,
                                        l as int,
                                        target as int,
                                        bc,
                                        base,
                                    );
                                }
                            }
                            return Ok(
                                SyncOutcome { committed: false, pushed: false, conflict: true },
                            );
                        },
                        MergeResolution::Clean { merge_commit, base } => {
                            merge_committed = true;
                            proof {
                                let pre = *old(self);
                                assert forall|bc: Option<usize>| #[trigger]
                                    base_choice_ok(
                                        pre.commits@,
                                        l as int,
                                        target as int,
                                        bc,
                                    ) implies bc == base by {
                                    lemma_base_choice_unique(
                                        pre.commits@,
                                        l as int,
                                        target as int,
                                        bc,
                                        base,
                                    );
                                }
                            }
                        },
                    }
                },
            }
        }
        let drift = diff(&self.worktree, &self.index);
        let mut committed = merge_committed;
        if !drift.is_empty() {
            let ghost wt_pre = self.worktree@;
            let ghost ix_pre = self.index@;
            apply_batch(&mut self.index, &drift, &self.worktree);
            proof {
                lemma_stage_drift(wt_pre, ix_pre, drift.records@);
            }
            let msg = build_commit_message(&drift);
            proof {
                assert(records_sorted(drift.records@) && is_drift(drift.records@, wt_pre, ix_pre)
                    && msg@ == message_of(drift.records@));
                assert(summarizes_drift(msg@, wt_pre, ix_pre));
            }
            self.build_commit(msg);
            committed = true;
        }
        self.remote_branch = self.branch;
        Ok(SyncOutcome { committed, pushed: true, conflict: false })
    }
}

} // verus!
