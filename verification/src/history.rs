//! The commit graph and ancestry.
//!
//! Commits live in a vector in creation order; a commit names its parents
//! by position, so parents stand strictly before their children and the
//! graph is acyclic. `is_ancestor` decides reachability along parent edges,
//! `merge_base` finds the most recent common ancestor, and `merge_analysis`
//! classifies the local branch against a fetched remote tip.

use vstd::prelude::*;

use crate::tree::Tree;

verus! {

/// One commit: parent commits (by position in the graph), the snapshot it
/// records, and its message.
pub struct Commit {
    pub parents: Vec<usize>,
    pub tree: Tree,
    pub message: String,
}

/// Every parent stands strictly before its child, and every commit tree is
/// well formed.
pub open spec fn commits_wf(g: Seq<Commit>) -> bool {
    &&& forall|i: int| 0 <= i < g.len() ==> (#[trigger] g[i]).tree.wf()
    &&& forall|i: int, k: int|
        0 <= i < g.len() && 0 <= k < g[i].parents@.len() ==> (#[trigger] g[i].parents@[k]) < i
}

/// `to` lies in the history of `from`; every commit is in its own history.
pub open spec fn reaches(g: Seq<Commit>, from: int, to: int) -> bool
    decreases from,
{
    ||| from == to
    ||| (0 <= from < g.len() && exists|k: int|
        0 <= k < g[from].parents@.len() && 0 <= (#[trigger] g[from].parents@[k]) < from && reaches(
            g,
            g[from].parents@[k] as int,
            to,
        ))
}

/// History only runs backwards: an ancestor's position is never above its
/// descendant's.
pub proof fn lemma_reaches_ge(g: Seq<Commit>, from: int, to: int)
    requires
        reaches(g, from, to),
    ensures
        from >= to,
    decreases from,
{
    if from != to {
        let k = choose|k: int|
            0 <= k < g[from].parents@.len() && 0 <= (#[trigger] g[from].parents@[k]) < from
                && reaches(g, g[from].parents@[k] as int, to);
        lemma_reaches_ge(g, g[from].parents@[k] as int, to);
    }
}

/// Two commits that lie in each other's history are the same commit.
pub proof fn lemma_reaches_antisymmetric(g: Seq<Commit>, a: int, b: int)
    requires
        reaches(g, a, b),
        reaches(g, b, a),
    ensures
        a == b,
{
    lemma_reaches_ge(g, a, b);
    lemma_reaches_ge(g, b, a);
}

/// `to` is reachable from `from` along a chain all of whose commits except
/// possibly `to` itself stand at position `lo` or above. The marking pass
/// of `is_ancestor` grows such chains as `lo` sinks.
pub open spec fn chain_above(g: Seq<Commit>, from: int, to: int, lo: int) -> bool
    decreases from,
{
    ||| from == to
    ||| (from >= lo && 0 <= from < g.len() && exists|k: int|
        0 <= k < g[from].parents@.len() && 0 <= (#[trigger] g[from].parents@[k]) < from
            && chain_above(g, g[from].parents@[k] as int, to, lo))
}

/// Lowering the floor from `c + 1` to `c` admits exactly the chains that
/// run through commit `c`: those that reach `c` above the old floor and
/// continue through one of its parent edges.
proof fn lemma_chain_step(g: Seq<Commit>, b: int, j: int, c: int)
    requires
        commits_wf(g),
        0 <= c < g.len(),
    ensures
        chain_above(g, b, j, c) == (chain_above(g, b, j, c + 1) || (chain_above(g, b, c, c + 1)
            && exists|k: int| 0 <= k < g[c].parents@.len() && (#[trigger] g[c].parents@[k]) == j)),
    decreases b,
{
    if b == j {
    } else if b < c || b >= g.len() || b < 0 {
        // No chain can start here below the floor: both sides are false.
        if chain_above(g, b, j, c) {
            assert(b >= c && 0 <= b < g.len());
        }
        if chain_above(g, b, j, c + 1) {
            assert(b >= c + 1 && 0 <= b < g.len());
        }
        if chain_above(g, b, c, c + 1) {
            assert(b == c || (b >= c + 1 && 0 <= b < g.len()));
        }
    } else if b == c {
        // A chain from `c` to `j` at floor `c` is a single parent step.
        assert forall|k: int|
            0 <= k < g[b].parents@.len() implies ((chain_above(
            g,
            (#[trigger] g[b].parents@[k]) as int,
            j,
            c,
        )) == (g[b].parents@[k] == j)) by {
            assert(g[b].parents@[k] < b);
            if chain_above(g, g[b].parents@[k] as int, j, c) && g[b].parents@[k] != j {
                assert(g[b].parents@[k] >= c);
            }
        }
        assert(!chain_above(g, b, j, c + 1)) by {
            if chain_above(g, b, j, c + 1) {
                assert(b >= c + 1);
            }
        }
        assert(chain_above(g, b, c, c + 1));
        if chain_above(g, b, j, c) {
            let k = choose|k: int|
                0 <= k < g[b].parents@.len() && 0 <= (#[trigger] g[b].parents@[k]) < b
                    && chain_above(g, g[b].parents@[k] as int, j, c);
            assert(g[c].parents@[k] == j);
        }
        if exists|k: int| 0 <= k < g[c].parents@.len() && (#[trigger] g[c].parents@[k]) == j {
            let k = choose|k: int|
                0 <= k < g[c].parents@.len() && (#[trigger] g[c].parents@[k]) == j;
            assert(g[b].parents@[k] < b);
            assert(chain_above(g, j, j, c));
            assert(0 <= k < g[b].parents@.len() && 0 <= g[b].parents@[k] < b && chain_above(
                g,
                g[b].parents@[k] as int,
                j,
                c,
            ));
        }
    } else {
        // b > c: rewrite each parent by induction and shuffle witnesses.
        assert forall|k: int| 0 <= k < g[b].parents@.len() implies ((chain_above(
            g,
            (#[trigger] g[b].parents@[k]) as int,
            j,
            c,
        )) == (chain_above(g, g[b].parents@[k] as int, j, c + 1) || (chain_above(
            g,
            g[b].parents@[k] as int,
            c,
            c + 1,
        ) && exists|k2: int|
            0 <= k2 < g[c].parents@.len() && (#[trigger] g[c].parents@[k2]) == j))) by {
            assert(g[b].parents@[k] < b);
            lemma_chain_step(g, g[b].parents@[k] as int, j, c);
        }
        if chain_above(g, b, j, c) {
            let k = choose|k: int|
                0 <= k < g[b].parents@.len() && 0 <= (#[trigger] g[b].parents@[k]) < b
                    && chain_above(g, g[b].parents@[k] as int, j, c);
            if chain_above(g, g[b].parents@[k] as int, j, c + 1) {
                assert(chain_above(g, b, j, c + 1));
            } else {
                assert(chain_above(g, g[b].parents@[k] as int, c, c + 1));
                assert(chain_above(g, b, c, c + 1));
            }
        }
        if chain_above(g, b, j, c + 1) {
            if b != j {
                let k = choose|k: int|
                    0 <= k < g[b].parents@.len() && 0 <= (#[trigger] g[b].parents@[k]) < b
                        && chain_above(g, g[b].parents@[k] as int, j, c + 1);
                assert(chain_above(g, g[b].parents@[k] as int, j, c));
                assert(chain_above(g, b, j, c));
            }
        }
        if chain_above(g, b, c, c + 1) && exists|k2: int|
            0 <= k2 < g[c].parents@.len() && (#[trigger] g[c].parents@[k2]) == j {
            let k = choose|k: int|
                0 <= k < g[b].parents@.len() && 0 <= (#[trigger] g[b].parents@[k]) < b
                    && chain_above(g, g[b].parents@[k] as int, c, c + 1);
            assert(chain_above(g, g[b].parents@[k] as int, j, c));
            assert(chain_above(g, b, j, c));
        }
    }
}

/// With the floor at the bottom of the graph, chains are plain
/// reachability.
proof fn lemma_chain_above_zero(g: Seq<Commit>, from: int, to: int)
    ensures
        chain_above(g, from, to, 0) == reaches(g, from, to),
    decreases from,
{
    if from != to {
        if chain_above(g, from, to, 0) {
            let k = choose|k: int|
                0 <= k < g[from].parents@.len() && 0 <= (#[trigger] g[from].parents@[k]) < from
                    && chain_above(g, g[from].parents@[k] as int, to, 0);
            lemma_chain_above_zero(g, g[from].parents@[k] as int, to);
            assert(0 <= k < g[from].parents@.len() && 0 <= g[from].parents@[k] < from && reaches(
                g,
                g[from].parents@[k] as int,
                to,
            ));
        }
        if reaches(g, from, to) {
            let k = choose|k: int|
                0 <= k < g[from].parents@.len() && 0 <= (#[trigger] g[from].parents@[k]) < from
                    && reaches(g, g[from].parents@[k] as int, to);
            lemma_chain_above_zero(g, g[from].parents@[k] as int, to);
            assert(0 <= k < g[from].parents@.len() && 0 <= g[from].parents@[k] < from
                && chain_above(g, g[from].parents@[k] as int, to, 0));
        }
    }
}

/// Decides whether `anc` lies in the history of `desc`, by one marking
/// pass down the graph: a commit's parents are marked once the commit
/// itself is marked.
pub fn is_ancestor(g: &Vec<Commit>, anc: usize, desc: usize) -> (r: bool)
    requires
        commits_wf(g@),
        anc < g@.len(),
        desc < g@.len(),
    ensures
        r == reaches(g@, desc as int, anc as int),
{
    let glen = g.len();
    let mut reach: Vec<bool> = vec![false; desc + 1];
    reach.set(desc, true);
    proof {
        assert forall|j: int| 0 <= j <= desc implies reach@[j] == chain_above(
            g@,
            desc as int,
            j,
            desc + 1,
        ) by {
            if j != desc {
                if chain_above(g@, desc as int, j, desc + 1) {
                    assert(desc >= desc + 1);
                }
            }
        }
    }
    let mut i: usize = desc + 1;
    while i > 0
        invariant
            commits_wf(g@),
            desc < g@.len(),
            i <= desc + 1,
            reach@.len() == desc + 1,
            forall|j: int|
                0 <= j <= desc ==> reach@[j] == chain_above(g@, desc as int, j, i as int),
        decreases i,
    {
        i = i - 1;
        if reach[i] {
            let ghost reach0 = reach@;
            let np = g[i].parents.len();
            let mut k: usize = 0;
            while k < np
                invariant
                    commits_wf(g@),
                    desc < g@.len(),
                    i <= desc,
                    np == g@[i as int].parents@.len(),
                    reach@.len() == desc + 1,
                    k <= np,
                    chain_above(g@, desc as int, i as int, i as int + 1),
                    forall|j: int|
                        0 <= j <= desc ==> reach@[j] == (chain_above(g@, desc as int, j, i as int
                            + 1) || exists|k2: int|
                            0 <= k2 < k && (#[trigger] g@[i as int].parents@[k2]) == j),
                decreases np - k,
            {
                let p = g[i].parents[k];
                proof {
                    assert(g@[i as int].parents@[k as int] < i);
                }
                let ghost before = reach@;
                reach.set(p, true);
                proof {
                    assert forall|j: int|
                        0 <= j <= desc implies reach@[j] == (chain_above(
                        g@,
                        desc as int,
                        j,
                        i as int + 1,
                    ) || exists|k2: int|
                        0 <= k2 < k + 1 && (#[trigger] g@[i as int].parents@[k2]) == j) by {
                        if j == p {
                            assert(g@[i as int].parents@[k as int] == j);
                        } else {
                            assert(reach@[j] == before[j]);
                            if exists|k2: int|
                                0 <= k2 < k + 1 && (#[trigger] g@[i as int].parents@[k2]) == j {
                                let k2 = choose|k2: int|
                                    0 <= k2 < k + 1 && (#[trigger] g@[i as int].parents@[k2]) == j;
                                assert(k2 < k);
                            }
                        }
                    }
                }
                k = k + 1;
            }
            proof {
                assert forall|j: int| 0 <= j <= desc implies reach@[j] == chain_above(
                    g@,
                    desc as int,
                    j,
                    i as int,
                ) by {
                    lemma_chain_step(g@, desc as int, j, i as int);
                }
            }
        } else {
            proof {
                assert forall|j: int| 0 <= j <= desc implies reach@[j] == chain_above(
                    g@,
                    desc as int,
                    j,
                    i as int,
                ) by {
                    lemma_chain_step(g@, desc as int, j, i as int);
                }
            }
        }
    }
    proof {
        assert forall|j: int| 0 <= j <= desc implies reach@[j] == reaches(
            g@,
            desc as int,
            j,
        ) by {
            lemma_chain_above_zero(g@, desc as int, j);
        }
    }
    if anc <= desc {
        reach[anc]
    } else {
        proof {
            if reaches(g@, desc as int, anc as int) {
                lemma_reaches_ge(g@, desc as int, anc as int);
            }
        }
        false
    }
}

/// The most recent common ancestor of `a` and `b`: the highest-positioned
/// commit that lies in both histories, if any does.
pub fn merge_base(g: &Vec<Commit>, a: usize, b: usize) -> (r: Option<usize>)
    requires
        commits_wf(g@),
        a < g@.len(),
        b < g@.len(),
    ensures
        r matches Some(c) ==> c < g@.len() && reaches(g@, a as int, c as int) && reaches(
            g@,
            b as int,
            c as int,
        ) && forall|d: int|
            c < d < g@.len() ==> !(reaches(g@, a as int, d) && reaches(g@, b as int, d)),
        r is None ==> forall|d: int|
            0 <= d < g@.len() ==> !(reaches(g@, a as int, d) && reaches(g@, b as int, d)),
    {
    let glen = g.len();
    let mut c: usize = if a < b {
        a + 1
    } else {
        b + 1
    };
    proof {
        assert forall|d: int|
            c <= d < g@.len() implies !(reaches(g@, a as int, d) && reaches(
            g@,
            b as int,
            d,
        )) by {
            if reaches(g@, a as int, d) && reaches(g@, b as int, d) {
                lemma_reaches_ge(g@, a as int, d);
                lemma_reaches_ge(g@, b as int, d);
            }
        }
    }
    while c > 0
        invariant
            commits_wf(g@),
            a < g@.len(),
            b < g@.len(),
            c <= g@.len(),
            forall|d: int|
                c <= d < g@.len() ==> !(reaches(g@, a as int, d) && reaches(g@, b as int, d)),
        decreases c,
    {
        c = c - 1;
        if is_ancestor(g, c, a) {
            if is_ancestor(g, c, b) {
                return Some(c);
            }
        }
    }
    None
}

/// How the local branch stands against a fetched remote tip.
#[derive(Clone, Copy, PartialEq, Eq, Structural, Debug)]
pub enum MergeAnalysis {
    /// The remote tip is already in the local history; nothing to merge.
    UpToDate,
    /// The remote tip descends from the local tip: the branch can move
    /// forward to it without a new commit.
    FastForwardable(usize),
    /// Both sides hold commits the other lacks: a three-way merge is due.
    Diverged(usize, usize),
    /// There is no local history yet.
    Unborn,
}

/// Classifies the local tip against the remote tip.
///
/// For every pair of tips: if the local tip is absent the analysis is
/// `Unborn`; if the tips are equal, or the remote tip is an ancestor of the
/// local tip, it is `UpToDate`; if the remote tip is a proper descendant of
/// the local tip it is `FastForwardable`; and if neither tip lies in the
/// other's history it is `Diverged`.
pub fn merge_analysis(g: &Vec<Commit>, local: Option<usize>, remote: usize) -> (r: MergeAnalysis)
    requires
        commits_wf(g@),
        remote < g@.len(),
        local matches Some(l) ==> l < g@.len(),
    ensures
        local is None ==> r == MergeAnalysis::Unborn,
        local matches Some(l) ==> r == (if reaches(g@, l as int, remote as int) {
            MergeAnalysis::UpToDate
        } else if reaches(g@, remote as int, l as int) {
            MergeAnalysis::FastForwardable(remote)
        } else {
            MergeAnalysis::Diverged(l, remote)
        }),
        local matches Some(l) ==> {
            &&& (l == remote ==> r == MergeAnalysis::UpToDate)
            &&& (reaches(g@, remote as int, l as int) && l != remote ==> r
                == MergeAnalysis::FastForwardable(remote))
            &&& (!reaches(g@, l as int, remote as int) && !reaches(g@, remote as int, l as int)
                ==> r == MergeAnalysis::Diverged(l, remote))
        },
{
    proof {
        match local {
            Some(l) => {
                if reaches(g@, l as int, remote as int) && reaches(g@, remote as int, l as int) {
                    lemma_reaches_antisymmetric(g@, l as int, remote as int);
                }
            },
            None => {},
        }
    }
    match local {
        None => MergeAnalysis::Unborn,
        Some(l) => {
            if is_ancestor(g, remote, l) {
                MergeAnalysis::UpToDate
            } else if is_ancestor(g, l, remote) {
                MergeAnalysis::FastForwardable(remote)
            } else {
                MergeAnalysis::Diverged(l, remote)
            }
        },
    }
}

} // verus!
