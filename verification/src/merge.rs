//! Three-way tree merge.
//!
//! Given the trees of two divergent tips and of their merge base, each path
//! is merged on its own: a side that left the path as the base had it
//! yields to the other side; two sides that agree win outright; two sides
//! that changed the same path differently conflict. The merge returns the
//! conflict-free tree and the list of conflicting paths; it is the caller's
//! to halt when that list is not empty.

use vstd::prelude::*;

use crate::tree::lemma_seq_to_map_props;
use crate::tree::lemma_sorted_distinct;
use crate::tree::Tree;

verus! {

/// The binding of `q` in `m`, if any.
pub open spec fn opt_at(m: Map<Seq<char>, u64>, q: Seq<char>) -> Option<u64> {
    if m.contains_key(q) {
        Some(m[q])
    } else {
        None
    }
}

/// Both sides changed the path since the base, and differently.
pub open spec fn opts_conflict(b: Option<u64>, l: Option<u64>, r: Option<u64>) -> bool {
    l != r && l != b && r != b
}

/// The merged binding when the sides do not conflict: agreement wins, an
/// unchanged side yields to the other.
pub open spec fn opts_merged(b: Option<u64>, l: Option<u64>, r: Option<u64>) -> Option<u64> {
    if l == r {
        l
    } else if l == b {
        r
    } else {
        l
    }
}

/// The path `q` conflicts between local and remote relative to the base.
pub open spec fn merge_conflict_at(
    b: Map<Seq<char>, u64>,
    l: Map<Seq<char>, u64>,
    r: Map<Seq<char>, u64>,
    q: Seq<char>,
) -> bool {
    opts_conflict(opt_at(b, q), opt_at(l, q), opt_at(r, q))
}

/// The merged binding of `q`, meaningful where there is no conflict.
pub open spec fn merged_at(
    b: Map<Seq<char>, u64>,
    l: Map<Seq<char>, u64>,
    r: Map<Seq<char>, u64>,
    q: Seq<char>,
) -> Option<u64> {
    opts_merged(opt_at(b, q), opt_at(l, q), opt_at(r, q))
}

/// Some listed conflict path reads `q`.
pub open spec fn conflict_listed(cs: Seq<String>, q: Seq<char>) -> bool {
    exists|m: int| 0 <= m < cs.len() && (#[trigger] cs[m]@) == q
}

/// What the merge decided for one path.
#[derive(Clone, Copy, PartialEq, Eq, Structural, Debug)]
enum MergeDecision {
    Keep(u64),
    Drop,
    Conflict,
}

fn opt_eq(a: Option<u64>, b: Option<u64>) -> (r: bool)
    ensures
        r == (a == b),
{
    match (a, b) {
        (Some(x), Some(y)) => x == y,
        (None, None) => true,
        _ => false,
    }
}

/// Merges one path's bindings.
fn decide(b: Option<u64>, l: Option<u64>, r: Option<u64>) -> (d: MergeDecision)
    ensures
        d == MergeDecision::Conflict <==> opts_conflict(b, l, r),
        !opts_conflict(b, l, r) ==> d == (match opts_merged(b, l, r) {
            Some(v) => MergeDecision::Keep(v),
            None => MergeDecision::Drop,
        }),
{
    if opt_eq(l, r) {
        match l {
            Some(v) => MergeDecision::Keep(v),
            None => MergeDecision::Drop,
        }
    } else if opt_eq(l, b) {
        match r {
            Some(v) => MergeDecision::Keep(v),
            None => MergeDecision::Drop,
        }
    } else if opt_eq(r, b) {
        match l {
            Some(v) => MergeDecision::Keep(v),
            None => MergeDecision::Drop,
        }
    } else {
        MergeDecision::Conflict
    }
}

/// Merges the local and remote trees against their base. Returns the
/// merged tree — exact on every path where the sides do not conflict — and
/// the conflicting paths, each listed once; the tree carries no binding for
/// a conflicting path.
pub fn merge_trees(base: &Tree, local: &Tree, remote: &Tree) -> (out: (Tree, Vec<String>))
    requires
        base.wf(),
        local.wf(),
        remote.wf(),
    ensures
        out.0.wf(),
        forall|q: Seq<char>|
            #[trigger] out.0@.contains_key(q) <==> (!merge_conflict_at(base@, local@, remote@, q)
                && merged_at(base@, local@, remote@, q) is Some),
        forall|q: Seq<char>|
            #[trigger] out.0@.contains_key(q) ==> Some(out.0@[q]) == merged_at(
                base@,
                local@,
                remote@,
                q,
            ),
        forall|q: Seq<char>|
            #[trigger] conflict_listed(out.1@, q) <==> merge_conflict_at(base@, local@, remote@, q),
        forall|m1: int, m2: int|
            0 <= m1 < m2 < out.1@.len() ==> (#[trigger] out.1@[m1]@) != (#[trigger] out.1@[m2]@),
{
    let ghost bm = base@;
    let ghost lm = local@;
    let ghost rm = remote@;
    let ghost ls = local.entries@;
    let ghost rs = remote.entries@;
    let mut tree = Tree::empty();
    let mut conflicts: Vec<String> = Vec::new();
    let ln = local.entries.len();
    let mut i: usize = 0;
    while i < ln
        invariant
            base.wf(),
            local.wf(),
            remote.wf(),
            ls == local.entries@,
            rs == remote.entries@,
            bm == base@,
            lm == local@,
            rm == remote@,
            ln == ls.len(),
            i <= ln,
            tree.wf(),
            forall|q: Seq<char>|
                #[trigger] tree@.contains_key(q) <==> (crate::change::prefix_has(ls, i as int, q)
                    && !merge_conflict_at(bm, lm, rm, q) && merged_at(bm, lm, rm, q) is Some),
            forall|q: Seq<char>|
                #[trigger] tree@.contains_key(q) ==> Some(tree@[q]) == merged_at(bm, lm, rm, q),
            forall|q: Seq<char>|
                #[trigger] conflict_listed(conflicts@, q) <==> (crate::change::prefix_has(
                    ls,
                    i as int,
                    q,
                ) && merge_conflict_at(bm, lm, rm, q)),
            forall|m1: int, m2: int|
                0 <= m1 < m2 < conflicts@.len() ==> (#[trigger] conflicts@[m1]@) != (
                #[trigger] conflicts@[m2]@),
        decreases ln - i,
    {
        proof {
            lemma_sorted_distinct(ls);
            lemma_seq_to_map_props(ls);
        }
        let ghost q = ls[i as int].path@;
        let lb = local.entries[i].blob;
        let rv = remote.get(local.entries[i].path.as_str());
        let bv = base.get(local.entries[i].path.as_str());
        proof {
            assert(lm.contains_key(q) && lm[q] == lb);
            assert(Some(lb) == opt_at(lm, q));
            assert(rv == opt_at(rm, q));
            assert(bv == opt_at(bm, q));
            assert(!crate::change::prefix_has(ls, i as int, q)) by {
                if crate::change::prefix_has(ls, i as int, q) {
                    let k = choose|k: int| 0 <= k < i && (#[trigger] ls[k].path@) == q;
                    assert(ls[k].path@ == ls[i as int].path@);
                }
            }
        }
        let d = decide(bv, Some(lb), rv);
        let ghost tree0 = tree@;
        let ghost conflicts0 = conflicts@;
        match d {
            MergeDecision::Keep(v) => {
                tree.set(local.entries[i].path.as_str(), v);
            },
            MergeDecision::Drop => {},
            MergeDecision::Conflict => {
                conflicts.push(local.entries[i].path.clone());
            },
        }
        i = i + 1;
        proof {
            assert forall|q2: Seq<char>| true implies (#[trigger] crate::change::prefix_has(
                ls,
                i as int,
                q2,
            ) == (crate::change::prefix_has(ls, i as int - 1, q2) || q2 == q)) by {
                if crate::change::prefix_has(ls, i as int, q2) {
                    let k = choose|k: int| 0 <= k < i && (#[trigger] ls[k].path@) == q2;
                    if k < i - 1 {
                        assert(crate::change::prefix_has(ls, i as int - 1, q2));
                    }
                }
                if crate::change::prefix_has(ls, i as int - 1, q2) {
                    let k = choose|k: int| 0 <= k < i - 1 && (#[trigger] ls[k].path@) == q2;
                    assert(0 <= k < i && ls[k].path@ == q2);
                }
                if q2 == q {
                    assert(ls[i as int - 1].path@ == q2);
                }
            }
            if conflicts@.len() > conflicts0.len() {
                assert forall|q2: Seq<char>| true implies (#[trigger] conflict_listed(
                    conflicts@,
                    q2,
                ) == (conflict_listed(conflicts0, q2) || q2 == q)) by {
                    if conflict_listed(conflicts@, q2) {
                        let m = choose|m: int|
                            0 <= m < conflicts@.len() && (#[trigger] conflicts@[m]@) == q2;
                        if m < conflicts0.len() {
                            assert(conflicts0[m]@ == q2);
                        }
                    }
                    if conflict_listed(conflicts0, q2) {
                        let m = choose|m: int|
                            0 <= m < conflicts0.len() && (#[trigger] conflicts0[m]@) == q2;
                        assert(conflicts@[m]@ == q2);
                    }
                    if q2 == q {
                        assert(conflicts@[conflicts@.len() - 1]@ == q2);
                    }
                }
                assert(!conflict_listed(conflicts0, q));
            }
        }
    }
    proof {
        lemma_sorted_distinct(ls);
        lemma_seq_to_map_props(ls);
        assert forall|q: Seq<char>| true implies (#[trigger] crate::change::prefix_has(
            ls,
            ln as int,
            q,
        ) == lm.contains_key(q)) by {
            if crate::change::prefix_has(ls, ln as int, q) {
                let k = choose|k: int| 0 <= k < ln && (#[trigger] ls[k].path@) == q;
                assert(ls[k].path@ == q);
            }
            if lm.contains_key(q) {
                let k = choose|k: int| 0 <= k < ls.len() && ls[k].path@ == q;
                assert(0 <= k < ln && (ls[k].path@) == q);
            }
        }
    }
    let rn = remote.entries.len();
    let mut j: usize = 0;
    while j < rn
        invariant
            base.wf(),
            local.wf(),
            remote.wf(),
            ls == local.entries@,
            rs == remote.entries@,
            bm == base@,
            lm == local@,
            rm == remote@,
            rn == rs.len(),
            j <= rn,
            tree.wf(),
            forall|q: Seq<char>|
                #[trigger] tree@.contains_key(q) <==> ((lm.contains_key(q)
                    || crate::change::prefix_has(rs, j as int, q)) && !merge_conflict_at(
                    bm,
                    lm,
                    rm,
                    q,
                ) && merged_at(bm, lm, rm, q) is Some),
            forall|q: Seq<char>|
                #[trigger] tree@.contains_key(q) ==> Some(tree@[q]) == merged_at(bm, lm, rm, q),
            forall|q: Seq<char>|
                #[trigger] conflict_listed(conflicts@, q) <==> ((lm.contains_key(q)
                    || crate::change::prefix_has(rs, j as int, q)) && merge_conflict_at(
                    bm,
                    lm,
                    rm,
                    q,
                )),
            forall|m1: int, m2: int|
                0 <= m1 < m2 < conflicts@.len() ==> (#[trigger] conflicts@[m1]@) != (
                #[trigger] conflicts@[m2]@),
        decreases rn - j,
    {
        proof {
            lemma_sorted_distinct(rs);
            lemma_seq_to_map_props(rs);
        }
        let ghost q = rs[j as int].path@;
        let rb = remote.entries[j].blob;
        let in_local = local.contains(remote.entries[j].path.as_str());
        let ghost tree0 = tree@;
        let ghost conflicts0 = conflicts@;
        if !in_local {
            let bv = base.get(remote.entries[j].path.as_str());
            proof {
                assert(rm.contains_key(q) && rm[q] == rb);
                assert(Some(rb) == opt_at(rm, q));
                assert(None::<u64> == opt_at(lm, q));
                assert(bv == opt_at(bm, q));
                assert(!crate::change::prefix_has(rs, j as int, q)) by {
                    if crate::change::prefix_has(rs, j as int, q) {
                        let k = choose|k: int| 0 <= k < j && (#[trigger] rs[k].path@) == q;
                        assert(rs[k].path@ == rs[j as int].path@);
                    }
                }
            }
            let d = decide(bv, None, Some(rb));
            match d {
                MergeDecision::Keep(v) => {
                    tree.set(remote.entries[j].path.as_str(), v);
                },
                MergeDecision::Drop => {},
                MergeDecision::Conflict => {
                    conflicts.push(remote.entries[j].path.clone());
                },
            }
        }
        j = j + 1;
        proof {
            assert forall|q2: Seq<char>| true implies (#[trigger] crate::change::prefix_has(
                rs,
                j as int,
                q2,
            ) == (crate::change::prefix_has(rs, j as int - 1, q2) || q2 == q)) by {
                if crate::change::prefix_has(rs, j as int, q2) {
                    let k = choose|k: int| 0 <= k < j && (#[trigger] rs[k].path@) == q2;
                    if k < j - 1 {
                        assert(crate::change::prefix_has(rs, j as int - 1, q2));
                    }
                }
                if crate::change::prefix_has(rs, j as int - 1, q2) {
                    let k = choose|k: int| 0 <= k < j - 1 && (#[trigger] rs[k].path@) == q2;
                    assert(0 <= k < j && rs[k].path@ == q2);
                }
                if q2 == q {
                    assert(rs[j as int - 1].path@ == q2);
                }
            }
            if conflicts@.len() > conflicts0.len() {
                assert forall|q2: Seq<char>| true implies (#[trigger] conflict_listed(
                    conflicts@,
                    q2,
                ) == (conflict_listed(conflicts0, q2) || q2 == q)) by {
                    if conflict_listed(conflicts@, q2) {
                        let m = choose|m: int|
                            0 <= m < conflicts@.len() && (#[trigger] conflicts@[m]@) == q2;
                        if m < conflicts0.len() {
                            assert(conflicts0[m]@ == q2);
                        }
                    }
                    if conflict_listed(conflicts0, q2) {
                        let m = choose|m: int|
                            0 <= m < conflicts0.len() && (#[trigger] conflicts0[m]@) == q2;
                        assert(conflicts@[m]@ == q2);
                    }
                    if q2 == q {
                        assert(conflicts@[conflicts@.len() - 1]@ == q2);
                    }
                }
                assert(!conflict_listed(conflicts0, q));
            }
        }
    }
    proof {
        lemma_sorted_distinct(rs);
        lemma_seq_to_map_props(rs);
        assert forall|q: Seq<char>| true implies (#[trigger] crate::change::prefix_has(
            rs,
            rn as int,
            q,
        ) == rm.contains_key(q)) by {
            if crate::change::prefix_has(rs, rn as int, q) {
                let k = choose|k: int| 0 <= k < rn && (#[trigger] rs[k].path@) == q;
                assert(rs[k].path@ == q);
            }
            if rm.contains_key(q) {
                let k = choose|k: int| 0 <= k < rs.len() && rs[k].path@ == q;
                assert(0 <= k < rn && (rs[k].path@) == q);
            }
        }
        assert forall|q: Seq<char>|
            !(lm.contains_key(q) || rm.contains_key(q)) implies !merge_conflict_at(bm, lm, rm, q)
            && merged_at(bm, lm, rm, q) is None by {
            assert(opt_at(lm, q) == None::<u64> && opt_at(rm, q) == None::<u64>);
        }
    }
    (tree, conflicts)
}

} // verus!
