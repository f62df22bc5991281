//! Working-tree drift: classification, scanning and staging.
//!
//! A [`ChangeRecord`] says how one path drifted; a [`ChangeBatch`] collects
//! the drift of one sync cycle, ordered by path. `diff` computes the batch
//! that separates the working tree from the staging index, and `apply_batch`
//! stages a batch into the index. Staging is idempotent: see
//! [`lemma_apply_batch_idempotent`].

use vstd::prelude::*;

use crate::errors::SyncError;
use crate::order::lemma_lex_lt_irreflexive;
use crate::order::lemma_lex_lt_transitive;
use crate::order::lex_lt;
use crate::order::path_compare;
use crate::order::PathOrder;
use crate::tree::lemma_seq_to_map_props;
use crate::tree::lemma_sorted_distinct;
use crate::tree::Tree;
use crate::tree::TreeEntry;

verus! {

/// How a path drifted relative to the staging index.
#[derive(Clone, Copy, PartialEq, Eq, Structural, Debug)]
pub enum ChangeKind {
    Added,
    Modified,
    Deleted,
}

/// One path's drift.
pub struct ChangeRecord {
    pub path: String,
    pub kind: ChangeKind,
}

/// The drift of one sync cycle: records ordered by path, one per path.
pub struct ChangeBatch {
    pub records: Vec<ChangeRecord>,
}

/// A raw working-tree status reported by the backend for one path.
///
/// Only the three plain working-tree states are recognized; everything else
/// (index states, renames, conflicts) is `Other` and is refused rather than
/// silently skipped.
#[derive(Clone, Copy, PartialEq, Eq, Structural, Debug)]
pub enum RawStatus {
    WorktreeNew,
    WorktreeModified,
    WorktreeDeleted,
    Other,
}

/// Maps a raw status onto a change kind; a status outside the recognized set
/// aborts the cycle with `UnclassifiedStatus`.
pub fn classify_status(status: RawStatus) -> (r: Result<ChangeKind, SyncError>)
    ensures
        r == match status {
            RawStatus::WorktreeNew => Result::<ChangeKind, SyncError>::Ok(ChangeKind::Added),
            RawStatus::WorktreeModified => Result::<ChangeKind, SyncError>::Ok(
                ChangeKind::Modified,
            ),
            RawStatus::WorktreeDeleted => Result::<ChangeKind, SyncError>::Ok(ChangeKind::Deleted),
            RawStatus::Other => Result::<ChangeKind, SyncError>::Err(
                SyncError::UnclassifiedStatus,
            ),
        },
{
    match status {
        RawStatus::WorktreeNew => Ok(ChangeKind::Added),
        RawStatus::WorktreeModified => Ok(ChangeKind::Modified),
        RawStatus::WorktreeDeleted => Ok(ChangeKind::Deleted),
        RawStatus::Other => Err(SyncError::UnclassifiedStatus),
    }
}

/// The records are strictly increasing by path.
pub open spec fn records_sorted(s: Seq<ChangeRecord>) -> bool {
    forall|i: int, j: int|
        0 <= i < j < s.len() ==> lex_lt(#[trigger] s[i].path@, #[trigger] s[j].path@)
}

/// No two records share a path.
pub open spec fn record_paths_distinct(s: Seq<ChangeRecord>) -> bool {
    forall|i: int, j: int|
        0 <= i < j < s.len() ==> (#[trigger] s[i].path@) != (#[trigger] s[j].path@)
}

pub proof fn lemma_records_sorted_distinct(s: Seq<ChangeRecord>)
    requires
        records_sorted(s),
    ensures
        record_paths_distinct(s),
{
    assert forall|i: int, j: int|
        0 <= i < j < s.len() implies (#[trigger] s[i].path@) != (#[trigger] s[j].path@) by {
        lemma_lex_lt_irreflexive(s[i].path@);
    }
}

/// Some record carries `p` with kind `k`.
pub open spec fn rec_has(s: Seq<ChangeRecord>, p: Seq<char>, k: ChangeKind) -> bool {
    exists|i: int| 0 <= i < s.len() && (#[trigger] s[i].path@) == p && s[i].kind == k
}

/// Some record carries `p`.
pub open spec fn rec_mentions(s: Seq<ChangeRecord>, p: Seq<char>) -> bool {
    exists|i: int| 0 <= i < s.len() && (#[trigger] s[i].path@) == p
}

/// `p` is to be staged from the working tree.
pub open spec fn rec_staged(s: Seq<ChangeRecord>, p: Seq<char>) -> bool {
    rec_has(s, p, ChangeKind::Added) || rec_has(s, p, ChangeKind::Modified)
}

/// Every staged record's path is present in the working tree `w`.
pub open spec fn batch_applies_to(s: Seq<ChangeRecord>, w: Map<Seq<char>, u64>) -> bool {
    forall|i: int|
        0 <= i < s.len() && (#[trigger] s[i]).kind != ChangeKind::Deleted ==> w.contains_key(
            s[i].path@,
        )
}

impl ChangeBatch {
    /// Records are sorted by path, so paths are unique.
    pub open spec fn wf(&self) -> bool {
        records_sorted(self.records@)
    }

    /// An empty batch: a no-op cycle.
    pub fn empty() -> (r: ChangeBatch)
        ensures
            r.wf(),
            r.records@.len() == 0,
    {
        ChangeBatch { records: Vec::new() }
    }

    pub fn len(&self) -> (n: usize)
        ensures
            n == self.records@.len(),
    {
        self.records.len()
    }

    pub fn is_empty(&self) -> (r: bool)
        ensures
            r == (self.records@.len() == 0),
    {
        self.records.len() == 0
    }
}

/// Appending a record extends what the sequence carries by exactly that
/// record.
pub proof fn lemma_rec_push(s: Seq<ChangeRecord>, r: ChangeRecord)
    ensures
        forall|p: Seq<char>, k: ChangeKind|
            #[trigger] rec_has(s.push(r), p, k) <==> rec_has(s, p, k) || (p == r.path@ && k
                == r.kind),
        forall|p: Seq<char>|
            #[trigger] rec_mentions(s.push(r), p) <==> rec_mentions(s, p) || p == r.path@,
{
    let t = s.push(r);
    assert forall|p: Seq<char>, k: ChangeKind| #[trigger]
        rec_has(t, p, k) implies rec_has(s, p, k) || (p == r.path@ && k == r.kind) by {
        let i = choose|i: int| 0 <= i < t.len() && t[i].path@ == p && t[i].kind == k;
        if i < s.len() {
            assert(s[i].path@ == p && s[i].kind == k);
        } else {
            assert(t[i] == r);
        }
    }
    assert forall|p: Seq<char>, k: ChangeKind|
        rec_has(s, p, k) || (p == r.path@ && k == r.kind) implies #[trigger] rec_has(
        t,
        p,
        k,
    ) by {
        if rec_has(s, p, k) {
            let i = choose|i: int| 0 <= i < s.len() && s[i].path@ == p && s[i].kind == k;
            assert(t[i].path@ == p && t[i].kind == k);
        } else {
            assert(t[s.len() as int].path@ == p && t[s.len() as int].kind == k);
        }
    }
    assert forall|p: Seq<char>| #[trigger]
        rec_mentions(t, p) implies rec_mentions(s, p) || p == r.path@ by {
        let i = choose|i: int| 0 <= i < t.len() && t[i].path@ == p;
        if i < s.len() {
            assert(s[i].path@ == p);
        } else {
            assert(t[i] == r);
        }
    }
    assert forall|p: Seq<char>|
        rec_mentions(s, p) || p == r.path@ implies #[trigger] rec_mentions(t, p) by {
        if rec_mentions(s, p) {
            let i = choose|i: int| 0 <= i < s.len() && s[i].path@ == p;
            assert(t[i].path@ == p);
        } else {
            assert(t[s.len() as int].path@ == p);
        }
    }
}

/// The index that results from staging a batch against working tree `w`:
/// staged paths take their working-tree content, deleted paths leave, all
/// others keep their binding in `m`.
pub open spec fn applied(
    m: Map<Seq<char>, u64>,
    s: Seq<ChangeRecord>,
    w: Map<Seq<char>, u64>,
) -> Map<Seq<char>, u64> {
    Map::new(
        |p: Seq<char>|
            if rec_staged(s, p) {
                w.contains_key(p)
            } else if rec_has(s, p, ChangeKind::Deleted) {
                false
            } else {
                m.contains_key(p)
            },
        |p: Seq<char>|
            if rec_staged(s, p) {
                w[p]
            } else {
                m[p]
            },
    )
}

/// Staging one more record refines the staged prefix by a single map update.
proof fn lemma_applied_step(
    m: Map<Seq<char>, u64>,
    s: Seq<ChangeRecord>,
    n: int,
    w: Map<Seq<char>, u64>,
)
    requires
        record_paths_distinct(s),
        0 <= n < s.len(),
        s[n].kind != ChangeKind::Deleted ==> w.contains_key(s[n].path@),
    ensures
        applied(m, s.take(n + 1), w) == (if s[n].kind is Deleted {
            applied(m, s.take(n), w).remove(s[n].path@)
        } else {
            applied(m, s.take(n), w).insert(s[n].path@, w[s[n].path@])
        }),
{
    let a = s.take(n);
    let b = s.take(n + 1);
    let r = s[n];
    assert(b =~= a.push(r));
    lemma_rec_push(a, r);
    assert forall|q: Seq<char>| true implies !(#[trigger] rec_mentions(a, q)) || q != r.path@ by {
        if rec_mentions(a, q) && q == r.path@ {
            let i = choose|i: int| 0 <= i < a.len() && a[i].path@ == q;
            assert(s[i].path@ == q);
            assert(s[i].path@ != s[n].path@);
        }
    }
    assert forall|q: Seq<char>, k: ChangeKind| #[trigger]
        rec_has(a, q, k) implies rec_mentions(a, q) by {
        let i = choose|i: int| 0 <= i < a.len() && a[i].path@ == q && a[i].kind == k;
        assert(a[i].path@ == q);
    }
    if r.kind is Deleted {
        assert(applied(m, b, w) =~= applied(m, a, w).remove(r.path@));
    } else {
        assert(applied(m, b, w) =~= applied(m, a, w).insert(r.path@, w[r.path@]));
    }
}

/// Staging a batch twice yields the same index as staging it once:
/// staged paths already carry their working-tree content and deleted paths
/// are already gone, so the second application changes nothing.
pub proof fn lemma_apply_batch_idempotent(
    m: Map<Seq<char>, u64>,
    s: Seq<ChangeRecord>,
    w: Map<Seq<char>, u64>,
)
    ensures
        applied(applied(m, s, w), s, w) == applied(m, s, w),
{
    assert(applied(applied(m, s, w), s, w) =~= applied(m, s, w));
}

/// Stages a batch into the index: each added or modified path takes its
/// current working-tree content, each deleted path is removed. The batch
/// must list each path once and must speak of the working tree it is staged
/// from.
pub fn apply_batch(index: &mut Tree, batch: &ChangeBatch, worktree: &Tree)
    requires
        old(index).wf(),
        worktree.wf(),
        batch.wf(),
        batch_applies_to(batch.records@, worktree@),
    ensures
        final(index).wf(),
        final(index)@ == applied(old(index)@, batch.records@, worktree@),
{
    let ghost m0 = index@;
    let ghost recs = batch.records@;
    proof {
        lemma_records_sorted_distinct(recs);
        assert(recs.take(0) =~= Seq::<ChangeRecord>::empty());
        assert(applied(m0, recs.take(0), worktree@) =~= m0);
    }
    let n = batch.records.len();
    let mut i: usize = 0;
    while i < n
        invariant
            n == recs.len(),
            i <= n,
            batch.records@ == recs,
            record_paths_distinct(recs),
            batch_applies_to(recs, worktree@),
            worktree.wf(),
            index.wf(),
            index@ == applied(m0, recs.take(i as int), worktree@),
        decreases n - i,
    {
        let kind = batch.records[i].kind;
        proof {
            lemma_applied_step(m0, recs, i as int, worktree@);
        }
        match kind {
            ChangeKind::Deleted => {
                index.remove(batch.records[i].path.as_str());
            },
            _ => {
                let b = match worktree.get(batch.records[i].path.as_str()) {
                    Some(b) => b,
                    None => {
                        proof {
                            assert(false);
                        }
                        0
                    },
                };
                index.set(batch.records[i].path.as_str(), b);
            },
        }
        i = i + 1;
    }
    proof {
        assert(recs.take(n as int) =~= recs);
    }
}

/// Staging the drift of a working tree brings the index exactly to that
/// working tree.
pub proof fn lemma_stage_drift(
    w: Map<Seq<char>, u64>,
    m: Map<Seq<char>, u64>,
    s: Seq<ChangeRecord>,
)
    requires
        is_drift(s, w, m),
    ensures
        applied(m, s, w) == w,
{
    let a = applied(m, s, w);
    assert forall|q: Seq<char>| true implies #[trigger] a.contains_key(q) == w.contains_key(q) by {
        assert(rec_has(s, q, ChangeKind::Added) <==> w.contains_key(q) && !m.contains_key(q));
        assert(rec_has(s, q, ChangeKind::Modified) <==> w.contains_key(q) && m.contains_key(q)
            && w[q] != m[q]);
        assert(rec_has(s, q, ChangeKind::Deleted) <==> m.contains_key(q) && !w.contains_key(q));
    }
    assert forall|q: Seq<char>| a.contains_key(q) implies a[q] == w[q] by {
        assert(rec_has(s, q, ChangeKind::Added) <==> w.contains_key(q) && !m.contains_key(q));
        assert(rec_has(s, q, ChangeKind::Modified) <==> w.contains_key(q) && m.contains_key(q)
            && w[q] != m[q]);
        assert(rec_has(s, q, ChangeKind::Deleted) <==> m.contains_key(q) && !w.contains_key(q));
    }
    assert(a =~= w);
}

/// Some entry among the first `n` carries path `p`.
pub open spec fn prefix_has(s: Seq<TreeEntry>, n: int, p: Seq<char>) -> bool {
    exists|k: int| 0 <= k < n && (#[trigger] s[k].path@) == p
}

/// `s` is exactly the drift of working tree `w` against index `m`: an
/// `Added` record for each path only in `w`, a `Modified` record for each
/// path in both with different content, a `Deleted` record for each path
/// only in `m`, and nothing else.
pub open spec fn is_drift(
    s: Seq<ChangeRecord>,
    w: Map<Seq<char>, u64>,
    m: Map<Seq<char>, u64>,
) -> bool {
    &&& forall|p: Seq<char>|
        #[trigger] rec_has(s, p, ChangeKind::Added) <==> w.contains_key(p) && !m.contains_key(p)
    &&& forall|p: Seq<char>|
        #[trigger] rec_has(s, p, ChangeKind::Modified) <==> w.contains_key(p) && m.contains_key(p)
            && w[p] != m[p]
    &&& forall|p: Seq<char>|
        #[trigger] rec_has(s, p, ChangeKind::Deleted) <==> m.contains_key(p) && !w.contains_key(p)
}

/// Computes the drift of the working tree against the staging index: the
/// change batch whose staging brings the index to the working tree. The
/// batch is ordered by path; it is empty exactly when the two agree.
pub fn diff(worktree: &Tree, index: &Tree) -> (b: ChangeBatch)
    requires
        worktree.wf(),
        index.wf(),
    ensures
        b.wf(),
        is_drift(b.records@, worktree@, index@),
        batch_applies_to(b.records@, worktree@),
        (b.records@.len() == 0) == (worktree@ == index@),
{
    let ghost wts = worktree.entries@;
    let ghost ixs = index.entries@;
    let wn = worktree.entries.len();
    let xn = index.entries.len();
    let mut out: Vec<ChangeRecord> = Vec::new();
    let mut i: usize = 0;
    let mut j: usize = 0;
    while i < wn || j < xn
        invariant
            worktree.wf(),
            index.wf(),
            wts == worktree.entries@,
            ixs == index.entries@,
            wn == wts.len(),
            xn == ixs.len(),
            i <= wn,
            j <= xn,
            records_sorted(out@),
            forall|k: int|
                0 <= k < out@.len() ==> ((i < wn ==> lex_lt(
                    (#[trigger] out@[k].path@),
                    wts[i as int].path@,
                )) && (j < xn ==> lex_lt(out@[k].path@, ixs[j as int].path@))),
            forall|k: int|
                0 <= k < i ==> (j < xn ==> lex_lt(
                    (#[trigger] wts[k].path@),
                    ixs[j as int].path@,
                )),
            forall|k: int|
                0 <= k < j ==> (i < wn ==> lex_lt(
                    (#[trigger] ixs[k].path@),
                    wts[i as int].path@,
                )),
            forall|p: Seq<char>|
                #[trigger] rec_has(out@, p, ChangeKind::Added) <==> prefix_has(wts, i as int, p)
                    && !index@.contains_key(p),
            forall|p: Seq<char>|
                #[trigger] rec_has(out@, p, ChangeKind::Modified) <==> prefix_has(wts, i as int, p)
                    && index@.contains_key(p) && worktree@[p] != index@[p],
            forall|p: Seq<char>|
                #[trigger] rec_has(out@, p, ChangeKind::Deleted) <==> prefix_has(ixs, j as int, p)
                    && !worktree@.contains_key(p),
        decreases wn - i + xn - j,
    {
        proof {
            lemma_sorted_distinct(wts);
            lemma_seq_to_map_props(wts);
            lemma_sorted_distinct(ixs);
            lemma_seq_to_map_props(ixs);
        }
        let cmp: PathOrder = if i >= wn {
            PathOrder::After
        } else if j >= xn {
            PathOrder::Before
        } else {
            path_compare(
                worktree.entries[i].path.as_str(),
                index.entries[j].path.as_str(),
            )
        };
        match cmp {
            PathOrder::Before => {
                // The working-tree head is below every remaining index path,
                // and above everything already matched: it is only in the
                // working tree.
                let ghost p = wts[i as int].path@;
                let ghost out0 = out@;
                proof {
                    assert forall|m: int| 0 <= m < xn implies (#[trigger] ixs[m].path@) != p by {
                        if m < j {
                            lemma_lex_lt_irreflexive(p);
                        } else {
                            assert(j < xn);
                            assert(lex_lt(p, ixs[j as int].path@));
                            if m > j {
                                lemma_lex_lt_transitive(p, ixs[j as int].path@, ixs[m].path@);
                            }
                            lemma_lex_lt_irreflexive(p);
                        }
                    }
                    if index@.contains_key(p) {
                        let m = choose|m: int| 0 <= m < ixs.len() && ixs[m].path@ == p;
                        assert(ixs[m].path@ == p);
                    }
                    assert(!index@.contains_key(p));
                }
                let rec = ChangeRecord {
                    path: worktree.entries[i].path.clone(),
                    kind: ChangeKind::Added,
                };
                proof {
                    lemma_rec_push(out0, rec);
                }
                out.push(rec);
                i = i + 1;
                proof {
                    assert forall|a: int, b: int| 0 <= a < b < out@.len() implies lex_lt(
                        (#[trigger] out@[a].path@),
                        (#[trigger] out@[b].path@),
                    ) by {
                        if b < out0.len() {
                            assert(out@[a] == out0[a] && out@[b] == out0[b]);
                            assert(lex_lt(out0[a].path@, out0[b].path@));
                        } else {
                            assert(out@[a] == out0[a]);
                            assert(out@[b].path@ == p);
                            assert(lex_lt(out0[a].path@, p));
                        }
                    }
                    assert(records_sorted(out@));
                    assert forall|q: Seq<char>| true implies (#[trigger] prefix_has(
                        wts,
                        i as int,
                        q,
                    ) == (prefix_has(wts, i as int - 1, q) || q == p)) by {
                        if prefix_has(wts, i as int, q) {
                            let k = choose|k: int| 0 <= k < i && wts[k].path@ == q;
                            if k < i - 1 {
                                assert(prefix_has(wts, i as int - 1, q));
                            }
                        }
                        if prefix_has(wts, i as int - 1, q) {
                            let k = choose|k: int| 0 <= k < i - 1 && wts[k].path@ == q;
                            assert(0 <= k < i && wts[k].path@ == q);
                        }
                        if q == p {
                            assert(wts[i as int - 1].path@ == q);
                        }
                    }
                    assert forall|q: Seq<char>|
                        (#[trigger] prefix_has(wts, i as int - 1, q)) implies q != p by {
                        let k = choose|k: int| 0 <= k < i - 1 && wts[k].path@ == q;
                        if q == p {
                            assert(wts[k].path@ == wts[i as int - 1].path@);
                        }
                    }
                    assert(worktree@.contains_key(p) && worktree@[p] == wts[i as int - 1].blob);
                    assert forall|k: int| 0 <= k < out@.len() implies ((i < wn ==> lex_lt(
                        (#[trigger] out@[k].path@),
                        wts[i as int].path@,
                    )) && (j < xn ==> lex_lt(out@[k].path@, ixs[j as int].path@))) by {
                        if k < out0.len() {
                            assert(out@[k] == out0[k]);
                            assert(lex_lt(out0[k].path@, p));
                            if i < wn {
                                assert(lex_lt(p, wts[i as int].path@));
                                lemma_lex_lt_transitive(out0[k].path@, p, wts[i as int].path@);
                            }
                        } else {
                            assert(out@[k].path@ == p);
                            if i < wn {
                                assert(lex_lt(p, wts[i as int].path@));
                            }
                            if j < xn {
                                assert(lex_lt(p, ixs[j as int].path@));
                            }
                        }
                    }
                    assert forall|k: int| 0 <= k < i implies (j < xn ==> lex_lt(
                        (#[trigger] wts[k].path@),
                        ixs[j as int].path@,
                    )) by {
                        if j < xn && k == i - 1 {
                            assert(lex_lt(p, ixs[j as int].path@));
                        }
                    }
                    assert forall|k: int| 0 <= k < j implies (i < wn ==> lex_lt(
                        (#[trigger] ixs[k].path@),
                        wts[i as int].path@,
                    )) by {
                        if i < wn {
                            lemma_lex_lt_transitive(
                                ixs[k].path@,
                                wts[i as int - 1].path@,
                                wts[i as int].path@,
                            );
                        }
                    }
                }
            },
            PathOrder::After => {
                // The index head is below every remaining working-tree path:
                // it is only in the index.
                let ghost p = ixs[j as int].path@;
                let ghost out0 = out@;
                proof {
                    assert forall|m: int| 0 <= m < wn implies (#[trigger] wts[m].path@) != p by {
                        if m < i {
                            lemma_lex_lt_irreflexive(p);
                        } else {
                            assert(i < wn);
                            assert(lex_lt(p, wts[i as int].path@));
                            if m > i {
                                lemma_lex_lt_transitive(p, wts[i as int].path@, wts[m].path@);
                            }
                            lemma_lex_lt_irreflexive(p);
                        }
                    }
                    if worktree@.contains_key(p) {
                        let m = choose|m: int| 0 <= m < wts.len() && wts[m].path@ == p;
                        assert(wts[m].path@ == p);
                    }
                    assert(!worktree@.contains_key(p));
                }
                let rec = ChangeRecord {
                    path: index.entries[j].path.clone(),
                    kind: ChangeKind::Deleted,
                };
                proof {
                    lemma_rec_push(out0, rec);
                }
                out.push(rec);
                j = j + 1;
                proof {
                    assert forall|a: int, b: int| 0 <= a < b < out@.len() implies lex_lt(
                        (#[trigger] out@[a].path@),
                        (#[trigger] out@[b].path@),
                    ) by {
                        if b < out0.len() {
                            assert(out@[a] == out0[a] && out@[b] == out0[b]);
                            assert(lex_lt(out0[a].path@, out0[b].path@));
                        } else {
                            assert(out@[a] == out0[a]);
                            assert(out@[b].path@ == p);
                            assert(lex_lt(out0[a].path@, p));
                        }
                    }
                    assert(records_sorted(out@));
                    assert forall|q: Seq<char>| true implies (#[trigger] prefix_has(
                        ixs,
                        j as int,
                        q,
                    ) == (prefix_has(ixs, j as int - 1, q) || q == p)) by {
                        if prefix_has(ixs, j as int, q) {
                            let k = choose|k: int| 0 <= k < j && ixs[k].path@ == q;
                            if k < j - 1 {
                                assert(prefix_has(ixs, j as int - 1, q));
                            }
                        }
                        if prefix_has(ixs, j as int - 1, q) {
                            let k = choose|k: int| 0 <= k < j - 1 && ixs[k].path@ == q;
                            assert(0 <= k < j && ixs[k].path@ == q);
                        }
                        if q == p {
                            assert(ixs[j as int - 1].path@ == q);
                        }
                    }
                    assert forall|q: Seq<char>|
                        (#[trigger] prefix_has(ixs, j as int - 1, q)) implies q != p by {
                        let k = choose|k: int| 0 <= k < j - 1 && ixs[k].path@ == q;
                        if q == p {
                            assert(ixs[k].path@ == ixs[j as int - 1].path@);
                        }
                    }
                    assert(index@.contains_key(p) && index@[p] == ixs[j as int - 1].blob);
                    assert forall|k: int| 0 <= k < out@.len() implies ((i < wn ==> lex_lt(
                        (#[trigger] out@[k].path@),
                        wts[i as int].path@,
                    )) && (j < xn ==> lex_lt(out@[k].path@, ixs[j as int].path@))) by {
                        if k < out0.len() {
                            assert(out@[k] == out0[k]);
                            assert(lex_lt(out0[k].path@, p));
                            if j < xn {
                                assert(lex_lt(p, ixs[j as int].path@));
                                lemma_lex_lt_transitive(out0[k].path@, p, ixs[j as int].path@);
                            }
                        } else {
                            assert(out@[k].path@ == p);
                            if j < xn {
                                assert(lex_lt(p, ixs[j as int].path@));
                            }
                            if i < wn {
                                assert(lex_lt(p, wts[i as int].path@));
                            }
                        }
                    }
                    assert forall|k: int| 0 <= k < j implies (i < wn ==> lex_lt(
                        (#[trigger] ixs[k].path@),
                        wts[i as int].path@,
                    )) by {
                        if i < wn && k == j - 1 {
                            assert(lex_lt(p, wts[i as int].path@));
                        }
                    }
                    assert forall|k: int| 0 <= k < i implies (j < xn ==> lex_lt(
                        (#[trigger] wts[k].path@),
                        ixs[j as int].path@,
                    )) by {
                        if j < xn {
                            lemma_lex_lt_transitive(
                                wts[k].path@,
                                ixs[j as int - 1].path@,
                                ixs[j as int].path@,
                            );
                        }
                    }
                }
            },
            PathOrder::Same => {
                // The heads agree on the path: it is in both snapshots, and
                // drifted exactly when the contents differ.
                let ghost p = wts[i as int].path@;
                let ghost out0 = out@;
                let wb = worktree.entries[i].blob;
                let xb = index.entries[j].blob;
                proof {
                    assert(ixs[j as int].path@ == p);
                    assert(worktree@.contains_key(p) && worktree@[p] == wb);
                    assert(index@.contains_key(p) && index@[p] == xb);
                }
                if wb != xb {
                    let rec = ChangeRecord {
                        path: worktree.entries[i].path.clone(),
                        kind: ChangeKind::Modified,
                    };
                    proof {
                        lemma_rec_push(out0, rec);
                    }
                    out.push(rec);
                }
                i = i + 1;
                j = j + 1;
                proof {
                    if out@.len() > out0.len() {
                        assert forall|a: int, b: int| 0 <= a < b < out@.len() implies lex_lt(
                            (#[trigger] out@[a].path@),
                            (#[trigger] out@[b].path@),
                        ) by {
                            if b < out0.len() {
                                assert(out@[a] == out0[a] && out@[b] == out0[b]);
                                assert(lex_lt(out0[a].path@, out0[b].path@));
                            } else {
                                assert(out@[a] == out0[a]);
                                assert(out@[b].path@ == p);
                                assert(lex_lt(out0[a].path@, p));
                            }
                        }
                        assert(records_sorted(out@));
                    }
                    assert(records_sorted(out@));
                    assert forall|q: Seq<char>| true implies (#[trigger] prefix_has(
                        wts,
                        i as int,
                        q,
                    ) == (prefix_has(wts, i as int - 1, q) || q == p)) by {
                        if prefix_has(wts, i as int, q) {
                            let k = choose|k: int| 0 <= k < i && wts[k].path@ == q;
                            if k < i - 1 {
                                assert(prefix_has(wts, i as int - 1, q));
                            }
                        }
                        if prefix_has(wts, i as int - 1, q) {
                            let k = choose|k: int| 0 <= k < i - 1 && wts[k].path@ == q;
                            assert(0 <= k < i && wts[k].path@ == q);
                        }
                        if q == p {
                            assert(wts[i as int - 1].path@ == q);
                        }
                    }
                    assert forall|q: Seq<char>| true implies (#[trigger] prefix_has(
                        ixs,
                        j as int,
                        q,
                    ) == (prefix_has(ixs, j as int - 1, q) || q == p)) by {
                        if prefix_has(ixs, j as int, q) {
                            let k = choose|k: int| 0 <= k < j && ixs[k].path@ == q;
                            if k < j - 1 {
                                assert(prefix_has(ixs, j as int - 1, q));
                            }
                        }
                        if prefix_has(ixs, j as int - 1, q) {
                            let k = choose|k: int| 0 <= k < j - 1 && ixs[k].path@ == q;
                            assert(0 <= k < j && ixs[k].path@ == q);
                        }
                        if q == p {
                            assert(ixs[j as int - 1].path@ == q);
                        }
                    }
                    // No earlier record carries p: earlier working-tree
                    // entries all differ from p.
                    assert forall|q: Seq<char>|
                        (#[trigger] prefix_has(wts, i as int - 1, q)) implies q != p by {
                        let k = choose|k: int| 0 <= k < i - 1 && wts[k].path@ == q;
                        if q == p {
                            assert(wts[k].path@ == wts[i as int - 1].path@);
                        }
                    }
                    assert forall|q: Seq<char>|
                        (#[trigger] prefix_has(ixs, j as int - 1, q)) implies q != p by {
                        let k = choose|k: int| 0 <= k < j - 1 && ixs[k].path@ == q;
                        if q == p {
                            assert(ixs[k].path@ == ixs[j as int - 1].path@);
                        }
                    }
                    // Frontier and cross bounds for the advanced heads.
                    assert forall|k: int| 0 <= k < out@.len() implies ((i < wn ==> lex_lt(
                        (#[trigger] out@[k].path@),
                        wts[i as int].path@,
                    )) && (j < xn ==> lex_lt(out@[k].path@, ixs[j as int].path@))) by {
                        if k < out0.len() {
                            assert(out@[k] == out0[k]);
                            if i < wn {
                                lemma_lex_lt_transitive(
                                    out0[k].path@,
                                    wts[i as int - 1].path@,
                                    wts[i as int].path@,
                                );
                            }
                            if j < xn {
                                lemma_lex_lt_transitive(
                                    out0[k].path@,
                                    ixs[j as int - 1].path@,
                                    ixs[j as int].path@,
                                );
                            }
                        } else {
                            assert(out@[k].path@ == p);
                        }
                    }
                    assert forall|k: int| 0 <= k < i implies (j < xn ==> lex_lt(
                        (#[trigger] wts[k].path@),
                        ixs[j as int].path@,
                    )) by {
                        if j < xn {
                            if k < i - 1 {
                                lemma_lex_lt_transitive(
                                    wts[k].path@,
                                    ixs[j as int - 1].path@,
                                    ixs[j as int].path@,
                                );
                            } else {
                                assert(wts[k].path@ == ixs[j as int - 1].path@);
                            }
                        }
                    }
                    assert forall|k: int| 0 <= k < j implies (i < wn ==> lex_lt(
                        (#[trigger] ixs[k].path@),
                        wts[i as int].path@,
                    )) by {
                        if i < wn {
                            if k < j - 1 {
                                lemma_lex_lt_transitive(
                                    ixs[k].path@,
                                    wts[i as int - 1].path@,
                                    wts[i as int].path@,
                                );
                            } else {
                                assert(ixs[k].path@ == wts[i as int - 1].path@);
                            }
                        }
                    }
                }
            },
        }
    }
    let b = ChangeBatch { records: out };
    proof {
        lemma_sorted_distinct(wts);
        lemma_seq_to_map_props(wts);
        lemma_sorted_distinct(ixs);
        lemma_seq_to_map_props(ixs);
        assert forall|p: Seq<char>| true implies (#[trigger] prefix_has(wts, wn as int, p)
            == worktree@.contains_key(p)) by {
            if prefix_has(wts, wn as int, p) {
                let k = choose|k: int| 0 <= k < wn && wts[k].path@ == p;
                assert(wts[k].path@ == p);
            }
            if worktree@.contains_key(p) {
                let k = choose|k: int| 0 <= k < wts.len() && wts[k].path@ == p;
                assert(0 <= k < wn && wts[k].path@ == p);
            }
        }
        assert forall|p: Seq<char>| true implies (#[trigger] prefix_has(ixs, xn as int, p)
            == index@.contains_key(p)) by {
            if prefix_has(ixs, xn as int, p) {
                let k = choose|k: int| 0 <= k < xn && ixs[k].path@ == p;
                assert(ixs[k].path@ == p);
            }
            if index@.contains_key(p) {
                let k = choose|k: int| 0 <= k < ixs.len() && ixs[k].path@ == p;
                assert(0 <= k < xn && ixs[k].path@ == p);
            }
        }
        assert(is_drift(b.records@, worktree@, index@));
        assert forall|idx: int|
            0 <= idx < b.records@.len() && (#[trigger] b.records@[idx]).kind
                != ChangeKind::Deleted implies worktree@.contains_key(b.records@[idx].path@) by {
            let q = b.records@[idx].path@;
            if b.records@[idx].kind == ChangeKind::Added {
                assert(rec_has(b.records@, q, ChangeKind::Added));
            } else {
                assert(b.records@[idx].kind == ChangeKind::Modified);
                assert(rec_has(b.records@, q, ChangeKind::Modified));
            }
        }
        if b.records@.len() == 0 {
            assert forall|p: Seq<char>| true implies #[trigger] worktree@.contains_key(p)
                == index@.contains_key(p) && (worktree@.contains_key(p)
                ==> worktree@[p] == index@[p]) by {
                assert(!rec_has(b.records@, p, ChangeKind::Added));
                assert(!rec_has(b.records@, p, ChangeKind::Modified));
                assert(!rec_has(b.records@, p, ChangeKind::Deleted));
            }
            assert(worktree@ =~= index@);
        }
        if worktree@ == index@ && b.records@.len() > 0 {
            let r0 = b.records@[0];
            let q = r0.path@;
            assert(b.records@[0].path@ == q);
            if r0.kind == ChangeKind::Added {
                assert(rec_has(b.records@, q, ChangeKind::Added));
            } else if r0.kind == ChangeKind::Modified {
                assert(rec_has(b.records@, q, ChangeKind::Modified));
            } else {
                assert(rec_has(b.records@, q, ChangeKind::Deleted));
            }
            assert(false);
        }
    }
    b
}

} // verus!

