//! Snapshots of tracked content.
//!
//! A [`Tree`] is a finite map from path to content identifier, held as a
//! vector of entries strictly sorted by path. Commit trees, the staging
//! index and the working tree are all values of this type; its view is the
//! mathematical map the contracts speak of.

use vstd::prelude::*;

use crate::order::lemma_lex_lt_irreflexive;
use crate::order::lemma_lex_lt_transitive;
use crate::order::lex_lt;
use crate::order::path_compare;
use crate::order::PathOrder;

verus! {

/// One tracked file: a path and the identifier of its content.
pub struct TreeEntry {
    pub path: String,
    pub blob: u64,
}

/// A finite map from path to content identifier, sorted by path.
pub struct Tree {
    pub entries: Vec<TreeEntry>,
}

/// The entries are strictly increasing by path.
pub open spec fn entries_sorted(s: Seq<TreeEntry>) -> bool {
    forall|i: int, j: int|
        0 <= i < j < s.len() ==> lex_lt(#[trigger] s[i].path@, #[trigger] s[j].path@)
}

/// No two entries share a path.
pub open spec fn entry_paths_distinct(s: Seq<TreeEntry>) -> bool {
    forall|i: int, j: int|
        0 <= i < j < s.len() ==> (#[trigger] s[i].path@) != (#[trigger] s[j].path@)
}

/// The map that a sequence of entries stands for.
pub open spec fn seq_to_map(s: Seq<TreeEntry>) -> Map<Seq<char>, u64>
    decreases s.len(),
{
    if s.len() == 0 {
        Map::empty()
    } else {
        seq_to_map(s.drop_last()).insert(s.last().path@, s.last().blob)
    }
}

pub proof fn lemma_sorted_distinct(s: Seq<TreeEntry>)
    requires
        entries_sorted(s),
    ensures
        entry_paths_distinct(s),
{
    assert forall|i: int, j: int|
        0 <= i < j < s.len() implies (#[trigger] s[i].path@) != (#[trigger] s[j].path@) by {
        lemma_lex_lt_irreflexive(s[i].path@);
    }
}

/// With distinct paths, the map of a sequence binds exactly the entries'
/// paths, each to its entry's content.
pub proof fn lemma_seq_to_map_props(s: Seq<TreeEntry>)
    requires
        entry_paths_distinct(s),
    ensures
        forall|p: Seq<char>|
            #[trigger] seq_to_map(s).contains_key(p) ==> exists|i: int|
                0 <= i < s.len() && s[i].path@ == p,
        forall|i: int|
            0 <= i < s.len() ==> seq_to_map(s).contains_key(#[trigger] s[i].path@)
                && seq_to_map(s)[s[i].path@] == s[i].blob,
    decreases s.len(),
{
    if s.len() > 0 {
        let t = s.drop_last();
        assert forall|i: int, j: int|
            0 <= i < j < t.len() implies (#[trigger] t[i].path@) != (#[trigger] t[j].path@) by {
            assert(t[i] == s[i]);
            assert(t[j] == s[j]);
            assert(s[i].path@ != s[j].path@);
        }
        assert(entry_paths_distinct(t));
        lemma_seq_to_map_props(t);
        assert forall|p: Seq<char>| #[trigger]
            seq_to_map(s).contains_key(p) implies exists|i: int|
            0 <= i < s.len() && s[i].path@ == p by {
            if p == s.last().path@ {
                assert(s[s.len() - 1].path@ == p);
            } else {
                assert(seq_to_map(t).contains_key(p));
                let i = choose|i: int| 0 <= i < t.len() && t[i].path@ == p;
                assert(s[i].path@ == p);
            }
        }
        assert forall|i: int| 0 <= i < s.len() implies seq_to_map(s).contains_key(
            #[trigger] s[i].path@,
        ) && seq_to_map(s)[s[i].path@] == s[i].blob by {
            if i < s.len() - 1 {
                assert(t[i] == s[i]);
                assert(s[i].path@ != s.last().path@);
            }
        }
    }
}

/// Sequences equal entrywise in path view and content stand for equal maps.
pub proof fn lemma_seq_to_map_congruence(a: Seq<TreeEntry>, b: Seq<TreeEntry>)
    requires
        a.len() == b.len(),
        forall|i: int|
            0 <= i < a.len() ==> (#[trigger] a[i].path@) == b[i].path@ && a[i].blob == b[i].blob,
    ensures
        seq_to_map(a) == seq_to_map(b),
    decreases a.len(),
{
    if a.len() > 0 {
        let a1 = a.drop_last();
        let b1 = b.drop_last();
        assert forall|i: int|
            0 <= i < a1.len() implies (#[trigger] a1[i].path@) == b1[i].path@ && a1[i].blob
                == b1[i].blob by {
            assert(a1[i] == a[i]);
            assert(b1[i] == b[i]);
            assert(a[i].path@ == b[i].path@ && a[i].blob == b[i].blob);
        }
        lemma_seq_to_map_congruence(a1, b1);
        assert(a.last().path@ == b.last().path@ && a.last().blob == b.last().blob) by {
            assert(a[a.len() - 1].path@ == b[a.len() - 1].path@ && a[a.len() - 1].blob == b[a.len()
                - 1].blob);
        }
    }
}

/// Replacing the entry at a path's own slot updates the map at that path.
pub proof fn lemma_update_entry(s0: Seq<TreeEntry>, e: TreeEntry, i: int)
    requires
        entries_sorted(s0),
        0 <= i < s0.len(),
        e.path@ == s0[i].path@,
    ensures
        entries_sorted(s0.update(i, e)),
        seq_to_map(s0.update(i, e)) == seq_to_map(s0).insert(e.path@, e.blob),
{
    let s1 = s0.update(i, e);
    lemma_sorted_distinct(s0);
    lemma_seq_to_map_props(s0);
    assert forall|k: int| 0 <= k < s1.len() implies (#[trigger] s1[k].path@) == s0[k].path@ by {
        if k != i {
            assert(s1[k] == s0[k]);
        }
    }
    assert forall|a: int, b: int| 0 <= a < b < s1.len() implies lex_lt(
        #[trigger] s1[a].path@,
        #[trigger] s1[b].path@,
    ) by {
        assert(lex_lt(s0[a].path@, s0[b].path@));
    }
    assert(entries_sorted(s1));
    lemma_sorted_distinct(s1);
    lemma_seq_to_map_props(s1);
    assert forall|p: Seq<char>| true implies #[trigger] seq_to_map(s1).contains_key(p)
        == seq_to_map(s0).insert(e.path@, e.blob).contains_key(p) by {
        assert(s1[i].path@ == e.path@);
        if seq_to_map(s1).contains_key(p) {
            let k = choose|k: int| 0 <= k < s1.len() && s1[k].path@ == p;
            assert(s0[k].path@ == p);
        }
        if p != e.path@ && seq_to_map(s0).contains_key(p) {
            let k = choose|k: int| 0 <= k < s0.len() && s0[k].path@ == p;
            assert(s1[k].path@ == p);
        }
    }
    assert forall|p: Seq<char>| seq_to_map(s1).contains_key(p) implies seq_to_map(s1)[p]
        == seq_to_map(s0).insert(e.path@, e.blob)[p] by {
        let k = choose|k: int| 0 <= k < s1.len() && s1[k].path@ == p;
        assert(seq_to_map(s1)[p] == s1[k].blob);
        if k == i {
            assert(p == e.path@);
        } else {
            assert(p != e.path@) by {
                if p == e.path@ {
                    assert(s1[k].path@ == s1[i].path@);
                }
            }
            assert(s0[k].path@ == p);
            assert(seq_to_map(s0)[p] == s0[k].blob);
        }
    }
    assert(seq_to_map(s1) =~= seq_to_map(s0).insert(e.path@, e.blob));
}

/// Inserting an entry at its sorted slot adds its binding to the map.
pub proof fn lemma_insert_entry(s0: Seq<TreeEntry>, e: TreeEntry, i: int)
    requires
        entries_sorted(s0),
        0 <= i <= s0.len(),
        forall|j: int| 0 <= j < i ==> lex_lt(#[trigger] s0[j].path@, e.path@),
        forall|j: int| i <= j < s0.len() ==> lex_lt(e.path@, #[trigger] s0[j].path@),
    ensures
        entries_sorted(s0.insert(i, e)),
        seq_to_map(s0.insert(i, e)) == seq_to_map(s0).insert(e.path@, e.blob),
{
    let s1 = s0.insert(i, e);
    lemma_sorted_distinct(s0);
    lemma_seq_to_map_props(s0);
    assert(s1[i] == e);
    assert forall|a: int, b: int| 0 <= a < b < s1.len() implies lex_lt(
        #[trigger] s1[a].path@,
        #[trigger] s1[b].path@,
    ) by {
        if b < i {
            assert(s1[a] == s0[a] && s1[b] == s0[b]);
            assert(lex_lt(s0[a].path@, s0[b].path@));
        } else if a < i && b == i {
            assert(s1[a] == s0[a]);
            assert(lex_lt(s0[a].path@, e.path@));
        } else if a < i && b > i {
            assert(s1[a] == s0[a] && s1[b] == s0[b - 1]);
            assert(lex_lt(s0[a].path@, e.path@));
            assert(lex_lt(e.path@, s0[b - 1].path@));
            lemma_lex_lt_transitive(s0[a].path@, e.path@, s0[b - 1].path@);
        } else if a == i {
            assert(s1[b] == s0[b - 1]);
            assert(lex_lt(e.path@, s0[b - 1].path@));
        } else {
            assert(s1[a] == s0[a - 1] && s1[b] == s0[b - 1]);
            assert(lex_lt(s0[a - 1].path@, s0[b - 1].path@));
        }
    }
    assert(entries_sorted(s1));
    lemma_sorted_distinct(s1);
    lemma_seq_to_map_props(s1);
    assert forall|j: int| 0 <= j < s0.len() implies (#[trigger] s0[j].path@) != e.path@ by {
        lemma_lex_lt_irreflexive(e.path@);
    }
    assert forall|p: Seq<char>| true implies #[trigger] seq_to_map(s1).contains_key(p)
        == seq_to_map(s0).insert(e.path@, e.blob).contains_key(p) by {
        assert(s1[i].path@ == e.path@);
        if seq_to_map(s1).contains_key(p) {
            let k = choose|k: int| 0 <= k < s1.len() && s1[k].path@ == p;
            if k < i {
                assert(s0[k].path@ == p);
            } else if k > i {
                assert(s0[k - 1].path@ == p);
            }
        }
        if p != e.path@ && seq_to_map(s0).contains_key(p) {
            let k = choose|k: int| 0 <= k < s0.len() && s0[k].path@ == p;
            if k < i {
                assert(s1[k].path@ == p);
            } else {
                assert(s1[k + 1].path@ == p);
            }
        }
    }
    assert forall|p: Seq<char>| seq_to_map(s1).contains_key(p) implies seq_to_map(s1)[p]
        == seq_to_map(s0).insert(e.path@, e.blob)[p] by {
        let k = choose|k: int| 0 <= k < s1.len() && s1[k].path@ == p;
        assert(seq_to_map(s1)[p] == s1[k].blob);
        if k == i {
            assert(p == e.path@);
        } else if k < i {
            assert(s0[k].path@ == p);
            assert(s0[k].path@ != e.path@);
            assert(seq_to_map(s0)[p] == s0[k].blob);
        } else {
            assert(s0[k - 1].path@ == p);
            assert(s0[k - 1].path@ != e.path@);
            assert(seq_to_map(s0)[p] == s0[k - 1].blob);
        }
    }
    assert(seq_to_map(s1) =~= seq_to_map(s0).insert(e.path@, e.blob));
}

/// Removing the entry at a path's slot removes its binding from the map.
pub proof fn lemma_remove_entry(s0: Seq<TreeEntry>, i: int)
    requires
        entries_sorted(s0),
        0 <= i < s0.len(),
    ensures
        entries_sorted(s0.remove(i)),
        seq_to_map(s0.remove(i)) == seq_to_map(s0).remove(s0[i].path@),
{
    let s1 = s0.remove(i);
    let p0 = s0[i].path@;
    lemma_sorted_distinct(s0);
    lemma_seq_to_map_props(s0);
    assert(forall|k: int| 0 <= k < i ==> (#[trigger] s1[k]) == s0[k]);
    assert(forall|k: int| i <= k < s1.len() ==> (#[trigger] s1[k]) == s0[k + 1]);
    assert forall|a: int, b: int| 0 <= a < b < s1.len() implies lex_lt(
        #[trigger] s1[a].path@,
        #[trigger] s1[b].path@,
    ) by {
        if b < i {
            assert(s1[a] == s0[a] && s1[b] == s0[b]);
            assert(lex_lt(s0[a].path@, s0[b].path@));
        } else if a < i {
            assert(s1[a] == s0[a] && s1[b] == s0[b + 1]);
            assert(lex_lt(s0[a].path@, s0[b + 1].path@));
        } else {
            assert(s1[a] == s0[a + 1] && s1[b] == s0[b + 1]);
            assert(lex_lt(s0[a + 1].path@, s0[b + 1].path@));
        }
    }
    assert(entries_sorted(s1));
    lemma_sorted_distinct(s1);
    lemma_seq_to_map_props(s1);
    assert forall|q: Seq<char>| true implies #[trigger] seq_to_map(s1).contains_key(q)
        == seq_to_map(s0).remove(p0).contains_key(q) by {
        if seq_to_map(s1).contains_key(q) {
            let k = choose|k: int| 0 <= k < s1.len() && s1[k].path@ == q;
            if k < i {
                assert(s0[k].path@ == q);
                assert(q != p0) by {
                    if q == p0 {
                        assert(s0[k].path@ == s0[i].path@);
                    }
                }
            } else {
                assert(s0[k + 1].path@ == q);
                assert(q != p0) by {
                    if q == p0 {
                        assert(s0[k + 1].path@ == s0[i].path@);
                    }
                }
            }
        }
        if q != p0 && seq_to_map(s0).contains_key(q) {
            assert(exists|k: int| 0 <= k < s0.len() && s0[k].path@ == q);
            let k = choose|k: int| 0 <= k < s0.len() && s0[k].path@ == q;
            assert(k != i);
            if k < i {
                assert(s1[k].path@ == q);
            } else {
                assert(s1[k - 1].path@ == q);
            }
        }
    }
    assert forall|q: Seq<char>| seq_to_map(s1).contains_key(q) implies seq_to_map(s1)[q]
        == seq_to_map(s0).remove(p0)[q] by {
        let k = choose|k: int| 0 <= k < s1.len() && s1[k].path@ == q;
        assert(seq_to_map(s1)[q] == s1[k].blob);
        if k < i {
            assert(s0[k].path@ == q);
            assert(seq_to_map(s0)[q] == s0[k].blob);
        } else {
            assert(s0[k + 1].path@ == q);
            assert(seq_to_map(s0)[q] == s0[k + 1].blob);
        }
    }
    assert(seq_to_map(s1) =~= seq_to_map(s0).remove(p0));
}

impl View for Tree {
    type V = Map<Seq<char>, u64>;

    open spec fn view(&self) -> Map<Seq<char>, u64> {
        seq_to_map(self.entries@)
    }
}

impl Tree {
    /// The entries are strictly sorted by path.
    pub open spec fn wf(&self) -> bool {
        entries_sorted(self.entries@)
    }

    /// An empty snapshot: no tracked content.
    pub fn empty() -> (r: Tree)
        ensures
            r.wf(),
            r@ == Map::<Seq<char>, u64>::empty(),
            r.entries@.len() == 0,
    {
        Tree { entries: Vec::new() }
    }

    pub fn len(&self) -> (n: usize)
        ensures
            n == self.entries@.len(),
    {
        self.entries.len()
    }

    /// The content identifier at `path`, if the path is tracked.
    pub fn get(&self, path: &str) -> (r: Option<u64>)
        requires
            self.wf(),
        ensures
            r matches Some(b) ==> self@.contains_key(path@) && self@[path@] == b,
            r is None ==> !self@.contains_key(path@),
    {
        proof {
            lemma_sorted_distinct(self.entries@);
            lemma_seq_to_map_props(self.entries@);
        }
        let n = self.entries.len();
        let mut i: usize = 0;
        while i < n
            invariant
                n == self.entries@.len(),
                i <= n,
                self.wf(),
                entry_paths_distinct(self.entries@),
                forall|j: int| 0 <= j < i ==> (#[trigger] self.entries@[j].path@) != path@,
            decreases n - i,
        {
            match path_compare(self.entries[i].path.as_str(), path) {
                PathOrder::Same => {
                    proof {
                        lemma_seq_to_map_props(self.entries@);
                    }
                    return Some(self.entries[i].blob);
                },
                _ => {},
            }
            i = i + 1;
        }
        proof {
            if self@.contains_key(path@) {
                let j = choose|j: int|
                    0 <= j < self.entries@.len() && self.entries@[j].path@ == path@;
                assert(self.entries@[j].path@ == path@);
            }
        }
        None
    }

    /// Stages `blob` at `path`: binds the path to the content identifier,
    /// replacing any previous binding.
    pub fn set(&mut self, path: &str, blob: u64)
        requires
            old(self).wf(),
        ensures
            final(self).wf(),
            final(self)@ == old(self)@.insert(path@, blob),
    {
        let ghost s0 = self.entries@;
        let n = self.entries.len();
        let mut i: usize = 0;
        while i < n
            invariant
                n == self.entries@.len(),
                i <= n,
                *self == *old(self),
                self.entries@ == s0,
                entries_sorted(s0),
                forall|j: int| 0 <= j < i ==> lex_lt(#[trigger] s0[j].path@, path@),
            decreases n - i,
        {
            match path_compare(self.entries[i].path.as_str(), path) {
                PathOrder::Same => {
                    let e = TreeEntry { path: String::from_str(path), blob };
                    proof {
                        lemma_update_entry(s0, e, i as int);
                    }
                    self.entries.set(i, e);
                    return ;
                },
                PathOrder::After => {
                    let e = TreeEntry { path: String::from_str(path), blob };
                    proof {
                        assert forall|j: int| i <= j < s0.len() implies lex_lt(
                            path@,
                            #[trigger] s0[j].path@,
                        ) by {
                            if j > i {
                                lemma_lex_lt_transitive(path@, s0[i as int].path@, s0[j].path@);
                            }
                        }
                        lemma_insert_entry(s0, e, i as int);
                    }
                    self.entries.insert(i, e);
                    return ;
                },
                PathOrder::Before => {
                    i = i + 1;
                },
            }
        }
        let e = TreeEntry { path: String::from_str(path), blob };
        proof {
            lemma_insert_entry(s0, e, n as int);
        }
        self.entries.insert(n, e);
    }

    /// Unstages `path`: removes its binding if the path is tracked.
    pub fn remove(&mut self, path: &str)
        requires
            old(self).wf(),
        ensures
            final(self).wf(),
            final(self)@ == old(self)@.remove(path@),
    {
        let ghost s0 = self.entries@;
        proof {
            lemma_sorted_distinct(s0);
            lemma_seq_to_map_props(s0);
        }
        let n = self.entries.len();
        let mut i: usize = 0;
        while i < n
            invariant
                n == self.entries@.len(),
                i <= n,
                *self == *old(self),
                self.entries@ == s0,
                entries_sorted(s0),
                forall|j: int| 0 <= j < i ==> (#[trigger] s0[j].path@) != path@,
            decreases n - i,
        {
            match path_compare(self.entries[i].path.as_str(), path) {
                PathOrder::Same => {
                    proof {
                        assert(s0[i as int].path@ == path@);
                        lemma_remove_entry(s0, i as int);
                    }
                    self.entries.remove(i);
                    return ;
                },
                _ => {
                    i = i + 1;
                },
            }
        }
        proof {
            if seq_to_map(s0).contains_key(path@) {
                let j = choose|j: int| 0 <= j < s0.len() && s0[j].path@ == path@;
                assert(s0[j].path@ == path@);
            }
            assert(seq_to_map(s0).remove(path@) =~= seq_to_map(s0));
        }
    }

    /// A fresh copy holding the same bindings; used to snapshot the index
    /// into a commit tree or to materialize a commit tree on checkout.
    pub fn duplicate(&self) -> (r: Tree)
        ensures
            r.entries@.len() == self.entries@.len(),
            forall|i: int|
                0 <= i < self.entries@.len() ==> (#[trigger] r.entries@[i].path@)
                    == self.entries@[i].path@ && r.entries@[i].blob == self.entries@[i].blob,
            r@ == self@,
            self.wf() ==> r.wf(),
    {
        let mut out: Vec<TreeEntry> = Vec::new();
        let n = self.entries.len();
        let mut i: usize = 0;
        while i < n
            invariant
                n == self.entries@.len(),
                i <= n,
                out@.len() == i,
                forall|j: int|
                    0 <= j < i ==> (#[trigger] out@[j].path@) == self.entries@[j].path@
                        && out@[j].blob == self.entries@[j].blob,
            decreases n - i,
        {
            let ghost prev = out@;
            let p = self.entries[i].path.clone();
            let b = self.entries[i].blob;
            out.push(TreeEntry { path: p, blob: b });
            proof {
                assert(out@.len() == i + 1);
                assert forall|j: int|
                    0 <= j < i + 1 implies (#[trigger] out@[j].path@) == self.entries@[j].path@
                        && out@[j].blob == self.entries@[j].blob by {
                    if j < i {
                        assert(out@[j] == prev[j]);
                        assert(prev[j].path@ == self.entries@[j].path@);
                        assert(prev[j].blob == self.entries@[j].blob);
                    } else {
                        assert(out@[j].path == p);
                        assert(p@ == self.entries@[j].path@);
                        assert(out@[j].blob == b);
                    }
                }
            }
            i = i + 1;
        }
        let r = Tree { entries: out };
        proof {
            lemma_seq_to_map_congruence(r.entries@, self.entries@);
            if self.wf() {
                assert forall|a: int, b: int| 0 <= a < b < r.entries@.len() implies lex_lt(
                    #[trigger] r.entries@[a].path@,
                    #[trigger] r.entries@[b].path@,
                ) by {
                    assert(lex_lt(self.entries@[a].path@, self.entries@[b].path@));
                }
            }
        }
        r
    }

    /// True when `path` is tracked.
    pub fn contains(&self, path: &str) -> (r: bool)
        requires
            self.wf(),
        ensures
            r == self@.contains_key(path@),
    {
        match self.get(path) {
            Some(_) => true,
            None => false,
        }
    }
}

} // verus!
