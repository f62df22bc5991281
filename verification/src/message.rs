//! Commit messages.
//!
//! A cycle that stages several paths gets a message naming every one of
//! them, one line per change, in batch order — no change is silently
//! dropped from the summary.

use vstd::prelude::*;
use vstd::string::StringExecFns;

use crate::change::ChangeBatch;
use crate::change::ChangeKind;
use crate::change::ChangeRecord;

verus! {

/// The message line for one change.
pub open spec fn record_line(r: ChangeRecord) -> Seq<char> {
    match r.kind {
        ChangeKind::Deleted => "Remove "@ + r.path@ + " from the repository\n"@,
        _ => "Add changes from "@ + r.path@ + " to the repository\n"@,
    }
}

/// The aggregated message of a batch: the lines of all its records.
pub open spec fn message_of(s: Seq<ChangeRecord>) -> Seq<char>
    decreases s.len(),
{
    if s.len() == 0 {
        Seq::empty()
    } else {
        message_of(s.drop_last()) + record_line(s.last())
    }
}

/// Builds the commit message summarizing a whole batch.
pub fn build_commit_message(batch: &ChangeBatch) -> (m: String)
    ensures
        m@ == message_of(batch.records@),
{
    let ghost recs = batch.records@;
    let mut m = String::new();
    let n = batch.records.len();
    let mut i: usize = 0;
    proof {
        assert(recs.take(0) =~= Seq::<ChangeRecord>::empty());
    }
    while i < n
        invariant
            n == recs.len(),
            i <= n,
            batch.records@ == recs,
            m@ == message_of(recs.take(i as int)),
        decreases n - i,
    {
        let kind = batch.records[i].kind;
        match kind {
            ChangeKind::Deleted => {
                m.append("Remove ");
                m.append(batch.records[i].path.as_str());
                m.append(" from the repository\n");
            },
            _ => {
                m.append("Add changes from ");
                m.append(batch.records[i].path.as_str());
                m.append(" to the repository\n");
            },
        }
        proof {
            assert(recs.take(i + 1).drop_last() =~= recs.take(i as int));
            assert(recs.take(i + 1).last() == recs[i as int]);
        }
        i = i + 1;
    }
    proof {
        assert(recs.take(n as int) =~= recs);
    }
    m
}

} // verus!
