//! The error taxonomy of the synchronization engine.

use vstd::prelude::*;

verus! {

/// Why a sync cycle was aborted.
///
/// `Backend` covers any failure of the version-control backend (object I/O,
/// reference updates, transport); `Credential` is an authentication failure
/// during fetch or push; `UnclassifiedStatus` is a working-tree path in a
/// state the scanner does not recognize and cannot safely reconcile.
/// An unresolved merge is not an error but a cycle outcome.
#[derive(Clone, Copy, PartialEq, Eq, Structural, Debug)]
pub enum SyncError {
    Backend,
    Credential,
    UnclassifiedStatus,
}

impl SyncError {
    /// A short description, for logs.
    pub fn describe(&self) -> (r: &'static str)
        ensures
            r@ == match *self {
                SyncError::Backend => "backend operation failed"@,
                SyncError::Credential => "credential acquisition failed"@,
                SyncError::UnclassifiedStatus => "unrecognized working-tree status"@,
            },
    {
        match *self {
            SyncError::Backend => "backend operation failed",
            SyncError::Credential => "credential acquisition failed",
            SyncError::UnclassifiedStatus => "unrecognized working-tree status",
        }
    }
}

} // verus!
