//! How a store is kept in step with a remote store, and which side wins
//! where the two differ.

use crate::model::Document;
use vstd::prelude::*;

verus! {

/// When documents are exchanged with the remote store.
#[derive(Debug, Clone, Copy, PartialEq, Eq, Structural)]
pub enum SyncMode {
    /// Never.
    Off,
    /// Only when asked.
    Manual,
    /// As soon as they change.
    Live,
    /// In batches, at intervals.
    Batch,
    /// In the background, at low priority.
    Background,
}

/// Which side wins where a document differs on the two sides.
#[derive(Debug, Clone, Copy, PartialEq, Eq, Structural)]
pub enum ConflictResolution {
    /// The side with the higher version; the local side where they are
    /// equal.
    LastWriteWins,
    /// The local side.
    ClientWins,
    /// The remote side.
    ServerWins,
}

/// Whether the local document wins a conflict.
pub open spec fn local_wins(
    strategy: ConflictResolution,
    local_version: u64,
    remote_version: u64,
) -> bool {
    match strategy {
        ConflictResolution::LastWriteWins => local_version >= remote_version,
        ConflictResolution::ClientWins => true,
        ConflictResolution::ServerWins => false,
    }
}

/// The document that wins the conflict between `local` and `remote`.
pub fn resolve_conflict(strategy: ConflictResolution, local: &Document, remote: &Document) -> (r:
    Document)
    ensures
        r@ == if local_wins(strategy, local.version, remote.version) {
            local@
        } else {
            remote@
        },
{
    let local_wins = match strategy {
        ConflictResolution::LastWriteWins => local.version >= remote.version,
        ConflictResolution::ClientWins => true,
        ConflictResolution::ServerWins => false,
    };
    if local_wins {
        local.duplicate()
    } else {
        remote.duplicate()
    }
}

/// Whether a sync in the given mode runs on its own, without being asked.
pub fn runs_unattended(mode: SyncMode) -> (r: bool)
    ensures
        r == (mode == SyncMode::Live || mode == SyncMode::Batch || mode == SyncMode::Background),
{
    match mode {
        SyncMode::Live => true,
        SyncMode::Batch => true,
        SyncMode::Background => true,
        _ => false,
    }
}

} // verus!
