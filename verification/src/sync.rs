//! The remote store: where documents are pushed to and pulled from.

pub mod enhanced;

use crate::model::Document;
use vstd::prelude::*;

verus! {

/// A store somewhere else that takes documents and hands them out. Nothing
/// is known of what it answers.
pub trait RemoteStore {
    /// Hands the document to the remote store.
    fn push(&self, doc: &Document) -> Result<(), String>;

    /// Asks the remote store for the document at `path`.
    fn pull(&self, path: &str) -> Result<Option<Document>, String>;
}

/// Pushes to and pulls from a remote store.
pub struct SyncManager<R: RemoteStore> {
    remote: R,
}

impl<R: RemoteStore> SyncManager<R> {
    /// The remote store that the manager talks to.
    pub closed spec fn remote(&self) -> R {
        self.remote
    }

    /// A manager for `remote`.
    pub fn new(remote: R) -> (r: Self)
        ensures
            r.remote() == remote,
    {
        SyncManager { remote }
    }

    /// Hands the document to the remote store.
    pub fn push(&self, doc: &Document) -> Result<(), String> {
        self.remote.push(doc)
    }

    /// Asks the remote store for the document at `path`.
    pub fn pull(&self, path: &str) -> Result<Option<Document>, String> {
        self.remote.pull(path)
    }
}

/// A remote store that takes everything and holds nothing.
pub struct MockRemoteStore;

impl RemoteStore for MockRemoteStore {
    fn push(&self, doc: &Document) -> (r: Result<(), String>)
        ensures
            r is Ok,
    {
        Ok(())
    }

    fn pull(&self, path: &str) -> (r: Result<Option<Document>, String>)
        ensures
            r matches Ok(None),
    {
        Ok(None)
    }
}

} // verus!
