//! Listeners: queries whose results are handed to a callback whenever the
//! store was written to.

use crate::index::{EqualQuery, QueryAst};
use crate::model::{Document, DocumentModel};
use vstd::prelude::*;

verus! {

/// The documents of `docs` as plain values.
pub open spec fn document_models(docs: Seq<Document>) -> Seq<DocumentModel> {
    Seq::new(docs.len(), |i: int| docs[i]@)
}

/// The receiver of the snapshots of a query. Nothing is known of what a
/// receiver does with a snapshot.
pub trait SnapshotListener {
    /// Receives a snapshot: the documents that the query finds now.
    fn on_snapshot(&mut self, docs: Vec<Document>);
}

/// A listener that keeps every snapshot that it receives.
pub struct RecordingListener {
    snapshots: Vec<Vec<Document>>,
}

impl RecordingListener {
    /// The snapshots that were received so far, in their order.
    pub closed spec fn received(&self) -> Seq<Seq<DocumentModel>> {
        Seq::new(self.snapshots@.len(), |i: int| document_models(self.snapshots@[i]@))
    }

    /// A listener that has received nothing.
    pub fn new() -> (r: Self)
        ensures
            r.received() == Seq::<Seq<DocumentModel>>::empty(),
    {
        let r = RecordingListener { snapshots: Vec::new() };
        assert(r.received() =~= Seq::<Seq<DocumentModel>>::empty());
        r
    }

    /// The number of snapshots received.
    pub fn count(&self) -> (r: usize)
        ensures
            r == self.received().len(),
    {
        self.snapshots.len()
    }

    /// The snapshot that was received last.
    pub fn last(&self) -> (r: Option<&Vec<Document>>)
        ensures
            match r {
                Some(docs) => self.received().len() > 0 && document_models(docs@)
                    == self.received().last(),
                None => self.received().len() == 0,
            },
    {
        if self.snapshots.len() == 0 {
            None
        } else {
            Some(&self.snapshots[self.snapshots.len() - 1])
        }
    }
}

impl SnapshotListener for RecordingListener {
    fn on_snapshot(&mut self, docs: Vec<Document>)
        ensures
            final(self).received() == old(self).received().push(document_models(docs@)),
    {
        self.snapshots.push(docs);
        assert(self.received() =~= old(self).received().push(document_models(docs@)));
    }
}

/// A registered listener as plain values: its id, what its query asks
/// where it asks for equality, and the snapshots that the registry has
/// handed to it.
pub struct ListenerModel {
    pub id: u64,
    pub query: Option<EqualQuery>,
    pub received: Seq<Seq<DocumentModel>>,
}

struct ListenerEntry<L> {
    id: u64,
    query: QueryAst,
    callback: L,
    delivered: Ghost<Seq<Seq<DocumentModel>>>,
}

/// The registry of listeners.
pub struct ListenerManager<L: SnapshotListener> {
    entries: Vec<ListenerEntry<L>>,
    next_id: u64,
}

impl<L: SnapshotListener> View for ListenerManager<L> {
    type V = Seq<ListenerModel>;

    /// The registered listeners, in the order of their registration.
    closed spec fn view(&self) -> Seq<ListenerModel> {
        Seq::new(
            self.entries@.len(),
            |i: int|
                ListenerModel {
                    id: self.entries@[i].id,
                    query: self.entries@[i].query.equality(),
                    received: self.entries@[i].delivered@,
                },
        )
    }
}

impl<L: SnapshotListener> ListenerManager<L> {
    /// The id that the next listener gets.
    pub closed spec fn next_id(&self) -> u64 {
        self.next_id
    }

    /// The registry's invariant: ids increase along the listeners, and every
    /// id is below the next one.
    pub closed spec fn wf(&self) -> bool {
        &&& forall|i: int, j: int|
            0 <= i < j < self.entries@.len() ==> self.entries@[i].id < self.entries@[j].id
        &&& forall|i: int| 0 <= i < self.entries@.len() ==> self.entries@[i].id < self.next_id
    }

    /// What is known of a registry: ids are unique and increase.
    pub proof fn lemma_ids(&self)
        requires
            self.wf(),
        ensures
            forall|i: int, j: int| 0 <= i < j < self@.len() ==> self@[i].id < self@[j].id,
            forall|i: int| 0 <= i < self@.len() ==> self@[i].id < self.next_id(),
    {
    }

    /// A registry without listeners.
    pub fn new() -> (r: Self)
        ensures
            r.wf(),
            r@ == Seq::<ListenerModel>::empty(),
            r.next_id() == 0,
    {
        let r = ListenerManager { entries: Vec::new(), next_id: 0 };
        assert(r@ =~= Seq::<ListenerModel>::empty());
        r
    }

    /// Whether another listener can be registered: the ids are not used
    /// up.
    pub fn has_room(&self) -> (r: bool)
        ensures
            r == (self.next_id() < u64::MAX),
    {
        self.next_id < u64::MAX
    }

    /// Registers a listener and returns its id: the next id, which is
    /// greater than every id given before.
    pub fn register(&mut self, query: QueryAst, callback: L) -> (r: u64)
        requires
            old(self).wf(),
            old(self).next_id() < u64::MAX,
        ensures
            final(self).wf(),
            r == old(self).next_id(),
            final(self).next_id() == r + 1,
            final(self)@ == old(self)@.push(
                ListenerModel { id: r, query: query.equality(), received: Seq::empty() },
            ),
    {
        let id = self.next_id;
        self.next_id = self.next_id + 1;
        self.entries.push(ListenerEntry { id, query, callback, delivered: Ghost(Seq::empty()) });
        assert(self@ =~= old(self)@.push(
            ListenerModel { id, query: query.equality(), received: Seq::empty() },
        ));
        id
    }

    /// The position of the listener with the given id.
    fn position(&self, id: u64) -> (r: Option<usize>)
        ensures
            match r {
                Some(i) => i < self@.len() && self@[i as int].id == id,
                None => forall|i: int| 0 <= i < self@.len() ==> self@[i].id != id,
            },
    {
        let mut i: usize = 0;
        while i < self.entries.len()
            invariant
                i <= self.entries.len(),
                forall|j: int| 0 <= j < i ==> self@[j].id != id,
            decreases self.entries.len() - i,
        {
            if self.entries[i].id == id {
                return Some(i);
            }
            i = i + 1;
        }
        None
    }

    /// Takes the listener with the given id out of the registry. An id that
    /// is not registered changes nothing.
    pub fn unregister(&mut self, id: u64)
        requires
            old(self).wf(),
        ensures
            final(self).wf(),
            final(self).next_id() == old(self).next_id(),
            final(self)@ == old(self)@.filter(|l: ListenerModel| l.id != id),
    {
        let ghost before = self@;
        match self.position(id) {
            Some(i) => {
                let _ = self.entries.remove(i);
                proof {
                    assert(self@ =~= before.remove(i as int));
                    lemma_filter_unique(before, i as int, id);
                }
            },
            None => {
                proof {
                    lemma_filter_none(before, id);
                }
            },
        }
    }

    /// The ids and the queries of the registered listeners.
    pub fn get_listeners(&self) -> (r: Vec<(u64, QueryAst)>)
        ensures
            r@.len() == self@.len(),
            forall|i: int|
                0 <= i < r@.len() ==> (#[trigger] r@[i]).0 == self@[i].id && r@[i].1.equality()
                    == self@[i].query,
    {
        let mut out: Vec<(u64, QueryAst)> = Vec::new();
        let mut i: usize = 0;
        while i < self.entries.len()
            invariant
                i <= self.entries.len(),
                out@.len() == i,
                forall|j: int|
                    0 <= j < i ==> (#[trigger] out@[j]).0 == self@[j].id && out@[j].1.equality()
                        == self@[j].query,
            decreases self.entries.len() - i,
        {
            out.push((self.entries[i].id, self.entries[i].query.duplicate()));
            i = i + 1;
        }
        out
    }

    /// The ids and the queries of the registered listeners, taken before
    /// any of them is notified.
    pub fn get_listener_snapshots(&self) -> (r: Vec<(u64, QueryAst)>)
        ensures
            r@.len() == self@.len(),
            forall|i: int|
                0 <= i < r@.len() ==> (#[trigger] r@[i]).0 == self@[i].id && r@[i].1.equality()
                    == self@[i].query,
    {
        self.get_listeners()
    }

    /// Hands `docs` to the listener with the given id. An id that is not
    /// registered changes nothing.
    pub fn notify_single(&mut self, id: u64, docs: Vec<Document>)
        requires
            old(self).wf(),
        ensures
            final(self).wf(),
            final(self).next_id() == old(self).next_id(),
            final(self)@.len() == old(self)@.len(),
            forall|i: int|
                0 <= i < old(self)@.len() ==> #[trigger] final(self)@[i] == if old(self)@[i].id
                    == id {
                    ListenerModel {
                        id,
                        query: old(self)@[i].query,
                        received: old(self)@[i].received.push(document_models(docs@)),
                    }
                } else {
                    old(self)@[i]
                },
    {
        let ghost before = self@;
        match self.position(id) {
            Some(i) => {
                let mut entry = self.entries.remove(i);
                let ghost snapshot = document_models(docs@);
                entry.callback.on_snapshot(docs);
                entry.delivered = Ghost(entry.delivered@.push(snapshot));
                self.entries.insert(i, entry);
                proof {
                    assert forall|k: int| 0 <= k < before.len() implies #[trigger] self@[k] == if before[k].id
                        == id {
                        ListenerModel {
                            id,
                            query: before[k].query,
                            received: before[k].received.push(document_models(docs@)),
                        }
                    } else {
                        before[k]
                    } by {
                        if k != i {
                            assert(old(self).entries@[k].id != old(self).entries@[i as int].id);
                        }
                    }
                }
            },
            None => {},
        }
    }

    /// Hands `docs` to the listener with the given id.
    pub fn notify(&mut self, id: u64, docs: Vec<Document>)
        requires
            old(self).wf(),
        ensures
            final(self).wf(),
            final(self).next_id() == old(self).next_id(),
            final(self)@.len() == old(self)@.len(),
            forall|i: int|
                0 <= i < old(self)@.len() ==> #[trigger] final(self)@[i] == if old(self)@[i].id
                    == id {
                    ListenerModel {
                        id,
                        query: old(self)@[i].query,
                        received: old(self)@[i].received.push(document_models(docs@)),
                    }
                } else {
                    old(self)@[i]
                },
    {
        self.notify_single(id, docs)
    }
}

/// Filtering out an id that stands at one position removes that position.
proof fn lemma_filter_unique(s: Seq<ListenerModel>, i: int, id: u64)
    requires
        0 <= i < s.len(),
        s[i].id == id,
        forall|j: int| 0 <= j < s.len() && j != i ==> s[j].id != id,
    ensures
        s.filter(|l: ListenerModel| l.id != id) == s.remove(i),
    decreases s.len(),
{
    reveal(Seq::filter);
    if i == s.len() - 1 {
        lemma_filter_none(s.drop_last(), id);
        assert(s.remove(i) =~= s.drop_last());
    } else {
        lemma_filter_unique(s.drop_last(), i, id);
        assert(s.remove(i) =~= s.drop_last().remove(i).push(s.last()));
    }
}

/// Filtering out an id that stands nowhere changes nothing.
proof fn lemma_filter_none(s: Seq<ListenerModel>, id: u64)
    requires
        forall|j: int| 0 <= j < s.len() ==> s[j].id != id,
    ensures
        s.filter(|l: ListenerModel| l.id != id) == s,
    decreases s.len(),
{
    reveal(Seq::filter);
    if s.len() > 0 {
        lemma_filter_none(s.drop_last(), id);
        assert(s =~= s.drop_last().push(s.last()));
    }
}

} // verus!
