//! Write batches and transactions: writes that are collected first and
//! carried out together.

use crate::collections::StringMap;
use crate::error::{push_text, ErrorKind, FireLocalError};
use crate::store::io::{same_except, Storage};
use crate::store::memtable::Memtable;
use crate::store::wal::{
    encode_record, frame, lemma_record_round_trip, record_bytes, record_fits, WalEntry,
    WalEntryModel, WalOp, WriteAheadLog,
};
use crate::text::{chars_of, string_of};
use vstd::prelude::*;

verus! {

/// `uuid::Uuid::new_v4`, in its hyphenated form: a random identifier of 36
/// characters.
#[verifier::external_body]
pub(crate) fn new_uuid() -> (r: String)
    ensures
        r@.len() == 36,
{
    uuid::Uuid::new_v4().to_string()
}

/// One write of a batch or a transaction.
#[derive(Debug, Clone)]
pub enum BatchOperation {
    Put { path: String, data: Vec<u8> },
    Update { path: String, data: Vec<u8> },
    Delete { path: String },
}

impl BatchOperation {
    /// The path that is written.
    pub open spec fn target(&self) -> Seq<char> {
        match self {
            BatchOperation::Put { path, .. } => path@,
            BatchOperation::Update { path, .. } => path@,
            BatchOperation::Delete { path } => path@,
        }
    }

    /// What the path holds afterwards: the data of a set or an update, which
    /// both overwrite, and `None`, a tombstone, for a delete.
    pub open spec fn outcome(&self) -> Option<Seq<u8>> {
        match self {
            BatchOperation::Put { data, .. } => Some(data@),
            BatchOperation::Update { data, .. } => Some(data@),
            BatchOperation::Delete { .. } => None,
        }
    }

    /// The path that is written.
    pub fn path(&self) -> (r: &String)
        ensures
            r@ == self.target(),
    {
        match self {
            BatchOperation::Put { path, .. } => path,
            BatchOperation::Update { path, .. } => path,
            BatchOperation::Delete { path } => path,
        }
    }

    /// The data that is written, if the operation is not a delete.
    pub fn data(&self) -> (r: Option<&Vec<u8>>)
        ensures
            match r {
                Some(d) => self.outcome() == Some(d@),
                None => self.outcome() is None,
            },
    {
        match self {
            BatchOperation::Put { data, .. } => Some(data),
            BatchOperation::Update { data, .. } => Some(data),
            BatchOperation::Delete { .. } => None,
        }
    }
}

/// The writes of `ops` as plain values: each a path and what it holds
/// afterwards.
pub open spec fn write_models(ops: Seq<BatchOperation>) -> Seq<(Seq<char>, Option<Seq<u8>>)> {
    Seq::new(ops.len(), |i: int| (ops[i].target(), ops[i].outcome()))
}

/// An ordered list of writes that are committed together.
pub struct WriteBatch {
    operations: Vec<BatchOperation>,
    batch_id: String,
}

impl View for WriteBatch {
    type V = Seq<(Seq<char>, Option<Seq<u8>>)>;

    /// The writes of the batch, in their order.
    closed spec fn view(&self) -> Seq<(Seq<char>, Option<Seq<u8>>)> {
        write_models(self.operations@)
    }
}

impl WriteBatch {
    /// The identifier of the batch.
    pub closed spec fn id(&self) -> Seq<char> {
        self.batch_id@
    }

    /// The operations of the batch, in their order, each as it was added:
    /// a set, an update or a deletion.
    pub closed spec fn ops(&self) -> Seq<BatchOperation> {
        self.operations@
    }

    /// The writes of the batch are those of its operations.
    pub proof fn lemma_ops(&self)
        ensures
            self@ == write_models(self.ops()),
    {
    }

    /// An empty batch with a fresh identifier.
    pub fn new() -> (r: Self)
        ensures
            r@ == Seq::<(Seq<char>, Option<Seq<u8>>)>::empty(),
            r.ops() == Seq::<BatchOperation>::empty(),
            r.id().len() == 36,
    {
        let r = WriteBatch { operations: Vec::new(), batch_id: new_uuid() };
        assert(r@ =~= Seq::<(Seq<char>, Option<Seq<u8>>)>::empty());
        r
    }

    /// Adds the write of `data` to `path`, as a set.
    pub fn set(&mut self, path: String, data: Vec<u8>)
        ensures
            final(self).ops() == old(self).ops().push((BatchOperation::Put { path, data })),
            final(self)@ == old(self)@.push((path@, Some(data@))),
            final(self).id() == old(self).id(),
    {
        self.operations.push(BatchOperation::Put { path, data });
        assert(self@ =~= old(self)@.push((path@, Some(data@))));
    }

    /// Adds the update of `path` to `data`. An update overwrites, as a set
    /// does.
    pub fn update(&mut self, path: String, data: Vec<u8>)
        ensures
            final(self).ops() == old(self).ops().push((BatchOperation::Update { path, data })),
            final(self)@ == old(self)@.push((path@, Some(data@))),
            final(self).id() == old(self).id(),
    {
        self.operations.push(BatchOperation::Update { path, data });
        assert(self@ =~= old(self)@.push((path@, Some(data@))));
    }

    /// Adds the deletion of `path`.
    pub fn delete(&mut self, path: String)
        ensures
            final(self).ops() == old(self).ops().push((BatchOperation::Delete { path })),
            final(self)@ == old(self)@.push((path@, None)),
            final(self).id() == old(self).id(),
    {
        self.operations.push(BatchOperation::Delete { path });
        assert(self@ =~= old(self)@.push((path@, None)));
    }

    /// The identifier of the batch.
    pub fn batch_id(&self) -> (r: &str)
        ensures
            r@ == self.id(),
    {
        self.batch_id.as_str()
    }

    /// The writes of the batch, in their order.
    pub fn operations(&self) -> (r: &[BatchOperation])
        ensures
            r@ == self.ops(),
            write_models(r@) == self@,
    {
        self.operations.as_slice()
    }

    /// The number of writes.
    pub fn len(&self) -> (r: usize)
        ensures
            r == self@.len(),
    {
        self.operations.len()
    }

    /// Whether the batch holds no write.
    pub fn is_empty(&self) -> (r: bool)
        ensures
            r == (self@.len() == 0),
    {
        self.operations.len() == 0
    }
}

impl Default for WriteBatch {
    fn default() -> (r: Self)
        ensures
            r@ == Seq::<(Seq<char>, Option<Seq<u8>>)>::empty(),
    {
        WriteBatch::new()
    }
}

/// The in-memory table after the writes of `ops`, in their order.
pub open spec fn apply_writes(
    memtable: Map<Seq<char>, Option<Seq<u8>>>,
    ops: Seq<(Seq<char>, Option<Seq<u8>>)>,
) -> Map<Seq<char>, Option<Seq<u8>>>
    decreases ops.len(),
{
    if ops.len() == 0 {
        memtable
    } else {
        apply_writes(memtable, ops.drop_last()).insert(ops.last().0, ops.last().1)
    }
}

/// The log entry of a write that belongs to the batch `id`.
pub open spec fn batch_entry(write: (Seq<char>, Option<Seq<u8>>), id: Seq<char>) -> WalEntryModel {
    WalEntryModel {
        op: if write.1 is Some {
            WalOp::Put
        } else {
            WalOp::Delete
        },
        key: write.0,
        value: write.1,
        batch_id: Some(id),
    }
}

/// The log records of the writes of a batch, one after another as they
/// stand in the log.
pub open spec fn batch_frames(ops: Seq<(Seq<char>, Option<Seq<u8>>)>, id: Seq<char>) -> Seq<u8>
    decreases ops.len(),
{
    if ops.len() == 0 {
        Seq::empty()
    } else {
        batch_frames(ops.drop_last(), id) + frame(record_bytes(batch_entry(ops.last(), id)))
    }
}

/// The sum of the sizes of the data that the writes carry.
pub open spec fn total_size(ops: Seq<(Seq<char>, Option<Seq<u8>>)>) -> nat
    decreases ops.len(),
{
    if ops.len() == 0 {
        0
    } else {
        total_size(ops.drop_last()) + match ops.last().1 {
            Some(data) => data.len(),
            None => 0nat,
        }
    }
}

/// The version that a read saw: `None` where the document was not there.
pub open spec fn seen_version(read: Option<(Vec<u8>, u64)>) -> Option<u64> {
    match read {
        Some((_, v)) => Some(v),
        None => None,
    }
}

/// The version that `versions` knows for `path`.
pub open spec fn known_version(versions: Map<Seq<char>, u64>, path: Seq<char>) -> Option<u64> {
    if versions.contains_key(path) {
        Some(versions[path])
    } else {
        None
    }
}

/// The message of a conflict on `path`.
pub open spec fn conflict_message(path: Seq<char>) -> Seq<char> {
    "Transaction conflict: document "@ + path + " was modified"@
}

/// Reads and writes that are carried out only if what was read has not
/// changed in the meantime.
pub struct Transaction {
    reads: StringMap<Option<(Vec<u8>, u64)>>,
    writes: Vec<BatchOperation>,
    transaction_id: String,
}

impl Transaction {
    /// The transaction's invariant.
    pub closed spec fn wf(&self) -> bool {
        self.reads.wf()
    }

    /// What the transaction has read: for each path the data and the
    /// version that it saw, or `None` where the document was not there.
    pub closed spec fn reads(&self) -> Map<Seq<char>, Option<(Vec<u8>, u64)>> {
        self.reads@
    }

    /// The writes of the transaction, in their order.
    pub closed spec fn pending(&self) -> Seq<(Seq<char>, Option<Seq<u8>>)> {
        write_models(self.writes@)
    }

    /// The identifier of the transaction.
    pub closed spec fn id(&self) -> Seq<char> {
        self.transaction_id@
    }

    /// The operations that the transaction will carry out, in their order,
    /// each as it was added: a set, an update or a deletion.
    pub closed spec fn ops(&self) -> Seq<BatchOperation> {
        self.writes@
    }

    /// The writes of the transaction are those of its operations.
    pub proof fn lemma_ops(&self)
        ensures
            self.pending() == write_models(self.ops()),
    {
    }

    /// A transaction without reads or writes, with a fresh identifier.
    pub fn new() -> (r: Self)
        ensures
            r.wf(),
            r.reads() == Map::<Seq<char>, Option<(Vec<u8>, u64)>>::empty(),
            r.pending() == Seq::<(Seq<char>, Option<Seq<u8>>)>::empty(),
            r.ops() == Seq::<BatchOperation>::empty(),
            r.id().len() == 36,
    {
        let r = Transaction {
            reads: StringMap::new(),
            writes: Vec::new(),
            transaction_id: new_uuid(),
        };
        assert(r.pending() =~= Seq::<(Seq<char>, Option<Seq<u8>>)>::empty());
        r
    }

    /// Records that the document at `path` was read as `current_data` at
    /// `version`, and hands the data back.
    pub fn get(&mut self, path: &str, current_data: Option<Vec<u8>>, version: u64) -> (r: Option<
        Vec<u8>,
    >)
        requires
            old(self).wf(),
        ensures
            final(self).wf(),
            r == current_data,
            final(self).ops() == old(self).ops(),
            final(self).pending() == old(self).pending(),
            final(self).id() == old(self).id(),
            final(self).reads().dom() == old(self).reads().dom().insert(path@),
            seen_version(final(self).reads()[path@]) == if current_data is Some {
                Some(version)
            } else {
                None
            },
            forall|p: Seq<char>|
                p != path@ && old(self).reads().contains_key(p) ==> final(self).reads()[p] == old(self).reads()[p],
    {
        let read = match &current_data {
            Some(d) => Some((d.clone(), version)),
            None => None,
        };
        let _ = self.reads.insert(path.to_owned(), read);
        current_data
    }

    /// Adds the write of `data` to `path`.
    pub fn set(&mut self, path: String, data: Vec<u8>)
        ensures
            final(self).ops() == old(self).ops().push((BatchOperation::Put { path, data })),
            final(self).pending() == old(self).pending().push((path@, Some(data@))),
            final(self).reads() == old(self).reads(),
            final(self).wf() == old(self).wf(),
            final(self).id() == old(self).id(),
    {
        self.writes.push(BatchOperation::Put { path, data });
        assert(self.pending() =~= old(self).pending().push((path@, Some(data@))));
    }

    /// Adds the update of `path` to `data`.
    pub fn update(&mut self, path: String, data: Vec<u8>)
        ensures
            final(self).ops() == old(self).ops().push((BatchOperation::Update { path, data })),
            final(self).pending() == old(self).pending().push((path@, Some(data@))),
            final(self).reads() == old(self).reads(),
            final(self).wf() == old(self).wf(),
            final(self).id() == old(self).id(),
    {
        self.writes.push(BatchOperation::Update { path, data });
        assert(self.pending() =~= old(self).pending().push((path@, Some(data@))));
    }

    /// Adds the deletion of `path`.
    pub fn delete(&mut self, path: String)
        ensures
            final(self).ops() == old(self).ops().push((BatchOperation::Delete { path })),
            final(self).pending() == old(self).pending().push((path@, None)),
            final(self).reads() == old(self).reads(),
            final(self).wf() == old(self).wf(),
            final(self).id() == old(self).id(),
    {
        self.writes.push(BatchOperation::Delete { path });
        assert(self.pending() =~= old(self).pending().push((path@, None)));
    }

    /// The identifier of the transaction.
    pub fn transaction_id(&self) -> (r: &str)
        ensures
            r@ == self.id(),
    {
        self.transaction_id.as_str()
    }

    /// The writes of the transaction, in their order.
    pub fn writes(&self) -> (r: &[BatchOperation])
        ensures
            r@ == self.ops(),
            write_models(r@) == self.pending(),
    {
        self.writes.as_slice()
    }

    /// Checks that every document that was read is still at the version
    /// that the read saw, `versions` holding the versions of the documents
    /// that are there now. Where one is not, a `Transaction` error names it.
    pub fn validate(&self, versions: &StringMap<u64>) -> (r: Result<(), FireLocalError>)
        requires
            self.wf(),
            versions.wf(),
        ensures
            r is Ok <==> forall|p: Seq<char>|
                self.reads().contains_key(p) ==> seen_version(#[trigger] self.reads()[p])
                    == known_version(versions@, p),
            r matches Err(e) ==> e.kind() == ErrorKind::Transaction && exists|p: Seq<char>|
                self.reads().contains_key(p) && seen_version(#[trigger] self.reads()[p])
                    != known_version(versions@, p) && e.message() == conflict_message(p),
    {
        proof {
            self.reads.lemma_view();
        }
        let n = self.reads.len();
        let mut i: usize = 0;
        while i < n
            invariant
                i <= n,
                self.reads.wf(),
                versions.wf(),
                n == self.reads.order().len(),
                forall|j: int|
                    0 <= j < i ==> seen_version(self.reads@[#[trigger] self.reads.order()[j]])
                        == known_version(versions@, self.reads.order()[j]),
            decreases n - i,
        {
            let path = self.reads.key_at(i);
            let seen: Option<u64> = match self.reads.value_at(i) {
                Some(read) => Some(read.1),
                None => None,
            };
            let known: Option<u64> = match versions.get(path.as_str()) {
                Some(v) => Some(*v),
                None => None,
            };
            if seen != known {
                let mut message = chars_of("Transaction conflict: document ");
                push_text(&mut message, path.as_str());
                push_text(&mut message, " was modified");
                let e = FireLocalError::Transaction(string_of(message.as_slice()));
                proof {
                    self.reads.lemma_view();
                    let p = self.reads.order()[i as int];
                    assert(self.reads().contains_key(p));
                    assert(seen_version(self.reads()[p]) != known_version(versions@, p));
                }
                return Err(e);
            }
            i = i + 1;
        }
        proof {
            self.reads.lemma_view();
            assert forall|p: Seq<char>| self.reads().contains_key(p) implies seen_version(
                #[trigger] self.reads()[p],
            ) == known_version(versions@, p) by {
                let j = self.reads.order().index_of(p);
                self.reads.order().index_of_first_ensures(p);
                assert(self.reads.order()[j] == p);
            }
        }
        Ok(())
    }
}

impl Default for Transaction {
    fn default() -> (r: Self)
        ensures
            r.wf(),
    {
        Transaction::new()
    }
}

/// The log entry of a write, as part of the batch `id` where one is given.
pub open spec fn operation_entry(op: &BatchOperation, id: Option<Seq<char>>) -> WalEntryModel {
    WalEntryModel {
        op: if op.outcome() is Some {
            WalOp::Put
        } else {
            WalOp::Delete
        },
        key: op.target(),
        value: op.outcome(),
        batch_id: id,
    }
}

/// Carries out one write of a batch: the write is recorded in the log and
/// then applied to the in-memory table. A write that the log does not take
/// leaves the table as it is.
pub fn execute_batch_operation<S: Storage>(
    op: &BatchOperation,
    wal: &mut WriteAheadLog<S>,
    storage: &mut S,
    memtable: &mut Memtable,
    batch_id: Option<&str>,
) -> (r: Result<(), FireLocalError>)
    requires
        old(wal).wf(),
        old(storage).wf(),
        old(memtable).wf(),
    ensures
        final(wal).wf(),
        final(wal).path() == old(wal).path(),
        final(storage).wf(),
        final(memtable).wf(),
        same_except(old(storage).files(), final(storage).files(), old(wal).path()),
        ({
            let entry = operation_entry(
                op,
                match batch_id {
                    Some(id) => Some(id@),
                    None => None,
                },
            );
            match r {
                Ok(_) => record_fits(entry) && final(memtable)@ == old(memtable)@.insert(
                    op.target(),
                    op.outcome(),
                ) && final(wal).content(final(storage)) == old(wal).content(old(storage)) + frame(
                    record_bytes(entry),
                ),
                Err(e) => final(memtable)@ == old(memtable)@ && e.kind() == if record_fits(entry) {
                    ErrorKind::Io
                } else {
                    ErrorKind::Validation
                },
            }
        }),
{
    let entry = match op {
        BatchOperation::Put { path, data } => WalEntry::put(path.clone(), data.clone(), batch_id),
        BatchOperation::Update { path, data } => WalEntry::put(
            path.clone(),
            data.clone(),
            batch_id,
        ),
        BatchOperation::Delete { path } => WalEntry::delete(path.clone(), batch_id),
    };
    let bytes = match encode_record(&entry) {
        Some(bytes) => bytes,
        None => {
            assert(same_except(storage.files(), storage.files(), wal.path()));
            return Err(FireLocalError::Validation("record too large".to_owned()));
        },
    };
    proof {
        lemma_record_round_trip(entry@);
    }
    match wal.append(storage, bytes.as_slice()) {
        Ok(_) => {},
        Err(e) => {
            return Err(crate::store::compaction::io_error("commit_batch", e));
        },
    }
    match entry.value {
        Some(v) => memtable.put(entry.key, v),
        None => memtable.delete(entry.key),
    }
    Ok(())
}

} // verus!
