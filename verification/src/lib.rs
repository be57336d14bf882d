//! An embedded, single-process document store.
//!
//! Documents are addressed by `/`-separated paths and hold opaque byte
//! payloads. Writes go to a CRC-framed write-ahead log before they reach the
//! in-memory table; reads consult the in-memory table and then the immutable
//! sorted tables, newest first. A small rules language gates every read and
//! write, and an inverted index answers equality queries.

pub mod collections;
pub mod error;
pub mod field_value;
pub mod health;
pub mod index;
pub mod listener;
pub mod logging;
pub mod model;
pub mod rules;
pub mod security;
pub mod store;
pub mod sync;
pub mod text;
pub mod transaction;
pub mod validation;

use crate::collections::StringMap;
use crate::error::{push_text, ErrorContext, ErrorKind, FireLocalError};
use crate::index::basic_index::{
    collection_of, doc_postings, value_key, BasicIndexProvider, Posting,
};
use crate::index::{EqualQuery, QueryAst};
use crate::listener::{document_models, ListenerManager, ListenerModel, SnapshotListener};
use crate::field_value::{now_millis, process_field_values_at, processed, FieldEntry};
use crate::model::{
    document_of, json_object, json_object_text, parse_json_object, render_json_object,
    text_from_utf8, Document, DocumentModel,
};
use crate::rules::ast::{block_allows, RulesetModel};
use crate::rules::parser::parse_ruleset;
use crate::rules::RulesEngine;
use crate::store::compaction::{
    compacted, discover_tables, io_error, is_table_listing, lemma_untouched, listing_models,
    same_file, stack_lookup, stack_value, CompactionStats, Compactor,
};
use crate::store::io::{join_path, joined, lock_path_of, same_except, FileLock, Storage};
use crate::store::memtable::{Entry, Memtable};
use crate::store::sst::{
    entries_fit, file_content, parse_sst, sst_bytes, table_entries, SstBuilder, SstReader,
    SstSearchResult,
};
use crate::store::wal::{
    decode_record, decode_record_bytes, encode_record, frame, frame_head, frames,
    lemma_payloads_append, lemma_payloads_of_frames, lemma_record_round_trip, payloads,
    record_bytes, record_fits, record_shaped, whole_records, FrameStep, WalEntry, WalEntryModel,
    WalIterator, WalOp, WriteAheadLog,
};
use crate::sync::{RemoteStore, SyncManager};
use crate::text::{chars_of, string_of};
use crate::transaction::{
    apply_writes, batch_entry, batch_frames, new_uuid, total_size, write_models, BatchOperation,
    Transaction, WriteBatch,
};
use crate::validation::{
    path_error, rules_error, validate_data_size, validate_path, validate_rules, ValidationError,
    MAX_DATA_SIZE,
};
use vstd::prelude::*;
use vstd::utf8::{decode_utf8, valid_utf8};

verus! {

/// The path under which the rules see the document at `key`.
pub open spec fn full_path(key: Seq<char>) -> Seq<char> {
    "/databases/(default)/documents/"@ + key
}

/// Whether the rules in force allow `operation` on the document at `key`.
/// Where no rules were loaded, everything is allowed.
pub open spec fn rules_allow(rules: Option<RulesetModel>, key: Seq<char>, operation: Seq<char>) -> bool {
    match rules {
        None => true,
        Some(ruleset) => block_allows(ruleset.block, full_path(key), operation),
    }
}

/// What the store holds for `key`: the value in the in-memory table, nothing
/// where a tombstone stands there, and otherwise what the sorted tables,
/// the newest first, give.
pub open spec fn stored_value(
    memtable: Map<Seq<char>, Option<Seq<u8>>>,
    stack: Seq<Option<Seq<(Seq<char>, Option<Seq<u8>>)>>>,
    key: Seq<char>,
) -> Option<Seq<u8>> {
    if memtable.contains_key(key) {
        memtable[key]
    } else {
        stack_value(stack, key)
    }
}

/// What `get` returns for `key`: nothing where the rules deny the read, and
/// otherwise what the store holds.
pub open spec fn get_value(
    rules: Option<RulesetModel>,
    memtable: Map<Seq<char>, Option<Seq<u8>>>,
    stack: Seq<Option<Seq<(Seq<char>, Option<Seq<u8>>)>>>,
    key: Seq<char>,
) -> Option<Seq<u8>> {
    if rules_allow(rules, key, "read"@) {
        stored_value(memtable, stack, key)
    } else {
        None
    }
}

/// The in-memory table after the write that a log payload stands for. A
/// payload that is not a record changes nothing.
pub open spec fn apply_payload(
    memtable: Map<Seq<char>, Option<Seq<u8>>>,
    payload: Seq<u8>,
) -> Map<Seq<char>, Option<Seq<u8>>> {
    match decode_record(payload) {
        Some(entry) => memtable.insert(entry.key, entry.value),
        None => memtable,
    }
}

/// The in-memory table that the replay of a list of payloads leaves.
pub open spec fn replay(payloads: Seq<Seq<u8>>) -> Map<Seq<char>, Option<Seq<u8>>>
    decreases payloads.len(),
{
    if payloads.len() == 0 {
        Map::empty()
    } else {
        apply_payload(replay(payloads.drop_last()), payloads.last())
    }
}

/// The entries that what the store holds at `key` brings to the index: for
/// a value that is the JSON text of a document, one for each field of the
/// document, each at `key`; nothing for any other value and for a
/// tombstone.
pub open spec fn value_postings(key: Seq<char>, entry: Option<Seq<u8>>) -> Set<Posting> {
    match entry {
        Some(value) => if valid_utf8(value) {
            match document_of(decode_utf8(value)) {
                Ok(doc) => doc_postings(key, doc.fields),
                Err(_) => Set::empty(),
            }
        } else {
            Set::empty()
        },
        None => Set::empty(),
    }
}

/// The index after a write at `key`: the entries of the key are taken out,
/// and what the new value brings is put in.
pub open spec fn index_after_write(
    index: Set<Posting>,
    key: Seq<char>,
    entry: Option<Seq<u8>>,
) -> Set<Posting> {
    index.filter(|p: Posting| p.path != key) + value_postings(key, entry)
}

/// The index of an in-memory table: for every key, what its value brings.
pub open spec fn index_of(memtable: Map<Seq<char>, Option<Seq<u8>>>) -> Set<Posting> {
    Set::new(
        |p: Posting|
            memtable.contains_key(p.path) && value_postings(p.path, memtable[p.path]).contains(p),
    )
}

/// A write at a key changes the index of the in-memory table at that key
/// only: the entries of the key make way for what the new value brings.
pub proof fn lemma_index_of_insert(
    memtable: Map<Seq<char>, Option<Seq<u8>>>,
    key: Seq<char>,
    entry: Option<Seq<u8>>,
)
    ensures
        index_of(memtable.insert(key, entry)) == index_after_write(index_of(memtable), key, entry),
{
    let after = memtable.insert(key, entry);
    assert forall|p: Posting|
        index_of(after).contains(p) <==> index_after_write(index_of(memtable), key, entry).contains(
            p,
        ) by {
        if p.path == key {
            assert(after[key] == entry);
        } else {
            assert(after.contains_key(p.path) == memtable.contains_key(p.path));
        }
    }
    assert(index_of(after) =~= index_after_write(index_of(memtable), key, entry));
}

/// The log entry of a put.
pub open spec fn put_entry(key: Seq<char>, value: Seq<u8>) -> WalEntryModel {
    WalEntryModel { op: WalOp::Put, key, value: Some(value), batch_id: None }
}

/// The log entry of a delete.
pub open spec fn delete_entry(key: Seq<char>) -> WalEntryModel {
    WalEntryModel { op: WalOp::Delete, key, value: None, batch_id: None }
}

/// The store.
pub struct FireLocal<S: Storage, L: SnapshotListener> {
    path: String,
    storage: S,
    wal: WriteAheadLog<S>,
    memtable: Memtable,
    ssts: Vec<SstReader>,
    index: BasicIndexProvider,
    listeners: ListenerManager<L>,
    rules: RulesEngine,
    lock: FileLock,
    document_versions: StringMap<u64>,
}

impl<S: Storage, L: SnapshotListener> FireLocal<S, L> {
    /// The directory of the store.
    pub closed spec fn dir(&self) -> Seq<char> {
        self.path@
    }

    /// The storage that the store lives on.
    pub closed spec fn storage(&self) -> S {
        self.storage
    }

    /// The path of the write-ahead log.
    pub open spec fn wal_path(&self) -> Seq<char> {
        joined(self.dir(), "wal.log"@)
    }

    /// What the write-ahead log holds.
    pub open spec fn wal_content(&self) -> Seq<u8> {
        file_content(self.storage().files(), self.wal_path())
    }

    /// The in-memory table: for each key a value, or `None` for a tombstone.
    pub closed spec fn memtable(&self) -> Map<Seq<char>, Option<Seq<u8>>> {
        self.memtable@
    }

    /// The entries of the in-memory table, in key order.
    pub closed spec fn memtable_entries(&self) -> Seq<(Seq<char>, Option<Seq<u8>>)> {
        self.memtable.entries()
    }

    /// The paths of the sorted tables that reads consult, the newest first.
    pub closed spec fn tables(&self) -> Seq<Seq<char>> {
        Seq::new(self.ssts@.len(), |i: int| self.ssts@[i].path())
    }

    /// What each of the sorted tables holds now.
    pub open spec fn stack(&self) -> Seq<Option<Seq<(Seq<char>, Option<Seq<u8>>)>>> {
        Seq::new(
            self.tables().len(),
            |i: int| table_entries(self.storage().files(), self.tables()[i]),
        )
    }

    /// The inverted index.
    pub closed spec fn index(&self) -> Set<Posting> {
        self.index@
    }

    /// The registered listeners.
    pub closed spec fn listeners(&self) -> Seq<ListenerModel> {
        self.listeners@
    }

    /// The id that the next listener gets.
    pub closed spec fn next_listener_id(&self) -> u64 {
        self.listeners.next_id()
    }

    /// The rules in force.
    pub closed spec fn rules(&self) -> Option<RulesetModel> {
        self.rules.model()
    }

    /// The versions of the documents that transactions have written.
    pub closed spec fn versions(&self) -> Map<Seq<char>, u64> {
        self.document_versions@
    }

    /// The store's invariant.
    pub closed spec fn wf(&self) -> bool {
        &&& self.storage.wf()
        &&& self.wal.wf()
        &&& self.wal.path() == joined(self.path@, "wal.log"@)
        &&& self.memtable.wf()
        &&& self.index.wf()
        &&& self.index@ == index_of(self.memtable@)
        &&& self.listeners.wf()
        &&& self.document_versions.wf()
    }

    /// The index is that of the in-memory table: it holds an entry exactly
    /// for the fields of the documents that the table holds.
    pub proof fn lemma_index(&self)
        requires
            self.wf(),
        ensures
            self.index() == index_of(self.memtable()),
    {
    }

    /// Whether a recovery from the log alone would give the in-memory table
    /// as it is: the log is made of whole records, and its replay gives the
    /// table.
    pub open spec fn recoverable(&self) -> bool {
        whole_records(self.wal_content()) && self.memtable() == replay(
            payloads(self.wal_content()),
        )
    }

    /// What `get` returns for `key`.
    pub open spec fn value_at(&self, key: Seq<char>) -> Option<Seq<u8>> {
        get_value(self.rules(), self.memtable(), self.stack(), key)
    }

    /// Opens the store in the directory `path` of `storage`: the directory
    /// is made, the exclusive lock on the write-ahead log is taken, the log
    /// is replayed into the in-memory table and the index, and the sorted
    /// tables of the directory are opened, the newest first: on a storage
    /// that reads reliably every one of them, and otherwise those that can
    /// be opened. A record of the log that is damaged or cut short is passed
    /// over. No rules are in force and no listener is registered. A storage
    /// that cannot make the directory, take the lock, open the log or list
    /// the directory ends the opening with an `Io` error.
    pub fn new(storage: S, path: &str) -> (r: Result<Self, FireLocalError>)
        requires
            storage.wf(),
        ensures
            match r {
                Ok(db) => {
                    &&& db.wf()
                    &&& db.dir() == path@
                    &&& db.rules() is None
                    &&& db.listeners() == Seq::<ListenerModel>::empty()
                    &&& db.next_listener_id() == 0
                    &&& db.storage().reliable() == storage.reliable()
                    &&& same_except(
                        storage.files().remove(lock_path_of(db.wal_path())),
                        db.storage().files().remove(lock_path_of(db.wal_path())),
                        db.wal_path(),
                    )
                    &&& db.storage().files().contains_key(db.wal_path())
                    &&& db.wal_content() == file_content(storage.files(), db.wal_path())
                    &&& db.storage().reliable() ==> db.memtable() == replay(
                        payloads(db.wal_content()),
                    )
                    &&& db.index() == index_of(db.memtable())
                    &&& db.storage().reliable() && whole_records(db.wal_content())
                        ==> db.recoverable()
                    &&& forall|i: int|
                        0 <= i < db.tables().len() ==> db.storage().files().contains_key(
                            #[trigger] db.tables()[i],
                        )
                    &&& exists|listing: Seq<(Seq<char>, u64)>|
                        #[trigger] is_table_listing(&db.storage(), path@, listing) && (
                        db.storage().reliable() ==> db.tables() == listing_paths(listing))
                },
                Err(e) => e.kind() == ErrorKind::Io,
            },
    {
        let mut storage = storage;
        let ghost files_before = storage.files();
        match storage.create_dir_all(path) {
            Ok(_) => {},
            Err(e) => {
                return Err(io_error("open", e));
            },
        }
        let wal_path = join_path(path, "wal.log");
        let lock = match storage.lock_exclusive(wal_path.as_str()) {
            Ok(lock) => lock,
            Err(e) => {
                return Err(io_error("open", e));
            },
        };
        let ghost files_mid = storage.files();
        let wal = match WriteAheadLog::open(&mut storage, wal_path.as_str()) {
            Ok(wal) => wal,
            Err(e) => {
                return Err(io_error("open", e));
            },
        };
        let mut memtable = Memtable::new();
        let mut index = BasicIndexProvider::new();
        assert(index_of(memtable@) =~= Set::<Posting>::empty());
        match wal.iter(&storage) {
            Ok(iter) => {
                let replayed = replay_log(iter, memtable, index);
                memtable = replayed.0;
                index = replayed.1;
            },
            Err(_) => {},
        }
        let mut ssts: Vec<SstReader> = Vec::new();
        let listing = match discover_tables(&storage, path) {
            Ok(listing) => listing,
            Err(e) => {
                return Err(io_error("open", e));
            },
        };
        let ghost listed = listing_models(listing@);
        let mut i: usize = 0;
        while i < listing.len()
            invariant
                i <= listing.len(),
                storage.wf(),
                listed == listing_models(listing@),
                is_table_listing(&storage, path@, listed),
                forall|k: int|
                    0 <= k < ssts@.len() ==> storage.files().contains_key(
                        (#[trigger] ssts@[k]).path(),
                    ),
                storage.reliable() ==> ssts@.len() == i && forall|k: int|
                    0 <= k < i ==> (#[trigger] ssts@[k]).path() == listed[k].0,
            decreases listing.len() - i,
        {
            assert(listed[i as int].0 == listing@[i as int].0@);
            assert(crate::store::compaction::is_table(&storage, path@, listed[i as int].0));
            match SstReader::open(&storage, listing[i].0.as_str()) {
                Ok(reader) => {
                    ssts.push(reader);
                },
                Err(_) => {},
            }
            i = i + 1;
        }
        let db = FireLocal {
            path: path.to_owned(),
            storage,
            wal,
            memtable,
            ssts,
            index,
            listeners: ListenerManager::new(),
            rules: RulesEngine::new(),
            lock,
            document_versions: StringMap::new(),
        };
        proof {
            let lp = lock_path_of(db.wal_path());
            assert(files_before.remove(lp) == files_mid.remove(lp));
            assert(files_before.remove(lp).remove(db.wal_path()) =~= files_mid.remove(db.wal_path()).remove(lp));
            assert(db.storage().files().remove(lp).remove(db.wal_path())
                =~= db.storage().files().remove(db.wal_path()).remove(lp));
            lemma_lock_path_differs(path@);
            crate::store::compaction::lemma_untouched(files_before, files_mid, lp);
            assert(same_file(files_before, files_mid, db.wal_path()));
            assert(db.tables().len() == db.ssts@.len());
            if db.storage().reliable() {
                assert(db.tables() =~= listing_paths(listed));
            }
            assert(is_table_listing(&db.storage(), path@, listed));
        }
        Ok(db)
    }
}

/// The paths of a listing, in its order.
pub open spec fn listing_paths(listing: Seq<(Seq<char>, u64)>) -> Seq<Seq<char>> {
    Seq::new(listing.len(), |i: int| listing[i].0)
}

/// The version of a document after one more write: one more than it was, 1
/// for a document without a version, and `u64::MAX` at most.
pub open spec fn next_version(versions: Map<Seq<char>, u64>, path: Seq<char>) -> u64 {
    if !versions.contains_key(path) {
        1
    } else if versions[path] == u64::MAX {
        u64::MAX
    } else {
        (versions[path] + 1) as u64
    }
}

/// The versions after the given writes: each write raises the version of
/// its path.
pub open spec fn bumped(
    versions: Map<Seq<char>, u64>,
    writes: Seq<(Seq<char>, Option<Seq<u8>>)>,
) -> Map<Seq<char>, u64>
    decreases writes.len(),
{
    if writes.len() == 0 {
        versions
    } else {
        let before = bumped(versions, writes.drop_last());
        before.insert(writes.last().0, next_version(before, writes.last().0))
    }
}

/// The path of the sorted table with the identifier `id` in the directory
/// `dir`.
pub open spec fn table_path(dir: Seq<char>, id: Seq<char>) -> Seq<char> {
    joined(dir, id + ".sst"@)
}

/// The fields of the JSON object that a value is the text of: none where
/// there is no value or it is no such text.
pub open spec fn object_of(value: Option<Seq<u8>>) -> Option<Seq<(Seq<char>, Seq<char>)>> {
    match value {
        Some(bytes) => if valid_utf8(bytes) {
            match json_object(decode_utf8(bytes)) {
                Some(members) => Some(members),
                None => None,
            }
        } else {
            None
        },
        None => None,
    }
}

/// Why a put is refused, if it is: the key is not a path in order; the
/// value is empty, larger than 100 MiB or not UTF-8; the rules deny the
/// write.
pub open spec fn put_refusal(rules: Option<RulesetModel>, key: Seq<char>, value: Seq<u8>) -> Option<
    ErrorKind,
> {
    if path_error(key) is Some {
        Some(ErrorKind::Validation)
    } else if value.len() == 0 || value.len() > MAX_DATA_SIZE || !valid_utf8(value) {
        Some(ErrorKind::Validation)
    } else if !rules_allow(rules, key, "write"@) {
        Some(ErrorKind::PermissionDenied)
    } else {
        None
    }
}

/// Why a delete is refused, if it is: the key is not a path in order, or
/// the rules deny the write.
pub open spec fn delete_refusal(rules: Option<RulesetModel>, key: Seq<char>) -> Option<ErrorKind> {
    if path_error(key) is Some {
        Some(ErrorKind::Validation)
    } else if !rules_allow(rules, key, "write"@) {
        Some(ErrorKind::PermissionDenied)
    } else {
        None
    }
}

/// The bytes of a value as plain values.
pub open spec fn bytes_model(value: Option<Vec<u8>>) -> Option<Seq<u8>> {
    match value {
        Some(v) => Some(v@),
        None => None,
    }
}

/// Whether `paths` is the answer of the index to an equality query: the
/// paths of the entries for the query's collection, field and value, each
/// once.
pub open spec fn answers(index: Set<Posting>, query: EqualQuery, paths: Seq<Seq<char>>) -> bool {
    &&& paths.no_duplicates()
    &&& forall|p: Seq<char>|
        paths.contains(p) <==> index.contains(
            Posting {
                collection: query.collection,
                field: query.field,
                key: value_key(query.value),
                path: p,
            },
        )
}

impl<S: Storage, L: SnapshotListener> FireLocal<S, L> {
    /// The document that the store gives for `path`: what `get` returns,
    /// read as the JSON text of a document; `None` where nothing is
    /// returned or what is returned is not a document.
    pub open spec fn document_at(&self, path: Seq<char>) -> Option<DocumentModel> {
        match self.value_at(path) {
            Some(bytes) => if valid_utf8(bytes) {
                match document_of(decode_utf8(bytes)) {
                    Ok(doc) => Some(doc),
                    Err(_) => None,
                }
            } else {
                None
            },
            None => None,
        }
    }

    /// The documents that the store gives for `paths`, in their order.
    pub open spec fn materialize(&self, paths: Seq<Seq<char>>) -> Seq<DocumentModel>
        decreases paths.len(),
    {
        if paths.len() == 0 {
            Seq::empty()
        } else {
            match self.document_at(paths.last()) {
                Some(doc) => self.materialize(paths.drop_last()).push(doc),
                None => self.materialize(paths.drop_last()),
            }
        }
    }

    /// Whether `docs` is a result of `query` in the store as it is: nothing
    /// for a query that does not ask for equality; otherwise the documents
    /// of the paths that the index gives, each path once, in some order of
    /// these paths. `lemma_query_exact` says which documents these are.
    pub open spec fn is_snapshot(&self, query: Option<EqualQuery>, docs: Seq<DocumentModel>) -> bool {
        match query {
            None => docs.len() == 0,
            Some(q) => exists|paths: Seq<Seq<char>>|
                #[trigger] answers(self.index(), q, paths) && docs == self.materialize(paths),
        }
    }

    /// Whether the in-memory table holds at `key` a document that `query`
    /// asks for: the key lies in the query's collection, and the document
    /// has the query's field with a value whose key is that of the query's
    /// value.
    pub open spec fn is_match(&self, key: Seq<char>, query: EqualQuery) -> bool {
        &&& self.memtable().contains_key(key)
        &&& collection_of(key) == query.collection
        &&& match self.memtable()[key] {
            Some(value) => valid_utf8(value) && match document_of(decode_utf8(value)) {
                Ok(doc) => exists|i: int|
                    0 <= i < doc.fields.len() && (#[trigger] doc.fields[i]).0 == query.field
                        && value_key(doc.fields[i].1) == value_key(query.value),
                Err(_) => false,
            },
            None => false,
        }
    }

    /// A document is among the documents that the store gives for `paths`
    /// exactly if the store gives it for one of them.
    pub proof fn lemma_materialize_contains(&self, paths: Seq<Seq<char>>, doc: DocumentModel)
        ensures
            self.materialize(paths).contains(doc) <==> exists|i: int|
                0 <= i < paths.len() && self.document_at(#[trigger] paths[i]) == Some(doc),
        decreases paths.len(),
    {
        if paths.len() > 0 {
            let rest = paths.drop_last();
            let before = self.materialize(rest);
            self.lemma_materialize_contains(rest, doc);
            if self.materialize(paths).contains(doc) {
                let k = choose|k: int|
                    0 <= k < self.materialize(paths).len() && self.materialize(paths)[k] == doc;
                if k < before.len() {
                    assert(before[k] == doc);
                    let i = choose|i: int|
                        0 <= i < rest.len() && self.document_at(#[trigger] rest[i]) == Some(doc);
                    assert(paths[i] == rest[i]);
                } else {
                    assert(self.document_at(paths[paths.len() - 1]) == Some(doc));
                }
            }
            if exists|i: int|
                0 <= i < paths.len() && self.document_at(#[trigger] paths[i]) == Some(doc) {
                let i = choose|i: int|
                    0 <= i < paths.len() && self.document_at(#[trigger] paths[i]) == Some(doc);
                if i < rest.len() {
                    assert(rest[i] == paths[i]);
                    let k = choose|k: int| 0 <= k < before.len() && before[k] == doc;
                    assert(self.materialize(paths)[k] == doc);
                } else {
                    assert(self.materialize(paths) == before.push(doc));
                    assert(before.push(doc)[before.len() as int] == doc);
                }
            }
        }
    }

    /// The result of an equality query holds exactly the documents that
    /// the store holds in its in-memory table, at a key of the query's
    /// collection, with the queried value in the queried field, and that
    /// the rules allow to be read. A document that was overwritten or
    /// deleted is not among them.
    pub proof fn lemma_query_exact(&self, query: EqualQuery, docs: Seq<DocumentModel>)
        requires
            self.wf(),
            self.is_snapshot(Some(query), docs),
        ensures
            forall|doc: DocumentModel|
                docs.contains(doc) <==> exists|key: Seq<char>|
                    #[trigger] self.is_match(key, query) && self.document_at(key) == Some(doc),
    {
        self.lemma_index();
        let paths = choose|paths: Seq<Seq<char>>|
            #[trigger] answers(self.index(), query, paths) && docs == self.materialize(paths);
        assert forall|key: Seq<char>| paths.contains(key) <==> #[trigger] self.is_match(
            key,
            query,
        ) by {
            let posting = Posting {
                collection: query.collection,
                field: query.field,
                key: value_key(query.value),
                path: key,
            };
            assert(paths.contains(key) <==> self.index().contains(posting));
        }
        assert forall|doc: DocumentModel|
            docs.contains(doc) <==> exists|key: Seq<char>|
                #[trigger] self.is_match(key, query) && self.document_at(key) == Some(doc) by {
            self.lemma_materialize_contains(paths, doc);
            if docs.contains(doc) {
                let i = choose|i: int|
                    0 <= i < paths.len() && self.document_at(#[trigger] paths[i]) == Some(doc);
                assert(paths.contains(paths[i]));
                assert(self.is_match(paths[i], query));
            }
            if exists|key: Seq<char>|
                #[trigger] self.is_match(key, query) && self.document_at(key) == Some(doc) {
                let key = choose|key: Seq<char>|
                    #[trigger] self.is_match(key, query) && self.document_at(key) == Some(doc);
                assert(paths.contains(key));
                let i = choose|i: int| 0 <= i < paths.len() && paths[i] == key;
                assert(self.document_at(paths[i]) == Some(doc));
            }
        }
    }

    /// Whether every listener of `before` has received one more snapshot,
    /// and that snapshot is a result of its query in this store.
    pub open spec fn notified(&self, before: Seq<ListenerModel>) -> bool {
        &&& self.listeners().len() == before.len()
        &&& forall|i: int|
            0 <= i < before.len() ==> {
                let now = #[trigger] self.listeners()[i];
                &&& now.id == before[i].id
                &&& now.query == before[i].query
                &&& now.received.len() == before[i].received.len() + 1
                &&& now.received.drop_last() == before[i].received
                &&& self.is_snapshot(before[i].query, now.received.last())
            }
    }

    /// Whether this store differs from `before` in its listeners only.
    pub open spec fn same_data(&self, before: &Self) -> bool {
        &&& self.dir() == before.dir()
        &&& self.storage() == before.storage()
        &&& self.memtable() == before.memtable()
        &&& self.memtable_entries() == before.memtable_entries()
        &&& self.tables() == before.tables()
        &&& self.index() == before.index()
        &&& self.rules() == before.rules()
        &&& self.versions() == before.versions()
    }

    /// Whether the rules allow `operation` on `key`: where no rules were
    /// loaded, everything is allowed.
    fn check_rules(&self, key: &str, operation: &str) -> (r: bool)
        ensures
            r == rules_allow(self.rules(), key@, operation@),
    {
        if self.rules.is_empty() {
            return true;
        }
        let mut full = chars_of("/databases/(default)/documents/");
        push_text(&mut full, key);
        let full_path = string_of(full.as_slice());
        self.rules.permits(full_path.as_str(), operation)
    }

    /// Loads rules: the text is checked for its form and parsed, and the
    /// ruleset takes force. A text that is refused leaves the rules as they
    /// are.
    pub fn load_rules(&mut self, rules_str: &str) -> (r: Result<(), FireLocalError>)
        requires
            old(self).wf(),
        ensures
            final(self).wf(),
            final(self).dir() == old(self).dir(),
            final(self).storage() == old(self).storage(),
            final(self).memtable() == old(self).memtable(),
            final(self).memtable_entries() == old(self).memtable_entries(),
            final(self).tables() == old(self).tables(),
            final(self).index() == old(self).index(),
            final(self).listeners() == old(self).listeners(),
            final(self).next_listener_id() == old(self).next_listener_id(),
            final(self).versions() == old(self).versions(),
            match r {
                Ok(_) => rules_error(rules_str@) is None && parse_ruleset(rules_str@) is Ok
                    && final(self).rules() == Some(parse_ruleset(rules_str@)->Ok_0),
                Err(e) => e.kind() == ErrorKind::Validation && (rules_error(rules_str@) is Some
                    || parse_ruleset(rules_str@) is Err) && final(self).rules() == old(self).rules(),
            },
    {
        match validate_rules(rules_str) {
            Ok(_) => {},
            Err(e) => {
                return Err(
                    ErrorContext::new("load_rules").build(FireLocalError::Validation(e.message())),
                );
            },
        }
        match self.rules.load_rules(rules_str) {
            Ok(_) => Ok(()),
            Err(message) => Err(
                ErrorContext::new("load_rules").build(FireLocalError::Validation(message)),
            ),
        }
    }

    /// Reads the value at `key`: nothing where the rules deny the read;
    /// otherwise the value in the in-memory table, nothing where a tombstone
    /// stands there, and else what the sorted tables give, the newest
    /// first, a table that cannot be read being passed over.
    pub fn get(&self, key: &str) -> (r: Option<Vec<u8>>)
        requires
            self.wf(),
        ensures
            !rules_allow(self.rules(), key@, "read"@) ==> r is None,
            self.memtable().contains_key(key@) || self.storage().reliable() ==> bytes_model(r)
                == self.value_at(key@),
    {
        if !self.check_rules(key, "read") {
            return None;
        }
        match self.memtable.entry(key) {
            Some(Entry::Put(v)) => {
                return Some(v.clone());
            },
            Some(Entry::Delete) => {
                return None;
            },
            None => {},
        }
        let ghost stack = self.stack();
        let mut i: usize = 0;
        assert(stack.skip(0) =~= stack);
        while i < self.ssts.len()
            invariant
                i <= self.ssts.len(),
                self.wf(),
                stack == self.stack(),
                stack.len() == self.ssts@.len(),
                rules_allow(self.rules(), key@, "read"@),
                !self.memtable().contains_key(key@),
                self.storage().reliable() ==> stack_lookup(stack, key@) == stack_lookup(
                    stack.skip(i as int),
                    key@,
                ),
            decreases self.ssts.len() - i,
        {
            proof {
                assert(stack.skip(i as int)[0] == stack[i as int]);
                assert(stack.skip(i as int).drop_first() =~= stack.skip(i + 1));
                assert(self.tables()[i as int] == self.ssts@[i as int].path());
            }
            match self.ssts[i].get(&self.storage, key) {
                Ok(SstSearchResult::Found(v)) => {
                    return Some(v);
                },
                Ok(SstSearchResult::Deleted) => {
                    return None;
                },
                Ok(SstSearchResult::NotFound) => {},
                Err(_) => {},
            }
            i = i + 1;
        }
        None
    }

    /// Answers a query: for equality, the index gives the paths; each is
    /// read, the rules allowing it, and what is the JSON text of a document
    /// is collected. The result holds exactly the documents of the query's
    /// collection that the in-memory table holds with the queried value in
    /// the queried field and that may be read. Every other query gives
    /// nothing.
    pub fn query(&self, q: &QueryAst) -> (r: Result<Vec<Document>, FireLocalError>)
        requires
            self.wf(),
        ensures
            r matches Ok(docs) && self.is_snapshot(q.equality(), document_models(docs@)),
            q.equality() matches Some(query) ==> forall|doc: DocumentModel|
                document_models(r->Ok_0@).contains(doc) <==> exists|key: Seq<char>|
                    #[trigger] self.is_match(key, query) && self.document_at(key) == Some(doc),
    {
        let paths = self.index.query(q);
        let ghost path_models = Seq::new(paths@.len(), |i: int| paths@[i]@);
        let mut docs: Vec<Document> = Vec::new();
        let mut i: usize = 0;
        assert(document_models(docs@) =~= self.materialize(path_models.take(0)));
        proof {
            assert forall|k: int| 0 <= k < paths@.len() implies self.memtable().contains_key(
                #[trigger] paths@[k]@,
            ) by {
                let eq = q.equality()->Some_0;
                assert(self.index().contains(
                    Posting {
                        collection: eq.collection,
                        field: eq.field,
                        key: value_key(eq.value),
                        path: paths@[k]@,
                    },
                ));
            }
        }
        while i < paths.len()
            invariant
                i <= paths.len(),
                self.wf(),
                path_models == Seq::new(paths@.len(), |i: int| paths@[i]@),
                forall|k: int|
                    0 <= k < paths@.len() ==> self.memtable().contains_key(#[trigger] paths@[k]@),
                document_models(docs@) == self.materialize(path_models.take(i as int)),
                q.equality() is None ==> docs@.len() == 0 && paths@.len() == 0,
            decreases paths.len() - i,
        {
            let ghost before = document_models(docs@);
            proof {
                assert(path_models.take(i + 1).drop_last() =~= path_models.take(i as int));
                assert(path_models.take(i + 1).last() == paths@[i as int]@);
                assert(self.memtable().contains_key(paths@[i as int]@));
            }
            match self.get(paths[i].as_str()) {
                Some(bytes) => match text_from_utf8(bytes.as_slice()) {
                    Some(text) => match Document::from_json(text) {
                        Ok(doc) => {
                            docs.push(doc);
                            assert(document_models(docs@) =~= before.push(doc@));
                        },
                        Err(_) => {},
                    },
                    None => {},
                },
                None => {},
            }
            i = i + 1;
        }
        let r: Result<Vec<Document>, FireLocalError> = Ok(docs);
        proof {
            assert(path_models.take(paths@.len() as int) =~= path_models);
            match q.equality() {
                Some(eq) => {
                    {
                        assert(answers(self.index(), eq, path_models)) by {
                            assert forall|a: int, b: int|
                                0 <= a < path_models.len() && 0 <= b < path_models.len() && a
                                    != b implies path_models[a] != path_models[b] by {
                                if a < b {
                                    assert(paths@[a]@ != paths@[b]@);
                                } else {
                                    assert(paths@[b]@ != paths@[a]@);
                                }
                            }
                            assert forall|p: Seq<char>|
                                path_models.contains(p) <==> self.index().contains(
                                    Posting {
                                        collection: eq.collection,
                                        field: eq.field,
                                        key: value_key(eq.value),
                                        path: p,
                                    },
                                ) by {
                                if path_models.contains(p) {
                                    let k = choose|k: int|
                                        0 <= k < path_models.len() && path_models[k] == p;
                                    assert(paths@[k]@ == p);
                                }
                                if exists|k: int| 0 <= k < paths@.len() && #[trigger] paths@[k]@ == p {
                                    let k = choose|k: int|
                                        0 <= k < paths@.len() && #[trigger] paths@[k]@ == p;
                                    assert(path_models[k] == p);
                                }
                            }
                        }
                    }
                },
                None => {},
            }
        }
        proof {
            match q.equality() {
                Some(eq) => {
                    self.lemma_query_exact(eq, document_models(r->Ok_0@));
                },
                None => {},
            }
        }
        r
    }

    /// Hands every listener the result of its query in the store as it is.
    fn notify_listeners(&mut self)
        requires
            old(self).wf(),
        ensures
            final(self).wf(),
            final(self).same_data(old(self)),
            final(self).next_listener_id() == old(self).next_listener_id(),
            final(self).notified(old(self).listeners()),
    {
        let targets = self.listeners.get_listeners();
        let ghost before = self.listeners@;
        proof {
            self.listeners.lemma_ids();
        }
        let mut i: usize = 0;
        while i < targets.len()
            invariant
                i <= targets.len(),
                self.wf(),
                self.same_data(old(self)),
                self.next_listener_id() == old(self).next_listener_id(),
                before == old(self).listeners(),
                targets@.len() == before.len(),
                self.listeners().len() == before.len(),
                forall|k: int, j: int| 0 <= k < j < before.len() ==> before[k].id < before[j].id,
                forall|k: int|
                    0 <= k < targets@.len() ==> (#[trigger] targets@[k]).0 == before[k].id
                        && targets@[k].1.equality() == before[k].query,
                forall|k: int| i <= k < before.len() ==> #[trigger] self.listeners()[k] == before[k],
                forall|k: int|
                    0 <= k < i ==> {
                        let now = #[trigger] self.listeners()[k];
                        &&& now.id == before[k].id
                        &&& now.query == before[k].query
                        &&& now.received.len() == before[k].received.len() + 1
                        &&& now.received.drop_last() == before[k].received
                        &&& self.is_snapshot(before[k].query, now.received.last())
                    },
            decreases targets.len() - i,
        {
            let ghost mid = self.listeners@;
            let ghost snapshot_self = *self;
            match self.query(&targets[i].1) {
                Ok(docs) => {
                    let ghost snap = document_models(docs@);
                    self.listeners.notify(targets[i].0, docs);
                    proof {
                        assert forall|k: int| i + 1 <= k < before.len() implies
                            #[trigger] self.listeners()[k] == before[k] by {
                            assert(mid[k] == before[k]);
                            assert(before[i as int].id < before[k].id);
                        }
                        assert forall|k: int| 0 <= k < i + 1 implies {
                            let now = #[trigger] self.listeners()[k];
                            &&& now.id == before[k].id
                            &&& now.query == before[k].query
                            &&& now.received.len() == before[k].received.len() + 1
                            &&& now.received.drop_last() == before[k].received
                            &&& self.is_snapshot(before[k].query, now.received.last())
                        } by {
                            if k < i {
                                assert(before[k].id < before[i as int].id);
                                assert(self.listeners()[k] == mid[k]);
                                lemma_snapshot_same_data(self, &snapshot_self, before[k].query, mid[k].received.last());
                            } else {
                                assert(mid[k] == before[k]);
                                let now = self.listeners()[k];
                                assert(now.received =~= before[k].received.push(snap));
                                assert(now.received.drop_last() =~= before[k].received);
                                lemma_snapshot_same_data(self, &snapshot_self, before[k].query, snap);
                            }
                        }
                    }
                },
                Err(_) => {},
            }
            i = i + 1;
        }
    }

    /// Registers a listener for `q` and hands it the result of the query as
    /// the first snapshot. Returns the listener's id, which is greater than
    /// every id given before.
    pub fn listen(&mut self, q: QueryAst, callback: L) -> (r: u64)
        requires
            old(self).wf(),
            old(self).next_listener_id() < u64::MAX,
        ensures
            final(self).wf(),
            final(self).same_data(old(self)),
            r == old(self).next_listener_id(),
            final(self).next_listener_id() == r + 1,
            final(self).listeners().len() == old(self).listeners().len() + 1,
            final(self).listeners().drop_last() == old(self).listeners(),
            ({
                let added = final(self).listeners().last();
                &&& added.id == r
                &&& added.query == q.equality()
                &&& added.received.len() == 1
                &&& final(self).is_snapshot(q.equality(), added.received[0])
            }),
    {
        let query = q.duplicate();
        let ghost before = self.listeners@;
        let id = self.listeners.register(q, callback);
        let ghost snapshot_self = *self;
        match self.query(&query) {
            Ok(docs) => {
                let ghost snap = document_models(docs@);
                proof {
                    self.listeners.lemma_ids();
                }
                let ghost mid = self.listeners@;
                self.listeners.notify(id, docs);
                proof {
                    assert(self.listeners().drop_last() =~= before) by {
                        assert forall|k: int| 0 <= k < before.len() implies self.listeners()[k]
                            == before[k] by {
                            assert(mid[k] == before[k]);
                            assert(mid[k].id < mid[mid.len() - 1].id);
                        }
                    }
                    let added = self.listeners().last();
                    assert(added.received =~= Seq::<Seq<DocumentModel>>::empty().push(snap));
                    lemma_snapshot_same_data(self, &snapshot_self, q.equality(), snap);
                }
            },
            Err(_) => {},
        }
        id
    }

    /// Takes the listener with the given id out of the registry.
    pub fn unregister(&mut self, id: u64)
        requires
            old(self).wf(),
        ensures
            final(self).wf(),
            final(self).same_data(old(self)),
            final(self).next_listener_id() == old(self).next_listener_id(),
            final(self).listeners() == old(self).listeners().filter(|l: ListenerModel| l.id != id),
    {
        self.listeners.unregister(id);
    }
}

impl<S: Storage, L: SnapshotListener> FireLocal<S, L> {
    /// The error of `operation` on `key` with the given kind and message.
    fn refusal(kind: ErrorKind, operation: &str, key: &str, message: String) -> (r: FireLocalError)
        ensures
            r.kind() == kind,
    {
        ErrorContext::new(operation).with_path(key).build(FireLocalError::of_kind(kind, message))
    }

    /// Appends the record of `entry` to the write-ahead log.
    fn log(&mut self, operation: &str, entry: &WalEntry) -> (r: Result<(), FireLocalError>)
        requires
            old(self).wf(),
            crate::store::wal::record_shaped(entry@),
        ensures
            final(self).wf(),
            final(self).dir() == old(self).dir(),
            final(self).storage().reliable() == old(self).storage().reliable(),
            final(self).memtable() == old(self).memtable(),
            final(self).memtable_entries() == old(self).memtable_entries(),
            final(self).tables() == old(self).tables(),
            final(self).index() == old(self).index(),
            final(self).rules() == old(self).rules(),
            final(self).versions() == old(self).versions(),
            final(self).listeners() == old(self).listeners(),
            final(self).next_listener_id() == old(self).next_listener_id(),
            same_except(
                old(self).storage().files(),
                final(self).storage().files(),
                old(self).wal_path(),
            ),
            match r {
                Ok(_) => record_fits(entry@) && final(self).wal_content() == old(self).wal_content()
                    + frame(record_bytes(entry@)),
                Err(e) => e.kind() == if record_fits(entry@) {
                    ErrorKind::Io
                } else {
                    ErrorKind::Validation
                },
            },
    {
        let bytes = match encode_record(entry) {
            Some(bytes) => bytes,
            None => {
                assert(same_except(
                    self.storage().files(),
                    self.storage().files(),
                    self.wal_path(),
                ));
                return Err(
                    Self::refusal(
                        ErrorKind::Validation,
                        operation,
                        entry.key.as_str(),
                        "record too large".to_owned(),
                    ),
                );
            },
        };
        proof {
            crate::store::wal::lemma_record_round_trip(entry@);
        }
        match self.wal.append(&mut self.storage, bytes.as_slice()) {
            Ok(_) => Ok(()),
            Err(e) => Err(io_error(operation, e)),
        }
    }

    /// Stores `value` under `key`. The key and the value are checked, the
    /// rules are asked for the write, the write-ahead log records the put,
    /// the index puts what the value brings in the place of the key's
    /// entries, the in-memory table takes the value, and the listeners are
    /// notified. A put that is refused changes nothing; one that fails at
    /// the log leaves the in-memory table and the index as they are.
    pub fn put(&mut self, key: String, value: Vec<u8>) -> (r: Result<(), FireLocalError>)
        requires
            old(self).wf(),
        ensures
            final(self).wf(),
            final(self).dir() == old(self).dir(),
            final(self).storage().reliable() == old(self).storage().reliable(),
            final(self).tables() == old(self).tables(),
            final(self).rules() == old(self).rules(),
            final(self).versions() == old(self).versions(),
            final(self).next_listener_id() == old(self).next_listener_id(),
            match put_refusal(old(self).rules(), key@, value@) {
                Some(kind) => r matches Err(e) && e.kind() == kind && final(self).same_data(
                    old(self),
                ) && final(self).listeners() == old(self).listeners(),
                None => {
                    &&& same_except(
                        old(self).storage().files(),
                        final(self).storage().files(),
                        old(self).wal_path(),
                    )
                    &&& match r {
                        Ok(_) => final(self).memtable() == old(self).memtable().insert(
                            key@,
                            Some(value@),
                        ) && final(self).index() == index_after_write(
                            old(self).index(),
                            key@,
                            Some(value@),
                        ) && final(self).wal_content() == old(self).wal_content() + frame(
                            record_bytes(put_entry(key@, value@)),
                        ) && final(self).notified(old(self).listeners()) && (old(self).recoverable() ==> final(self).recoverable()),
                        Err(e) => e.kind() == ErrorKind::Io && final(self).memtable() == old(self).memtable() && final(self).index() == old(self).index() && final(self).listeners() == old(self).listeners(),
                    }
                },
            },
    {
        match validate_path(key.as_str()) {
            Ok(_) => {},
            Err(e) => {
                return Err(Self::refusal(ErrorKind::Validation, "put", key.as_str(), e.message()));
            },
        }
        match validate_data_size(value.as_slice()) {
            Ok(_) => {},
            Err(e) => {
                return Err(Self::refusal(ErrorKind::Validation, "put", key.as_str(), e.message()));
            },
        }
        if text_from_utf8(value.as_slice()).is_none() {
            return Err(
                Self::refusal(
                    ErrorKind::Validation,
                    "put",
                    key.as_str(),
                    ValidationError::InvalidUtf8.message(),
                ),
            );
        }
        if !self.check_rules(key.as_str(), "write") {
            return Err(
                Self::refusal(
                    ErrorKind::PermissionDenied,
                    "put",
                    key.as_str(),
                    "Rules check failed".to_owned(),
                ),
            );
        }
        let entry = WalEntry { op: WalOp::Put, key, value: Some(value), batch_id: None };
        proof {
            lemma_path_fits(entry@.key);
        }
        match self.log("put", &entry) {
            Ok(_) => {},
            Err(e) => {
                return Err(e);
            },
        }
        proof {
            if old(self).recoverable() {
                lemma_recovery_after_commit(old(self).wal_content(), entry@);
            }
        }
        match entry.value {
            Some(v) => {
                proof {
                    lemma_index_of_insert(self.memtable@, entry.key@, Some(v@));
                }
                index_write(&mut self.index, entry.key.as_str(), Some(v.as_slice()));
                self.memtable.put(entry.key, v);
            },
            None => {},
        }
        self.notify_listeners();
        Ok(())
    }

    /// Deletes `key`. The key is checked, the rules are asked for the write,
    /// the write-ahead log records the delete, the index drops every entry
    /// for the key, the in-memory table takes a tombstone, and the listeners
    /// are notified.
    pub fn delete(&mut self, key: String) -> (r: Result<(), FireLocalError>)
        requires
            old(self).wf(),
        ensures
            final(self).wf(),
            final(self).dir() == old(self).dir(),
            final(self).storage().reliable() == old(self).storage().reliable(),
            final(self).tables() == old(self).tables(),
            final(self).rules() == old(self).rules(),
            final(self).versions() == old(self).versions(),
            final(self).next_listener_id() == old(self).next_listener_id(),
            match delete_refusal(old(self).rules(), key@) {
                Some(kind) => r matches Err(e) && e.kind() == kind && final(self).same_data(
                    old(self),
                ) && final(self).listeners() == old(self).listeners(),
                None => {
                    &&& same_except(
                        old(self).storage().files(),
                        final(self).storage().files(),
                        old(self).wal_path(),
                    )
                    &&& match r {
                        Ok(_) => final(self).memtable() == old(self).memtable().insert(key@, None)
                            && final(self).index() == index_after_write(
                            old(self).index(),
                            key@,
                            None,
                        ) && final(self).wal_content() == old(self).wal_content() + frame(
                            record_bytes(delete_entry(key@)),
                        ) && final(self).notified(old(self).listeners()) && (old(self).recoverable() ==> final(self).recoverable()),
                        Err(e) => e.kind() == ErrorKind::Io && final(self).memtable() == old(self).memtable() && final(self).index() == old(self).index() && final(self).listeners() == old(self).listeners(),
                    }
                },
            },
    {
        match validate_path(key.as_str()) {
            Ok(_) => {},
            Err(e) => {
                return Err(
                    Self::refusal(ErrorKind::Validation, "delete", key.as_str(), e.message()),
                );
            },
        }
        if !self.check_rules(key.as_str(), "write") {
            return Err(
                Self::refusal(
                    ErrorKind::PermissionDenied,
                    "delete",
                    key.as_str(),
                    "Rules check failed".to_owned(),
                ),
            );
        }
        let entry = WalEntry { op: WalOp::Delete, key, value: None, batch_id: None };
        proof {
            lemma_path_fits(entry@.key);
        }
        match self.log("delete", &entry) {
            Ok(_) => {},
            Err(e) => {
                return Err(e);
            },
        }
        proof {
            if old(self).recoverable() {
                lemma_recovery_after_commit(old(self).wal_content(), entry@);
            }
        }
        proof {
            lemma_index_of_insert(self.memtable@, entry.key@, None);
        }
        index_write(&mut self.index, entry.key.as_str(), None);
        self.memtable.delete(entry.key);
        self.notify_listeners();
        Ok(())
    }

    /// Writes the in-memory table to a new sorted table in the store's
    /// directory, named by a fresh identifier. The in-memory table and the
    /// write-ahead log stay as they are, and the new table is consulted
    /// only by a store that is opened afterwards.
    pub fn flush(&mut self) -> (r: Result<(), FireLocalError>)
        requires
            old(self).wf(),
        ensures
            final(self).wf(),
            final(self).dir() == old(self).dir(),
            final(self).storage().reliable() == old(self).storage().reliable(),
            final(self).memtable() == old(self).memtable(),
            final(self).memtable_entries() == old(self).memtable_entries(),
            final(self).tables() == old(self).tables(),
            final(self).index() == old(self).index(),
            final(self).rules() == old(self).rules(),
            final(self).versions() == old(self).versions(),
            final(self).listeners() == old(self).listeners(),
            final(self).next_listener_id() == old(self).next_listener_id(),
            final(self).wal_content() == old(self).wal_content(),
            match r {
                Ok(_) => exists|id: Seq<char>| #[trigger] final(self).is_flushed_to(old(self), id),
                Err(e) => e.kind() == ErrorKind::Io,
            },
    {
        let id = new_uuid();
        let mut name = chars_of(id.as_str());
        push_text(&mut name, ".sst");
        let table = join_path(self.path.as_str(), string_of(name.as_slice()).as_str());
        proof {
            reveal_strlit(".sst");
            reveal_strlit("wal.log");
            assert(table@.len() != self.wal_path().len());
            assert(table@ == table_path(self.dir(), id@));
        }
        let ghost files_before = self.storage.files();
        let builder = match SstBuilder::new(&mut self.storage, table.as_str()) {
            Ok(b) => b,
            Err(e) => {
                return Err(io_error("flush", e));
            },
        };
        let ghost files_mid = self.storage.files();
        let built = builder.build(&mut self.storage, &self.memtable);
        proof {
            assert(files_before.remove(table@) == self.storage.files().remove(table@));
            lemma_untouched(files_before, self.storage.files(), table@);
            assert(same_file(files_before, self.storage.files(), self.wal_path()));
        }
        match built {
            Ok(_) => {
                proof {
                    let es = self.memtable.entries();
                    crate::store::sst::lemma_sst_bytes_len(es);
                    assert(files_mid[table@].content =~= Seq::<u8>::empty());
                    assert(self.storage.files()[table@].content =~= sst_bytes(es));
                    crate::store::sst::lemma_parse_of_sst_bytes(es);
                    assert(same_except(files_before, self.storage.files(), table@));
                    assert(table_entries(self.storage.files(), table@) == Some(es));
                    assert(self.is_flushed_to(old(self), id@));
                }
                Ok(())
            },
            Err(e) => Err(io_error("flush", e)),
        }
    }

    /// Whether the store is what a flush makes of `before` that writes the
    /// table with the identifier `id`: the identifier has 36 characters,
    /// the table is not the write-ahead log, no other file has changed, and
    /// the table holds the entries of the in-memory table.
    pub open spec fn is_flushed_to(&self, before: &Self, id: Seq<char>) -> bool {
        let table = table_path(before.dir(), id);
        &&& id.len() == 36
        &&& table != before.wal_path()
        &&& same_except(before.storage().files(), self.storage().files(), table)
        &&& table_entries(self.storage().files(), table) == Some(before.memtable_entries())
    }

    /// Whether another listener can be registered: the ids are not used
    /// up.
    pub fn can_listen(&self) -> (r: bool)
        ensures
            r == (self.next_listener_id() < u64::MAX),
    {
        self.listeners.has_room()
    }

    /// The storage that the store lives on.
    pub fn storage_ref(&self) -> (r: &S)
        ensures
            *r == self.storage(),
    {
        &self.storage
    }

    /// Closes the store and hands its storage back.
    pub fn into_storage(self) -> (r: S)
        ensures
            r == self.storage(),
    {
        self.storage
    }

    /// An empty write batch with a fresh identifier.
    pub fn batch(&self) -> (r: WriteBatch)
        ensures
            r@ == Seq::<(Seq<char>, Option<Seq<u8>>)>::empty(),
    {
        WriteBatch::new()
    }
}

/// A key that is a path in order is short enough for a record.
pub proof fn lemma_path_fits(key: Seq<char>)
    ensures
        path_error(key) is None ==> vstd::utf8::encode_utf8(key).len()
            <= crate::store::wal::MAX_KEY_LEN,
{
}

/// The largest number of writes in a batch.
pub const MAX_BATCH_OPERATIONS: usize = 1000;

/// Why a batch is refused, if it is: it holds more than 1000 writes; its
/// data is larger than 100 MiB in all; one of its paths is not in order;
/// the rules deny one of its writes.
pub open spec fn batch_refusal(
    rules: Option<RulesetModel>,
    ops: Seq<(Seq<char>, Option<Seq<u8>>)>,
) -> Option<ErrorKind> {
    if ops.len() > MAX_BATCH_OPERATIONS || total_size(ops) > MAX_DATA_SIZE {
        Some(ErrorKind::Validation)
    } else if exists|i: int| 0 <= i < ops.len() && path_error((#[trigger] ops[i]).0) is Some {
        Some(ErrorKind::Validation)
    } else if exists|i: int|
        0 <= i < ops.len() && !rules_allow(rules, (#[trigger] ops[i]).0, "write"@) {
        Some(ErrorKind::PermissionDenied)
    } else {
        None
    }
}

/// The write-ahead log is no sorted table, and not the table that a
/// compaction writes.
pub proof fn lemma_wal_is_no_table(dir: Seq<char>)
    ensures
        crate::store::io::extension_of(joined(dir, "wal.log"@)) != Some("sst"@),
        joined(dir, "wal.log"@) != joined(dir, "compacted.sst"@),
{
    reveal_strlit("wal.log");
    reveal_strlit("sst");
    reveal_strlit("compacted.sst");
    let p = joined(dir, "wal.log"@);
    if crate::store::io::extension_of(p) == Some("sst"@) {
        crate::store::io::lemma_extension_is_suffix(p, "sst"@);
        assert(p.skip(p.len() - 3)[2] == 't');
        assert(p[p.len() - 1] == 'g');
    }
    assert(p.len() != joined(dir, "compacted.sst"@).len());
}

impl<S: Storage, L: SnapshotListener> FireLocal<S, L> {
    /// Compacts the sorted tables of the store's directory: they are merged
    /// into one, the newest table that holds a key deciding, the tombstones
    /// are dropped, and the old tables are removed. From then on reads
    /// consult the merged table. Where the compaction fails, every file but
    /// its scratch file is either removed or as it was, and reads go on
    /// consulting the tables that were open.
    pub fn compact(&mut self) -> (r: Result<CompactionStats, FireLocalError>)
        requires
            old(self).wf(),
        ensures
            final(self).wf(),
            final(self).dir() == old(self).dir(),
            final(self).storage().reliable() == old(self).storage().reliable(),
            final(self).memtable() == old(self).memtable(),
            final(self).memtable_entries() == old(self).memtable_entries(),
            final(self).index() == old(self).index(),
            final(self).rules() == old(self).rules(),
            final(self).versions() == old(self).versions(),
            final(self).listeners() == old(self).listeners(),
            final(self).next_listener_id() == old(self).next_listener_id(),
            final(self).wal_content() == old(self).wal_content(),
            final(self).storage().files().contains_key(old(self).wal_path()) == old(self).storage().files().contains_key(old(self).wal_path()),
            match r {
                Ok(stats) => exists|listing: Seq<(Seq<char>, u64)>|
                    {
                        &&& #[trigger] is_table_listing(&old(self).storage(), old(self).dir(), listing)
                        &&& compacted(
                            old(self).storage().files(),
                            final(self).storage().files(),
                            listing,
                            joined(old(self).dir(), "compacted.sst"@),
                            stats,
                        )
                        &&& final(self).tables() == if stats.files_after == 1 {
                            seq![joined(old(self).dir(), "compacted.sst"@)]
                        } else {
                            Seq::<Seq<char>>::empty()
                        }
                    },
                Err(e) => e.kind() == ErrorKind::Io && final(self).tables() == old(self).tables()
                    && crate::store::compaction::kept_or_gone(
                    old(self).storage().files(),
                    final(self).storage().files(),
                    joined(old(self).dir(), "compacted.tmp"@),
                ),
            },
    {
        let listing = match discover_tables(&self.storage, self.path.as_str()) {
            Ok(listing) => listing,
            Err(e) => {
                return Err(io_error("compact", e));
            },
        };
        let ghost models = listing_models(listing@);
        let ghost files_before = self.storage.files();
        let compactor = Compactor::new(self.path.clone());
        proof {
            lemma_wal_is_no_table(self.path@);
            crate::store::compaction::lemma_scratch_path(self.path@);
            if crate::store::compaction::listed(models, self.wal_path()) {
                let i = choose|i: int| 0 <= i < models.len() && (#[trigger] models[i]).0 == self.wal_path();
                assert(crate::store::compaction::is_table(&self.storage, self.path@, models[i].0));
            }
        }
        let result = compactor.compact_listing(&mut self.storage, &listing);
        proof {
            assert(same_file(files_before, self.storage.files(), self.wal_path()));
        }
        match result {
            Ok(stats) => {
                let mut ssts: Vec<SstReader> = Vec::new();
                if stats.files_after == 1 {
                    ssts.push(SstReader::for_path(join_path(self.path.as_str(), "compacted.sst")));
                }
                self.ssts = ssts;
                proof {
                    if stats.files_after == 1 {
                        assert(self.tables() =~= seq![joined(self.path@, "compacted.sst"@)]);
                    } else {
                        assert(self.tables() =~= Seq::<Seq<char>>::empty());
                    }
                    assert(is_table_listing(&old(self).storage(), old(self).dir(), models));
                }
                Ok(stats)
            },
            Err(e) => Err(e),
        }
    }

    /// Records the writes of `ops` in the write-ahead log, as writes of the
    /// batch `id`, and applies them to the in-memory table and the index
    /// once all of them are recorded.
    fn write_operations(&mut self, operation: &str, ops: &[BatchOperation], id: &str) -> (r: Result<
        (),
        FireLocalError,
    >)
        requires
            old(self).wf(),
            forall|i: int| 0 <= i < ops@.len() ==> path_error((#[trigger] ops@[i]).target()) is None,
        ensures
            final(self).wf(),
            final(self).dir() == old(self).dir(),
            final(self).storage().reliable() == old(self).storage().reliable(),
            final(self).tables() == old(self).tables(),
            final(self).index() == index_of(final(self).memtable()),
            final(self).rules() == old(self).rules(),
            final(self).versions() == old(self).versions(),
            final(self).listeners() == old(self).listeners(),
            final(self).next_listener_id() == old(self).next_listener_id(),
            same_except(
                old(self).storage().files(),
                final(self).storage().files(),
                old(self).wal_path(),
            ),
            match r {
                Ok(_) => final(self).memtable() == apply_writes(
                    old(self).memtable(),
                    write_models(ops@),
                ) && final(self).wal_content() == old(self).wal_content() + batch_frames(
                    write_models(ops@),
                    id@,
                ) && (old(self).recoverable() ==> final(self).recoverable()),
                Err(e) => (e.kind() == ErrorKind::Io || e.kind() == ErrorKind::Validation) && final(self).memtable() == old(self).memtable(),
            },
    {
        let ghost writes = write_models(ops@);
        let ghost files_before = self.storage.files();
        let ghost log0 = self.wal_content();
        let mut i: usize = 0;
        assert(same_except(files_before, self.storage.files(), self.wal_path()));
        assert(log0 + batch_frames(writes.take(0), id@) =~= log0);
        while i < ops.len()
            invariant
                i <= ops.len(),
                self.wf(),
                writes == write_models(ops@),
                files_before == old(self).storage().files(),
                log0 == old(self).wal_content(),
                self.dir() == old(self).dir(),
                self.storage().reliable() == old(self).storage().reliable(),
                self.memtable() == old(self).memtable(),
                self.memtable_entries() == old(self).memtable_entries(),
                self.tables() == old(self).tables(),
                self.index() == old(self).index(),
                self.rules() == old(self).rules(),
                self.versions() == old(self).versions(),
                self.listeners() == old(self).listeners(),
                self.next_listener_id() == old(self).next_listener_id(),
                same_except(files_before, self.storage().files(), self.wal_path()),
                forall|k: int|
                    0 <= k < ops@.len() ==> path_error((#[trigger] ops@[k]).target()) is None,
                self.wal_content() == log0 + batch_frames(writes.take(i as int), id@),
                old(self).recoverable() ==> whole_records(self.wal_content()) && replay(
                    payloads(self.wal_content()),
                ) == apply_writes(old(self).memtable(), writes.take(i as int)),
            decreases ops.len() - i,
        {
            let ghost log_before = self.wal_content();
            let entry = match &ops[i] {
                BatchOperation::Put { path, data } => WalEntry::put(
                    path.clone(),
                    data.clone(),
                    Some(id),
                ),
                BatchOperation::Update { path, data } => WalEntry::put(
                    path.clone(),
                    data.clone(),
                    Some(id),
                ),
                BatchOperation::Delete { path } => WalEntry::delete(path.clone(), Some(id)),
            };
            proof {
                assert(entry@ == batch_entry(writes[i as int], id@));
                assert(writes.take(i + 1).drop_last() =~= writes.take(i as int));
                assert(writes.take(i + 1).last() == writes[i as int]);
            }
            match self.log(operation, &entry) {
                Ok(_) => {},
                Err(e) => {
                    proof {
                        assert(files_before.remove(self.wal_path()) == self.storage().files().remove(
                            self.wal_path(),
                        ));
                    }
                    return Err(e);
                },
            }
            proof {
                assert(files_before.remove(self.wal_path()) == self.storage().files().remove(
                    self.wal_path(),
                ));
                assert(log0 + batch_frames(writes.take(i as int), id@) + frame(
                    record_bytes(entry@),
                ) =~= log0 + (batch_frames(writes.take(i as int), id@) + frame(
                    record_bytes(entry@),
                )));
                if old(self).recoverable() {
                    lemma_recovery_after_commit(log_before, entry@);
                }
            }
            i = i + 1;
        }
        assert(writes.take(ops@.len() as int) =~= writes);
        let mut j: usize = 0;
        while j < ops.len()
            invariant
                j <= ops.len(),
                self.wf(),
                writes == write_models(ops@),
                self.dir() == old(self).dir(),
                self.storage().reliable() == old(self).storage().reliable(),
                self.tables() == old(self).tables(),
                self.rules() == old(self).rules(),
                self.versions() == old(self).versions(),
                self.listeners() == old(self).listeners(),
                self.next_listener_id() == old(self).next_listener_id(),
                same_except(old(self).storage().files(), self.storage().files(), self.wal_path()),
                self.wal_content() == old(self).wal_content() + batch_frames(writes, id@),
                self.memtable() == apply_writes(old(self).memtable(), writes.take(j as int)),
                old(self).recoverable() ==> whole_records(self.wal_content()) && replay(
                    payloads(self.wal_content()),
                ) == apply_writes(old(self).memtable(), writes),
            decreases ops.len() - j,
        {
            proof {
                assert(writes.take(j + 1).drop_last() =~= writes.take(j as int));
                assert(writes.take(j + 1).last() == writes[j as int]);
            }
            proof {
                lemma_index_of_insert(self.memtable@, ops@[j as int].target(), ops@[j as int].outcome());
            }
            match &ops[j] {
                BatchOperation::Put { path, data } => {
                    index_write(&mut self.index, path.as_str(), Some(data.as_slice()));
                    self.memtable.put(path.clone(), data.clone());
                },
                BatchOperation::Update { path, data } => {
                    index_write(&mut self.index, path.as_str(), Some(data.as_slice()));
                    self.memtable.put(path.clone(), data.clone());
                },
                BatchOperation::Delete { path } => {
                    index_write(&mut self.index, path.as_str(), None);
                    self.memtable.delete(path.clone());
                },
            }
            j = j + 1;
        }
        assert(writes.take(ops@.len() as int) =~= writes);
        Ok(())
    }

    /// Why the batch of `ops` is refused, if it is.
    fn check_batch(&self, ops: &[BatchOperation]) -> (r: Option<FireLocalError>)
        requires
            self.wf(),
        ensures
            match batch_refusal(self.rules(), write_models(ops@)) {
                Some(kind) => r matches Some(e) && e.kind() == kind,
                None => r is None,
            },
    {
        let ghost writes = write_models(ops@);
        if ops.len() > MAX_BATCH_OPERATIONS {
            return Some(
                ErrorContext::new("commit_batch").build(
                    FireLocalError::Validation("too many operations in batch".to_owned()),
                ),
            );
        }
        let mut size: usize = 0;
        let mut i: usize = 0;
        while i < ops.len()
            invariant
                i <= ops.len(),
                ops@.len() <= MAX_BATCH_OPERATIONS,
                writes == write_models(ops@),
                size == total_size(writes.take(i as int)),
                size <= MAX_DATA_SIZE,
            decreases ops.len() - i,
        {
            proof {
                assert(writes.take(i + 1).drop_last() =~= writes.take(i as int));
                assert(writes.take(i + 1).last() == writes[i as int]);
                lemma_total_size_grows(writes, i + 1);
            }
            let n = match ops[i].data() {
                Some(d) => d.len(),
                None => 0,
            };
            if n > MAX_DATA_SIZE - size {
                return Some(
                    ErrorContext::new("commit_batch").build(
                        FireLocalError::Validation("batch data too large".to_owned()),
                    ),
                );
            }
            size = size + n;
            i = i + 1;
        }
        assert(writes.take(ops@.len() as int) =~= writes);
        let mut i: usize = 0;
        while i < ops.len()
            invariant
                i <= ops.len(),
                ops@.len() <= MAX_BATCH_OPERATIONS,
                total_size(writes) <= MAX_DATA_SIZE,
                writes == write_models(ops@),
                forall|k: int| 0 <= k < i ==> path_error((#[trigger] writes[k]).0) is None,
            decreases ops.len() - i,
        {
            match validate_path(ops[i].path().as_str()) {
                Ok(_) => {},
                Err(e) => {
                    assert(path_error(writes[i as int].0) is Some);
                    return Some(
                        Self::refusal(
                            ErrorKind::Validation,
                            "commit_batch",
                            ops[i].path().as_str(),
                            e.message(),
                        ),
                    );
                },
            }
            i = i + 1;
        }
        let mut i: usize = 0;
        while i < ops.len()
            invariant
                i <= ops.len(),
                self.wf(),
                ops@.len() <= MAX_BATCH_OPERATIONS,
                total_size(writes) <= MAX_DATA_SIZE,
                writes == write_models(ops@),
                forall|k: int| 0 <= k < ops@.len() ==> path_error((#[trigger] writes[k]).0) is None,
                forall|k: int|
                    0 <= k < i ==> rules_allow(self.rules(), (#[trigger] writes[k]).0, "write"@),
            decreases ops.len() - i,
        {
            if !self.check_rules(ops[i].path().as_str(), "write") {
                assert(!rules_allow(self.rules(), writes[i as int].0, "write"@));
                return Some(
                    Self::refusal(
                        ErrorKind::PermissionDenied,
                        "commit_batch",
                        ops[i].path().as_str(),
                        "Rules check failed".to_owned(),
                    ),
                );
            }
            i = i + 1;
        }
        None
    }

    /// Commits a batch. The batch is refused, and nothing changes, where it
    /// holds more than 1000 writes or more than 100 MiB of data, where one
    /// of its paths is not in order, or where the rules deny one of its
    /// writes. Otherwise its writes are recorded in the write-ahead log in
    /// their order, then applied to the in-memory table and the index in
    /// their order, and the listeners are notified once. A failure at the
    /// log leaves the in-memory table and the index as they are.
    pub fn commit_batch(&mut self, batch: &WriteBatch) -> (r: Result<(), FireLocalError>)
        requires
            old(self).wf(),
        ensures
            final(self).wf(),
            final(self).dir() == old(self).dir(),
            final(self).storage().reliable() == old(self).storage().reliable(),
            final(self).tables() == old(self).tables(),
            final(self).index() == index_of(final(self).memtable()),
            final(self).rules() == old(self).rules(),
            final(self).versions() == old(self).versions(),
            final(self).next_listener_id() == old(self).next_listener_id(),
            match batch_refusal(old(self).rules(), batch@) {
                Some(kind) => r matches Err(e) && e.kind() == kind && final(self).same_data(
                    old(self),
                ) && final(self).listeners() == old(self).listeners(),
                None => {
                    &&& same_except(
                        old(self).storage().files(),
                        final(self).storage().files(),
                        old(self).wal_path(),
                    )
                    &&& match r {
                        Ok(_) => final(self).memtable() == apply_writes(
                            old(self).memtable(),
                            batch@,
                        ) && final(self).wal_content() == old(self).wal_content() + batch_frames(
                            batch@,
                            batch.id(),
                        ) && final(self).notified(old(self).listeners()) && (old(self).recoverable() ==> final(self).recoverable()),
                        Err(e) => (e.kind() == ErrorKind::Io || e.kind() == ErrorKind::Validation)
                            && final(self).memtable() == old(self).memtable() && final(self).listeners() == old(self).listeners(),
                    }
                },
            },
    {
        let ops = batch.operations();
        match self.check_batch(ops) {
            Some(e) => {
                return Err(e);
            },
            None => {},
        }
        proof {
            let writes = batch@;
            assert forall|k: int| 0 <= k < ops@.len() implies path_error(
                (#[trigger] ops@[k]).target(),
            ) is None by {
                assert(writes[k].0 == ops@[k].target());
            }
        }
        match self.write_operations("commit_batch", ops, batch.batch_id()) {
            Ok(_) => {},
            Err(e) => {
                return Err(e);
            },
        }
        self.notify_listeners();
        Ok(())
    }
}

/// The size of a batch does not shrink as writes are added.
pub proof fn lemma_total_size_grows(ops: Seq<(Seq<char>, Option<Seq<u8>>)>, n: int)
    requires
        0 <= n <= ops.len(),
    ensures
        total_size(ops.take(n)) <= total_size(ops),
    decreases ops.len() - n,
{
    if n < ops.len() {
        lemma_total_size_grows(ops, n + 1);
        assert(ops.take(n + 1).drop_last() =~= ops.take(n));
    } else {
        assert(ops.take(n) =~= ops);
    }
}

/// The payloads of a list of log entries.
pub open spec fn record_list(entries: Seq<WalEntryModel>) -> Seq<Seq<u8>> {
    Seq::new(entries.len(), |i: int| record_bytes(entries[i]))
}

/// The in-memory table after the writes of a list of log entries, in their
/// order, starting from an empty table.
pub open spec fn applied(entries: Seq<WalEntryModel>) -> Map<Seq<char>, Option<Seq<u8>>>
    decreases entries.len(),
{
    if entries.len() == 0 {
        Map::empty()
    } else {
        applied(entries.drop_last()).insert(entries.last().key, entries.last().value)
    }
}

/// After a put, and until the key is written again, `get` returns the value
/// that was put, where the rules allow the read.
pub proof fn lemma_get_after_put(
    rules: Option<RulesetModel>,
    memtable: Map<Seq<char>, Option<Seq<u8>>>,
    stack: Seq<Option<Seq<(Seq<char>, Option<Seq<u8>>)>>>,
    key: Seq<char>,
    value: Seq<u8>,
)
    requires
        rules_allow(rules, key, "read"@),
    ensures
        get_value(rules, memtable.insert(key, Some(value)), stack, key) == Some(value),
{
}

/// After a delete, and until the key is put again, `get` returns nothing.
pub proof fn lemma_get_after_delete(
    rules: Option<RulesetModel>,
    memtable: Map<Seq<char>, Option<Seq<u8>>>,
    stack: Seq<Option<Seq<(Seq<char>, Option<Seq<u8>>)>>>,
    key: Seq<char>,
)
    ensures
        get_value(rules, memtable.insert(key, None), stack, key) is None,
{
}

/// A write to one key leaves what `get` returns for every other key.
pub proof fn lemma_get_other_key(
    rules: Option<RulesetModel>,
    memtable: Map<Seq<char>, Option<Seq<u8>>>,
    stack: Seq<Option<Seq<(Seq<char>, Option<Seq<u8>>)>>>,
    key: Seq<char>,
    written: Seq<char>,
    entry: Option<Seq<u8>>,
)
    requires
        written != key,
    ensures
        get_value(rules, memtable.insert(written, entry), stack, key) == get_value(
            rules,
            memtable,
            stack,
            key,
        ),
{
}

/// Replaying one more payload applies it to what the replay of the others
/// left.
pub proof fn lemma_replay_push(done: Seq<Seq<u8>>, payload: Seq<u8>)
    ensures
        replay(done.push(payload)) == apply_payload(replay(done), payload),
{
    assert(done.push(payload).drop_last() =~= done);
}

/// Recovery from the log alone: a log to which writes were committed, one
/// record each, replays to the in-memory table that these writes leave
/// when they are applied in their order.
pub proof fn lemma_recovery(entries: Seq<WalEntryModel>)
    requires
        forall|i: int|
            0 <= i < entries.len() ==> record_fits(#[trigger] entries[i]) && record_shaped(
                entries[i],
            ),
    ensures
        replay(payloads(frames(record_list(entries)))) == applied(entries),
    decreases entries.len(),
{
    let records = record_list(entries);
    assert forall|i: int| 0 <= i < records.len() implies (#[trigger] records[i]).len()
        <= u32::MAX by {
        lemma_record_round_trip(entries[i]);
    }
    lemma_payloads_of_frames(records);
    lemma_replay_of_records(entries);
}

/// Replaying the payloads of log entries applies the entries.
pub proof fn lemma_replay_of_records(entries: Seq<WalEntryModel>)
    requires
        forall|i: int|
            0 <= i < entries.len() ==> record_fits(#[trigger] entries[i]) && record_shaped(
                entries[i],
            ),
    ensures
        replay(record_list(entries)) == applied(entries),
    decreases entries.len(),
{
    if entries.len() > 0 {
        let rest = entries.drop_last();
        assert forall|i: int| 0 <= i < rest.len() implies record_fits(#[trigger] rest[i])
            && record_shaped(rest[i]) by {
            assert(rest[i] == entries[i]);
        }
        lemma_replay_of_records(rest);
        assert(record_list(entries).drop_last() =~= record_list(rest));
        lemma_record_round_trip(entries.last());
    }
}

/// A write that is committed to a log of whole records is replayed after
/// everything that the log held before.
pub proof fn lemma_recovery_after_commit(log: Seq<u8>, entry: WalEntryModel)
    requires
        whole_records(log),
        record_fits(entry),
        record_shaped(entry),
    ensures
        replay(payloads(log + frame(record_bytes(entry)))) == replay(payloads(log)).insert(
            entry.key,
            entry.value,
        ),
        whole_records(log + frame(record_bytes(entry))),
{
    lemma_record_round_trip(entry);
    lemma_payloads_append(log, record_bytes(entry));
    lemma_replay_push(payloads(log), record_bytes(entry));
}

/// A record whose checksum does not match is not applied, and nothing is
/// applied from a log that ends inside its first record.
pub proof fn lemma_damaged_record_not_applied(log: Seq<u8>)
    ensures
        frame_head(log) matches FrameStep::Corrupt { size } ==> replay(payloads(log)) == replay(
            payloads(log.skip(size as int)),
        ),
        frame_head(log) is Truncated ==> replay(payloads(log)) == Map::<
            Seq<char>,
            Option<Seq<u8>>,
        >::empty(),
{
}

/// Bytes that stand for no record: `n` times the byte 255.
pub open spec fn garbage(n: nat) -> Seq<u8> {
    Seq::new(n, |i: int| 255u8)
}

/// A run of at least four bytes 255 reads as a record that is cut short:
/// the length that it names is more than what follows.
pub proof fn lemma_garbage_is_cut_short(n: nat)
    requires
        4 <= n < 4294967295,
    ensures
        frame_head(garbage(n)) is Truncated,
        payloads(garbage(n)) == Seq::<Seq<u8>>::empty(),
{
    let g = garbage(n);
    if n >= 8 {
        let head = g.subrange(0, 4);
        assert(head[0] == 255 && head[1] == 255 && head[2] == 255 && head[3] == 255);
        assert(crate::store::wal::le32_value(head) == 4294967295);
    }
}

/// What stands behind whole records does not change what they yield: the
/// log of the frames of `ps` and a tail yields `ps` and then what the tail
/// yields.
pub proof fn lemma_payloads_before_tail(ps: Seq<Seq<u8>>, tail: Seq<u8>)
    requires
        forall|i: int| 0 <= i < ps.len() ==> (#[trigger] ps[i]).len() <= u32::MAX,
    ensures
        payloads(frames(ps) + tail) == ps + payloads(tail),
    decreases ps.len(),
{
    if ps.len() == 0 {
        assert(frames(ps) + tail =~= tail);
        assert(ps + payloads(tail) =~= payloads(tail));
    } else {
        let rest = ps.drop_first();
        let behind = frames(rest) + tail;
        assert(frames(ps) + tail =~= frame(ps[0]) + behind);
        crate::store::wal::lemma_frame_head_of_frame(ps[0], behind);
        lemma_payloads_before_tail(rest, tail);
        assert(seq![ps[0]] + (rest + payloads(tail)) =~= ps + payloads(tail));
    }
}

/// Recovery from a log with a damaged end: a log of committed writes,
/// one record each, behind which fifty bytes 255 stand, replays to the
/// in-memory table that these writes leave. Nothing comes from the fifty
/// bytes.
pub proof fn lemma_garbage_tail_discarded(entries: Seq<WalEntryModel>)
    requires
        forall|i: int|
            0 <= i < entries.len() ==> record_fits(#[trigger] entries[i]) && record_shaped(
                entries[i],
            ),
    ensures
        replay(payloads(frames(record_list(entries)) + garbage(50))) == applied(entries),
{
    let records = record_list(entries);
    assert forall|i: int| 0 <= i < records.len() implies (#[trigger] records[i]).len()
        <= u32::MAX by {
        crate::store::wal::lemma_record_round_trip(entries[i]);
    }
    lemma_payloads_before_tail(records, garbage(50));
    lemma_garbage_is_cut_short(50);
    assert(records + Seq::<Seq<u8>>::empty() =~= records);
    lemma_replay_of_records(entries);
}

/// A store that is opened on nothing but the table of a flush gives, for
/// every key of the in-memory table that was flushed, what the store gave
/// before.
pub proof fn lemma_flushed_table_answers(
    entries: Seq<(Seq<char>, Option<Seq<u8>>)>,
    stack: Seq<Option<Seq<(Seq<char>, Option<Seq<u8>>)>>>,
    key: Seq<char>,
)
    requires
        crate::store::memtable::keys_sorted(entries),
        entries_fit(entries),
        crate::store::memtable::map_of(entries).contains_key(key),
    ensures
        stored_value(Map::empty(), seq![parse_sst(sst_bytes(entries))], key) == stored_value(
            crate::store::memtable::map_of(entries),
            stack,
            key,
        ),
{
    crate::store::sst::lemma_parse_of_sst_bytes(entries);
    crate::store::compaction::lemma_first_entry_sorted(entries, key);
    let single = seq![Some(entries)];
    assert(single.drop_first() =~= Seq::<Option<Seq<(Seq<char>, Option<Seq<u8>>)>>>::empty());
}

/// A store that is opened on the table of a flush, as the newest table,
/// and on the tables that were there before gives for every key what the
/// store gave before the flush.
pub proof fn lemma_flush_then_reopen(
    entries: Seq<(Seq<char>, Option<Seq<u8>>)>,
    stack: Seq<Option<Seq<(Seq<char>, Option<Seq<u8>>)>>>,
    key: Seq<char>,
)
    requires
        crate::store::memtable::keys_sorted(entries),
        entries_fit(entries),
    ensures
        stored_value(Map::empty(), seq![parse_sst(sst_bytes(entries))] + stack, key)
            == stored_value(crate::store::memtable::map_of(entries), stack, key),
{
    crate::store::sst::lemma_parse_of_sst_bytes(entries);
    crate::store::compaction::lemma_first_entry_sorted(entries, key);
    let all = seq![Some(entries)] + stack;
    assert(all[0] == Some(entries));
    assert(all.drop_first() =~= stack);
}

impl<S: Storage, L: SnapshotListener> FireLocal<S, L> {
    /// Carries out a transaction. A path that is not in order is refused; a
    /// document that was read and is no longer at the version that the read
    /// saw is a conflict; either leaves everything as it is. Otherwise the
    /// writes are recorded in the write-ahead log, applied to the in-memory
    /// table, the version of every path that was written is raised by one,
    /// and the listeners are notified.
    pub fn run_transaction(&mut self, txn: &Transaction) -> (r: Result<(), FireLocalError>)
        requires
            old(self).wf(),
            txn.wf(),
        ensures
            final(self).wf(),
            final(self).dir() == old(self).dir(),
            final(self).tables() == old(self).tables(),
            final(self).index() == index_of(final(self).memtable()),
            final(self).rules() == old(self).rules(),
            (exists|i: int|
                0 <= i < txn.pending().len() && path_error((#[trigger] txn.pending()[i]).0)
                    is Some) ==> (r matches Err(e) && e.kind() == ErrorKind::Validation),
            (forall|i: int|
                0 <= i < txn.pending().len() ==> path_error((#[trigger] txn.pending()[i]).0)
                    is None) && (exists|p: Seq<char>|
                txn.reads().contains_key(p) && crate::transaction::seen_version(
                    #[trigger] txn.reads()[p],
                ) != crate::transaction::known_version(old(self).versions(), p)) ==> (r matches Err(
                e,
            ) && e.kind() == ErrorKind::Transaction),
            r matches Err(e) ==> e.kind() == ErrorKind::Validation || e.kind()
                == ErrorKind::Transaction || e.kind() == ErrorKind::Io,
            match r {
                Ok(_) => final(self).memtable() == apply_writes(
                    old(self).memtable(),
                    txn.pending(),
                ) && final(self).wal_content() == old(self).wal_content() + batch_frames(
                    txn.pending(),
                    txn.id(),
                ) && final(self).versions() == bumped(old(self).versions(), txn.pending())
                    && final(self).notified(old(self).listeners()) && (old(self).recoverable()
                    ==> final(self).recoverable()),
                Err(e) => final(self).memtable() == old(self).memtable() && final(self).versions()
                    == old(self).versions() && final(self).listeners() == old(self).listeners(),
            },
    {
        let ops = txn.writes();
        let ghost writes = txn.pending();
        let mut i: usize = 0;
        while i < ops.len()
            invariant
                i <= ops.len(),
                *self == *old(self),
                self.wf(),
                writes == write_models(ops@),
                writes == txn.pending(),
                forall|k: int| 0 <= k < i ==> path_error((#[trigger] writes[k]).0) is None,
            decreases ops.len() - i,
        {
            assert(writes[i as int].0 == ops@[i as int].target());
            match validate_path(ops[i].path().as_str()) {
                Ok(_) => {},
                Err(e) => {
                    return Err(
                        Self::refusal(
                            ErrorKind::Validation,
                            "run_transaction",
                            ops[i].path().as_str(),
                            e.message(),
                        ),
                    );
                },
            }
            i = i + 1;
        }
        match txn.validate(&self.document_versions) {
            Ok(_) => {},
            Err(e) => {
                return Err(e);
            },
        }
        proof {
            assert forall|k: int| 0 <= k < ops@.len() implies path_error(
                (#[trigger] ops@[k]).target(),
            ) is None by {
                assert(writes[k].0 == ops@[k].target());
            }
        }
        match self.write_operations("run_transaction", ops, txn.transaction_id()) {
            Ok(_) => {},
            Err(e) => {
                return Err(e);
            },
        }
        let mut i: usize = 0;
        assert(writes.take(0) =~= Seq::<(Seq<char>, Option<Seq<u8>>)>::empty());
        while i < ops.len()
            invariant
                i <= ops.len(),
                self.wf(),
                self.dir() == old(self).dir(),
                self.tables() == old(self).tables(),
                self.index() == index_of(self.memtable()),
                self.rules() == old(self).rules(),
                self.memtable() == apply_writes(old(self).memtable(), txn.pending()),
                self.wal_content() == old(self).wal_content() + batch_frames(
                    txn.pending(),
                    txn.id(),
                ),
                old(self).recoverable() ==> self.recoverable(),
                self.listeners() == old(self).listeners(),
                writes == write_models(ops@),
                writes == txn.pending(),
                self.versions() == bumped(old(self).versions(), writes.take(i as int)),
            decreases ops.len() - i,
        {
            proof {
                assert(writes.take(i + 1).drop_last() =~= writes.take(i as int));
                assert(writes.take(i + 1).last() == writes[i as int]);
                assert(writes[i as int].0 == ops@[i as int].target());
            }
            let path = ops[i].path();
            let current: u64 = match self.document_versions.get(path.as_str()) {
                Some(v) => *v,
                None => 0,
            };
            let next = if current == u64::MAX {
                current
            } else {
                current + 1
            };
            let _ = self.document_versions.insert(path.clone(), next);
            i = i + 1;
        }
        assert(writes.take(ops@.len() as int) =~= writes);
        self.notify_listeners();
        Ok(())
    }

    /// Hands the document at `key` to the remote store. `NotFound` is
    /// returned where the store gives no document for the key, and a
    /// `Network` error where the remote store refuses.
    pub fn sync_push<R: RemoteStore>(&self, sync: &SyncManager<R>, key: &str) -> (r: Result<
        (),
        FireLocalError,
    >)
        requires
            self.wf(),
        ensures
            r matches Err(e) ==> e.kind() == ErrorKind::NotFound || e.kind() == ErrorKind::Network,
            (self.memtable().contains_key(key@) || self.storage().reliable()) && self.document_at(
                key@,
            ) is None ==> (r matches Err(e) && e.kind() == ErrorKind::NotFound),
            (self.memtable().contains_key(key@) || self.storage().reliable()) && self.document_at(
                key@,
            ) is Some ==> (r matches Err(e) ==> e.kind() == ErrorKind::Network),
    {
        match self.get(key) {
            Some(bytes) => match text_from_utf8(bytes.as_slice()) {
                Some(text) => match Document::from_json(text) {
                    Ok(doc) => {
                        return match sync.push(&doc) {
                            Ok(_) => Ok(()),
                            Err(message) => Err(FireLocalError::Network(message)),
                        };
                    },
                    Err(_) => {},
                },
                None => {},
            },
            None => {},
        }
        Err(FireLocalError::NotFound("Doc not found or invalid".to_owned()))
    }

    /// Asks the remote store for the document at `key` and puts what it
    /// answers, as `put_pulled` does.
    pub fn sync_pull<R: RemoteStore>(&mut self, sync: &SyncManager<R>, key: &str) -> (r: Result<
        (),
        FireLocalError,
    >)
        requires
            old(self).wf(),
        ensures
            final(self).wf(),
            final(self).dir() == old(self).dir(),
            final(self).rules() == old(self).rules(),
            final(self).tables() == old(self).tables(),
            exists|pulled: Result<Option<Document>, String>|
                #[trigger] final(self).is_after_pull(old(self), pulled, r),
    {
        let pulled = sync.pull(key);
        let ghost answer = pulled;
        let r = self.put_pulled(pulled);
        proof {
            assert(self.is_after_pull(old(self), answer, r));
        }
        r
    }

    /// Whether the store is what `put_pulled` makes of `before` where the
    /// remote store answered `pulled` and `r` is returned.
    pub open spec fn is_after_pull(
        &self,
        before: &Self,
        pulled: Result<Option<Document>, String>,
        r: Result<(), FireLocalError>,
    ) -> bool {
        match pulled {
            Ok(Some(doc)) => match crate::model::document_text(doc@) {
                Some(text) => self.is_after_put(
                    before,
                    doc.path@,
                    vstd::utf8::encode_utf8(text),
                    r,
                ),
                None => r matches Err(e) && e.kind() == ErrorKind::Serialization && self.same_data(
                    before,
                ),
            },
            _ => r matches Err(e) && e.kind() == ErrorKind::NotFound && self.same_data(before),
        }
    }

    /// Whether the store is what a put of `value` at `key` that returned
    /// `r` makes of `before`: see `put`.
    pub open spec fn is_after_put(
        &self,
        before: &Self,
        key: Seq<char>,
        value: Seq<u8>,
        r: Result<(), FireLocalError>,
    ) -> bool {
        match put_refusal(before.rules(), key, value) {
            Some(kind) => r matches Err(e) && e.kind() == kind && self.same_data(before)
                && self.listeners() == before.listeners(),
            None => {
                match r {
                    Ok(_) => self.memtable() == before.memtable().insert(key, Some(value))
                        && self.index() == index_after_write(before.index(), key, Some(value))
                        && self.wal_content() == before.wal_content() + frame(
                        record_bytes(put_entry(key, value)),
                    ) && self.notified(before.listeners()),
                    Err(e) => e.kind() == ErrorKind::Io && self.memtable() == before.memtable()
                        && self.index() == before.index() && self.listeners()
                        == before.listeners(),
                }
            },
        }
    }

    /// Puts at `key` the document with the fields `data`, once the changes
    /// among them are worked out against the value that `get` gives for the
    /// key, at the time of the machine's clock, as
    /// `put_with_field_values_at` does.
    pub fn put_with_field_values(&mut self, key: String, data: Vec<(String, FieldEntry)>) -> (r:
        Result<(), FireLocalError>)
        requires
            old(self).wf(),
        ensures
            final(self).wf(),
            final(self).dir() == old(self).dir(),
            final(self).rules() == old(self).rules(),
            final(self).tables() == old(self).tables(),
            final(self).versions() == old(self).versions(),
            exists|existing: Option<Seq<u8>>, now: i64|
                old(self).is_read(key@, existing) && #[trigger] final(self).is_after_field_put(
                    old(self),
                    key@,
                    data@,
                    existing,
                    now,
                    r,
                ),
    {
        let existing = self.get(key.as_str());
        let now = now_millis();
        let ghost read = bytes_model(existing);
        let ghost name = key@;
        let r = self.put_with_field_values_at(key, &data, existing, now);
        proof {
            assert(old(self).is_read(name, read));
            assert(self.is_after_field_put(old(self), name, data@, read, now, r));
        }
        r
    }

    /// Whether `existing` is what `get` may give for `key`: nothing where
    /// the rules deny the read, and what the store holds for the key
    /// wherever the in-memory table decides or the storage reads reliably.
    pub open spec fn is_read(&self, key: Seq<char>, existing: Option<Seq<u8>>) -> bool {
        &&& !rules_allow(self.rules(), key, "read"@) ==> existing is None
        &&& self.memtable().contains_key(key) || self.storage().reliable() ==> existing
            == self.value_at(key)
    }

    /// Whether the store is what `put_with_field_values_at` makes of
    /// `before` for the fields `data`, the value `existing` that was read
    /// and the time `now`, where `r` is returned.
    pub open spec fn is_after_field_put(
        &self,
        before: &Self,
        key: Seq<char>,
        data: Seq<(String, FieldEntry)>,
        existing: Option<Seq<u8>>,
        now: i64,
        r: Result<(), FireLocalError>,
    ) -> bool {
        match json_object_text(processed(data, object_of(existing), now)) {
            Some(text) => self.is_after_put(before, key, vstd::utf8::encode_utf8(text), r),
            None => r matches Err(e) && e.kind() == ErrorKind::Serialization && self.same_data(
                before,
            ) && self.listeners() == before.listeners(),
        }
    }

    /// Puts at `key` the document with the fields `data`, once the changes
    /// among them are worked out against `existing`, the value that was read
    /// for the key, at the time `now`. The changes see the fields of
    /// `existing` where it is the text of a JSON object, and no fields
    /// otherwise. What comes out is put as the JSON text of an object;
    /// where a field is not JSON, `Serialization` is returned and nothing
    /// changes.
    pub fn put_with_field_values_at(
        &mut self,
        key: String,
        data: &Vec<(String, FieldEntry)>,
        existing: Option<Vec<u8>>,
        now: i64,
    ) -> (r: Result<(), FireLocalError>)
        requires
            old(self).wf(),
        ensures
            final(self).wf(),
            final(self).dir() == old(self).dir(),
            final(self).rules() == old(self).rules(),
            final(self).tables() == old(self).tables(),
            final(self).versions() == old(self).versions(),
            final(self).is_after_field_put(
                old(self),
                key@,
                data@,
                bytes_model(existing),
                now,
                r,
            ),
    {
        let members: Option<Vec<(String, String)>> = match &existing {
            Some(bytes) => match text_from_utf8(bytes.as_slice()) {
                Some(text) => parse_json_object(text),
                None => None,
            },
            None => None,
        };
        let fields = process_field_values_at(data, members.as_ref(), now);
        match render_json_object(&fields) {
            Some(text) => {
                let bytes = vstd::string::StrSliceExecFns::as_bytes_vec(text.as_str());
                self.put(key, bytes)
            },
            None => Err(FireLocalError::Serialization("a field is not JSON".to_owned())),
        }
    }

    /// Puts what the remote store returned for a pull: a document is put,
    /// as its JSON text, at its own path; `NotFound` is returned, and
    /// nothing changes, where the remote store had no document or could not
    /// be asked, and `Serialization` where the document has a field whose
    /// value is not JSON.
    pub fn put_pulled(&mut self, pulled: Result<Option<Document>, String>) -> (r: Result<
        (),
        FireLocalError,
    >)
        requires
            old(self).wf(),
        ensures
            final(self).wf(),
            final(self).dir() == old(self).dir(),
            final(self).rules() == old(self).rules(),
            final(self).tables() == old(self).tables(),
            final(self).is_after_pull(old(self), pulled, r),
    {
        match pulled {
            Ok(Some(doc)) => {
                let text = match doc.to_json() {
                    Ok(text) => text,
                    Err(_) => {
                        return Err(
                            FireLocalError::Serialization("document is not JSON".to_owned()),
                        );
                    },
                };
                let bytes = vstd::string::StrSliceExecFns::as_bytes_vec(text.as_str());
                self.put(doc.path, bytes)
            },
            _ => Err(FireLocalError::NotFound("Remote doc not found".to_owned())),
        }
    }
}

/// A result of a query stays one as long as the store's data stays.
pub proof fn lemma_snapshot_same_data<S: Storage, L: SnapshotListener>(
    a: &FireLocal<S, L>,
    b: &FireLocal<S, L>,
    query: Option<EqualQuery>,
    docs: Seq<DocumentModel>,
)
    requires
        a.same_data(b),
        b.is_snapshot(query, docs),
    ensures
        a.is_snapshot(query, docs),
{
    match query {
        Some(q) => {
            let paths = choose|paths: Seq<Seq<char>>|
                #[trigger] answers(b.index(), q, paths) && docs == b.materialize(paths);
            lemma_materialize_same_data(a, b, paths);
            assert(answers(a.index(), q, paths));
        },
        None => {},
    }
}

/// What the store gives for a list of paths depends on its data only.
pub proof fn lemma_materialize_same_data<S: Storage, L: SnapshotListener>(
    a: &FireLocal<S, L>,
    b: &FireLocal<S, L>,
    paths: Seq<Seq<char>>,
)
    requires
        a.same_data(b),
    ensures
        a.materialize(paths) == b.materialize(paths),
    decreases paths.len(),
{
    if paths.len() > 0 {
        assert(a.stack() =~= b.stack());
        lemma_materialize_same_data(a, b, paths.drop_last());
    }
}

/// The lock file of the write-ahead log is not the log.
pub proof fn lemma_lock_path_differs(dir: Seq<char>)
    ensures
        lock_path_of(joined(dir, "wal.log"@)) != joined(dir, "wal.log"@),
{
    reveal_strlit("wal.log");
    reveal_strlit("lock");
    let p = joined(dir, "wal.log"@);
    let l = lock_path_of(p);
    crate::store::io::lemma_last_index_of(p, '.');
    if l == p {
        match crate::store::io::extension_dot(p) {
            Some(dot) => {
                assert(l.len() == dot + 1 + 4);
                assert(l[dot + 1] == 'l');
                assert(p[p.len() - 1] == 'g');
                assert(l[l.len() - 1] == 'k');
            },
            None => {
                assert(l.len() == p.len() + 5);
            },
        }
    }
}

/// Replays the records of a log into an in-memory table and an index.
fn replay_log(iter: WalIterator, memtable: Memtable, index: BasicIndexProvider) -> (r: (
    Memtable,
    BasicIndexProvider,
))
    requires
        iter.wf(),
        memtable.wf(),
        index.wf(),
        memtable@ == Map::<Seq<char>, Option<Seq<u8>>>::empty(),
        index@ == Set::<Posting>::empty(),
    ensures
        r.0.wf(),
        r.1.wf(),
        r.0@ == replay(payloads(iter.remaining())),
        r.1@ == index_of(r.0@),
{
    let mut iter = iter;
    let mut memtable = memtable;
    let mut index = index;
    let ghost log = iter.remaining();
    let ghost mut done: Seq<Seq<u8>> = Seq::empty();
    proof {
        assert(done + payloads(iter.remaining()) =~= payloads(log));
        assert(index_of(memtable@) =~= Set::<Posting>::empty());
    }
    loop
        invariant
            iter.wf(),
            memtable.wf(),
            index.wf(),
            payloads(log) == done + payloads(iter.remaining()),
            memtable@ == replay(done),
            index@ == index_of(memtable@),
        ensures
            memtable.wf(),
            index.wf(),
            memtable@ == replay(payloads(log)),
            index@ == index_of(memtable@),
        decreases iter.remaining().len(),
    {
        let ghost rest = iter.remaining();
        match iter.next() {
            None => {
                proof {
                    assert(payloads(rest) =~= Seq::<Seq<u8>>::empty());
                    assert(done + Seq::<Seq<u8>>::empty() =~= done);
                }
                break ;
            },
            Some(Err(_)) => {
                proof {
                    match frame_head(rest) {
                        FrameStep::Truncated => {
                            assert(payloads(rest) =~= Seq::<Seq<u8>>::empty());
                            assert(payloads(iter.remaining()) =~= Seq::<Seq<u8>>::empty());
                        },
                        _ => {},
                    }
                }
                if iter.is_done() {
                    proof {
                        assert(payloads(iter.remaining()) =~= Seq::<Seq<u8>>::empty());
                        assert(done + Seq::<Seq<u8>>::empty() =~= done);
                    }
                    break ;
                }
            },
            Some(Ok(payload)) => {
                proof {
                    assert(done + (seq![payload@] + payloads(iter.remaining())) =~= done.push(
                        payload@,
                    ) + payloads(iter.remaining()));
                    assert(done.push(payload@).drop_last() =~= done);
                    done = done.push(payload@);
                }
                match decode_record_bytes(payload.as_slice()) {
                    Some(entry) => match entry.value {
                        Some(value) => {
                            proof {
                                lemma_index_of_insert(memtable@, entry.key@, Some(value@));
                            }
                            index_write(&mut index, entry.key.as_str(), Some(value.as_slice()));
                            memtable.put(entry.key, value);
                        },
                        None => {
                            proof {
                                lemma_index_of_insert(memtable@, entry.key@, None);
                            }
                            index_write(&mut index, entry.key.as_str(), None);
                            memtable.delete(entry.key);
                        },
                    },
                    None => {},
                }
            },
        }
    }
    (memtable, index)
}

/// A value that may be absent, as a plain value.
pub open spec fn slice_model(value: Option<&[u8]>) -> Option<Seq<u8>> {
    match value {
        Some(v) => Some(v@),
        None => None,
    }
}

/// Brings a write at `key` into the index: the entries of the key are taken
/// out, and where the value is the JSON text of a document, the document's
/// entries are put in at the key.
fn index_write(index: &mut BasicIndexProvider, key: &str, value: Option<&[u8]>)
    requires
        old(index).wf(),
    ensures
        final(index).wf(),
        final(index)@ == index_after_write(old(index)@, key@, slice_model(value)),
{
    match value {
        Some(bytes) => match text_from_utf8(bytes) {
            Some(text) => match Document::from_json(text) {
                Ok(doc) => {
                    index.on_put(key, &doc);
                    return ;
                },
                Err(_) => {},
            },
            None => {},
        },
        None => {},
    }
    index.on_delete(key);
    assert(final(index)@ =~= index_after_write(old(index)@, key@, slice_model(value)));
}

} // verus!
