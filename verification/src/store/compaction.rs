//! Compaction: the sorted tables of a store are merged into one, and the
//! tombstones are dropped.

use crate::error::{ErrorKind, FireLocalError};
use crate::store::io::{
    extension_of, has_extension, join_path, joined, read_to_end, FileModel, IoErrorKind, Storage,
};
use crate::store::memtable::{
    has_key, keys_sorted, lemma_map_of_at, lemma_sorted_keys_distinct, map_of, Entry, Memtable,
};
use crate::store::sst::{
    entry_models, first_entry, lemma_parse_of_sst_bytes, lemma_sst_bytes_len, parse_sst_bytes,
    sst_bytes, table_entries, SstBuilder,
};
use crate::text::str_lt;
use vstd::prelude::*;

verus! {

/// What a stack of tables, the newest first, says of `key`: the first table
/// that holds the key decides, and a table that cannot be read (`None`) is
/// passed over. `Some(None)` is a tombstone, `None` a key that no table
/// holds.
pub open spec fn stack_lookup(
    stack: Seq<Option<Seq<(Seq<char>, Option<Seq<u8>>)>>>,
    key: Seq<char>,
) -> Option<Option<Seq<u8>>>
    decreases stack.len(),
{
    if stack.len() == 0 {
        None
    } else {
        match stack[0] {
            Some(es) => match first_entry(es, key) {
                Some(e) => Some(e),
                None => stack_lookup(stack.drop_first(), key),
            },
            None => stack_lookup(stack.drop_first(), key),
        }
    }
}

/// The value that a stack of tables gives for `key`, if it gives one.
pub open spec fn stack_value(
    stack: Seq<Option<Seq<(Seq<char>, Option<Seq<u8>>)>>>,
    key: Seq<char>,
) -> Option<Seq<u8>> {
    match stack_lookup(stack, key) {
        Some(Some(v)) => Some(v),
        _ => None,
    }
}

/// The map that a stack of tables stands for: for each key, what the first
/// table that holds it says.
pub open spec fn merged(stack: Seq<Option<Seq<(Seq<char>, Option<Seq<u8>>)>>>) -> Map<
    Seq<char>,
    Option<Seq<u8>>,
> {
    Map::new(
        |k: Seq<char>| stack_lookup(stack, k) is Some,
        |k: Seq<char>| stack_lookup(stack, k)->0,
    )
}

/// A map without its tombstones.
pub open spec fn live(m: Map<Seq<char>, Option<Seq<u8>>>) -> Map<Seq<char>, Option<Seq<u8>>> {
    Map::new(|k: Seq<char>| m.contains_key(k) && m[k] is Some, |k: Seq<char>| m[k])
}

/// `base` with the entries of `part` laid over it, the first entry for a
/// key in `part` deciding.
pub open spec fn overlay(
    base: Map<Seq<char>, Option<Seq<u8>>>,
    part: Seq<(Seq<char>, Option<Seq<u8>>)>,
) -> Map<Seq<char>, Option<Seq<u8>>> {
    Map::new(
        |k: Seq<char>| first_entry(part, k) is Some || base.contains_key(k),
        |k: Seq<char>|
            match first_entry(part, k) {
                Some(e) => e,
                None => base[k],
            },
    )
}

/// In a sorted list the first entry for a key is the map's entry for it.
pub proof fn lemma_first_entry_sorted(es: Seq<(Seq<char>, Option<Seq<u8>>)>, k: Seq<char>)
    requires
        keys_sorted(es),
    ensures
        first_entry(es, k) == if map_of(es).contains_key(k) {
            Some(map_of(es)[k])
        } else {
            None
        },
    decreases es.len(),
{
    if es.len() == 0 {
    } else if es[0].0 == k {
        lemma_map_of_at(es, 0);
    } else {
        let rest = es.drop_first();
        assert(keys_sorted(rest)) by {
            assert forall|i: int, j: int| 0 <= i < j < rest.len() implies str_lt(
                #[trigger] rest[i].0,
                #[trigger] rest[j].0,
            ) by {
                assert(rest[i] == es[i + 1] && rest[j] == es[j + 1]);
            }
        }
        lemma_first_entry_sorted(rest, k);
        if map_of(rest).contains_key(k) {
            let i = choose|i: int| 0 <= i < rest.len() && (#[trigger] rest[i]).0 == k;
            assert(es[i + 1].0 == k);
            lemma_map_of_at(es, i + 1);
            lemma_map_of_at(rest, i);
        } else if map_of(es).contains_key(k) {
            let i = choose|i: int| 0 <= i < es.len() && (#[trigger] es[i]).0 == k;
            assert(rest[i - 1].0 == k);
        }
    }
}

/// Laying a table over the map of the older tables gives the map of the
/// stack with that table on top.
pub proof fn lemma_merged_push(
    stack: Seq<Option<Seq<(Seq<char>, Option<Seq<u8>>)>>>,
    top: Option<Seq<(Seq<char>, Option<Seq<u8>>)>>,
)
    ensures
        merged(seq![top] + stack) == match top {
            Some(es) => overlay(merged(stack), es),
            None => merged(stack),
        },
{
    let all = seq![top] + stack;
    assert(all.drop_first() =~= stack);
    assert(all[0] == top);
    match top {
        Some(es) => {
            assert(merged(all) =~= overlay(merged(stack), es));
        },
        None => {
            assert(merged(all) =~= merged(stack));
        },
    }
}

/// Laying an entry over a map, before the entries that were laid over it
/// already, is an insert.
pub proof fn lemma_overlay_prepend(
    base: Map<Seq<char>, Option<Seq<u8>>>,
    first: (Seq<char>, Option<Seq<u8>>),
    rest: Seq<(Seq<char>, Option<Seq<u8>>)>,
)
    ensures
        overlay(base, seq![first] + rest) == overlay(base, rest).insert(first.0, first.1),
        overlay(base, Seq::empty()) == base,
{
    let all = seq![first] + rest;
    assert(all.drop_first() =~= rest);
    assert(all[0] == first);
    assert(overlay(base, all) =~= overlay(base, rest).insert(first.0, first.1));
    assert(overlay(base, Seq::empty()) =~= base);
}

/// Compaction keeps every value: what a single table that holds the live
/// entries of a stack gives for a key is what the stack gave.
pub proof fn lemma_compaction_preserves_values(
    stack: Seq<Option<Seq<(Seq<char>, Option<Seq<u8>>)>>>,
    out: Seq<(Seq<char>, Option<Seq<u8>>)>,
    key: Seq<char>,
)
    requires
        keys_sorted(out),
        map_of(out) == live(merged(stack)),
    ensures
        stack_value(seq![Some(out)], key) == stack_value(stack, key),
{
    lemma_first_entry_sorted(out, key);
    let single = seq![Some(out)];
    assert(single.drop_first() =~= Seq::<Option<Seq<(Seq<char>, Option<Seq<u8>>)>>>::empty());
    assert(stack_lookup(single.drop_first(), key) is None);
}

/// No tombstone survives compaction: a table that holds the live entries
/// of a stack holds values only.
pub proof fn lemma_compaction_drops_tombstones(
    stack: Seq<Option<Seq<(Seq<char>, Option<Seq<u8>>)>>>,
    out: Seq<(Seq<char>, Option<Seq<u8>>)>,
    i: int,
)
    requires
        keys_sorted(out),
        map_of(out) == live(merged(stack)),
        0 <= i < out.len(),
    ensures
        out[i].1 is Some,
{
    lemma_map_of_at(out, i);
}

/// Two sorted lists that stand for the same map are the same list.
pub proof fn lemma_sorted_lists_equal(
    a: Seq<(Seq<char>, Option<Seq<u8>>)>,
    b: Seq<(Seq<char>, Option<Seq<u8>>)>,
)
    requires
        keys_sorted(a),
        keys_sorted(b),
        map_of(a) == map_of(b),
    ensures
        a == b,
    decreases a.len(),
{
    crate::store::memtable::lemma_map_of_len(a);
    crate::store::memtable::lemma_map_of_len(b);
    if a.len() > 0 {
        let la = a.last();
        let lb = b.last();
        lemma_map_of_at(a, a.len() - 1);
        lemma_map_of_at(b, b.len() - 1);
        // the last key of each list is the greatest key of the map
        let ia = choose|i: int| 0 <= i < b.len() && (#[trigger] b[i]).0 == la.0;
        let ib = choose|i: int| 0 <= i < a.len() && (#[trigger] a[i]).0 == lb.0;
        crate::store::memtable::lemma_str_lt_irreflexive(la.0);
        crate::store::memtable::lemma_str_lt_irreflexive(lb.0);
        if ia < b.len() - 1 {
            assert(str_lt(b[ia].0, b[b.len() - 1].0));
            if ib < a.len() - 1 {
                assert(str_lt(a[ib].0, a[a.len() - 1].0));
                crate::store::memtable::lemma_str_lt_transitive(la.0, lb.0, la.0);
            }
        }
        assert(la.0 == lb.0);
        lemma_map_of_at(b, ia);
        let a0 = a.drop_last();
        let b0 = b.drop_last();
        lemma_sorted_prefix(a);
        lemma_sorted_prefix(b);
        assert(map_of(a0) =~= map_of(a).remove(la.0));
        assert(map_of(b0) =~= map_of(b).remove(lb.0));
        lemma_sorted_lists_equal(a0, b0);
        assert(a =~= a0.push(la));
        assert(b =~= b0.push(lb));
    } else {
        assert(a =~= b);
    }
}

/// A sorted list without its last item is sorted and stands for the map
/// without the last key.
pub proof fn lemma_sorted_prefix(a: Seq<(Seq<char>, Option<Seq<u8>>)>)
    requires
        keys_sorted(a),
        a.len() > 0,
    ensures
        keys_sorted(a.drop_last()),
        map_of(a.drop_last()) == map_of(a).remove(a.last().0),
{
    let a0 = a.drop_last();
    assert forall|i: int, j: int| 0 <= i < j < a0.len() implies str_lt(
        #[trigger] a0[i].0,
        #[trigger] a0[j].0,
    ) by {
        assert(a0[i] == a[i] && a0[j] == a[j]);
    }
    assert forall|k: Seq<char>| map_of(a0).contains_key(k) <==> map_of(a).remove(
        a.last().0,
    ).contains_key(k) by {
        if has_key(a0, k) {
            let i = choose|i: int| 0 <= i < a0.len() && (#[trigger] a0[i]).0 == k;
            assert(a[i].0 == k);
            lemma_sorted_keys_distinct(a, i, i);
            if k == a.last().0 {
                lemma_sorted_keys_distinct(a, i, a.len() - 1);
            }
        }
        if has_key(a, k) && k != a.last().0 {
            let i = choose|i: int| 0 <= i < a.len() && (#[trigger] a[i]).0 == k;
            assert(a0[i].0 == k);
        }
    }
    assert forall|k: Seq<char>| map_of(a0).contains_key(k) implies #[trigger] map_of(a0)[k]
        == map_of(a).remove(a.last().0)[k] by {
        let i = choose|i: int| 0 <= i < a0.len() && (#[trigger] a0[i]).0 == k;
        lemma_map_of_at(a0, i);
        assert(a[i] == a0[i]);
        lemma_map_of_at(a, i);
    }
    assert(map_of(a0) =~= map_of(a).remove(a.last().0));
}

/// Compaction is idempotent: compacting the one table that a compaction
/// left gives a table with the same content.
pub proof fn lemma_compaction_idempotent(
    out: Seq<(Seq<char>, Option<Seq<u8>>)>,
    again: Seq<(Seq<char>, Option<Seq<u8>>)>,
)
    requires
        keys_sorted(out),
        forall|i: int| 0 <= i < out.len() ==> (#[trigger] out[i]).1 is Some,
        keys_sorted(again),
        map_of(again) == live(merged(seq![Some(out)])),
    ensures
        again == out,
        sst_bytes(again) == sst_bytes(out),
{
    let single = seq![Some(out)];
    assert(single.drop_first() =~= Seq::<Option<Seq<(Seq<char>, Option<Seq<u8>>)>>>::empty());
    assert forall|k: Seq<char>| #[trigger] stack_lookup(single, k) == first_entry(out, k) by {
        assert(stack_lookup(single.drop_first(), k) is None);
    }
    assert forall|k: Seq<char>| map_of(out).contains_key(k) <==> live(merged(single)).contains_key(
        k,
    ) by {
        lemma_first_entry_sorted(out, k);
        if map_of(out).contains_key(k) {
            let i = choose|i: int| 0 <= i < out.len() && (#[trigger] out[i]).0 == k;
            lemma_map_of_at(out, i);
        }
    }
    assert forall|k: Seq<char>| map_of(out).contains_key(k) implies #[trigger] map_of(out)[k]
        == live(merged(single))[k] by {
        lemma_first_entry_sorted(out, k);
    }
    assert(map_of(out) =~= live(merged(single)));
    lemma_sorted_lists_equal(again, out);
}

/// A listing as plain values: each table's path and the time of its last
/// change.
pub open spec fn listing_models(listing: Seq<(String, u64)>) -> Seq<(Seq<char>, u64)> {
    Seq::new(listing.len(), |i: int| (listing[i].0@, listing[i].1))
}

/// Whether a file in `dir` is a sorted table: its extension is `sst`.
pub open spec fn is_table<S: Storage>(storage: &S, dir: Seq<char>, path: Seq<char>) -> bool {
    storage.files().contains_key(path) && S::lists(dir, path) && extension_of(path) == Some("sst"@)
}

/// Whether `listing` lists the sorted tables of `dir`: each of them once,
/// with the time of its last change, the newest first.
pub open spec fn is_table_listing<S: Storage>(
    storage: &S,
    dir: Seq<char>,
    listing: Seq<(Seq<char>, u64)>,
) -> bool {
    &&& forall|i: int, j: int|
        0 <= i < j < listing.len() ==> (#[trigger] listing[i]).0 != (#[trigger] listing[j]).0
    &&& forall|i: int, j: int|
        0 <= i < j < listing.len() ==> (#[trigger] listing[i]).1 >= (#[trigger] listing[j]).1
    &&& forall|i: int|
        0 <= i < listing.len() ==> is_table(storage, dir, (#[trigger] listing[i]).0)
            && storage.files()[listing[i].0].mtime == listing[i].1
    &&& forall|p: Seq<char>|
        is_table(storage, dir, p) ==> exists|i: int|
            0 <= i < listing.len() && (#[trigger] listing[i]).0 == p
}

/// What each table of a listing holds: its records, or `None` where it is
/// not a well-formed table.
pub open spec fn stack_of(files: Map<Seq<char>, FileModel>, listing: Seq<(Seq<char>, u64)>) -> Seq<
    Option<Seq<(Seq<char>, Option<Seq<u8>>)>>,
> {
    Seq::new(listing.len(), |i: int| table_entries(files, listing[i].0))
}

/// Lists the sorted tables of `dir`, the newest first: what the storage
/// lists for the directory, as `newest_tables` orders it. An error is the
/// storage's.
pub fn discover_tables<S: Storage>(storage: &S, dir: &str) -> (r: Result<
    Vec<(String, u64)>,
    IoErrorKind,
>)
    requires
        storage.wf(),
    ensures
        r matches Ok(listing) ==> is_table_listing(storage, dir@, listing_models(listing@)),
{
    let entries = match storage.read_dir(dir) {
        Ok(entries) => entries,
        Err(e) => {
            return Err(e);
        },
    };
    let sorted = newest_tables(&entries);
    let r: Result<Vec<(String, u64)>, IoErrorKind> = Ok(sorted);
    proof {
        let listing = listing_models(r->Ok_0@);
        let listed = listing_models(entries@);
        let origin = choose|origin: Seq<int>| selects_tables(listed, listing, origin);
        assert forall|a: int, b: int| 0 <= a < b < listing.len() implies (#[trigger] listing[a]).0
            != (#[trigger] listing[b]).0 by {
            assert(origin[a] != origin[b]);
            assert(listing[a] == listed[origin[a]] && listing[b] == listed[origin[b]]);
            if origin[a] < origin[b] {
                assert(entries@[origin[a]].0@ != entries@[origin[b]].0@);
            } else {
                assert(entries@[origin[b]].0@ != entries@[origin[a]].0@);
            }
        }
        assert forall|j: int| 0 <= j < listing.len() implies is_table(
            storage,
            dir@,
            (#[trigger] listing[j]).0,
        ) && storage.files()[listing[j].0].mtime == listing[j].1 by {
            let k = origin[j];
            assert(listing[j] == listed[k]);
            assert(storage.files().contains_key(entries@[k].0@));
        }
        assert forall|p: Seq<char>| is_table(storage, dir@, p) implies exists|j: int|
            0 <= j < listing.len() && (#[trigger] listing[j]).0 == p by {
            let k = choose|k: int| 0 <= k < entries@.len() && (#[trigger] entries@[k]).0@ == p;
            assert(listed[k].0 == p);
            let j = choose|j: int| 0 <= j < origin.len() && #[trigger] origin[j] == k;
            assert(listing[j] == listed[origin[j]]);
        }
    }
    r
}

/// Whether `listing` holds the entries of `entries` whose extension is
/// `sst`, each once, as `origin` says where each of them stands in
/// `entries`, the one that changed last first.
pub open spec fn selects_tables(
    entries: Seq<(Seq<char>, u64)>,
    listing: Seq<(Seq<char>, u64)>,
    origin: Seq<int>,
) -> bool {
    &&& origin.len() == listing.len()
    &&& forall|j: int|
        0 <= j < origin.len() ==> 0 <= #[trigger] origin[j] < entries.len() && listing[j]
            == entries[origin[j]] && extension_of(listing[j].0) == Some("sst"@)
    &&& forall|a: int, b: int| 0 <= a < b < origin.len() ==> origin[a] != origin[b]
    &&& forall|a: int, b: int|
        0 <= a < b < listing.len() ==> (#[trigger] listing[a]).1 >= (#[trigger] listing[b]).1
    &&& forall|k: int|
        0 <= k < entries.len() && extension_of((#[trigger] entries[k]).0) == Some("sst"@)
            ==> exists|j: int| 0 <= j < origin.len() && #[trigger] origin[j] == k
}

/// Whether `listing` holds the sorted tables among `entries`, each once,
/// the newest first.
pub open spec fn is_table_selection(
    entries: Seq<(Seq<char>, u64)>,
    listing: Seq<(Seq<char>, u64)>,
) -> bool {
    exists|origin: Seq<int>| selects_tables(entries, listing, origin)
}

/// The entries of a directory that are sorted tables, which is those with
/// the extension `sst`, each with the time of its last change, the one that
/// changed last first.
pub fn newest_tables(entries: &Vec<(String, u64)>) -> (r: Vec<(String, u64)>)
    ensures
        is_table_selection(listing_models(entries@), listing_models(r@)),
{
    let mut sorted: Vec<(String, u64)> = Vec::new();
    let ghost mut origin: Seq<int> = Seq::empty();
    let mut i: usize = 0;
    while i < entries.len()
        invariant
            i <= entries.len(),
            origin.len() == sorted@.len(),
            forall|j: int|
                0 <= j < origin.len() ==> 0 <= #[trigger] origin[j] < i && sorted@[j].0@
                    == entries@[origin[j]].0@ && sorted@[j].1 == entries@[origin[j]].1
                    && extension_of(entries@[origin[j]].0@) == Some("sst"@),
            forall|a: int, b: int| 0 <= a < b < origin.len() ==> origin[a] != origin[b],
            forall|a: int, b: int|
                0 <= a < b < sorted@.len() ==> (#[trigger] sorted@[a]).1 >= (
                #[trigger] sorted@[b]).1,
            forall|k: int|
                0 <= k < i && extension_of(entries@[k].0@) == Some("sst"@) ==> exists|j: int|
                    0 <= j < origin.len() && #[trigger] origin[j] == k,
        decreases entries.len() - i,
    {
        if has_extension(entries[i].0.as_str(), "sst") {
            let mtime = entries[i].1;
            let mut pos: usize = 0;
            while pos < sorted.len() && sorted[pos].1 >= mtime
                invariant
                    pos <= sorted.len(),
                    forall|j: int| 0 <= j < pos ==> (#[trigger] sorted@[j]).1 >= mtime,
                decreases sorted.len() - pos,
            {
                pos = pos + 1;
            }
            let ghost before = sorted@;
            let ghost grown = origin.insert(pos as int, i as int);
            sorted.insert(pos, (entries[i].0.clone(), mtime));
            proof {
                assert forall|j: int| 0 <= j < grown.len() implies 0 <= #[trigger] grown[j] < i + 1
                    && sorted@[j].0@ == entries@[grown[j]].0@ && sorted@[j].1
                    == entries@[grown[j]].1 && extension_of(entries@[grown[j]].0@) == Some(
                    "sst"@,
                ) by {
                    if j < pos {
                        assert(grown[j] == origin[j]);
                    } else if j > pos {
                        assert(grown[j] == origin[j - 1]);
                    }
                }
                assert forall|a: int, b: int| 0 <= a < b < grown.len() implies grown[a]
                    != grown[b] by {
                    let a0 = if a < pos { a } else { a - 1 };
                    let b0 = if b < pos { b } else { b - 1 };
                    if a != pos && b != pos {
                        assert(grown[a] == origin[a0] && grown[b] == origin[b0]);
                    } else if a == pos {
                        assert(grown[b] == origin[b0]);
                    } else {
                        assert(grown[a] == origin[a0]);
                    }
                }
                assert forall|a: int, b: int| 0 <= a < b < sorted@.len() implies (
                #[trigger] sorted@[a]).1 >= (#[trigger] sorted@[b]).1 by {
                    let a0 = if a < pos { a } else { a - 1 };
                    let b0 = if b < pos { b } else { b - 1 };
                    if a != pos && b != pos {
                        assert(sorted@[a] == before[a0] && sorted@[b] == before[b0]);
                    } else if a == pos {
                        assert(sorted@[b] == before[b0]);
                    } else {
                        assert(sorted@[a] == before[a0]);
                    }
                }
                assert forall|k: int|
                    0 <= k < i + 1 && extension_of(entries@[k].0@) == Some(
                        "sst"@,
                    ) implies exists|j: int| 0 <= j < grown.len() && #[trigger] grown[j] == k by {
                    if k == i {
                        assert(grown[pos as int] == k);
                    } else {
                        let j = choose|j: int| 0 <= j < origin.len() && #[trigger] origin[j] == k;
                        if j < pos {
                            assert(grown[j] == k);
                        } else {
                            assert(grown[j + 1] == k);
                        }
                    }
                }
                origin = grown;
            }
        }
        i = i + 1;
    }
    proof {
        assert(selects_tables(listing_models(entries@), listing_models(sorted@), origin));
    }
    sorted
}

/// What a compaction did.
#[derive(Debug, Default, Clone)]
pub struct CompactionStats {
    pub files_before: usize,
    pub files_after: usize,
    pub entries_before: usize,
    pub entries_after: usize,
    pub tombstones_removed: usize,
    pub size_before: u64,
    pub size_after: u64,
}

impl CompactionStats {
    /// The bytes that the compaction saved: 0 where the tables grew.
    pub fn size_reduction(&self) -> (r: u64)
        ensures
            r == if self.size_before >= self.size_after {
                (self.size_before - self.size_after) as u64
            } else {
                0u64
            },
    {
        if self.size_before >= self.size_after {
            self.size_before - self.size_after
        } else {
            0
        }
    }
}

/// The tables of `tables` as plain values.
pub open spec fn stack_models(tables: Seq<Option<Vec<(String, Entry)>>>) -> Seq<
    Option<Seq<(Seq<char>, Option<Seq<u8>>)>>,
> {
    Seq::new(
        tables.len(),
        |i: int|
            match tables[i] {
                Some(es) => Some(entry_models(es@)),
                None => None,
            },
    )
}

/// The words that stand for a kind of storage failure in an error's
/// message.
pub open spec fn io_kind_label(kind: IoErrorKind) -> Seq<char> {
    match kind {
        IoErrorKind::NotFound => "not found"@,
        IoErrorKind::PermissionDenied => "permission denied"@,
        IoErrorKind::InvalidData => "invalid data"@,
        IoErrorKind::InvalidInput => "invalid input"@,
        IoErrorKind::WouldBlock => "would block"@,
        IoErrorKind::UnexpectedEof => "unexpected end of file"@,
        IoErrorKind::WriteZero => "failed to write whole buffer"@,
        IoErrorKind::ConnectionAborted => "connection aborted"@,
        IoErrorKind::Other => "other error"@,
    }
}

/// The error for a storage failure during `operation`: an `Io` error whose
/// message is the operation, a colon and the words for the kind of failure.
pub fn io_error(operation: &str, kind: IoErrorKind) -> (r: FireLocalError)
    ensures
        r.kind() == ErrorKind::Io,
        r.message() == operation@ + ": "@ + io_kind_label(kind),
{
    let label = match kind {
        IoErrorKind::NotFound => "not found",
        IoErrorKind::PermissionDenied => "permission denied",
        IoErrorKind::InvalidData => "invalid data",
        IoErrorKind::InvalidInput => "invalid input",
        IoErrorKind::WouldBlock => "would block",
        IoErrorKind::UnexpectedEof => "unexpected end of file",
        IoErrorKind::WriteZero => "failed to write whole buffer",
        IoErrorKind::ConnectionAborted => "connection aborted",
        IoErrorKind::Other => "other error",
    };
    let mut out = crate::text::chars_of(operation);
    crate::error::push_text(&mut out, ": ");
    crate::error::push_text(&mut out, label);
    FireLocalError::Io(crate::text::string_of(out.as_slice()))
}

/// Merges sorted tables into one and drops the tombstones.
pub struct Compactor {
    data_dir: String,
}

impl Compactor {
    /// The directory whose tables are compacted.
    pub closed spec fn dir(&self) -> Seq<char> {
        self.data_dir@
    }

    /// The path of the table that a compaction writes.
    pub open spec fn output_path(&self) -> Seq<char> {
        joined(self.dir(), "compacted.sst"@)
    }

    /// A compactor for the tables in `data_dir`.
    pub fn new(data_dir: String) -> (r: Self)
        ensures
            r.dir() == data_dir@,
    {
        Compactor { data_dir }
    }

    /// Merges tables, given the newest first: for every key the newest
    /// table that holds it decides, and a table that could not be read is
    /// passed over.
    pub fn merge_sst_files(tables: &Vec<Option<Vec<(String, Entry)>>>) -> (r: Memtable)
        ensures
            r.wf(),
            r@ == merged(stack_models(tables@)),
    {
        let ghost stack = stack_models(tables@);
        let mut acc = Memtable::new();
        let mut i: usize = tables.len();
        assert(merged(stack.skip(i as int)) =~= acc@);
        while i > 0
            invariant
                i <= tables.len(),
                stack == stack_models(tables@),
                acc.wf(),
                acc@ == merged(stack.skip(i as int)),
            decreases i,
        {
            i = i - 1;
            proof {
                assert(stack.skip(i as int) =~= seq![stack[i as int]] + stack.skip(i + 1));
                lemma_merged_push(stack.skip(i + 1), stack[i as int]);
            }
            match &tables[i] {
                Some(es) => {
                    let ghost base = acc@;
                    let ghost part = entry_models(es@);
                    let mut j: usize = es.len();
                    proof {
                        lemma_overlay_prepend(base, arbitrary(), Seq::empty());
                        assert(part.skip(j as int) =~= Seq::<
                            (Seq<char>, Option<Seq<u8>>),
                        >::empty());
                    }
                    while j > 0
                        invariant
                            j <= es.len(),
                            part == entry_models(es@),
                            acc.wf(),
                            acc@ == overlay(base, part.skip(j as int)),
                        decreases j,
                    {
                        j = j - 1;
                        proof {
                            assert(part.skip(j as int) =~= seq![part[j as int]] + part.skip(j + 1));
                            lemma_overlay_prepend(base, part[j as int], part.skip(j + 1));
                        }
                        match &es[j].1 {
                            Entry::Put(v) => acc.put(es[j].0.clone(), v.clone()),
                            Entry::Delete => acc.delete(es[j].0.clone()),
                        }
                    }
                    assert(part.skip(0) =~= part);
                },
                None => {},
            }
        }
        assert(stack.skip(0) =~= stack);
        acc
    }

    /// The entries of `all` that are not tombstones.
    pub fn live_entries(all: &Memtable) -> (r: Memtable)
        requires
            all.wf(),
        ensures
            r.wf(),
            r@ == live(all@),
    {
        proof {
            all.lemma_entries();
        }
        let ghost es = all.entries();
        let n = all.len();
        let mut out = Memtable::new();
        let mut i: usize = 0;
        while i < n
            invariant
                i <= n,
                all.wf(),
                es == all.entries(),
                keys_sorted(es),
                all@ == map_of(es),
                n == es.len(),
                out.wf(),
                forall|k: Seq<char>|
                    out@.contains_key(k) <==> exists|j: int|
                        0 <= j < i && (#[trigger] es[j]).0 == k && es[j].1 is Some,
                forall|j: int| 0 <= j < i && es[j].1 is Some ==> #[trigger] out@[es[j].0] == es[j].1,
            decreases n - i,
        {
            let ghost before = out@;
            match all.entry_at(i) {
                Entry::Put(v) => {
                    out.put(all.key_at(i).clone(), v.clone());
                    proof {
                        assert forall|k: Seq<char>| out@.contains_key(k) <==> exists|j: int|
                            0 <= j < i + 1 && (#[trigger] es[j]).0 == k && es[j].1 is Some by {
                            if before.contains_key(k) {
                                let j = choose|j: int|
                                    0 <= j < i && (#[trigger] es[j]).0 == k && es[j].1 is Some;
                                assert(es[j].0 == k);
                            }
                            if k == es[i as int].0 {
                                assert(es[i as int].1 is Some);
                            }
                        }
                        assert forall|j: int| 0 <= j < i + 1 && es[j].1 is Some implies
                            #[trigger] out@[es[j].0] == es[j].1 by {
                            if j < i {
                                lemma_sorted_keys_distinct(es, j, j);
                                if es[j].0 == es[i as int].0 {
                                    lemma_sorted_keys_distinct(es, j, i as int);
                                }
                            }
                        }
                    }
                },
                Entry::Delete => {
                    proof {
                        assert forall|k: Seq<char>| out@.contains_key(k) <==> exists|j: int|
                            0 <= j < i + 1 && (#[trigger] es[j]).0 == k && es[j].1 is Some by {
                            if before.contains_key(k) {
                                let j = choose|j: int|
                                    0 <= j < i && (#[trigger] es[j]).0 == k && es[j].1 is Some;
                                assert(es[j].0 == k);
                            }
                        }
                    }
                },
            }
            i = i + 1;
        }
        proof {
            assert forall|k: Seq<char>| out@.contains_key(k) <==> live(all@).contains_key(k) by {
                if out@.contains_key(k) {
                    let j = choose|j: int|
                        0 <= j < n && (#[trigger] es[j]).0 == k && es[j].1 is Some;
                    lemma_map_of_at(es, j);
                }
                if live(all@).contains_key(k) {
                    let j = choose|j: int| 0 <= j < es.len() && (#[trigger] es[j]).0 == k;
                    lemma_map_of_at(es, j);
                }
            }
            assert forall|k: Seq<char>| out@.contains_key(k) implies #[trigger] out@[k] == live(
                all@,
            )[k] by {
                let j = choose|j: int| 0 <= j < n && (#[trigger] es[j]).0 == k && es[j].1 is Some;
                lemma_map_of_at(es, j);
                assert(out@[es[j].0] == es[j].1);
            }
            assert(out@ =~= live(all@));
        }
        out
    }
}

/// Whether `path` is one of the paths of `listing`.
pub open spec fn listed(listing: Seq<(Seq<char>, u64)>, path: Seq<char>) -> bool {
    exists|i: int| 0 <= i < listing.len() && (#[trigger] listing[i]).0 == path
}

/// Whether the storage holds every file of `listing`.
pub open spec fn all_listed(files: Map<Seq<char>, FileModel>, listing: Seq<(Seq<char>, u64)>) -> bool {
    forall|i: int| 0 <= i < listing.len() ==> files.contains_key((#[trigger] listing[i]).0)
}

/// The number of bytes that the files of `listing` hold together.
pub open spec fn listed_size(files: Map<Seq<char>, FileModel>, listing: Seq<(Seq<char>, u64)>) -> nat
    decreases listing.len(),
{
    if listing.len() == 0 {
        0
    } else {
        listed_size(files, listing.drop_last()) + crate::store::sst::file_content(
            files,
            listing.last().0,
        ).len()
    }
}

/// A number of bytes as a `u64`: the largest `u64` where it is more.
pub open spec fn capped(n: nat) -> u64 {
    if n > u64::MAX {
        u64::MAX
    } else {
        n as u64
    }
}

impl Compactor {
    /// Reads the tables of `listing`: for each its records, or `None` where
    /// it is not a well-formed table, and the sum of their sizes.
    fn load_tables<S: Storage>(storage: &S, listing: &Vec<(String, u64)>) -> (r: Result<
        (Vec<Option<Vec<(String, Entry)>>>, u64),
        IoErrorKind,
    >)
        requires
            storage.wf(),
        ensures
            r matches Ok((tables, size)) ==> stack_models(tables@) == stack_of(
                storage.files(),
                listing_models(listing@),
            ) && all_listed(storage.files(), listing_models(listing@)) && size == capped(
                listed_size(storage.files(), listing_models(listing@)),
            ),
            storage.reliable() && all_listed(storage.files(), listing_models(listing@)) ==> r is Ok,
    {
        let ghost models = listing_models(listing@);
        let mut tables: Vec<Option<Vec<(String, Entry)>>> = Vec::new();
        let mut size: u64 = 0;
        let mut i: usize = 0;
        assert(models.take(0) =~= Seq::<(Seq<char>, u64)>::empty());
        while i < listing.len()
            invariant
                i <= listing.len(),
                storage.wf(),
                models == listing_models(listing@),
                tables@.len() == i,
                forall|k: int| 0 <= k < i ==> storage.files().contains_key((#[trigger] models[k]).0),
                size == capped(listed_size(storage.files(), models.take(i as int))),
                forall|k: int|
                    0 <= k < i ==> #[trigger] stack_models(tables@)[k] == table_entries(
                        storage.files(),
                        models[k].0,
                    ),
            decreases listing.len() - i,
        {
            let ghost before = tables@;
            assert(models[i as int].0 == listing@[i as int].0@);
            let mut file = match storage.open(listing[i].0.as_str()) {
                Ok(file) => file,
                Err(e) => {
                    return Err(e);
                },
            };
            let bytes = match read_to_end(storage, &mut file) {
                Ok(bytes) => bytes,
                Err(e) => {
                    return Err(e);
                },
            };
            assert(storage.files()[models[i as int].0].content.skip(0)
                =~= storage.files()[models[i as int].0].content);
            proof {
                assert(models.take(i + 1).drop_last() =~= models.take(i as int));
                assert(models.take(i + 1).last() == models[i as int]);
            }
            size = size.saturating_add(bytes.len() as u64);
            let table = parse_sst_bytes(bytes.as_slice());
            tables.push(table);
            proof {
                assert forall|k: int| 0 <= k < i + 1 implies #[trigger] stack_models(tables@)[k]
                    == table_entries(storage.files(), models[k].0) by {
                    if k < i {
                        assert(stack_models(tables@)[k] == stack_models(before)[k]);
                    }
                }
            }
            i = i + 1;
        }
        assert(stack_models(tables@) =~= stack_of(storage.files(), models));
        assert(models.take(listing@.len() as int) =~= models);
        Ok((tables, size))
    }

    /// The path of the file that a compaction writes the merged table to
    /// before it puts it in the place of the old tables.
    pub open spec fn scratch_path(&self) -> Seq<char> {
        joined(self.dir(), "compacted.tmp"@)
    }

    /// Compacts the tables of `listing`, which lists them the newest first:
    /// they are merged, the newest table that holds a key deciding; the
    /// tombstones are dropped; what is left is written to a scratch file,
    /// where anything is left; the tables of the listing are removed; and
    /// the scratch file takes the place of the one table. A failure of the
    /// storage ends the compaction with an error, and then every table of
    /// the listing is either removed or as it was. Nothing is asked of the
    /// storage for an empty listing.
    pub fn compact_listing<S: Storage>(&self, storage: &mut S, listing: &Vec<(String, u64)>) -> (r:
        Result<CompactionStats, FireLocalError>)
        requires
            old(storage).wf(),
        ensures
            final(storage).wf(),
            final(storage).reliable() == old(storage).reliable(),
            others_untouched(
                old(storage).files(),
                final(storage).files(),
                listing_models(listing@),
                self.output_path(),
                self.scratch_path(),
            ),
            listing@.len() == 0 ==> r is Ok,
            r matches Err(e) ==> e.kind() == ErrorKind::Io && kept_or_gone(
                old(storage).files(),
                final(storage).files(),
                self.scratch_path(),
            ),
            r matches Ok(stats) ==> compacted(
                old(storage).files(),
                final(storage).files(),
                listing_models(listing@),
                self.output_path(),
                stats,
            ) && (stats.files_after == 1 ==> !final(storage).files().contains_key(
                self.scratch_path(),
            )),
    {
        let ghost models = listing_models(listing@);
        let ghost files_before = storage.files();
        let ghost stack = stack_of(files_before, models);
        let ghost out_name = self.output_path();
        let ghost tmp_name = self.scratch_path();
        let mut stats = CompactionStats {
            files_before: 0,
            files_after: 0,
            entries_before: 0,
            entries_after: 0,
            tombstones_removed: 0,
            size_before: 0,
            size_after: 0,
        };
        proof {
            lemma_scratch_path(self.dir());
        }
        if listing.len() == 0 {
            assert(stack =~= Seq::<Option<Seq<(Seq<char>, Option<Seq<u8>>)>>>::empty());
            assert(merged(stack).dom() =~= Set::<Seq<char>>::empty());
            assert(live(merged(stack)).dom() =~= Set::<Seq<char>>::empty());
            return Ok(stats);
        }
        stats.files_before = listing.len();
        let (tables, size_before) = match Compactor::load_tables(&*storage, listing) {
            Ok(loaded) => loaded,
            Err(e) => {
                return Err(io_error("compact", e));
            },
        };
        stats.size_before = size_before;
        let all = Compactor::merge_sst_files(&tables);
        let kept = Compactor::live_entries(&all);
        proof {
            all.lemma_entries();
            kept.lemma_entries();
            crate::store::memtable::lemma_map_of_len(all.entries());
            crate::store::memtable::lemma_map_of_len(kept.entries());
            vstd::set_lib::lemma_len_subset(kept@.dom(), all@.dom());
        }
        stats.entries_before = all.len();
        stats.entries_after = kept.len();
        stats.tombstones_removed = stats.entries_before - stats.entries_after;
        let out_path = join_path(self.data_dir.as_str(), "compacted.sst");
        let tmp_path = join_path(self.data_dir.as_str(), "compacted.tmp");
        let wrote = kept.len() > 0;
        if wrote {
            let builder = match SstBuilder::new(storage, tmp_path.as_str()) {
                Ok(b) => b,
                Err(e) => {
                    return Err(io_error("compact", e));
                },
            };
            let ghost mid = storage.files();
            let built = builder.build(storage, &kept);
            proof {
                assert(files_before.remove(tmp_name) == storage.files().remove(tmp_name));
                lemma_untouched(files_before, storage.files(), tmp_name);
            }
            match built {
                Ok(_) => {},
                Err(e) => {
                    return Err(io_error("compact", e));
                },
            }
            proof {
                let out = kept.entries();
                lemma_sst_bytes_len(out);
                assert(mid[tmp_name].content =~= Seq::<u8>::empty());
                assert(storage.files()[tmp_name].content =~= sst_bytes(out));
                lemma_parse_of_sst_bytes(out);
            }
            stats.files_after = 1;
            stats.size_after = match SstBuilder::<S>::size_of(&*storage, tmp_path.as_str()) {
                Ok(n) => n,
                Err(e) => {
                    return Err(io_error("compact", e));
                },
            };
        } else {
            proof {
                lemma_untouched(files_before, storage.files(), tmp_name);
            }
        }
        let ghost files_mid = storage.files();
        let mut i: usize = 0;
        while i < listing.len()
            invariant
                i <= listing.len(),
                storage.wf(),
                storage.reliable() == old(storage).reliable(),
                models == listing_models(listing@),
                out_path@ == out_name,
                tmp_path@ == tmp_name,
                out_name == self.output_path(),
                tmp_name == self.scratch_path(),
                out_name != tmp_name,
                files_before == old(storage).files(),
                forall|p: Seq<char>|
                    p != tmp_name && !listed(models, p) ==> #[trigger] same_file(
                        files_before,
                        storage.files(),
                        p,
                    ),
                forall|p: Seq<char>|
                    p != tmp_name ==> !storage.files().contains_key(p) || #[trigger] same_file(
                        files_before,
                        storage.files(),
                        p,
                    ),
                forall|k: int|
                    0 <= k < i && (#[trigger] models[k]).0 != tmp_name
                        ==> !storage.files().contains_key(models[k].0),
                wrote ==> files_mid.contains_key(tmp_name) && storage.files().contains_key(tmp_name)
                    && storage.files()[tmp_name] == files_mid[tmp_name],
                !wrote ==> forall|k: int|
                    0 <= k < i ==> !storage.files().contains_key((#[trigger] models[k]).0),
            decreases listing.len() - i,
        {
            let path = listing[i].0.as_str();
            let ghost mid = storage.files();
            assert(models[i as int].0 == path@);
            if !(wrote && crate::text::str_eq(path, tmp_path.as_str())) {
                let removed = storage.remove_file(path);
                proof {
                    assert(listed(models, path@));
                    assert forall|p: Seq<char>| p != tmp_name && !listed(models, p) implies
                        #[trigger] same_file(files_before, storage.files(), p) by {
                        assert(same_file(files_before, mid, p));
                        assert(p != path@);
                    }
                    assert forall|p: Seq<char>| p != tmp_name implies !storage.files().contains_key(
                        p,
                    ) || #[trigger] same_file(files_before, storage.files(), p) by {
                        assert(!mid.contains_key(p) || same_file(files_before, mid, p));
                    }
                }
                match removed {
                    Ok(_) => {},
                    Err(e) => {
                        return Err(io_error("compact", e));
                    },
                }
            }
            i = i + 1;
        }
        let ghost files_cut = storage.files();
        if wrote {
            let moved = storage.rename(tmp_path.as_str(), out_path.as_str());
            match moved {
                Ok(_) => {},
                Err(e) => {
                    return Err(io_error("compact", e));
                },
            }
            proof {
                assert forall|p: Seq<char>| p != out_name && p != tmp_name && !listed(
                    models,
                    p,
                ) implies #[trigger] same_file(files_before, storage.files(), p) by {
                    assert(same_file(files_before, files_cut, p));
                }
            }
        } else if storage.file_exists(out_path.as_str()) {
            let removed = storage.remove_file(out_path.as_str());
            proof {
                assert forall|p: Seq<char>| p != out_name && p != tmp_name && !listed(
                    models,
                    p,
                ) implies #[trigger] same_file(files_before, storage.files(), p) by {
                    assert(same_file(files_before, files_cut, p));
                }
                assert forall|p: Seq<char>| p != tmp_name implies !storage.files().contains_key(
                    p,
                ) || #[trigger] same_file(files_before, storage.files(), p) by {
                    assert(!files_cut.contains_key(p) || same_file(files_before, files_cut, p));
                }
                assert forall|k: int| 0 <= k < models.len() implies !storage.files().contains_key(
                    (#[trigger] models[k]).0,
                ) by {
                    assert(!files_cut.contains_key(models[k].0));
                }
            }
            match removed {
                Ok(_) => {},
                Err(e) => {
                    return Err(io_error("compact", e));
                },
            }
        }
        proof {
            let target = live(merged(stack));
            assert(all@ == merged(stack));
            assert(kept@ == target);
            assert(stats.entries_before == merged(stack).dom().len());
            assert(stats.entries_after == target.dom().len());
            assert forall|p: Seq<char>| #[trigger]
                listed(models, p) && p != out_name implies !storage.files().contains_key(p) by {
                let k = choose|k: int| 0 <= k < models.len() && (#[trigger] models[k]).0 == p;
                assert(models[k].0 == p);
                if wrote {
                    if p != tmp_name {
                        assert(!files_cut.contains_key(p));
                    }
                }
            }
            if wrote {
                let out = kept.entries();
                assert(storage.files()[out_name] == files_mid[tmp_name]);
                assert(keys_sorted(out) && map_of(out) == target && table_entries(
                    storage.files(),
                    out_name,
                ) == Some(out));
            } else {
                assert(!storage.files().contains_key(out_name));
            }
        }
        Ok(stats)
    }

    /// Compacts the tables of the compactor's directory, as the storage
    /// lists them, in the way of `compact_listing`. A file that is no table
    /// of the directory stays as it is, but for the scratch file; and where
    /// the compaction fails, every table of the directory is either removed
    /// or as it was.
    pub fn compact<S: Storage>(&self, storage: &mut S) -> (r: Result<
        CompactionStats,
        FireLocalError,
    >)
        requires
            old(storage).wf(),
        ensures
            final(storage).wf(),
            final(storage).reliable() == old(storage).reliable(),
            forall|p: Seq<char>|
                p != self.output_path() && p != self.scratch_path() && !is_table(
                    old(storage),
                    self.dir(),
                    p,
                ) ==> #[trigger] same_file(old(storage).files(), final(storage).files(), p),
            r matches Err(e) ==> e.kind() == ErrorKind::Io && kept_or_gone(
                old(storage).files(),
                final(storage).files(),
                self.scratch_path(),
            ),
            r matches Ok(stats) ==> exists|listing: Seq<(Seq<char>, u64)>|
                #[trigger] is_table_listing(old(storage), self.dir(), listing) && compacted(
                    old(storage).files(),
                    final(storage).files(),
                    listing,
                    self.output_path(),
                    stats,
                ),
    {
        let listing = match discover_tables(&*storage, self.data_dir.as_str()) {
            Ok(listing) => listing,
            Err(e) => {
                return Err(io_error("compact", e));
            },
        };
        let r = self.compact_listing(storage, &listing);
        proof {
            let models = listing_models(listing@);
            assert forall|p: Seq<char>|
                p != self.output_path() && p != self.scratch_path() && !is_table(
                    old(storage),
                    self.dir(),
                    p,
                ) implies #[trigger] same_file(old(storage).files(), storage.files(), p) by {
                if listed(models, p) {
                    let k = choose|k: int| 0 <= k < models.len() && (#[trigger] models[k]).0 == p;
                    assert(is_table(old(storage), self.dir(), models[k].0));
                }
            }
        }
        r
    }
}

/// A directory without sorted tables has the empty listing.
pub proof fn lemma_listing_without_tables<S: Storage>(
    storage: &S,
    dir: Seq<char>,
    listing: Seq<(Seq<char>, u64)>,
)
    requires
        is_table_listing(storage, dir, listing),
        forall|p: Seq<char>| !is_table(storage, dir, p),
    ensures
        listing.len() == 0,
{
    if listing.len() > 0 {
        assert(is_table(storage, dir, listing[0].0));
    }
}

/// A directory with one sorted table has the listing of that table.
pub proof fn lemma_listing_of_one_table<S: Storage>(
    storage: &S,
    dir: Seq<char>,
    listing: Seq<(Seq<char>, u64)>,
    table: Seq<char>,
)
    requires
        is_table_listing(storage, dir, listing),
        is_table(storage, dir, table),
        forall|p: Seq<char>| is_table(storage, dir, p) ==> p == table,
    ensures
        listing.len() == 1,
        listing[0].0 == table,
{
    let i = choose|i: int| 0 <= i < listing.len() && (#[trigger] listing[i]).0 == table;
    assert(listing[i].0 == table);
    if listing.len() > 1 {
        assert(is_table(storage, dir, listing[0].0));
        assert(is_table(storage, dir, listing[1].0));
        assert(listing[0].0 != listing[1].0);
    }
}

/// After a compaction that succeeded the directory holds no sorted table
/// but the one that the compaction wrote.
pub proof fn lemma_one_table_left<S: Storage>(
    before: &S,
    after: &S,
    dir: Seq<char>,
    listing: Seq<(Seq<char>, u64)>,
    stats: CompactionStats,
    table: Seq<char>,
)
    requires
        is_table_listing(before, dir, listing),
        compacted(before.files(), after.files(), listing, joined(dir, "compacted.sst"@), stats),
        forall|p: Seq<char>|
            p != joined(dir, "compacted.sst"@) && p != joined(dir, "compacted.tmp"@) && !is_table(
                before,
                dir,
                p,
            ) ==> #[trigger] same_file(before.files(), after.files(), p),
        is_table(after, dir, table),
    ensures
        table == joined(dir, "compacted.sst"@),
{
    lemma_scratch_path(dir);
    let output = joined(dir, "compacted.sst"@);
    if table != output {
        if is_table(before, dir, table) {
            let i = choose|i: int| 0 <= i < listing.len() && (#[trigger] listing[i]).0 == table;
            assert(listed(listing, table));
        } else {
            assert(same_file(before.files(), after.files(), table));
        }
    }
}

/// Whether every file that is no table of `listing`, nor the table that a
/// compaction writes, nor its scratch file is the same in `before` and in
/// `after`.
pub open spec fn others_untouched(
    before: Map<Seq<char>, FileModel>,
    after: Map<Seq<char>, FileModel>,
    listing: Seq<(Seq<char>, u64)>,
    output: Seq<char>,
    scratch: Seq<char>,
) -> bool {
    forall|p: Seq<char>|
        p != output && p != scratch && !listed(listing, p) ==> #[trigger] same_file(
            before,
            after,
            p,
        )
}

/// Whether every file but the scratch file, and so every sorted table, is
/// gone from `after` or the same as in `before`.
pub open spec fn kept_or_gone(
    before: Map<Seq<char>, FileModel>,
    after: Map<Seq<char>, FileModel>,
    scratch: Seq<char>,
) -> bool {
    forall|p: Seq<char>|
        p != scratch ==> !after.contains_key(p) || #[trigger] same_file(before, after, p)
}

/// The scratch file of a compaction is no sorted table, not the table that
/// the compaction writes, and not the write-ahead log.
pub proof fn lemma_scratch_path(dir: Seq<char>)
    ensures
        extension_of(joined(dir, "compacted.tmp"@)) != Some("sst"@),
        joined(dir, "compacted.tmp"@) != joined(dir, "compacted.sst"@),
        joined(dir, "compacted.tmp"@) != joined(dir, "wal.log"@),
{
    reveal_strlit("wal.log");
    reveal_strlit("sst");
    reveal_strlit("compacted.sst");
    reveal_strlit("compacted.tmp");
    let p = joined(dir, "compacted.tmp"@);
    let q = joined(dir, "compacted.sst"@);
    if extension_of(p) == Some("sst"@) {
        crate::store::io::lemma_extension_is_suffix(p, "sst"@);
        assert(p.skip(p.len() - 3)[2] == 't');
        assert(p.skip(p.len() - 3)[0] == 's');
        assert(p[p.len() - 3] == 't');
    }
    assert(p[p.len() - 1] == 'p');
    assert(q[q.len() - 1] == 't');
    assert(p.len() != joined(dir, "wal.log"@).len());
}

/// Whether the file at `path` is the same in `a` and in `b`: absent from
/// both, or held by both with the same content and time.
pub open spec fn same_file(
    a: Map<Seq<char>, FileModel>,
    b: Map<Seq<char>, FileModel>,
    path: Seq<char>,
) -> bool {
    a.contains_key(path) == b.contains_key(path) && (a.contains_key(path) ==> a[path] == b[path])
}

/// What a compaction that succeeded has done to the files `before`, given
/// the listing of the tables, the newest first, and the path of the table
/// that it writes.
pub open spec fn compacted(
    before: Map<Seq<char>, FileModel>,
    after: Map<Seq<char>, FileModel>,
    listing: Seq<(Seq<char>, u64)>,
    output: Seq<char>,
    stats: CompactionStats,
) -> bool {
    let stack = stack_of(before, listing);
    let target = live(merged(stack));
    &&& stats.files_before == listing.len()
    &&& stats.entries_before == merged(stack).dom().len()
    &&& stats.entries_after == target.dom().len()
    &&& stats.tombstones_removed == stats.entries_before - stats.entries_after
    &&& stats.files_after == if target.dom().len() > 0 {
        1usize
    } else {
        0usize
    }
    &&& stats.size_before == capped(listed_size(before, listing))
    &&& stats.size_after == if target.dom().len() > 0 {
        crate::store::sst::file_content(after, output).len()
    } else {
        0
    }
    &&& forall|p: Seq<char>| #[trigger] listed(listing, p) && p != output ==> !after.contains_key(p)
    &&& target.dom().len() > 0 ==> exists|out: Seq<(Seq<char>, Option<Seq<u8>>)>|
        #[trigger] keys_sorted(out) && map_of(out) == target && table_entries(after, output)
            == Some(out)
    &&& target.dom().len() == 0 && listing.len() > 0 ==> !after.contains_key(output)
    &&& listing.len() == 0 ==> after == before
}

/// Files that differ at most at one path agree at every other path.
pub proof fn lemma_untouched(
    before: Map<Seq<char>, FileModel>,
    after: Map<Seq<char>, FileModel>,
    out_path: Seq<char>,
)
    requires
        before.remove(out_path) == after.remove(out_path) || before == after,
    ensures
        forall|p: Seq<char>| p != out_path ==> #[trigger] same_file(before, after, p),
{
    assert forall|p: Seq<char>| p != out_path implies #[trigger] same_file(before, after, p) by {
        if before.remove(out_path) == after.remove(out_path) {
            assert(before.remove(out_path).contains_key(p) == before.contains_key(p));
            assert(after.remove(out_path).contains_key(p) == after.contains_key(p));
            if before.contains_key(p) {
                assert(before.remove(out_path)[p] == before[p]);
                assert(after.remove(out_path)[p] == after[p]);
            }
        }
    }
}

} // verus!
