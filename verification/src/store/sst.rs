//! Sorted tables: the immutable files that a flush of the in-memory table
//! leaves behind. A table is a run of records, each a flag, a key and a
//! value, the key and the value behind their lengths.

use crate::store::io::{
    read_to_end, same_except, write_all, written, FileModel, IoErrorKind, Storage,
};
use crate::store::memtable::{keys_sorted, Entry, Memtable};
use crate::store::wal::{
    le32, le32_value, lemma_le32, read_le32, write_le32, MAX_KEY_LEN, MAX_VALUE_LEN,
};
use crate::text::{lemma_text_of_encoding, str_eq, string_from_utf8_lossy, text_of};
use vstd::prelude::*;
use vstd::slice::{slice_subrange, slice_to_vec};
use vstd::utf8::encode_utf8;

verus! {

/// The flag of a record that holds a value.
pub const FLAG_PUT: u8 = 0;

/// The flag of a record that marks a deletion.
pub const FLAG_DELETE: u8 = 1;

/// What a lookup in one table finds.
#[derive(Debug)]
pub enum SstSearchResult {
    Found(Vec<u8>),
    Deleted,
    NotFound,
}

impl SstSearchResult {
    /// The result as plain values: `Some(Some(bytes))` for a value,
    /// `Some(None)` for a tombstone, `None` where the key is absent.
    pub open spec fn model(&self) -> Option<Option<Seq<u8>>> {
        match self {
            SstSearchResult::Found(v) => Some(Some(v@)),
            SstSearchResult::Deleted => Some(None),
            SstSearchResult::NotFound => None,
        }
    }
}

/// One record: the flag, the key behind its length, the value behind its
/// length. A tombstone carries the length 0 and no value.
pub open spec fn sst_record(key: Seq<char>, entry: Option<Seq<u8>>) -> Seq<u8> {
    let k = encode_utf8(key);
    match entry {
        Some(v) => seq![FLAG_PUT] + le32(k.len() as int) + k + le32(v.len() as int) + v,
        None => seq![FLAG_DELETE] + le32(k.len() as int) + k + le32(0),
    }
}

/// The table that holds `entries`: their records in order.
pub open spec fn sst_bytes(entries: Seq<(Seq<char>, Option<Seq<u8>>)>) -> Seq<u8>
    decreases entries.len(),
{
    if entries.len() == 0 {
        Seq::empty()
    } else {
        sst_bytes(entries.drop_last()) + sst_record(entries.last().0, entries.last().1)
    }
}

/// Whether every key and value is within the bounds of the format.
pub open spec fn entries_fit(entries: Seq<(Seq<char>, Option<Seq<u8>>)>) -> bool {
    forall|i: int|
        0 <= i < entries.len() ==> entry_fits((#[trigger] entries[i]).0, entries[i].1)
}

/// Whether a key and its entry are within the bounds of the format.
pub open spec fn entry_fits(key: Seq<char>, entry: Option<Seq<u8>>) -> bool {
    &&& encode_utf8(key).len() <= MAX_KEY_LEN
    &&& entry matches Some(v) ==> v.len() <= MAX_VALUE_LEN
}

/// Reads the record at the head of `b`: its key, its entry and its size, or
/// `None` where the flag is unknown, a length is out of bounds or runs past
/// the end, or a tombstone carries a value.
pub open spec fn record_head(b: Seq<u8>) -> Option<(Seq<char>, Option<Seq<u8>>, int)> {
    if b.len() < 9 {
        None
    } else {
        let k_len = le32_value(b.subrange(1, 5)) as int;
        if (b[0] != FLAG_PUT && b[0] != FLAG_DELETE) || k_len > MAX_KEY_LEN || b.len() - 9 < k_len {
            None
        } else {
            let v_len = le32_value(b.subrange(5 + k_len, 9 + k_len)) as int;
            if v_len > MAX_VALUE_LEN || b.len() - 9 - k_len < v_len || (b[0] == FLAG_DELETE && v_len
                != 0) {
                None
            } else {
                Some(
                    (
                        text_of(b.subrange(5, 5 + k_len)),
                        if b[0] == FLAG_PUT {
                            Some(b.subrange(9 + k_len, 9 + k_len + v_len))
                        } else {
                            None
                        },
                        9 + k_len + v_len,
                    ),
                )
            }
        }
    }
}

/// Reads a whole table: every record in order, or `None` where any part of
/// it is not a well-formed record.
pub open spec fn parse_sst(b: Seq<u8>) -> Option<Seq<(Seq<char>, Option<Seq<u8>>)>>
    decreases b.len(),
{
    if b.len() == 0 {
        Some(Seq::empty())
    } else {
        match record_head(b) {
            None => None,
            Some((key, entry, size)) => match parse_sst(b.skip(size)) {
                None => None,
                Some(rest) => Some(seq![(key, entry)] + rest),
            },
        }
    }
}

/// The entry of the first item with key `k`, if there is one.
pub open spec fn first_entry(es: Seq<(Seq<char>, Option<Seq<u8>>)>, k: Seq<char>) -> Option<
    Option<Seq<u8>>,
>
    decreases es.len(),
{
    if es.len() == 0 {
        None
    } else if es[0].0 == k {
        Some(es[0].1)
    } else {
        first_entry(es.drop_first(), k)
    }
}

/// A record at the head of a table is read back as it was written.
pub proof fn lemma_record_head_of_record(key: Seq<char>, entry: Option<Seq<u8>>, rest: Seq<u8>)
    requires
        entry_fits(key, entry),
    ensures
        record_head(sst_record(key, entry) + rest) == Some(
            (key, entry, sst_record(key, entry).len() as int),
        ),
        (sst_record(key, entry) + rest).skip(sst_record(key, entry).len() as int) == rest,
        sst_record(key, entry).len() >= 9,
{
    lemma_le32();
    lemma_text_of_encoding(key);
    let k = encode_utf8(key);
    let rec = sst_record(key, entry);
    let b = rec + rest;
    let k_len = k.len() as int;
    assert(b.subrange(1, 5) =~= le32(k_len));
    assert(b.subrange(5, 5 + k_len) =~= k);
    match entry {
        Some(v) => {
            let v_len = v.len() as int;
            assert(b[0] == FLAG_PUT);
            assert(b.subrange(5 + k_len, 9 + k_len) =~= le32(v_len));
            assert(b.subrange(9 + k_len, 9 + k_len + v_len) =~= v);
            assert(rec.len() == 9 + k_len + v_len);
        },
        None => {
            assert(b[0] == FLAG_DELETE);
            assert(b.subrange(5 + k_len, 9 + k_len) =~= le32(0));
            assert(rec.len() == 9 + k_len);
        },
    }
    assert(b.skip(rec.len() as int) =~= rest);
}

/// A table that begins with an item is that item's record and then the
/// table of the rest.
pub proof fn lemma_sst_bytes_prepend(
    first: (Seq<char>, Option<Seq<u8>>),
    rest: Seq<(Seq<char>, Option<Seq<u8>>)>,
)
    ensures
        sst_bytes(seq![first] + rest) == sst_record(first.0, first.1) + sst_bytes(rest),
    decreases rest.len(),
{
    let all = seq![first] + rest;
    if rest.len() == 0 {
        assert(all.drop_last() =~= Seq::<(Seq<char>, Option<Seq<u8>>)>::empty());
        assert(all.last() == first);
        assert(sst_bytes(all.drop_last()) =~= Seq::<u8>::empty());
        assert(sst_bytes(rest) =~= Seq::<u8>::empty());
        assert(sst_bytes(all) =~= sst_record(first.0, first.1) + sst_bytes(rest));
    } else {
        assert(all.drop_last() =~= seq![first] + rest.drop_last());
        assert(all.last() == rest.last());
        lemma_sst_bytes_prepend(first, rest.drop_last());
        assert(sst_bytes(all) =~= sst_record(first.0, first.1) + sst_bytes(rest));
    }
}

/// Reading a table that was built from `entries` gives back `entries`, in
/// their order.
pub proof fn lemma_parse_of_sst_bytes(entries: Seq<(Seq<char>, Option<Seq<u8>>)>)
    requires
        entries_fit(entries),
    ensures
        parse_sst(sst_bytes(entries)) == Some(entries),
    decreases entries.len(),
{
    if entries.len() == 0 {
    } else {
        let first = entries[0];
        let rest = entries.drop_first();
        assert(entries =~= seq![first] + rest);
        lemma_sst_bytes_prepend(first, rest);
        assert(entries_fit(rest)) by {
            assert forall|i: int| 0 <= i < rest.len() implies entry_fits(
                (#[trigger] rest[i]).0,
                rest[i].1,
            ) by {
                assert(rest[i] == entries[i + 1]);
            }
        }
        lemma_parse_of_sst_bytes(rest);
        lemma_record_head_of_record(first.0, first.1, sst_bytes(rest));
    }
}

/// The record of `key` and `entry`, or `None` where one of them is longer
/// than the format allows.
fn encode_sst_record(key: &str, entry: &Entry) -> (r: Option<Vec<u8>>)
    ensures
        match r {
            Some(bytes) => entry_fits(key@, entry.model()) && bytes@ == sst_record(
                key@,
                entry.model(),
            ),
            None => !entry_fits(key@, entry.model()),
        },
{
    let k = key.as_bytes();
    if k.len() > MAX_KEY_LEN {
        return None;
    }
    let mut out: Vec<u8> = Vec::new();
    match entry {
        Entry::Put(v) => {
            if v.len() > MAX_VALUE_LEN {
                return None;
            }
            out.push(FLAG_PUT);
            let mut k_len = write_le32(k.len() as u32);
            out.append(&mut k_len);
            out.extend_from_slice(k);
            let mut v_len = write_le32(v.len() as u32);
            out.append(&mut v_len);
            out.extend_from_slice(v.as_slice());
            assert(out@ =~= sst_record(key@, entry.model()));
        },
        Entry::Delete => {
            out.push(FLAG_DELETE);
            let mut k_len = write_le32(k.len() as u32);
            out.append(&mut k_len);
            out.extend_from_slice(k);
            let mut v_len = write_le32(0u32);
            out.append(&mut v_len);
            assert(out@ =~= sst_record(key@, entry.model()));
        },
    }
    Some(out)
}

/// The table that holds the entries of `memtable`, in key order, or `None`
/// where a key or a value is longer than the format allows.
pub fn encode_sst(memtable: &Memtable) -> (r: Option<Vec<u8>>)
    requires
        memtable.wf(),
    ensures
        match r {
            Some(bytes) => entries_fit(memtable.entries()) && bytes@ == sst_bytes(
                memtable.entries(),
            ),
            None => !entries_fit(memtable.entries()),
        },
        keys_sorted(memtable.entries()),
{
    proof {
        memtable.lemma_entries();
    }
    let ghost es = memtable.entries();
    let n = memtable.len();
    let mut out: Vec<u8> = Vec::new();
    let mut i: usize = 0;
    while i < n
        invariant
            memtable.wf(),
            es == memtable.entries(),
            keys_sorted(es),
            n == es.len(),
            i <= n,
            entries_fit(es.take(i as int)),
            out@ == sst_bytes(es.take(i as int)),
        decreases n - i,
    {
        let key = memtable.key_at(i);
        let entry = memtable.entry_at(i);
        match encode_sst_record(key.as_str(), entry) {
            Some(rec) => {
                let mut rec = rec;
                proof {
                    let next = es.take(i + 1);
                    assert(next.drop_last() =~= es.take(i as int));
                    assert(next.last() == es[i as int]);
                    assert forall|j: int| 0 <= j < next.len() implies entry_fits(
                        (#[trigger] next[j]).0,
                        next[j].1,
                    ) by {
                        if j < i {
                            assert(es.take(i as int)[j] == next[j]);
                        }
                    }
                }
                out.append(&mut rec);
            },
            None => {
                return None;
            },
        }
        i = i + 1;
    }
    assert(es.take(n as int) =~= es);
    Some(out)
}

/// Reads the record at `pos`: its key, its entry and where the next record
/// begins.
fn read_record(bytes: &[u8], pos: usize) -> (r: Option<(String, Entry, usize)>)
    requires
        pos <= bytes@.len(),
    ensures
        match r {
            Some((key, entry, next)) => record_head(bytes@.skip(pos as int)) == Some(
                (key@, entry.model(), next - pos),
            ) && pos + 9 <= next <= bytes@.len(),
            None => record_head(bytes@.skip(pos as int)) is None,
        },
{
    let ghost b = bytes@.skip(pos as int);
    let left = bytes.len() - pos;
    if left < 9 {
        return None;
    }
    let flag = bytes[pos];
    assert(b[0] == flag);
    let k_len_bytes = slice_subrange(bytes, pos + 1, pos + 5);
    assert(k_len_bytes@ =~= b.subrange(1, 5));
    let k_len = read_le32(k_len_bytes);
    if (flag != FLAG_PUT && flag != FLAG_DELETE) || (k_len as u64) > (MAX_KEY_LEN as u64) || ((left
        - 9) as u64) < (k_len as u64) {
        return None;
    }
    let k_len = k_len as usize;
    let key_bytes = slice_subrange(bytes, pos + 5, pos + 5 + k_len);
    assert(key_bytes@ =~= b.subrange(5, 5 + k_len));
    let v_len_bytes = slice_subrange(bytes, pos + 5 + k_len, pos + 9 + k_len);
    assert(v_len_bytes@ =~= b.subrange(5 + k_len, 9 + k_len));
    let v_len = read_le32(v_len_bytes);
    if (v_len as u64) > (MAX_VALUE_LEN as u64) || ((left - 9 - k_len) as u64) < (v_len as u64) || (
    flag == FLAG_DELETE && v_len != 0) {
        return None;
    }
    let v_len = v_len as usize;
    let key = string_from_utf8_lossy(key_bytes);
    let start = pos + 9 + k_len;
    let next = start + v_len;
    let entry = if flag == FLAG_PUT {
        let value = slice_subrange(bytes, start, next);
        assert(value@ =~= b.subrange(9 + k_len, 9 + k_len + v_len));
        Entry::Put(slice_to_vec(value))
    } else {
        Entry::Delete
    };
    Some((key, entry, next))
}

/// Every record of a table, in order, or `None` where the table is not
/// well-formed.
pub fn parse_sst_bytes(bytes: &[u8]) -> (r: Option<Vec<(String, Entry)>>)
    ensures
        match r {
            Some(es) => parse_sst(bytes@) == Some(entry_models(es@)),
            None => parse_sst(bytes@) is None,
        },
{
    let mut out: Vec<(String, Entry)> = Vec::new();
    let mut pos: usize = 0;
    assert(bytes@.skip(0) =~= bytes@);
    assert(entry_models(out@) =~= Seq::<(Seq<char>, Option<Seq<u8>>)>::empty());
    while pos < bytes.len()
        invariant
            pos <= bytes.len(),
            parse_sst(bytes@) == match parse_sst(bytes@.skip(pos as int)) {
                None => None,
                Some(rest) => Some(entry_models(out@) + rest),
            },
        decreases bytes.len() - pos,
    {
        let ghost before = entry_models(out@);
        let ghost tail = bytes@.skip(pos as int);
        match read_record(bytes, pos) {
            Some((key, entry, next)) => {
                proof {
                    assert(tail.skip(next - pos) =~= bytes@.skip(next as int));
                    let item = (key@, entry.model());
                    assert(entry_models(out@.push((key, entry))) =~= before.push(item));
                    match parse_sst(bytes@.skip(next as int)) {
                        Some(rest) => {
                            assert(before + (seq![item] + rest) =~= before.push(item) + rest);
                        },
                        None => {},
                    }
                }
                out.push((key, entry));
                pos = next;
            },
            None => {
                return None;
            },
        }
    }
    assert(bytes@.skip(pos as int) =~= Seq::<u8>::empty());
    assert(entry_models(out@) + Seq::<(Seq<char>, Option<Seq<u8>>)>::empty() =~= entry_models(
        out@,
    ));
    Some(out)
}

/// A list of keys and entries as plain values.
pub open spec fn entry_models(es: Seq<(String, Entry)>) -> Seq<(Seq<char>, Option<Seq<u8>>)> {
    Seq::new(es.len(), |i: int| (es[i].0@, es[i].1.model()))
}

/// Whether `bytes` is a well-formed table: every flag is known, every
/// length is within bounds, and no record runs past the end.
pub fn validate_sst(bytes: &[u8]) -> (r: bool)
    ensures
        r == parse_sst(bytes@).is_some(),
{
    let mut pos: usize = 0;
    assert(bytes@.skip(0) =~= bytes@);
    while pos < bytes.len()
        invariant
            pos <= bytes.len(),
            parse_sst(bytes@).is_some() == parse_sst(bytes@.skip(pos as int)).is_some(),
        decreases bytes.len() - pos,
    {
        let ghost tail = bytes@.skip(pos as int);
        match read_record(bytes, pos) {
            Some((_, _, next)) => {
                assert(tail.skip(next - pos) =~= bytes@.skip(next as int));
                pos = next;
            },
            None => {
                return false;
            },
        }
    }
    assert(bytes@.skip(pos as int) =~= Seq::<u8>::empty());
    true
}

/// Looks `key` up in a table: the first record with that key decides. A
/// table that is not well-formed throughout gives `InvalidData`.
pub fn search_sst(bytes: &[u8], key: &str) -> (r: Result<SstSearchResult, IoErrorKind>)
    ensures
        match parse_sst(bytes@) {
            Some(es) => r matches Ok(found) && found.model() == first_entry(es, key@),
            None => r == Err::<SstSearchResult, IoErrorKind>(IoErrorKind::InvalidData),
        },
{
    let mut found = SstSearchResult::NotFound;
    let mut pos: usize = 0;
    let ghost mut seen: Seq<(Seq<char>, Option<Seq<u8>>)> = Seq::empty();
    assert(bytes@.skip(0) =~= bytes@);
    while pos < bytes.len()
        invariant
            pos <= bytes.len(),
            parse_sst(bytes@) == match parse_sst(bytes@.skip(pos as int)) {
                None => None,
                Some(rest) => Some(seen + rest),
            },
            found.model() == first_entry(seen, key@),
        decreases bytes.len() - pos,
    {
        let ghost tail = bytes@.skip(pos as int);
        match read_record(bytes, pos) {
            Some((k, entry, next)) => {
                proof {
                    assert(tail.skip(next - pos) =~= bytes@.skip(next as int));
                    let item = (k@, entry.model());
                    lemma_first_entry_push(seen, item, key@);
                    match parse_sst(bytes@.skip(next as int)) {
                        Some(rest) => {
                            assert(seen + (seq![item] + rest) =~= seen.push(item) + rest);
                        },
                        None => {},
                    }
                    seen = seen.push(item);
                }
                let undecided = match found {
                    SstSearchResult::NotFound => true,
                    _ => false,
                };
                if undecided && str_eq(k.as_str(), key) {
                    found = match entry {
                        Entry::Put(v) => SstSearchResult::Found(v),
                        Entry::Delete => SstSearchResult::Deleted,
                    };
                }
                pos = next;
            },
            None => {
                return Err(IoErrorKind::InvalidData);
            },
        }
    }
    assert(bytes@.skip(pos as int) =~= Seq::<u8>::empty());
    assert(seen + Seq::<(Seq<char>, Option<Seq<u8>>)>::empty() =~= seen);
    Ok(found)
}

/// The first entry for a key in a list that grew by one item at its end.
pub proof fn lemma_first_entry_push(
    es: Seq<(Seq<char>, Option<Seq<u8>>)>,
    item: (Seq<char>, Option<Seq<u8>>),
    k: Seq<char>,
)
    ensures
        first_entry(es.push(item), k) == match first_entry(es, k) {
            Some(e) => Some(e),
            None => if item.0 == k {
                Some(item.1)
            } else {
                None
            },
        },
    decreases es.len(),
{
    if es.len() == 0 {
        assert(es.push(item).drop_first() =~= es);
    } else {
        assert(es.push(item)[0] == es[0]);
        assert(es.push(item).drop_first() =~= es.drop_first().push(item));
        lemma_first_entry_push(es.drop_first(), item, k);
    }
}

/// Writes a table to a file.
pub struct SstBuilder<S: Storage> {
    file: S::File,
}

impl<S: Storage> SstBuilder<S> {
    /// The path of the file that is written.
    pub closed spec fn path(&self) -> Seq<char> {
        S::path_of(&self.file)
    }

    /// The position in the file at which the table will begin.
    pub closed spec fn pos(&self) -> nat {
        S::pos_of(&self.file)
    }

    /// Creates the file at `path`, emptying one that is there, for a table
    /// to be written to it.
    pub fn new(storage: &mut S, path: &str) -> (r: Result<Self, IoErrorKind>)
        requires
            old(storage).wf(),
        ensures
            final(storage).wf(),
            final(storage).reliable() == old(storage).reliable(),
            match r {
                Ok(builder) => builder.path() == path@ && builder.pos() == 0 && final(storage).files().contains_key(path@) && final(storage).files()[path@].content
                    == Seq::<u8>::empty() && same_except(
                    old(storage).files(),
                    final(storage).files(),
                    path@,
                ),
                Err(_) => final(storage).files() == old(storage).files(),
            },
    {
        match storage.create(path) {
            Ok(file) => Ok(SstBuilder { file }),
            Err(e) => Err(e),
        }
    }

    /// The size in bytes of the file at `path`. A storage that reads
    /// reliably gives it for every file that is there and whose size a
    /// `u64` holds.
    pub fn size_of(storage: &S, path: &str) -> (r: Result<u64, IoErrorKind>)
        requires
            storage.wf(),
        ensures
            r matches Ok(n) ==> storage.files().contains_key(path@) && n
                == storage.files()[path@].content.len(),
            storage.reliable() && storage.files().contains_key(path@)
                && storage.files()[path@].content.len() <= u64::MAX ==> r is Ok,
    {
        match storage.open(path) {
            Ok(file) => {
                let mut file = file;
                storage.seek(&mut file, crate::store::io::SeekFrom::End(0))
            },
            Err(e) => Err(e),
        }
    }

    /// Writes the entries of `memtable` to the file, in key order, and
    /// returns once they are durable. Where a key or a value is longer than
    /// the format allows, nothing is written and `InvalidInput` is returned.
    pub fn build(self, storage: &mut S, memtable: &Memtable) -> (r: Result<(), IoErrorKind>)
        requires
            old(storage).wf(),
            memtable.wf(),
        ensures
            final(storage).wf(),
            final(storage).reliable() == old(storage).reliable(),
            same_except(old(storage).files(), final(storage).files(), self.path()),
            final(storage).files().contains_key(self.path()) == old(storage).files().contains_key(
                self.path(),
            ),
            !entries_fit(memtable.entries()) ==> r == Err::<(), IoErrorKind>(
                IoErrorKind::InvalidInput,
            ) && final(storage).files() == old(storage).files(),
            r is Ok ==> old(storage).files().contains_key(self.path()) || memtable.entries().len()
                == 0,
            r is Ok && memtable.entries().len() > 0 ==> final(storage).files()[self.path()].content
                == written(
                old(storage).files()[self.path()].content,
                self.pos(),
                sst_bytes(memtable.entries()),
            ),
            r is Ok && memtable.entries().len() == 0 ==> final(storage).files() == old(storage).files(),
            keys_sorted(memtable.entries()),
    {
        let mut file = self.file;
        match encode_sst(memtable) {
            Some(bytes) => {
                proof {
                    lemma_sst_bytes_len(memtable.entries());
                }
                match write_all(storage, &mut file, bytes.as_slice()) {
                    Ok(_) => {},
                    Err(e) => {
                        return Err(e);
                    },
                }
                match storage.sync_all(&file) {
                    Ok(_) => Ok(()),
                    Err(e) => Err(e),
                }
            },
            None => {
                assert(same_except(old(storage).files(), storage.files(), self.path()));
                Err(IoErrorKind::InvalidInput)
            },
        }
    }
}

/// A table is empty only where it holds no entries.
pub proof fn lemma_sst_bytes_len(entries: Seq<(Seq<char>, Option<Seq<u8>>)>)
    ensures
        entries.len() > 0 ==> sst_bytes(entries).len() >= 9,
        entries.len() == 0 ==> sst_bytes(entries).len() == 0,
{
    if entries.len() > 0 {
        lemma_le32();
    }
}

/// Reads a table from a file.
pub struct SstReader {
    path: String,
}

impl SstReader {
    /// The path of the table's file.
    pub closed spec fn path(&self) -> Seq<char> {
        self.path@
    }

    /// What the table's file holds, or nothing where the file is gone.
    pub open spec fn content<S: Storage>(&self, storage: &S) -> Seq<u8> {
        file_content(storage.files(), self.path())
    }

    /// Opens the table at `path`.
    pub fn open<S: Storage>(storage: &S, path: &str) -> (r: Result<Self, IoErrorKind>)
        requires
            storage.wf(),
        ensures
            r matches Ok(reader) ==> reader.path() == path@ && storage.files().contains_key(path@),
            storage.reliable() && storage.files().contains_key(path@) ==> r is Ok,
    {
        match storage.open(path) {
            Ok(_) => Ok(SstReader { path: path.to_owned() }),
            Err(e) => Err(e),
        }
    }

    /// A reader for the table at `path`, which is not looked at yet.
    pub fn for_path(path: String) -> (r: Self)
        ensures
            r.path() == path@,
    {
        SstReader { path }
    }

    /// The path of the table's file.
    pub fn file_path(&self) -> (r: &String)
        ensures
            r@ == self.path(),
    {
        &self.path
    }

    /// Reads the whole file.
    fn load<S: Storage>(&self, storage: &S) -> (r: Result<Vec<u8>, IoErrorKind>)
        requires
            storage.wf(),
        ensures
            r matches Ok(bytes) ==> storage.files().contains_key(self.path()) && bytes@
                == self.content(storage),
            storage.reliable() && storage.files().contains_key(self.path()) ==> r is Ok,
    {
        match storage.open(self.path.as_str()) {
            Ok(file) => {
                let mut file = file;
                match read_to_end(storage, &mut file) {
                    Ok(bytes) => {
                        assert(self.content(storage).skip(0) =~= self.content(storage));
                        Ok(bytes)
                    },
                    Err(e) => Err(e),
                }
            },
            Err(e) => Err(e),
        }
    }

    /// Looks `key` up in the table by a scan from its start: the first
    /// record with that key decides. A table that is not well-formed
    /// throughout gives `InvalidData`.
    pub fn get<S: Storage>(&self, storage: &S, key: &str) -> (r: Result<
        SstSearchResult,
        IoErrorKind,
    >)
        requires
            storage.wf(),
        ensures
            r matches Ok(found) ==> Some(found.model()) == table_lookup(
                storage.files(),
                self.path(),
                key@,
            ),
            storage.reliable() ==> (r is Ok <==> table_lookup(
                storage.files(),
                self.path(),
                key@,
            ) is Some),
    {
        match self.load(storage) {
            Ok(bytes) => search_sst(bytes.as_slice(), key),
            Err(e) => Err(e),
        }
    }

    /// Scans the table once and checks that every flag is known, that every
    /// length is within bounds and that no record runs past the end of the
    /// file: `InvalidData` where it is not so.
    pub fn validate_integrity<S: Storage>(&self, storage: &S) -> (r: Result<(), IoErrorKind>)
        requires
            storage.wf(),
        ensures
            r is Ok ==> table_entries(storage.files(), self.path()) is Some,
            storage.reliable() ==> (r is Ok <==> table_entries(storage.files(), self.path())
                is Some),
    {
        match self.load(storage) {
            Ok(bytes) => if validate_sst(bytes.as_slice()) {
                Ok(())
            } else {
                Err(IoErrorKind::InvalidData)
            },
            Err(e) => Err(e),
        }
    }

    /// Every record of the table, in the table's order.
    pub fn entries<S: Storage>(&self, storage: &S) -> (r: Result<
        Vec<(String, Entry)>,
        IoErrorKind,
    >)
        requires
            storage.wf(),
        ensures
            r matches Ok(es) ==> table_entries(storage.files(), self.path()) == Some(
                entry_models(es@),
            ),
            storage.reliable() ==> (r is Ok <==> table_entries(storage.files(), self.path())
                is Some),
    {
        match self.load(storage) {
            Ok(bytes) => match parse_sst_bytes(bytes.as_slice()) {
                Some(es) => Ok(es),
                None => Err(IoErrorKind::InvalidData),
            },
            Err(e) => Err(e),
        }
    }
}

/// What the file at `path` holds, or nothing where no file is there.
pub open spec fn file_content(files: Map<Seq<char>, FileModel>, path: Seq<char>) -> Seq<u8> {
    if files.contains_key(path) {
        files[path].content
    } else {
        Seq::empty()
    }
}

/// The records of the table at `path`: `None` where no file is there, or
/// the file is not a well-formed table.
pub open spec fn table_entries(files: Map<Seq<char>, FileModel>, path: Seq<char>) -> Option<
    Seq<(Seq<char>, Option<Seq<u8>>)>,
> {
    if files.contains_key(path) {
        parse_sst(files[path].content)
    } else {
        None
    }
}

/// What the table at `path` says of `key`: `None` where there is no
/// well-formed table; otherwise what its first record with that key holds,
/// `Some(None)` for a key that it does not hold.
pub open spec fn table_lookup(files: Map<Seq<char>, FileModel>, path: Seq<char>, key: Seq<char>) -> Option<
    Option<Option<Seq<u8>>>,
> {
    match table_entries(files, path) {
        Some(es) => Some(first_entry(es, key)),
        None => None,
    }
}

} // verus!
