use firelocal_core::store::compaction::{
    discover_tables, io_error, newest_tables, CompactionStats, Compactor,
};
use firelocal_core::store::io::{
    has_extension, join_path, read_to_end, replace_extension, write_all, IoErrorKind,
    MemoryStorage, SeekFrom, Storage,
};
use firelocal_core::store::memtable::{Entry, Memtable};
use firelocal_core::store::sst::{
    encode_sst, parse_sst_bytes, search_sst, validate_sst, SstBuilder, SstReader, SstSearchResult,
};
use firelocal_core::store::wal::{
    decode_record_bytes, encode_frame, encode_record, WalEntry, WalIterator, WalOp,
    WriteAheadLog,
};

#[test]
fn memtable_put_then_get() {
    let mut table = Memtable::new();
    assert!(table.is_empty());
    table.put("users/b".to_string(), b"two".to_vec());
    table.put("users/a".to_string(), b"one".to_vec());
    assert_eq!(table.get("users/a"), Some(&b"one"[..]));
    assert_eq!(table.get("users/b"), Some(&b"two"[..]));
    assert_eq!(table.get("users/c"), None);
    assert_eq!(table.len(), 2);
    table.put("users/a".to_string(), b"uno".to_vec());
    assert_eq!(table.get("users/a"), Some(&b"uno"[..]));
    assert_eq!(table.len(), 2);
}

#[test]
fn memtable_delete_leaves_a_tombstone() {
    let mut table = Memtable::new();
    table.put("k".to_string(), b"v".to_vec());
    table.delete("k".to_string());
    assert_eq!(table.get("k"), None);
    assert!(matches!(table.entry("k"), Some(Entry::Delete)));
    assert!(table.entry("other").is_none());
    assert_eq!(table.len(), 1);
    assert!(!table.is_empty());
    table.delete("gone".to_string());
    assert_eq!(table.len(), 2);
}

#[test]
fn memtable_iterates_in_key_order() {
    let mut table = Memtable::new();
    for key in ["b", "a/b", "a", "c", "B", "aa", "é"] {
        table.put(key.to_string(), key.as_bytes().to_vec());
    }
    table.delete("c".to_string());
    let keys: Vec<String> = table.iter().into_iter().map(|(k, _)| k.clone()).collect();
    assert_eq!(keys, vec!["B", "a", "a/b", "aa", "b", "c", "é"]);
    assert_eq!(table.key_at(0), "B");
    assert!(matches!(table.entry_at(5), Entry::Delete));
    assert!(matches!(table.entry_at(1), Entry::Put(v) if v == b"a"));
}

#[test]
fn memtable_size_is_a_running_total() {
    let mut table = Memtable::new();
    assert_eq!(table.approximate_size(), 0);
    table.put("abc".to_string(), b"12345".to_vec());
    assert_eq!(table.approximate_size(), 8);
    table.delete("abc".to_string());
    assert_eq!(table.approximate_size(), 11);
}

#[test]
fn frame_holds_length_checksum_and_payload() {
    // the CRC-32 of "123456789" is 0xCBF43926
    let frame = encode_frame(b"123456789");
    assert_eq!(&frame[0..4], &[9, 0, 0, 0]);
    assert_eq!(&frame[4..8], &[0x26, 0x39, 0xF4, 0xCB]);
    assert_eq!(&frame[8..], b"123456789");
    let empty = encode_frame(b"");
    assert_eq!(empty, vec![0, 0, 0, 0, 0, 0, 0, 0]);
}

#[test]
fn wal_iterator_reads_frames_back() {
    let mut log = encode_frame(b"one");
    log.extend(encode_frame(b""));
    log.extend(encode_frame(b"three"));
    let mut it = WalIterator::new(log);
    assert_eq!(it.next(), Some(Ok(b"one".to_vec())));
    assert_eq!(it.next(), Some(Ok(Vec::new())));
    assert_eq!(it.next(), Some(Ok(b"three".to_vec())));
    assert!(it.is_done());
    assert_eq!(it.next(), None);
    assert_eq!(it.next(), None);
}

#[test]
fn wal_iterator_passes_over_a_corrupt_frame() {
    let mut log = encode_frame(b"one");
    let mut bad = encode_frame(b"two");
    bad[9] ^= 0x01;
    log.extend(bad);
    log.extend(encode_frame(b"three"));
    let mut it = WalIterator::new(log);
    assert_eq!(it.next(), Some(Ok(b"one".to_vec())));
    assert_eq!(it.next(), Some(Err(IoErrorKind::InvalidData)));
    assert_eq!(it.next(), Some(Ok(b"three".to_vec())));
    assert_eq!(it.next(), None);
}

#[test]
fn wal_iterator_stops_at_a_truncated_frame() {
    let mut log = encode_frame(b"one");
    let cut = encode_frame(b"two two");
    log.extend(&cut[..cut.len() - 1]);
    let mut it = WalIterator::new(log);
    assert_eq!(it.next(), Some(Ok(b"one".to_vec())));
    assert_eq!(it.next(), Some(Err(IoErrorKind::UnexpectedEof)));
    assert_eq!(it.next(), None);

    // a length beyond the end of the file
    let mut it = WalIterator::new(vec![0xFF; 50]);
    assert_eq!(it.next(), Some(Err(IoErrorKind::UnexpectedEof)));
    assert_eq!(it.next(), None);

    // fewer than four bytes are no frame at all
    let mut it = WalIterator::new(vec![1, 2, 3]);
    assert_eq!(it.next(), None);

    // a header that is cut short
    let mut it = WalIterator::new(vec![1, 0, 0, 0, 9]);
    assert_eq!(it.next(), Some(Err(IoErrorKind::UnexpectedEof)));
    assert_eq!(it.next(), None);
}

#[test]
fn record_layout() {
    let put = WalEntry::put("ab".to_string(), b"xyz".to_vec(), None);
    assert_eq!(
        encode_record(&put).unwrap(),
        vec![0, 2, 0, 0, 0, b'a', b'b', 3, 0, 0, 0, b'x', b'y', b'z']
    );
    let delete = WalEntry::delete("ab".to_string(), None);
    assert_eq!(
        encode_record(&delete).unwrap(),
        vec![1, 2, 0, 0, 0, b'a', b'b', 0, 0, 0, 0]
    );
    let in_batch = WalEntry::delete("k".to_string(), Some("id"));
    assert_eq!(
        encode_record(&in_batch).unwrap(),
        vec![1, 1, 0, 0, 0, b'k', 0, 0, 0, 0, 2, 0, 0, 0, b'i', b'd']
    );
}

#[test]
fn record_round_trip() {
    for entry in [
        WalEntry::put("users/a".to_string(), b"{}".to_vec(), None),
        WalEntry::put("ü".to_string(), Vec::new(), Some("batch-1")),
        WalEntry::delete("users/a".to_string(), None),
        WalEntry::delete("users/a".to_string(), Some("batch-2")),
    ] {
        let bytes = encode_record(&entry).unwrap();
        let back = decode_record_bytes(&bytes).unwrap();
        assert_eq!(back.op, entry.op);
        assert_eq!(back.key, entry.key);
        assert_eq!(back.value, entry.value);
        assert_eq!(back.batch_id, entry.batch_id);
    }
}

#[test]
fn records_out_of_bounds_are_refused() {
    assert!(decode_record_bytes(&[]).is_none());
    assert!(decode_record_bytes(&[0, 1, 0, 0]).is_none());
    // unknown kind of write
    assert!(decode_record_bytes(&[2, 1, 0, 0, 0, b'k', 0, 0, 0, 0]).is_none());
    // key length beyond the payload
    assert!(decode_record_bytes(&[0, 9, 0, 0, 0, b'k']).is_none());
    // value length beyond the payload
    assert!(decode_record_bytes(&[0, 1, 0, 0, 0, b'k', 5, 0, 0, 0, b'v']).is_none());
    // a put without a value part
    assert!(decode_record_bytes(&[0, 1, 0, 0, 0, b'k']).is_none());
    // a delete needs no value part
    let d = decode_record_bytes(&[1, 1, 0, 0, 0, b'k']).unwrap();
    assert_eq!(d.op, WalOp::Delete);
    assert_eq!(d.key, "k");
    // key longer than 1 MiB
    let mut big = vec![0u8, 0x01, 0x00, 0x10, 0x00];
    big.extend(vec![b'k'; 1024 * 1024 + 1]);
    big.extend([0, 0, 0, 0]);
    assert!(decode_record_bytes(&big).is_none());
    let too_long = WalEntry::put("k".repeat(1024 * 1024 + 1), Vec::new(), None);
    assert!(encode_record(&too_long).is_none());
}

#[test]
fn record_key_that_is_not_utf8_is_read_with_replacements() {
    let d = decode_record_bytes(&[1, 2, 0, 0, 0, b'k', 0xFF]).unwrap();
    assert_eq!(d.key, "k\u{FFFD}");
}

#[test]
fn wal_appends_and_iterates() {
    let mut storage = MemoryStorage::new();
    let mut wal = WriteAheadLog::open(&mut storage, "db/wal.log").unwrap();
    wal.append(&mut storage, b"first").unwrap();
    wal.append(&mut storage, b"second").unwrap();
    let mut it = wal.iter(&storage).unwrap();
    assert_eq!(it.next(), Some(Ok(b"first".to_vec())));
    assert_eq!(it.next(), Some(Ok(b"second".to_vec())));
    assert_eq!(it.next(), None);

    // opening an existing log keeps what it holds and appends behind it
    let mut again = WriteAheadLog::open(&mut storage, "db/wal.log").unwrap();
    again.append(&mut storage, b"third").unwrap();
    let mut it = again.iter(&storage).unwrap();
    assert_eq!(it.next(), Some(Ok(b"first".to_vec())));
    assert_eq!(it.next(), Some(Ok(b"second".to_vec())));
    assert_eq!(it.next(), Some(Ok(b"third".to_vec())));
}

#[test]
fn wal_append_fails_when_the_file_is_gone() {
    let mut storage = MemoryStorage::new();
    let mut wal = WriteAheadLog::open(&mut storage, "wal.log").unwrap();
    storage.remove_file("wal.log").unwrap();
    assert_eq!(wal.append(&mut storage, b"x"), Err(IoErrorKind::NotFound));
}

fn sample() -> Memtable {
    let mut table = Memtable::new();
    table.put("b".to_string(), b"two".to_vec());
    table.put("a".to_string(), b"1".to_vec());
    table.delete("c".to_string());
    table
}

#[test]
fn sst_layout() {
    let bytes = encode_sst(&sample()).unwrap();
    let expected: Vec<u8> = vec![
        0, 1, 0, 0, 0, b'a', 1, 0, 0, 0, b'1', //
        0, 1, 0, 0, 0, b'b', 3, 0, 0, 0, b't', b'w', b'o', //
        1, 1, 0, 0, 0, b'c', 0, 0, 0, 0,
    ];
    assert_eq!(bytes, expected);
    assert_eq!(encode_sst(&Memtable::new()).unwrap(), Vec::<u8>::new());
}

#[test]
fn sst_round_trip_in_key_order() {
    let bytes = encode_sst(&sample()).unwrap();
    let entries = parse_sst_bytes(&bytes).unwrap();
    assert_eq!(entries.len(), 3);
    assert_eq!(entries[0].0, "a");
    assert!(matches!(&entries[0].1, Entry::Put(v) if v == b"1"));
    assert_eq!(entries[1].0, "b");
    assert!(matches!(&entries[1].1, Entry::Put(v) if v == b"two"));
    assert_eq!(entries[2].0, "c");
    assert!(matches!(&entries[2].1, Entry::Delete));
}

#[test]
fn sst_search() {
    let bytes = encode_sst(&sample()).unwrap();
    assert!(matches!(search_sst(&bytes, "a"), Ok(SstSearchResult::Found(v)) if v == b"1"));
    assert!(matches!(search_sst(&bytes, "c"), Ok(SstSearchResult::Deleted)));
    assert!(matches!(search_sst(&bytes, "d"), Ok(SstSearchResult::NotFound)));
    assert!(matches!(search_sst(&[], "a"), Ok(SstSearchResult::NotFound)));
}

#[test]
fn sst_first_record_for_a_key_decides() {
    let bytes: Vec<u8> = vec![
        0, 1, 0, 0, 0, b'k', 1, 0, 0, 0, b'1', //
        1, 1, 0, 0, 0, b'k', 0, 0, 0, 0,
    ];
    assert!(matches!(search_sst(&bytes, "k"), Ok(SstSearchResult::Found(v)) if v == b"1"));
}

#[test]
fn sst_integrity() {
    let good = encode_sst(&sample()).unwrap();
    assert!(validate_sst(&good));
    assert!(validate_sst(&[]));
    // unknown flag
    assert!(!validate_sst(&[7, 1, 0, 0, 0, b'k', 0, 0, 0, 0]));
    // record runs past the end
    assert!(!validate_sst(&good[..good.len() - 1]));
    // value length beyond the file
    assert!(!validate_sst(&[0, 1, 0, 0, 0, b'k', 9, 0, 0, 0, b'v']));
    // a tombstone must not carry a value
    assert!(!validate_sst(&[1, 1, 0, 0, 0, b'k', 1, 0, 0, 0, b'v']));
    // key longer than 1 MiB
    let mut big = vec![0u8, 0x01, 0x00, 0x10, 0x00];
    big.extend(vec![b'k'; 1024 * 1024 + 1]);
    big.extend([0, 0, 0, 0]);
    assert!(!validate_sst(&big));
    // a table that is damaged anywhere answers no lookup
    let mut damaged = good.clone();
    damaged.push(9);
    assert_eq!(search_sst(&damaged, "a").err(), Some(IoErrorKind::InvalidData));
    assert!(parse_sst_bytes(&damaged).is_none());
}

#[test]
fn sst_builder_and_reader() {
    let mut storage = MemoryStorage::new();
    let builder = SstBuilder::new(&mut storage, "db/a.sst").unwrap();
    builder.build(&mut storage, &sample()).unwrap();
    assert_eq!(SstBuilder::<MemoryStorage>::size_of(&storage, "db/a.sst"), Ok(34));

    let reader = SstReader::open(&storage, "db/a.sst").unwrap();
    assert_eq!(reader.file_path(), "db/a.sst");
    assert!(matches!(reader.get(&storage, "b"), Ok(SstSearchResult::Found(v)) if v == b"two"));
    assert!(matches!(reader.get(&storage, "c"), Ok(SstSearchResult::Deleted)));
    assert!(matches!(reader.get(&storage, "zz"), Ok(SstSearchResult::NotFound)));
    assert!(reader.validate_integrity(&storage).is_ok());
    assert_eq!(reader.entries(&storage).unwrap().len(), 3);

    assert_eq!(
        SstReader::open(&storage, "db/none.sst").err(),
        Some(IoErrorKind::NotFound)
    );
    storage.remove_file("db/a.sst").unwrap();
    assert_eq!(reader.get(&storage, "b").err(), Some(IoErrorKind::NotFound));
}

#[test]
fn memory_file_read_write_seek() {
    let mut storage = MemoryStorage::new();
    assert!(!storage.file_exists("f"));
    assert_eq!(storage.open("f").err(), Some(IoErrorKind::NotFound));
    let mut file = storage.create("f").unwrap();
    assert!(storage.file_exists("f"));
    assert_eq!(storage.write(&mut file, b"hello world"), Ok(11));
    assert_eq!(file.position(), 11);

    assert_eq!(storage.seek(&mut file, SeekFrom::Start(6)), Ok(6));
    assert_eq!(storage.read(&mut file_clone(&storage), 5).unwrap(), b"hello".to_vec());
    assert_eq!(storage.read(&mut file, 3).unwrap(), b"wor".to_vec());
    assert_eq!(storage.read(&mut file, 10).unwrap(), b"ld".to_vec());
    assert_eq!(storage.read(&mut file, 10).unwrap(), Vec::<u8>::new());

    assert_eq!(storage.seek(&mut file, SeekFrom::End(-5)), Ok(6));
    assert_eq!(storage.seek(&mut file, SeekFrom::Current(-6)), Ok(0));
    assert_eq!(
        storage.seek(&mut file, SeekFrom::Current(-1)),
        Err(IoErrorKind::InvalidInput)
    );
    assert_eq!(
        storage.seek(&mut file, SeekFrom::End(-12)),
        Err(IoErrorKind::InvalidInput)
    );
    assert_eq!(file.position(), 0);
    assert_eq!(storage.seek(&mut file, SeekFrom::End(3)), Ok(14));
    assert_eq!(storage.seek(&mut file, SeekFrom::Current(i64::MAX)), Ok(14 + i64::MAX as u64));
    assert_eq!(
        storage.seek(&mut file, SeekFrom::Current(i64::MAX)),
        Err(IoErrorKind::InvalidInput)
    );
    assert_eq!(file.position(), 14 + i64::MAX as u64);

    // overwrite in the middle
    storage.seek(&mut file, SeekFrom::Start(0)).unwrap();
    storage.write(&mut file, b"HELLO").unwrap();
    // write beyond the end fills the gap with zeros
    storage.seek(&mut file, SeekFrom::Start(13)).unwrap();
    storage.write(&mut file, b"!").unwrap();
    storage.seek(&mut file, SeekFrom::Start(0)).unwrap();
    assert_eq!(
        read_to_end(&storage, &mut file).unwrap(),
        b"HELLO world\0\0!".to_vec()
    );

    storage.set_len(&file, 5).unwrap();
    storage.seek(&mut file, SeekFrom::Start(0)).unwrap();
    assert_eq!(read_to_end(&storage, &mut file).unwrap(), b"HELLO".to_vec());
    storage.set_len(&file, 7).unwrap();
    storage.seek(&mut file, SeekFrom::Start(0)).unwrap();
    assert_eq!(read_to_end(&storage, &mut file).unwrap(), b"HELLO\0\0".to_vec());
    assert!(storage.sync_all(&file).is_ok());
}

fn file_clone(storage: &MemoryStorage) -> firelocal_core::store::io::MemFile {
    storage.open("f").unwrap()
}

#[test]
fn memory_storage_files() {
    let mut storage = MemoryStorage::new();
    let mut a = storage.create("d/a").unwrap();
    write_all(&mut storage, &mut a, b"A").unwrap();
    storage.create("d/b").unwrap();
    let mut names: Vec<String> = storage
        .read_dir("d")
        .unwrap()
        .into_iter()
        .map(|(p, _)| p)
        .collect();
    names.sort();
    assert_eq!(names, vec!["d/a", "d/b"]);

    storage.rename("d/a", "d/c").unwrap();
    assert!(!storage.file_exists("d/a"));
    let mut c = storage.open("d/c").unwrap();
    assert_eq!(read_to_end(&storage, &mut c).unwrap(), b"A".to_vec());
    assert_eq!(storage.rename("d/a", "d/x"), Err(IoErrorKind::NotFound));

    // create empties a file that is there
    storage.create("d/c").unwrap();
    let mut c = storage.open("d/c").unwrap();
    assert_eq!(read_to_end(&storage, &mut c).unwrap(), Vec::<u8>::new());

    assert!(storage.remove_file("d/c").is_ok());
    assert!(storage.remove_file("d/c").is_ok());
    assert!(storage.create_dir_all("d/e/f").is_ok());
    // a handle on a removed file fails
    assert_eq!(storage.write(&mut c, b"x"), Err(IoErrorKind::NotFound));
    assert_eq!(storage.read(&mut c, 1), Err(IoErrorKind::NotFound));
    assert_eq!(
        storage.seek(&mut c, SeekFrom::Start(0)),
        Err(IoErrorKind::NotFound)
    );
}

#[test]
fn memory_storage_locks() {
    let mut storage = MemoryStorage::new();
    let lock = storage.try_lock_exclusive("db/wal.log").unwrap().unwrap();
    assert_eq!(lock.lock_file(), "db/wal.lock");
    assert!(storage.file_exists("db/wal.lock"));
    assert!(storage.try_lock_exclusive("db/wal.log").unwrap().is_none());
    assert!(storage.lock_exclusive("db/wal.log").is_ok());
}

#[test]
fn path_helpers() {
    assert_eq!(join_path("db", "wal.log"), "db/wal.log");
    assert_eq!(replace_extension("db/wal.log", "lock"), "db/wal.lock");
    assert_eq!(replace_extension("db/wal", "lock"), "db/wal.lock");
    assert_eq!(replace_extension("d.b/wal", "lock"), "d.b/wal.lock");
    assert_eq!(replace_extension("db/.hidden", "lock"), "db/.hidden.lock");
    assert_eq!(replace_extension("a.b.c", "d"), "a.b.d");
    assert!(has_extension("db/x.sst", "sst"));
    assert!(has_extension("x.y.sst", "sst"));
    assert!(!has_extension("db/x.sst", "ss"));
    assert!(!has_extension("db/x.sstx", "sst"));
    assert!(!has_extension("db/.sst", "sst"));
    assert!(!has_extension("d.sst/x", "sst"));
    assert!(!has_extension("sst", "sst"));
}

fn write_table(storage: &mut MemoryStorage, path: &str, table: &Memtable) {
    let builder = SstBuilder::new(storage, path).unwrap();
    builder.build(storage, table).unwrap();
}

#[test]
fn discover_lists_tables_only() {
    let mut storage = MemoryStorage::new();
    write_table(&mut storage, "db/one.sst", &sample());
    storage.create("db/wal.log").unwrap();
    storage.create("db/notes.txt").unwrap();
    write_table(&mut storage, "db/two.sst", &sample());
    let listing = discover_tables(&storage, "db").unwrap();
    let mut names: Vec<String> = listing.iter().map(|(p, _)| p.clone()).collect();
    names.sort();
    assert_eq!(names, vec!["db/one.sst", "db/two.sst"]);
    assert!(listing[0].1 >= listing[1].1);
}

#[test]
fn merge_takes_the_newest_entry_for_each_key() {
    let newest = vec![
        ("a".to_string(), Entry::Delete),
        ("c".to_string(), Entry::Put(b"new".to_vec())),
    ];
    let oldest = vec![
        ("a".to_string(), Entry::Put(b"old".to_vec())),
        ("b".to_string(), Entry::Put(b"kept".to_vec())),
        ("c".to_string(), Entry::Put(b"old".to_vec())),
    ];
    let merged = Compactor::merge_sst_files(&vec![Some(newest), None, Some(oldest)]);
    assert_eq!(merged.len(), 3);
    assert!(matches!(merged.entry("a"), Some(Entry::Delete)));
    assert_eq!(merged.get("b"), Some(&b"kept"[..]));
    assert_eq!(merged.get("c"), Some(&b"new"[..]));

    let live = Compactor::live_entries(&merged);
    assert_eq!(live.len(), 2);
    assert!(live.entry("a").is_none());
    assert_eq!(live.get("c"), Some(&b"new"[..]));
}

#[test]
fn compactor_replaces_the_tables() {
    let mut storage = MemoryStorage::new();
    let mut old = Memtable::new();
    old.put("a".to_string(), b"1".to_vec());
    old.put("b".to_string(), b"2".to_vec());
    write_table(&mut storage, "db/old.sst", &old);
    let mut new = Memtable::new();
    new.delete("a".to_string());
    write_table(&mut storage, "db/new.sst", &new);
    storage.create("db/wal.log").unwrap();

    // the newest first
    let listing = vec![("db/new.sst".to_string(), 2), ("db/old.sst".to_string(), 1)];
    let compactor = Compactor::new("db".to_string());
    let stats = compactor.compact_listing(&mut storage, &listing).unwrap();
    assert_eq!(stats.files_before, 2);
    assert_eq!(stats.files_after, 1);
    assert_eq!(stats.entries_before, 2);
    assert_eq!(stats.entries_after, 1);
    assert_eq!(stats.tombstones_removed, 1);
    assert_eq!(stats.size_before, 22 + 10);
    assert_eq!(stats.size_after, 11);
    assert_eq!(stats.size_reduction(), 21);
    assert!(!storage.file_exists("db/old.sst"));
    assert!(!storage.file_exists("db/new.sst"));
    assert!(storage.file_exists("db/wal.log"));
    let reader = SstReader::open(&storage, "db/compacted.sst").unwrap();
    assert!(matches!(reader.get(&storage, "a"), Ok(SstSearchResult::NotFound)));
    assert!(matches!(reader.get(&storage, "b"), Ok(SstSearchResult::Found(v)) if v == b"2"));
}

#[test]
fn compactor_leaves_nothing_where_only_tombstones_were() {
    let mut storage = MemoryStorage::new();
    let mut t = Memtable::new();
    t.delete("a".to_string());
    write_table(&mut storage, "db/compacted.sst", &t);
    let compactor = Compactor::new("db".to_string());
    let stats = compactor.compact(&mut storage).unwrap();
    assert_eq!(stats.files_before, 1);
    assert_eq!(stats.files_after, 0);
    assert_eq!(stats.entries_before, 1);
    assert_eq!(stats.entries_after, 0);
    assert_eq!(stats.size_after, 0);
    assert!(!storage.file_exists("db/compacted.sst"));

    let stats = compactor.compact(&mut storage).unwrap();
    assert_eq!(stats.files_before, 0);
    assert_eq!(stats.size_reduction(), 0);
}

#[test]
fn compaction_is_idempotent() {
    let mut storage = MemoryStorage::new();
    write_table(&mut storage, "db/t.sst", &sample());
    let compactor = Compactor::new("db".to_string());
    compactor.compact(&mut storage).unwrap();
    let mut f = storage.open("db/compacted.sst").unwrap();
    let first = read_to_end(&storage, &mut f).unwrap();
    compactor.compact(&mut storage).unwrap();
    let mut f = storage.open("db/compacted.sst").unwrap();
    let second = read_to_end(&storage, &mut f).unwrap();
    assert_eq!(first, second);
    assert_eq!(
        first,
        vec![0, 1, 0, 0, 0, b'a', 1, 0, 0, 0, b'1', 0, 1, 0, 0, 0, b'b', 3, 0, 0, 0, b't', b'w', b'o']
    );
}

#[test]
fn size_reduction_is_never_negative() {
    let stats = CompactionStats {
        size_before: 10,
        size_after: 25,
        ..Default::default()
    };
    assert_eq!(stats.size_reduction(), 0);
}

#[test]
fn keys_that_are_not_utf8_are_read_with_replacement_characters() {
    // a put of "v" under the key bytes ff 61
    let record = [0u8, 2, 0, 0, 0, 0xFF, b'a', 1, 0, 0, 0, b'v'];
    let entry = decode_record_bytes(&record).unwrap();
    assert_eq!(entry.key, "\u{FFFD}a");
    assert_eq!(entry.value, Some(b"v".to_vec()));

    let entries = parse_sst_bytes(&record).unwrap();
    assert_eq!(entries.len(), 1);
    assert_eq!(entries[0].0, "\u{FFFD}a");
    assert!(matches!(
        search_sst(&record, "\u{FFFD}a"),
        Ok(SstSearchResult::Found(_))
    ));
}

#[test]
fn tables_are_listed_the_newest_first() {
    let entries = vec![
        ("db/a.sst".to_string(), 5u64),
        ("db/wal.log".to_string(), 9),
        ("db/b.sst".to_string(), 7),
        ("db/notes.txt".to_string(), 8),
        ("db/c.sst".to_string(), 5),
        ("db/sst".to_string(), 10),
        ("db/d.sst".to_string(), 1),
    ];
    assert_eq!(
        newest_tables(&entries),
        vec![
            ("db/b.sst".to_string(), 7),
            ("db/a.sst".to_string(), 5),
            ("db/c.sst".to_string(), 5),
            ("db/d.sst".to_string(), 1),
        ]
    );
    assert_eq!(newest_tables(&Vec::new()), Vec::new());
}

#[test]
fn storage_failures_are_named_in_the_message() {
    let e = io_error("flush", IoErrorKind::NotFound);
    assert_eq!(e.message_text(), "flush: not found");
    let e = io_error("compact", IoErrorKind::WriteZero);
    assert_eq!(e.message_text(), "compact: failed to write whole buffer");
    assert_eq!(
        io_error("", IoErrorKind::Other).to_string(),
        "I/O Error: : other error"
    );
}

#[test]
fn compaction_counts_the_bytes_before_and_after() {
    let mut storage = MemoryStorage::new();
    let mut first = Memtable::new();
    first.put("a".to_string(), b"1".to_vec());
    first.put("b".to_string(), b"22".to_vec());
    let mut second = Memtable::new();
    second.delete("a".to_string());
    let one = encode_sst(&first).unwrap();
    let two = encode_sst(&second).unwrap();
    for (path, bytes) in [("db/1.sst", &one), ("db/2.sst", &two)] {
        let builder = SstBuilder::new(&mut storage, path).unwrap();
        let table = if path == "db/1.sst" { &first } else { &second };
        builder.build(&mut storage, table).unwrap();
        assert_eq!(
            SstBuilder::<MemoryStorage>::size_of(&storage, path).unwrap(),
            bytes.len() as u64
        );
    }
    let stats = Compactor::new("db".to_string())
        .compact(&mut storage)
        .unwrap();
    assert_eq!(stats.size_before, (one.len() + two.len()) as u64);
    // what is left is the record of b: a flag, two lengths, the key, the value
    assert_eq!(stats.size_after, 1 + 4 + 1 + 4 + 2);
    assert_eq!(
        SstBuilder::<MemoryStorage>::size_of(&storage, "db/compacted.sst").unwrap(),
        stats.size_after
    );
    assert!(SstBuilder::<MemoryStorage>::size_of(&storage, "db/1.sst").is_err());
}

#[test]
fn an_empty_buffer_is_always_written() {
    let mut storage = MemoryStorage::new();
    let mut file = storage.create("f").unwrap();
    storage.remove_file("f").unwrap();
    // the file is gone, and nothing is asked of the storage
    assert_eq!(write_all(&mut storage, &mut file, b""), Ok(()));
    assert!(write_all(&mut storage, &mut file, b"x").is_err());
}

#[test]
fn a_log_that_is_there_is_opened_at_its_end() {
    let mut storage = MemoryStorage::new();
    let mut log = WriteAheadLog::open(&mut storage, "db/wal.log").unwrap();
    log.append(&mut storage, b"one").unwrap();
    let mut again = WriteAheadLog::open(&mut storage, "db/wal.log").unwrap();
    again.append(&mut storage, b"two").unwrap();
    let mut it = again.iter(&storage).unwrap();
    assert_eq!(it.next(), Some(Ok(b"one".to_vec())));
    assert_eq!(it.next(), Some(Ok(b"two".to_vec())));
    assert_eq!(it.next(), None);
}
