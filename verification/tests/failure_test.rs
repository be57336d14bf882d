use firelocal_core::store::compaction::Compactor;
use firelocal_core::store::io::{
    read_to_end, FileLock, IoErrorKind, MemFile, MemoryStorage, SeekFrom, Storage,
};
use firelocal_core::store::memtable::Memtable;
use firelocal_core::store::sst::{parse_sst_bytes, SstBuilder};

/// A storage that keeps its files in memory and refuses what it is told to
/// refuse.
struct Flaky {
    inner: MemoryStorage,
    removes_left: usize,
    renames: bool,
    creates: bool,
}

impl Flaky {
    fn new(inner: MemoryStorage) -> Self {
        Flaky {
            inner,
            removes_left: usize::MAX,
            renames: true,
            creates: true,
        }
    }
}

impl Storage for Flaky {
    type File = MemFile;

    fn open(&self, path: &str) -> Result<MemFile, IoErrorKind> {
        self.inner.open(path)
    }

    fn create(&mut self, path: &str) -> Result<MemFile, IoErrorKind> {
        if !self.creates {
            return Err(IoErrorKind::PermissionDenied);
        }
        self.inner.create(path)
    }

    fn remove_file(&mut self, path: &str) -> Result<(), IoErrorKind> {
        if self.removes_left == 0 {
            return Err(IoErrorKind::PermissionDenied);
        }
        self.removes_left -= 1;
        self.inner.remove_file(path)
    }

    fn read_dir(&self, dir: &str) -> Result<Vec<(String, u64)>, IoErrorKind> {
        self.inner.read_dir(dir)
    }

    fn rename(&mut self, from: &str, to: &str) -> Result<(), IoErrorKind> {
        if !self.renames {
            return Err(IoErrorKind::Other);
        }
        self.inner.rename(from, to)
    }

    fn file_exists(&self, path: &str) -> bool {
        self.inner.file_exists(path)
    }

    fn create_dir_all(&mut self, path: &str) -> Result<(), IoErrorKind> {
        self.inner.create_dir_all(path)
    }

    fn lock_exclusive(&mut self, path: &str) -> Result<FileLock, IoErrorKind> {
        self.inner.lock_exclusive(path)
    }

    fn try_lock_exclusive(&mut self, path: &str) -> Result<Option<FileLock>, IoErrorKind> {
        self.inner.try_lock_exclusive(path)
    }

    fn read(&self, file: &mut MemFile, max: usize) -> Result<Vec<u8>, IoErrorKind> {
        self.inner.read(file, max)
    }

    fn write(&mut self, file: &mut MemFile, buf: &[u8]) -> Result<usize, IoErrorKind> {
        self.inner.write(file, buf)
    }

    fn seek(&self, file: &mut MemFile, to: SeekFrom) -> Result<u64, IoErrorKind> {
        self.inner.seek(file, to)
    }

    fn set_len(&mut self, file: &MemFile, size: u64) -> Result<(), IoErrorKind> {
        self.inner.set_len(file, size)
    }

    fn sync_all(&mut self, file: &MemFile) -> Result<(), IoErrorKind> {
        self.inner.sync_all(file)
    }
}

fn bytes_at(storage: &Flaky, path: &str) -> Option<Vec<u8>> {
    let mut file = storage.open(path).ok()?;
    read_to_end(storage, &mut file).ok()
}

fn with_tables() -> Flaky {
    let mut storage = MemoryStorage::new();
    let mut first = Memtable::new();
    first.put("a".to_string(), b"1".to_vec());
    first.put("b".to_string(), b"2".to_vec());
    let mut second = Memtable::new();
    second.delete("a".to_string());
    second.put("c".to_string(), b"3".to_vec());
    // the table of an earlier compaction is one of the inputs
    let builder = SstBuilder::new(&mut storage, "db/compacted.sst").unwrap();
    builder.build(&mut storage, &first).unwrap();
    let builder = SstBuilder::new(&mut storage, "db/2.sst").unwrap();
    builder.build(&mut storage, &second).unwrap();
    let mut file = storage.create("db/notes.txt").unwrap();
    storage.write(&mut file, b"mine").unwrap();
    Flaky::new(storage)
}

#[test]
fn a_compaction_that_cannot_write_leaves_every_table_as_it_was() {
    let mut storage = with_tables();
    let one = bytes_at(&storage, "db/compacted.sst").unwrap();
    let two = bytes_at(&storage, "db/2.sst").unwrap();
    storage.creates = false;
    let failed = Compactor::new("db".to_string()).compact(&mut storage);
    assert!(failed.is_err());
    assert_eq!(bytes_at(&storage, "db/compacted.sst"), Some(one));
    assert_eq!(bytes_at(&storage, "db/2.sst"), Some(two));
    assert_eq!(bytes_at(&storage, "db/notes.txt"), Some(b"mine".to_vec()));
}

#[test]
fn a_compaction_that_cannot_remove_leaves_tables_whole_or_gone() {
    let mut storage = with_tables();
    let one = bytes_at(&storage, "db/compacted.sst").unwrap();
    let two = bytes_at(&storage, "db/2.sst").unwrap();
    storage.removes_left = 1;
    let failed = Compactor::new("db".to_string()).compact(&mut storage);
    assert!(failed.is_err());
    for (path, before) in [("db/compacted.sst", one), ("db/2.sst", two)] {
        let now = bytes_at(&storage, path);
        assert!(now.is_none() || now == Some(before));
    }
    assert_eq!(bytes_at(&storage, "db/notes.txt"), Some(b"mine".to_vec()));
}

#[test]
fn a_compaction_that_cannot_put_the_table_in_place_keeps_it_aside() {
    let mut storage = with_tables();
    storage.renames = false;
    let failed = Compactor::new("db".to_string()).compact(&mut storage);
    assert!(failed.is_err());
    assert_eq!(bytes_at(&storage, "db/compacted.sst"), None);
    assert_eq!(bytes_at(&storage, "db/2.sst"), None);
    let merged = parse_sst_bytes(&bytes_at(&storage, "db/compacted.tmp").unwrap()).unwrap();
    let keys: Vec<&str> = merged.iter().map(|(k, _)| k.as_str()).collect();
    assert_eq!(keys, vec!["b", "c"]);
}

#[test]
fn a_compaction_over_its_own_table_succeeds() {
    let mut storage = with_tables();
    let stats = Compactor::new("db".to_string())
        .compact(&mut storage)
        .unwrap();
    assert_eq!(stats.files_before, 2);
    assert_eq!(stats.files_after, 1);
    assert_eq!(stats.entries_before, 3);
    assert_eq!(stats.entries_after, 2);
    assert_eq!(stats.tombstones_removed, 1);
    assert_eq!(bytes_at(&storage, "db/2.sst"), None);
    assert_eq!(bytes_at(&storage, "db/compacted.tmp"), None);
    let merged = parse_sst_bytes(&bytes_at(&storage, "db/compacted.sst").unwrap()).unwrap();
    let keys: Vec<&str> = merged.iter().map(|(k, _)| k.as_str()).collect();
    assert_eq!(keys, vec!["b", "c"]);
    assert_eq!(bytes_at(&storage, "db/notes.txt"), Some(b"mine".to_vec()));
}
