//! The storage under the store: files that are opened, read, written,
//! listed, renamed and locked. `Storage` is the interface that the store is
//! written against; `MemoryStorage` keeps the files in memory.

use crate::collections::StringMap;
use crate::text::{chars_of, string_of};
use vstd::prelude::*;
use vstd::slice::{slice_subrange, slice_to_vec};

verus! {

/// Why a storage operation failed.
#[derive(Clone, Copy, Debug, PartialEq, Eq, Structural)]
pub enum IoErrorKind {
    NotFound,
    PermissionDenied,
    InvalidData,
    InvalidInput,
    WouldBlock,
    UnexpectedEof,
    WriteZero,
    ConnectionAborted,
    Other,
}

/// Where a seek goes: counted from the start of the file, from its end, or
/// from the current position.
#[derive(Clone, Copy, Debug, PartialEq, Eq, Structural)]
pub enum SeekFrom {
    Start(u64),
    End(i64),
    Current(i64),
}

/// A file as plain values: what it holds and when it was last written.
pub struct FileModel {
    pub content: Seq<u8>,
    pub mtime: u64,
}

/// The position that a seek leads to in a file of `len` bytes read at
/// `pos`, or `None` where it would lie before the start or beyond what a
/// `u64` can hold.
pub open spec fn seek_target(len: nat, pos: nat, to: SeekFrom) -> Option<nat> {
    let target: int = match to {
        SeekFrom::Start(p) => p as int,
        SeekFrom::End(p) => len + p,
        SeekFrom::Current(p) => pos + p,
    };
    if 0 <= target <= u64::MAX {
        Some(target as nat)
    } else {
        None
    }
}

/// What a file holds after `data` was written at `pos`: the bytes under
/// `data` are replaced, and a gap between the old end and `pos` is filled
/// with zeros.
pub open spec fn written(content: Seq<u8>, pos: nat, data: Seq<u8>) -> Seq<u8> {
    let end = pos + data.len();
    let len = if end > content.len() {
        end
    } else {
        content.len()
    };
    Seq::new(
        len,
        |i: int|
            if pos <= i < end {
                data[i - pos]
            } else if i < content.len() {
                content[i]
            } else {
                0u8
            },
    )
}

/// What a file holds after its length was set to `size`: cut short, or
/// extended with zeros.
pub open spec fn resized(content: Seq<u8>, size: nat) -> Seq<u8> {
    Seq::new(
        size,
        |i: int|
            if i < content.len() {
                content[i]
            } else {
                0u8
            },
    )
}

/// Writing at the end of a file appends.
pub proof fn lemma_written_at_end(content: Seq<u8>, data: Seq<u8>)
    ensures
        written(content, content.len(), data) == content + data,
{
    assert(written(content, content.len(), data) =~= content + data);
}

/// The position of the last `c` in `s`, or -1 where there is none.
pub open spec fn last_index_of(s: Seq<char>, c: char) -> int
    decreases s.len(),
{
    if s.len() == 0 {
        -1
    } else if s.last() == c {
        s.len() - 1
    } else {
        last_index_of(s.drop_last(), c)
    }
}

/// The position of the dot that begins a path's extension: the last dot of
/// the file name, unless the file name begins with it.
pub open spec fn extension_dot(path: Seq<char>) -> Option<int> {
    let name_start = last_index_of(path, '/') + 1;
    let dot = last_index_of(path, '.');
    if dot > name_start {
        Some(dot)
    } else {
        None
    }
}

/// A path's extension: what follows the last dot of its file name.
pub open spec fn extension_of(path: Seq<char>) -> Option<Seq<char>> {
    match extension_dot(path) {
        Some(dot) => Some(path.skip(dot + 1)),
        None => None,
    }
}

/// The path with its extension replaced by `ext`, or with `ext` added where
/// it had none.
pub open spec fn with_extension(path: Seq<char>, ext: Seq<char>) -> Seq<char> {
    match extension_dot(path) {
        Some(dot) => path.take(dot) + seq!['.'] + ext,
        None => path + seq!['.'] + ext,
    }
}

/// The path of `name` inside the directory `dir`.
pub open spec fn joined(dir: Seq<char>, name: Seq<char>) -> Seq<char> {
    dir + seq!['/'] + name
}

/// The position of the last `c` in `s`.
fn find_last(s: &Vec<char>, c: char) -> (r: Option<usize>)
    ensures
        match r {
            Some(i) => i as int == last_index_of(s@, c) && i < s.len(),
            None => last_index_of(s@, c) == -1,
        },
{
    let mut i: usize = s.len();
    assert(s@.take(i as int) =~= s@);
    while i > 0
        invariant
            i <= s.len(),
            last_index_of(s@, c) == last_index_of(s@.take(i as int), c),
        decreases i,
    {
        assert(s@.take(i as int).last() == s@[i - 1]);
        assert(s@.take(i as int).drop_last() =~= s@.take(i - 1));
        if s[i - 1] == c {
            return Some(i - 1);
        }
        i = i - 1;
    }
    assert(s@.take(0).len() == 0);
    None
}

/// Where the extension of `path` begins, if it has one.
fn find_extension_dot(path: &Vec<char>) -> (r: Option<usize>)
    ensures
        match r {
            Some(i) => extension_dot(path@) == Some(i as int) && i < path.len(),
            None => extension_dot(path@) is None,
        },
{
    let name_start: usize = match find_last(path, '/') {
        Some(i) => i + 1,
        None => 0,
    };
    match find_last(path, '.') {
        Some(dot) => if dot > name_start {
            Some(dot)
        } else {
            None
        },
        None => None,
    }
}

/// Whether the extension of `path` is `ext`.
pub fn has_extension(path: &str, ext: &str) -> (r: bool)
    ensures
        r == (extension_of(path@) == Some(ext@)),
{
    let p = chars_of(path);
    let e = chars_of(ext);
    match find_extension_dot(&p) {
        Some(dot) => {
            let n = p.len() - (dot + 1);
            if n != e.len() {
                return false;
            }
            let mut i: usize = 0;
            while i < n
                invariant
                    i <= n,
                    n == e.len(),
                    n == p.len() - (dot + 1),
                    dot < p.len(),
                    p@ == path@,
                    e@ == ext@,
                    extension_dot(path@) == Some(dot as int),
                    forall|j: int| 0 <= j < i ==> p@[dot + 1 + j] == e@[j],
                decreases n - i,
            {
                if p[dot + 1 + i] != e[i] {
                    proof {
                        let tail = p@.skip(dot + 1);
                        assert(tail[i as int] == p@[dot + 1 + i]);
                        assert(tail != e@);
                    }
                    return false;
                }
                i = i + 1;
            }
            assert(p@.skip(dot + 1) =~= e@);
            true
        },
        None => false,
    }
}

/// The path with its extension replaced by `ext`.
pub fn replace_extension(path: &str, ext: &str) -> (r: String)
    ensures
        r@ == with_extension(path@, ext@),
{
    let p = chars_of(path);
    let e = chars_of(ext);
    let keep = match find_extension_dot(&p) {
        Some(dot) => dot,
        None => p.len(),
    };
    let mut out: Vec<char> = Vec::new();
    let mut i: usize = 0;
    while i < keep
        invariant
            i <= keep <= p.len(),
            out@ == p@.take(i as int),
        decreases keep - i,
    {
        out.push(p[i]);
        assert(p@.take(i + 1) =~= p@.take(i as int).push(p@[i as int]));
        i = i + 1;
    }
    out.push('.');
    let mut j: usize = 0;
    while j < e.len()
        invariant
            j <= e.len(),
            out@ == p@.take(keep as int) + seq!['.'] + e@.take(j as int),
        decreases e.len() - j,
    {
        out.push(e[j]);
        assert(e@.take(j + 1) =~= e@.take(j as int).push(e@[j as int]));
        j = j + 1;
    }
    assert(e@.take(e.len() as int) =~= e@);
    assert(p@.take(p.len() as int) =~= p@);
    string_of(out.as_slice())
}

/// The path of `name` inside the directory `dir`.
pub fn join_path(dir: &str, name: &str) -> (r: String)
    ensures
        r@ == joined(dir@, name@),
{
    let mut out = chars_of(dir);
    out.push('/');
    let mut n = chars_of(name);
    out.append(&mut n);
    string_of(out.as_slice())
}

/// Whether two sets of files differ at most in the file at `path`.
pub open spec fn same_except(
    a: Map<Seq<char>, FileModel>,
    b: Map<Seq<char>, FileModel>,
    path: Seq<char>,
) -> bool {
    a.remove(path) == b.remove(path)
}

/// The file next to `path` whose presence marks `path` as locked.
pub open spec fn lock_path_of(path: Seq<char>) -> Seq<char> {
    with_extension(path, "lock"@)
}

/// An exclusive lock on a file, held for as long as this value lives.
pub struct FileLock {
    path: String,
}

impl FileLock {
    /// The lock file that stands for the lock.
    pub closed spec fn path(&self) -> Seq<char> {
        self.path@
    }

    /// A lock that `lock_file` stands for.
    pub fn new(lock_file: String) -> (r: Self)
        ensures
            r.path() == lock_file@,
    {
        FileLock { path: lock_file }
    }

    /// The lock file that stands for the lock.
    pub fn lock_file(&self) -> (r: &String)
        ensures
            r@ == self.path(),
    {
        &self.path
    }
}

/// File system operations. A file handle is a cursor into a file of the
/// storage; every read and write goes through the storage itself.
pub trait Storage: Sized {
    /// A handle on an open file: the file's path and a position in it.
    type File;

    /// The storage's invariant.
    open spec fn wf(&self) -> bool {
        arbitrary()
    }

    /// The files that the storage holds, by path.
    open spec fn files(&self) -> Map<Seq<char>, FileModel> {
        arbitrary()
    }

    /// The path of the file that a handle is open on.
    open spec fn path_of(file: &Self::File) -> Seq<char> {
        arbitrary()
    }

    /// The position at which a handle reads and writes next.
    open spec fn pos_of(file: &Self::File) -> nat {
        arbitrary()
    }

    /// Whether a listing of `dir` shows the file at `path`.
    open spec fn lists(dir: Seq<char>, path: Seq<char>) -> bool {
        arbitrary()
    }

    /// Whether reading never fails: a storage of which this holds opens,
    /// reads and seeks in every file that it holds.
    open spec fn reliable(&self) -> bool {
        arbitrary()
    }

    /// Opens an existing file for reading and writing, at its start.
    fn open(&self, path: &str) -> (r: Result<Self::File, IoErrorKind>)
        requires
            self.wf(),
        ensures
            match r {
                Ok(file) => self.files().contains_key(path@) && Self::path_of(&file) == path@
                    && Self::pos_of(&file) == 0,
                Err(_) => !(self.reliable() && self.files().contains_key(path@)),
            },
    ;

    /// Creates a file, or empties the one that is there, and opens it.
    fn create(&mut self, path: &str) -> (r: Result<Self::File, IoErrorKind>)
        requires
            old(self).wf(),
        ensures
            final(self).wf(),
            final(self).reliable() == old(self).reliable(),
            match r {
                Ok(file) => final(self).files().contains_key(path@) && final(self).files()[path@].content
                    == Seq::<u8>::empty() && same_except(
                    old(self).files(),
                    final(self).files(),
                    path@,
                ) && Self::path_of(&file) == path@ && Self::pos_of(&file) == 0,
                Err(_) => final(self).files() == old(self).files(),
            },
    ;

    /// Removes a file.
    fn remove_file(&mut self, path: &str) -> (r: Result<(), IoErrorKind>)
        requires
            old(self).wf(),
        ensures
            final(self).wf(),
            final(self).reliable() == old(self).reliable(),
            match r {
                Ok(_) => final(self).files() == old(self).files().remove(path@),
                Err(_) => final(self).files() == old(self).files(),
            },
    ;

    /// Lists a directory: each file's path with the time of its last change,
    /// in no particular order.
    fn read_dir(&self, dir: &str) -> (r: Result<Vec<(String, u64)>, IoErrorKind>)
        requires
            self.wf(),
        ensures
            r matches Ok(entries) ==> forall|i: int, j: int|
                0 <= i < j < entries@.len() ==> (#[trigger] entries@[i]).0@ != (
                #[trigger] entries@[j]).0@,
            r matches Ok(entries) ==> forall|i: int|
                0 <= i < entries@.len() ==> self.files().contains_key((#[trigger] entries@[i]).0@)
                    && Self::lists(dir@, entries@[i].0@) && self.files()[entries@[i].0@].mtime
                    == entries@[i].1,
            r matches Ok(entries) ==> forall|p: Seq<char>|
                self.files().contains_key(p) && Self::lists(dir@, p) ==> exists|i: int|
                    0 <= i < entries@.len() && (#[trigger] entries@[i]).0@ == p,
    ;

    /// Gives the file at `from` the path `to`, over a file that may be there.
    fn rename(&mut self, from: &str, to: &str) -> (r: Result<(), IoErrorKind>)
        requires
            old(self).wf(),
        ensures
            final(self).wf(),
            final(self).reliable() == old(self).reliable(),
            match r {
                Ok(_) => old(self).files().contains_key(from@) && final(self).files() == old(self).files().remove(from@).insert(to@, old(self).files()[from@]),
                Err(_) => final(self).files() == old(self).files(),
            },
    ;

    /// Whether a file stands at `path`.
    fn file_exists(&self, path: &str) -> (r: bool)
        requires
            self.wf(),
        ensures
            r == self.files().contains_key(path@),
    ;

    /// Makes sure that the directory `path` and its parents exist.
    fn create_dir_all(&mut self, path: &str) -> (r: Result<(), IoErrorKind>)
        requires
            old(self).wf(),
        ensures
            final(self).wf(),
            final(self).reliable() == old(self).reliable(),
            final(self).files() == old(self).files(),
    ;

    /// Takes the exclusive lock on `path`, waiting for it where that is
    /// possible. The lock is marked by a lock file next to `path`.
    fn lock_exclusive(&mut self, path: &str) -> (r: Result<FileLock, IoErrorKind>)
        requires
            old(self).wf(),
        ensures
            final(self).wf(),
            final(self).reliable() == old(self).reliable(),
            same_except(old(self).files(), final(self).files(), lock_path_of(path@)),
            match r {
                Ok(lock) => lock.path() == lock_path_of(path@) && final(self).files().contains_key(
                    lock_path_of(path@),
                ),
                Err(_) => true,
            },
    ;

    /// Takes the exclusive lock on `path` if it is free, and returns `None`
    /// if another holder has it.
    fn try_lock_exclusive(&mut self, path: &str) -> (r: Result<Option<FileLock>, IoErrorKind>)
        requires
            old(self).wf(),
        ensures
            final(self).wf(),
            final(self).reliable() == old(self).reliable(),
            same_except(old(self).files(), final(self).files(), lock_path_of(path@)),
            match r {
                Ok(Some(lock)) => lock.path() == lock_path_of(path@) && final(self).files().contains_key(lock_path_of(path@)),
                Ok(None) => final(self).files() == old(self).files(),
                Err(_) => true,
            },
    ;

    /// Reads up to `max` bytes at the handle's position and moves the handle
    /// past them. Nothing is returned only at the end of the file, or where
    /// `max` is zero.
    fn read(&self, file: &mut Self::File, max: usize) -> (r: Result<Vec<u8>, IoErrorKind>)
        requires
            self.wf(),
        ensures
            Self::path_of(final(file)) == Self::path_of(old(file)),
            match r {
                Ok(bytes) => {
                    let path = Self::path_of(old(file));
                    let pos = Self::pos_of(old(file));
                    &&& self.files().contains_key(path)
                    &&& bytes@.len() <= max
                    &&& Self::pos_of(final(file)) == pos + bytes@.len()
                    &&& pos + bytes@.len() <= self.files()[path].content.len() || bytes@.len() == 0
                    &&& bytes@.len() > 0 ==> bytes@ == self.files()[path].content.subrange(
                        pos as int,
                        pos as int + bytes@.len(),
                    )
                    &&& bytes@.len() == 0 ==> max == 0 || pos >= self.files()[path].content.len()
                },
                Err(_) => Self::pos_of(final(file)) == Self::pos_of(old(file)) && !(self.reliable()
                    && self.files().contains_key(Self::path_of(old(file)))),
            },
    ;

    /// Writes bytes of `buf` at the handle's position, moves the handle past
    /// them, and returns how many were written.
    fn write(&mut self, file: &mut Self::File, buf: &[u8]) -> (r: Result<usize, IoErrorKind>)
        requires
            old(self).wf(),
        ensures
            final(self).wf(),
            final(self).reliable() == old(self).reliable(),
            Self::path_of(final(file)) == Self::path_of(old(file)),
            same_except(old(self).files(), final(self).files(), Self::path_of(old(file))),
            final(self).files().contains_key(Self::path_of(old(file))) == old(self).files().contains_key(Self::path_of(old(file))),
            match r {
                Ok(n) => {
                    let path = Self::path_of(old(file));
                    let pos = Self::pos_of(old(file));
                    &&& old(self).files().contains_key(path)
                    &&& n <= buf@.len()
                    &&& Self::pos_of(final(file)) == pos + n
                    &&& n > 0 ==> final(self).files()[path].content == written(
                        old(self).files()[path].content,
                        pos,
                        buf@.take(n as int),
                    )
                    &&& n == 0 ==> final(self).files()[path].content == old(self).files()[path].content || final(self).files()[path].content == written(
                        old(self).files()[path].content,
                        pos,
                        Seq::<u8>::empty(),
                    )
                },
                Err(_) => Self::pos_of(final(file)) == Self::pos_of(old(file)),
            },
    ;

    /// Moves the handle and returns its new position.
    fn seek(&self, file: &mut Self::File, to: SeekFrom) -> (r: Result<u64, IoErrorKind>)
        requires
            self.wf(),
        ensures
            Self::path_of(final(file)) == Self::path_of(old(file)),
            match r {
                Ok(p) => {
                    let path = Self::path_of(old(file));
                    &&& self.files().contains_key(path)
                    &&& seek_target(
                        self.files()[path].content.len(),
                        Self::pos_of(old(file)),
                        to,
                    ) == Some(p as nat)
                    &&& Self::pos_of(final(file)) == p
                },
                Err(_) => Self::pos_of(final(file)) == Self::pos_of(old(file)) && !(self.reliable()
                    && self.files().contains_key(Self::path_of(old(file))) && seek_target(
                    self.files()[Self::path_of(old(file))].content.len(),
                    Self::pos_of(old(file)),
                    to,
                ) is Some),
            },
    ;

    /// Cuts the file short at `size` bytes, or extends it with zeros.
    fn set_len(&mut self, file: &Self::File, size: u64) -> (r: Result<(), IoErrorKind>)
        requires
            old(self).wf(),
        ensures
            final(self).wf(),
            final(self).reliable() == old(self).reliable(),
            same_except(old(self).files(), final(self).files(), Self::path_of(file)),
            final(self).files().contains_key(Self::path_of(file)) == old(self).files().contains_key(Self::path_of(file)),
            match r {
                Ok(_) => old(self).files().contains_key(Self::path_of(file)) && final(self).files()[Self::path_of(file)].content == resized(
                    old(self).files()[Self::path_of(file)].content,
                    size as nat,
                ),
                Err(_) => true,
            },
    ;

    /// Returns once what was written to the file is durable.
    fn sync_all(&mut self, file: &Self::File) -> (r: Result<(), IoErrorKind>)
        requires
            old(self).wf(),
        ensures
            final(self).wf(),
            final(self).reliable() == old(self).reliable(),
            final(self).files() == old(self).files(),
    ;
}

/// A point in time of the machine's clock.
#[verifier::external_type_specification]
#[verifier::external_body]
pub struct ExSystemTime(std::time::SystemTime);

/// `SystemTime::now`: the time of the machine's clock. Nothing is known of
/// it.
#[verifier::external_body]
fn system_now() -> std::time::SystemTime {
    std::time::SystemTime::now()
}

/// `SystemTime::duration_since` the Unix epoch: the time that has passed
/// since then, or `None` for a time before it. Nothing is known of it.
#[verifier::external_body]
fn since_epoch(time: &std::time::SystemTime) -> Option<std::time::Duration> {
    time.duration_since(std::time::UNIX_EPOCH).ok()
}

/// `Duration::as_nanos`: a span of time in nanoseconds. Nothing is known
/// of it.
#[verifier::external_body]
fn duration_nanos(span: &std::time::Duration) -> u128 {
    span.as_nanos()
}

/// The time of the machine's clock in nanoseconds since the Unix epoch: 0
/// for a clock that stands before it, and the largest `u64` for one that
/// stands beyond what a `u64` holds.
pub(crate) fn now_nanos() -> u64 {
    let now = system_now();
    match since_epoch(&now) {
        Some(span) => {
            let nanos: u128 = duration_nanos(&span);
            let most: u128 = 18446744073709551615;
            if nanos > most {
                u64::MAX
            } else {
                nanos as u64
            }
        },
        None => 0,
    }
}

/// A file of the in-memory storage.
struct MemFileData {
    content: Vec<u8>,
    mtime: u64,
}

/// A handle on a file of the in-memory storage.
pub struct MemFile {
    path: String,
    pos: u64,
}

impl MemFile {
    /// The path of the file that the handle is open on.
    pub closed spec fn path(&self) -> Seq<char> {
        self.path@
    }

    /// The position at which the handle reads and writes next.
    pub closed spec fn pos(&self) -> nat {
        self.pos as nat
    }

    /// The position at which the handle reads and writes next.
    pub fn position(&self) -> (r: u64)
        ensures
            r == self.pos(),
    {
        self.pos
    }
}

/// Storage that keeps its files in memory.
pub struct MemoryStorage {
    fs: StringMap<MemFileData>,
}

impl MemoryStorage {
    /// A storage without files.
    pub fn new() -> (r: Self)
        ensures
            r.wf(),
            r.files() == Map::<Seq<char>, FileModel>::empty(),
    {
        let r = MemoryStorage { fs: StringMap::new() };
        assert(r.files() =~= Map::<Seq<char>, FileModel>::empty());
        r
    }

    /// Puts `data` at `path`, over what may be there.
    fn put_file(&mut self, path: String, data: MemFileData)
        requires
            old(self).wf(),
        ensures
            final(self).wf(),
            final(self).files() == old(self).files().insert(
                path@,
                FileModel { content: data.content@, mtime: data.mtime },
            ),
    {
        let _ = self.fs.insert(path, data);
        assert(self.files() =~= old(self).files().insert(
            path@,
            FileModel { content: data.content@, mtime: data.mtime },
        ));
    }

    /// Takes the file at `path` out of the storage.
    fn take_file(&mut self, path: &str) -> (r: Option<MemFileData>)
        requires
            old(self).wf(),
        ensures
            final(self).wf(),
            final(self).files() == old(self).files().remove(path@),
            match r {
                Some(data) => old(self).files().contains_key(path@) && old(self).files()[path@]
                    == (FileModel { content: data.content@, mtime: data.mtime }),
                None => !old(self).files().contains_key(path@),
            },
    {
        let r = self.fs.remove(path);
        assert(self.files() =~= old(self).files().remove(path@));
        r
    }
}

impl Storage for MemoryStorage {
    type File = MemFile;

    closed spec fn wf(&self) -> bool {
        self.fs.wf()
    }

    closed spec fn files(&self) -> Map<Seq<char>, FileModel> {
        Map::new(
            |p: Seq<char>| self.fs@.contains_key(p),
            |p: Seq<char>| FileModel { content: self.fs@[p].content@, mtime: self.fs@[p].mtime },
        )
    }

    open spec fn path_of(file: &MemFile) -> Seq<char> {
        file.path()
    }

    open spec fn pos_of(file: &MemFile) -> nat {
        file.pos()
    }

    /// Reading from memory does not fail.
    open spec fn reliable(&self) -> bool {
        true
    }

    /// The in-memory storage has no directories: every listing shows every
    /// file.
    open spec fn lists(dir: Seq<char>, path: Seq<char>) -> bool {
        true
    }

    fn open(&self, path: &str) -> (r: Result<MemFile, IoErrorKind>)
        ensures
            r is Err ==> r == Err::<MemFile, IoErrorKind>(IoErrorKind::NotFound)
                && !self.files().contains_key(path@),
    {
        if self.fs.contains_key(path) {
            Ok(MemFile { path: path.to_owned(), pos: 0 })
        } else {
            Err(IoErrorKind::NotFound)
        }
    }

    fn create(&mut self, path: &str) -> (r: Result<MemFile, IoErrorKind>)
        ensures
            r is Ok,
    {
        let data = MemFileData { content: Vec::new(), mtime: now_nanos() };
        self.put_file(path.to_owned(), data);
        assert(old(self).files().remove(path@) =~= self.files().remove(path@));
        Ok(MemFile { path: path.to_owned(), pos: 0 })
    }

    fn remove_file(&mut self, path: &str) -> (r: Result<(), IoErrorKind>)
        ensures
            r is Ok,
    {
        let _ = self.take_file(path);
        Ok(())
    }

    fn read_dir(&self, dir: &str) -> (r: Result<Vec<(String, u64)>, IoErrorKind>)
        ensures
            r is Ok,
    {
        proof {
            self.fs.lemma_view();
        }
        let mut entries: Vec<(String, u64)> = Vec::new();
        let n = self.fs.len();
        let mut i: usize = 0;
        while i < n
            invariant
                self.fs.wf(),
                n == self.fs.order().len(),
                n == self.fs.items().len(),
                i <= n,
                entries@.len() == i,
                forall|j: int|
                    0 <= j < i ==> (#[trigger] entries@[j]).0@ == self.fs.order()[j] && entries@[j].1
                        == self.fs.items()[j].mtime,
            decreases n - i,
        {
            let path = self.fs.key_at(i).clone();
            let mtime = self.fs.value_at(i).mtime;
            entries.push((path, mtime));
            i = i + 1;
        }
        let r: Result<Vec<(String, u64)>, IoErrorKind> = Ok(entries);
        proof {
            self.fs.lemma_view();
            let o = self.fs.order();
            let es = r->Ok_0@;
            assert forall|i: int, j: int| 0 <= i < j < es.len() implies (#[trigger] es[i]).0@ != (
            #[trigger] es[j]).0@ by {
                assert(o[i] != o[j]);
            }
            assert forall|p: Seq<char>|
                self.files().contains_key(p) && Self::lists(dir@, p) implies exists|i: int|
                0 <= i < es.len() && (#[trigger] es[i]).0@ == p by {
                assert(self.fs@.contains_key(p));
                assert(o.contains(p));
                let j = o.index_of(p);
                o.index_of_first_ensures(p);
                assert(0 <= j < es.len());
                assert(es[j].0@ == p);
            }
            assert forall|i: int| 0 <= i < es.len() implies self.files().contains_key(
                (#[trigger] es[i]).0@,
            ) && Self::lists(dir@, es[i].0@) && self.files()[es[i].0@].mtime == es[i].1 by {
                let e = es[i];
                assert(e.0@ == o[i]);
                assert(self.fs@.contains_key(o[i]));
                assert(self.fs@[o[i]] == self.fs.items()[i]);
            }
        }
        r
    }

    fn rename(&mut self, from: &str, to: &str) -> (r: Result<(), IoErrorKind>)
        ensures
            r is Err ==> r == Err::<(), IoErrorKind>(IoErrorKind::NotFound) && !old(self).files().contains_key(from@),
    {
        match self.take_file(from) {
            Some(data) => {
                self.put_file(to.to_owned(), data);
                Ok(())
            },
            None => {
                assert(self.files() =~= old(self).files());
                Err(IoErrorKind::NotFound)
            },
        }
    }

    fn file_exists(&self, path: &str) -> (r: bool) {
        self.fs.contains_key(path)
    }

    fn create_dir_all(&mut self, path: &str) -> (r: Result<(), IoErrorKind>)
        ensures
            r is Ok,
    {
        Ok(())
    }

    fn lock_exclusive(&mut self, path: &str) -> (r: Result<FileLock, IoErrorKind>)
        ensures
            r is Ok,
    {
        let lock_file = replace_extension(path, "lock");
        let data = MemFileData { content: Vec::new(), mtime: now_nanos() };
        self.put_file(lock_file.clone(), data);
        assert(old(self).files().remove(lock_file@) =~= self.files().remove(lock_file@));
        Ok(FileLock::new(lock_file))
    }

    fn try_lock_exclusive(&mut self, path: &str) -> (r: Result<Option<FileLock>, IoErrorKind>)
        ensures
            r is Ok,
            r matches Ok(None) <==> old(self).files().contains_key(lock_path_of(path@)),
    {
        let lock_file = replace_extension(path, "lock");
        if self.fs.contains_key(lock_file.as_str()) {
            Ok(None)
        } else {
            match self.lock_exclusive(path) {
                Ok(lock) => Ok(Some(lock)),
                Err(e) => Err(e),
            }
        }
    }

    fn read(&self, file: &mut MemFile, max: usize) -> (r: Result<Vec<u8>, IoErrorKind>)
        ensures
            r is Err ==> r == Err::<Vec<u8>, IoErrorKind>(IoErrorKind::NotFound)
                && !self.files().contains_key(old(file).path()),
            r matches Ok(bytes) ==> bytes@.len() == max || old(file).pos() + bytes@.len()
                >= self.files()[old(file).path()].content.len(),
    {
        match self.fs.get(file.path.as_str()) {
            Some(data) => {
                let len = data.content.len();
                if file.pos >= len as u64 {
                    return Ok(Vec::new());
                }
                let start = file.pos as usize;
                let available = len - start;
                let n = if max < available {
                    max
                } else {
                    available
                };
                let out = slice_to_vec(slice_subrange(data.content.as_slice(), start, start + n));
                file.pos = file.pos + n as u64;
                Ok(out)
            },
            None => Err(IoErrorKind::NotFound),
        }
    }

    fn write(&mut self, file: &mut MemFile, buf: &[u8]) -> (r: Result<usize, IoErrorKind>)
        ensures
            old(self).files().contains_key(old(file).path()) && old(file).pos() + buf@.len()
                <= usize::MAX ==> r == Ok::<usize, IoErrorKind>(buf@.len() as usize),
    {
        if file.pos > usize::MAX as u64 || buf.len() > usize::MAX - file.pos as usize {
            assert(same_except(old(self).files(), self.files(), file.path()));
            return Err(IoErrorKind::InvalidInput);
        }
        let pos = file.pos as usize;
        let end = pos + buf.len();
        match self.take_file(file.path.as_str()) {
            Some(data) => {
                let mut data = data;
                let ghost content = data.content@;
                while data.content.len() < end
                    invariant
                        data.content@.len() > content.len() ==> data.content@.len() <= end,
                        data.content@.len() >= content.len(),
                        forall|j: int|
                            0 <= j < data.content@.len() ==> data.content@[j] == if j
                                < content.len() {
                                content[j]
                            } else {
                                0u8
                            },
                    decreases end - data.content@.len(),
                {
                    data.content.push(0u8);
                }
                let mut i: usize = 0;
                while i < buf.len()
                    invariant
                        i <= buf.len(),
                        end == pos + buf.len(),
                        data.content@.len() >= end,
                        data.content@.len() == if end > content.len() {
                            end as nat
                        } else {
                            content.len()
                        },
                        forall|j: int|
                            0 <= j < data.content@.len() ==> data.content@[j] == if pos <= j < pos
                                + i {
                                buf@[j - pos]
                            } else if j < content.len() {
                                content[j]
                            } else {
                                0u8
                            },
                    decreases buf.len() - i,
                {
                    data.content.set(pos + i, buf[i]);
                    i = i + 1;
                }
                data.mtime = now_nanos();
                assert(data.content@ =~= written(content, pos as nat, buf@));
                assert(buf@.take(buf@.len() as int) =~= buf@);
                self.put_file(file.path.clone(), data);
                file.pos = end as u64;
                assert(old(self).files().remove(file.path()) =~= self.files().remove(file.path()));
                Ok(buf.len())
            },
            None => {
                assert(self.files() =~= old(self).files());
                Err(IoErrorKind::NotFound)
            },
        }
    }

    fn seek(&self, file: &mut MemFile, to: SeekFrom) -> (r: Result<u64, IoErrorKind>)
        ensures
            self.files().contains_key(old(file).path()) ==> (r is Ok <==> seek_target(
                self.files()[old(file).path()].content.len(),
                old(file).pos(),
                to,
            ) is Some),
            r matches Err(e) ==> e == if self.files().contains_key(old(file).path()) {
                IoErrorKind::InvalidInput
            } else {
                IoErrorKind::NotFound
            },
    {
        let len: u64 = match self.fs.get(file.path.as_str()) {
            Some(data) => data.content.len() as u64,
            None => {
                return Err(IoErrorKind::NotFound);
            },
        };
        let target: Option<u64> = match to {
            SeekFrom::Start(p) => Some(p),
            SeekFrom::End(p) => offset_by(len, p),
            SeekFrom::Current(p) => offset_by(file.pos, p),
        };
        match target {
            Some(p) => {
                file.pos = p;
                Ok(p)
            },
            None => Err(IoErrorKind::InvalidInput),
        }
    }

    fn set_len(&mut self, file: &MemFile, size: u64) -> (r: Result<(), IoErrorKind>)
        ensures
            old(self).files().contains_key(file.path()) && size <= usize::MAX ==> r is Ok,
    {
        if size > usize::MAX as u64 {
            assert(same_except(old(self).files(), self.files(), file.path()));
            return Err(IoErrorKind::InvalidInput);
        }
        let size = size as usize;
        match self.take_file(file.path.as_str()) {
            Some(data) => {
                let mut data = data;
                let ghost content = data.content@;
                data.content.truncate(size);
                while data.content.len() < size
                    invariant
                        data.content@.len() <= size,
                        data.content@.len() < size ==> data.content@.len() >= content.len(),
                        forall|j: int|
                            0 <= j < data.content@.len() ==> data.content@[j] == if j
                                < content.len() {
                                content[j]
                            } else {
                                0u8
                            },
                    decreases size - data.content@.len(),
                {
                    data.content.push(0u8);
                }
                assert(data.content@ =~= resized(content, size as nat));
                self.put_file(file.path.clone(), data);
                assert(old(self).files().remove(file.path()) =~= self.files().remove(file.path()));
                Ok(())
            },
            None => {
                assert(self.files() =~= old(self).files());
                Err(IoErrorKind::NotFound)
            },
        }
    }

    fn sync_all(&mut self, file: &MemFile) -> (r: Result<(), IoErrorKind>)
        ensures
            r is Ok,
    {
        Ok(())
    }
}

/// `base + delta`, where that is a `u64`.
fn offset_by(base: u64, delta: i64) -> (r: Option<u64>)
    ensures
        r == if 0 <= base + delta <= u64::MAX {
            Some((base + delta) as u64)
        } else {
            None
        },
{
    if delta < 0 {
        let back: u64 = if delta == i64::MIN {
            9223372036854775808u64
        } else {
            (-delta) as u64
        };
        if back > base {
            None
        } else {
            Some(base - back)
        }
    } else {
        let forward = delta as u64;
        if forward > u64::MAX - base {
            None
        } else {
            Some(base + forward)
        }
    }
}

/// Writing `a` and then `b` behind it is writing `a + b`.
pub proof fn lemma_written_twice(content: Seq<u8>, pos: nat, a: Seq<u8>, b: Seq<u8>)
    requires
        a.len() > 0,
    ensures
        written(written(content, pos, a), pos + a.len(), b) == written(content, pos, a + b),
{
    assert(written(written(content, pos, a), pos + a.len(), b) =~= written(content, pos, a + b));
}

/// Writes all of `buf` at the handle's position. `WriteZero` is returned
/// where the storage stops taking bytes. Nothing is asked of the storage
/// for an empty `buf`, which is always written.
pub fn write_all<S: Storage>(storage: &mut S, file: &mut S::File, buf: &[u8]) -> (r: Result<
    (),
    IoErrorKind,
>)
    requires
        old(storage).wf(),
    ensures
        final(storage).wf(),
        final(storage).reliable() == old(storage).reliable(),
        S::path_of(final(file)) == S::path_of(old(file)),
        same_except(old(storage).files(), final(storage).files(), S::path_of(old(file))),
        final(storage).files().contains_key(S::path_of(old(file))) == old(storage).files().contains_key(S::path_of(old(file))),
        r is Ok && buf@.len() > 0 ==> {
            let path = S::path_of(old(file));
            &&& old(storage).files().contains_key(path)
            &&& final(storage).files()[path].content == written(
                old(storage).files()[path].content,
                S::pos_of(old(file)),
                buf@,
            )
            &&& S::pos_of(final(file)) == S::pos_of(old(file)) + buf@.len()
        },
        r is Ok && buf@.len() == 0 ==> final(storage).files() == old(storage).files()
            && S::pos_of(final(file)) == S::pos_of(old(file)),
        buf@.len() == 0 ==> r is Ok,
{
    let ghost path = S::path_of(file);
    let ghost pos = S::pos_of(file);
    let ghost before = storage.files();
    let mut done: usize = 0;
    while done < buf.len()
        invariant
            done <= buf.len(),
            storage.wf(),
            storage.reliable() == old(storage).reliable(),
            path == S::path_of(old(file)),
            pos == S::pos_of(old(file)),
            before == old(storage).files(),
            S::path_of(file) == path,
            same_except(before, storage.files(), path),
            storage.files().contains_key(path) == before.contains_key(path),
            S::pos_of(file) == pos + done,
            done == 0 ==> storage.files() == before,
            done > 0 ==> before.contains_key(path) && storage.files()[path].content == written(
                before[path].content,
                pos,
                buf@.take(done as int),
            ),
        decreases buf.len() - done,
    {
        let rest = slice_subrange(buf, done, buf.len());
        match storage.write(file, rest) {
            Ok(n) => {
                if n == 0 {
                    assert(before.remove(path) =~= storage.files().remove(path));
                    return Err(IoErrorKind::WriteZero);
                }
                proof {
                    assert(rest@.take(n as int) =~= buf@.subrange(done as int, done + n));
                    assert(buf@.take(done + n) =~= buf@.take(done as int) + buf@.subrange(
                        done as int,
                        done + n,
                    ));
                    if done > 0 {
                        lemma_written_twice(
                            before[path].content,
                            pos,
                            buf@.take(done as int),
                            buf@.subrange(done as int, done + n),
                        );
                    } else {
                        assert(buf@.take(0) =~= Seq::<u8>::empty());
                        assert(buf@.take(n as int) =~= buf@.subrange(0, n as int));
                    }
                    assert(before.remove(path) =~= storage.files().remove(path));
                }
                done = done + n;
            },
            Err(e) => {
                assert(before.remove(path) =~= storage.files().remove(path));
                return Err(e);
            },
        }
    }
    assert(buf@.take(buf@.len() as int) =~= buf@);
    Ok(())
}

/// Reads from the handle's position to the end of the file.
pub fn read_to_end<S: Storage>(storage: &S, file: &mut S::File) -> (r: Result<
    Vec<u8>,
    IoErrorKind,
>)
    requires
        storage.wf(),
    ensures
        S::path_of(final(file)) == S::path_of(old(file)),
        r matches Ok(bytes) ==> {
            let path = S::path_of(old(file));
            let pos = S::pos_of(old(file));
            &&& storage.files().contains_key(path)
            &&& pos <= storage.files()[path].content.len() ==> bytes@
                == storage.files()[path].content.skip(pos as int) && S::pos_of(final(file))
                == storage.files()[path].content.len()
            &&& pos > storage.files()[path].content.len() ==> bytes@.len() == 0
        },
        storage.reliable() && storage.files().contains_key(S::path_of(old(file))) ==> r is Ok,
{
    let ghost path = S::path_of(file);
    let ghost pos = S::pos_of(file);
    let mut out: Vec<u8> = Vec::new();
    loop
        invariant
            storage.wf(),
            path == S::path_of(old(file)),
            pos == S::pos_of(old(file)),
            S::path_of(file) == path,
            S::pos_of(file) == pos + out@.len(),
            out@.len() > 0 ==> storage.files().contains_key(path) && pos + out@.len()
                <= storage.files()[path].content.len() && out@
                == storage.files()[path].content.subrange(pos as int, pos as int + out@.len()),
        decreases
            (if storage.files().contains_key(path) {
                storage.files()[path].content.len() - S::pos_of(file)
            } else {
                0
            }),
    {
        let ghost so_far = out@;
        match storage.read(file, 65536) {
            Ok(chunk) => {
                if chunk.len() == 0 {
                    proof {
                        let content = storage.files()[path].content;
                        if pos <= content.len() {
                            if out@.len() == 0 {
                                assert(content.skip(pos as int) =~= Seq::<u8>::empty());
                            }
                            assert(out@ =~= content.skip(pos as int));
                        }
                    }
                    return Ok(out);
                }
                let mut chunk = chunk;
                proof {
                    let content = storage.files()[path].content;
                    assert(so_far + chunk@ =~= content.subrange(
                        pos as int,
                        pos as int + so_far.len() + chunk@.len(),
                    ));
                }
                out.append(&mut chunk);
            },
            Err(e) => {
                return Err(e);
            },
        }
    }
}

/// `last_index_of` is -1 or a place in `s`, and at that place stands `c`.
pub proof fn lemma_last_index_of(s: Seq<char>, c: char)
    ensures
        -1 <= last_index_of(s, c) < s.len(),
        last_index_of(s, c) >= 0 ==> s[last_index_of(s, c)] == c,
    decreases s.len(),
{
    if s.len() > 0 && s.last() != c {
        lemma_last_index_of(s.drop_last(), c);
    }
}

/// A path ends with its extension.
pub proof fn lemma_extension_is_suffix(path: Seq<char>, ext: Seq<char>)
    requires
        extension_of(path) == Some(ext),
    ensures
        ext.len() < path.len(),
        path.skip(path.len() - ext.len()) == ext,
{
    lemma_last_index_of(path, '.');
    lemma_last_index_of(path, '/');
    let dot = extension_dot(path)->0;
    assert(path.skip(dot + 1).len() == path.len() - dot - 1);
    assert(path.skip(path.len() - ext.len()) =~= path.skip(dot + 1));
}

} // verus!
