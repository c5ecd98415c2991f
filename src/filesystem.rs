//! The virtual filesystem: the alias table, the registered virtual files
//! and the archives they come from.
use vstd::hash_map::StringHashMap;
use vstd::prelude::*;
use vstd::utf8::{decode_utf8, valid_utf8};

use crate::archive::{
    ini_get, ini_parse, ini_values, parse_ini, utf8_string, Archive, VirtualFile,
    VirtualFileView,
};
use crate::chunk::{
    chunk_contents, file_table, open_chunk, parse_file_table, ChunkError, EntryView, FileEntry,
    ARCHIVE_FILES_CHUNK_ID, ARCHIVE_HEADER_CHUNK_ID,
};
use crate::codepage::{cp1252_decode, decode_legacy, CodePage};
use crate::fs_path::{location, FSPath};
use crate::path::{
    archive_name, is_archive_name, join, join_chars, lemma_parent_shorter, parent_chars,
    parent_of,
};
use crate::text::{chars_eq, chars_of, is_bool_true, string_of, truthy};

verus! {

/// The `n`-th directory above `p`: `p` itself for 0, `None` once the root
/// has been passed.
pub open spec fn ancestor_at(p: Seq<char>, n: nat) -> Option<Seq<char>>
    decreases n,
{
    if n == 0 {
        Some(p)
    } else {
        match ancestor_at(p, (n - 1) as nat) {
            Some(q) => parent_of(q),
            None => None,
        }
    }
}

/// Whether the directory of every registered path is registered too.
pub open spec fn parent_closed(files: Map<Seq<char>, VirtualFile>) -> bool {
    forall|k: Seq<char>|
        #[trigger] files.contains_key(k) && parent_of(k) is Some ==> files.contains_key(
            parent_of(k)->Some_0,
        )
}

/// Whether an archive index and data range fit the archives known so far.
pub open spec fn fits_archive(archives: Seq<Archive>, archive: Option<usize>, size_compressed: usize, ptr: usize) -> bool {
    match archive {
        Some(a) => a < archives.len() && ptr + size_compressed <= archives[a as int].spec_size(),
        None => true,
    }
}

/// What registering `path` does to the table of files `old`, giving `new`:
/// entries already there stay as they are; `path` and each directory
/// above it become registered, and nothing else; a new `path` gets the
/// given archive, sizes and offset; a new directory gets no sizes, and the
/// archive only where it directly holds `path`.
pub open spec fn registered(
    old: Map<Seq<char>, VirtualFile>,
    new: Map<Seq<char>, VirtualFile>,
    path: Seq<char>,
    archive: Option<usize>,
    size_real: usize,
    size_compressed: usize,
    ptr: usize,
) -> bool {
    &&& forall|k: Seq<char>| #[trigger] old.contains_key(k) ==> new.contains_key(k) && new[k] == old[k]
    &&& forall|n: nat| #[trigger] ancestor_at(path, n) is Some ==> new.contains_key(ancestor_at(path, n)->Some_0)
    &&& forall|k: Seq<char>| #[trigger] new.contains_key(k) ==> old.contains_key(k) || exists|n: nat| ancestor_at(path, n) == Some(k)
    &&& !old.contains_key(path) ==> new[path]@ == (VirtualFileView { name: path, archive, size_real, size_compressed, ptr })
    &&& forall|n: nat|
        1 <= n && #[trigger] ancestor_at(path, n) is Some && !old.contains_key(ancestor_at(path, n)->Some_0) ==> new[ancestor_at(path, n)->Some_0]@ == (VirtualFileView {
            name: ancestor_at(path, n)->Some_0,
            archive: if n == 1 {
                archive
            } else {
                None
            },
            size_real: 0,
            size_compressed: 0,
            ptr: 0,
        })
}

proof fn lemma_ancestor_shorter(p: Seq<char>, m: nat, n: nat)
    requires
        m < n,
        ancestor_at(p, n) is Some,
    ensures
        ancestor_at(p, m) is Some,
        ancestor_at(p, n)->Some_0.len() < ancestor_at(p, m)->Some_0.len(),
    decreases n,
{
    let q = ancestor_at(p, (n - 1) as nat)->Some_0;
    lemma_parent_shorter(q);
    if m < n - 1 {
        lemma_ancestor_shorter(p, m, (n - 1) as nat);
    }
}

proof fn lemma_ancestor_none(p: Seq<char>, n: nat, m: nat)
    requires
        n <= m,
        ancestor_at(p, n) is None,
    ensures
        ancestor_at(p, m) is None,
    decreases m,
{
    if n < m {
        lemma_ancestor_none(p, n, (m - 1) as nat);
    }
}

proof fn lemma_closed_above(files: Map<Seq<char>, VirtualFile>, p: Seq<char>, n: nat, m: nat)
    requires
        parent_closed(files),
        n <= m,
        ancestor_at(p, n) is Some,
        files.contains_key(ancestor_at(p, n)->Some_0),
    ensures
        ancestor_at(p, m) is Some ==> files.contains_key(ancestor_at(p, m)->Some_0),
    decreases m,
{
    if n < m {
        lemma_closed_above(files, p, n, (m - 1) as nat);
        if ancestor_at(p, (m - 1) as nat) is None {
            lemma_ancestor_none(p, (m - 1) as nat, m);
        }
    }
}

/// The reserved alias of the directory that holds the configuration file.
pub const FS_ROOT: &'static str = "$fs_root$";

/// The virtual filesystem.
pub struct Filesystem {
    fs_root: String,
    paths: StringHashMap<FSPath>,
    files: StringHashMap<VirtualFile>,
    archives: Vec<Archive>,
}

impl Filesystem {
    /// The directory of the configuration file.
    pub closed spec fn root(&self) -> Seq<char> {
        self.fs_root@
    }

    /// The aliases, by name.
    pub closed spec fn paths(&self) -> Map<Seq<char>, FSPath> {
        self.paths@
    }

    /// The registered files, by virtual path.
    pub closed spec fn files(&self) -> Map<Seq<char>, VirtualFile> {
        self.files@
    }

    /// The archives, in the order they were found.
    pub closed spec fn archives(&self) -> Seq<Archive> {
        self.archives@
    }

    /// The invariant: every file is stored under its own path; the
    /// directory of every registered path is registered; an archive member
    /// names an archive that exists, and its data lies within it; archive
    /// indices are their positions, and no two archives share a path.
    pub closed spec fn wf(&self) -> bool {
        &&& forall|k: Seq<char>| #[trigger] self.files@.contains_key(k) ==> self.files@[k]@.name == k
        &&& parent_closed(self.files@)
        &&& forall|k: Seq<char>|
            #[trigger] self.files@.contains_key(k) ==> fits_archive(
                self.archives@,
                self.files@[k]@.archive,
                self.files@[k]@.size_compressed,
                self.files@[k]@.ptr,
            )
        &&& forall|i: int| 0 <= i < self.archives@.len() ==> #[trigger] self.archives@[i].spec_index() == i
        &&& forall|i: int, j: int|
            0 <= i < self.archives@.len() && 0 <= j < self.archives@.len() && i != j ==> #[trigger] self.archives@[i].spec_path() != #[trigger] self.archives@[j].spec_path()
    }

    /// An empty filesystem whose configuration file lies in `fs_root`.
    pub fn with_root(fs_root: String) -> (r: Filesystem)
        ensures
            r.wf(),
            r.root() == fs_root@,
            r.paths() == Map::<Seq<char>, FSPath>::empty(),
            r.files() == Map::<Seq<char>, VirtualFile>::empty(),
            r.archives() == Seq::<Archive>::empty(),
    {
        Filesystem {
            fs_root,
            paths: StringHashMap::new(),
            files: StringHashMap::new(),
            archives: Vec::new(),
        }
    }

    /// Registers `path` and every directory above it. An entry that is
    /// already there is kept: the first registration of a path wins, and
    /// the climb stops at the first directory that is registered already.
    /// Only the directory that directly holds `path` carries its archive.
    pub fn register(
        &mut self,
        path: String,
        archive: Option<usize>,
        size_real: usize,
        size_compressed: usize,
        ptr: usize,
    )
        requires
            old(self).wf(),
            fits_archive(old(self).archives(), archive, size_compressed, ptr),
        ensures
            final(self).wf(),
            final(self).root() == old(self).root(),
            final(self).paths() == old(self).paths(),
            final(self).archives() == old(self).archives(),
            registered(old(self).files(), final(self).files(), path@, archive, size_real, size_compressed, ptr),
    {
        let ghost old_files = self.files@;
        let ghost full = path@;
        let p = chars_of(path.as_str());
        if !self.files.contains_key(path.as_str()) {
            let key = path.clone();
            self.files.insert(key, VirtualFile::new(path, archive, size_real, size_compressed, ptr));
        }
        assert(ancestor_at(full, 0) == Some(full));
        let mut cur = parent_chars(p.as_slice());
        let mut first = true;
        let mut done = false;
        let ghost mut n: nat = 1;
        assert(ancestor_at(full, 1) == parent_of(full));
        while !done && cur.is_some()
            invariant
                n >= 1,
                first == (n == 1),
                match cur {
                    Some(c) => ancestor_at(full, n) == Some(c@),
                    None => ancestor_at(full, n) is None,
                },
                done ==> cur is Some && self.files@.contains_key(cur->Some_0@),
                self.archives@ == old(self).archives@,
                self.paths@ == old(self).paths@,
                self.fs_root@ == old(self).fs_root@,
                old_files == old(self).files@,
                old(self).wf(),
                forall|k: Seq<char>| #[trigger] old_files.contains_key(k) ==> self.files@.contains_key(k) && self.files@[k] == old_files[k],
                forall|k: Seq<char>| #[trigger] self.files@.contains_key(k) ==> old_files.contains_key(k) || exists|m: nat| m < n && ancestor_at(full, m) == Some(k),
                forall|m: nat| m < n && #[trigger] ancestor_at(full, m) is Some ==> self.files@.contains_key(ancestor_at(full, m)->Some_0),
                !old_files.contains_key(full) ==> self.files@[full]@ == (VirtualFileView { name: full, archive, size_real, size_compressed, ptr }),
                forall|m: nat|
                    1 <= m < n && #[trigger] ancestor_at(full, m) is Some && !old_files.contains_key(ancestor_at(full, m)->Some_0) ==> self.files@[ancestor_at(full, m)->Some_0]@ == (VirtualFileView {
                        name: ancestor_at(full, m)->Some_0,
                        archive: if m == 1 {
                            archive
                        } else {
                            None
                        },
                        size_real: 0,
                        size_compressed: 0,
                        ptr: 0,
                    }),
                forall|k: Seq<char>| #[trigger] self.files@.contains_key(k) ==> self.files@[k]@.name == k,
                forall|k: Seq<char>|
                    #[trigger] self.files@.contains_key(k) ==> fits_archive(
                        self.archives@,
                        self.files@[k]@.archive,
                        self.files@[k]@.size_compressed,
                        self.files@[k]@.ptr,
                    ),
                forall|k: Seq<char>|
                    #[trigger] self.files@.contains_key(k) && parent_of(k) is Some ==> self.files@.contains_key(parent_of(k)->Some_0)
                        || ancestor_at(full, (n - 1) as nat) == Some(k),
            decreases (match cur {
                Some(c) => c@.len() + 1,
                None => 0,
            }) + (if done {
                0int
            } else {
                1
            }),
        {
            let a = cur.unwrap();
            let key = string_of(a.as_slice());
            if self.files.contains_key(key.as_str()) {
                done = true;
                cur = Some(a);
            } else {
                let id = if first {
                    archive
                } else {
                    None
                };
                let k2 = key.clone();
                self.files.insert(k2, VirtualFile::new(key, id, 0, 0, 0));
                proof {
                    lemma_parent_shorter(a@);
                    assert forall|m: nat| m < n implies ancestor_at(full, m) != Some(a@) by {
                        lemma_ancestor_shorter(full, m, n);
                    }
                    lemma_ancestor_shorter(full, 0, n);
                    assert(a@ != full);
                    assert(ancestor_at(full, n + 1) == parent_of(a@));
                    n = n + 1;
                }
                cur = parent_chars(a.as_slice());
                first = false;
            }
        }
        proof {
            let files = self.files@;
            if done {
                let c = cur->Some_0@;
                assert forall|m: nat| m < n implies ancestor_at(full, m) != Some(c) by {
                    lemma_ancestor_shorter(full, m, n);
                }
                assert(old_files.contains_key(c));
                assert forall|m: nat| #[trigger] ancestor_at(full, m) is Some implies files.contains_key(ancestor_at(full, m)->Some_0)
                    && (m >= n ==> old_files.contains_key(ancestor_at(full, m)->Some_0)) by {
                    if m >= n {
                        lemma_closed_above(old_files, full, n, m);
                    }
                }
            } else {
                assert forall|m: nat| #[trigger] ancestor_at(full, m) is Some implies files.contains_key(ancestor_at(full, m)->Some_0) by {
                    if m >= n {
                        lemma_ancestor_none(full, n, m);
                    }
                }
            }
            assert forall|m: nat|
                1 <= m && #[trigger] ancestor_at(full, m) is Some && !old_files.contains_key(ancestor_at(full, m)->Some_0) implies files[ancestor_at(full, m)->Some_0]@ == (VirtualFileView {
                    name: ancestor_at(full, m)->Some_0,
                    archive: if m == 1 {
                        archive
                    } else {
                        None
                    },
                    size_real: 0,
                    size_compressed: 0,
                    ptr: 0,
                }) by {
                if m >= n {
                    if done {
                        lemma_closed_above(old_files, full, n, m);
                    } else {
                        lemma_ancestor_none(full, n, m);
                    }
                }
            }
            assert forall|k: Seq<char>| #[trigger] files.contains_key(k) && parent_of(k) is Some implies files.contains_key(parent_of(k)->Some_0) by {
                if ancestor_at(full, (n - 1) as nat) == Some(k) {
                    assert(ancestor_at(full, n) == parent_of(k));
                }
            }
            assert forall|k: Seq<char>| #[trigger] files.contains_key(k) implies old_files.contains_key(k) || exists|m: nat| ancestor_at(full, m) == Some(k) by {
            }
        }
    }
}

/// Whether a directory entry of this name is always passed over.
pub open spec fn ignored_name(name: Seq<char>) -> bool {
    name == "Thumbs.db"@ || name == ".svn"@
}

/// Whether a directory entry of this name is always passed over.
pub fn ignore_name(name: &str) -> (r: bool)
    ensures
        r == ignored_name(name@),
{
    let n = chars_of(name);
    chars_eq(n.as_slice(), chars_of("Thumbs.db").as_slice()) || chars_eq(n.as_slice(), chars_of(".svn").as_slice())
}

/// What the scan does with one directory entry.
pub enum ScanKind {
    /// Passed over.
    Skip,
    /// A directory: registered, and scanned in turn.
    Directory,
    /// An archive: handed to the archive reader.
    Archive,
    /// Any other file: registered with its length.
    File,
}

/// What the scan does with the entry `name` of a directory.
pub open spec fn scan_kind(name: Seq<char>, is_dir: bool, hidden: bool, recurse: bool) -> ScanKind {
    if ignored_name(name) || hidden {
        ScanKind::Skip
    } else if is_dir {
        if !recurse || name == "."@ || name == ".."@ {
            ScanKind::Skip
        } else {
            ScanKind::Directory
        }
    } else if is_archive_name(name) {
        ScanKind::Archive
    } else {
        ScanKind::File
    }
}

/// What the caller of `process_single` does next.
#[derive(Debug, PartialEq, Eq)]
pub enum ScanAction {
    /// Nothing.
    Skip,
    /// Scans this directory.
    Descend(String),
    /// Reads this archive.
    Archive(String),
    /// Nothing: the file has been registered.
    Registered,
}

/// The first registration of a path wins: registering `path` again, with
/// other values, keeps the archive, sizes and offset it was first given.
pub proof fn lemma_first_registration_wins(
    f0: Map<Seq<char>, VirtualFile>,
    f1: Map<Seq<char>, VirtualFile>,
    f2: Map<Seq<char>, VirtualFile>,
    path: Seq<char>,
    first: VirtualFileView,
    second: VirtualFileView,
)
    requires
        !f0.contains_key(path),
        first.name == path,
        registered(f0, f1, path, first.archive, first.size_real, first.size_compressed, first.ptr),
        registered(f1, f2, path, second.archive, second.size_real, second.size_compressed, second.ptr),
    ensures
        f2.contains_key(path),
        f2[path]@ == first,
{
    assert(ancestor_at(path, 0) == Some(path));
    assert(f1.contains_key(path));
}

/// Every directory above a registered path is registered too.
pub proof fn lemma_ancestors_registered(fs: &Filesystem, p: Seq<char>, n: nat)
    requires
        fs.wf(),
        fs.files().contains_key(p),
        ancestor_at(p, n) is Some,
    ensures
        fs.files().contains_key(ancestor_at(p, n)->Some_0),
{
    lemma_closed_above(fs.files@, p, 0, n);
}

impl Filesystem {
    /// Handles the entry `name` of the directory `dir` during a scan:
    /// registers what is to be registered, and says what remains to be done.
    pub fn process_single(
        &mut self,
        dir: &str,
        name: &str,
        is_dir: bool,
        hidden: bool,
        len: usize,
        recurse: bool,
    ) -> (r: ScanAction)
        requires
            old(self).wf(),
        ensures
            final(self).wf(),
            final(self).root() == old(self).root(),
            final(self).paths() == old(self).paths(),
            final(self).archives() == old(self).archives(),
            match scan_kind(name@, is_dir, hidden, recurse) {
                ScanKind::Skip => r == ScanAction::Skip && final(self).files() == old(self).files(),
                ScanKind::Directory => match r {
                    ScanAction::Descend(p) => p@ == join(dir@, name@) && registered(
                        old(self).files(),
                        final(self).files(),
                        p@,
                        None,
                        0,
                        0,
                        0,
                    ),
                    _ => false,
                },
                ScanKind::Archive => match r {
                    ScanAction::Archive(p) => p@ == join(dir@, name@) && final(self).files() == old(self).files(),
                    _ => false,
                },
                ScanKind::File => r == ScanAction::Registered && registered(
                    old(self).files(),
                    final(self).files(),
                    join(dir@, name@),
                    None,
                    len,
                    len,
                    0,
                ),
            },
    {
        if ignore_name(name) || hidden {
            return ScanAction::Skip;
        }
        let n = chars_of(name);
        let path = string_of(join_chars(chars_of(dir).as_slice(), n.as_slice()).as_slice());
        if is_dir {
            if !recurse || chars_eq(n.as_slice(), chars_of(".").as_slice()) || chars_eq(n.as_slice(), chars_of("..").as_slice()) {
                return ScanAction::Skip;
            }
            self.register(path.clone(), None, 0, 0, 0);
            ScanAction::Descend(path)
        } else if archive_name(n.as_slice()) {
            ScanAction::Archive(path)
        } else {
            self.register(path, None, len, len, 0);
            ScanAction::Registered
        }
    }

    /// The alias `alias`.
    pub fn get_path(&self, alias: &str) -> (r: Option<&FSPath>)
        ensures
            match r {
                Some(p) => self.paths().contains_key(alias@) && *p == self.paths()[alias@],
                None => !self.paths().contains_key(alias@),
            },
    {
        self.paths.get(alias)
    }

    /// The path of alias `alias` with `append` appended; `None` where there
    /// is no such alias.
    pub fn append_path(&self, alias: &str, append: &str) -> (r: Option<String>)
        ensures
            match r {
                Some(s) => self.paths().contains_key(alias@) && s@ == join(self.paths()[alias@].spec_path(), append@),
                None => !self.paths().contains_key(alias@),
            },
    {
        match self.get_path(alias) {
            Some(p) => Some(p.appended(append)),
            None => None,
        }
    }

    /// Defines alias `id` as `path`, replacing an earlier definition.
    pub fn insert_path(&mut self, id: String, path: FSPath)
        requires
            old(self).wf(),
        ensures
            final(self).wf(),
            final(self).paths() == old(self).paths().insert(id@, path),
            final(self).root() == old(self).root(),
            final(self).files() == old(self).files(),
            final(self).archives() == old(self).archives(),
    {
        self.paths.insert(id, path);
    }

    /// The location that a configuration record declares: `root` is an
    /// alias defined before, or `$fs_root$` (defined here on first use as
    /// the configuration's directory), or else a path; `add` goes below it.
    pub fn resolve_alias(
        &mut self,
        root: &str,
        add: Option<String>,
        def_ext: Option<String>,
        filter_caption: Option<String>,
        recurse: bool,
        notify: bool,
    ) -> (r: FSPath)
        requires
            old(self).wf(),
        ensures
            final(self).wf(),
            final(self).root() == old(self).root(),
            final(self).files() == old(self).files(),
            final(self).archives() == old(self).archives(),
            !old(self).paths().contains_key(root@) && root@ == FS_ROOT@ ==> {
                &&& final(self).paths().dom() == old(self).paths().dom().insert(FS_ROOT@)
                &&& final(self).paths()[FS_ROOT@].spec_path() == old(self).root()
                &&& forall|k: Seq<char>| #[trigger] old(self).paths().contains_key(k) ==> final(self).paths()[k] == old(self).paths()[k]
            },
            old(self).paths().contains_key(root@) || root@ != FS_ROOT@ ==> final(self).paths() == old(self).paths(),
            r.spec_root() == (if final(self).paths().contains_key(root@) {
                final(self).paths()[root@].spec_path()
            } else {
                root@
            }),
            r.spec_path() == location(
                r.spec_root(),
                match add {
                    Some(a) => Some(a@),
                    None => None,
                },
            ),
            r.spec_recurse() == recurse,
            r.spec_notify() == notify,
    {
        let is_fs_root = chars_eq(chars_of(root).as_slice(), chars_of(FS_ROOT).as_slice());
        if !self.paths.contains_key(root) && is_fs_root {
            let p = FSPath::new(self.fs_root.clone(), None, None, None, false, false);
            self.paths.insert(FS_ROOT.to_owned(), p);
        }
        let base = match self.paths.get(root) {
            Some(p) => p.path().clone(),
            None => root.to_owned(),
        };
        FSPath::new(base, add, def_ext, filter_caption, recurse, notify)
    }
}

/// Why the filesystem could not be built.
#[derive(Debug, PartialEq, Eq)]
pub enum FilesystemError {
    /// A configuration line lacks `=` or one of its three required fields.
    InvalidFsLtxSyntax { file_name: String, line: usize },
    /// An archive ends inside a chunk or a chunk's record.
    Truncated,
    /// A compressed chunk is too short to hold its length prefix.
    Compression,
    /// An archive header is not UTF-8, or a file name does not decode.
    Encoding,
    /// An archive header is not valid INI.
    InvalidHeader,
    /// An archive has no header chunk, or its entry point is missing, is
    /// `gamedata`, or has no backslash between alias and path.
    UnsupportedArchive,
    /// An archive to be loaded has no table of files.
    MissingFileTable,
    /// A record of an archive's table of files is too short.
    MalformedFileTable,
    /// A file's data lies outside its archive.
    EntryOutOfRange,
}

/// The error that a failure of the container becomes, where a missing
/// chunk is reported as `missing`.
pub open spec fn chunk_failure(e: ChunkError, missing: FilesystemError) -> FilesystemError {
    match e {
        ChunkError::Missing => missing,
        ChunkError::Truncated => FilesystemError::Truncated,
        ChunkError::Compression => FilesystemError::Compression,
    }
}

fn chunk_error(e: ChunkError, missing: FilesystemError) -> (r: FilesystemError)
    ensures
        r == chunk_failure(e, missing),
{
    match e {
        ChunkError::Missing => missing,
        ChunkError::Truncated => FilesystemError::Truncated,
        ChunkError::Compression => FilesystemError::Compression,
    }
}

/// The values of an archive's INI header. An archive without a header
/// chunk is not supported.
pub open spec fn archive_header(data: Seq<u8>) -> Result<Map<(Seq<char>, Seq<char>), Seq<char>>, FilesystemError> {
    match chunk_contents(data, ARCHIVE_HEADER_CHUNK_ID) {
        Err(e) => Err(chunk_failure(e, FilesystemError::UnsupportedArchive)),
        Ok(h) => if !valid_utf8(h) {
            Err(FilesystemError::Encoding)
        } else {
            match ini_parse(decode_utf8(h)) {
                Some(v) => Ok(v),
                None => Err(FilesystemError::InvalidHeader),
            }
        },
    }
}

/// Whether a header asks for its archive's files to be registered.
pub open spec fn auto_load(values: Map<(Seq<char>, Seq<char>), Seq<char>>) -> bool {
    values.contains_key(("header"@, "auto_load"@)) && truthy(values[("header"@, "auto_load"@)])
}

/// `s` with backslashes turned into `/`.
pub open spec fn slashed(s: Seq<char>) -> Seq<char> {
    Seq::new(s.len(), |i: int| if s[i] == '\\' { '/' } else { s[i] })
}

/// Turns backslashes into `/`.
pub fn slash_chars(s: &[char]) -> (r: Vec<char>)
    ensures
        r@ == slashed(s@),
{
    let mut out: Vec<char> = Vec::new();
    let mut i: usize = 0;
    while i < s.len()
        invariant
            i <= s@.len(),
            out@ =~= slashed(s@).subrange(0, i as int),
        decreases s@.len() - i,
    {
        out.push(if s[i] == '\\' { '/' } else { s[i] });
        i = i + 1;
    }
    assert(slashed(s@).subrange(0, i as int) =~= slashed(s@));
    out
}

/// The index of the first backslash of `s` from `i` on, or -1.
pub open spec fn first_backslash(s: Seq<char>, i: int) -> int
    decreases s.len() - i,
{
    if i >= s.len() {
        -1
    } else if s[i] == '\\' {
        i
    } else {
        first_backslash(s, i + 1)
    }
}

/// The directory under which an archive registers its files, given its
/// entry point `alias\\path`: the alias's path, or nothing where the alias
/// is unknown, with `path` below it. `None` for `gamedata` and for an entry
/// point without a backslash.
pub open spec fn entry_prefix(entry_point: Seq<char>, paths: Map<Seq<char>, FSPath>) -> Option<Seq<char>> {
    let k = first_backslash(entry_point, 0);
    if entry_point == "gamedata"@ || k < 0 {
        None
    } else {
        let alias = entry_point.subrange(0, k);
        let base = if paths.contains_key(alias) {
            paths[alias].spec_path()
        } else {
            Seq::empty()
        };
        Some(join(base, slashed(entry_point.subrange(k + 1, entry_point.len() as int))))
    }
}

/// The views of a list of table entries.
pub open spec fn entry_views(entries: Seq<FileEntry>) -> Seq<EntryView> {
    Seq::new(entries.len(), |i: int| entries[i]@)
}

/// The characters of a list of names.
pub open spec fn name_views(names: Seq<String>) -> Seq<Seq<char>> {
    Seq::new(names.len(), |i: int| names[i]@)
}

/// Whether the data of every entry lies within an archive of `size` bytes.
pub open spec fn entries_fit(entries: Seq<EntryView>, size: usize) -> bool {
    forall|i: int| 0 <= i < entries.len() ==> (#[trigger] entries[i]).ptr + entries[i].size_compressed <= size
}

/// Whether `new` is `old` after registering, in order, entry `i` of
/// archive `index` under `prefix` joined with name `i`.
pub open spec fn registered_all(
    old: Map<Seq<char>, VirtualFile>,
    new: Map<Seq<char>, VirtualFile>,
    prefix: Seq<char>,
    entries: Seq<EntryView>,
    names: Seq<Seq<char>>,
    index: usize,
) -> bool {
    exists|states: Seq<Map<Seq<char>, VirtualFile>>|
        {
            &&& states.len() == entries.len() + 1
            &&& states[0] == old
            &&& states.last() == new
            &&& forall|i: int|
                0 <= i < entries.len() ==> registered(
                    #[trigger] states[i],
                    states[i + 1],
                    join(prefix, slashed(names[i])),
                    Some(index),
                    entries[i].size_real as usize,
                    entries[i].size_compressed as usize,
                    entries[i].ptr as usize,
                )
        }
}

/// The entries' names in Windows-1252.
pub open spec fn cp1252_names(entries: Seq<EntryView>) -> Seq<Seq<char>> {
    Seq::new(entries.len(), |i: int| cp1252_decode(entries[i].name))
}

/// What loading the files of archive `index`, of header `values`, does:
/// each failure that the header and the table decide, and otherwise the
/// registration of every entry in order under its decoded name. In
/// Windows-1252 the names are known; in the machine's code page, for
/// whatever names the machine gives.
pub open spec fn load_outcome(
    old: Map<Seq<char>, VirtualFile>,
    new: Map<Seq<char>, VirtualFile>,
    values: Map<(Seq<char>, Seq<char>), Seq<char>>,
    paths: Map<Seq<char>, FSPath>,
    data: Seq<u8>,
    index: usize,
    size: usize,
    cp: CodePage,
    r: Result<(), FilesystemError>,
) -> bool {
    if !values.contains_key(("header"@, "entry_point"@)) {
        r == Err::<(), FilesystemError>(FilesystemError::UnsupportedArchive) && new == old
    } else {
        match entry_prefix(values[("header"@, "entry_point"@)], paths) {
            None => r == Err::<(), FilesystemError>(FilesystemError::UnsupportedArchive) && new == old,
            Some(prefix) => match chunk_contents(data, ARCHIVE_FILES_CHUNK_ID) {
                Err(e) => r == Err::<(), FilesystemError>(chunk_failure(e, FilesystemError::MissingFileTable)) && new == old,
                Ok(t) => match file_table(t) {
                    None => r == Err::<(), FilesystemError>(FilesystemError::MalformedFileTable) && new == old,
                    Some(entries) => if !entries_fit(entries, size) {
                        r == Err::<(), FilesystemError>(FilesystemError::EntryOutOfRange) && new == old
                    } else if cp == CodePage::Windows1252 {
                        r is Ok && registered_all(old, new, prefix, entries, cp1252_names(entries), index)
                    } else {
                        ||| r is Ok && exists|names: Seq<Seq<char>>|
                            names.len() == entries.len() && registered_all(old, new, prefix, entries, names, index)
                        ||| r == Err::<(), FilesystemError>(FilesystemError::Encoding) && new == old
                    },
                },
            },
        }
    }
}

/// Whether the data of every entry lies within an archive of `size` bytes.
pub fn entries_in_range(entries: &Vec<FileEntry>, size: usize) -> (r: bool)
    ensures
        r == entries_fit(entry_views(entries@), size),
{
    let mut i: usize = 0;
    while i < entries.len()
        invariant
            i <= entries@.len(),
            forall|j: int| 0 <= j < i ==> (#[trigger] entries@[j]).ptr + entries@[j].size_compressed <= size,
        decreases entries@.len() - i,
    {
        let e = &entries[i];
        if e.ptr as usize > size || e.size_compressed as usize > size - e.ptr as usize {
            assert(entry_views(entries@)[i as int] == entries@[i as int]@);
            return false;
        }
        i = i + 1;
    }
    assert forall|j: int| 0 <= j < entries@.len() implies (#[trigger] entry_views(entries@)[j]).ptr + entry_views(entries@)[j].size_compressed <= size by {
        assert(entry_views(entries@)[j] == entries@[j]@);
    }
    true
}

impl Filesystem {
    /// The archive at `index`.
    pub fn archive(&self, index: usize) -> (r: Option<&Archive>)
        ensures
            match r {
                Some(a) => index < self.archives().len() && *a == self.archives()[index as int],
                None => index >= self.archives().len(),
            },
    {
        if index < self.archives.len() {
            Some(&self.archives[index])
        } else {
            None
        }
    }

    /// The number of archives found so far.
    pub fn archive_count(&self) -> (r: usize)
        ensures
            r == self.archives().len(),
    {
        self.archives.len()
    }

    /// The number of registered paths.
    pub fn file_count(&self) -> (r: usize)
        ensures
            r == self.files().len(),
    {
        self.files.len()
    }

    /// The file registered under `path`.
    pub fn file(&self, path: &str) -> (r: Option<&VirtualFile>)
        ensures
            match r {
                Some(f) => self.files().contains_key(path@) && *f == self.files()[path@],
                None => !self.files().contains_key(path@),
            },
    {
        self.files.get(path)
    }

    /// The directory under which an archive with entry point `entry_point`
    /// registers its files.
    pub fn entry_prefix(&self, entry_point: &str) -> (r: Option<String>)
        ensures
            match r {
                Some(p) => entry_prefix(entry_point@, self.paths()) == Some(p@),
                None => entry_prefix(entry_point@, self.paths()) is None,
            },
    {
        let ep = chars_of(entry_point);
        if chars_eq(ep.as_slice(), chars_of("gamedata").as_slice()) {
            return None;
        }
        let mut k: usize = 0;
        while k < ep.len() && ep[k] != '\\'
            invariant
                k <= ep@.len(),
                first_backslash(ep@, k as int) == first_backslash(ep@, 0),
            decreases ep@.len() - k,
        {
            k = k + 1;
        }
        if k == ep.len() {
            return None;
        }
        let alias = string_of(vstd::slice::slice_subrange(ep.as_slice(), 0, k));
        let add = slash_chars(vstd::slice::slice_subrange(ep.as_slice(), k + 1, ep.len()));
        let base = match self.paths.get(alias.as_str()) {
            Some(p) => chars_of(p.path().as_str()),
            None => Vec::new(),
        };
        Some(string_of(join_chars(base.as_slice(), add.as_slice()).as_slice()))
    }

    /// Registers, in order, each entry of archive `index` under `prefix`
    /// joined with its name. Earlier registrations win over later ones.
    pub fn register_entries(&mut self, index: usize, prefix: &str, entries: &Vec<FileEntry>, names: &Vec<String>)
        requires
            old(self).wf(),
            index < old(self).archives().len(),
            names@.len() == entries@.len(),
            entries_fit(entry_views(entries@), old(self).archives()[index as int].spec_size()),
        ensures
            final(self).wf(),
            final(self).root() == old(self).root(),
            final(self).paths() == old(self).paths(),
            final(self).archives() == old(self).archives(),
            registered_all(old(self).files(), final(self).files(), prefix@, entry_views(entries@), name_views(names@), index),
    {
        let ghost views = entry_views(entries@);
        let ghost nms = name_views(names@);
        let ghost mut states: Seq<Map<Seq<char>, VirtualFile>> = seq![self.files@];
        let pre = chars_of(prefix);
        let mut i: usize = 0;
        while i < entries.len()
            invariant
                i <= entries@.len() == names@.len(),
                self.wf(),
                index < self.archives@.len(),
                self.archives@ == old(self).archives@,
                self.paths@ == old(self).paths@,
                self.fs_root@ == old(self).fs_root@,
                pre@ == prefix@,
                views == entry_views(entries@),
                nms == name_views(names@),
                entries_fit(views, self.archives@[index as int].spec_size()),
                states.len() == i + 1,
                states[0] == old(self).files@,
                states.last() == self.files@,
                forall|j: int|
                    0 <= j < i ==> registered(
                        #[trigger] states[j],
                        states[j + 1],
                        join(prefix@, slashed(nms[j])),
                        Some(index),
                        views[j].size_real as usize,
                        views[j].size_compressed as usize,
                        views[j].ptr as usize,
                    ),
            decreases entries@.len() - i,
        {
            let e = &entries[i];
            assert(views[i as int] == e@);
            assert(nms[i as int] == names@[i as int]@);
            let name = slash_chars(chars_of(names[i].as_str()).as_slice());
            let path = string_of(join_chars(pre.as_slice(), name.as_slice()).as_slice());
            let ghost before = self.files@;
            self.register(path, Some(index), e.size_real as usize, e.size_compressed as usize, e.ptr as usize);
            proof {
                let s2 = states.push(self.files@);
                assert forall|j: int|
                    0 <= j < i + 1 implies registered(
                        #[trigger] s2[j],
                        s2[j + 1],
                        join(prefix@, slashed(nms[j])),
                        Some(index),
                        views[j].size_real as usize,
                        views[j].size_compressed as usize,
                        views[j].ptr as usize,
                    ) by {
                    if j < i {
                        assert(s2[j] == states[j]);
                        assert(s2[j + 1] == states[j + 1]);
                    }
                }
                states = s2;
            }
            i = i + 1;
        }
    }
}

/// Decodes the name of every entry in the code page `cp`; `None` where
/// one does not decode, which cannot happen in Windows-1252.
fn decode_names(entries: &Vec<FileEntry>, cp: CodePage) -> (r: Option<Vec<String>>)
    ensures
        match r {
            Some(v) => v@.len() == entries@.len() && (cp == CodePage::Windows1252 ==> name_views(v@)
                == cp1252_names(entry_views(entries@))),
            None => cp != CodePage::Windows1252,
        },
{
    let ghost views = entry_views(entries@);
    let mut names: Vec<String> = Vec::new();
    let mut i: usize = 0;
    while i < entries.len()
        invariant
            i <= entries@.len(),
            names@.len() == i,
            views == entry_views(entries@),
            cp == CodePage::Windows1252 ==> forall|j: int|
                0 <= j < i ==> (#[trigger] cp1252_decode(views[j].name)) == names@[j]@,
        decreases entries@.len() - i,
    {
        assert(views[i as int] == entries@[i as int]@);
        match decode_legacy(entries[i].name.as_slice(), cp) {
            Some(n) => names.push(n),
            None => return None,
        }
        i = i + 1;
    }
    proof {
        if cp == CodePage::Windows1252 {
            assert(name_views(names@) =~= cp1252_names(views));
        }
    }
    Some(names)
}

impl Filesystem {
    /// Whether an archive with this canonical path has been found already.
    pub fn has_archive(&self, path: &str) -> (r: bool)
        ensures
            r == exists|i: int| 0 <= i < self.archives().len() && (#[trigger] self.archives()[i]).spec_path() == path@,
    {
        let p = chars_of(path);
        let mut i: usize = 0;
        while i < self.archives.len()
            invariant
                i <= self.archives@.len(),
                p@ == path@,
                forall|j: int| 0 <= j < i ==> (#[trigger] self.archives@[j]).spec_path() != path@,
            decreases self.archives@.len() - i,
        {
            if chars_eq(chars_of(self.archives[i].path().as_str()).as_slice(), p.as_slice()) {
                assert(self.archives()[i as int].spec_path() == path@);
                return true;
            }
            i = i + 1;
        }
        false
    }

    /// Registers the files of archive `index`, whose bytes are `data`,
    /// under the directory that its header's entry point names.
    pub fn load_archive(&mut self, index: usize, data: &[u8], cp: CodePage) -> (r: Result<(), FilesystemError>)
        requires
            old(self).wf(),
            index < old(self).archives().len(),
            old(self).archives()[index as int].spec_header() is Some,
        ensures
            final(self).wf(),
            final(self).root() == old(self).root(),
            final(self).paths() == old(self).paths(),
            final(self).archives() == old(self).archives(),
            load_outcome(
                old(self).files(),
                final(self).files(),
                ini_values(old(self).archives()[index as int].spec_header()->Some_0),
                old(self).paths(),
                data@,
                index,
                old(self).archives()[index as int].spec_size(),
                cp,
                r,
            ),
    {
        let ep = match self.archives[index].header() {
            Some(h) => ini_get(h, "header", "entry_point"),
            None => None,
        };
        let ep = match ep {
            Some(v) => v,
            None => return Err(FilesystemError::UnsupportedArchive),
        };
        let prefix = match self.entry_prefix(ep.as_str()) {
            Some(p) => p,
            None => return Err(FilesystemError::UnsupportedArchive),
        };
        let table = match open_chunk(data, ARCHIVE_FILES_CHUNK_ID) {
            Err(e) => return Err(chunk_error(e, FilesystemError::MissingFileTable)),
            Ok(t) => t,
        };
        let entries = match parse_file_table(table.as_slice()) {
            Some(v) => v,
            None => return Err(FilesystemError::MalformedFileTable),
        };
        assert(entry_views(entries@) =~= file_table(table@)->Some_0);
        let size = self.archives[index].size();
        if !entries_in_range(&entries, size) {
            return Err(FilesystemError::EntryOutOfRange);
        }
        let names = match decode_names(&entries, cp) {
            Some(n) => n,
            None => return Err(FilesystemError::Encoding),
        };
        self.register_entries(index, prefix.as_str(), &entries, &names);
        assert(name_views(names@).len() == entry_views(entries@).len());
        Ok(())
    }

    /// Reads the archive at the canonical path `path`, whose bytes are
    /// `data` and whose names are in code page `cp`: records it, reads its
    /// header, and registers its files where the header asks for that. An
    /// archive found before is left as it is.
    pub fn process_archive(&mut self, path: String, data: &[u8], cp: CodePage) -> (r: Result<(), FilesystemError>)
        requires
            old(self).wf(),
        ensures
            final(self).wf(),
            final(self).root() == old(self).root(),
            final(self).paths() == old(self).paths(),
            (exists|i: int| 0 <= i < old(self).archives().len() && (#[trigger] old(self).archives()[i]).spec_path() == path@) ==> {
                &&& r is Ok
                &&& final(self).files() == old(self).files()
                &&& final(self).archives() == old(self).archives()
            },
            !(exists|i: int| 0 <= i < old(self).archives().len() && (#[trigger] old(self).archives()[i]).spec_path() == path@) ==> {
                let n = old(self).archives().len();
                let a = final(self).archives()[n as int];
                &&& final(self).archives().len() == n + 1
                &&& final(self).archives().subrange(0, n as int) == old(self).archives()
                &&& a.spec_path() == path@
                &&& a.spec_index() == n
                &&& a.spec_size() == data@.len()
                &&& match archive_header(data@) {
                    Err(e) => r == Err::<(), FilesystemError>(e) && final(self).files() == old(self).files(),
                    Ok(v) => {
                        &&& a.spec_header() is Some
                        &&& ini_values(a.spec_header()->Some_0) == v
                        &&& if auto_load(v) {
                            load_outcome(old(self).files(), final(self).files(), v, old(self).paths(), data@, n as usize, data@.len() as usize, cp, r)
                        } else {
                            r is Ok && final(self).files() == old(self).files()
                        }
                    },
                }
            },
    {
        if self.has_archive(path.as_str()) {
            return Ok(());
        }
        let index = self.archives.len();
        let mut archive = Archive::new(path, index, data.len());
        let bytes = match open_chunk(data, ARCHIVE_HEADER_CHUNK_ID) {
            Err(e) => {
                self.archives.push(archive);
                return Err(chunk_error(e, FilesystemError::UnsupportedArchive));
            },
            Ok(h) => h,
        };
        let text = match utf8_string(bytes) {
            Some(t) => t,
            None => {
                self.archives.push(archive);
                return Err(FilesystemError::Encoding);
            },
        };
        let ini = match parse_ini(text.as_str()) {
            Ok(i) => i,
            Err(_) => {
                self.archives.push(archive);
                return Err(FilesystemError::InvalidHeader);
            },
        };
        let load = match ini_get(&ini, "header", "auto_load") {
            Some(v) => is_bool_true(chars_of(v.as_str()).as_slice()),
            None => false,
        };
        archive.set_header(ini);
        self.archives.push(archive);
        if load {
            self.load_archive(index, data, cp)
        } else {
            Ok(())
        }
    }
}

/// A read request for a path that is not registered.
#[derive(Debug, PartialEq, Eq)]
pub enum FilesystemFSPathError {
    NotFound { path: String },
}

/// Where the bytes of a registered file come from.
#[derive(Debug, PartialEq, Eq)]
pub enum ReadSource {
    /// The file on disk at this path.
    Disk(String),
    /// Bytes `ptr .. ptr + size_compressed` of the archive at `path`; they
    /// hold `size_real` bytes, compressed with LZO1X where the two sizes
    /// differ.
    Archive { path: String, ptr: usize, size_compressed: usize, size_real: usize },
}

/// What the bytes of an archive member are.
#[derive(Debug, PartialEq, Eq)]
pub enum ArchivePayload {
    /// Stored as they are.
    Stored(Vec<u8>),
    /// LZO1X-compressed; `size_real` bytes once decompressed.
    Lzo1x { compressed: Vec<u8>, size_real: usize },
}

/// The payload of an archive member whose region of the archive holds
/// `region`: stored where the two sizes agree, else compressed. `None`
/// where the region is not `size_compressed` bytes long.
pub fn archive_payload(region: &[u8], size_compressed: usize, size_real: usize) -> (r: Option<ArchivePayload>)
    ensures
        region@.len() != size_compressed ==> r is None,
        region@.len() == size_compressed && size_compressed == size_real ==> match r {
            Some(ArchivePayload::Stored(v)) => v@ == region@,
            _ => false,
        },
        region@.len() == size_compressed && size_compressed != size_real ==> match r {
            Some(ArchivePayload::Lzo1x { compressed, size_real: n }) => compressed@ == region@ && n == size_real,
            _ => false,
        },
{
    if region.len() != size_compressed {
        None
    } else if size_compressed == size_real {
        Some(ArchivePayload::Stored(vstd::slice::slice_to_vec(region)))
    } else {
        Some(ArchivePayload::Lzo1x { compressed: vstd::slice::slice_to_vec(region), size_real })
    }
}

impl Filesystem {
    /// Where a read of `path` takes its bytes from: the disk for a file
    /// registered without an archive, the region of its archive for an
    /// archive member, never both.
    pub fn resolve(&self, path: &str) -> (r: Result<ReadSource, FilesystemFSPathError>)
        requires
            self.wf(),
        ensures
            match r {
                Err(FilesystemFSPathError::NotFound { path: p }) => p@ == path@ && !self.files().contains_key(path@),
                Ok(ReadSource::Disk(p)) => {
                    &&& self.files().contains_key(path@)
                    &&& self.files()[path@]@.archive is None
                    &&& p@ == path@
                },
                Ok(ReadSource::Archive { path: ap, ptr, size_compressed, size_real }) => {
                    let f = self.files()[path@]@;
                    &&& self.files().contains_key(path@)
                    &&& f.archive is Some
                    &&& f.archive->Some_0 < self.archives().len()
                    &&& ap@ == self.archives()[f.archive->Some_0 as int].spec_path()
                    &&& ptr == f.ptr
                    &&& size_compressed == f.size_compressed
                    &&& size_real == f.size_real
                    &&& ptr + size_compressed <= self.archives()[f.archive->Some_0 as int].spec_size()
                },
            },
    {
        match self.files.get(path) {
            None => Err(FilesystemFSPathError::NotFound { path: path.to_owned() }),
            Some(file) => match file.archive() {
                None => Ok(ReadSource::Disk(file.name().clone())),
                Some(a) => Ok(
                    ReadSource::Archive {
                        path: self.archives[a].path().clone(),
                        ptr: file.ptr(),
                        size_compressed: file.size_compressed(),
                        size_real: file.size_real(),
                    },
                ),
            },
        }
    }
}

} // verus!
