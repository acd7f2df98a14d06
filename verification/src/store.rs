//! The file store's state: loose reference files, the optional packed
//! file, per-name reflogs, and the set of held locks.
//!
//! The store models the repository's reference area as a value: loose
//! files are kept strictly sorted by path, reflog names and lock names are
//! unique. Reading never changes the state; transactions mutate it
//! through the methods here.

use vstd::prelude::*;
use crate::bytestr::{bytes_clone, bytes_eq, bytes_lt, lemma_lex_total, lex_lt};
use crate::log::{lines_of, Line, LineView};
use crate::packed::{name_in, Buffer, BufferError};

verus! {

/// The way a store handles reflogs on updates.
#[derive(Debug, PartialEq, Eq, Structural, Hash, Clone, Copy)]
pub enum WriteReflog {
    /// Write a reflog line for edits according to the standard rules.
    Normal,
    /// Never write a reflog line.
    Disable,
}

impl Default for WriteReflog {
    /// Reflogs are written unless switched off.
    fn default() -> (r: WriteReflog)
        ensures
            r == WriteReflog::Normal,
    {
        WriteReflog::Normal
    }
}

/// One loose reference file: its path relative to the store base, and its
/// raw content.
#[derive(Debug, Clone)]
pub struct LooseFile {
    /// The slash-separated path, which doubles as the reference name.
    pub path: Vec<u8>,
    /// The raw bytes of the file.
    pub content: Vec<u8>,
}

/// The mathematical value of a [`LooseFile`].
pub struct LooseFileView {
    /// The path bytes.
    pub path: Seq<u8>,
    /// The content bytes.
    pub content: Seq<u8>,
}

impl View for LooseFile {
    type V = LooseFileView;

    open spec fn view(&self) -> LooseFileView {
        LooseFileView { path: self.path@, content: self.content@ }
    }
}

/// The views of a list of loose files.
pub open spec fn files_of(files: Seq<LooseFile>) -> Seq<LooseFileView> {
    files.map_values(|f: LooseFile| f@)
}

impl LooseFile {
    /// A copy of this file.
    pub fn duplicate(&self) -> (r: LooseFile)
        ensures
            r@ == self@,
    {
        LooseFile { path: bytes_clone(&self.path), content: bytes_clone(&self.content) }
    }
}

/// The history file of one name.
#[derive(Debug, Clone)]
pub struct Reflog {
    /// The name whose history this is.
    pub name: Vec<u8>,
    /// The recorded transitions, oldest first.
    pub lines: Vec<Line>,
}

/// The mathematical value of a [`Reflog`].
pub struct ReflogView {
    /// The name bytes.
    pub name: Seq<u8>,
    /// The transitions, oldest first.
    pub lines: Seq<LineView>,
}

impl View for Reflog {
    type V = ReflogView;

    open spec fn view(&self) -> ReflogView {
        ReflogView { name: self.name@, lines: lines_of(self.lines@) }
    }
}

/// The views of a list of reflogs.
pub open spec fn logs_of(logs: Seq<Reflog>) -> Seq<ReflogView> {
    logs.map_values(|g: Reflog| g@)
}

/// Loose file paths strictly ascend (so they are also unique).
pub open spec fn files_sorted(files: Seq<LooseFileView>) -> bool {
    forall|i: int, j: int|
        0 <= i < j < files.len() ==> lex_lt(#[trigger] files[i].path, #[trigger] files[j].path)
}

/// The content of the file at `path`, if one exists.
pub open spec fn spec_file_at(files: Seq<LooseFileView>, path: Seq<u8>) -> Option<Seq<u8>>
    decreases files.len(),
{
    if files.len() == 0 {
        None
    } else if files[0].path == path {
        Some(files[0].content)
    } else {
        spec_file_at(files.skip(1), path)
    }
}

/// The file list with `f` written: an existing file of the same path is
/// replaced, otherwise `f` is inserted at its sorted position.
pub open spec fn spec_insert_file(files: Seq<LooseFileView>, f: LooseFileView) -> Seq<LooseFileView>
    decreases files.len(),
{
    if files.len() == 0 {
        seq![f]
    } else if lex_lt(f.path, files[0].path) {
        seq![f] + files
    } else if f.path == files[0].path {
        seq![f] + files.skip(1)
    } else {
        seq![files[0]] + spec_insert_file(files.skip(1), f)
    }
}

/// The file list with the file at `path` removed; without one it is
/// unchanged.
pub open spec fn spec_remove_file(files: Seq<LooseFileView>, path: Seq<u8>) -> Seq<LooseFileView>
    decreases files.len(),
{
    if files.len() == 0 {
        Seq::empty()
    } else if files[0].path == path {
        files.skip(1)
    } else {
        seq![files[0]] + spec_remove_file(files.skip(1), path)
    }
}

/// Reflog names are unique.
pub open spec fn logs_unique(logs: Seq<ReflogView>) -> bool {
    forall|i: int, j: int|
        0 <= i < j < logs.len() ==> (#[trigger] logs[i].name) != (#[trigger] logs[j].name)
}

/// The history of `name`, if any is recorded.
pub open spec fn spec_log_at(logs: Seq<ReflogView>, name: Seq<u8>) -> Option<Seq<LineView>>
    decreases logs.len(),
{
    if logs.len() == 0 {
        None
    } else if logs[0].name == name {
        Some(logs[0].lines)
    } else {
        spec_log_at(logs.skip(1), name)
    }
}

/// The histories with that of `name` removed.
pub open spec fn spec_log_delete(logs: Seq<ReflogView>, name: Seq<u8>) -> Seq<ReflogView>
    decreases logs.len(),
{
    if logs.len() == 0 {
        Seq::empty()
    } else if logs[0].name == name {
        logs.skip(1)
    } else {
        seq![logs[0]] + spec_log_delete(logs.skip(1), name)
    }
}

/// The histories with `line` appended to that of `name`, creating the
/// history when none exists.
pub open spec fn spec_log_append(logs: Seq<ReflogView>, name: Seq<u8>, line: LineView) -> Seq<
    ReflogView,
>
    decreases logs.len(),
{
    if logs.len() == 0 {
        seq![ReflogView { name, lines: seq![line] }]
    } else if logs[0].name == name {
        seq![ReflogView { name, lines: logs[0].lines.push(line) }] + logs.skip(1)
    } else {
        seq![logs[0]] + spec_log_append(logs.skip(1), name, line)
    }
}

/// Lock names are unique.
pub open spec fn names_unique(names: Seq<Seq<u8>>) -> bool {
    forall|i: int, j: int|
        0 <= i < j < names.len() ==> (#[trigger] names[i]) != (#[trigger] names[j])
}

/// The names with the first occurrence of `n` removed.
pub open spec fn spec_name_remove(names: Seq<Seq<u8>>, n: Seq<u8>) -> Seq<Seq<u8>>
    decreases names.len(),
{
    if names.len() == 0 {
        Seq::empty()
    } else if names[0] == n {
        names.skip(1)
    } else {
        seq![names[0]] + spec_name_remove(names.skip(1), n)
    }
}

/// A store for references which uses plain files, modelled by its state:
/// every loose file, the packed file's bytes, every reflog, and the locks
/// currently held by prepared transactions.
#[derive(Debug, Clone)]
pub struct Store {
    loose: Vec<LooseFile>,
    reflogs: Vec<Reflog>,
    packed: Option<Vec<u8>>,
    /// The way reflog lines are handled on updates.
    pub write_reflog: WriteReflog,
    locks: Vec<Vec<u8>>,
}

impl Store {
    /// The loose files, sorted by path.
    pub closed spec fn files(&self) -> Seq<LooseFileView> {
        files_of(self.loose@)
    }

    /// The reflogs.
    pub closed spec fn logs(&self) -> Seq<ReflogView> {
        logs_of(self.reflogs@)
    }

    /// The packed file's bytes, if the file exists.
    pub closed spec fn packed_bytes(&self) -> Option<Seq<u8>> {
        match self.packed {
            Some(ref v) => Some(v@),
            None => None,
        }
    }

    /// The names currently locked.
    pub closed spec fn lock_names(&self) -> Seq<Seq<u8>> {
        crate::name::views_of_bytes(self.locks@)
    }

    /// The way reflog lines are handled on updates.
    pub closed spec fn spec_reflog_mode(&self) -> WriteReflog {
        self.write_reflog
    }

    /// The loose files themselves, for read-only traversal.
    pub fn loose_files(&self) -> (r: &Vec<LooseFile>)
        ensures
            files_of(r@) == self.files(),
    {
        &self.loose
    }

    /// The number of loose files.
    pub fn loose_count(&self) -> (r: usize)
        ensures
            r == self.files().len(),
    {
        self.loose.len()
    }

    /// The way reflog lines are handled on updates.
    pub fn reflog_mode(&self) -> (r: WriteReflog)
        ensures
            r == self.spec_reflog_mode(),
    {
        self.write_reflog
    }

    /// A well-formed store: loose paths strictly sorted, reflog names and
    /// lock names unique.
    pub open spec fn wf(&self) -> bool {
        &&& files_sorted(self.files())
        &&& logs_unique(self.logs())
        &&& names_unique(self.lock_names())
    }

    /// An empty store.
    pub fn new(write_reflog: WriteReflog) -> (r: Store)
        ensures
            r.wf(),
            r.files() == Seq::<LooseFileView>::empty(),
            r.logs() == Seq::<ReflogView>::empty(),
            r.packed_bytes() is None,
            r.lock_names() == Seq::<Seq<u8>>::empty(),
            r.spec_reflog_mode() == write_reflog,
    {
        let s = Store {
            loose: Vec::new(),
            reflogs: Vec::new(),
            packed: None,
            write_reflog,
            locks: Vec::new(),
        };
        proof {
            assert(s.logs() =~= Seq::<ReflogView>::empty());
            assert(s.lock_names() =~= Seq::<Seq<u8>>::empty());
        }
        s
    }

    /// Writes the loose file at `path`, replacing any existing one.
    pub fn write_loose_file(&mut self, path: Vec<u8>, content: Vec<u8>)
        requires
            old(self).wf(),
        ensures
            final(self).wf(),
            final(self).files() == spec_insert_file(
                old(self).files(),
                LooseFileView { path: path@, content: content@ },
            ),
            final(self).logs() == old(self).logs(),
            final(self).packed_bytes() == old(self).packed_bytes(),
            final(self).lock_names() == old(self).lock_names(),
            final(self).spec_reflog_mode() == old(self).spec_reflog_mode(),
    {
        let ghost f = LooseFileView { path: path@, content: content@ };
        let ghost fs = self.files();
        let n: usize = self.loose.len();
        let mut i: usize = 0;
        while i < n && bytes_lt(&self.loose[i].path, &path)
            invariant
                n == self.loose@.len(),
                fs == self.files(),
                fs.len() == n,
                i <= n,
                forall|t: int| 0 <= t < i ==> lex_lt(#[trigger] fs[t].path, path@),
            decreases n - i,
        {
            proof {
                assert(fs[i as int] == self.loose@[i as int]@);
            }
            i += 1;
        }
        proof {
            if i < n {
                assert(fs[i as int] == self.loose@[i as int]@);
            }
        }
        let replace = i < n && bytes_eq(&self.loose[i].path, &path);
        let mut out: Vec<LooseFile> = Vec::new();
        let mut k: usize = 0;
        while k < i
            invariant
                i <= n == self.loose@.len(),
                fs == self.files(),
                fs.len() == n,
                k <= i,
                files_of(out@) =~= fs.take(k as int),
            decreases i - k,
        {
            proof {
                assert(fs[k as int] == self.loose@[k as int]@);
            }
            let ghost old_out = out@;
            out.push(self.loose[k].duplicate());
            proof {
                files_of_facts(old_out);
                files_of_facts(out@);
                assert(files_of(out@) =~= fs.take(k + 1));
            }
            k += 1;
        }
        let ghost mid_out = out@;
        out.push(LooseFile { path, content });
        proof {
            files_of_facts(mid_out);
            files_of_facts(out@);
            assert(files_of(out@) =~= fs.take(i as int) + seq![f]);
        }
        let start: usize = if replace {
            i + 1
        } else {
            i
        };
        let mut k2: usize = start;
        while k2 < n
            invariant
                i <= start <= n == self.loose@.len(),
                fs == self.files(),
                fs.len() == n,
                start <= k2 <= n,
                files_of(out@) =~= fs.take(i as int) + seq![f] + fs.subrange(
                    start as int,
                    k2 as int,
                ),
            decreases n - k2,
        {
            proof {
                assert(fs[k2 as int] == self.loose@[k2 as int]@);
            }
            let ghost old_out = out@;
            out.push(self.loose[k2].duplicate());
            proof {
                files_of_facts(old_out);
                files_of_facts(out@);
                let rhs_old = fs.take(i as int) + seq![f] + fs.subrange(start as int, k2 as int);
                let rhs_new = fs.take(i as int) + seq![f] + fs.subrange(start as int, k2 + 1);
                assert(files_of(old_out) == rhs_old);
                assert forall|u: int| 0 <= u < rhs_new.len() implies files_of(out@)[u]
                    == rhs_new[u] by {
                    if u < rhs_old.len() {
                        assert(files_of(old_out)[u] == rhs_old[u]);
                        assert(out@[u] == old_out[u]);
                    } else {
                        assert(out@[u]@ == fs[k2 as int]);
                    }
                }
                assert(files_of(out@) =~= rhs_new);
            }
            k2 += 1;
        }
        proof {
            lemma_insert_file_at(fs, f, i as int);
            if replace {
                assert(files_of(out@) =~= fs.take(i as int) + seq![f] + fs.skip(i + 1));
            } else {
                assert(files_of(out@) =~= fs.take(i as int) + seq![f] + fs.skip(i as int));
            }
            lemma_insert_file_sorted(fs, f);
        }
        self.loose = out;
    }

    /// Removes the loose file at `path`; without one this is a no-op.
    pub fn remove_loose_file(&mut self, path: &Vec<u8>)
        requires
            old(self).wf(),
        ensures
            final(self).wf(),
            final(self).files() == spec_remove_file(old(self).files(), path@),
            final(self).logs() == old(self).logs(),
            final(self).packed_bytes() == old(self).packed_bytes(),
            final(self).lock_names() == old(self).lock_names(),
            final(self).spec_reflog_mode() == old(self).spec_reflog_mode(),
    {
        let ghost fs = self.files();
        let n: usize = self.loose.len();
        let mut i: usize = 0;
        while i < n && !bytes_eq(&self.loose[i].path, path)
            invariant
                n == self.loose@.len(),
                fs == self.files(),
                fs.len() == n,
                i <= n,
                forall|t: int| 0 <= t < i ==> (#[trigger] fs[t].path) != path@,
            decreases n - i,
        {
            proof {
                assert(fs[i as int] == self.loose@[i as int]@);
            }
            i += 1;
        }
        if i == n {
            proof {
                lemma_remove_file_missing(fs, path@);
            }
            return;
        }
        proof {
            assert(fs[i as int] == self.loose@[i as int]@);
        }
        let mut out: Vec<LooseFile> = Vec::new();
        let mut k: usize = 0;
        while k < n
            invariant
                i < n == self.loose@.len(),
                fs == self.files(),
                fs.len() == n,
                k <= n,
                k <= i ==> files_of(out@) =~= fs.take(k as int),
                k > i ==> files_of(out@) =~= fs.take(i as int) + fs.subrange(i + 1, k as int),
            decreases n - k,
        {
            proof {
                assert(fs[k as int] == self.loose@[k as int]@);
            }
            if k != i {
                let ghost old_out = out@;
                out.push(self.loose[k].duplicate());
                proof {
                    files_of_facts(old_out);
                    files_of_facts(out@);
                    if k < i {
                        assert(files_of(out@) =~= fs.take(k + 1));
                    } else {
                        let rhs_old = fs.take(i as int) + fs.subrange(i + 1, k as int);
                        let rhs_new = fs.take(i as int) + fs.subrange(i + 1, k + 1);
                        assert(files_of(old_out) == rhs_old);
                        assert forall|u: int| 0 <= u < rhs_new.len() implies files_of(out@)[u]
                            == rhs_new[u] by {
                            if u < rhs_old.len() {
                                assert(files_of(old_out)[u] == rhs_old[u]);
                                assert(out@[u] == old_out[u]);
                            } else {
                                assert(out@[u]@ == fs[k as int]);
                            }
                        }
                        assert(files_of(out@) =~= rhs_new);
                    }
                }
            } else {
                proof {
                    files_of_facts(out@);
                    assert(files_of(out@) =~= fs.take(i as int) + fs.subrange(i + 1, i + 1));
                }
            }
            k += 1;
        }
        proof {
            lemma_remove_file_at(fs, path@, i as int);
            assert(files_of(out@) =~= fs.take(i as int) + fs.skip(i + 1));
            lemma_remove_file_sorted(fs, path@);
        }
        self.loose = out;
    }

    /// The content of the loose file at exactly `path`.
    pub fn loose_file_content(&self, path: &Vec<u8>) -> (r: Option<&Vec<u8>>)
        ensures
            match r {
                Some(c) => spec_file_at(self.files(), path@) == Some(c@),
                None => spec_file_at(self.files(), path@) is None,
            },
    {
        let n: usize = self.loose.len();
        let ghost files = self.files();
        proof {
            assert(files.skip(0) =~= files);
        }
        let mut i: usize = 0;
        while i < n
            invariant
                n == self.loose@.len(),
                files == self.files(),
                i <= n,
                spec_file_at(files, path@) == spec_file_at(files.skip(i as int), path@),
            decreases n - i,
        {
            proof {
                assert(files.skip(i as int)[0] == files[i as int]);
                assert(files.skip(i as int).skip(1) =~= files.skip(i + 1));
                assert(files[i as int] == self.loose@[i as int]@);
            }
            if bytes_eq(&self.loose[i].path, path) {
                return Some(&self.loose[i].content);
            }
            i += 1;
        }
        proof {
            assert(files.skip(n as int) =~= Seq::<LooseFileView>::empty());
        }
        None
    }

    /// Installs a packed file with the given bytes.
    pub fn put_packed_file(&mut self, bytes: Vec<u8>)
        requires
            old(self).wf(),
        ensures
            final(self).wf(),
            final(self).packed_bytes() == Some(bytes@),
            final(self).files() == old(self).files(),
            final(self).logs() == old(self).logs(),
            final(self).lock_names() == old(self).lock_names(),
            final(self).spec_reflog_mode() == old(self).spec_reflog_mode(),
    {
        self.packed = Some(bytes);
    }

    /// Removes the packed file; without one this is a no-op.
    pub fn delete_packed_file(&mut self)
        requires
            old(self).wf(),
        ensures
            final(self).wf(),
            final(self).packed_bytes() is None,
            final(self).files() == old(self).files(),
            final(self).logs() == old(self).logs(),
            final(self).lock_names() == old(self).lock_names(),
            final(self).spec_reflog_mode() == old(self).spec_reflog_mode(),
    {
        self.packed = None;
    }

    /// Loads a fresh snapshot of the packed file, or nothing when no
    /// packed file exists. A fresh call re-reads the state: staleness is
    /// bounded by the caller's re-fetch discipline.
    pub fn packed_buffer(&self) -> (r: Result<Option<Buffer>, BufferError>)
        ensures
            self.packed_bytes() is None <==> r == Ok::<Option<Buffer>, BufferError>(
                None::<Buffer>,
            ),
            match self.packed_bytes() {
                None => r == Ok::<Option<Buffer>, BufferError>(None::<Buffer>),
                Some(bytes) => match r {
                    Ok(Some(b)) => crate::packed::spec_parse_packed(bytes, 0) == Some(b@)
                        && crate::packed::buffer_wf(b),
                    Ok(None) => false,
                    Err(_) => !(crate::packed::spec_parse_packed(bytes, 0) is Some
                        && crate::packed::sorted_names(crate::packed::spec_parse_packed(bytes, 0)->0)),
                },
            },
    {
        match &self.packed {
            None => Ok(None),
            Some(bytes) => match Buffer::from_bytes(bytes) {
                Ok(b) => Ok(Some(b)),
                Err(e) => Err(e),
            },
        }
    }

    /// Does a reflog exist for `name`?
    pub fn reflog_exists(&self, name: &Vec<u8>) -> (r: bool)
        ensures
            r == (spec_log_at(self.logs(), name@) is Some),
    {
        let n: usize = self.reflogs.len();
        let ghost logs = self.logs();
        proof {
            assert(logs.skip(0) =~= logs);
        }
        let mut i: usize = 0;
        while i < n
            invariant
                n == self.reflogs@.len(),
                logs == self.logs(),
                logs.len() == n,
                i <= n,
                spec_log_at(logs, name@) == spec_log_at(logs.skip(i as int), name@),
            decreases n - i,
        {
            proof {
                assert(logs.skip(i as int)[0] == logs[i as int]);
                assert(logs.skip(i as int).skip(1) =~= logs.skip(i + 1));
                assert(logs[i as int] == self.reflogs@[i as int]@);
            }
            if bytes_eq(&self.reflogs[i].name, name) {
                return true;
            }
            i += 1;
        }
        proof {
            assert(logs.skip(n as int) =~= Seq::<ReflogView>::empty());
        }
        false
    }

    /// The recorded history of `name`, oldest line first, or nothing when
    /// no history exists.
    pub fn reflog_iter(&self, name: &Vec<u8>) -> (r: Option<Vec<Line>>)
        ensures
            match r {
                Some(lines) => spec_log_at(self.logs(), name@) == Some(lines_of(lines@)),
                None => spec_log_at(self.logs(), name@) is None,
            },
    {
        let n: usize = self.reflogs.len();
        let ghost logs = self.logs();
        proof {
            assert(logs.skip(0) =~= logs);
        }
        let mut i: usize = 0;
        while i < n
            invariant
                n == self.reflogs@.len(),
                logs == self.logs(),
                logs.len() == n,
                i <= n,
                spec_log_at(logs, name@) == spec_log_at(logs.skip(i as int), name@),
            decreases n - i,
        {
            proof {
                assert(logs.skip(i as int)[0] == logs[i as int]);
                assert(logs.skip(i as int).skip(1) =~= logs.skip(i + 1));
                assert(logs[i as int] == self.reflogs@[i as int]@);
            }
            if bytes_eq(&self.reflogs[i].name, name) {
                return Some(crate::log::duplicate_lines(&self.reflogs[i].lines));
            }
            i += 1;
        }
        proof {
            assert(logs.skip(n as int) =~= Seq::<ReflogView>::empty());
        }
        None
    }

    /// The recorded history of `name`, newest line first.
    pub fn reflog_iter_rev(&self, name: &Vec<u8>) -> (r: Option<Vec<Line>>)
        ensures
            match r {
                Some(lines) => spec_log_at(self.logs(), name@) == Some(lines_of(lines@).reverse()),
                None => spec_log_at(self.logs(), name@) is None,
            },
    {
        match self.reflog_iter(name) {
            Some(lines) => {
                let rev = crate::log::reverse_lines(&lines);
                proof {
                    assert(lines_of(rev@).reverse() =~= lines_of(lines@));
                }
                Some(rev)
            },
            None => None,
        }
    }

    /// Removes the history of `name`; without one this is a no-op.
    pub fn reflog_delete(&mut self, name: &Vec<u8>)
        requires
            old(self).wf(),
        ensures
            final(self).wf(),
            final(self).logs() == spec_log_delete(old(self).logs(), name@),
            final(self).files() == old(self).files(),
            final(self).packed_bytes() == old(self).packed_bytes(),
            final(self).lock_names() == old(self).lock_names(),
            final(self).spec_reflog_mode() == old(self).spec_reflog_mode(),
    {
        let n: usize = self.reflogs.len();
        let ghost logs = self.logs();
        let mut i: usize = 0;
        while i < n && !bytes_eq(&self.reflogs[i].name, name)
            invariant
                n == self.reflogs@.len(),
                logs == self.logs(),
                logs.len() == n,
                i <= n,
                forall|t: int| 0 <= t < i ==> (#[trigger] logs[t].name) != name@,
            decreases n - i,
        {
            proof {
                assert(logs[i as int] == self.reflogs@[i as int]@);
            }
            i += 1;
        }
        if i == n {
            proof {
                lemma_log_delete_missing(logs, name@);
            }
            return;
        }
        proof {
            assert(logs[i as int] == self.reflogs@[i as int]@);
        }
        let mut out: Vec<Reflog> = Vec::new();
        let mut k: usize = 0;
        while k < n
            invariant
                i < n == self.reflogs@.len(),
                logs == self.logs(),
                logs.len() == n,
                k <= n,
                logs_of(out@) =~= if k <= i {
                    logs.take(k as int)
                } else {
                    logs.take(i as int) + logs.subrange(i + 1, k as int)
                },
            decreases n - k,
        {
            proof {
                assert(logs[k as int] == self.reflogs@[k as int]@);
            }
            if k != i {
                let g = &self.reflogs[k];
                let ghost old_out = out@;
                out.push(Reflog {
                    name: bytes_clone(&g.name),
                    lines: crate::log::duplicate_lines(&g.lines),
                });
                proof {
                    logs_of_facts(old_out);
                    logs_of_facts(out@);
                    let t = logs_of(out@).len() - 1;
                    assert(out@[t]@.name == logs[k as int].name);
                    assert(out@[t]@.lines == logs[k as int].lines);
                    assert(out@[t]@ == logs[k as int]) by {
                        lemma_reflog_view_ext(out@[t]@, logs[k as int]);
                    }
                    if k < i {
                        assert(logs_of(out@) =~= logs.take(k + 1));
                    } else {
                        let rhs_old = logs.take(i as int) + logs.subrange(i + 1, k as int);
                        let rhs_new = logs.take(i as int) + logs.subrange(i + 1, k + 1);
                        assert(logs_of(old_out) == rhs_old);
                        assert forall|u: int| 0 <= u < rhs_new.len() implies logs_of(out@)[u]
                            == rhs_new[u] by {
                            if u < rhs_old.len() {
                                assert(logs_of(old_out)[u] == rhs_old[u]);
                                assert(out@[u] == old_out[u]);
                            } else {
                                assert(out@[u]@ == logs[k as int]);
                            }
                        }
                        assert(logs_of(out@) =~= rhs_new);
                    }
                }
            } else {
                proof {
                    logs_of_facts(out@);
                    assert(logs_of(out@) =~= logs.take(i as int) + logs.subrange(i + 1, i + 1));
                }
            }
            k += 1;
        }
        proof {
            lemma_log_delete_at(logs, name@, i as int);
            assert(logs_of(out@) =~= logs.take(i as int) + logs.skip(i + 1));
            lemma_log_delete_unique(logs, name@);
        }
        self.reflogs = out;
    }

    /// Appends `line` to the history of `name`, creating the history when
    /// none exists.
    pub fn reflog_append(&mut self, name: &Vec<u8>, line: Line)
        requires
            old(self).wf(),
        ensures
            final(self).wf(),
            final(self).logs() == spec_log_append(old(self).logs(), name@, line@),
            final(self).files() == old(self).files(),
            final(self).packed_bytes() == old(self).packed_bytes(),
            final(self).lock_names() == old(self).lock_names(),
            final(self).spec_reflog_mode() == old(self).spec_reflog_mode(),
    {
        let n: usize = self.reflogs.len();
        let ghost logs = self.logs();
        let mut i: usize = 0;
        while i < n && !bytes_eq(&self.reflogs[i].name, name)
            invariant
                n == self.reflogs@.len(),
                logs == self.logs(),
                logs.len() == n,
                i <= n,
                forall|t: int| 0 <= t < i ==> (#[trigger] logs[t].name) != name@,
            decreases n - i,
        {
            proof {
                assert(logs[i as int] == self.reflogs@[i as int]@);
            }
            i += 1;
        }
        let mut out: Vec<Reflog> = Vec::new();
        let mut k: usize = 0;
        while k < n
            invariant
                i <= n == self.reflogs@.len(),
                logs == self.logs(),
                logs.len() == n,
                k <= n,
                forall|t: int| 0 <= t < i ==> (#[trigger] logs[t].name) != name@,
                i < n ==> logs[i as int].name == name@,
                logs_of(out@) =~= if k <= i {
                    logs.take(k as int)
                } else {
                    logs.take(i as int) + seq![
                        ReflogView { name: name@, lines: logs[i as int].lines.push(line@) },
                    ] + logs.subrange(i + 1, k as int)
                },
            decreases n - k,
        {
            proof {
                assert(logs[k as int] == self.reflogs@[k as int]@);
            }
            if k != i {
                let g = &self.reflogs[k];
                let ghost old_out = out@;
                out.push(Reflog {
                    name: bytes_clone(&g.name),
                    lines: crate::log::duplicate_lines(&g.lines),
                });
                proof {
                    logs_of_facts(old_out);
                    logs_of_facts(out@);
                    let t = logs_of(out@).len() - 1;
                    lemma_reflog_view_ext(out@[t]@, logs[k as int]);
                    if k < i {
                        assert(logs_of(out@) =~= logs.take(k + 1));
                    } else {
                        let mid = ReflogView {
                            name: name@,
                            lines: logs[i as int].lines.push(line@),
                        };
                        let rhs_old = logs.take(i as int) + seq![mid] + logs.subrange(
                            i + 1,
                            k as int,
                        );
                        let rhs_new = logs.take(i as int) + seq![mid] + logs.subrange(i + 1, k + 1);
                        assert(logs_of(old_out) == rhs_old);
                        assert forall|u: int| 0 <= u < rhs_new.len() implies logs_of(out@)[u]
                            == rhs_new[u] by {
                            if u < rhs_old.len() {
                                assert(logs_of(old_out)[u] == rhs_old[u]);
                                assert(out@[u] == old_out[u]);
                            } else {
                                assert(out@[u]@ == logs[k as int]);
                            }
                        }
                        assert(logs_of(out@) =~= rhs_new);
                    }
                }
            } else {
                let g = &self.reflogs[k];
                let mut lines = crate::log::duplicate_lines(&g.lines);
                lines.push(line.duplicate());
                let ghost old_out = out@;
                out.push(Reflog { name: bytes_clone(&g.name), lines });
                proof {
                    logs_of_facts(old_out);
                    logs_of_facts(out@);
                    let t = logs_of(out@).len() - 1;
                    assert(out@[t]@.name == name@);
                    assert(out@[t]@.lines =~= logs[i as int].lines.push(line@));
                    lemma_reflog_view_ext(
                        out@[t]@,
                        ReflogView { name: name@, lines: logs[i as int].lines.push(line@) },
                    );
                    assert(logs_of(out@) =~= logs.take(i as int) + seq![
                        ReflogView { name: name@, lines: logs[i as int].lines.push(line@) },
                    ] + logs.subrange(i + 1, k + 1));
                }
            }
            k += 1;
        }
        if i == n {
            let mut lines: Vec<Line> = Vec::new();
            lines.push(line);
            let ghost old_out = out@;
            out.push(Reflog { name: bytes_clone(name), lines });
            proof {
                logs_of_facts(old_out);
                logs_of_facts(out@);
                let t = logs_of(out@).len() - 1;
                assert(out@[t]@.name == name@);
                assert(out@[t]@.lines =~= seq![line@]);
                lemma_reflog_view_ext(out@[t]@, ReflogView { name: name@, lines: seq![line@] });
                let rhs_old = logs.take(i as int);
                assert(logs_of(old_out) == rhs_old);
                let rhs_new = logs + seq![ReflogView { name: name@, lines: seq![line@] }];
                assert forall|u: int| 0 <= u < rhs_new.len() implies logs_of(out@)[u]
                    == rhs_new[u] by {
                    if u < rhs_old.len() {
                        assert(logs_of(old_out)[u] == rhs_old[u]);
                        assert(out@[u] == old_out[u]);
                    }
                }
                assert(logs_of(out@) =~= rhs_new);
                lemma_log_append_missing(logs, name@, line@);
            }
        } else {
            proof {
                lemma_log_append_at(logs, name@, line@, i as int);
                assert(logs_of(out@) =~= logs.take(i as int) + seq![
                    ReflogView { name: name@, lines: logs[i as int].lines.push(line@) },
                ] + logs.skip(i + 1));
            }
        }
        proof {
            lemma_log_append_unique(logs, name@, line@);
        }
        self.reflogs = out;
    }

    /// Is `name` currently locked?
    pub fn is_locked(&self, name: &Vec<u8>) -> (r: bool)
        ensures
            r == name_in(self.lock_names(), name@),
    {
        let n: usize = self.locks.len();
        let mut i: usize = 0;
        while i < n
            invariant
                n == self.locks@.len(),
                i <= n,
                forall|t: int| 0 <= t < i ==> (#[trigger] self.lock_names()[t]) != name@,
            decreases n - i,
        {
            proof {
                assert(self.lock_names()[i as int] == self.locks@[i as int]@);
            }
            if bytes_eq(&self.locks[i], name) {
                return true;
            }
            i += 1;
        }
        false
    }

    /// Takes the exclusive lock on `name`; `name` must not be locked.
    pub fn add_lock(&mut self, name: Vec<u8>)
        requires
            old(self).wf(),
            !name_in(old(self).lock_names(), name@),
        ensures
            final(self).wf(),
            final(self).lock_names() == old(self).lock_names().push(name@),
            final(self).files() == old(self).files(),
            final(self).logs() == old(self).logs(),
            final(self).packed_bytes() == old(self).packed_bytes(),
            final(self).spec_reflog_mode() == old(self).spec_reflog_mode(),
    {
        self.locks.push(name);
        proof {
            assert(self.lock_names() =~= old(self).lock_names().push(name@));
        }
    }

    /// Releases the lock on `name`; held by no one, this is a no-op.
    pub fn remove_lock(&mut self, name: &Vec<u8>)
        requires
            old(self).wf(),
        ensures
            final(self).wf(),
            final(self).lock_names() == spec_name_remove(old(self).lock_names(), name@),
            final(self).files() == old(self).files(),
            final(self).logs() == old(self).logs(),
            final(self).packed_bytes() == old(self).packed_bytes(),
            final(self).spec_reflog_mode() == old(self).spec_reflog_mode(),
    {
        let n: usize = self.locks.len();
        let ghost names = self.lock_names();
        let mut i: usize = 0;
        while i < n && !bytes_eq(&self.locks[i], name)
            invariant
                n == self.locks@.len(),
                names == self.lock_names(),
                names.len() == n,
                i <= n,
                forall|t: int| 0 <= t < i ==> (#[trigger] names[t]) != name@,
            decreases n - i,
        {
            proof {
                assert(names[i as int] == self.locks@[i as int]@);
            }
            i += 1;
        }
        if i == n {
            proof {
                lemma_name_remove_missing(names, name@);
            }
            return;
        }
        proof {
            assert(names[i as int] == self.locks@[i as int]@);
        }
        let mut out: Vec<Vec<u8>> = Vec::new();
        let mut k: usize = 0;
        while k < n
            invariant
                i < n == self.locks@.len(),
                names == self.lock_names(),
                names.len() == n,
                k <= n,
                crate::name::views_of_bytes(out@) =~= if k <= i {
                    names.take(k as int)
                } else {
                    names.take(i as int) + names.subrange(i + 1, k as int)
                },
            decreases n - k,
        {
            proof {
                assert(names[k as int] == self.locks@[k as int]@);
            }
            if k != i {
                let ghost old_out = out@;
                out.push(bytes_clone(&self.locks[k]));
                proof {
                    names_of_facts(old_out);
                    names_of_facts(out@);
                    if k < i {
                        assert(crate::name::views_of_bytes(out@) =~= names.take(k + 1));
                    } else {
                        let rhs_old = names.take(i as int) + names.subrange(i + 1, k as int);
                        let rhs_new = names.take(i as int) + names.subrange(i + 1, k + 1);
                        assert(crate::name::views_of_bytes(old_out) == rhs_old);
                        assert forall|u: int|
                            0 <= u < rhs_new.len() implies crate::name::views_of_bytes(out@)[u]
                            == rhs_new[u] by {
                            if u < rhs_old.len() {
                                assert(crate::name::views_of_bytes(old_out)[u] == rhs_old[u]);
                                assert(out@[u] == old_out[u]);
                            } else {
                                assert(out@[u]@ == names[k as int]);
                            }
                        }
                        assert(crate::name::views_of_bytes(out@) =~= rhs_new);
                    }
                }
            } else {
                proof {
                    names_of_facts(out@);
                    assert(crate::name::views_of_bytes(out@) =~= names.take(i as int)
                        + names.subrange(i + 1, i + 1));
                }
            }
            k += 1;
        }
        proof {
            lemma_name_remove_at(names, name@, i as int);
            assert(crate::name::views_of_bytes(out@) =~= names.take(i as int) + names.skip(i + 1));
            lemma_name_remove_unique(names, name@);
        }
        self.locks = out;
    }
}

/// Two reflog views with equal fields are equal values.
proof fn lemma_reflog_view_ext(a: ReflogView, b: ReflogView)
    requires
        a.name == b.name,
        a.lines == b.lines,
    ensures
        a == b,
{
}

proof fn lemma_insert_file_at(files: Seq<LooseFileView>, f: LooseFileView, i: int)
    requires
        files_sorted(files),
        0 <= i <= files.len(),
        forall|t: int| 0 <= t < i ==> lex_lt(#[trigger] files[t].path, f.path),
        i < files.len() ==> !lex_lt(files[i].path, f.path),
    ensures
        spec_insert_file(files, f) == if i < files.len() && files[i].path == f.path {
            files.take(i) + seq![f] + files.skip(i + 1)
        } else {
            files.take(i) + seq![f] + files.skip(i)
        },
    decreases i,
{
    if i == 0 {
        if files.len() == 0 {
            assert(spec_insert_file(files, f) =~= files.take(0) + seq![f] + files.skip(0));
        } else if files[0].path == f.path {
            assert(spec_insert_file(files, f) =~= files.take(0) + seq![f] + files.skip(1));
        } else {
            lemma_lex_total(f.path, files[0].path);
            assert(lex_lt(f.path, files[0].path));
            assert(spec_insert_file(files, f) =~= files.take(0) + seq![f] + files.skip(0));
        }
    } else {
        assert(lex_lt(files[0].path, f.path));
        lemma_lex_total(f.path, files[0].path);
        assert(files_sorted(files.skip(1))) by {
            assert(forall|a: int, b: int|
                0 <= a < b < files.skip(1).len() ==> #[trigger] files.skip(1)[a] == files[a + 1]
                    && #[trigger] files.skip(1)[b] == files[b + 1]);
        }
        assert(forall|t: int|
            0 <= t < i - 1 ==> lex_lt(#[trigger] files.skip(1)[t].path, f.path)) by {
            assert(forall|t: int|
                0 <= t < i - 1 ==> #[trigger] files.skip(1)[t] == files[t + 1]);
        }
        assert(i - 1 < files.skip(1).len() ==> !lex_lt(files.skip(1)[i - 1].path, f.path));
        lemma_insert_file_at(files.skip(1), f, i - 1);
        if i < files.len() && files[i].path == f.path {
            assert(files.skip(1).take(i - 1) + seq![f] + files.skip(1).skip(i) =~= files.subrange(
                1,
                i,
            ) + seq![f] + files.skip(i + 1));
            assert(seq![files[0]] + (files.subrange(1, i) + seq![f] + files.skip(i + 1))
                =~= files.take(i) + seq![f] + files.skip(i + 1));
        } else {
            assert(files.skip(1).take(i - 1) + seq![f] + files.skip(1).skip(i - 1) =~= files.subrange(
                1,
                i,
            ) + seq![f] + files.skip(i));
            assert(seq![files[0]] + (files.subrange(1, i) + seq![f] + files.skip(i)) =~= files.take(
                i,
            ) + seq![f] + files.skip(i));
        }
    }
}

/// Writing keeps the files sorted.
proof fn lemma_insert_file_sorted(files: Seq<LooseFileView>, f: LooseFileView)
    requires
        files_sorted(files),
    ensures
        files_sorted(spec_insert_file(files, f)),
        spec_file_at(spec_insert_file(files, f), f.path) == Some(f.content),
        forall|q: Seq<u8>|
            q != f.path ==> #[trigger] spec_file_at(spec_insert_file(files, f), q) == spec_file_at(
                files,
                q,
            ),
    decreases files.len(),
{
    let out = spec_insert_file(files, f);
    if files.len() == 0 {
        assert(out =~= seq![f]);
        assert(out.skip(1) =~= Seq::<LooseFileView>::empty());
        assert(forall|q: Seq<u8>|
            q != f.path ==> #[trigger] spec_file_at(out, q) == spec_file_at(
                Seq::<LooseFileView>::empty(),
                q,
            ));
    } else if lex_lt(f.path, files[0].path) {
        assert(out =~= seq![f] + files);
        assert(out.skip(1) =~= files);
        assert forall|a: int, b: int| 0 <= a < b < out.len() implies lex_lt(
            #[trigger] out[a].path,
            #[trigger] out[b].path,
        ) by {
            if a == 0 {
                if b > 1 {
                    crate::bytestr::lemma_lex_trans(f.path, files[0].path, files[b - 1].path);
                }
            }
        }
    } else if f.path == files[0].path {
        assert(out =~= seq![f] + files.skip(1));
        assert(out.skip(1) =~= files.skip(1));
        assert forall|a: int, b: int| 0 <= a < b < out.len() implies lex_lt(
            #[trigger] out[a].path,
            #[trigger] out[b].path,
        ) by {
            if a == 0 {
                assert(out[b] == files[b]);
                assert(lex_lt(files[0].path, files[b].path));
            } else {
                assert(out[a] == files[a] && out[b] == files[b]);
            }
        }
        assert forall|q: Seq<u8>| q != f.path implies #[trigger] spec_file_at(out, q)
            == spec_file_at(files, q) by {
            assert(spec_file_at(out, q) == spec_file_at(files.skip(1), q));
        }
    } else {
        lemma_lex_total(f.path, files[0].path);
        assert(lex_lt(files[0].path, f.path));
        assert(files_sorted(files.skip(1))) by {
            assert(forall|a: int, b: int|
                0 <= a < b < files.skip(1).len() ==> #[trigger] files.skip(1)[a] == files[a + 1]
                    && #[trigger] files.skip(1)[b] == files[b + 1]);
        }
        lemma_insert_file_sorted(files.skip(1), f);
        assert(out =~= seq![files[0]] + spec_insert_file(files.skip(1), f));
        assert(out.skip(1) =~= spec_insert_file(files.skip(1), f));
        assert forall|a: int, b: int| 0 <= a < b < out.len() implies lex_lt(
            #[trigger] out[a].path,
            #[trigger] out[b].path,
        ) by {
            if a == 0 {
                lemma_insert_members(files.skip(1), f, b - 1);
                let x = out[b];
                assert(x == spec_insert_file(files.skip(1), f)[b - 1]);
                if x == f {
                    assert(lex_lt(files[0].path, f.path));
                } else {
                    let w = choose|w: int|
                        0 <= w < files.skip(1).len() && files.skip(1)[w] == x;
                    assert(files.skip(1)[w] == files[w + 1]);
                    assert(lex_lt(files[0].path, files[w + 1].path));
                }
            }
        }
        assert(spec_file_at(out, f.path) == spec_file_at(
            spec_insert_file(files.skip(1), f),
            f.path,
        ));
        assert forall|q: Seq<u8>| q != f.path implies #[trigger] spec_file_at(out, q)
            == spec_file_at(files, q) by {
            if q == files[0].path {
                assert(spec_file_at(out, q) == Some(files[0].content));
            } else {
                assert(spec_file_at(out, q) == spec_file_at(spec_insert_file(files.skip(1), f), q));
            }
        }
    }
}

/// Every member of an insertion result is the new file or an old one.
proof fn lemma_insert_members(files: Seq<LooseFileView>, f: LooseFileView, k: int)
    requires
        0 <= k < spec_insert_file(files, f).len(),
    ensures
        spec_insert_file(files, f)[k] == f || exists|w: int|
            0 <= w < files.len() && files[w] == spec_insert_file(files, f)[k],
    decreases files.len(),
{
    let out = spec_insert_file(files, f);
    if files.len() == 0 {
    } else if lex_lt(f.path, files[0].path) {
        if k > 0 {
            assert(files[k - 1] == out[k]);
        }
    } else if f.path == files[0].path {
        if k > 0 {
            assert(files[k] == out[k]);
        }
    } else {
        if k == 0 {
            assert(out[0] == files[0]);
        } else {
            lemma_insert_members(files.skip(1), f, k - 1);
            assert(out[k] == spec_insert_file(files.skip(1), f)[k - 1]);
            if spec_insert_file(files.skip(1), f)[k - 1] != f {
                let w = choose|w: int|
                    0 <= w < files.skip(1).len() && files.skip(1)[w] == spec_insert_file(
                        files.skip(1),
                        f,
                    )[k - 1];
                assert(files[w + 1] == out[k]);
            }
        }
    }
}

pub proof fn lemma_remove_file_missing(files: Seq<LooseFileView>, path: Seq<u8>)
    requires
        forall|t: int| 0 <= t < files.len() ==> (#[trigger] files[t].path) != path,
    ensures
        spec_remove_file(files, path) == files,
    decreases files.len(),
{
    if files.len() > 0 {
        assert(forall|t: int|
            0 <= t < files.skip(1).len() ==> #[trigger] files.skip(1)[t] == files[t + 1]);
        lemma_remove_file_missing(files.skip(1), path);
        assert(spec_remove_file(files, path) =~= files);
    } else {
        assert(spec_remove_file(files, path) =~= files);
    }
}

proof fn lemma_remove_file_at(files: Seq<LooseFileView>, path: Seq<u8>, i: int)
    requires
        0 <= i < files.len(),
        files[i].path == path,
        forall|t: int| 0 <= t < i ==> (#[trigger] files[t].path) != path,
    ensures
        spec_remove_file(files, path) == files.take(i) + files.skip(i + 1),
    decreases i,
{
    if i == 0 {
        assert(spec_remove_file(files, path) =~= files.take(0) + files.skip(1));
    } else {
        assert(forall|t: int|
            0 <= t < files.skip(1).len() ==> #[trigger] files.skip(1)[t] == files[t + 1]);
        lemma_remove_file_at(files.skip(1), path, i - 1);
        assert(seq![files[0]] + (files.skip(1).take(i - 1) + files.skip(1).skip(i)) =~= files.take(
            i,
        ) + files.skip(i + 1));
    }
}

/// Removal keeps the files sorted and affects only the removed path.
proof fn lemma_remove_file_sorted(files: Seq<LooseFileView>, path: Seq<u8>)
    requires
        files_sorted(files),
    ensures
        files_sorted(spec_remove_file(files, path)),
        spec_file_at(spec_remove_file(files, path), path) is None,
        forall|q: Seq<u8>|
            q != path ==> #[trigger] spec_file_at(spec_remove_file(files, path), q) == spec_file_at(
                files,
                q,
            ),
    decreases files.len(),
{
    let out = spec_remove_file(files, path);
    if files.len() == 0 {
        assert(forall|q: Seq<u8>| #[trigger] spec_file_at(out, q) == spec_file_at(files, q));
    } else if files[0].path == path {
        assert(out =~= files.skip(1));
        assert(files_sorted(files.skip(1))) by {
            assert(forall|a: int, b: int|
                0 <= a < b < files.skip(1).len() ==> #[trigger] files.skip(1)[a] == files[a + 1]
                    && #[trigger] files.skip(1)[b] == files[b + 1]);
        }
        assert(spec_file_at(out, path) is None) by {
            assert(forall|t: int|
                0 <= t < files.skip(1).len() ==> (#[trigger] files.skip(1)[t].path) != path) by {
                assert(forall|t: int|
                    0 <= t < files.skip(1).len() ==> #[trigger] files.skip(1)[t] == files[t + 1]);
                assert forall|t: int| 0 <= t < files.skip(1).len() implies (#[trigger] files.skip(
                    1,
                )[t].path) != path by {
                    assert(lex_lt(files[0].path, files[t + 1].path));
                    lemma_lex_total(files[0].path, files[t + 1].path);
                }
            }
            lemma_file_at_miss(files.skip(1), path);
        }
    } else {
        assert(files_sorted(files.skip(1))) by {
            assert(forall|a: int, b: int|
                0 <= a < b < files.skip(1).len() ==> #[trigger] files.skip(1)[a] == files[a + 1]
                    && #[trigger] files.skip(1)[b] == files[b + 1]);
        }
        lemma_remove_file_sorted(files.skip(1), path);
        assert(out =~= seq![files[0]] + spec_remove_file(files.skip(1), path));
        assert(out.skip(1) =~= spec_remove_file(files.skip(1), path));
        assert forall|a: int, b: int| 0 <= a < b < out.len() implies lex_lt(
            #[trigger] out[a].path,
            #[trigger] out[b].path,
        ) by {
            if a == 0 {
                lemma_remove_members(files.skip(1), path, b - 1);
                let x = out[b];
                let w = choose|w: int| 0 <= w < files.skip(1).len() && files.skip(1)[w] == x;
                assert(files.skip(1)[w] == files[w + 1]);
                assert(lex_lt(files[0].path, files[w + 1].path));
            } else {
                assert(out[a] == spec_remove_file(files.skip(1), path)[a - 1]);
                assert(out[b] == spec_remove_file(files.skip(1), path)[b - 1]);
            }
        }
        assert(spec_file_at(out, path) == spec_file_at(spec_remove_file(files.skip(1), path), path));
        assert forall|q: Seq<u8>| q != path implies #[trigger] spec_file_at(out, q) == spec_file_at(
            files,
            q,
        ) by {
            if q == files[0].path {
                assert(spec_file_at(out, q) == Some(files[0].content));
            } else {
                assert(spec_file_at(out, q) == spec_file_at(
                    spec_remove_file(files.skip(1), path),
                    q,
                ));
            }
        }
    }
}

proof fn lemma_remove_members(files: Seq<LooseFileView>, path: Seq<u8>, k: int)
    requires
        0 <= k < spec_remove_file(files, path).len(),
    ensures
        exists|w: int| 0 <= w < files.len() && files[w] == spec_remove_file(files, path)[k],
    decreases files.len(),
{
    let out = spec_remove_file(files, path);
    if files[0].path == path {
        assert(files[k + 1] == out[k]);
    } else {
        if k == 0 {
            assert(files[0] == out[0]);
        } else {
            lemma_remove_members(files.skip(1), path, k - 1);
            let w = choose|w: int|
                0 <= w < files.skip(1).len() && files.skip(1)[w] == spec_remove_file(
                    files.skip(1),
                    path,
                )[k - 1];
            assert(files[w + 1] == out[k]);
        }
    }
}

/// Without a file of that path there is no content.
pub proof fn lemma_file_at_miss(files: Seq<LooseFileView>, path: Seq<u8>)
    requires
        forall|t: int| 0 <= t < files.len() ==> (#[trigger] files[t].path) != path,
    ensures
        spec_file_at(files, path) is None,
    decreases files.len(),
{
    if files.len() > 0 {
        assert(forall|t: int|
            0 <= t < files.skip(1).len() ==> #[trigger] files.skip(1)[t] == files[t + 1]);
        lemma_file_at_miss(files.skip(1), path);
    }
}

pub proof fn lemma_log_delete_missing(logs: Seq<ReflogView>, name: Seq<u8>)
    requires
        forall|t: int| 0 <= t < logs.len() ==> (#[trigger] logs[t].name) != name,
    ensures
        spec_log_delete(logs, name) == logs,
    decreases logs.len(),
{
    if logs.len() > 0 {
        assert(forall|t: int|
            0 <= t < logs.skip(1).len() ==> #[trigger] logs.skip(1)[t] == logs[t + 1]);
        lemma_log_delete_missing(logs.skip(1), name);
        assert(spec_log_delete(logs, name) =~= logs);
    } else {
        assert(spec_log_delete(logs, name) =~= logs);
    }
}

proof fn lemma_log_delete_at(logs: Seq<ReflogView>, name: Seq<u8>, i: int)
    requires
        0 <= i < logs.len(),
        logs[i].name == name,
        forall|t: int| 0 <= t < i ==> (#[trigger] logs[t].name) != name,
    ensures
        spec_log_delete(logs, name) == logs.take(i) + logs.skip(i + 1),
    decreases i,
{
    if i == 0 {
        assert(spec_log_delete(logs, name) =~= logs.take(0) + logs.skip(1));
    } else {
        assert(forall|t: int|
            0 <= t < logs.skip(1).len() ==> #[trigger] logs.skip(1)[t] == logs[t + 1]);
        lemma_log_delete_at(logs.skip(1), name, i - 1);
        assert(seq![logs[0]] + (logs.skip(1).take(i - 1) + logs.skip(1).skip(i)) =~= logs.take(i)
            + logs.skip(i + 1));
    }
}

/// Deleting a history keeps names unique and affects only that name.
proof fn lemma_log_delete_unique(logs: Seq<ReflogView>, name: Seq<u8>)
    requires
        logs_unique(logs),
    ensures
        logs_unique(spec_log_delete(logs, name)),
        spec_log_at(spec_log_delete(logs, name), name) is None,
        forall|q: Seq<u8>|
            q != name ==> #[trigger] spec_log_at(spec_log_delete(logs, name), q) == spec_log_at(
                logs,
                q,
            ),
    decreases logs.len(),
{
    let out = spec_log_delete(logs, name);
    if logs.len() == 0 {
        assert(forall|q: Seq<u8>| #[trigger] spec_log_at(out, q) == spec_log_at(logs, q));
    } else if logs[0].name == name {
        assert(out =~= logs.skip(1));
        assert(forall|t: int|
            0 <= t < logs.skip(1).len() ==> #[trigger] logs.skip(1)[t] == logs[t + 1]);
        assert(spec_log_at(out, name) is None) by {
            lemma_log_at_miss(logs.skip(1), name);
        }
    } else {
        assert(forall|t: int|
            0 <= t < logs.skip(1).len() ==> #[trigger] logs.skip(1)[t] == logs[t + 1]);
        lemma_log_delete_unique(logs.skip(1), name);
        assert(out =~= seq![logs[0]] + spec_log_delete(logs.skip(1), name));
        assert(out.skip(1) =~= spec_log_delete(logs.skip(1), name));
        assert forall|a: int, b: int| 0 <= a < b < out.len() implies (#[trigger] out[a].name)
            != (#[trigger] out[b].name) by {
            if a == 0 {
                lemma_log_delete_members(logs.skip(1), name, b - 1);
                let x = out[b];
                let w = choose|w: int| 0 <= w < logs.skip(1).len() && logs.skip(1)[w] == x;
                assert(logs[w + 1] == x);
            } else {
                assert(out[a] == spec_log_delete(logs.skip(1), name)[a - 1]);
                assert(out[b] == spec_log_delete(logs.skip(1), name)[b - 1]);
            }
        }
        assert(spec_log_at(out, name) == spec_log_at(spec_log_delete(logs.skip(1), name), name));
        assert forall|q: Seq<u8>| q != name implies #[trigger] spec_log_at(out, q) == spec_log_at(
            logs,
            q,
        ) by {
            if q == logs[0].name {
                assert(spec_log_at(out, q) == Some(logs[0].lines));
            } else {
                assert(spec_log_at(out, q) == spec_log_at(spec_log_delete(logs.skip(1), name), q));
            }
        }
    }
}

proof fn lemma_log_delete_members(logs: Seq<ReflogView>, name: Seq<u8>, k: int)
    requires
        0 <= k < spec_log_delete(logs, name).len(),
    ensures
        exists|w: int| 0 <= w < logs.len() && logs[w] == spec_log_delete(logs, name)[k],
    decreases logs.len(),
{
    let out = spec_log_delete(logs, name);
    if logs[0].name == name {
        assert(logs[k + 1] == out[k]);
    } else {
        if k == 0 {
            assert(logs[0] == out[0]);
        } else {
            lemma_log_delete_members(logs.skip(1), name, k - 1);
            let w = choose|w: int|
                0 <= w < logs.skip(1).len() && logs.skip(1)[w] == spec_log_delete(
                    logs.skip(1),
                    name,
                )[k - 1];
            assert(logs[w + 1] == out[k]);
        }
    }
}

/// Without a history of that name there are no lines.
pub proof fn lemma_log_at_miss(logs: Seq<ReflogView>, name: Seq<u8>)
    requires
        forall|t: int| 0 <= t < logs.len() ==> (#[trigger] logs[t].name) != name,
    ensures
        spec_log_at(logs, name) is None,
    decreases logs.len(),
{
    if logs.len() > 0 {
        assert(forall|t: int|
            0 <= t < logs.skip(1).len() ==> #[trigger] logs.skip(1)[t] == logs[t + 1]);
        lemma_log_at_miss(logs.skip(1), name);
    }
}

proof fn lemma_log_append_missing(logs: Seq<ReflogView>, name: Seq<u8>, line: LineView)
    requires
        forall|t: int| 0 <= t < logs.len() ==> (#[trigger] logs[t].name) != name,
    ensures
        spec_log_append(logs, name, line) == logs + seq![ReflogView { name, lines: seq![line] }],
    decreases logs.len(),
{
    if logs.len() == 0 {
        assert(spec_log_append(logs, name, line) =~= logs + seq![
            ReflogView { name, lines: seq![line] },
        ]);
    } else {
        assert(forall|t: int|
            0 <= t < logs.skip(1).len() ==> #[trigger] logs.skip(1)[t] == logs[t + 1]);
        lemma_log_append_missing(logs.skip(1), name, line);
        assert(spec_log_append(logs, name, line) =~= logs + seq![
            ReflogView { name, lines: seq![line] },
        ]);
    }
}

proof fn lemma_log_append_at(logs: Seq<ReflogView>, name: Seq<u8>, line: LineView, i: int)
    requires
        0 <= i < logs.len(),
        logs[i].name == name,
        forall|t: int| 0 <= t < i ==> (#[trigger] logs[t].name) != name,
    ensures
        spec_log_append(logs, name, line) == logs.take(i) + seq![
            ReflogView { name, lines: logs[i].lines.push(line) },
        ] + logs.skip(i + 1),
    decreases i,
{
    if i == 0 {
        assert(spec_log_append(logs, name, line) =~= logs.take(0) + seq![
            ReflogView { name, lines: logs[0].lines.push(line) },
        ] + logs.skip(1));
    } else {
        assert(forall|t: int|
            0 <= t < logs.skip(1).len() ==> #[trigger] logs.skip(1)[t] == logs[t + 1]);
        lemma_log_append_at(logs.skip(1), name, line, i - 1);
        assert(seq![logs[0]] + (logs.skip(1).take(i - 1) + seq![
            ReflogView { name, lines: logs[i].lines.push(line) },
        ] + logs.skip(1).skip(i)) =~= logs.take(i) + seq![
            ReflogView { name, lines: logs[i].lines.push(line) },
        ] + logs.skip(i + 1));
    }
}

/// Appending keeps names unique, appends to that name's lines, and leaves
/// other histories alone.
proof fn lemma_log_append_unique(logs: Seq<ReflogView>, name: Seq<u8>, line: LineView)
    requires
        logs_unique(logs),
    ensures
        logs_unique(spec_log_append(logs, name, line)),
        spec_log_at(spec_log_append(logs, name, line), name) == Some(
            match spec_log_at(logs, name) {
                Some(lines) => lines.push(line),
                None => seq![line],
            },
        ),
        forall|q: Seq<u8>|
            q != name ==> #[trigger] spec_log_at(spec_log_append(logs, name, line), q)
                == spec_log_at(logs, q),
    decreases logs.len(),
{
    let out = spec_log_append(logs, name, line);
    if logs.len() == 0 {
        assert(out =~= seq![ReflogView { name, lines: seq![line] }]);
        assert(out[0].name == name);
        assert(spec_log_at(out, name) == Some(seq![line]));
        assert forall|q: Seq<u8>| q != name implies #[trigger] spec_log_at(out, q) == spec_log_at(
            logs,
            q,
        ) by {
            assert(spec_log_at(out.skip(1), q) is None) by {
                assert(out.skip(1) =~= Seq::<ReflogView>::empty());
            }
        }
    } else if logs[0].name == name {
        assert(out =~= seq![ReflogView { name, lines: logs[0].lines.push(line) }] + logs.skip(1));
        assert(forall|t: int|
            0 <= t < logs.skip(1).len() ==> #[trigger] logs.skip(1)[t] == logs[t + 1]);
        assert forall|a: int, b: int| 0 <= a < b < out.len() implies (#[trigger] out[a].name)
            != (#[trigger] out[b].name) by {
            if a == 0 {
                assert(out[b] == logs[b]);
            } else {
                assert(out[a] == logs[a] && out[b] == logs[b]);
            }
        }
        assert(spec_log_at(out, name) == Some(logs[0].lines.push(line)));
        assert forall|q: Seq<u8>| q != name implies #[trigger] spec_log_at(out, q) == spec_log_at(
            logs,
            q,
        ) by {
            assert(out.skip(1) =~= logs.skip(1));
        }
    } else {
        assert(forall|t: int|
            0 <= t < logs.skip(1).len() ==> #[trigger] logs.skip(1)[t] == logs[t + 1]);
        lemma_log_append_unique(logs.skip(1), name, line);
        assert(out =~= seq![logs[0]] + spec_log_append(logs.skip(1), name, line));
        assert(out.skip(1) =~= spec_log_append(logs.skip(1), name, line));
        assert forall|a: int, b: int| 0 <= a < b < out.len() implies (#[trigger] out[a].name)
            != (#[trigger] out[b].name) by {
            if a == 0 {
                lemma_log_append_members(logs.skip(1), name, line, b - 1);
                let x = out[b];
                if x.name != name {
                    let w = choose|w: int| 0 <= w < logs.skip(1).len() && logs.skip(1)[w] == x;
                    assert(logs[w + 1] == x);
                } else {
                    lemma_log_at_miss_name(logs, name);
                }
            } else {
                assert(out[a] == spec_log_append(logs.skip(1), name, line)[a - 1]);
                assert(out[b] == spec_log_append(logs.skip(1), name, line)[b - 1]);
            }
        }
        assert(spec_log_at(out, name) == spec_log_at(spec_log_append(logs.skip(1), name, line), name));
        assert forall|q: Seq<u8>| q != name implies #[trigger] spec_log_at(out, q) == spec_log_at(
            logs,
            q,
        ) by {
            if q == logs[0].name {
                assert(spec_log_at(out, q) == Some(logs[0].lines));
            } else {
                assert(spec_log_at(out, q) == spec_log_at(
                    spec_log_append(logs.skip(1), name, line),
                    q,
                ));
            }
        }
    }
}

proof fn lemma_log_at_miss_name(logs: Seq<ReflogView>, name: Seq<u8>)
    requires
        logs.len() > 0,
        logs[0].name != name,
{
}

/// Every member of an append result carries an old name or the appended
/// name.
proof fn lemma_log_append_members(logs: Seq<ReflogView>, name: Seq<u8>, line: LineView, k: int)
    requires
        0 <= k < spec_log_append(logs, name, line).len(),
    ensures
        spec_log_append(logs, name, line)[k].name == name || exists|w: int|
            0 <= w < logs.len() && logs[w] == spec_log_append(logs, name, line)[k],
    decreases logs.len(),
{
    let out = spec_log_append(logs, name, line);
    if logs.len() == 0 {
        assert(out[0].name == name);
    } else if logs[0].name == name {
        if k == 0 {
            assert(out[0].name == name);
        } else {
            assert(logs[k] == out[k]);
        }
    } else {
        if k == 0 {
            assert(logs[0] == out[0]);
        } else {
            lemma_log_append_members(logs.skip(1), name, line, k - 1);
            assert(out[k] == spec_log_append(logs.skip(1), name, line)[k - 1]);
            if out[k].name != name {
                let w = choose|w: int|
                    0 <= w < logs.skip(1).len() && logs.skip(1)[w] == spec_log_append(
                        logs.skip(1),
                        name,
                        line,
                    )[k - 1];
                assert(logs[w + 1] == out[k]);
            }
        }
    }
}

proof fn lemma_name_remove_missing(names: Seq<Seq<u8>>, n: Seq<u8>)
    requires
        forall|t: int| 0 <= t < names.len() ==> (#[trigger] names[t]) != n,
    ensures
        spec_name_remove(names, n) == names,
    decreases names.len(),
{
    if names.len() > 0 {
        assert(forall|t: int|
            0 <= t < names.skip(1).len() ==> #[trigger] names.skip(1)[t] == names[t + 1]);
        lemma_name_remove_missing(names.skip(1), n);
        assert(spec_name_remove(names, n) =~= names);
    } else {
        assert(spec_name_remove(names, n) =~= names);
    }
}

proof fn lemma_name_remove_at(names: Seq<Seq<u8>>, n: Seq<u8>, i: int)
    requires
        0 <= i < names.len(),
        names[i] == n,
        forall|t: int| 0 <= t < i ==> (#[trigger] names[t]) != n,
    ensures
        spec_name_remove(names, n) == names.take(i) + names.skip(i + 1),
    decreases i,
{
    if i == 0 {
        assert(spec_name_remove(names, n) =~= names.take(0) + names.skip(1));
    } else {
        assert(forall|t: int|
            0 <= t < names.skip(1).len() ==> #[trigger] names.skip(1)[t] == names[t + 1]);
        lemma_name_remove_at(names.skip(1), n, i - 1);
        assert(seq![names[0]] + (names.skip(1).take(i - 1) + names.skip(1).skip(i)) =~= names.take(
            i,
        ) + names.skip(i + 1));
    }
}

/// Releasing a lock keeps names unique and frees exactly that name.
pub proof fn lemma_name_remove_unique(names: Seq<Seq<u8>>, n: Seq<u8>)
    requires
        names_unique(names),
    ensures
        names_unique(spec_name_remove(names, n)),
        !name_in(spec_name_remove(names, n), n),
    decreases names.len(),
{
    let out = spec_name_remove(names, n);
    if names.len() == 0 {
    } else if names[0] == n {
        assert(out =~= names.skip(1));
        assert(forall|t: int|
            0 <= t < names.skip(1).len() ==> #[trigger] names.skip(1)[t] == names[t + 1]);
    } else {
        assert(forall|t: int|
            0 <= t < names.skip(1).len() ==> #[trigger] names.skip(1)[t] == names[t + 1]);
        lemma_name_remove_unique(names.skip(1), n);
        assert(out =~= seq![names[0]] + spec_name_remove(names.skip(1), n));
        assert(out.skip(1) =~= spec_name_remove(names.skip(1), n));
        assert forall|a: int, b: int| 0 <= a < b < out.len() implies (#[trigger] out[a])
            != (#[trigger] out[b]) by {
            if a == 0 {
                lemma_name_remove_members(names.skip(1), n, b - 1);
                let x = out[b];
                let w = choose|w: int| 0 <= w < names.skip(1).len() && names.skip(1)[w] == x;
                assert(names[w + 1] == x);
            } else {
                assert(out[a] == spec_name_remove(names.skip(1), n)[a - 1]);
                assert(out[b] == spec_name_remove(names.skip(1), n)[b - 1]);
            }
        }
        assert(!name_in(out, n)) by {
            assert(names[0] != n);
            assert forall|w: int| 0 <= w < out.len() implies (#[trigger] out[w]) != n by {
                if w > 0 {
                    assert(out[w] == spec_name_remove(names.skip(1), n)[w - 1]);
                }
            }
        }
    }
}

proof fn lemma_name_remove_members(names: Seq<Seq<u8>>, n: Seq<u8>, k: int)
    requires
        0 <= k < spec_name_remove(names, n).len(),
    ensures
        exists|w: int| 0 <= w < names.len() && names[w] == spec_name_remove(names, n)[k],
    decreases names.len(),
{
    let out = spec_name_remove(names, n);
    if names[0] == n {
        assert(names[k + 1] == out[k]);
    } else {
        if k == 0 {
            assert(names[0] == out[0]);
        } else {
            lemma_name_remove_members(names.skip(1), n, k - 1);
            let w = choose|w: int|
                0 <= w < names.skip(1).len() && names.skip(1)[w] == spec_name_remove(
                    names.skip(1),
                    n,
                )[k - 1];
            assert(names[w + 1] == out[k]);
        }
    }
}

/// Index facts for the loose-file view map.
pub proof fn files_of_facts(s: Seq<LooseFile>)
    ensures
        files_of(s).len() == s.len(),
        forall|u: int| 0 <= u < s.len() ==> #[trigger] files_of(s)[u] == s[u]@,
{
}

/// Index facts for the reflog view map.
proof fn logs_of_facts(s: Seq<Reflog>)
    ensures
        logs_of(s).len() == s.len(),
        forall|u: int| 0 <= u < s.len() ==> #[trigger] logs_of(s)[u] == s[u]@,
{
}

/// Index facts for the byte-string view map.
proof fn names_of_facts(s: Seq<Vec<u8>>)
    ensures
        crate::name::views_of_bytes(s).len() == s.len(),
        forall|u: int| 0 <= u < s.len() ==> #[trigger] crate::name::views_of_bytes(s)[u] == s[u]@,
{
}

} // verus!
