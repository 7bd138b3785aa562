use vstd::prelude::*;

use crate::files::{insert_pair, keys_unique, FileMap, Pair};
use crate::limits::{has_extension, has_extension_exec, markdown_limits, Limits, LimitsV};

verus! {

/// The number of bytes that `s` takes in UTF-8.
/// (A string in memory never holds more bytes than `usize` counts.)
pub open spec fn byte_len(s: Seq<char>) -> int {
    vstd::utf8::encode_utf8(s).len() as usize as int
}

/// An entry of a directory, as the walk finds it.
pub enum Entry {
    /// A file: its base name, its size on disk, and its text, or `None` where
    /// it cannot be read as text.
    File { name: String, size: u64, content: Option<String> },
    /// A subdirectory: its name and its own entries, in the order of listing.
    Dir { name: String, entries: Vec<Entry> },
}

/// Why a collection failed as a whole.
pub enum CollectError {
    /// A directory was met while descending was not allowed.
    NotRecursive,
    /// A file or a directory could not be read; the text says which and why.
    Io(String),
}

/// A `CollectError` as a value of specifications.
pub enum ErrorV {
    NotRecursive,
    Io(Seq<char>),
}

impl View for CollectError {
    type V = ErrorV;

    open spec fn view(&self) -> ErrorV {
        match self {
            CollectError::NotRecursive => ErrorV::NotRecursive,
            CollectError::Io(s) => ErrorV::Io(s@),
        }
    }
}

/// The text that names the error `e`.
pub open spec fn error_message(e: ErrorV) -> Seq<char> {
    match e {
        ErrorV::NotRecursive => "Error: target is a directory, use recursion"@,
        ErrorV::Io(s) => s,
    }
}

impl CollectError {
    /// The text that names this error.
    pub fn message(&self) -> (r: String)
        ensures
            r@ == error_message(self@),
    {
        match self {
            CollectError::NotRecursive => "Error: target is a directory, use recursion".to_owned(),
            CollectError::Io(s) => s.clone(),
        }
    }
}

/// The state of the walk of one directory: what it has collected, and the
/// bytes that count against the aggregate ceiling.
pub struct FrameV {
    pub files: Seq<Pair>,
    pub total: int,
}

/// Where the walk of one directory stands.
pub enum Progress {
    /// It goes on to the next entry.
    Running(FrameV),
    /// The aggregate ceiling was reached: the collection stays as it is.
    Stopped(FrameV),
    /// The whole collection fails.
    Failed(ErrorV),
}

/// The frame of a directory whose walk has just begun.
pub open spec fn empty_frame() -> FrameV {
    FrameV { files: Seq::empty(), total: 0 }
}

/// What becomes of `f` when the first `k` files of a subdirectory's collection
/// `sub` are taken over one by one, each counted by its length in bytes: the
/// first file that would take the total past `max_total` stops the walk.
pub open spec fn merge_prefix(f: FrameV, sub: Seq<Pair>, k: int, max_total: int) -> Progress
    decreases k,
{
    if k <= 0 {
        Progress::Running(f)
    } else {
        match merge_prefix(f, sub, k - 1, max_total) {
            Progress::Running(g) => {
                let p = sub[k - 1];
                if g.total + byte_len(p.1) > max_total {
                    Progress::Stopped(g)
                } else {
                    Progress::Running(
                        FrameV { files: insert_pair(g.files, p.0, p.1), total: g.total + byte_len(p.1) },
                    )
                }
            },
            other => other,
        }
    }
}

/// What becomes of `f` at a file with the right extension, named `name`, of
/// `size` bytes on disk and with text `content` (`None`: unreadable).
pub open spec fn file_step(
    f: FrameV,
    name: Seq<char>,
    size: int,
    content: Option<Seq<char>>,
    lim: LimitsV,
) -> Progress {
    if size > lim.max_file_size {
        Progress::Running(f)
    } else if f.total + size > lim.max_total_size {
        Progress::Stopped(f)
    } else {
        match content {
            None => Progress::Failed(ErrorV::Io(name)),
            Some(c) => Progress::Running(FrameV { files: insert_pair(f.files, name, c), total: f.total + size }),
        }
    }
}

/// The text of an optional content, as chars.
pub open spec fn content_view(c: Option<String>) -> Option<Seq<char>> {
    match c {
        Some(s) => Some(s@),
        None => None,
    }
}

/// Where the walk of a directory with entries `es` stands after its first `k`
/// entries.
pub open spec fn walk(es: Seq<Entry>, k: int, recurse: bool, lim: LimitsV) -> Progress
    decreases es, k,
{
    if k <= 0 || k > es.len() {
        Progress::Running(empty_frame())
    } else {
        match walk(es, k - 1, recurse, lim) {
            Progress::Running(f) => match es[k - 1] {
                Entry::Dir { entries, .. } => {
                    if recurse {
                        match collect_spec(entries@, recurse, lim) {
                            Ok(sub) => merge_prefix(f, sub, sub.len() as int, lim.max_total_size as int),
                            Err(e) => Progress::Failed(e),
                        }
                    } else {
                        Progress::Failed(ErrorV::NotRecursive)
                    }
                },
                Entry::File { name, size, content } => {
                    if has_extension(name@, lim.extension) {
                        file_step(f, name@, size as int, content_view(content), lim)
                    } else {
                        Progress::Running(f)
                    }
                },
            },
            other => other,
        }
    }
}

/// The collection of a directory with entries `es`: the files of the last
/// frame of its walk, or the error that made it fail.
pub open spec fn collect_spec(es: Seq<Entry>, recurse: bool, lim: LimitsV) -> Result<Seq<Pair>, ErrorV>
    decreases es, es.len() + 1,
{
    match walk(es, es.len() as int, recurse, lim) {
        Progress::Running(f) => Ok(f.files),
        Progress::Stopped(f) => Ok(f.files),
        Progress::Failed(e) => Err(e),
    }
}

/// Once the merge has stopped, taking more files over changes nothing.
pub proof fn lemma_merge_settled(f: FrameV, sub: Seq<Pair>, k: int, j: int, max_total: int)
    requires
        0 <= k <= j,
        !(merge_prefix(f, sub, k, max_total) is Running),
    ensures
        merge_prefix(f, sub, j, max_total) == merge_prefix(f, sub, k, max_total),
    decreases j - k,
{
    if j > k {
        lemma_merge_settled(f, sub, k, j - 1, max_total);
    }
}

/// Once the walk has stopped or failed, later entries change nothing.
pub proof fn lemma_walk_settled(es: Seq<Entry>, k: int, j: int, recurse: bool, lim: LimitsV)
    requires
        0 <= k <= j <= es.len(),
        !(walk(es, k, recurse, lim) is Running),
    ensures
        walk(es, j, recurse, lim) == walk(es, k, recurse, lim),
    decreases j - k,
{
    if j > k {
        lemma_walk_settled(es, k, j - 1, recurse, lim);
        if k == 0 {
            assert(walk(es, 0, recurse, lim) is Running);
        }
    }
}

/// What a frame does with a file of the right extension, by its size.
pub enum Admission {
    /// Over the per-file ceiling: the file is left out and the walk goes on.
    Skip,
    /// It would take the total past the aggregate ceiling: the walk stops.
    Stop,
    /// It is read and taken in.
    Take,
}

/// The running state of the walk of one directory.
pub struct Frame {
    pub files: FileMap,
    pub total: u64,
}

impl Frame {
    pub open spec fn view(&self) -> FrameV {
        FrameV { files: self.files@, total: self.total as int }
    }

    /// No name twice, and the total within the aggregate ceiling.
    pub open spec fn wf(&self, lim: LimitsV) -> bool {
        &&& keys_unique(self.files@)
        &&& self.total <= lim.max_total_size
    }

    /// The frame of a directory whose walk begins.
    pub fn new() -> (r: Frame)
        ensures
            r.view() == empty_frame(),
            keys_unique(r.files@),
    {
        Frame { files: FileMap::new(), total: 0 }
    }

    /// What to do with a file of the right extension and of `size` bytes.
    pub fn check_size(&self, size: u64, lim: &Limits) -> (r: Admission)
        requires
            self.wf(lim@),
        ensures
            r is Skip <==> size > lim.max_file_size,
            r is Stop <==> size <= lim.max_file_size && self.total + size > lim.max_total_size,
            r is Take <==> size <= lim.max_file_size && self.total + size <= lim.max_total_size,
    {
        if size > lim.max_file_size {
            Admission::Skip
        } else if size > lim.max_total_size - self.total {
            Admission::Stop
        } else {
            Admission::Take
        }
    }

    /// Takes in a file that `check_size` lets through, counted by its size on disk.
    pub fn add_file(&mut self, name: String, content: String, size: u64, lim: &Limits)
        requires
            old(self).wf(lim@),
            size <= lim.max_file_size,
            old(self).total + size <= lim.max_total_size,
        ensures
            final(self).wf(lim@),
            file_step(old(self).view(), name@, size as int, Some(content@), lim@) == Progress::Running(
                final(self).view(),
            ),
    {
        self.files.insert(name, content);
        self.total = self.total + size;
    }

    /// Takes over the files of a subdirectory's collection `sub` in order,
    /// each counted by its length in bytes, and says whether the aggregate
    /// ceiling stopped it.
    pub fn merge(&mut self, sub: &FileMap, lim: &Limits) -> (stopped: bool)
        requires
            old(self).wf(lim@),
        ensures
            final(self).wf(lim@),
            merge_prefix(old(self).view(), sub@, sub@.len() as int, lim.max_total_size as int) == (if stopped {
                Progress::Stopped(final(self).view())
            } else {
                Progress::Running(final(self).view())
            }),
    {
        let ghost f0 = self.view();
        let ghost max = lim.max_total_size as int;
        let items = sub.entries();
        let n = items.len();
        let mut i: usize = 0;
        while i < n
            invariant
                n == items@.len(),
                n == sub@.len(),
                forall|j: int| 0 <= j < n ==> (#[trigger] items@[j]).0@ == sub@[j].0 && items@[j].1@ == sub@[j].1,
                i <= n,
                self.wf(lim@),
                f0 == old(self).view(),
                max == lim.max_total_size as int,
                merge_prefix(f0, sub@, i as int, max) == Progress::Running(self.view()),
            decreases n - i,
        {
            let len = items[i].1.as_str().len();
            assert(len as int == byte_len(sub@[i as int].1));
            if len as u64 > lim.max_total_size - self.total {
                proof {
                    assert(merge_prefix(f0, sub@, i + 1, max) == Progress::Stopped(self.view()));
                    lemma_merge_settled(f0, sub@, i + 1, n as int, max);
                }
                return true;
            }
            self.files.insert(items[i].0.clone(), items[i].1.clone());
            self.total = self.total + len as u64;
            i = i + 1;
        }
        false
    }
}

/// The outcome of a collection, as a value of specifications.
pub open spec fn outcome_view(r: Result<FileMap, CollectError>) -> Result<Seq<Pair>, ErrorV> {
    match r {
        Ok(m) => Ok(m@),
        Err(e) => Err(e@),
    }
}

/// Collects the files of a directory with entries `dir` that have the
/// extension of `limits`: into subdirectories where `recurse` holds, else
/// failing at the first one met; leaving out each file over the per-file
/// ceiling; stopping, with what it holds, where the next file would take the
/// directory's total past the aggregate ceiling. Each subdirectory counts its
/// own total from zero.
pub fn collect(dir: &Vec<Entry>, recurse: bool, limits: &Limits) -> (r: Result<FileMap, CollectError>)
    ensures
        outcome_view(r) == collect_spec(dir@, recurse, limits@),
        r is Ok ==> keys_unique(r->Ok_0@),
    decreases dir@,
{
    let ghost es = dir@;
    let mut frame = Frame::new();
    let n = dir.len();
    let mut i: usize = 0;
    while i < n
        invariant
            n == dir@.len(),
            es == dir@,
            i <= n,
            frame.wf(limits@),
            walk(es, i as int, recurse, limits@) == Progress::Running(frame.view()),
        decreases n - i,
    {
        match &dir[i] {
            Entry::Dir { entries, .. } => {
                if !recurse {
                    proof {
                        lemma_walk_settled(es, i + 1, n as int, recurse, limits@);
                    }
                    return Err(CollectError::NotRecursive);
                }
                match collect(entries, recurse, limits) {
                    Err(e) => {
                        proof {
                            lemma_walk_settled(es, i + 1, n as int, recurse, limits@);
                        }
                        return Err(e);
                    },
                    Ok(sub) => {
                        let stopped = frame.merge(&sub, limits);
                        if stopped {
                            proof {
                                lemma_walk_settled(es, i + 1, n as int, recurse, limits@);
                            }
                            return Ok(frame.files);
                        }
                    },
                }
            },
            Entry::File { name, size, content } => {
                if has_extension_exec(name, &limits.extension) {
                    match frame.check_size(*size, limits) {
                        Admission::Skip => {},
                        Admission::Stop => {
                            proof {
                                lemma_walk_settled(es, i + 1, n as int, recurse, limits@);
                            }
                            return Ok(frame.files);
                        },
                        Admission::Take => {
                            match content {
                                None => {
                                    proof {
                                        lemma_walk_settled(es, i + 1, n as int, recurse, limits@);
                                    }
                                    return Err(CollectError::Io(name.clone()));
                                },
                                Some(c) => {
                                    frame.add_file(name.clone(), c.clone(), *size, limits);
                                },
                            }
                        },
                    }
                }
            },
        }
        i = i + 1;
    }
    Ok(frame.files)
}

/// Collects the markdown files under `dir`, descending into subdirectories,
/// with the ceilings of `Limits::markdown`.
pub fn extract_markdown_files_recursive(dir: &Vec<Entry>) -> (r: Result<FileMap, CollectError>)
    ensures
        outcome_view(r) == collect_spec(dir@, true, markdown_limits()),
{
    let limits = Limits::markdown();
    collect(dir, true, &limits)
}

/// Collects the markdown files of `dir` itself, failing at the first
/// subdirectory met, with the ceilings of `Limits::markdown`.
pub fn extract_markdown_files_non_recursive(dir: &Vec<Entry>) -> (r: Result<FileMap, CollectError>)
    ensures
        outcome_view(r) == collect_spec(dir@, false, markdown_limits()),
{
    let limits = Limits::markdown();
    collect(dir, false, &limits)
}

} // verus!
