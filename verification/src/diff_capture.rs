//! Decisions of the file-change watcher.
//!
//! The watcher polls the files open in the editor. A file whose
//! modification time moved is read again, and when its content differs from
//! the content last recorded for it, the change is reported as a diff. The
//! polling, the reading and the clock stay with the caller; this module
//! keeps what was last seen of each file and decides what to report.

use vstd::prelude::*;
use crate::text::str_eq;

verus! {

/// What the watcher last saw of a file.
struct WatchedFile {
    path: String,
    mtime: Option<i128>,
    content: Option<String>,
}

/// The model of the watcher: the last modification time and the last
/// content recorded for each path (times in nanoseconds from the Unix
/// epoch, negative before it).
pub struct DiffView {
    pub mtimes: Map<Seq<char>, i128>,
    pub contents: Map<Seq<char>, Seq<char>>,
}

/// Records what was last seen of each watched file.
pub struct DiffTracker {
    files: Vec<WatchedFile>,
}

spec fn has_path(files: Seq<WatchedFile>, k: Seq<char>) -> bool {
    exists|i: int| #![trigger files[i]] 0 <= i < files.len() && files[i].path@ == k
}

spec fn index_of(files: Seq<WatchedFile>, k: Seq<char>) -> int {
    choose|i: int| #![trigger files[i]] 0 <= i < files.len() && files[i].path@ == k
}

spec fn unique_paths(files: Seq<WatchedFile>) -> bool {
    forall|i: int, j: int|
        #![trigger files[i], files[j]]
        0 <= i < files.len() && 0 <= j < files.len() && i != j ==> files[i].path@ != files[j].path@
}

spec fn mtime_map(files: Seq<WatchedFile>) -> Map<Seq<char>, i128> {
    Map::new(
        |k: Seq<char>| has_path(files, k) && files[index_of(files, k)].mtime is Some,
        |k: Seq<char>| files[index_of(files, k)].mtime->0,
    )
}

spec fn content_map(files: Seq<WatchedFile>) -> Map<Seq<char>, Seq<char>> {
    Map::new(
        |k: Seq<char>| has_path(files, k) && files[index_of(files, k)].content is Some,
        |k: Seq<char>| files[index_of(files, k)].content->0@,
    )
}

impl DiffTracker {
    #[verifier::type_invariant]
    spec fn paths_unique(self) -> bool {
        unique_paths(self.files@)
    }
}

impl View for DiffTracker {
    type V = DiffView;

    closed spec fn view(&self) -> DiffView {
        DiffView { mtimes: mtime_map(self.files@), contents: content_map(self.files@) }
    }
}

/// One polled modification time: whether it differs from the one recorded
/// for the path (the file is then read again), and the model afterwards,
/// which records it.
pub open spec fn mtime_step(v: DiffView, p: Seq<char>, m: i128) -> (DiffView, bool) {
    let changed = !(v.mtimes.dom().contains(p) && v.mtimes[p] == m);
    (if changed { DiffView { mtimes: v.mtimes.insert(p, m), ..v } } else { v }, changed)
}

/// One content read: the previous content when one was recorded and it
/// differs from the new one (a change to report), and the model afterwards,
/// which records the new content.
pub open spec fn content_step(v: DiffView, p: Seq<char>, c: Seq<char>) -> (DiffView, Option<Seq<char>>) {
    let reported = if v.contents.dom().contains(p) && v.contents[p] != c {
        Some(v.contents[p])
    } else {
        None
    };
    (DiffView { contents: v.contents.insert(p, c), ..v }, reported)
}

/// The characters of an optional string.
pub open spec fn opt_chars(o: Option<String>) -> Option<Seq<char>> {
    match o {
        Some(s) => Some(s@),
        None => None,
    }
}

proof fn lemma_index_of(files: Seq<WatchedFile>, i: int)
    requires
        unique_paths(files),
        0 <= i < files.len(),
    ensures
        has_path(files, files[i].path@),
        index_of(files, files[i].path@) == i,
{
    assert(files[i].path@ == files[i].path@);
    let j = index_of(files, files[i].path@);
    assert(files[j].path@ == files[i].path@);
}

/// Replacing the entry of a path by another one for the same path keeps the
/// paths unique and every path at its index.
proof fn lemma_update(files: Seq<WatchedFile>, i: int, e: WatchedFile)
    requires
        unique_paths(files),
        0 <= i < files.len(),
        e.path@ == files[i].path@,
    ensures
        unique_paths(files.update(i, e)),
        forall|k: Seq<char>| #[trigger] has_path(files.update(i, e), k) == has_path(files, k),
        forall|k: Seq<char>|
            has_path(files, k) ==> #[trigger] index_of(files.update(i, e), k) == index_of(files, k),
{
    let f2 = files.update(i, e);
    assert forall|a: int, b: int|
        #![trigger f2[a], f2[b]]
        0 <= a < f2.len() && 0 <= b < f2.len() && a != b implies f2[a].path@ != f2[b].path@ by {
        assert(f2[a].path@ == files[a].path@);
        assert(f2[b].path@ == files[b].path@);
    }
    assert forall|k: Seq<char>| #[trigger] has_path(f2, k) == has_path(files, k) by {
        if has_path(files, k) {
            let j = index_of(files, k);
            assert(f2[j].path@ == k);
        }
        if has_path(f2, k) {
            let j = index_of(f2, k);
            assert(files[j].path@ == k);
        }
    }
    assert forall|k: Seq<char>| has_path(files, k) implies #[trigger] index_of(f2, k) == index_of(files, k) by {
        let j = index_of(files, k);
        assert(f2[j].path@ == k);
        lemma_index_of(f2, j);
    }
}

/// Appending an entry for a new path keeps the paths unique and every
/// other path at its index.
proof fn lemma_push(files: Seq<WatchedFile>, e: WatchedFile)
    requires
        unique_paths(files),
        !has_path(files, e.path@),
    ensures
        unique_paths(files.push(e)),
        forall|k: Seq<char>| #[trigger] has_path(files.push(e), k) == (has_path(files, k) || k == e.path@),
        forall|k: Seq<char>|
            has_path(files, k) ==> #[trigger] index_of(files.push(e), k) == index_of(files, k),
        index_of(files.push(e), e.path@) == files.len(),
{
    let f2 = files.push(e);
    let n = files.len() as int;
    assert forall|a: int, b: int|
        #![trigger f2[a], f2[b]]
        0 <= a < f2.len() && 0 <= b < f2.len() && a != b implies f2[a].path@ != f2[b].path@ by {
        if a == n {
            assert(files[b].path@ == f2[b].path@);
        } else if b == n {
            assert(files[a].path@ == f2[a].path@);
        }
    }
    assert forall|k: Seq<char>| #[trigger] has_path(f2, k) == (has_path(files, k) || k == e.path@) by {
        if has_path(files, k) {
            let j = index_of(files, k);
            assert(f2[j].path@ == k);
        }
        if k == e.path@ {
            assert(f2[n].path@ == k);
        }
        if has_path(f2, k) && k != e.path@ {
            let j = index_of(f2, k);
            assert(files[j].path@ == k);
        }
    }
    assert forall|k: Seq<char>| has_path(files, k) implies #[trigger] index_of(f2, k) == index_of(files, k) by {
        let j = index_of(files, k);
        assert(f2[j].path@ == k);
        lemma_index_of(f2, j);
    }
    lemma_index_of(f2, n);
}

/// The index of the entry of a path, if there is one.
fn find(files: &Vec<WatchedFile>, path: &str) -> (r: Option<usize>)
    ensures
        match r {
            Some(i) => i < files.len() && files@[i as int].path@ == path@,
            None => !has_path(files@, path@),
        },
{
    let mut i: usize = 0;
    while i < files.len()
        invariant
            i <= files.len(),
            forall|j: int| 0 <= j < i ==> files@[j].path@ != path@,
        decreases files.len() - i,
    {
        if str_eq(files[i].path.as_str(), path) {
            return Some(i);
        }
        i += 1;
    }
    proof {
        assert forall|j: int| #![trigger files@[j]] 0 <= j < files.len() implies files@[j].path@ != path@ by {}
    }
    None
}

impl DiffTracker {
    /// A watcher that has seen nothing yet.
    pub fn new() -> (r: Self)
        ensures
            r@.mtimes == Map::<Seq<char>, i128>::empty(),
            r@.contents == Map::<Seq<char>, Seq<char>>::empty(),
    {
        let r = DiffTracker { files: Vec::new() };
        assert(r@.mtimes =~= Map::<Seq<char>, i128>::empty());
        assert(r@.contents =~= Map::<Seq<char>, Seq<char>>::empty());
        r
    }

    /// Note the modification time polled for a file: true when it differs
    /// from the one recorded for the path (or none was), in which case it is
    /// recorded and the file is to be read again.
    pub fn note_mtime(&mut self, path: &str, mtime: i128) -> (changed: bool)
        ensures
            (final(self)@, changed) == mtime_step(old(self)@, path@, mtime),
    {
        proof {
            use_type_invariant(&*self);
        }
        let ghost before = self@;
        let mut files: Vec<WatchedFile> = Vec::new();
        std::mem::swap(&mut files, &mut self.files);
        let ghost fs = files@;
        match find(&files, path) {
            Some(i) => {
                let same = match files[i].mtime {
                    Some(m) => m == mtime,
                    None => false,
                };
                proof {
                    lemma_index_of(fs, i as int);
                }
                if same {
                    self.files = files;
                    return false;
                }
                let entry = files.remove(i);
                let updated = WatchedFile { path: entry.path, mtime: Some(mtime), content: entry.content };
                files.insert(i, updated);
                proof {
                    assert(files@ =~= fs.update(i as int, updated));
                    lemma_update(fs, i as int, updated);
                    assert(mtime_map(files@) =~= before.mtimes.insert(path@, mtime));
                    assert(content_map(files@) =~= before.contents);
                }
                self.files = files;
                true
            },
            None => {
                let entry = WatchedFile { path: path.to_string(), mtime: Some(mtime), content: None };
                files.push(entry);
                proof {
                    lemma_push(fs, entry);
                    assert(mtime_map(files@) =~= before.mtimes.insert(path@, mtime));
                    assert(content_map(files@) =~= before.contents);
                }
                self.files = files;
                true
            },
        }
    }

    /// Record the content just read from a file; the previously recorded
    /// content when there was one and it differs, that is, a change to
    /// report.
    pub fn note_content(&mut self, path: &str, content: String) -> (r: Option<String>)
        ensures
            final(self)@ == content_step(old(self)@, path@, content@).0,
            opt_chars(r) == content_step(old(self)@, path@, content@).1,
    {
        proof {
            use_type_invariant(&*self);
        }
        let ghost before = self@;
        let ghost new_content = content@;
        let mut files: Vec<WatchedFile> = Vec::new();
        std::mem::swap(&mut files, &mut self.files);
        let ghost fs = files@;
        match find(&files, path) {
            Some(i) => {
                proof {
                    lemma_index_of(fs, i as int);
                }
                let entry = files.remove(i);
                let (reported, kept): (Option<String>, Option<String>) = match entry.content {
                    Some(prev) => {
                        if str_eq(prev.as_str(), content.as_str()) {
                            (None, Some(prev))
                        } else {
                            (Some(prev), None)
                        }
                    },
                    None => (None, None),
                };
                let updated = WatchedFile { path: entry.path, mtime: entry.mtime, content: Some(content) };
                files.insert(i, updated);
                proof {
                    assert(files@ =~= fs.update(i as int, updated));
                    lemma_update(fs, i as int, updated);
                    assert(mtime_map(files@) =~= before.mtimes);
                    assert(content_map(files@) =~= before.contents.insert(path@, new_content));
                }
                self.files = files;
                reported
            },
            None => {
                let entry = WatchedFile { path: path.to_string(), mtime: None, content: Some(content) };
                files.push(entry);
                proof {
                    lemma_push(fs, entry);
                    assert(mtime_map(files@) =~= before.mtimes);
                    assert(content_map(files@) =~= before.contents.insert(path@, new_content));
                }
                self.files = files;
                None
            },
        }
    }

    /// Record a file read before polling starts, with its modification time
    /// when that could be had.
    pub fn seed(&mut self, path: &str, mtime: Option<i128>, content: String)
        ensures
            final(self)@.contents == old(self)@.contents.insert(path@, content@),
            final(self)@.mtimes == match mtime {
                Some(m) => old(self)@.mtimes.insert(path@, m),
                None => old(self)@.mtimes,
            },
    {
        let ghost before = self@;
        if let Some(m) = mtime {
            let changed = self.note_mtime(path, m);
            proof {
                if !changed {
                    assert(before.mtimes.insert(path@, m) =~= before.mtimes);
                }
            }
        }
        let _ = self.note_content(path, content);
    }
}

/// A file read again with the content already recorded reports nothing:
/// one change is reported once.
pub proof fn law_same_content_reported_once(v: DiffView, p: Seq<char>, c: Seq<char>)
    ensures
        content_step(content_step(v, p, c).0, p, c).1 is None,
{
}

/// A file is read again only after its modification time moves: polling
/// the same time twice asks for one read.
pub proof fn law_unchanged_mtime_not_reread(v: DiffView, p: Seq<char>, m: i128)
    ensures
        !mtime_step(mtime_step(v, p, m).0, p, m).1,
{
}

/// A change and its revert are both reported, each with the content it
/// replaced.
pub proof fn law_revert_reported(v: DiffView, p: Seq<char>, b: Seq<char>)
    requires
        v.contents.dom().contains(p),
        v.contents[p] != b,
    ensures
        content_step(v, p, b).1 == Some(v.contents[p]),
        content_step(content_step(v, p, b).0, p, v.contents[p]).1 == Some(b),
{
}

/// A file first seen by a read reports no change: there is nothing to
/// compare it with.
pub proof fn law_first_read_reports_nothing(v: DiffView, p: Seq<char>, c: Seq<char>)
    requires
        !v.contents.dom().contains(p),
    ensures
        content_step(v, p, c).1 is None,
        content_step(v, p, c).0.contents[p] == c,
{
}

} // verus!
