//! Editor state: open files with line:col selections.

use vstd::prelude::*;
use crate::paths::{opt_view, path_starts_with, relativize, relativized, starts_with};
use crate::text::{decimal, decimal_string, join_strings, join_with, push_str, string_views};

verus! {

broadcast use vstd::string::group_string_axioms;

/// A 1-based line:col position in a file.
#[derive(Debug, Clone, Copy, PartialEq, Eq, Structural)]
pub struct Position {
    /// 1-based line number.
    pub line: usize,
    /// 1-based column (byte offset within the line).
    pub col: usize,
}

/// A selection range (or cursor when start == end).
#[derive(Debug, Clone, Copy, PartialEq, Eq, Structural)]
pub struct Selection {
    /// Start of the selection.
    pub start: Position,
    /// End of the selection (equal to start for a cursor).
    pub end: Position,
}

impl Selection {
    /// A zero-width selection: a cursor.
    pub open spec fn is_cursor_spec(self) -> bool {
        self.start == self.end
    }

    /// Whether this selection is a cursor (start == end).
    pub fn is_cursor_like(&self) -> (r: bool)
        ensures
            r == self.is_cursor_spec(),
    {
        self.start == self.end
    }
}

/// An open file with its cursor/selection positions.
#[derive(Debug, PartialEq, Eq)]
pub struct FileEntry {
    /// Absolute or cwd-relative file path.
    pub path: String,
    /// Cursor positions and selections in this file.
    pub selections: Vec<Selection>,
}

pub struct FileEntryView {
    pub path: Seq<char>,
    pub selections: Seq<Selection>,
}

impl View for FileEntry {
    type V = FileEntryView;

    open spec fn view(&self) -> FileEntryView {
        FileEntryView { path: self.path@, selections: self.selections@ }
    }
}

impl Clone for FileEntry {
    fn clone(&self) -> (r: Self)
        ensures
            r@ == self@,
    {
        let selections = self.selections.clone();
        assert(selections@ =~= self.selections@);
        FileEntry { path: self.path.clone(), selections }
    }
}

impl FileEntry {
    /// Whether two entries have the same path and selections.
    pub fn same_as(&self, other: &FileEntry) -> (r: bool)
        ensures
            r == (self@ == other@),
    {
        if self.path != other.path || self.selections.len() != other.selections.len() {
            return false;
        }
        let mut i: usize = 0;
        while i < self.selections.len()
            invariant
                i <= self.selections.len(),
                self.selections.len() == other.selections.len(),
                forall|k: int| 0 <= k < i ==> self.selections@[k] == other.selections@[k],
            decreases self.selections.len() - i,
        {
            if self.selections[i] != other.selections[i] {
                return false;
            }
            i += 1;
        }
        assert(self.selections@ =~= other.selections@);
        true
    }

    /// Whether every selection of the entry is a cursor.
    pub fn cursor_only(&self) -> (r: bool)
        ensures
            r == (forall|k: int| 0 <= k < self.selections@.len() ==> #[trigger] self.selections@[k].is_cursor_spec()),
    {
        let mut i: usize = 0;
        while i < self.selections.len()
            invariant
                i <= self.selections.len(),
                forall|k: int| 0 <= k < i ==> #[trigger] self.selections@[k].is_cursor_spec(),
            decreases self.selections.len() - i,
        {
            if !self.selections[i].is_cursor_like() {
                return false;
            }
            i += 1;
        }
        true
    }
}

/// Resolved editor state: open files with cursor positions and terminal cwds.
#[derive(Debug)]
pub struct EditorState {
    /// Open editor tabs with resolved line:col selections.
    pub files: Vec<FileEntry>,
    /// Working directories of active terminal tabs.
    pub terminals: Vec<String>,
    /// The directory that the paths were resolved against, if any.
    pub cwd: Option<String>,
}

/// `line:col`.
pub open spec fn position_text(p: Position) -> Seq<char> {
    decimal(p.line as nat) + seq![':'] + decimal(p.col as nat)
}

/// A cursor as `line:col`, a range as `line:col-line:col`.
pub open spec fn selection_text(s: Selection) -> Seq<char> {
    if s.start == s.end {
        position_text(s.start)
    } else {
        position_text(s.start) + seq!['-'] + position_text(s.end)
    }
}

/// `path` followed by its comma-separated selections, if it has any.
pub open spec fn file_entry_text(f: FileEntryView) -> Seq<char> {
    if f.selections.len() == 0 {
        f.path
    } else {
        f.path + seq![' '] + join_with(selection_texts(f.selections), seq![','])
    }
}

pub open spec fn selection_texts(s: Seq<Selection>) -> Seq<Seq<char>> {
    s.map_values(|x: Selection| selection_text(x))
}

pub open spec fn file_texts(f: Seq<FileEntryView>) -> Seq<Seq<char>> {
    f.map_values(|x: FileEntryView| file_entry_text(x))
}

pub open spec fn terminal_lines(t: Seq<Seq<char>>) -> Seq<Seq<char>> {
    t.map_values(|x: Seq<char>| x + seq![' ', '$'])
}

/// One line per file, then one `<dir> $` line per terminal.
pub open spec fn editor_state_text(files: Seq<FileEntryView>, terminals: Seq<Seq<char>>) -> Seq<char> {
    join_with(file_texts(files) + terminal_lines(terminals), seq!['\n'])
}

pub open spec fn file_views(files: Seq<FileEntry>) -> Seq<FileEntryView> {
    files.map_values(|f: FileEntry| f@)
}

impl Position {
    /// `line:col`.
    pub fn display_string(&self) -> (s: String)
        ensures
            s@ == position_text(*self),
    {
        let mut s = decimal_string(self.line as u64);
        push_str(&mut s, ":");
        let c = decimal_string(self.col as u64);
        push_str(&mut s, c.as_str());
        proof {
            reveal_strlit(":");
        }
        s
    }
}

impl Selection {
    /// A cursor as `line:col`, a range as `line:col-line:col`.
    pub fn display_string(&self) -> (s: String)
        ensures
            s@ == selection_text(*self),
    {
        if self.start == self.end {
            self.start.display_string()
        } else {
            let mut s = self.start.display_string();
            push_str(&mut s, "-");
            let e = self.end.display_string();
            push_str(&mut s, e.as_str());
            proof {
                reveal_strlit("-");
            }
            s
        }
    }
}

impl FileEntry {
    /// `path` followed by its comma-separated selections, if it has any.
    pub fn display_string(&self) -> (s: String)
        ensures
            s@ == file_entry_text(self@),
    {
        let mut s = self.path.clone();
        if self.selections.len() > 0 {
            let mut parts: Vec<String> = Vec::new();
            let mut i: usize = 0;
            while i < self.selections.len()
                invariant
                    i <= self.selections.len(),
                    s@ == self.path@,
                    string_views(parts@) =~= selection_texts(self.selections@.take(i as int)),
                decreases self.selections.len() - i,
            {
                let ghost old_parts = parts@;
                let t = self.selections[i].display_string();
                parts.push(t);
                proof {
                    assert(string_views(parts@) =~= string_views(old_parts).push(t@));
                    assert(self.selections@.take(i + 1) =~= self.selections@.take(i as int).push(self.selections@[i as int]));
                    assert(selection_texts(self.selections@.take(i + 1)) =~= selection_texts(self.selections@.take(i as int)).push(selection_text(self.selections@[i as int])));
                }
                i += 1;
            }
            assert(self.selections@.take(self.selections.len() as int) =~= self.selections@);
            assert(string_views(parts@) == selection_texts(self.selections@));
            push_str(&mut s, " ");
            let joined = join_strings(&parts, ",");
            push_str(&mut s, joined.as_str());
            proof {
                reveal_strlit(" ");
                reveal_strlit(",");
                assert(" "@ =~= seq![' ']);
                assert(","@ =~= seq![',']);
            }
        }
        s
    }
}

impl EditorState {
    /// Whether two states show the same files with the same selections, in
    /// the same order, and the same terminals: a session that already saw a
    /// state is not shown it again.
    pub fn same_as(&self, other: &EditorState) -> (r: bool)
        ensures
            r == (file_views(self.files@) == file_views(other.files@) && string_views(self.terminals@)
                == string_views(other.terminals@)),
    {
        if self.files.len() != other.files.len() || self.terminals.len() != other.terminals.len() {
            proof {
                if file_views(self.files@) == file_views(other.files@) {
                    assert(file_views(self.files@).len() == self.files.len());
                }
                if string_views(self.terminals@) == string_views(other.terminals@) {
                    assert(string_views(self.terminals@).len() == self.terminals.len());
                }
            }
            return false;
        }
        let mut i: usize = 0;
        while i < self.files.len()
            invariant
                i <= self.files.len(),
                self.files.len() == other.files.len(),
                forall|k: int| 0 <= k < i ==> self.files@[k]@ == other.files@[k]@,
            decreases self.files.len() - i,
        {
            if !self.files[i].same_as(&other.files[i]) {
                proof {
                    assert(file_views(self.files@)[i as int] != file_views(other.files@)[i as int]);
                }
                return false;
            }
            i += 1;
        }
        assert(file_views(self.files@) =~= file_views(other.files@));
        let mut j: usize = 0;
        while j < self.terminals.len()
            invariant
                j <= self.terminals.len(),
                self.terminals.len() == other.terminals.len(),
                forall|k: int| 0 <= k < j ==> self.terminals@[k]@ == other.terminals@[k]@,
            decreases self.terminals.len() - j,
        {
            if !crate::text::str_eq(self.terminals[j].as_str(), other.terminals[j].as_str()) {
                proof {
                    assert(string_views(self.terminals@)[j as int] != string_views(other.terminals@)[j as int]);
                }
                return false;
            }
            j += 1;
        }
        assert(string_views(self.terminals@) =~= string_views(other.terminals@));
        true
    }

    /// Whether two states are the same as a session sees them.
    pub open spec fn same_state(self, other: EditorState) -> bool {
        file_views(self.files@) == file_views(other.files@) && string_views(self.terminals@)
            == string_views(other.terminals@)
    }

    /// One line per file, then one `<dir> $` line per terminal.
    pub fn display_string(&self) -> (s: String)
        ensures
            s@ == editor_state_text(file_views(self.files@), string_views(self.terminals@)),
    {
        let mut lines: Vec<String> = Vec::new();
        let ghost fv = file_texts(file_views(self.files@));
        let ghost tv = terminal_lines(string_views(self.terminals@));
        let mut i: usize = 0;
        while i < self.files.len()
            invariant
                i <= self.files.len(),
                fv == file_texts(file_views(self.files@)),
                string_views(lines@) =~= fv.take(i as int),
            decreases self.files.len() - i,
        {
            let ghost old_lines = lines@;
            let t = self.files[i].display_string();
            lines.push(t);
            proof {
                assert(string_views(lines@) =~= string_views(old_lines).push(t@));
                assert(fv.take(i + 1) =~= fv.take(i as int).push(fv[i as int]));
            }
            i += 1;
        }
        assert(fv.take(self.files.len() as int) =~= fv);
        let mut j: usize = 0;
        while j < self.terminals.len()
            invariant
                j <= self.terminals.len(),
                fv.len() == self.files.len(),
                tv == terminal_lines(string_views(self.terminals@)),
                string_views(lines@) =~= fv + tv.take(j as int),
            decreases self.terminals.len() - j,
        {
            let mut t = self.terminals[j].clone();
            push_str(&mut t, " $");
            proof {
                reveal_strlit(" $");
                assert(" $"@ =~= seq![' ', '$']);
                assert(t@ == tv[j as int]);
            }
            let ghost old_lines = lines@;
            lines.push(t);
            proof {
                assert(string_views(lines@) =~= string_views(old_lines).push(t@));
                assert(tv.take(j + 1) =~= tv.take(j as int).push(tv[j as int]));
                assert(fv + tv.take(j + 1) =~= (fv + tv.take(j as int)).push(tv[j as int]));
            }
            j += 1;
        }
        assert(tv.take(self.terminals.len() as int) =~= tv);
        assert(string_views(lines@) == fv + tv);
        let s = join_strings(&lines, "\n");
        proof {
            reveal_strlit("\n");
            assert("\n"@ =~= seq!['\n']);
        }
        s
    }
}

/// Whether a session that last saw `previous` is shown `current`.
pub open spec fn context_due(previous: Option<EditorState>, current: EditorState) -> bool {
    match previous {
        None => true,
        Some(p) => !p.same_state(current),
    }
}

/// An editor state is shown to a session once until it changes: once a
/// session has seen a state, the same state is not shown again, and a later
/// state is shown exactly when it differs from it.
pub proof fn law_context_shown_once(seen: EditorState, next: EditorState)
    ensures
        !context_due(Some(seen), seen),
        context_due(Some(seen), next) <==> !seen.same_state(next),
        context_due(None, next),
{
}

/// Whether the editor context is shown to a session on its prompt: it is
/// when the session saw no state before (`previous`), or saw a different
/// one; a state it already saw is not shown again.
pub fn editor_context_due(previous: Option<&EditorState>, current: &EditorState) -> (r: bool)
    ensures
        r == context_due(
            match previous {
                Some(p) => Some(*p),
                None => None,
            },
            *current,
        ),
{
    match previous {
        None => true,
        Some(p) => !p.same_as(current),
    }
}

/// The human-readable editor state: one line per open file.
pub fn format_human(state: &EditorState) -> (s: String)
    ensures
        s@ == join_with(file_texts(file_views(state.files@)), seq!['\n']),
{
    let mut lines: Vec<String> = Vec::new();
    let ghost fv = file_texts(file_views(state.files@));
    let mut i: usize = 0;
    while i < state.files.len()
        invariant
            i <= state.files.len(),
            fv == file_texts(file_views(state.files@)),
            string_views(lines@) =~= fv.take(i as int),
        decreases state.files.len() - i,
    {
        let ghost old_lines = lines@;
        let t = state.files[i].display_string();
        lines.push(t);
        proof {
            assert(string_views(lines@) =~= string_views(old_lines).push(t@));
            assert(fv.take(i + 1) =~= fv.take(i as int).push(fv[i as int]));
        }
        i += 1;
    }
    assert(fv.take(state.files.len() as int) =~= fv);
    assert(string_views(lines@) == fv);
    let s = join_strings(&lines, "\n");
    proof {
        reveal_strlit("\n");
        assert("\n"@ =~= seq!['\n']);
        assert(s@ == join_with(fv, seq!['\n']));
    }
    s
}

// ── Building the editor state ───────────────────────────────────────────────

/// A row from the editor before offset resolution: a file and one selection
/// as byte offsets, if it has one.
#[derive(Debug, Clone)]
pub struct RawEditor {
    /// Absolute file path.
    pub path: String,
    /// Byte offset of selection start, if any.
    pub sel_start: Option<i64>,
    /// Byte offset of selection end, if any.
    pub sel_end: Option<i64>,
}

/// The contents of a file, as read by the caller.
#[derive(Debug, Clone)]
pub struct FileSource {
    /// The path the file was read from.
    pub path: String,
    /// Its bytes.
    pub bytes: Vec<u8>,
}

/// Why the editor state could not be built.
#[derive(Debug, Clone, PartialEq, Eq)]
pub enum ResolveError {
    /// A file with selections has no contents among the sources.
    Unreadable(String),
}

/// `Path` ordering of two paths: negative, zero or positive.
pub uninterp spec fn path_order_of(a: Seq<char>, b: Seq<char>) -> i8;

/// The ordering of two paths (`Path::cmp`, component by component).
///
/// Trusted: calls `std::path::Path::cmp`, a function of the two paths alone,
/// and maps its three results to -1, 0 and 1. As `Ord` requires of every
/// implementation, swapping the two paths reverses the result.
#[verifier::external_body]
pub(crate) fn path_order(a: &str, b: &str) -> (r: i8)
    ensures
        r == path_order_of(a@, b@),
        r == -path_order_of(b@, a@),
        -1 <= r <= 1,
{
    match std::path::Path::new(a).cmp(std::path::Path::new(b)) {
        std::cmp::Ordering::Less => -1,
        std::cmp::Ordering::Equal => 0,
        std::cmp::Ordering::Greater => 1,
    }
}

/// The selection of a raw row: both offsets, when both are present.
pub open spec fn raw_pair(start: Option<i64>, end: Option<i64>) -> Seq<(i64, i64)> {
    match (start, end) {
        (Some(s), Some(e)) => seq![(s, e)],
        _ => Seq::empty(),
    }
}

/// Adds a row to the groups, kept in path order: a path equal to a group's
/// joins it (keeping the group's path), any other starts a group in place.
pub open spec fn add_to_groups(
    g: Seq<(Seq<char>, Seq<(i64, i64)>)>,
    path: Seq<char>,
    pairs: Seq<(i64, i64)>,
) -> Seq<(Seq<char>, Seq<(i64, i64)>)>
    decreases g.len(),
{
    if g.len() == 0 {
        seq![(path, pairs)]
    } else if path_order_of(g.last().0, path) == 0 {
        g.drop_last().push((g.last().0, g.last().1 + pairs))
    } else if path_order_of(g.last().0, path) < 0 {
        g.push((path, pairs))
    } else {
        add_to_groups(g.drop_last(), path, pairs).push(g.last())
    }
}

/// The model of a raw row.
pub open spec fn raw_view(r: RawEditor) -> (Seq<char>, Option<i64>, Option<i64>) {
    (r.path@, r.sel_start, r.sel_end)
}

/// The models of the raw rows.
pub open spec fn raw_views(s: Seq<RawEditor>) -> Seq<(Seq<char>, Option<i64>, Option<i64>)> {
    s.map_values(|r: RawEditor| raw_view(r))
}

/// Whether a row is in scope: under `cwd`, when there is one.
pub open spec fn in_scope(path: Seq<char>, cwd: Option<Seq<char>>) -> bool {
    match cwd {
        Some(c) => path_starts_with(path, c),
        None => true,
    }
}

/// The rows in scope grouped by path, in path order, with their selections
/// in row order.
pub open spec fn group_rows(
    rows: Seq<(Seq<char>, Option<i64>, Option<i64>)>,
    cwd: Option<Seq<char>>,
) -> Seq<(Seq<char>, Seq<(i64, i64)>)>
    decreases rows.len(),
{
    if rows.len() == 0 {
        Seq::empty()
    } else {
        let g = group_rows(rows.drop_last(), cwd);
        let r = rows.last();
        if in_scope(r.0, cwd) {
            add_to_groups(g, r.0, raw_pair(r.1, r.2))
        } else {
            g
        }
    }
}

/// Tuple order of two offset pairs.
pub open spec fn pair_lt(a: (i64, i64), b: (i64, i64)) -> bool {
    a.0 < b.0 || (a.0 == b.0 && a.1 < b.1)
}

/// Inserts a pair into a sorted, duplicate-free sequence unless it is there.
pub open spec fn insert_pair(s: Seq<(i64, i64)>, x: (i64, i64)) -> Seq<(i64, i64)>
    decreases s.len(),
{
    if s.len() == 0 {
        seq![x]
    } else if s.last() == x {
        s
    } else if pair_lt(s.last(), x) {
        s.push(x)
    } else {
        insert_pair(s.drop_last(), x).push(s.last())
    }
}

/// The distinct pairs of `s`, sorted.
pub open spec fn sorted_pairs(s: Seq<(i64, i64)>) -> Seq<(i64, i64)>
    decreases s.len(),
{
    if s.len() == 0 {
        Seq::empty()
    } else {
        insert_pair(sorted_pairs(s.drop_last()), s.last())
    }
}

proof fn lemma_insert_pair(s: Seq<(i64, i64)>, x: (i64, i64))
    requires
        forall|i: int, j: int| 0 <= i < j < s.len() ==> pair_lt(#[trigger] s[i], #[trigger] s[j]),
    ensures
        forall|i: int, j: int|
            0 <= i < j < insert_pair(s, x).len() ==> pair_lt(#[trigger] insert_pair(s, x)[i], #[trigger] insert_pair(s, x)[j]),
        forall|y: (i64, i64)| #[trigger] insert_pair(s, x).contains(y) <==> (s.contains(y) || y == x),
    decreases s.len(),
{
    let r = insert_pair(s, x);
    if s.len() == 0 {
        assert forall|y: (i64, i64)| #[trigger] r.contains(y) <==> (s.contains(y) || y == x) by {
            if y == x {
                assert(r[0] == x);
            }
        }
    } else if s.last() == x {
        assert forall|y: (i64, i64)| #[trigger] r.contains(y) <==> (s.contains(y) || y == x) by {
            if y == x {
                assert(s[s.len() - 1] == x);
            }
        }
    } else if pair_lt(s.last(), x) {
        assert forall|i: int, j: int| 0 <= i < j < r.len() implies pair_lt(#[trigger] r[i], #[trigger] r[j]) by {
            if j < s.len() {
                assert(r[i] == s[i] && r[j] == s[j]);
            } else if i < s.len() - 1 {
                assert(pair_lt(s[i], s[s.len() - 1]));
            }
        }
        assert forall|y: (i64, i64)| #[trigger] r.contains(y) <==> (s.contains(y) || y == x) by {
            if r.contains(y) {
                let k = choose|k: int| 0 <= k < r.len() && r[k] == y;
                if k < s.len() {
                    assert(s[k] == y);
                }
            }
            if s.contains(y) {
                let k = choose|k: int| 0 <= k < s.len() && s[k] == y;
                assert(r[k] == y);
            }
            if y == x {
                assert(r[s.len() as int] == x);
            }
        }
    } else {
        let t = s.drop_last();
        assert forall|i: int, j: int| 0 <= i < j < t.len() implies pair_lt(#[trigger] t[i], #[trigger] t[j]) by {
            assert(t[i] == s[i] && t[j] == s[j]);
        }
        lemma_insert_pair(t, x);
        let q = insert_pair(t, x);
        assert forall|k: int| 0 <= k < q.len() implies pair_lt(#[trigger] q[k], s.last()) by {
            assert(q.contains(q[k]));
            if q[k] != x {
                let m = choose|m: int| 0 <= m < t.len() && t[m] == q[k];
                assert(s[m] == t[m]);
                assert(pair_lt(s[m], s[s.len() - 1]));
            }
        }
        assert forall|i: int, j: int| 0 <= i < j < r.len() implies pair_lt(#[trigger] r[i], #[trigger] r[j]) by {
            if j < q.len() {
                assert(r[i] == q[i] && r[j] == q[j]);
            } else {
                assert(r[i] == q[i]);
            }
        }
        assert forall|y: (i64, i64)| #[trigger] r.contains(y) <==> (s.contains(y) || y == x) by {
            if r.contains(y) {
                let k = choose|k: int| 0 <= k < r.len() && r[k] == y;
                if k < q.len() {
                    assert(q.contains(q[k]));
                    if y != x {
                        let m = choose|m: int| 0 <= m < t.len() && t[m] == y;
                        assert(s[m] == y);
                    }
                } else {
                    assert(s[s.len() - 1] == y);
                }
            }
            if s.contains(y) {
                let k = choose|k: int| 0 <= k < s.len() && s[k] == y;
                if k < t.len() {
                    assert(t[k] == y);
                    assert(q.contains(y));
                    let m = choose|m: int| 0 <= m < q.len() && q[m] == y;
                    assert(r[m] == y);
                } else {
                    assert(r[q.len() as int] == y);
                }
            }
            if y == x {
                assert(q.contains(x));
                let m = choose|m: int| 0 <= m < q.len() && q[m] == x;
                assert(r[m] == x);
            }
        }
    }
}

/// The selections resolved for a file are its distinct offset pairs, each
/// once, in sorted order: as many as there are distinct pairs.
pub proof fn law_sorted_pairs(raw: Seq<(i64, i64)>)
    ensures
        forall|i: int, j: int|
            0 <= i < j < sorted_pairs(raw).len() ==> pair_lt(#[trigger] sorted_pairs(raw)[i], #[trigger] sorted_pairs(raw)[j]),
        sorted_pairs(raw).no_duplicates(),
        forall|y: (i64, i64)| #[trigger] sorted_pairs(raw).contains(y) <==> raw.contains(y),
    decreases raw.len(),
{
    if raw.len() > 0 {
        let t = raw.drop_last();
        law_sorted_pairs(t);
        lemma_insert_pair(sorted_pairs(t), raw.last());
        assert forall|y: (i64, i64)| #[trigger] sorted_pairs(raw).contains(y) <==> raw.contains(y) by {
            if raw.contains(y) && y != raw.last() {
                let k = choose|k: int| 0 <= k < raw.len() && raw[k] == y;
                assert(t[k] == y);
            }
            if t.contains(y) {
                let k = choose|k: int| 0 <= k < t.len() && t[k] == y;
                assert(raw[k] == y);
            }
            if y == raw.last() {
                assert(raw[raw.len() - 1] == y);
            }
        }
    }
    let r = sorted_pairs(raw);
    assert forall|i: int, j: int| 0 <= i < r.len() && 0 <= j < r.len() && i != j implies r[i] != r[j] by {
        if i < j {
            assert(pair_lt(r[i], r[j]));
        } else {
            assert(pair_lt(r[j], r[i]));
        }
    }
}

/// The scan of the bytes `b`: the 1-based line and column just after them,
/// and whether the last byte was a carriage return. A line feed, a lone
/// carriage return, or a carriage return followed by a line feed (counted
/// once) starts a new line; every other byte advances the column.
pub open spec fn line_scan(b: Seq<u8>) -> (int, int, bool)
    decreases b.len(),
{
    if b.len() == 0 {
        (1, 1, false)
    } else {
        let p = line_scan(b.drop_last());
        if b.last() == 10 && p.2 {
            (p.0, p.1, false)
        } else if b.last() == 10 {
            (p.0 + 1, 1, false)
        } else if b.last() == 13 {
            (p.0 + 1, 1, true)
        } else {
            (p.0, p.1 + 1, false)
        }
    }
}

/// The 1-based line and column just after the bytes `b`.
pub open spec fn pos_after(b: Seq<u8>) -> (int, int) {
    (line_scan(b).0, line_scan(b).1)
}

/// The position of byte offset `off` in a file; offsets past its end (or
/// negative ones, which wrap around to huge offsets) map to the final
/// position.
pub open spec fn position_of(bytes: Seq<u8>, off: i64) -> (int, int) {
    if off < 0 || off > bytes.len() {
        pos_after(bytes)
    } else {
        pos_after(bytes.take(off as int))
    }
}

/// The selection for an offset pair.
pub open spec fn selection_of(bytes: Seq<u8>, p: (i64, i64)) -> (int, int, int, int) {
    let s = position_of(bytes, p.0);
    let e = position_of(bytes, p.1);
    (s.0, s.1, e.0, e.1)
}

/// Whether a selection is the one of an offset pair.
pub open spec fn selection_matches(sel: Selection, bytes: Seq<u8>, p: (i64, i64)) -> bool {
    let q = selection_of(bytes, p);
    sel.start.line == q.0 && sel.start.col == q.1 && sel.end.line == q.2 && sel.end.col == q.3
}

proof fn lemma_pos_after_bound(b: Seq<u8>)
    ensures
        1 <= line_scan(b).0 <= b.len() + 1,
        1 <= line_scan(b).1 <= b.len() + 1,
    decreases b.len(),
{
    if b.len() > 0 {
        lemma_pos_after_bound(b.drop_last());
    }
}

/// The line and column of byte offset `off` of `bytes`.
fn resolve_offset(bytes: &Vec<u8>, off: i64) -> (r: Position)
    requires
        bytes.len() < usize::MAX,
    ensures
        r.line == position_of(bytes@, off).0,
        r.col == position_of(bytes@, off).1,
{
    let n: usize = if off < 0 || off as u64 > bytes.len() as u64 {
        bytes.len()
    } else {
        off as usize
    };
    assert(n == bytes.len() || n == off);
    let mut line: usize = 1;
    let mut col: usize = 1;
    let mut after_cr = false;
    let mut i: usize = 0;
    while i < n
        invariant
            i <= n <= bytes.len() < usize::MAX,
            line == line_scan(bytes@.take(i as int)).0,
            col == line_scan(bytes@.take(i as int)).1,
            after_cr == line_scan(bytes@.take(i as int)).2,
        decreases n - i,
    {
        proof {
            assert(bytes@.take(i + 1).drop_last() =~= bytes@.take(i as int));
            lemma_pos_after_bound(bytes@.take(i as int));
        }
        let b = bytes[i];
        if b == 10 && after_cr {
            after_cr = false;
        } else if b == 10 {
            line += 1;
            col = 1;
        } else if b == 13 {
            line += 1;
            col = 1;
            after_cr = true;
        } else {
            col += 1;
            after_cr = false;
        }
        i += 1;
    }
    proof {
        if n == bytes.len() {
            assert(bytes@.take(n as int) =~= bytes@);
        }
    }
    Position { line, col }
}

proof fn lemma_insert_pair_at(s: Seq<(i64, i64)>, x: (i64, i64), j: int)
    requires
        0 <= j <= s.len(),
        forall|k: int| j <= k < s.len() ==> #[trigger] s[k] != x && !pair_lt(s[k], x),
        j == 0 || pair_lt(s[j - 1], x),
    ensures
        insert_pair(s, x) == s.insert(j, x),
    decreases s.len(),
{
    if s.len() == j {
        assert(s.insert(j, x) =~= s.push(x));
    } else {
        lemma_insert_pair_at(s.drop_last(), x, j);
        assert(s.insert(j, x) =~= s.drop_last().insert(j, x).push(s.last()));
    }
}

proof fn lemma_insert_pair_found(s: Seq<(i64, i64)>, x: (i64, i64), j: int)
    requires
        0 < j <= s.len(),
        s[j - 1] == x,
        forall|k: int| j <= k < s.len() ==> #[trigger] s[k] != x && !pair_lt(s[k], x),
    ensures
        insert_pair(s, x) == s,
    decreases s.len(),
{
    if s.len() > j {
        lemma_insert_pair_found(s.drop_last(), x, j);
        assert(s.drop_last().push(s.last()) =~= s);
    }
}

/// The distinct offset pairs, sorted.
fn sort_pairs(raw: &Vec<(i64, i64)>) -> (r: Vec<(i64, i64)>)
    ensures
        r@ == sorted_pairs(raw@),
{
    let mut out: Vec<(i64, i64)> = Vec::new();
    let mut i: usize = 0;
    while i < raw.len()
        invariant
            i <= raw.len(),
            out@ == sorted_pairs(raw@.take(i as int)),
        decreases raw.len() - i,
    {
        let x = raw[i];
        assert(raw@.take(i + 1).drop_last() =~= raw@.take(i as int));
        let ghost sv = out@;
        let mut j = out.len();
        let mut dup = false;
        let mut below = false;
        while j > 0 && !dup && !below
            invariant
                j <= out.len(),
                sv == out@,
                dup ==> j > 0 && sv[j - 1] == x,
                below ==> j > 0 && pair_lt(sv[j - 1], x),
                forall|k: int| j <= k < sv.len() ==> #[trigger] sv[k] != x && !pair_lt(sv[k], x),
            decreases j + if dup || below { 0int } else { 1int },
        {
            let y = out[j - 1];
            if y.0 == x.0 && y.1 == x.1 {
                dup = true;
            } else if y.0 < x.0 || (y.0 == x.0 && y.1 < x.1) {
                below = true;
            } else {
                j -= 1;
            }
        }
        if dup {
            proof {
                lemma_insert_pair_found(sv, x, j as int);
            }
        } else {
            proof {
                lemma_insert_pair_at(sv, x, j as int);
            }
            out.insert(j, x);
        }
        i += 1;
    }
    assert(raw@.take(raw.len() as int) =~= raw@);
    out
}

/// Resolve raw byte-offset pairs to line:col selections in a file's bytes:
/// the distinct pairs in sorted order, each mapped to its positions.
pub fn resolve_selections(bytes: &Vec<u8>, raw: &Vec<(i64, i64)>) -> (r: Vec<Selection>)
    requires
        bytes.len() < usize::MAX,
    ensures
        r@.len() == sorted_pairs(raw@).len(),
        forall|k: int|
            0 <= k < r@.len() ==> selection_matches(#[trigger] r@[k], bytes@, sorted_pairs(raw@)[k]),
{
    let pairs = sort_pairs(raw);
    let mut out: Vec<Selection> = Vec::new();
    let mut i: usize = 0;
    while i < pairs.len()
        invariant
            i <= pairs.len(),
            bytes.len() < usize::MAX,
            out@.len() == i,
            forall|k: int| 0 <= k < i ==> selection_matches(#[trigger] out@[k], bytes@, pairs@[k]),
        decreases pairs.len() - i,
    {
        let (s, e) = pairs[i];
        let start = resolve_offset(bytes, s);
        let end = resolve_offset(bytes, e);
        out.push(Selection { start, end });
        i += 1;
    }
    out
}

/// The contents of the first source read from `path`.
pub open spec fn source_for(sources: Seq<FileSource>, path: Seq<char>) -> Option<Seq<u8>>
    decreases sources.len(),
{
    if sources.len() == 0 {
        None
    } else if sources[0].path@ == path {
        Some(sources[0].bytes@)
    } else {
        source_for(sources.drop_first(), path)
    }
}

fn find_source<'a>(sources: &'a Vec<FileSource>, path: &str) -> (r: Option<&'a FileSource>)
    ensures
        match source_for(sources@, path@) {
            None => r is None,
            Some(b) => r matches Some(f) && f.bytes@ == b && exists|k: int|
                0 <= k < sources@.len() && sources@[k] == *f,
        },
{
    let mut i: usize = 0;
    assert(sources@.skip(0) =~= sources@);
    while i < sources.len()
        invariant
            i <= sources.len(),
            source_for(sources@.skip(i as int), path@) == source_for(sources@, path@),
        decreases sources.len() - i,
    {
        proof {
            assert(sources@.skip(i as int).drop_first() =~= sources@.skip(i + 1));
            assert(sources@.skip(i as int)[0] == sources@[i as int]);
        }
        if crate::text::str_eq(sources[i].path.as_str(), path) {
            return Some(&sources[i]);
        }
        i += 1;
    }
    proof {
        assert(sources@.skip(i as int).len() == 0);
    }
    None
}

/// Whether the file entry is the one built for a group.
pub open spec fn entry_matches(
    f: FileEntryView,
    group: (Seq<char>, Seq<(i64, i64)>),
    cwd: Option<Seq<char>>,
    sources: Seq<FileSource>,
) -> bool {
    &&& f.path == relativized(group.0, cwd)
    &&& if group.1.len() == 0 {
        f.selections.len() == 0
    } else {
        source_for(sources, group.0) matches Some(b) && f.selections.len() == sorted_pairs(
            group.1,
        ).len() && forall|k: int|
            0 <= k < f.selections.len() ==> selection_matches(
                #[trigger] f.selections[k],
                b,
                sorted_pairs(group.1)[k],
            )
    }
}

/// Every source can be scanned with a `usize` position.
pub open spec fn sources_fit(sources: Seq<FileSource>) -> bool {
    forall|k: int| 0 <= k < sources.len() ==> #[trigger] sources[k].bytes@.len() < usize::MAX
}

/// A group with selections whose file has no contents among the sources.
pub open spec fn unresolvable(g: (Seq<char>, Seq<(i64, i64)>), sources: Seq<FileSource>) -> bool {
    g.1.len() > 0 && source_for(sources, g.0) is None
}

/// `p` is the path of the first group that cannot be resolved.
pub open spec fn first_unreadable(
    groups: Seq<(Seq<char>, Seq<(i64, i64)>)>,
    sources: Seq<FileSource>,
    p: Seq<char>,
) -> bool {
    exists|k: int|
        0 <= k < groups.len() && #[trigger] unresolvable(groups[k], sources) && groups[k].0 == p && forall|
            m: int,
        | 0 <= m < k ==> !unresolvable(#[trigger] groups[m], sources)
}

/// Some group with selections has no source.
pub open spec fn missing_source(
    groups: Seq<(Seq<char>, Seq<(i64, i64)>)>,
    sources: Seq<FileSource>,
) -> bool {
    exists|k: int|
        0 <= k < groups.len() && groups[k].1.len() > 0 && #[trigger] source_for(
            sources,
            groups[k].0,
        ) is None
}

/// The rows in scope grouped by path, in path order.
fn group_editors(raw_editors: &Vec<RawEditor>, cwd: Option<&str>) -> (r: Vec<(String, Vec<(i64, i64)>)>)
    ensures
        group_views(r@) == group_rows(raw_views(raw_editors@), opt_view(cwd)),
        groups_ascending(group_views(r@)),
{
    let ghost rv = raw_views(raw_editors@);
    let mut groups: Vec<(String, Vec<(i64, i64)>)> = Vec::new();
    let mut i: usize = 0;
    while i < raw_editors.len()
        invariant
            i <= raw_editors.len(),
            rv == raw_views(raw_editors@),
            group_views(groups@) == group_rows(rv.take(i as int), opt_view(cwd)),
            groups_ascending(group_views(groups@)),
        decreases raw_editors.len() - i,
    {
        proof {
            assert(rv.take(i + 1).drop_last() =~= rv.take(i as int));
            assert(rv.take(i + 1).last() == raw_view(raw_editors@[i as int]));
        }
        let ed = &raw_editors[i];
        let keep = match cwd {
            Some(c) => starts_with(ed.path.as_str(), c),
            None => true,
        };
        if keep {
            let mut pairs: Vec<(i64, i64)> = Vec::new();
            match (ed.sel_start, ed.sel_end) {
                (Some(s), Some(e)) => pairs.push((s, e)),
                _ => {},
            }
            assert(pairs@ =~= raw_pair(ed.sel_start, ed.sel_end));
            add_group(&mut groups, ed.path.as_str(), pairs);
        }
        i += 1;
    }
    assert(rv.take(raw_editors.len() as int) =~= rv);
    groups
}

/// Consecutive groups ascend strictly in path order: each group's path comes
/// before the next one's.
pub open spec fn groups_ascending(g: Seq<(Seq<char>, Seq<(i64, i64)>)>) -> bool {
    forall|i: int| 0 <= i < g.len() - 1 ==> path_order_of(#[trigger] g[i].0, g[i + 1].0) < 0
}

/// The models of groups.
pub open spec fn group_views(g: Seq<(String, Vec<(i64, i64)>)>) -> Seq<(Seq<char>, Seq<(i64, i64)>)> {
    g.map_values(|x: (String, Vec<(i64, i64)>)| (x.0@, x.1@))
}

fn add_group(groups: &mut Vec<(String, Vec<(i64, i64)>)>, path: &str, pairs: Vec<(i64, i64)>)
    ensures
        group_views(final(groups)@) == add_to_groups(group_views(old(groups)@), path@, pairs@),
        groups_ascending(group_views(old(groups)@)) ==> groups_ascending(group_views(final(groups)@)),
        final(groups)@.len() > 0,
        group_views(final(groups)@).last().0 == path@ || (old(groups)@.len() > 0 && group_views(
            final(groups)@,
        ).last().0 == group_views(old(groups)@).last().0),
    decreases old(groups)@.len(),
{
    let ghost gv = group_views(groups@);
    if groups.len() == 0 {
        groups.push((path.to_string(), pairs));
        assert(group_views(groups@) =~= seq![(path@, pairs@)]);
        return;
    }
    let last = groups.len() - 1;
    let o = path_order(groups[last].0.as_str(), path);
    if o == 0 {
        let (p, mut v) = groups.pop().unwrap();
        let ghost v0 = v@;
        let mut extra = pairs;
        v.append(&mut extra);
        groups.push((p, v));
        assert(group_views(groups@) =~= gv.drop_last().push((gv.last().0, gv.last().1 + pairs@)));
        proof {
            let nv = group_views(groups@);
            if groups_ascending(gv) {
                assert forall|i: int| 0 <= i < nv.len() - 1 implies path_order_of(#[trigger] nv[i].0, nv[i + 1].0) < 0 by {
                    assert(nv[i].0 == gv[i].0 && nv[i + 1].0 == gv[i + 1].0);
                }
            }
        }
    } else if o < 0 {
        groups.push((path.to_string(), pairs));
        assert(group_views(groups@) =~= gv.push((path@, pairs@)));
        proof {
            let nv = group_views(groups@);
            if groups_ascending(gv) {
                assert forall|i: int| 0 <= i < nv.len() - 1 implies path_order_of(#[trigger] nv[i].0, nv[i + 1].0) < 0 by {
                    if i < gv.len() - 1 {
                        assert(nv[i] == gv[i] && nv[i + 1] == gv[i + 1]);
                    } else {
                        assert(nv[i] == gv.last());
                    }
                }
            }
        }
    } else {
        let top = groups.pop().unwrap();
        assert(group_views(groups@) =~= gv.drop_last());
        add_group(groups, path, pairs);
        let ghost mid = group_views(groups@);
        let ghost tv = (top.0@, top.1@);
        groups.push(top);
        assert(group_views(groups@) =~= mid.push(tv));
        proof {
            let nv = group_views(groups@);
            assert(tv == gv.last());
            if groups_ascending(gv) {
                let gd = gv.drop_last();
                assert(groups_ascending(gd)) by {
                    assert forall|i: int| 0 <= i < gd.len() - 1 implies path_order_of(#[trigger] gd[i].0, gd[i + 1].0) < 0 by {
                        assert(gd[i] == gv[i] && gd[i + 1] == gv[i + 1]);
                    }
                }
                assert(path_order_of(path@, tv.0) < 0);
                if mid.last().0 != path@ {
                    assert(mid.last().0 == gd.last().0);
                    assert(gv[gv.len() - 2] == gd.last());
                    assert(path_order_of(gv[gv.len() - 2].0, gv[gv.len() - 1].0) < 0);
                }
                assert(path_order_of(mid.last().0, tv.0) < 0);
                assert forall|i: int| 0 <= i < nv.len() - 1 implies path_order_of(#[trigger] nv[i].0, nv[i + 1].0) < 0 by {
                    if i < mid.len() - 1 {
                        assert(nv[i] == mid[i] && nv[i + 1] == mid[i + 1]);
                    } else {
                        assert(nv[i] == mid.last() && nv[i + 1] == tv);
                    }
                }
            }
        }
    }
}

/// Build the editor state from the editor's rows, the terminal directories
/// and the contents of the files: the rows under `cwd` (all of them without
/// one) are grouped by path in path order, each group's selections resolved
/// against its file (sorted and deduplicated), and paths made relative to
/// `cwd`. Fails when a file with selections has no contents among `sources`.
pub fn build_editor_state(
    raw_editors: Vec<RawEditor>,
    raw_terminals: Vec<String>,
    cwd: Option<&str>,
    sources: &Vec<FileSource>,
) -> (r: Result<EditorState, ResolveError>)
    requires
        sources_fit(sources@),
    ensures
        ({
            let groups = group_rows(raw_views(raw_editors@), opt_view(cwd));
            match r {
                Err(e) => missing_source(groups, sources@) && (e matches ResolveError::Unreadable(p)
                    && first_unreadable(groups, sources@, p@)),
                Ok(state) => {
                    &&& !missing_source(groups, sources@)
                    &&& groups_ascending(groups)
                    &&& state.files@.len() == groups.len()
                    &&& forall|k: int|
                        0 <= k < groups.len() ==> entry_matches(
                            #[trigger] state.files@[k]@,
                            groups[k],
                            opt_view(cwd),
                            sources@,
                        )
                    &&& state.terminals@.len() == raw_terminals@.len()
                    &&& forall|k: int|
                        0 <= k < raw_terminals@.len() ==> #[trigger] state.terminals@[k]@
                            == relativized(raw_terminals@[k]@, opt_view(cwd))
                    &&& opt_chars_of(state.cwd) == opt_view(cwd)
                },
            }
        }),
{
    let groups = group_editors(&raw_editors, cwd);
    let ghost gv = group_views(groups@);
    let mut files: Vec<FileEntry> = Vec::new();
    let mut i: usize = 0;
    while i < groups.len()
        invariant
            i <= groups.len(),
            gv == group_views(groups@),
            gv == group_rows(raw_views(raw_editors@), opt_view(cwd)),
            sources_fit(sources@),
            files@.len() == i,
            forall|k: int| 0 <= k < i ==> #[trigger] gv[k].1.len() == 0 || source_for(sources@, gv[k].0) is Some,
            forall|k: int|
                0 <= k < i ==> entry_matches(#[trigger] files@[k]@, gv[k], opt_view(cwd), sources@),
        decreases groups.len() - i,
    {
        let path = &groups[i].0;
        let raw = &groups[i].1;
        let selections = if raw.len() == 0 {
            Vec::new()
        } else {
            match find_source(sources, path.as_str()) {
                Some(src) => resolve_selections(&src.bytes, raw),
                None => {
                    assert(gv[i as int].1.len() > 0 && source_for(sources@, gv[i as int].0) is None);
                    assert(missing_source(gv, sources@));
                    assert(unresolvable(gv[i as int], sources@));
                    assert(gv[i as int].0 == path@);
                    assert(forall|m: int| 0 <= m < i ==> !unresolvable(#[trigger] gv[m], sources@));
                    assert(first_unreadable(gv, sources@, path@));
                    return Err(ResolveError::Unreadable(path.clone()));
                },
            }
        };
        let rel = relativize(path.as_str(), cwd);
        files.push(FileEntry { path: rel, selections });
        i += 1;
    }
    let mut terminals: Vec<String> = Vec::new();
    let mut j: usize = 0;
    while j < raw_terminals.len()
        invariant
            j <= raw_terminals.len(),
            terminals@.len() == j,
            forall|k: int|
                0 <= k < j ==> #[trigger] terminals@[k]@ == relativized(
                    raw_terminals@[k]@,
                    opt_view(cwd),
                ),
        decreases raw_terminals.len() - j,
    {
        terminals.push(relativize(raw_terminals[j].as_str(), cwd));
        j += 1;
    }
    let state_cwd: Option<String> = match cwd {
        Some(c) => Some(c.to_string()),
        None => None,
    };
    Ok(EditorState { files, terminals, cwd: state_cwd })
}

/// The characters of an optional owned string.
pub open spec fn opt_chars_of(o: Option<String>) -> Option<Seq<char>> {
    match o {
        Some(s) => Some(s@),
        None => None,
    }
}

/// Build the state from a query result, or `None` when the editor reported
/// nothing or no file and no terminal is left.
pub fn get_editor_state(
    result: Option<Vec<RawEditor>>,
    raw_terminals: Vec<String>,
    cwd: Option<&str>,
    sources: &Vec<FileSource>,
) -> (r: Result<Option<EditorState>, ResolveError>)
    requires
        sources_fit(sources@),
    ensures
        result is None ==> r matches Ok(None),
        result matches Some(rows) ==> {
            let groups = group_rows(raw_views(rows@), opt_view(cwd));
            &&& r is Err <==> missing_source(groups, sources@)
            &&& r matches Err(e) ==> (e matches ResolveError::Unreadable(p) && first_unreadable(
                groups,
                sources@,
                p@,
            ))
            &&& r matches Ok(Some(state)) ==> state.files@.len() + state.terminals@.len() > 0
                && groups_ascending(groups) && state.files@.len() == groups.len() && state.terminals@.len()
                == raw_terminals@.len() && (forall|k: int|
                0 <= k < groups.len() ==> entry_matches(
                    #[trigger] state.files@[k]@,
                    groups[k],
                    opt_view(cwd),
                    sources@,
                )) && (forall|k: int|
                0 <= k < raw_terminals@.len() ==> #[trigger] state.terminals@[k]@ == relativized(
                    raw_terminals@[k]@,
                    opt_view(cwd),
                )) && opt_chars_of(state.cwd) == opt_view(cwd)
            &&& r matches Ok(None) ==> groups.len() == 0 && raw_terminals@.len() == 0
        },
{
    match result {
        None => Ok(None),
        Some(rows) => {
            let state = match build_editor_state(rows, raw_terminals, cwd, sources) {
                Ok(state) => state,
                Err(e) => return Err(e),
            };
            if state.files.len() == 0 && state.terminals.len() == 0 {
                Ok(None)
            } else {
                Ok(Some(state))
            }
        },
    }
}

} // verus!
