//! Chronological merge and compression of narration events.
//!
//! Events come from the capture streams of a narration session: transcribed
//! words, editor snapshots, file diffs, selections in other applications and
//! in the browser, shell commands and clipboard changes.
//!
//! [`compress_and_merge`] sorts them by time, drops earlier selections that a
//! later, wider one from the same source subsumes, and then compresses each
//! run of events between two stretches of speech: cursor-only snapshots are
//! collapsed to the last one, snapshots are unioned, same-path diffs become one
//! net change, progressive selections and shell commands are collapsed, and
//! selections that the browser reported better are dropped.
//!
//! Timestamps are UTC instants counted in nanoseconds since the Unix epoch.

use vstd::prelude::*;
use crate::model::{file_views, FileEntry, FileEntryView, Selection};
use crate::hook_command::{deep_chars, whitespace_tokens, ws_tokens};
use crate::text::{is_substr, join_strings, join_with, str_contains, str_eq, string_of, string_views};

verus! {

broadcast use vstd::string::group_string_axioms;

/// Nanoseconds in a millisecond.
pub const NANOS_PER_MS: i64 = 1_000_000;

/// Window (ms) for cross-type dedup: a browser selection against an external one.
pub const CROSS_TYPE_DEDUP_WINDOW_MS: i64 = 500;

/// Window (ms) for progressive selection subsumption across runs.
///
/// The poll interval is 200ms and typical speech between captures is
/// 500ms to 1.5s, so two seconds is generous without merging unrelated
/// selections.
pub const SUBSUME_WINDOW_MS: i64 = 2000;

/// Content captured from the system clipboard.
#[derive(Debug, Clone, PartialEq, Eq)]
pub enum ClipboardContent {
    /// Plain text copied to the clipboard.
    Text { text: String },
    /// Image copied to the clipboard, staged as a PNG file.
    Image { path: String },
}

/// The kind of event that was redacted (filtered due to project scope).
#[derive(Debug, Clone, Copy, PartialEq, Eq, Structural, PartialOrd, Ord, Hash)]
pub enum RedactedKind {
    EditorSnapshot,
    FileDiff,
    ShellCommand,
}

/// A region of a file captured with its content and the selections in it.
#[derive(Debug, Clone, PartialEq, Eq)]
pub struct CapturedRegion {
    /// Path of the file.
    pub path: String,
    /// The captured lines.
    pub content: String,
    /// 1-based number of the first captured line.
    pub first_line: usize,
    /// The selections that the region was captured for.
    pub selections: Vec<Selection>,
    /// Language of the file, for syntax highlighting.
    pub language: Option<String>,
}

/// A timestamped event from one of the capture streams.
#[derive(Debug, Clone, PartialEq, Eq)]
pub enum Event {
    /// A transcribed word or group of words.
    Words {
        /// When the words were spoken.
        timestamp: i64,
        /// The transcribed text.
        text: String,
    },
    /// An editor state snapshot captured when selections changed.
    EditorSnapshot {
        /// Time of capture.
        timestamp: i64,
        /// When this selection was last observed unchanged (0 when unknown).
        last_seen: i64,
        /// Files with their selections at this point.
        files: Vec<FileEntry>,
        /// Captured regions with raw content and selection positions.
        regions: Vec<CapturedRegion>,
    },
    /// A file diff captured when file content changed.
    FileDiff {
        /// Time of capture.
        timestamp: i64,
        /// Absolute path of the changed file.
        path: String,
        /// File content before the change.
        old: String,
        /// File content after the change.
        new: String,
    },
    /// Text selected in an external application.
    ExternalSelection {
        /// Time of capture.
        timestamp: i64,
        /// When this selection was last observed unchanged (0 when unknown).
        last_seen: i64,
        /// Application name.
        app: String,
        /// Window title.
        window_title: String,
        /// The selected text.
        text: String,
    },
    /// Text selected in a browser, with page context.
    BrowserSelection {
        /// Time of capture.
        timestamp: i64,
        /// When this selection was last observed unchanged (0 when unknown).
        last_seen: i64,
        /// Page URL.
        url: String,
        /// Page title.
        title: String,
        /// The selected content as markdown.
        text: String,
        /// Plain-text rendering of the selection, used for dedup.
        plain_text: String,
    },
    /// A command executed in the user's shell.
    ShellCommand {
        /// When the command started.
        timestamp: i64,
        /// The shell (e.g. "fish", "zsh").
        shell: String,
        /// The command as typed by the user.
        command: String,
        /// Working directory when the command was executed.
        cwd: String,
        /// Exit status (None before the command completes).
        exit_status: Option<i32>,
        /// Bit pattern of the wall-clock duration in seconds as an IEEE-754
        /// double (None before the command completes).
        duration_secs_bits: Option<u64>,
    },
    /// Content captured from the system clipboard.
    ClipboardSelection {
        /// Time of capture.
        timestamp: i64,
        /// The clipboard content (text or image).
        content: ClipboardContent,
    },
    /// A placeholder for events filtered out by project-scope checks.
    Redacted {
        /// Time of the original event.
        timestamp: i64,
        /// What kind of event was redacted.
        kind: RedactedKind,
        /// Identifiers for deduplication during collapse.
        keys: Vec<String>,
    },
}


/// Mathematical model of [`ClipboardContent`].
pub enum ClipboardView {
    Text { text: Seq<char> },
    Image { path: Seq<char> },
}

impl View for ClipboardContent {
    type V = ClipboardView;

    open spec fn view(&self) -> ClipboardView {
        match self {
            ClipboardContent::Text { text } => ClipboardView::Text { text: text@ },
            ClipboardContent::Image { path } => ClipboardView::Image { path: path@ },
        }
    }
}

/// Mathematical model of [`CapturedRegion`].
pub struct RegionView {
    pub path: Seq<char>,
    pub content: Seq<char>,
    pub first_line: usize,
    pub selections: Seq<Selection>,
    pub language: Option<Seq<char>>,
}

/// The characters of an optional string.
pub open spec fn opt_chars(o: Option<String>) -> Option<Seq<char>> {
    match o {
        Some(s) => Some(s@),
        None => None,
    }
}

impl View for CapturedRegion {
    type V = RegionView;

    open spec fn view(&self) -> RegionView {
        RegionView {
            path: self.path@,
            content: self.content@,
            first_line: self.first_line,
            selections: self.selections@,
            language: opt_chars(self.language),
        }
    }
}

/// Mathematical model of [`Event`]: strings as character sequences.
pub enum EventView {
    Words { timestamp: i64, text: Seq<char> },
    EditorSnapshot {
        timestamp: i64,
        last_seen: i64,
        files: Seq<FileEntryView>,
        regions: Seq<RegionView>,
    },
    FileDiff { timestamp: i64, path: Seq<char>, old: Seq<char>, new: Seq<char> },
    ExternalSelection {
        timestamp: i64,
        last_seen: i64,
        app: Seq<char>,
        window_title: Seq<char>,
        text: Seq<char>,
    },
    BrowserSelection {
        timestamp: i64,
        last_seen: i64,
        url: Seq<char>,
        title: Seq<char>,
        text: Seq<char>,
        plain_text: Seq<char>,
    },
    ShellCommand {
        timestamp: i64,
        shell: Seq<char>,
        command: Seq<char>,
        cwd: Seq<char>,
        exit_status: Option<i32>,
        duration_secs_bits: Option<u64>,
    },
    ClipboardSelection { timestamp: i64, content: ClipboardView },
    Redacted { timestamp: i64, kind: RedactedKind, keys: Seq<Seq<char>> },
}

impl View for Event {
    type V = EventView;

    open spec fn view(&self) -> EventView {
        match self {
            Event::Words { timestamp, text } => EventView::Words { timestamp: *timestamp, text: text@ },
            Event::EditorSnapshot { timestamp, last_seen, files, regions } => {
                EventView::EditorSnapshot {
                    timestamp: *timestamp,
                    last_seen: *last_seen,
                    files: file_views(files@),
                    regions: region_views(regions@),
                }
            },
            Event::FileDiff { timestamp, path, old, new } => EventView::FileDiff {
                timestamp: *timestamp,
                path: path@,
                old: old@,
                new: new@,
            },
            Event::ExternalSelection { timestamp, last_seen, app, window_title, text } => {
                EventView::ExternalSelection {
                    timestamp: *timestamp,
                    last_seen: *last_seen,
                    app: app@,
                    window_title: window_title@,
                    text: text@,
                }
            },
            Event::BrowserSelection { timestamp, last_seen, url, title, text, plain_text } => {
                EventView::BrowserSelection {
                    timestamp: *timestamp,
                    last_seen: *last_seen,
                    url: url@,
                    title: title@,
                    text: text@,
                    plain_text: plain_text@,
                }
            },
            Event::ShellCommand { timestamp, shell, command, cwd, exit_status, duration_secs_bits } => {
                EventView::ShellCommand {
                    timestamp: *timestamp,
                    shell: shell@,
                    command: command@,
                    cwd: cwd@,
                    exit_status: *exit_status,
                    duration_secs_bits: *duration_secs_bits,
                }
            },
            Event::ClipboardSelection { timestamp, content } => EventView::ClipboardSelection {
                timestamp: *timestamp,
                content: content@,
            },
            Event::Redacted { timestamp, kind, keys } => EventView::Redacted {
                timestamp: *timestamp,
                kind: *kind,
                keys: string_views(keys@),
            },
        }
    }
}

/// The models of a sequence of regions.
pub open spec fn region_views(s: Seq<CapturedRegion>) -> Seq<RegionView> {
    s.map_values(|r: CapturedRegion| r@)
}

/// The models of a sequence of events.
pub open spec fn event_views(s: Seq<Event>) -> Seq<EventView> {
    s.map_values(|e: Event| e@)
}

impl EventView {
    /// The event's timestamp.
    pub open spec fn ts(self) -> i64 {
        match self {
            EventView::Words { timestamp, .. } => timestamp,
            EventView::EditorSnapshot { timestamp, .. } => timestamp,
            EventView::FileDiff { timestamp, .. } => timestamp,
            EventView::ExternalSelection { timestamp, .. } => timestamp,
            EventView::BrowserSelection { timestamp, .. } => timestamp,
            EventView::ShellCommand { timestamp, .. } => timestamp,
            EventView::ClipboardSelection { timestamp, .. } => timestamp,
            EventView::Redacted { timestamp, .. } => timestamp,
        }
    }

    /// When a selection-bearing event was last seen (its timestamp when that is
    /// unknown); the timestamp for every other event.
    pub open spec fn seen(self) -> i64 {
        match self {
            EventView::ExternalSelection { timestamp, last_seen, .. } => if last_seen == 0 {
                timestamp
            } else {
                last_seen
            },
            EventView::BrowserSelection { timestamp, last_seen, .. } => if last_seen == 0 {
                timestamp
            } else {
                last_seen
            },
            EventView::EditorSnapshot { timestamp, last_seen, .. } => if last_seen == 0 {
                timestamp
            } else {
                last_seen
            },
            _ => self.ts(),
        }
    }
}

impl Event {
    /// Sort key: the timestamp.
    pub fn timestamp(&self) -> (r: i64)
        ensures
            r == self@.ts(),
    {
        match self {
            Event::Words { timestamp, .. } => *timestamp,
            Event::EditorSnapshot { timestamp, .. } => *timestamp,
            Event::FileDiff { timestamp, .. } => *timestamp,
            Event::ExternalSelection { timestamp, .. } => *timestamp,
            Event::BrowserSelection { timestamp, .. } => *timestamp,
            Event::ShellCommand { timestamp, .. } => *timestamp,
            Event::ClipboardSelection { timestamp, .. } => *timestamp,
            Event::Redacted { timestamp, .. } => *timestamp,
        }
    }

    /// The last time this event's selection was observed unchanged.
    ///
    /// For selection-bearing events this is `last_seen`, falling back to the
    /// timestamp when `last_seen` is the epoch (old archives lack the field).
    /// For all other events it is the timestamp.
    pub fn last_seen(&self) -> (r: i64)
        ensures
            r == self@.seen(),
    {
        match self {
            Event::ExternalSelection { timestamp, last_seen, .. }
            | Event::BrowserSelection { timestamp, last_seen, .. }
            | Event::EditorSnapshot { timestamp, last_seen, .. } => {
                if *last_seen == 0 {
                    *timestamp
                } else {
                    *last_seen
                }
            },
            _ => self.timestamp(),
        }
    }
}

/// The elements of `s` whose flag in `keep` is set, in order.
pub open spec fn keep_seq<A>(s: Seq<A>, keep: Seq<bool>) -> Seq<A>
    decreases s.len(),
{
    if s.len() == 0 {
        Seq::empty()
    } else {
        let rest = keep_seq(s.drop_last(), keep);
        if keep[s.len() - 1] {
            rest.push(s.last())
        } else {
            rest
        }
    }
}

/// Some flagged element of `s` is `x`.
pub open spec fn flagged_in<A>(s: Seq<A>, keep: Seq<bool>, x: A) -> bool {
    exists|i: int| 0 <= i < s.len() && keep[i] && s[i] == x
}

/// The kept elements are exactly the flagged ones: each element of
/// `keep_seq(s, keep)` is a flagged element of `s`, and each flagged element
/// of `s` is kept.
pub proof fn lemma_keep_seq_members<A>(s: Seq<A>, keep: Seq<bool>)
    ensures
        forall|k: int| 0 <= k < keep_seq(s, keep).len() ==> flagged_in(s, keep, #[trigger] keep_seq(s, keep)[k]),
        forall|i: int| 0 <= i < s.len() && keep[i] ==> keep_seq(s, keep).contains(#[trigger] s[i]),
    decreases s.len(),
{
    if s.len() > 0 {
        let t = s.drop_last();
        lemma_keep_seq_members(t, keep);
        let r = keep_seq(t, keep);
        let o = keep_seq(s, keep);
        assert forall|k: int| 0 <= k < o.len() implies flagged_in(s, keep, #[trigger] o[k]) by {
            if k < r.len() {
                assert(o[k] == r[k]);
                assert(flagged_in(t, keep, r[k]));
                let i = choose|i: int| 0 <= i < t.len() && keep[i] && t[i] == r[k];
                assert(s[i] == t[i]);
            } else {
                assert(o[k] == s[s.len() - 1]);
            }
        }
        assert forall|i: int| 0 <= i < s.len() && keep[i] implies o.contains(#[trigger] s[i]) by {
            if i < t.len() {
                assert(t[i] == s[i]);
                assert(r.contains(t[i]));
                let k = choose|k: int| 0 <= k < r.len() && r[k] == t[i];
                assert(o[k] == r[k]);
            } else {
                assert(o[r.len() as int] == s[i]);
            }
        }
    } else {
        assert(keep_seq(s, keep).len() == 0);
    }
}

/// Taking models commutes with keeping the flagged elements.
pub proof fn lemma_views_keep(s: Seq<Event>, keep: Seq<bool>)
    ensures
        event_views(keep_seq(s, keep)) == keep_seq(event_views(s), keep),
    decreases s.len(),
{
    if s.len() > 0 {
        lemma_views_keep(s.drop_last(), keep);
        assert(event_views(s).drop_last() =~= event_views(s.drop_last()));
        let r = keep_seq(s.drop_last(), keep);
        assert(event_views(r.push(s.last())) =~= event_views(r).push(s.last()@));
    } else {
        assert(event_views(keep_seq(s, keep)) =~= keep_seq(event_views(s), keep));
    }
}

/// Moves the elements of `v` whose flag is set into a new vector, in order.
pub fn retain_flagged<A>(v: Vec<A>, keep: &Vec<bool>) -> (r: Vec<A>)
    requires
        keep.len() == v.len(),
    ensures
        r@ == keep_seq(v@, keep@),
{
    let ghost orig = v@;
    let mut out: Vec<A> = Vec::new();
    let mut idx: usize = 0;
    for x in it: v
        invariant
            idx == it.index(),
            it.seq() == orig,
            keep.len() == orig.len(),
            out@ == keep_seq(orig.take(idx as int), keep@),
    {
        proof {
            assert(orig.take(idx + 1).drop_last() =~= orig.take(idx as int));
        }
        if keep[idx] {
            out.push(x);
        }
        idx += 1;
    }
    proof {
        assert(orig.take(orig.len() as int) =~= orig);
    }
    out
}

/// Keeps the flagged events of `events`, in order.
fn retain_events(events: &mut Vec<Event>, keep: &Vec<bool>)
    requires
        keep.len() == old(events).len(),
    ensures
        final(events)@ == keep_seq(old(events)@, keep@),
        event_views(final(events)@) == keep_seq(event_views(old(events)@), keep@),
{
    let mut taken: Vec<Event> = Vec::new();
    std::mem::swap(events, &mut taken);
    *events = retain_flagged(taken, keep);
    proof {
        lemma_views_keep(old(events)@, keep@);
    }
}

// ── Cursor-only snapshots ───────────────────────────────────────────────────

/// Whether every selection of every file is a cursor.
pub open spec fn files_cursor_only(files: Seq<FileEntryView>) -> bool {
    forall|i: int, k: int|
        0 <= i < files.len() && 0 <= k < files[i].selections.len()
            ==> #[trigger] files[i].selections[k].is_cursor_spec()
}

/// An editor snapshot whose selections are all cursors.
pub open spec fn cursor_only(e: EventView) -> bool {
    match e {
        EventView::EditorSnapshot { files, .. } => files_cursor_only(files),
        _ => false,
    }
}

/// Whether an editor snapshot contains only cursor positions (no real
/// selections). Snapshots with highlights are always kept.
pub fn is_cursor_only(event: &Event) -> (r: bool)
    ensures
        r == cursor_only(event@),
{
    match event {
        Event::EditorSnapshot { files, .. } => {
            let ghost fv = file_views(files@);
            let mut i: usize = 0;
            while i < files.len()
                invariant
                    i <= files.len(),
                    fv == file_views(files@),
                    cursor_only(event@) == files_cursor_only(fv),
                    forall|a: int, k: int|
                        0 <= a < i && 0 <= k < fv[a].selections.len()
                            ==> #[trigger] fv[a].selections[k].is_cursor_spec(),
                decreases files.len() - i,
            {
                if !files[i].cursor_only() {
                    proof {
                        let k = choose|k: int|
                            0 <= k < files@[i as int].selections@.len()
                                && !#[trigger] files@[i as int].selections@[k].is_cursor_spec();
                        assert(!fv[i as int].selections[k].is_cursor_spec());
                    }
                    return false;
                }
                i += 1;
            }
            true
        },
        _ => false,
    }
}

// ── Progressive selection subsumption ──────────────────────────────────────

/// A later region covers an earlier one: same path, content contains it.
pub open spec fn region_covers(later: RegionView, earlier: RegionView) -> bool {
    later.path == earlier.path && is_substr(earlier.content, later.content)
}

/// Some region of `rs` covers `r`.
pub open spec fn region_covered(r: RegionView, rs: Seq<RegionView>) -> bool {
    exists|k: int| 0 <= k < rs.len() && #[trigger] region_covers(rs[k], r)
}

/// Every region of `ri` is covered by some region of `rj`.
pub open spec fn regions_covered(ri: Seq<RegionView>, rj: Seq<RegionView>) -> bool {
    forall|k: int| 0 <= k < ri.len() ==> #[trigger] region_covered(ri[k], rj)
}

/// Whether `later` is a wider selection from the same source as `earlier`.
///
/// External selections match on app and window title, browser selections on
/// URL, editor snapshots when every region of the earlier one (which has at
/// least one) is covered; a text clipboard capture is subsumed by an external
/// selection, by a browser selection's plain text, or by another text capture
/// that contains its text.
pub open spec fn subsumes(earlier: EventView, later: EventView) -> bool {
    match earlier {
        EventView::ExternalSelection { app, window_title, text, .. } => match later {
            EventView::ExternalSelection { app: a, window_title: w, text: t, .. } => a == app && w
                == window_title && is_substr(text, t),
            _ => false,
        },
        EventView::BrowserSelection { url, text, .. } => match later {
            EventView::BrowserSelection { url: u, text: t, .. } => u == url && is_substr(text, t),
            _ => false,
        },
        EventView::EditorSnapshot { regions, .. } => regions.len() > 0 && match later {
            EventView::EditorSnapshot { regions: rj, .. } => regions_covered(regions, rj),
            _ => false,
        },
        EventView::ClipboardSelection { content, .. } => match content {
            ClipboardView::Text { text } => match later {
                EventView::ExternalSelection { text: t, .. } => is_substr(text, t),
                EventView::BrowserSelection { plain_text, .. } => is_substr(text, plain_text),
                EventView::ClipboardSelection { content: c, .. } => match c {
                    ClipboardView::Text { text: t } => is_substr(text, t),
                    _ => false,
                },
                _ => false,
            },
            _ => false,
        },
        _ => false,
    }
}

/// The subsumption window in nanoseconds.
pub open spec fn subsume_window() -> int {
    SUBSUME_WINDOW_MS * NANOS_PER_MS
}

/// `later` arrives within the window after `earlier` was last seen.
pub open spec fn within_window(earlier: EventView, later: EventView) -> bool {
    later.ts() - earlier.seen() <= subsume_window()
}

/// Event `i` is dropped: some later event subsumes it, and neither that event
/// nor any event between them arrives after the window closed.
pub open spec fn subsumed_at(es: Seq<EventView>, i: int) -> bool {
    exists|j: int|
        i < j < es.len() && #[trigger] subsumes(es[i], es[j]) && forall|k: int|
            i < k <= j ==> #[trigger] within_window(es[i], es[k])
}

/// Which events survive subsumption.
pub open spec fn subsume_mask(es: Seq<EventView>) -> Seq<bool> {
    Seq::new(es.len(), |i: int| !subsumed_at(es, i))
}

fn region_covered_exec(r: &CapturedRegion, rs: &Vec<CapturedRegion>) -> (b: bool)
    ensures
        b == region_covered(r@, region_views(rs@)),
{
    let ghost rv = region_views(rs@);
    let mut k: usize = 0;
    while k < rs.len()
        invariant
            k <= rs.len(),
            rv == region_views(rs@),
            forall|m: int| 0 <= m < k ==> !#[trigger] region_covers(rv[m], r@),
        decreases rs.len() - k,
    {
        if str_eq(rs[k].path.as_str(), r.path.as_str()) && str_contains(
            rs[k].content.as_str(),
            r.content.as_str(),
        ) {
            assert(region_covers(rv[k as int], r@));
            return true;
        }
        k += 1;
    }
    false
}

fn regions_covered_exec(ri: &Vec<CapturedRegion>, rj: &Vec<CapturedRegion>) -> (b: bool)
    ensures
        b == regions_covered(region_views(ri@), region_views(rj@)),
{
    let ghost iv = region_views(ri@);
    let mut k: usize = 0;
    while k < ri.len()
        invariant
            k <= ri.len(),
            iv == region_views(ri@),
            forall|m: int| 0 <= m < k ==> #[trigger] region_covered(iv[m], region_views(rj@)),
        decreases ri.len() - k,
    {
        if !region_covered_exec(&ri[k], rj) {
            assert(!region_covered(iv[k as int], region_views(rj@)));
            return false;
        }
        k += 1;
    }
    true
}

/// Whether `later` subsumes `earlier` (see [`subsumes`]).
pub fn subsumes_event(earlier: &Event, later: &Event) -> (b: bool)
    ensures
        b == subsumes(earlier@, later@),
{
    match earlier {
        Event::ExternalSelection { app, window_title, text, .. } => match later {
            Event::ExternalSelection { app: a, window_title: w, text: t, .. } => {
                str_eq(a.as_str(), app.as_str()) && str_eq(w.as_str(), window_title.as_str())
                    && str_contains(t.as_str(), text.as_str())
            },
            _ => false,
        },
        Event::BrowserSelection { url, text, .. } => match later {
            Event::BrowserSelection { url: u, text: t, .. } => {
                str_eq(u.as_str(), url.as_str()) && str_contains(t.as_str(), text.as_str())
            },
            _ => false,
        },
        Event::EditorSnapshot { regions, .. } => {
            if regions.len() == 0 {
                return false;
            }
            match later {
                Event::EditorSnapshot { regions: rj, .. } => regions_covered_exec(regions, rj),
                _ => false,
            }
        },
        Event::ClipboardSelection { content, .. } => match content {
            ClipboardContent::Text { text } => match later {
                Event::ExternalSelection { text: t, .. } => str_contains(t.as_str(), text.as_str()),
                Event::BrowserSelection { plain_text, .. } => str_contains(
                    plain_text.as_str(),
                    text.as_str(),
                ),
                Event::ClipboardSelection { content: c, .. } => match c {
                    ClipboardContent::Text { text: t } => str_contains(t.as_str(), text.as_str()),
                    _ => false,
                },
                _ => false,
            },
            _ => false,
        },
        _ => false,
    }
}

/// Whether event `i` of `events` is subsumed (see [`subsumed_at`]).
fn is_subsumed(events: &Vec<Event>, i: usize) -> (b: bool)
    requires
        i < events.len(),
    ensures
        b == subsumed_at(event_views(events@), i as int),
{
    let ghost es = event_views(events@);
    let len = events.len();
    let ls_i = events[i].last_seen() as i128;
    let window: i128 = (SUBSUME_WINDOW_MS as i128) * 1_000_000;
    let mut j: usize = i + 1;
    let mut stop = false;
    let mut removed = false;
    while j < len && !stop
        invariant
            es == event_views(events@),
            len == es.len(),
            i < j <= len,
            ls_i == es[i as int].seen(),
            window == subsume_window(),
            !stop ==> forall|k: int| i < k < j ==> #[trigger] within_window(es[i as int], es[k]),
            !stop ==> forall|k: int| i < k < j ==> !#[trigger] subsumes(es[i as int], es[k]),
            stop ==> (removed == subsumed_at(es, i as int)),
            !stop ==> !removed,
        decreases len - j,
    {
        if (events[j].timestamp() as i128) - ls_i > window {
            proof {
                assert(!within_window(es[i as int], es[j as int]));
                if subsumed_at(es, i as int) {
                    let w = choose|w: int|
                        i < w < es.len() && #[trigger] subsumes(es[i as int], es[w]) && forall|
                            k: int,
                        | i < k <= w ==> #[trigger] within_window(es[i as int], es[k]);
                    if w < j {
                        assert(!subsumes(es[i as int], es[w]));
                    } else {
                        assert(within_window(es[i as int], es[j as int]));
                    }
                }
            }
            stop = true;
            removed = false;
        } else if subsumes_event(&events[i], &events[j]) {
            proof {
                assert(within_window(es[i as int], es[j as int]));
                assert(forall|k: int|
                    i < k <= j ==> #[trigger] within_window(es[i as int], es[k]));
                assert(subsumes(es[i as int], es[j as int]));
            }
            stop = true;
            removed = true;
        } else {
            assert(within_window(es[i as int], es[j as int]));
            assert(!subsumes(es[i as int], es[j as int]));
        }
        j += 1;
    }
    proof {
        if !stop {
            if subsumed_at(es, i as int) {
                let w = choose|w: int|
                    i < w < es.len() && #[trigger] subsumes(es[i as int], es[w]) && forall|k: int|
                        i < k <= w ==> #[trigger] within_window(es[i as int], es[k]);
                assert(!subsumes(es[i as int], es[w]));
            }
        }
    }
    removed
}

/// Drop earlier, narrower selections when a later, wider selection from the
/// same source arrives within [`SUBSUME_WINDOW_MS`].
///
/// The gap is measured from `last_seen` of the earlier event to the timestamp
/// of the later event; the scan for a wider selection stops at the first
/// event past the window. Intermediate events act as bridges for chains of
/// subsumption (A within B within C).
pub fn subsume_progressive_selections(events: &mut Vec<Event>)
    ensures
        final(events)@ == keep_seq(old(events)@, subsume_mask(event_views(old(events)@))),
        event_views(final(events)@) == keep_seq(
            event_views(old(events)@),
            subsume_mask(event_views(old(events)@)),
        ),
{
    let ghost es = event_views(events@);
    let len = events.len();
    let mut keep: Vec<bool> = Vec::new();
    let mut i: usize = 0;
    while i < len
        invariant
            es == event_views(events@),
            len == es.len(),
            i <= len,
            keep@.len() == i,
            forall|k: int| 0 <= k < i ==> keep@[k] == !subsumed_at(es, k),
        decreases len - i,
    {
        let removed = is_subsumed(events, i);
        keep.push(!removed);
        i += 1;
    }
    assert(keep@ =~= subsume_mask(es));
    retain_events(events, &keep);
}

// ── Per-run transformations ─────────────────────────────────────────────────

/// Index of the last cursor-only snapshot of `s` (-1 if there is none).
pub open spec fn last_cursor_only(s: Seq<EventView>) -> int
    decreases s.len(),
{
    if s.len() == 0 {
        -1
    } else if cursor_only(s.last()) {
        s.len() - 1
    } else {
        last_cursor_only(s.drop_last())
    }
}

/// Which events survive cursor compression: everything but the cursor-only
/// snapshots before the last one.
pub open spec fn cursor_mask(s: Seq<EventView>) -> Seq<bool> {
    Seq::new(s.len(), |i: int| !cursor_only(s[i]) || i == last_cursor_only(s))
}

/// Remove all cursor-only snapshots from a run except the last one.
///
/// Selection (highlight) snapshots are never removed, and at most one
/// cursor-only snapshot survives.
pub fn collapse_cursor_only(run: &mut Vec<Event>)
    ensures
        final(run)@ == keep_seq(old(run)@, cursor_mask(event_views(old(run)@))),
        event_views(final(run)@) == keep_seq(
            event_views(old(run)@),
            cursor_mask(event_views(old(run)@)),
        ),
{
    let ghost es = event_views(run@);
    let len = run.len();
    let mut last: Option<usize> = None;
    let mut i: usize = 0;
    while i < len
        invariant
            es == event_views(run@),
            len == es.len(),
            i <= len,
            match last {
                Some(l) => l < i && l == last_cursor_only(es.take(i as int)),
                None => last_cursor_only(es.take(i as int)) == -1,
            },
        decreases len - i,
    {
        assert(es.take(i + 1).drop_last() =~= es.take(i as int));
        if is_cursor_only(&run[i]) {
            last = Some(i);
        }
        i += 1;
    }
    assert(es.take(len as int) =~= es);
    let mut keep: Vec<bool> = Vec::new();
    let mut k: usize = 0;
    while k < len
        invariant
            es == event_views(run@),
            len == es.len(),
            k <= len,
            keep@.len() == k,
            match last {
                Some(l) => l == last_cursor_only(es),
                None => last_cursor_only(es) == -1,
            },
            forall|m: int| 0 <= m < k ==> keep@[m] == cursor_mask(es)[m],
        decreases len - k,
    {
        let flag = !is_cursor_only(&run[k]) || last == Some(k);
        keep.push(flag);
        k += 1;
    }
    assert(keep@ =~= cursor_mask(es));
    retain_events(run, &keep);
}

/// The parts of an editor snapshot that the union works on:
/// timestamp, last seen, files and regions.
pub type SnapshotTuple = (i64, i64, Vec<FileEntry>, Vec<CapturedRegion>);

/// The first occurrence of each value of `s`, in order.
pub open spec fn first_occurrences<V>(s: Seq<V>) -> Seq<V>
    decreases s.len(),
{
    if s.len() == 0 {
        Seq::empty()
    } else {
        let d = first_occurrences(s.drop_last());
        if s.drop_last().contains(s.last()) {
            d
        } else {
            d.push(s.last())
        }
    }
}

/// `first_occurrences` keeps exactly the values of its argument.
pub proof fn lemma_first_occurrences_contains<V>(s: Seq<V>, x: V)
    ensures
        first_occurrences(s).contains(x) == s.contains(x),
    decreases s.len(),
{
    if s.len() > 0 {
        lemma_first_occurrences_contains(s.drop_last(), x);
        let d = first_occurrences(s.drop_last());
        if s.contains(x) {
            let k = choose|k: int| 0 <= k < s.len() && s[k] == x;
            if k < s.len() - 1 {
                assert(s.drop_last()[k] == x);
                if !s.drop_last().contains(s.last()) {
                    let m = choose|m: int| 0 <= m < d.len() && d[m] == x;
                    assert(d.push(s.last())[m] == x);
                }
            } else if s.drop_last().contains(s.last()) {
            } else {
                assert(d.push(s.last())[d.len() as int] == x);
            }
        } else {
            if first_occurrences(s).contains(x) {
                if !s.drop_last().contains(s.last()) {
                    let m = choose|m: int|
                        0 <= m < d.len() + 1 && #[trigger] d.push(s.last())[m] == x;
                    if m < d.len() {
                        assert(d[m] == x);
                    } else {
                        assert(s[s.len() - 1] == x);
                    }
                }
                let w = choose|w: int| 0 <= w < s.drop_last().len() && s.drop_last()[w] == x;
                assert(s[w] == x);
            }
        }
    }
}

/// The models of the files of every snapshot, in order.
pub open spec fn snapshot_files(snaps: Seq<SnapshotTuple>) -> Seq<FileEntryView>
    decreases snaps.len(),
{
    if snaps.len() == 0 {
        Seq::empty()
    } else {
        snapshot_files(snaps.drop_last()) + file_views(snaps.last().2@)
    }
}

/// The models of the regions of every snapshot, in order.
pub open spec fn snapshot_regions(snaps: Seq<SnapshotTuple>) -> Seq<RegionView>
    decreases snaps.len(),
{
    if snaps.len() == 0 {
        Seq::empty()
    } else {
        snapshot_regions(snaps.drop_last()) + region_views(snaps.last().3@)
    }
}

/// Whether two regions are equal in every field.
pub fn same_region(a: &CapturedRegion, b: &CapturedRegion) -> (r: bool)
    ensures
        r == (a@ == b@),
{
    if !str_eq(a.path.as_str(), b.path.as_str()) || !str_eq(a.content.as_str(), b.content.as_str())
        || a.first_line != b.first_line || a.selections.len() != b.selections.len() {
        return false;
    }
    let lang_eq = match (&a.language, &b.language) {
        (Some(x), Some(y)) => str_eq(x.as_str(), y.as_str()),
        (None, None) => true,
        _ => false,
    };
    if !lang_eq {
        return false;
    }
    let mut i: usize = 0;
    while i < a.selections.len()
        invariant
            i <= a.selections.len(),
            a.selections.len() == b.selections.len(),
            forall|k: int| 0 <= k < i ==> a.selections@[k] == b.selections@[k],
        decreases a.selections.len() - i,
    {
        if a.selections[i] != b.selections[i] {
            return false;
        }
        i += 1;
    }
    assert(a.selections@ =~= b.selections@);
    true
}

fn contains_file(v: &Vec<FileEntry>, f: &FileEntry) -> (r: bool)
    ensures
        r == file_views(v@).contains(f@),
{
    let mut i: usize = 0;
    while i < v.len()
        invariant
            i <= v.len(),
            forall|k: int| 0 <= k < i ==> v@[k]@ != f@,
        decreases v.len() - i,
    {
        if v[i].same_as(f) {
            assert(file_views(v@)[i as int] == f@);
            return true;
        }
        i += 1;
    }
    proof {
        if file_views(v@).contains(f@) {
            let k = choose|k: int| 0 <= k < file_views(v@).len() && file_views(v@)[k] == f@;
            assert(v@[k]@ == f@);
        }
    }
    false
}

fn contains_region(v: &Vec<CapturedRegion>, g: &CapturedRegion) -> (r: bool)
    ensures
        r == region_views(v@).contains(g@),
{
    let mut i: usize = 0;
    while i < v.len()
        invariant
            i <= v.len(),
            forall|k: int| 0 <= k < i ==> v@[k]@ != g@,
        decreases v.len() - i,
    {
        if same_region(&v[i], g) {
            assert(region_views(v@)[i as int] == g@);
            return true;
        }
        i += 1;
    }
    proof {
        if region_views(v@).contains(g@) {
            let k = choose|k: int| 0 <= k < region_views(v@).len() && region_views(v@)[k] == g@;
            assert(v@[k]@ == g@);
        }
    }
    false
}

/// Fold all snapshots into one whose files and regions are the deduplicated
/// union of theirs (first occurrences, in order), with the timestamps of the
/// last snapshot. `None` when there are no snapshots.
pub fn union_snapshots(snapshots: Vec<SnapshotTuple>) -> (r: Option<SnapshotTuple>)
    ensures
        r is None <==> snapshots@.len() == 0,
        r matches Some(u) ==> {
            &&& u.0 == snapshots@.last().0
            &&& u.1 == snapshots@.last().1
            &&& file_views(u.2@) == first_occurrences(snapshot_files(snapshots@))
            &&& region_views(u.3@) == first_occurrences(snapshot_regions(snapshots@))
        },
{
    if snapshots.len() == 0 {
        return None;
    }
    let ghost orig = snapshots@;
    let n_snaps = snapshots.len();
    let mut merged_files: Vec<FileEntry> = Vec::new();
    let mut merged_regions: Vec<CapturedRegion> = Vec::new();
    let mut last_ts = snapshots[0].0;
    let mut last_ls = snapshots[0].1;
    let mut a: usize = 0;
    for snap in it: snapshots
        invariant
            a == it.index(),
            it.seq() == orig,
            orig.len() == n_snaps,
            orig.len() > 0,
            a > 0 ==> last_ts == orig[a - 1].0 && last_ls == orig[a - 1].1,
            file_views(merged_files@) == first_occurrences(snapshot_files(orig.take(a as int))),
            region_views(merged_regions@) == first_occurrences(
                snapshot_regions(orig.take(a as int)),
            ),
    {
        let ghost pf = snapshot_files(orig.take(a as int));
        let ghost pr = snapshot_regions(orig.take(a as int));
        proof {
            assert(orig.take(a + 1).drop_last() =~= orig.take(a as int));
        }
        let (ts, ls, files, regions) = snap;
        last_ts = ts;
        last_ls = ls;
        let ghost fo = files@;
        let n_files = files.len();
        let mut b: usize = 0;
        for f in fit: files
            invariant
                b == fit.index(),
                fit.seq() == fo,
                fo.len() == n_files,
                file_views(merged_files@) == first_occurrences(
                    pf + file_views(fo.take(b as int)),
                ),
        {
            let ghost p = pf + file_views(fo.take(b as int));
            proof {
                assert(pf + file_views(fo.take(b + 1)) =~= p.push(f@));
                assert(p.push(f@).drop_last() =~= p);
                lemma_first_occurrences_contains(p, f@);
            }
            if !contains_file(&merged_files, &f) {
                let ghost before = merged_files@;
                merged_files.push(f);
                assert(file_views(merged_files@) =~= file_views(before).push(f@));
            }
            b += 1;
        }
        assert(fo.take(fo.len() as int) =~= fo);
        let ghost ro = regions@;
        let n_regions = regions.len();
        let mut c: usize = 0;
        for g in rit: regions
            invariant
                c == rit.index(),
                rit.seq() == ro,
                ro.len() == n_regions,
                region_views(merged_regions@) == first_occurrences(
                    pr + region_views(ro.take(c as int)),
                ),
        {
            let ghost p = pr + region_views(ro.take(c as int));
            proof {
                assert(pr + region_views(ro.take(c + 1)) =~= p.push(g@));
                assert(p.push(g@).drop_last() =~= p);
                lemma_first_occurrences_contains(p, g@);
            }
            if !contains_region(&merged_regions, &g) {
                let ghost before = merged_regions@;
                merged_regions.push(g);
                assert(region_views(merged_regions@) =~= region_views(before).push(g@));
            }
            c += 1;
        }
        assert(ro.take(ro.len() as int) =~= ro);
        proof {
            assert(orig.take(a + 1).last() == orig[a as int]);
            assert(pf + file_views(fo) == snapshot_files(orig.take(a + 1)));
            assert(pr + region_views(ro) == snapshot_regions(orig.take(a + 1)));
        }
        a += 1;
    }
    assert(orig.take(orig.len() as int) =~= orig);
    Some((last_ts, last_ls, merged_files, merged_regions))
}

/// A file diff: timestamp, path, old content, new content.
pub type DiffTuple = (i64, String, String, String);

/// The model of a diff tuple.
pub open spec fn diff_view(d: DiffTuple) -> (i64, Seq<char>, Seq<char>, Seq<char>) {
    (d.0, d.1@, d.2@, d.3@)
}

/// The models of a sequence of diff tuples.
pub open spec fn diff_views(s: Seq<DiffTuple>) -> Seq<(i64, Seq<char>, Seq<char>, Seq<char>)> {
    s.map_values(|d: DiffTuple| diff_view(d))
}

/// Index of the first diff of path `p` (-1 if there is none).
pub open spec fn path_index(r: Seq<(i64, Seq<char>, Seq<char>, Seq<char>)>, p: Seq<char>) -> int
    decreases r.len(),
{
    if r.len() == 0 {
        -1
    } else {
        let q = path_index(r.drop_last(), p);
        if q >= 0 {
            q
        } else if r.last().1 == p {
            r.len() - 1
        } else {
            -1
        }
    }
}

/// One diff per path, in first-seen order, each with the first `old` and the
/// last `new` and timestamp of that path's diffs.
pub open spec fn net_change(s: Seq<(i64, Seq<char>, Seq<char>, Seq<char>)>) -> Seq<
    (i64, Seq<char>, Seq<char>, Seq<char>),
>
    decreases s.len(),
{
    if s.len() == 0 {
        Seq::empty()
    } else {
        let r = net_change(s.drop_last());
        let d = s.last();
        let k = path_index(r, d.1);
        if k >= 0 {
            r.update(k, (d.0, r[k].1, r[k].2, d.3))
        } else {
            r.push(d)
        }
    }
}

/// `path_index` is -1 or an index of the sequence.
pub proof fn lemma_path_index_range(r: Seq<(i64, Seq<char>, Seq<char>, Seq<char>)>, p: Seq<char>)
    ensures
        -1 <= path_index(r, p) < r.len(),
        path_index(r, p) >= 0 ==> r[path_index(r, p)].1 == p,
    decreases r.len(),
{
    if r.len() > 0 {
        lemma_path_index_range(r.drop_last(), p);
    }
}

/// Collapse same-path diffs into net-change diffs (first `old`, last `new`).
/// Returns one diff per unique path, in first-seen order, with the latest
/// timestamp for that path.
pub fn net_change_diffs(diffs: Vec<DiffTuple>) -> (r: Vec<DiffTuple>)
    ensures
        diff_views(r@) == net_change(diff_views(diffs@)),
{
    let ghost orig = diff_views(diffs@);
    let n_diffs = diffs.len();
    let mut by_path: Vec<DiffTuple> = Vec::new();
    let mut idx: usize = 0;
    for d in it: diffs
        invariant
            idx == it.index(),
            diff_views(it.seq()) == orig,
            orig.len() == n_diffs,
            diff_views(by_path@) == net_change(orig.take(idx as int)),
    {
        let ghost rv = diff_views(by_path@);
        proof {
            assert(orig.take(idx + 1).drop_last() =~= orig.take(idx as int));
            assert(orig[idx as int] == diff_view(it.seq()[idx as int]));
        }
        let mut found: Option<usize> = None;
        let mut k: usize = 0;
        while k < by_path.len()
            invariant
                k <= by_path.len(),
                rv == diff_views(by_path@),
                match found {
                    Some(f) => f < k && f == path_index(rv.take(k as int), d.1@),
                    None => path_index(rv.take(k as int), d.1@) == -1,
                },
            decreases by_path.len() - k,
        {
            assert(rv.take(k + 1).drop_last() =~= rv.take(k as int));
            if found.is_none() && str_eq(by_path[k].1.as_str(), d.1.as_str()) {
                found = Some(k);
            }
            k += 1;
        }
        assert(rv.take(by_path.len() as int) =~= rv);
        proof {
            lemma_path_index_range(rv, d.1@);
        }
        match found {
            Some(f) => {
                let entry = by_path.remove(f);
                let (_, p0, o0, _) = entry;
                let (t, _, _, n) = d;
                by_path.insert(f, (t, p0, o0, n));
                assert(diff_views(by_path@) =~= rv.update(
                    f as int,
                    (t, rv[f as int].1, rv[f as int].2, n@),
                ));
            },
            None => {
                let ghost dv = diff_view(d);
                by_path.push(d);
                assert(diff_views(by_path@) =~= rv.push(dv));
            },
        }
        idx += 1;
    }
    assert(orig.take(orig.len() as int) =~= orig);
    by_path
}

/// An earlier external selection from app `app` and window `wt` whose text the
/// new selection's `text` contains.
pub open spec fn ext_merge_target(e: EventView, app: Seq<char>, wt: Seq<char>, text: Seq<char>) -> bool {
    match e {
        EventView::ExternalSelection { app: a, window_title: w, text: t, .. } => a == app && w == wt
            && is_substr(t, text),
        _ => false,
    }
}

/// Index of the last merge target in `r` (-1 if there is none).
pub open spec fn last_ext_target(r: Seq<EventView>, app: Seq<char>, wt: Seq<char>, text: Seq<char>) -> int
    decreases r.len(),
{
    if r.len() == 0 {
        -1
    } else if ext_merge_target(r.last(), app, wt, text) {
        r.len() - 1
    } else {
        last_ext_target(r.drop_last(), app, wt, text)
    }
}

/// A browser selection of the same URL and text.
pub open spec fn browser_dup(e: EventView, url: Seq<char>, text: Seq<char>) -> bool {
    match e {
        EventView::BrowserSelection { url: u, text: t, .. } => u == url && t == text,
        _ => false,
    }
}

/// Index of the first browser duplicate in `r` (-1 if there is none).
pub open spec fn first_browser_dup(r: Seq<EventView>, url: Seq<char>, text: Seq<char>) -> int
    decreases r.len(),
{
    if r.len() == 0 {
        -1
    } else {
        let q = first_browser_dup(r.drop_last(), url, text);
        if q >= 0 {
            q
        } else if browser_dup(r.last(), url, text) {
            r.len() - 1
        } else {
            -1
        }
    }
}

/// A shell command `cmd` that has not completed yet (a preexec record).
pub open spec fn is_preexec_of(e: EventView, cmd: Seq<char>) -> bool {
    match e {
        EventView::ShellCommand { command, exit_status, .. } => command == cmd && exit_status is None,
        _ => false,
    }
}

/// Index of the first preexec record of `cmd` (-1 if there is none).
pub open spec fn first_preexec(r: Seq<EventView>, cmd: Seq<char>) -> int
    decreases r.len(),
{
    if r.len() == 0 {
        -1
    } else {
        let q = first_preexec(r.drop_last(), cmd);
        if q >= 0 {
            q
        } else if is_preexec_of(r.last(), cmd) {
            r.len() - 1
        } else {
            -1
        }
    }
}

/// The events that are not preexec records of `cmd`.
pub open spec fn preexec_mask(r: Seq<EventView>, cmd: Seq<char>) -> Seq<bool> {
    Seq::new(r.len(), |i: int| !is_preexec_of(r[i], cmd))
}

/// The working directory of a shell command.
pub open spec fn cwd_of(e: EventView) -> Seq<char> {
    match e {
        EventView::ShellCommand { cwd, .. } => cwd,
        _ => Seq::empty(),
    }
}

/// A shell command with its working directory replaced.
pub open spec fn with_cwd(e: EventView, cwd: Seq<char>) -> EventView {
    match e {
        EventView::ShellCommand { timestamp, shell, command, exit_status, duration_secs_bits, .. } => {
            EventView::ShellCommand { timestamp, shell, command, cwd, exit_status, duration_secs_bits }
        },
        _ => e,
    }
}

/// Adding one event to the collapsed selections.
///
/// An external selection replaces the last earlier one from the same app and
/// window whose text it contains; a browser selection replaces the first with
/// the same URL and text; a completed shell command removes the preexec
/// records of the same command and takes the first one's working directory;
/// anything else is appended.
pub open spec fn collapse_step(r: Seq<EventView>, e: EventView) -> Seq<EventView> {
    match e {
        EventView::ExternalSelection { app, window_title, text, .. } => {
            let k = last_ext_target(r, app, window_title, text);
            if k >= 0 {
                r.update(k, e)
            } else {
                r.push(e)
            }
        },
        EventView::BrowserSelection { url, text, .. } => {
            let k = first_browser_dup(r, url, text);
            if k >= 0 {
                r.update(k, e)
            } else {
                r.push(e)
            }
        },
        EventView::ShellCommand { command, exit_status, .. } => {
            if exit_status is Some {
                let k = first_preexec(r, command);
                let merged = if k >= 0 {
                    with_cwd(e, cwd_of(r[k]))
                } else {
                    e
                };
                keep_seq(r, preexec_mask(r, command)).push(merged)
            } else {
                r.push(e)
            }
        },
        _ => r.push(e),
    }
}

/// The collapse of a sequence of selection and command events, in order.
pub open spec fn collapse_fold(s: Seq<EventView>) -> Seq<EventView>
    decreases s.len(),
{
    if s.len() == 0 {
        Seq::empty()
    } else {
        collapse_step(collapse_fold(s.drop_last()), s.last())
    }
}

pub(crate) proof fn lemma_first_browser_dup_range(r: Seq<EventView>, url: Seq<char>, text: Seq<char>)
    ensures
        -1 <= first_browser_dup(r, url, text) < r.len(),
    decreases r.len(),
{
    if r.len() > 0 {
        lemma_first_browser_dup_range(r.drop_last(), url, text);
    }
}

pub(crate) proof fn lemma_first_preexec_range(r: Seq<EventView>, cmd: Seq<char>)
    ensures
        -1 <= first_preexec(r, cmd) < r.len(),
    decreases r.len(),
{
    if r.len() > 0 {
        lemma_first_preexec_range(r.drop_last(), cmd);
    }
}

pub(crate) proof fn lemma_last_ext_target_range(r: Seq<EventView>, app: Seq<char>, wt: Seq<char>, text: Seq<char>)
    ensures
        -1 <= last_ext_target(r, app, wt, text) < r.len(),
    decreases r.len(),
{
    if r.len() > 0 {
        lemma_last_ext_target_range(r.drop_last(), app, wt, text);
    }
}

/// Removes the preexec records of `cmd`, handing back the working directory
/// of the first one.
fn take_preexecs(r: Vec<Event>, cmd: &String) -> (out: (Vec<Event>, Option<String>))
    ensures
        event_views(out.0@) == keep_seq(event_views(r@), preexec_mask(event_views(r@), cmd@)),
        out.1 is Some <==> first_preexec(event_views(r@), cmd@) >= 0,
        out.1 matches Some(c) ==> c@ == cwd_of(
            event_views(r@)[first_preexec(event_views(r@), cmd@)],
        ),
{
    let ghost orig = r@;
    let ghost ov = event_views(r@);
    let n = r.len();
    let mut kept: Vec<Event> = Vec::new();
    let mut cwd: Option<String> = None;
    let mut idx: usize = 0;
    for e in it: r
        invariant
            idx == it.index(),
            it.seq() == orig,
            ov == event_views(orig),
            orig.len() == n,
            event_views(kept@) == keep_seq(ov.take(idx as int), preexec_mask(ov, cmd@)),
            cwd is Some <==> first_preexec(ov.take(idx as int), cmd@) >= 0,
            cwd matches Some(c) ==> c@ == cwd_of(ov[first_preexec(ov.take(idx as int), cmd@)]),
            first_preexec(ov.take(idx as int), cmd@) < idx,
    {
        let ghost ev = e@;
        proof {
            assert(ov.take(idx + 1).drop_last() =~= ov.take(idx as int));
            assert(ov[idx as int] == ev);
            assert(ov.take(idx + 1).last() == ev);
            assert(keep_seq(ov.take(idx as int), preexec_mask(ov, cmd@)) == keep_seq(
                ov.take(idx as int),
                preexec_mask(ov, cmd@),
            ));
        }
        let pre = match &e {
            Event::ShellCommand { command, exit_status, .. } => exit_status.is_none() && str_eq(
                command.as_str(),
                cmd.as_str(),
            ),
            _ => false,
        };
        assert(pre == is_preexec_of(ev, cmd@));
        if pre {
            if cwd.is_none() {
                match e {
                    Event::ShellCommand { cwd: c, .. } => {
                        cwd = Some(c);
                    },
                    _ => {},
                }
            }
        } else {
            let ghost before = kept@;
            kept.push(e);
            assert(event_views(kept@) =~= event_views(before).push(ev));
        }
        idx += 1;
    }
    assert(ov.take(n as int) =~= ov);
    (kept, cwd)
}

/// Collapse duplicate external and browser selection events within a run.
///
/// Progressive external selections from the same app and window are
/// forward-merged: when an earlier selection's text is a substring of a later
/// one, the later replaces it. Browser selections are deduplicated by
/// (url, text), keeping the latest in the first one's place. A completed shell
/// command replaces its preexec record, keeping the preexec's working
/// directory. Finally external selections that a nearby browser selection
/// reports are dropped ([`dedup_browser_vs_external`]).
pub fn collapse_ext_selections(selections: Vec<Event>) -> (r: Vec<Event>)
    ensures
        event_views(r@) == keep_seq(
            collapse_fold(event_views(selections@)),
            browser_mask(collapse_fold(event_views(selections@))),
        ),
{
    let ghost orig = selections@;
    let ghost ov = event_views(orig);
    let n = selections.len();
    let mut result: Vec<Event> = Vec::new();
    let mut idx: usize = 0;
    for event in it: selections
        invariant
            idx == it.index(),
            it.seq() == orig,
            ov == event_views(orig),
            orig.len() == n,
            event_views(result@) == collapse_fold(ov.take(idx as int)),
    {
        let ghost rv = event_views(result@);
        let ghost ev = event@;
        proof {
            assert(ov.take(idx + 1).drop_last() =~= ov.take(idx as int));
            assert(ov[idx as int] == ev);
            assert(ov.take(idx + 1).last() == ev);
        }
        match &event {
            Event::ExternalSelection { app, window_title, text, .. } => {
                let mut target: Option<usize> = None;
                let mut k: usize = 0;
                while k < result.len()
                    invariant
                        k <= result.len(),
                        rv == event_views(result@),
                        ev == event@,
                        event matches Event::ExternalSelection { app: a, window_title: w, text: t, .. }
                            && a@ == app@ && w@ == window_title@ && t@ == text@,
                        match target {
                            Some(f) => f < k && f == last_ext_target(
                                rv.take(k as int),
                                app@,
                                window_title@,
                                text@,
                            ),
                            None => last_ext_target(rv.take(k as int), app@, window_title@, text@)
                                == -1,
                        },
                    decreases result.len() - k,
                {
                    assert(rv.take(k + 1).drop_last() =~= rv.take(k as int));
                    let hit = match &result[k] {
                        Event::ExternalSelection { app: a, window_title: w, text: t, .. } => {
                            str_eq(a.as_str(), app.as_str()) && str_eq(
                                w.as_str(),
                                window_title.as_str(),
                            ) && str_contains(text.as_str(), t.as_str())
                        },
                        _ => false,
                    };
                    assert(hit == ext_merge_target(rv[k as int], app@, window_title@, text@));
                    if hit {
                        target = Some(k);
                    }
                    k += 1;
                }
                assert(rv.take(result.len() as int) =~= rv);
                match target {
                    Some(f) => {
                        result[f] = event;
                        assert(event_views(result@) =~= rv.update(f as int, ev));
                    },
                    None => {
                        result.push(event);
                        assert(event_views(result@) =~= rv.push(ev));
                    },
                }
            },
            Event::BrowserSelection { url, text, .. } => {
                let mut found: Option<usize> = None;
                let mut k: usize = 0;
                while k < result.len()
                    invariant
                        k <= result.len(),
                        rv == event_views(result@),
                        match found {
                            Some(f) => f < k && f == first_browser_dup(
                                rv.take(k as int),
                                url@,
                                text@,
                            ),
                            None => first_browser_dup(rv.take(k as int), url@, text@) == -1,
                        },
                    decreases result.len() - k,
                {
                    assert(rv.take(k + 1).drop_last() =~= rv.take(k as int));
                    let hit = match &result[k] {
                        Event::BrowserSelection { url: u, text: t, .. } => {
                            str_eq(u.as_str(), url.as_str()) && str_eq(t.as_str(), text.as_str())
                        },
                        _ => false,
                    };
                    assert(hit == browser_dup(rv[k as int], url@, text@));
                    if found.is_none() && hit {
                        found = Some(k);
                    }
                    k += 1;
                }
                assert(rv.take(result.len() as int) =~= rv);
                proof {
                    lemma_first_browser_dup_range(rv, url@, text@);
                }
                match found {
                    Some(f) => {
                        result[f] = event;
                        assert(event_views(result@) =~= rv.update(f as int, ev));
                    },
                    None => {
                        result.push(event);
                        assert(event_views(result@) =~= rv.push(ev));
                    },
                }
            },
            Event::ShellCommand { command, exit_status, .. } => {
                if exit_status.is_some() {
                    let cmd = command.clone();
                    let mut taken: Vec<Event> = Vec::new();
                    std::mem::swap(&mut result, &mut taken);
                    let (kept, pre_cwd) = take_preexecs(taken, &cmd);
                    result = kept;
                    proof {
                        lemma_first_preexec_range(rv, cmd@);
                    }
                    match pre_cwd {
                        Some(c) => {
                            let merged = match event {
                                Event::ShellCommand {
                                    timestamp,
                                    shell,
                                    command,
                                    exit_status,
                                    duration_secs_bits,
                                    ..
                                } => Event::ShellCommand {
                                    timestamp,
                                    shell,
                                    command,
                                    cwd: c,
                                    exit_status,
                                    duration_secs_bits,
                                },
                                other => other,
                            };
                            let ghost before = result@;
                            let ghost mv = merged@;
                            result.push(merged);
                            assert(mv == with_cwd(ev, cwd_of(rv[first_preexec(rv, cmd@)])));
                            assert(event_views(result@) =~= event_views(before).push(mv));
                        },
                        None => {
                            let ghost before = result@;
                            result.push(event);
                            assert(event_views(result@) =~= event_views(before).push(ev));
                        },
                    }
                } else {
                    result.push(event);
                    assert(event_views(result@) =~= rv.push(ev));
                }
            },
            _ => {
                result.push(event);
                assert(event_views(result@) =~= rv.push(ev));
            },
        }
        idx += 1;
    }
    assert(ov.take(n as int) =~= ov);
    dedup_browser_vs_external(&mut result);
    result
}

/// Whitespace-normalized text: the whitespace-separated words joined by
/// single spaces.
pub open spec fn normalized(s: Seq<char>) -> Seq<char> {
    join_with(ws_tokens(s), seq![' '])
}

/// Normalize text for comparison: collapse all whitespace to single spaces, trim.
pub fn normalize_text(text: &str) -> (r: String)
    ensures
        r@ == normalized(text@),
{
    let tokens = whitespace_tokens(text);
    let ghost dt = deep_chars(tokens@);
    let mut parts: Vec<String> = Vec::new();
    let mut i: usize = 0;
    while i < tokens.len()
        invariant
            i <= tokens.len(),
            dt == deep_chars(tokens@),
            string_views(parts@) == dt.take(i as int),
        decreases tokens.len() - i,
    {
        let ghost before = parts@;
        let s = string_of(tokens[i].as_slice());
        parts.push(s);
        assert(string_views(parts@) =~= string_views(before).push(s@));
        assert(dt.take(i + 1) =~= dt.take(i as int).push(dt[i as int]));
        i += 1;
    }
    assert(dt.take(tokens.len() as int) =~= dt);
    let r = join_strings(&parts, " ");
    proof {
        reveal_strlit(" ");
        assert(" "@ =~= seq![' ']);
    }
    r
}

/// The cross-type dedup window in nanoseconds.
pub open spec fn dedup_window() -> int {
    CROSS_TYPE_DEDUP_WINDOW_MS * NANOS_PER_MS
}

/// The text a browser selection is compared by: its plain text, or its
/// markdown text when the plain text is empty (old events).
pub open spec fn browser_compare_text(text: Seq<char>, plain_text: Seq<char>) -> Seq<char> {
    if plain_text.len() == 0 {
        text
    } else {
        plain_text
    }
}

/// A browser selection `b` reports the external selection `e`: the same
/// normalized text, no more than the dedup window apart.
pub open spec fn supersedes(b: EventView, e: EventView) -> bool {
    match b {
        EventView::BrowserSelection { timestamp: bt, text, plain_text, .. } => match e {
            EventView::ExternalSelection { timestamp: et, text: t, .. } => normalized(
                browser_compare_text(text, plain_text),
            ) == normalized(t) && -dedup_window() <= et - bt <= dedup_window(),
            _ => false,
        },
        _ => false,
    }
}

/// Some browser selection of `es` reports event `i`.
pub open spec fn superseded_at(es: Seq<EventView>, i: int) -> bool {
    exists|k: int| 0 <= k < es.len() && #[trigger] supersedes(es[k], es[i])
}

/// Which events survive the cross-type dedup.
pub open spec fn browser_mask(es: Seq<EventView>) -> Seq<bool> {
    Seq::new(es.len(), |i: int| !superseded_at(es, i))
}

/// Drop external selections that a browser selection with the same
/// normalized text reports within [`CROSS_TYPE_DEDUP_WINDOW_MS`]: the browser
/// provides richer context than the accessibility API.
pub fn dedup_browser_vs_external(events: &mut Vec<Event>)
    ensures
        final(events)@ == keep_seq(old(events)@, browser_mask(event_views(old(events)@))),
        event_views(final(events)@) == keep_seq(
            event_views(old(events)@),
            browser_mask(event_views(old(events)@)),
        ),
{
    let ghost es = event_views(events@);
    let len = events.len();
    let mut norms: Vec<Option<String>> = Vec::new();
    let mut k: usize = 0;
    while k < len
        invariant
            es == event_views(events@),
            len == es.len(),
            k <= len,
            norms@.len() == k,
            forall|m: int|
                0 <= m < k ==> match #[trigger] es[m] {
                    EventView::BrowserSelection { text, plain_text, .. } => norms@[m] matches Some(
                        n,
                    ) && n@ == normalized(browser_compare_text(text, plain_text)),
                    _ => norms@[m] is None,
                },
        decreases len - k,
    {
        let entry = match &events[k] {
            Event::BrowserSelection { text, plain_text, .. } => {
                if plain_text.as_str().is_empty() {
                    Some(normalize_text(text.as_str()))
                } else {
                    Some(normalize_text(plain_text.as_str()))
                }
            },
            _ => None,
        };
        norms.push(entry);
        k += 1;
    }
    let window: i128 = (CROSS_TYPE_DEDUP_WINDOW_MS as i128) * 1_000_000;
    let mut keep: Vec<bool> = Vec::new();
    let mut i: usize = 0;
    while i < len
        invariant
            es == event_views(events@),
            len == es.len(),
            i <= len,
            norms@.len() == len,
            window == dedup_window(),
            forall|m: int|
                0 <= m < len ==> match #[trigger] es[m] {
                    EventView::BrowserSelection { text, plain_text, .. } => norms@[m] matches Some(
                        n,
                    ) && n@ == normalized(browser_compare_text(text, plain_text)),
                    _ => norms@[m] is None,
                },
            keep@.len() == i,
            forall|m: int| 0 <= m < i ==> keep@[m] == !superseded_at(es, m),
        decreases len - i,
    {
        let mut drop = false;
        match &events[i] {
            Event::ExternalSelection { timestamp, text, .. } => {
                let norm = normalize_text(text.as_str());
                let et = *timestamp as i128;
                let mut b: usize = 0;
                while b < len && !drop
                    invariant
                        es == event_views(events@),
                        len == es.len(),
                        b <= len,
                        i < len,
                        norms@.len() == len,
                        window == dedup_window(),
                        es[i as int] is ExternalSelection,
                        norm@ == normalized(es[i as int]->ExternalSelection_text),
                        et == es[i as int].ts(),
                        forall|m: int|
                            0 <= m < len ==> match #[trigger] es[m] {
                                EventView::BrowserSelection { text, plain_text, .. } => norms@[m] matches Some(
                                    n,
                                ) && n@ == normalized(browser_compare_text(text, plain_text)),
                                _ => norms@[m] is None,
                            },
                        drop ==> superseded_at(es, i as int),
                        !drop ==> forall|m: int| 0 <= m < b ==> !#[trigger] supersedes(es[m], es[i as int]),
                    decreases len - b,
                {
                    match &norms[b] {
                        Some(n) => {
                            let bt = events[b].timestamp() as i128;
                            assert(es[b as int] is BrowserSelection);
                            if str_eq(n.as_str(), norm.as_str()) && -window <= et - bt && et - bt
                                <= window {
                                assert(supersedes(es[b as int], es[i as int]));
                                drop = true;
                            }
                        },
                        None => {
                            assert(!(es[b as int] is BrowserSelection));
                        },
                    }
                    b += 1;
                }
            },
            _ => {
                assert(forall|m: int| 0 <= m < len ==> !#[trigger] supersedes(es[m], es[i as int]));
            },
        }
        keep.push(!drop);
        i += 1;
    }
    assert(keep@ =~= browser_mask(es));
    retain_events(events, &keep);
}

/// The normalized text that an event offers for clipboard dedup: an external
/// selection's text or a browser selection's plain text.
pub open spec fn richer_text(e: EventView) -> Option<Seq<char>> {
    match e {
        EventView::ExternalSelection { text, .. } => Some(normalized(text)),
        EventView::BrowserSelection { plain_text, .. } => Some(normalized(plain_text)),
        _ => None,
    }
}

/// The text of a text clipboard capture.
pub open spec fn clipboard_text(e: EventView) -> Option<Seq<char>> {
    match e {
        EventView::ClipboardSelection { content, .. } => match content {
            ClipboardView::Text { text } => Some(text),
            _ => None,
        },
        _ => None,
    }
}

/// Event `i` is a text clipboard capture whose normalized text is not empty
/// and equals the normalized text of some external or browser selection.
pub open spec fn clipboard_dup_at(es: Seq<EventView>, i: int) -> bool {
    clipboard_text(es[i]) matches Some(t) && normalized(t).len() > 0 && exists|k: int|
        0 <= k < es.len() && #[trigger] richer_text(es[k]) == Some(normalized(t))
}

/// Which events survive the clipboard dedup.
pub open spec fn clipboard_mask(es: Seq<EventView>) -> Seq<bool> {
    Seq::new(es.len(), |i: int| !clipboard_dup_at(es, i))
}

/// Drop text clipboard captures whose normalized text matches an external
/// selection or a browser selection's plain text. Image captures, and text
/// that normalizes to nothing, are kept.
pub fn dedup_clipboard_selections(events: &mut Vec<Event>)
    ensures
        final(events)@ == keep_seq(old(events)@, clipboard_mask(event_views(old(events)@))),
        event_views(final(events)@) == keep_seq(
            event_views(old(events)@),
            clipboard_mask(event_views(old(events)@)),
        ),
{
    let ghost es = event_views(events@);
    let len = events.len();
    let mut richer: Vec<Option<String>> = Vec::new();
    let mut k: usize = 0;
    while k < len
        invariant
            es == event_views(events@),
            len == es.len(),
            k <= len,
            richer@.len() == k,
            forall|m: int|
                0 <= m < k ==> (match #[trigger] richer_text(es[m]) {
                    Some(t) => richer@[m] matches Some(n) && n@ == t,
                    None => richer@[m] is None,
                }),
        decreases len - k,
    {
        let entry = match &events[k] {
            Event::ExternalSelection { text, .. } => Some(normalize_text(text.as_str())),
            Event::BrowserSelection { plain_text, .. } => Some(normalize_text(plain_text.as_str())),
            _ => None,
        };
        richer.push(entry);
        k += 1;
    }
    let mut keep: Vec<bool> = Vec::new();
    let mut i: usize = 0;
    while i < len
        invariant
            es == event_views(events@),
            len == es.len(),
            i <= len,
            richer@.len() == len,
            forall|m: int|
                0 <= m < len ==> (match #[trigger] richer_text(es[m]) {
                    Some(t) => richer@[m] matches Some(n) && n@ == t,
                    None => richer@[m] is None,
                }),
            keep@.len() == i,
            forall|m: int| 0 <= m < i ==> keep@[m] == !clipboard_dup_at(es, m),
        decreases len - i,
    {
        let mut drop = false;
        let text_opt: Option<&String> = match &events[i] {
            Event::ClipboardSelection { content, .. } => match content {
                ClipboardContent::Text { text } => Some(text),
                _ => None,
            },
            _ => None,
        };
        match text_opt {
            Some(text) => {
                let norm = normalize_text(text.as_str());
                if !norm.as_str().is_empty() {
                    let mut b: usize = 0;
                    while b < len && !drop
                        invariant
                            es == event_views(events@),
                            len == es.len(),
                            b <= len,
                            i < len,
                            richer@.len() == len,
                            clipboard_text(es[i as int]) matches Some(t) && norm@ == normalized(t),
                            norm@.len() > 0,
                            forall|m: int|
                                0 <= m < len ==> (match #[trigger] richer_text(es[m]) {
                                    Some(t) => richer@[m] matches Some(n) && n@ == t,
                                    None => richer@[m] is None,
                                }),
                            drop ==> clipboard_dup_at(es, i as int),
                            !drop ==> forall|m: int|
                                0 <= m < b ==> #[trigger] richer_text(es[m]) != Some(norm@),
                        decreases len - b,
                    {
                        match &richer[b] {
                            Some(n) => {
                                if str_eq(n.as_str(), norm.as_str()) {
                                    assert(richer_text(es[b as int]) == Some(norm@));
                                    drop = true;
                                }
                            },
                            None => {
                                assert(richer_text(es[b as int]) is None);
                            },
                        }
                        b += 1;
                    }
                }
            },
            None => {},
        }
        keep.push(!drop);
        i += 1;
    }
    assert(keep@ =~= clipboard_mask(es));
    retain_events(events, &keep);
}

// ── Stable sort by timestamp ────────────────────────────────────────────────

/// Inserts `x` into `s` after every element whose timestamp is not later.
pub open spec fn insert_by_ts(s: Seq<EventView>, x: EventView) -> Seq<EventView>
    decreases s.len(),
{
    if s.len() == 0 || s.last().ts() <= x.ts() {
        s.push(x)
    } else {
        insert_by_ts(s.drop_last(), x).push(s.last())
    }
}

/// The stable sort of `s` by timestamp (equal timestamps keep their order).
pub open spec fn sort_by_ts(s: Seq<EventView>) -> Seq<EventView>
    decreases s.len(),
{
    if s.len() == 0 {
        s
    } else {
        insert_by_ts(sort_by_ts(s.drop_last()), s.last())
    }
}

proof fn lemma_insert_at(s: Seq<EventView>, x: EventView, j: int)
    requires
        0 <= j <= s.len(),
        forall|k: int| j <= k < s.len() ==> #[trigger] s[k].ts() > x.ts(),
        j == 0 || s[j - 1].ts() <= x.ts(),
    ensures
        insert_by_ts(s, x) == s.insert(j, x),
    decreases s.len(),
{
    if s.len() == j {
        assert(s.insert(j, x) =~= s.push(x));
    } else {
        lemma_insert_at(s.drop_last(), x, j);
        assert(s.insert(j, x) =~= s.drop_last().insert(j, x).push(s.last()));
    }
}

/// Sorts events by timestamp, keeping the order of equal timestamps
/// (`sort_by_key`, which is stable).
pub fn sort_events(v: Vec<Event>) -> (r: Vec<Event>)
    ensures
        event_views(r@) == sort_by_ts(event_views(v@)),
{
    let ghost ov = event_views(v@);
    let n = v.len();
    let mut out: Vec<Event> = Vec::new();
    let mut idx: usize = 0;
    for x in it: v
        invariant
            idx == it.index(),
            ov == event_views(it.seq()),
            ov.len() == n,
            event_views(out@) == sort_by_ts(ov.take(idx as int)),
    {
        let ghost ov_out = event_views(out@);
        let ghost xv = x@;
        proof {
            assert(ov.take(idx + 1).drop_last() =~= ov.take(idx as int));
            assert(ov.take(idx + 1).last() == xv);
        }
        let t = x.timestamp();
        let mut j = out.len();
        while j > 0 && out[j - 1].timestamp() > t
            invariant
                j <= out.len(),
                ov_out == event_views(out@),
                t == xv.ts(),
                forall|k: int| j <= k < ov_out.len() ==> #[trigger] ov_out[k].ts() > xv.ts(),
            decreases j,
        {
            j -= 1;
        }
        proof {
            lemma_insert_at(ov_out, xv, j as int);
        }
        out.insert(j, x);
        assert(event_views(out@) =~= ov_out.insert(j as int, xv));
        idx += 1;
    }
    assert(ov.take(n as int) =~= ov);
    out
}

// ── Run orchestrator ────────────────────────────────────────────────────────

/// The models of the files of the editor snapshots of `s`, in order.
pub open spec fn run_files(s: Seq<EventView>) -> Seq<FileEntryView>
    decreases s.len(),
{
    if s.len() == 0 {
        Seq::empty()
    } else {
        run_files(s.drop_last()) + match s.last() {
            EventView::EditorSnapshot { files, .. } => files,
            _ => Seq::empty(),
        }
    }
}

/// The models of the regions of the editor snapshots of `s`, in order.
pub open spec fn run_regions(s: Seq<EventView>) -> Seq<RegionView>
    decreases s.len(),
{
    if s.len() == 0 {
        Seq::empty()
    } else {
        run_regions(s.drop_last()) + match s.last() {
            EventView::EditorSnapshot { regions, .. } => regions,
            _ => Seq::empty(),
        }
    }
}

/// Timestamp and last-seen time of the last editor snapshot of `s`.
pub open spec fn last_snapshot_times(s: Seq<EventView>) -> Option<(i64, i64)>
    decreases s.len(),
{
    if s.len() == 0 {
        None
    } else {
        match s.last() {
            EventView::EditorSnapshot { timestamp, last_seen, .. } => Some((timestamp, last_seen)),
            _ => last_snapshot_times(s.drop_last()),
        }
    }
}

/// The file diffs of `s`, in order.
pub open spec fn run_diffs(s: Seq<EventView>) -> Seq<(i64, Seq<char>, Seq<char>, Seq<char>)>
    decreases s.len(),
{
    if s.len() == 0 {
        Seq::empty()
    } else {
        run_diffs(s.drop_last()) + match s.last() {
            EventView::FileDiff { timestamp, path, old, new } => seq![(timestamp, path, old, new)],
            _ => Seq::empty(),
        }
    }
}

/// The events of `s` that are neither snapshots, diffs nor words, in order.
pub open spec fn run_others(s: Seq<EventView>) -> Seq<EventView>
    decreases s.len(),
{
    if s.len() == 0 {
        Seq::empty()
    } else {
        run_others(s.drop_last()) + match s.last() {
            EventView::EditorSnapshot { .. } => Seq::empty(),
            EventView::FileDiff { .. } => Seq::empty(),
            EventView::Words { .. } => Seq::empty(),
            e => seq![e],
        }
    }
}

/// The union of the snapshots of `c`, unless it has no regions.
pub open spec fn union_part(c: Seq<EventView>) -> Seq<EventView> {
    match last_snapshot_times(c) {
        None => Seq::empty(),
        Some(times) => {
            let regions = first_occurrences(run_regions(c));
            if regions.len() > 0 {
                seq![
                    EventView::EditorSnapshot {
                        timestamp: times.0,
                        last_seen: times.1,
                        files: first_occurrences(run_files(c)),
                        regions,
                    },
                ]
            } else {
                Seq::empty()
            }
        },
    }
}

/// A diff model as an event.
pub open spec fn diff_event(d: (i64, Seq<char>, Seq<char>, Seq<char>)) -> EventView {
    EventView::FileDiff { timestamp: d.0, path: d.1, old: d.2, new: d.3 }
}

/// Diff models as events.
pub open spec fn diff_events(s: Seq<(i64, Seq<char>, Seq<char>, Seq<char>)>) -> Seq<EventView> {
    s.map_values(|d: (i64, Seq<char>, Seq<char>, Seq<char>)| diff_event(d))
}

/// The collapsed selections and commands of a run.
pub open spec fn collapsed_others(c: Seq<EventView>) -> Seq<EventView> {
    let f = collapse_fold(run_others(c));
    keep_seq(f, browser_mask(f))
}

/// A run with at least two events left after cursor compression: the union
/// snapshot, the net-change diffs and the collapsed selections, sorted by time.
pub open spec fn compressed_run(c: Seq<EventView>) -> Seq<EventView> {
    sort_by_ts(union_part(c) + diff_events(net_change(run_diffs(c))) + collapsed_others(c))
}

/// What processing a run gives.
pub open spec fn process_run_spec(run: Seq<EventView>) -> Seq<EventView> {
    if run.len() <= 1 {
        run
    } else {
        let c = keep_seq(run, cursor_mask(run));
        if c.len() <= 1 {
            c
        } else {
            compressed_run(c)
        }
    }
}

/// No event of `s` is a `Words` event.
pub open spec fn no_words(s: Seq<EventView>) -> bool {
    forall|k: int| 0 <= k < s.len() ==> !(#[trigger] s[k] is Words)
}

proof fn lemma_keep_no_words(s: Seq<EventView>, keep: Seq<bool>)
    requires
        no_words(s),
    ensures
        no_words(keep_seq(s, keep)),
    decreases s.len(),
{
    if s.len() > 0 {
        assert(no_words(s.drop_last()));
        lemma_keep_no_words(s.drop_last(), keep);
        let r = keep_seq(s.drop_last(), keep);
        assert(forall|k: int| 0 <= k < r.len() ==> r.push(s.last())[k] == r[k]);
    }
}

/// Process a single run of non-speech events: compress cursor-only
/// snapshots, union the snapshots, net-change the diffs, collapse selections
/// and commands, and sort the result by timestamp.
pub fn process_run(run: Vec<Event>) -> (r: Vec<Event>)
    requires
        no_words(event_views(run@)),
    ensures
        event_views(r@) == process_run_spec(event_views(run@)),
{
    let mut run = run;
    if run.len() <= 1 {
        return run;
    }
    let ghost rv = event_views(run@);
    collapse_cursor_only(&mut run);
    if run.len() <= 1 {
        return run;
    }
    let ghost c = event_views(run@);
    proof {
        lemma_keep_no_words(rv, cursor_mask(rv));
    }
    let n = run.len();
    let mut snapshots: Vec<SnapshotTuple> = Vec::new();
    let mut diffs: Vec<DiffTuple> = Vec::new();
    let mut others: Vec<Event> = Vec::new();
    let mut idx: usize = 0;
    for event in it: run
        invariant
            idx == it.index(),
            c == event_views(it.seq()),
            c.len() == n,
            no_words(c),
            snapshot_files(snapshots@) == run_files(c.take(idx as int)),
            snapshot_regions(snapshots@) == run_regions(c.take(idx as int)),
            snapshots@.len() == 0 <==> last_snapshot_times(c.take(idx as int)) is None,
            snapshots@.len() > 0 ==> last_snapshot_times(c.take(idx as int)) == Some(
                (snapshots@.last().0, snapshots@.last().1),
            ),
            diff_views(diffs@) == run_diffs(c.take(idx as int)),
            event_views(others@) == run_others(c.take(idx as int)),
    {
        let ghost ev = event@;
        proof {
            assert(c.take(idx + 1).drop_last() =~= c.take(idx as int));
            assert(c.take(idx + 1).last() == ev);
            assert(c[idx as int] == ev);
        }
        match event {
            Event::EditorSnapshot { timestamp, last_seen, files, regions } => {
                let ghost before = snapshots@;
                snapshots.push((timestamp, last_seen, files, regions));
                proof {
                    assert(snapshots@.drop_last() =~= before);
                    assert(event_views(others@) =~= run_others(c.take(idx as int)) + Seq::empty());
                    assert(diff_views(diffs@) =~= run_diffs(c.take(idx as int)) + Seq::empty());
                }
            },
            Event::FileDiff { timestamp, path, old, new } => {
                let ghost before = diffs@;
                diffs.push((timestamp, path, old, new));
                proof {
                    assert(diff_views(diffs@) =~= diff_views(before).push(diff_view(diffs@.last())));
                    assert(diff_views(diffs@) =~= run_diffs(c.take(idx as int)) + seq![
                        (ev->FileDiff_timestamp, ev->FileDiff_path, ev->FileDiff_old, ev->FileDiff_new),
                    ]);
                    assert(snapshot_files(snapshots@) =~= run_files(c.take(idx as int)) + Seq::empty());
                    assert(snapshot_regions(snapshots@) =~= run_regions(c.take(idx as int)) + Seq::empty());
                    assert(event_views(others@) =~= run_others(c.take(idx as int)) + Seq::empty());
                }
            },
            other => {
                let ghost before = others@;
                others.push(other);
                proof {
                    assert(!(ev is Words));
                    assert(event_views(others@) =~= event_views(before).push(ev));
                    assert(event_views(others@) =~= run_others(c.take(idx as int)) + seq![ev]);
                    assert(snapshot_files(snapshots@) =~= run_files(c.take(idx as int)) + Seq::empty());
                    assert(snapshot_regions(snapshots@) =~= run_regions(c.take(idx as int)) + Seq::empty());
                    assert(diff_views(diffs@) =~= run_diffs(c.take(idx as int)) + Seq::empty());
                }
            },
        }
        idx += 1;
    }
    assert(c.take(n as int) =~= c);
    let merged_snap = union_snapshots(snapshots);
    let merged_diffs = net_change_diffs(diffs);
    let merged_others = collapse_ext_selections(others);
    let mut result: Vec<Event> = Vec::new();
    match merged_snap {
        Some((timestamp, last_seen, files, regions)) => {
            if regions.len() > 0 {
                result.push(Event::EditorSnapshot { timestamp, last_seen, files, regions });
            }
        },
        None => {},
    }
    assert(event_views(result@) =~= union_part(c));
    let ghost before_diffs = event_views(result@);
    let ghost dv = diff_views(merged_diffs@);
    let nd = merged_diffs.len();
    let mut m: usize = 0;
    for d in dit: merged_diffs
        invariant
            m == dit.index(),
            dv == diff_views(dit.seq()),
            dv.len() == nd,
            event_views(result@) == before_diffs + diff_events(dv.take(m as int)),
    {
        let ghost r0 = event_views(result@);
        let (timestamp, path, old, new) = d;
        result.push(Event::FileDiff { timestamp, path, old, new });
        proof {
            assert(dv[m as int] == (timestamp, path@, old@, new@));
            assert(diff_events(dv.take(m + 1)) =~= diff_events(dv.take(m as int)).push(
                diff_event(dv[m as int]),
            ));
            assert(event_views(result@) =~= r0.push(diff_event(dv[m as int])));
        }
        m += 1;
    }
    assert(dv.take(nd as int) =~= dv);
    let ghost before_others = event_views(result@);
    let mut rest = merged_others;
    let ghost ov = event_views(rest@);
    result.append(&mut rest);
    assert(event_views(result@) =~= before_others + ov);
    sort_events(result)
}

/// Output of the run splitting: each maximal run of non-speech events is
/// processed, `Words` events are kept in place. `run` is the run collected
/// so far.
pub open spec fn runs_out(s: Seq<EventView>, run: Seq<EventView>) -> Seq<EventView>
    decreases s.len(),
{
    if s.len() == 0 {
        if run.len() > 0 {
            process_run_spec(run)
        } else {
            Seq::empty()
        }
    } else if s[0] is Words {
        (if run.len() > 0 {
            process_run_spec(run)
        } else {
            Seq::empty()
        }) + seq![s[0]] + runs_out(s.drop_first(), Seq::empty())
    } else {
        runs_out(s.drop_first(), run.push(s[0]))
    }
}

/// Whether `s` has a `Words` event.
pub open spec fn has_words(s: Seq<EventView>) -> bool {
    exists|k: int| 0 <= k < s.len() && #[trigger] s[k] is Words
}

/// With speech present, a final cursor-only snapshot is dropped.
pub open spec fn drop_trailing_cursor(s: Seq<EventView>) -> Seq<EventView> {
    if has_words(s) && s.len() > 0 && cursor_only(s.last()) {
        s.drop_last()
    } else {
        s
    }
}

/// The whole merge: sort, subsume, process the runs, dedup the clipboard,
/// drop a trailing cursor when there is speech.
pub open spec fn merge_spec(es: Seq<EventView>) -> Seq<EventView> {
    let sorted = sort_by_ts(es);
    let kept = keep_seq(sorted, subsume_mask(sorted));
    let out = runs_out(kept, Seq::empty());
    drop_trailing_cursor(keep_seq(out, clipboard_mask(out)))
}

/// Sort events chronologically, drop subsumed progressive selections, then
/// process every run of non-speech events: compress cursor-only snapshots,
/// union adjacent snapshots, merge same-path diffs into net-change events,
/// collapse selections and commands. Text clipboard captures that another
/// selection reports are dropped, and when speech is present a trailing
/// cursor-only snapshot is dropped (the stop hook gives fresher context).
pub fn compress_and_merge(events: &mut Vec<Event>)
    ensures
        event_views(final(events)@) == merge_spec(event_views(old(events)@)),
{
    let mut taken: Vec<Event> = Vec::new();
    std::mem::swap(events, &mut taken);
    let mut sorted = sort_events(taken);
    subsume_progressive_selections(&mut sorted);
    let ghost sv = event_views(sorted@);
    let n = sorted.len();
    let mut output: Vec<Event> = Vec::new();
    let mut run: Vec<Event> = Vec::new();
    let mut idx: usize = 0;
    proof {
        assert(sv.skip(0) =~= sv);
        assert(event_views(output@) =~= Seq::<EventView>::empty());
        assert(event_views(run@) =~= Seq::<EventView>::empty());
        assert(event_views(output@) + runs_out(sv.skip(0), event_views(run@)) =~= runs_out(
            sv,
            Seq::empty(),
        ));
    }
    for event in it: sorted
        invariant
            idx == it.index(),
            sv == event_views(it.seq()),
            sv.len() == n,
            no_words(event_views(run@)),
            event_views(output@) + runs_out(sv.skip(idx as int), event_views(run@)) == runs_out(
                sv,
                Seq::empty(),
            ),
    {
        let ghost ev = event@;
        let ghost o0 = event_views(output@);
        let ghost r0 = event_views(run@);
        proof {
            assert(sv.skip(idx as int)[0] == ev);
            assert(sv.skip(idx as int).drop_first() =~= sv.skip(idx + 1));
        }
        let words = match &event {
            Event::Words { .. } => true,
            _ => false,
        };
        if words {
            if run.len() > 0 {
                let mut current: Vec<Event> = Vec::new();
                std::mem::swap(&mut run, &mut current);
                let mut processed = process_run(current);
                output.append(&mut processed);
            }
            let ghost o1 = event_views(output@);
            output.push(event);
            proof {
                assert(event_views(output@) =~= o1.push(ev));
                assert(event_views(run@) =~= Seq::<EventView>::empty());
                if r0.len() > 0 {
                    assert(o1 == o0 + process_run_spec(r0));
                } else {
                    assert(o1 =~= o0 + Seq::<EventView>::empty());
                }
                assert(event_views(output@) + runs_out(sv.skip(idx + 1), event_views(run@))
                    =~= o0 + runs_out(sv.skip(idx as int), r0));
            }
        } else {
            run.push(event);
            proof {
                assert(event_views(run@) =~= r0.push(ev));
            }
        }
        idx += 1;
    }
    proof {
        assert(sv.skip(n as int) =~= Seq::<EventView>::empty());
    }
    if run.len() > 0 {
        let mut processed = process_run(run);
        output.append(&mut processed);
    } else {
        assert(event_views(output@) =~= event_views(output@) + Seq::<EventView>::empty());
    }
    let ghost out = event_views(output@);
    assert(out == runs_out(sv, Seq::empty()));
    dedup_clipboard_selections(&mut output);
    let ghost dd = event_views(output@);
    let mut words_seen = false;
    let mut k: usize = 0;
    while k < output.len()
        invariant
            dd == event_views(output@),
            k <= output.len(),
            words_seen == exists|m: int| 0 <= m < k && #[trigger] dd[m] is Words,
        decreases output.len() - k,
    {
        let w = match &output[k] {
            Event::Words { .. } => true,
            _ => false,
        };
        assert(w == (dd[k as int] is Words));
        if w {
            words_seen = true;
        }
        k += 1;
    }
    assert(words_seen == has_words(dd));
    if words_seen && output.len() > 0 && is_cursor_only(&output[output.len() - 1]) {
        output.pop();
        assert(event_views(output@) =~= dd.drop_last());
    }
    assert(event_views(output@) == drop_trailing_cursor(dd));
    *events = output;
}

} // verus!
