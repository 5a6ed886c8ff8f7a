//! The decisions of the capture threads: pause/resume/stop control, external
//! selection and clipboard change tracking, and the chimes that mark state
//! transitions. The threads, the platform queries and the audio output live
//! with the caller.

use vstd::prelude::*;
use crate::merge::{ClipboardContent, ClipboardView};
use crate::model::{file_views, FileEntry, FileEntryView};
use crate::text::{chars_of, is_whitespace, is_ws, str_eq};

verus! {

broadcast use vstd::string::group_string_axioms;

// ── Pause / resume / stop ───────────────────────────────────────────────────

/// The model of [`CaptureControl`].
pub struct ControlView {
    pub paused: bool,
    pub stopped: bool,
    /// Set on resume: tells the clipboard thread to re-seed its tracker.
    pub clipboard_reseed: bool,
}

/// Shared pause/stop/reseed state of the capture threads.
///
/// The caller keeps it behind a lock; paused threads block on a condition
/// variable until [`CaptureControl::wait_while_paused`] no longer asks them
/// to wait.
pub struct CaptureControl {
    paused: bool,
    stopped: bool,
    clipboard_reseed: bool,
}

impl View for CaptureControl {
    type V = ControlView;

    closed spec fn view(&self) -> ControlView {
        ControlView {
            paused: self.paused,
            stopped: self.stopped,
            clipboard_reseed: self.clipboard_reseed,
        }
    }
}

impl CaptureControl {
    /// A control in the running (not paused, not stopped) state.
    pub fn new() -> (r: Self)
        ensures
            r@ == (ControlView { paused: false, stopped: false, clipboard_reseed: false }),
    {
        CaptureControl { paused: false, stopped: false, clipboard_reseed: false }
    }

    /// One check of the wait loop: `None` while the threads must keep
    /// blocking (paused and not stopped), otherwise whether they are stopped.
    pub fn wait_while_paused(&self) -> (r: Option<bool>)
        ensures
            r == (if self@.paused && !self@.stopped {
                None
            } else {
                Some(self@.stopped)
            }),
    {
        if self.paused && !self.stopped {
            None
        } else {
            Some(self.stopped)
        }
    }

    /// Read and clear the clipboard reseed flag.
    pub fn take_clipboard_reseed(&mut self) -> (r: bool)
        ensures
            r == old(self)@.clipboard_reseed,
            final(self)@ == (ControlView { clipboard_reseed: false, ..old(self)@ }),
    {
        let val = self.clipboard_reseed;
        self.clipboard_reseed = false;
        val
    }

    /// Pause all capture threads.
    pub fn pause(&mut self)
        ensures
            final(self)@ == (ControlView { paused: true, ..old(self)@ }),
    {
        self.paused = true;
    }

    /// Resume all capture threads, asking the clipboard thread to treat the
    /// current clipboard content as its baseline.
    pub fn resume(&mut self)
        ensures
            final(self)@ == (ControlView { paused: false, clipboard_reseed: true, ..old(self)@ }),
    {
        self.clipboard_reseed = true;
        self.paused = false;
    }

    /// Stop all capture threads.
    pub fn stop(&mut self)
        ensures
            final(self)@ == (ControlView { stopped: true, ..old(self)@ }),
    {
        self.stopped = true;
    }
}

/// A stopped control never asks a thread to wait, paused or not.
pub proof fn law_stop_releases_waiters(c: ControlView)
    requires
        c.stopped,
    ensures
        !(c.paused && !c.stopped),
{
}

// ── External selections ─────────────────────────────────────────────────────

/// A snapshot of the currently selected text in the focused application.
#[derive(Debug, Clone, PartialEq, Eq)]
pub struct ExternalSnapshot {
    /// Application name (e.g. "Safari", "iTerm2").
    pub app: String,
    /// Window title (e.g. page title, terminal tab name).
    pub window_title: String,
    /// The selected text, if any.
    pub selected_text: Option<String>,
}

/// Platform-specific backend for querying external application state.
pub trait ExternalSource {
    /// Whether the platform's accessibility permission is granted.
    fn is_available(&self) -> bool;

    /// The state of the focused application, or `None` if the query fails
    /// or no application is focused.
    fn query(&self) -> Option<ExternalSnapshot>;
}

/// The macOS accessibility backend, which queries the frontmost
/// application for its selected text.
pub struct MacOsSource;

impl MacOsSource {
    /// The macOS backend.
    pub fn new() -> (r: Self) {
        MacOsSource
    }
}

/// The platform's external-selection backend: the accessibility backend on
/// macOS, none elsewhere.
pub fn platform_source(is_macos: bool) -> (r: Option<MacOsSource>)
    ensures
        r is Some <==> is_macos,
{
    if is_macos {
        Some(MacOsSource::new())
    } else {
        None
    }
}

/// Result of processing an external snapshot through the tracker.
#[derive(Debug)]
pub enum ExtUpdate {
    /// New selection text: push a new event.
    New(ExternalSnapshot),
    /// Same text as last emission: extend the last event's `last_seen`.
    Extend,
    /// No text selected or nothing to report.
    NoSelection,
}

/// Tracks the last emitted external selection for deduplication.
///
/// External selections are emitted as soon as they change; progressive
/// selections are merged downstream.
pub struct ExtDwellTracker {
    /// The last emitted selection text.
    pub prev_text: Option<String>,
}

/// The characters of an optional string.
pub open spec fn opt_text(o: Option<String>) -> Option<Seq<char>> {
    match o {
        Some(s) => Some(s@),
        None => None,
    }
}

/// What an external selection update reports.
pub enum ExtKind {
    New,
    Extend,
    NoSelection,
}

/// The kind of an update result.
pub open spec fn ext_kind(u: ExtUpdate) -> ExtKind {
    match u {
        ExtUpdate::New(_) => ExtKind::New,
        ExtUpdate::Extend => ExtKind::Extend,
        ExtUpdate::NoSelection => ExtKind::NoSelection,
    }
}

/// One external selection update: no (or empty) text reports nothing, the
/// text reported last time extends it, any other text is remembered and
/// reported as new.
pub open spec fn ext_step(prev: Option<Seq<char>>, text: Option<Seq<char>>) -> (Option<Seq<char>>, ExtKind) {
    match text {
        None => (prev, ExtKind::NoSelection),
        Some(t) => if t.len() == 0 {
            (prev, ExtKind::NoSelection)
        } else if prev == Some(t) {
            (prev, ExtKind::Extend)
        } else {
            (Some(t), ExtKind::New)
        },
    }
}

/// A selection is reported as new once: seeing the same text again only
/// extends it, even after polls that found nothing selected.
pub proof fn law_external_selection_reported_once(prev: Option<Seq<char>>, t: Seq<char>)
    requires
        t.len() > 0,
    ensures
        ({
            let a = ext_step(prev, Some(t));
            &&& ext_step(a.0, Some(t)) == (a.0, ExtKind::Extend)
            &&& ext_step(ext_step(a.0, None).0, Some(t)).1 == ExtKind::Extend
        }),
{
}

impl ExtDwellTracker {
    /// A tracker that has emitted nothing yet.
    pub fn new() -> (r: Self)
        ensures
            r.prev_text is None,
    {
        ExtDwellTracker { prev_text: None }
    }

    /// Process a new external snapshot.
    ///
    /// No (or empty) selected text gives `NoSelection`; the text emitted last time
    /// gives `Extend`; any other text is remembered and gives `New`.
    pub fn update(&mut self, snapshot: ExternalSnapshot, _now: i64) -> (r: ExtUpdate)
        ensures
            (opt_text(final(self).prev_text), ext_kind(r)) == ext_step(
                opt_text(old(self).prev_text),
                opt_text(snapshot.selected_text),
            ),
            r matches ExtUpdate::New(s) ==> s.app@ == snapshot.app@ && s.window_title@ == snapshot.window_title@
                && opt_text(s.selected_text) == opt_text(snapshot.selected_text),
    {
        let is_empty = match &snapshot.selected_text {
            None => true,
            Some(t) => t.as_str().is_empty(),
        };
        if is_empty {
            return ExtUpdate::NoSelection;
        }
        let same = match (&snapshot.selected_text, &self.prev_text) {
            (Some(t), Some(p)) => str_eq(t.as_str(), p.as_str()),
            _ => false,
        };
        if same {
            return ExtUpdate::Extend;
        }
        self.prev_text = snapshot.selected_text.clone();
        ExtUpdate::New(snapshot)
    }
}

/// ASCII case folding of one character.
pub open spec fn ascii_lower(c: char) -> char {
    if 'A' <= c && c <= 'Z' {
        ((c as u32) + 32) as char
    } else {
        c
    }
}

/// Equality ignoring ASCII case (`str::eq_ignore_ascii_case`).
pub open spec fn eq_ignore_ascii_case(a: Seq<char>, b: Seq<char>) -> bool {
    a.len() == b.len() && forall|i: int| 0 <= i < a.len() ==> #[trigger] ascii_lower(a[i])
        == ascii_lower(b[i])
}

fn lower_char(c: char) -> (r: char)
    ensures
        r == ascii_lower(c),
{
    if 'A' <= c && c <= 'Z' {
        let b = (c as u8) + 32;
        b as char
    } else {
        c
    }
}

/// Whether two strings are equal ignoring ASCII case.
pub fn str_eq_ignore_ascii_case(a: &str, b: &str) -> (r: bool)
    ensures
        r == eq_ignore_ascii_case(a@, b@),
{
    let x = chars_of(a);
    let y = chars_of(b);
    if x.len() != y.len() {
        return false;
    }
    let mut i: usize = 0;
    while i < x.len()
        invariant
            i <= x.len(),
            x.len() == y.len(),
            x@ == a@,
            y@ == b@,
            forall|k: int| 0 <= k < i ==> #[trigger] ascii_lower(x@[k]) == ascii_lower(y@[k]),
        decreases x.len() - i,
    {
        if lower_char(x[i]) != lower_char(y[i]) {
            assert(ascii_lower(a@[i as int]) != ascii_lower(b@[i as int]));
            return false;
        }
        i += 1;
    }
    true
}

/// Whether the application `app` is in the ignore list (ASCII case-insensitive).
pub fn is_ignored_app(app: &str, ignore_apps: &Vec<String>) -> (r: bool)
    ensures
        r == exists|k: int|
            0 <= k < ignore_apps@.len() && #[trigger] eq_ignore_ascii_case(ignore_apps@[k]@, app@),
{
    let mut k: usize = 0;
    while k < ignore_apps.len()
        invariant
            k <= ignore_apps.len(),
            forall|m: int| 0 <= m < k ==> !#[trigger] eq_ignore_ascii_case(ignore_apps@[m]@, app@),
        decreases ignore_apps.len() - k,
    {
        if str_eq_ignore_ascii_case(ignore_apps[k].as_str(), app) {
            return true;
        }
        k += 1;
    }
    false
}

// ── Clipboard ───────────────────────────────────────────────────────────────

/// Minimal image data representation for change detection.
pub struct ImageData {
    pub width: usize,
    pub height: usize,
    pub bytes: Vec<u8>,
}

/// Source of clipboard content.
///
/// Abstracts the platform clipboard so tests can substitute a stub that
/// returns scripted content.
pub trait ClipboardSource {
    /// The current clipboard text, if any.
    fn get_text(&mut self) -> Option<String>;
    /// The current clipboard image, if any.
    fn get_image(&mut self) -> Option<ImageData>;
}

/// The BLAKE3 digest of `bytes` (32 bytes).
pub uninterp spec fn blake3_digest(bytes: Seq<u8>) -> Seq<u8>;

/// The BLAKE3 hash of image pixel data, used to detect content changes.
///
/// Trusted: calls `blake3::hash`, a function of the bytes alone, and hands
/// back the bytes of the digest.
#[verifier::external_body]
fn hash_image_bytes(bytes: &[u8]) -> (r: Vec<u8>)
    ensures
        r@ == blake3_digest(bytes@),
{
    blake3::hash(bytes).as_bytes().to_vec()
}

/// The PNG encoding of the first `4 * width * height` bytes of `rgba` as an
/// RGBA image of that size, or `None` when it cannot be made.
pub uninterp spec fn png_encoding_of(width: u32, height: u32, rgba: Seq<u8>) -> Option<Seq<u8>>;

/// Encode RGBA pixels as PNG.
///
/// Trusted: wraps the pixels with `image::ImageBuffer::from_raw`, which (as
/// its documentation says) refuses a container shorter than
/// `4 * width * height` bytes, and writes them with `write_to` in PNG
/// format; the result is a function of the size and the pixels alone.
#[verifier::external_body]
fn encode_png(width: u32, height: u32, rgba: &[u8]) -> (r: Option<Vec<u8>>)
    ensures
        rgba@.len() < 4 * width * height ==> r is None,
        match png_encoding_of(width, height, rgba@) {
            Some(b) => r matches Some(x) && x@ == b,
            None => r is None,
        },
{
    let buf: image::ImageBuffer<image::Rgba<u8>, &[u8]> = image::ImageBuffer::from_raw(width, height, rgba)?;
    let mut out = std::io::Cursor::new(Vec::new());
    buf.write_to(&mut out, image::ImageFormat::Png).ok()?;
    Some(out.into_inner())
}

/// A clipboard image encoded as PNG for staging: `None` when its pixel data
/// is shorter than its size calls for (or the encoder refuses it). Width and
/// height are taken as `u32`, truncating larger values.
pub fn clipboard_png(img: &ImageData) -> (r: Option<Vec<u8>>)
    ensures
        img.bytes@.len() < 4 * (img.width as u32) * (img.height as u32) ==> r is None,
        match png_encoding_of(img.width as u32, img.height as u32, img.bytes@) {
            Some(b) => r matches Some(x) && x@ == b,
            None => r is None,
        },
{
    encode_png(img.width as u32, img.height as u32, img.bytes.as_slice())
}

/// What was last seen on the clipboard.
#[derive(Debug)]
pub enum LastContent {
    /// Nothing observed yet.
    Empty,
    /// Last content was text.
    Text(String),
    /// Last content was an image, by the digest of its pixel data.
    Image(Vec<u8>),
}

/// The model of [`LastContent`].
pub enum LastView {
    Empty,
    Text(Seq<char>),
    Image(Seq<u8>),
}

impl View for LastContent {
    type V = LastView;

    open spec fn view(&self) -> LastView {
        match self {
            LastContent::Empty => LastView::Empty,
            LastContent::Text(t) => LastView::Text(t@),
            LastContent::Image(d) => LastView::Image(d@),
        }
    }
}

/// Whitespace-only (or empty) text, which counts as no text.
pub open spec fn blank(t: Seq<char>) -> bool {
    forall|i: int| 0 <= i < t.len() ==> #[trigger] is_ws(t[i])
}

fn is_blank(t: &str) -> (r: bool)
    ensures
        r == blank(t@),
{
    let cs = chars_of(t);
    let mut i: usize = 0;
    while i < cs.len()
        invariant
            i <= cs.len(),
            cs@ == t@,
            forall|k: int| 0 <= k < i ==> #[trigger] is_ws(cs@[k]),
        decreases cs.len() - i,
    {
        if !is_whitespace(cs[i]) {
            assert(!is_ws(t@[i as int]));
            return false;
        }
        i += 1;
    }
    true
}

/// Result of checking the clipboard for changes.
#[derive(Debug)]
pub enum ClipboardUpdate {
    /// New content detected: emit an event with this content (an image's
    /// path is filled in by the caller once it is staged).
    Changed(ClipboardContent),
    /// No change since the last check.
    Unchanged,
}

/// Clipboard change detection: emits only when the content changes.
/// Whitespace-only text counts as empty.
pub struct ClipboardTracker {
    pub last: LastContent,
}

/// The characters of an optional text.
pub open spec fn opt_str(o: Option<&str>) -> Option<Seq<char>> {
    match o {
        Some(s) => Some(s@),
        None => None,
    }
}

/// The baseline a tracker is seeded with: non-blank text, else an image's
/// digest, else nothing.
pub open spec fn seed_view(text: Option<Seq<char>>, image: Option<Seq<u8>>) -> LastView {
    match text {
        Some(t) if !blank(t) => LastView::Text(t),
        _ => match image {
            Some(b) => LastView::Image(blake3_digest(b)),
            None => LastView::Empty,
        },
    }
}

/// The image bytes, if any.
pub open spec fn image_bytes(image: Option<&ImageData>) -> Option<Seq<u8>> {
    match image {
        Some(img) => Some(img.bytes@),
        None => None,
    }
}

/// One check of the clipboard: the new baseline, and the content to report
/// if it changed. Text takes priority when both are available; blank text,
/// the same text, or an image with the same digest as last time report
/// nothing; new content becomes the baseline and is reported (an image
/// without its path yet).
pub open spec fn clip_step(last: LastView, text: Option<Seq<char>>, image: Option<Seq<u8>>) -> (
    LastView,
    Option<ClipboardView>,
) {
    match text {
        Some(t) => if blank(t) || last == LastView::Text(t) {
            (last, None)
        } else {
            (LastView::Text(t), Some(ClipboardView::Text { text: t }))
        },
        None => match image {
            Some(b) => if last == LastView::Image(blake3_digest(b)) {
                (last, None)
            } else {
                (LastView::Image(blake3_digest(b)), Some(ClipboardView::Image { path: Seq::empty() }))
            },
            None => (last, None),
        },
    }
}

/// The same clipboard content seen twice is reported at most once: after a
/// check, checking the same content again changes nothing and reports
/// nothing; and what a tracker is seeded with is never reported.
pub proof fn law_clipboard_reports_once(last: LastView, text: Option<Seq<char>>, image: Option<Seq<u8>>)
    ensures
        clip_step(clip_step(last, text, image).0, text, image) == (clip_step(last, text, image).0, None::<ClipboardView>),
        clip_step(seed_view(text, image), text, image).1 is None,
{
}

impl ClipboardTracker {
    /// A tracker seeded with the current clipboard state, which emits
    /// nothing for it: only changes during the session are captured.
    pub fn new_seeded(text: Option<&str>, image: Option<&ImageData>) -> (r: Self)
        ensures
            r.last@ == seed_view(opt_str(text), image_bytes(image)),
    {
        let text_ok = match text {
            Some(t) => !is_blank(t),
            None => false,
        };
        if text_ok {
            match text {
                Some(t) => {
                    return ClipboardTracker { last: LastContent::Text(t.to_string()) };
                },
                None => {},
            }
        }
        match image {
            Some(img) => ClipboardTracker {
                last: LastContent::Image(hash_image_bytes(img.bytes.as_slice())),
            },
            None => ClipboardTracker { last: LastContent::Empty },
        }
    }

    /// Check new clipboard content against the previous state.
    ///
    /// Text takes priority when both are available. Blank text, the same
    /// text, or an image with the same digest as last time give `Unchanged`;
    /// new content is remembered and returned as `Changed`.
    pub fn check(&mut self, text: Option<&str>, image: Option<&ImageData>) -> (r: ClipboardUpdate)
        ensures
            final(self).last@ == clip_step(old(self).last@, opt_str(text), image_bytes(image)).0,
            match clip_step(old(self).last@, opt_str(text), image_bytes(image)).1 {
                Some(c) => r matches ClipboardUpdate::Changed(x) && x@ == c,
                None => r is Unchanged,
            },
    {
        match text {
            Some(t) => {
                if is_blank(t) {
                    return ClipboardUpdate::Unchanged;
                }
                let same = match &self.last {
                    LastContent::Text(prev) => str_eq(prev.as_str(), t),
                    _ => false,
                };
                if same {
                    return ClipboardUpdate::Unchanged;
                }
                self.last = LastContent::Text(t.to_string());
                ClipboardUpdate::Changed(ClipboardContent::Text { text: t.to_string() })
            },
            None => match image {
                Some(img) => {
                    let digest = hash_image_bytes(img.bytes.as_slice());
                    let same = match &self.last {
                        LastContent::Image(prev) => bytes_eq(prev, &digest),
                        _ => false,
                    };
                    if same {
                        return ClipboardUpdate::Unchanged;
                    }
                    self.last = LastContent::Image(digest);
                    ClipboardUpdate::Changed(ClipboardContent::Image { path: String::new() })
                },
                None => ClipboardUpdate::Unchanged,
            },
        }
    }
}

fn bytes_eq(a: &Vec<u8>, b: &Vec<u8>) -> (r: bool)
    ensures
        r == (a@ == b@),
{
    if a.len() != b.len() {
        return false;
    }
    let mut i: usize = 0;
    while i < a.len()
        invariant
            i <= a.len(),
            a.len() == b.len(),
            forall|k: int| 0 <= k < i ==> a@[k] == b@[k],
        decreases a.len() - i,
    {
        if a[i] != b[i] {
            return false;
        }
        i += 1;
    }
    assert(a@ =~= b@);
    true
}

// ── Chimes ──────────────────────────────────────────────────────────────────

/// The notes the chimes are made of.
#[derive(Debug, Clone, Copy, PartialEq, Eq, Structural)]
pub enum Note {
    A4,
    C5,
    D5,
    E5,
    G5,
}

/// Auditory feedback chimes for narration state transitions.
#[derive(Debug, Clone, Copy, PartialEq, Eq, Structural)]
pub enum Chime {
    /// Rising C5 to E5: recording started.
    Start,
    /// Descending E5 to C5: recording stopped, content staged for delivery.
    Stop,
    /// Single G5: content flushed, still recording.
    Flush,
    /// D5: capture suspended.
    Pause,
    /// Rising D5 to E5: capture resumed.
    Resume,
    /// Descending E5 to A4: recording stopped, content copied to clipboard.
    Yank,
    /// A4: stop/flush/yank produced no content.
    Empty,
}

/// What a chime plays: its notes in order, and whether they are the short ones.
#[derive(Debug, Clone)]
pub struct ChimeScore {
    pub notes: Vec<Note>,
    /// Short notes (flush, pause, resume, empty) rather than standard ones.
    pub short: bool,
}

/// The notes of each chime.
pub open spec fn chime_notes(c: Chime) -> Seq<Note> {
    match c {
        Chime::Start => seq![Note::C5, Note::E5],
        Chime::Stop => seq![Note::E5, Note::C5],
        Chime::Flush => seq![Note::G5],
        Chime::Pause => seq![Note::D5],
        Chime::Resume => seq![Note::D5, Note::E5],
        Chime::Yank => seq![Note::E5, Note::A4],
        Chime::Empty => seq![Note::A4],
    }
}

/// Whether a chime uses the short note duration.
pub open spec fn chime_short(c: Chime) -> bool {
    match c {
        Chime::Start | Chime::Stop | Chime::Yank => false,
        _ => true,
    }
}

impl Chime {
    /// The notes of this chime and their duration class.
    pub fn score(&self) -> (r: ChimeScore)
        ensures
            r.notes@ == chime_notes(*self),
            r.short == chime_short(*self),
    {
        let (notes, short) = match self {
            Chime::Start => (vec![Note::C5, Note::E5], false),
            Chime::Stop => (vec![Note::E5, Note::C5], false),
            Chime::Flush => (vec![Note::G5], true),
            Chime::Pause => (vec![Note::D5], true),
            Chime::Resume => (vec![Note::D5, Note::E5], true),
            Chime::Yank => (vec![Note::E5, Note::A4], false),
            Chime::Empty => (vec![Note::A4], true),
        };
        assert(notes@ =~= chime_notes(*self));
        ChimeScore { notes, short }
    }

    /// What to play for this chime: nothing in test mode (no audio device and
    /// no real sleep), else its score, which the caller renders and plays.
    pub fn play(&self, test_mode: bool) -> (r: Option<ChimeScore>)
        ensures
            test_mode ==> r is None,
            !test_mode ==> (r matches Some(s) && s.notes@ == chime_notes(*self) && s.short
                == chime_short(*self)),
    {
        if test_mode {
            None
        } else {
            Some(self.score())
        }
    }
}

// ── Editor cursor dwell ─────────────────────────────────────────────────────

/// How long (ms) a cursor must rest before a cursor-only snapshot is emitted.
pub const CURSOR_DWELL_MS: i64 = 500;

/// Result of processing an editor state update through the dwell tracker.
#[derive(Debug)]
pub enum EditorUpdate {
    /// Changed state with real selections: emit immediately.
    Emit(Vec<FileEntry>),
    /// Unchanged state with real selections: extend the last event's `last_seen`.
    Extend,
    /// Cursor-only or unchanged cursors: pending or skipped.
    Skip,
}

/// Whether some file has a selection that spans a range.
pub open spec fn has_real_selection(files: Seq<FileEntryView>) -> bool {
    exists|i: int, k: int|
        0 <= i < files.len() && 0 <= k < files[i].selections.len() && !#[trigger] files[i].selections[k].is_cursor_spec()
}

/// State machine for cursor dwell filtering: cursor-only snapshots are
/// deferred until the cursor rests, real selections are emitted at once.
pub struct DwellTracker {
    /// How long a cursor must rest, in nanoseconds.
    pub dwell_duration: i64,
    /// Last emitted or stored file state, for deduplication.
    pub prev_files: Option<Vec<FileEntry>>,
    /// A cursor-only snapshot waiting for the dwell timeout, with the time it
    /// was seen.
    pub pending_cursor: Option<(i64, Vec<FileEntry>)>,
}

/// The models of an optional list of files.
pub open spec fn opt_files(o: Option<Vec<FileEntry>>) -> Option<Seq<FileEntryView>> {
    match o {
        Some(v) => Some(file_views(v@)),
        None => None,
    }
}

/// The models of an optional pending snapshot.
pub open spec fn opt_pending(o: Option<(i64, Vec<FileEntry>)>) -> Option<(i64, Seq<FileEntryView>)> {
    match o {
        Some(p) => Some((p.0, file_views(p.1@))),
        None => None,
    }
}

fn files_equal(a: &Vec<FileEntry>, b: &Vec<FileEntry>) -> (r: bool)
    ensures
        r == (file_views(a@) == file_views(b@)),
{
    if a.len() != b.len() {
        return false;
    }
    let mut i: usize = 0;
    while i < a.len()
        invariant
            i <= a.len(),
            a.len() == b.len(),
            forall|k: int| 0 <= k < i ==> a@[k]@ == b@[k]@,
        decreases a.len() - i,
    {
        if !a[i].same_as(&b[i]) {
            assert(file_views(a@)[i as int] != file_views(b@)[i as int]);
            return false;
        }
        i += 1;
    }
    assert(file_views(a@) =~= file_views(b@));
    true
}

fn any_real_selection(files: &Vec<FileEntry>) -> (r: bool)
    ensures
        r == has_real_selection(file_views(files@)),
{
    let ghost fv = file_views(files@);
    let mut i: usize = 0;
    while i < files.len()
        invariant
            i <= files.len(),
            fv == file_views(files@),
            forall|a: int, k: int|
                0 <= a < i && 0 <= k < fv[a].selections.len() ==> #[trigger] fv[a].selections[k].is_cursor_spec(),
        decreases files.len() - i,
    {
        if !files[i].cursor_only() {
            proof {
                let k = choose|k: int|
                    0 <= k < files@[i as int].selections@.len()
                        && !#[trigger] files@[i as int].selections@[k].is_cursor_spec();
                assert(!fv[i as int].selections[k].is_cursor_spec());
            }
            return true;
        }
        i += 1;
    }
    false
}

/// The model of a [`DwellTracker`].
pub struct DwellView {
    pub dwell: i64,
    pub prev: Option<Seq<FileEntryView>>,
    pub pending: Option<(i64, Seq<FileEntryView>)>,
}

/// The model of a tracker.
pub open spec fn dwell_view(t: DwellTracker) -> DwellView {
    DwellView { dwell: t.dwell_duration, prev: opt_files(t.prev_files), pending: opt_pending(t.pending_cursor) }
}

/// The model of an [`EditorUpdate`].
pub enum UpdateView {
    Emit(Seq<FileEntryView>),
    Extend,
    Skip,
}

/// The model of an update result.
pub open spec fn update_view(u: EditorUpdate) -> UpdateView {
    match u {
        EditorUpdate::Emit(f) => UpdateView::Emit(file_views(f@)),
        EditorUpdate::Extend => UpdateView::Extend,
        EditorUpdate::Skip => UpdateView::Skip,
    }
}

/// A new editor state: the previous state again gives `Extend` when it has
/// a real selection and `Skip` otherwise, changing nothing. A new
/// cursor-only state is remembered and becomes the pending snapshot
/// (`Skip`); a new state with a real selection is remembered, drops any
/// pending snapshot, and is emitted at once.
pub open spec fn dwell_update(s: DwellView, files: Seq<FileEntryView>, now: i64) -> (DwellView, UpdateView) {
    if s.prev == Some(files) {
        (s, if has_real_selection(files) {
            UpdateView::Extend
        } else {
            UpdateView::Skip
        })
    } else if has_real_selection(files) {
        (DwellView { prev: Some(files), pending: None, ..s }, UpdateView::Emit(files))
    } else {
        (DwellView { prev: Some(files), pending: Some((now, files)), ..s }, UpdateView::Skip)
    }
}

/// A tick: the pending cursor-only snapshot is handed out (and cleared) once
/// it has rested for the dwell duration.
pub open spec fn dwell_tick(s: DwellView, now: i64) -> (DwellView, Option<Seq<FileEntryView>>) {
    match s.pending {
        Some(p) => if now - p.0 >= s.dwell {
            (DwellView { pending: None, ..s }, Some(p.1))
        } else {
            (s, None)
        },
        None => (s, None),
    }
}

/// A cursor that rests is reported once: a new cursor-only state seen at
/// `t0` is handed out by the first tick at least the dwell duration later,
/// and after that neither further ticks nor the same state again report it.
pub proof fn law_cursor_dwell_emits_once(s: DwellView, files: Seq<FileEntryView>, t0: i64, t1: i64, t2: i64, t3: i64)
    requires
        s.prev != Some(files),
        !has_real_selection(files),
        t1 - t0 >= s.dwell,
    ensures
        ({
            let a = dwell_update(s, files, t0);
            let b = dwell_tick(a.0, t1);
            let c = dwell_update(b.0, files, t2);
            &&& a.1 == UpdateView::Skip
            &&& b.1 == Some(files)
            &&& c.1 == UpdateView::Skip
            &&& dwell_tick(c.0, t3).1 is None
            &&& dwell_tick(b.0, t3).1 is None
        }),
{
}

/// A real selection is reported at once, and seeing it again only extends
/// it: the second update gives `Extend` and changes nothing.
pub proof fn law_selection_emits_then_extends(s: DwellView, files: Seq<FileEntryView>, t0: i64, t1: i64)
    requires
        s.prev != Some(files),
        has_real_selection(files),
    ensures
        ({
            let a = dwell_update(s, files, t0);
            &&& a.1 == UpdateView::Emit(files)
            &&& a.0.pending is None
            &&& dwell_update(a.0, files, t1) == (a.0, UpdateView::Extend)
        }),
{
}

impl DwellTracker {
    /// A tracker with the given dwell duration (nanoseconds) and no history.
    pub fn new(dwell_duration: i64) -> (r: Self)
        ensures
            r.dwell_duration == dwell_duration,
            r.prev_files is None,
            r.pending_cursor is None,
    {
        DwellTracker { dwell_duration, prev_files: None, pending_cursor: None }
    }

    /// Hands out the pending cursor-only snapshot once it has rested for the
    /// dwell duration (clearing it); `None` otherwise.
    pub fn tick(&mut self, now: i64) -> (r: Option<Vec<FileEntry>>)
        ensures
            dwell_view(*final(self)) == dwell_tick(dwell_view(*old(self)), now).0,
            opt_files(r) == dwell_tick(dwell_view(*old(self)), now).1,
    {
        let due = match &self.pending_cursor {
            Some(p) => (now as i128) - (p.0 as i128) >= self.dwell_duration as i128,
            None => false,
        };
        if due {
            let mut taken: Option<(i64, Vec<FileEntry>)> = None;
            std::mem::swap(&mut taken, &mut self.pending_cursor);
            match taken {
                Some((_, files)) => Some(files),
                None => None,
            }
        } else {
            None
        }
    }

    /// Process a new editor state.
    ///
    /// The previous state again gives `Extend` when it has a real selection
    /// and `Skip` otherwise. A new cursor-only state is remembered and becomes
    /// the pending snapshot (`Skip`); a new state with a real selection is
    /// remembered, drops any pending snapshot, and is emitted at once.
    pub fn update(&mut self, files: Vec<FileEntry>, now: i64) -> (r: EditorUpdate)
        ensures
            dwell_view(*final(self)) == dwell_update(dwell_view(*old(self)), file_views(files@), now).0,
            update_view(r) == dwell_update(dwell_view(*old(self)), file_views(files@), now).1,
    {
        let unchanged = match &self.prev_files {
            Some(prev) => files_equal(prev, &files),
            None => false,
        };
        let has_range = any_real_selection(&files);
        if unchanged {
            if has_range {
                return EditorUpdate::Extend;
            }
            return EditorUpdate::Skip;
        }
        let copy = clone_files(&files);
        self.prev_files = Some(copy);
        if has_range {
            self.pending_cursor = None;
            EditorUpdate::Emit(files)
        } else {
            self.pending_cursor = Some((now, files));
            EditorUpdate::Skip
        }
    }
}

fn clone_files(v: &Vec<FileEntry>) -> (r: Vec<FileEntry>)
    ensures
        file_views(r@) == file_views(v@),
{
    let mut out: Vec<FileEntry> = Vec::new();
    let mut i: usize = 0;
    while i < v.len()
        invariant
            i <= v.len(),
            file_views(out@) == file_views(v@).take(i as int),
        decreases v.len() - i,
    {
        let ghost o0 = out@;
        out.push(v[i].clone());
        assert(file_views(out@) =~= file_views(o0).push(v@[i as int]@));
        assert(file_views(v@).take(i + 1) =~= file_views(v@).take(i as int).push(v@[i as int]@));
        i += 1;
    }
    assert(file_views(v@).take(v.len() as int) =~= file_views(v@));
    out
}

} // verus!
