use attend::diff_capture::DiffTracker;
use attend::capture::{
    clipboard_png,
    is_ignored_app, platform_source, str_eq_ignore_ascii_case, CaptureControl, Chime,
    ClipboardTracker, ClipboardUpdate, DwellTracker, EditorUpdate, ExtDwellTracker, ExtUpdate,
    ExternalSnapshot, ImageData, Note, CURSOR_DWELL_MS,
};
use attend::merge::ClipboardContent;
use attend::model::{FileEntry, Position, Selection};

// ── Pause / resume / stop ───────────────────────────────────────────────────

#[test]
fn wait_while_paused_returns_false_when_running() {
    let control = CaptureControl::new();
    assert_eq!(control.wait_while_paused(), Some(false));
}

#[test]
fn wait_while_paused_returns_true_when_stopped() {
    let mut control = CaptureControl::new();
    control.stop();
    assert_eq!(control.wait_while_paused(), Some(true));
}

#[test]
fn pause_blocks_resume_unblocks() {
    let mut control = CaptureControl::new();
    control.pause();
    assert_eq!(control.wait_while_paused(), None, "paused threads keep waiting");
    control.resume();
    assert_eq!(control.wait_while_paused(), Some(false), "should return false on resume");
}

#[test]
fn stop_while_paused_returns_true() {
    let mut control = CaptureControl::new();
    control.pause();
    assert_eq!(control.wait_while_paused(), None);
    control.stop();
    assert_eq!(control.wait_while_paused(), Some(true));
}

#[test]
fn resume_sets_clipboard_reseed_one_shot() {
    let mut control = CaptureControl::new();

    // Initially false.
    assert!(!control.take_clipboard_reseed());

    // Resume sets it.
    control.pause();
    control.resume();
    assert!(control.take_clipboard_reseed());

    // Second take returns false (one-shot).
    assert!(!control.take_clipboard_reseed());
}

#[test]
fn multiple_pause_resume_cycles() {
    let mut control = CaptureControl::new();
    for _ in 0..3 {
        assert_eq!(control.wait_while_paused(), Some(false));
        control.pause();
        assert_eq!(control.wait_while_paused(), None);
        control.resume();
        assert!(control.take_clipboard_reseed());
    }
    control.stop();
    assert_eq!(control.wait_while_paused(), Some(true));
}

// ── External selections ─────────────────────────────────────────────────────

fn snapshot(text: Option<&str>) -> ExternalSnapshot {
    ExternalSnapshot {
        app: "iTerm2".to_string(),
        window_title: "~/src".to_string(),
        selected_text: text.map(|t| t.to_string()),
    }
}

const NOW: i64 = 1_700_000_000_000_000_000;
const MS: i64 = 1_000_000;

#[test]
fn selection_emitted_immediately() {
    let mut tracker = ExtDwellTracker::new();
    let snap = snapshot(Some("hello"));
    let result = tracker.update(snap.clone(), NOW);
    assert!(matches!(result, ExtUpdate::New(ref s) if s == &snap));
}

#[test]
fn empty_selection_returns_none() {
    let mut tracker = ExtDwellTracker::new();
    assert!(matches!(tracker.update(snapshot(None), NOW), ExtUpdate::NoSelection));
    assert!(matches!(tracker.update(snapshot(Some("")), NOW), ExtUpdate::NoSelection));
}

#[test]
fn dedup_same_text() {
    let mut tracker = ExtDwellTracker::new();
    let snap = snapshot(Some("hello"));
    assert!(matches!(tracker.update(snap.clone(), NOW), ExtUpdate::New(_)));
    assert!(matches!(tracker.update(snap, NOW + 50 * MS), ExtUpdate::Extend));
}

#[test]
fn same_text_returns_extend() {
    let mut tracker = ExtDwellTracker::new();
    let snap = snapshot(Some("hello"));
    assert!(matches!(tracker.update(snap.clone(), NOW), ExtUpdate::New(_)));
    assert!(matches!(tracker.update(snap, NOW + 50 * MS), ExtUpdate::Extend));
}

#[test]
fn different_texts_all_emitted() {
    let mut tracker = ExtDwellTracker::new();
    assert!(matches!(tracker.update(snapshot(Some("first")), NOW), ExtUpdate::New(_)));
    assert!(matches!(tracker.update(snapshot(Some("second")), NOW + 30 * MS), ExtUpdate::New(_)));
    assert!(matches!(tracker.update(snapshot(Some("third")), NOW + 60 * MS), ExtUpdate::New(_)));
}

#[test]
fn empty_selection_keeps_previous_text() {
    let mut tracker = ExtDwellTracker::new();
    assert!(matches!(tracker.update(snapshot(Some("a")), NOW), ExtUpdate::New(_)));
    assert!(matches!(tracker.update(snapshot(None), NOW), ExtUpdate::NoSelection));
    assert!(matches!(tracker.update(snapshot(Some("a")), NOW), ExtUpdate::Extend));
}

#[test]
fn ignored_apps_match_ignoring_ascii_case() {
    let ignore = vec!["Finder".to_string(), "1Password".to_string()];
    assert!(is_ignored_app("finder", &ignore));
    assert!(is_ignored_app("1PASSWORD", &ignore));
    assert!(!is_ignored_app("Safari", &ignore));
    assert!(!is_ignored_app("Finder2", &ignore));
    assert!(str_eq_ignore_ascii_case("iTerm2", "ITERM2"));
    assert!(!str_eq_ignore_ascii_case("é", "É"));
}

#[test]
fn platform_source_only_on_macos() {
    assert!(platform_source(true).is_some());
    assert!(platform_source(false).is_none());
}

// ── Clipboard ───────────────────────────────────────────────────────────────

fn make_image(width: usize, height: usize, fill: u8) -> ImageData {
    ImageData { width, height, bytes: vec![fill; width * height * 4] }
}

#[test]
fn seed_does_not_emit() {
    let mut tracker = ClipboardTracker::new_seeded(Some("hello"), None);
    assert!(matches!(tracker.check(Some("hello"), None), ClipboardUpdate::Unchanged));
}

#[test]
fn text_change_emits() {
    let mut tracker = ClipboardTracker::new_seeded(Some("hello"), None);
    match tracker.check(Some("world"), None) {
        ClipboardUpdate::Changed(ClipboardContent::Text { text }) => assert_eq!(text, "world"),
        other => panic!("expected Changed(Text), got {other:?}"),
    }
}

#[test]
fn same_text_does_not_repeat() {
    let mut tracker = ClipboardTracker::new_seeded(None, None);
    assert!(matches!(tracker.check(Some("hello"), None), ClipboardUpdate::Changed(_)));
    assert!(matches!(tracker.check(Some("hello"), None), ClipboardUpdate::Unchanged));
}

#[test]
fn whitespace_only_skipped() {
    let mut tracker = ClipboardTracker::new_seeded(None, None);
    assert!(matches!(tracker.check(Some("   \n\t  "), None), ClipboardUpdate::Unchanged));
}

#[test]
fn empty_to_text_emits() {
    let mut tracker = ClipboardTracker::new_seeded(None, None);
    match tracker.check(Some("hello"), None) {
        ClipboardUpdate::Changed(ClipboardContent::Text { text }) => assert_eq!(text, "hello"),
        other => panic!("expected Changed(Text), got {other:?}"),
    }
}

#[test]
fn text_to_image_emits() {
    let mut tracker = ClipboardTracker::new_seeded(Some("hello"), None);
    let img = make_image(10, 10, 0xFF);
    assert!(matches!(
        tracker.check(None, Some(&img)),
        ClipboardUpdate::Changed(ClipboardContent::Image { .. })
    ));
}

#[test]
fn image_to_text_emits() {
    let img = make_image(10, 10, 0xFF);
    let mut tracker = ClipboardTracker::new_seeded(None, Some(&img));
    match tracker.check(Some("hello"), None) {
        ClipboardUpdate::Changed(ClipboardContent::Text { text }) => assert_eq!(text, "hello"),
        other => panic!("expected Changed(Text), got {other:?}"),
    }
}

#[test]
fn image_dimension_change_emits() {
    let img1 = make_image(10, 10, 0xFF);
    let mut tracker = ClipboardTracker::new_seeded(None, Some(&img1));
    let img2 = make_image(20, 20, 0xFF);
    assert!(matches!(
        tracker.check(None, Some(&img2)),
        ClipboardUpdate::Changed(ClipboardContent::Image { .. })
    ));
}

#[test]
fn same_image_does_not_repeat() {
    let img = make_image(10, 10, 0xAB);
    let mut tracker = ClipboardTracker::new_seeded(None, None);
    assert!(matches!(tracker.check(None, Some(&img)), ClipboardUpdate::Changed(_)));
    let img2 = make_image(10, 10, 0xAB);
    assert!(matches!(tracker.check(None, Some(&img2)), ClipboardUpdate::Unchanged));
}

#[test]
fn both_unavailable_skips() {
    let mut tracker = ClipboardTracker::new_seeded(None, None);
    assert!(matches!(tracker.check(None, None), ClipboardUpdate::Unchanged));
}

#[test]
fn empty_image_emits_and_deduplicates() {
    let empty = ImageData { width: 0, height: 0, bytes: vec![] };
    let mut tracker = ClipboardTracker::new_seeded(None, None);
    assert!(matches!(
        tracker.check(None, Some(&empty)),
        ClipboardUpdate::Changed(ClipboardContent::Image { .. })
    ));
    let empty2 = ImageData { width: 0, height: 0, bytes: vec![] };
    assert!(matches!(tracker.check(None, Some(&empty2)), ClipboardUpdate::Unchanged));
}

#[test]
fn seeded_image_is_not_reported() {
    let img = make_image(3, 2, 0x10);
    let mut tracker = ClipboardTracker::new_seeded(Some("  "), Some(&img));
    let same = make_image(3, 2, 0x10);
    assert!(matches!(tracker.check(None, Some(&same)), ClipboardUpdate::Unchanged));
    let other = make_image(3, 2, 0x11);
    assert!(matches!(tracker.check(None, Some(&other)), ClipboardUpdate::Changed(_)));
}

// ── Chimes ──────────────────────────────────────────────────────────────────

#[test]
fn chime_scores() {
    let start = Chime::Start.score();
    assert_eq!(start.notes, vec![Note::C5, Note::E5]);
    assert!(!start.short);
    let yank = Chime::Yank.score();
    assert_eq!(yank.notes, vec![Note::E5, Note::A4]);
    assert!(!yank.short);
    let resume = Chime::Resume.score();
    assert_eq!(resume.notes, vec![Note::D5, Note::E5]);
    assert!(resume.short);
    assert_eq!(Chime::Empty.score().notes, vec![Note::A4]);
    assert!(Chime::Flush.play(true).is_none());
    assert_eq!(Chime::Flush.play(false).unwrap().notes, vec![Note::G5]);
}

// ── Editor cursor dwell ─────────────────────────────────────────────────────

fn cursor_entry(path: &str, line: usize, col: usize) -> FileEntry {
    let pos = Position { line, col };
    FileEntry { path: path.to_string(), selections: vec![Selection { start: pos, end: pos }] }
}

fn selection_entry(path: &str, sl: usize, sc: usize, el: usize, ec: usize) -> FileEntry {
    FileEntry {
        path: path.to_string(),
        selections: vec![Selection {
            start: Position { line: sl, col: sc },
            end: Position { line: el, col: ec },
        }],
    }
}

const DWELL: i64 = 100 * MS;

#[test]
fn cursor_only_deferred() {
    let mut tracker = DwellTracker::new(DWELL);
    let files = vec![cursor_entry("foo.rs", 1, 1)];
    assert!(matches!(tracker.update(files.clone(), NOW), EditorUpdate::Skip));
    assert_eq!(tracker.tick(NOW + DWELL / 2), None);
    assert_eq!(tracker.tick(NOW + DWELL), Some(files));
    assert_eq!(tracker.tick(NOW + DWELL * 2), None);
}

#[test]
fn selection_immediate() {
    let mut tracker = DwellTracker::new(DWELL);
    let files = vec![selection_entry("foo.rs", 1, 1, 1, 10)];
    let result = tracker.update(files.clone(), NOW);
    assert!(matches!(result, EditorUpdate::Emit(ref f) if f == &files));
}

#[test]
fn rapid_cursor_changes() {
    let mut tracker = DwellTracker::new(DWELL);
    let first = vec![cursor_entry("foo.rs", 1, 1)];
    let second = vec![cursor_entry("foo.rs", 5, 1)];
    let third = vec![cursor_entry("foo.rs", 10, 1)];
    assert!(matches!(tracker.update(first, NOW), EditorUpdate::Skip));
    assert!(matches!(tracker.update(second, NOW + 30 * MS), EditorUpdate::Skip));
    assert!(matches!(tracker.update(third.clone(), NOW + 60 * MS), EditorUpdate::Skip));
    assert_eq!(tracker.tick(NOW + (60 + 50) * MS), None);
    assert_eq!(tracker.tick(NOW + (60 + 100) * MS), Some(third));
}

#[test]
fn cursor_then_selection() {
    let mut tracker = DwellTracker::new(DWELL);
    let cursor = vec![cursor_entry("foo.rs", 1, 1)];
    let sel = vec![selection_entry("foo.rs", 1, 1, 1, 10)];
    assert!(matches!(tracker.update(cursor, NOW), EditorUpdate::Skip));
    let result = tracker.update(sel.clone(), NOW + 50 * MS);
    assert!(matches!(result, EditorUpdate::Emit(ref f) if f == &sel));
    assert_eq!(tracker.tick(NOW + DWELL * 2), None);
}

#[test]
fn unchanged_selection_state_extends() {
    let mut tracker = DwellTracker::new(DWELL);
    let files = vec![selection_entry("foo.rs", 1, 1, 1, 10)];
    assert!(matches!(tracker.update(files.clone(), NOW), EditorUpdate::Emit(_)));
    assert!(matches!(tracker.update(files, NOW + 50 * MS), EditorUpdate::Extend));
}

#[test]
fn unchanged_cursor_state() {
    let mut tracker = DwellTracker::new(DWELL);
    let files = vec![cursor_entry("foo.rs", 1, 1)];
    assert!(matches!(tracker.update(files.clone(), NOW), EditorUpdate::Skip));
    assert!(matches!(tracker.update(files, NOW + 50 * MS), EditorUpdate::Skip));
}

#[test]
fn selection_then_cursor() {
    let mut tracker = DwellTracker::new(DWELL);
    let sel = vec![selection_entry("foo.rs", 1, 1, 1, 10)];
    let cursor = vec![cursor_entry("foo.rs", 5, 1)];
    assert!(matches!(tracker.update(sel.clone(), NOW), EditorUpdate::Emit(ref f) if f == &sel));
    let t1 = NOW + 200 * MS;
    assert!(matches!(tracker.update(cursor.clone(), t1), EditorUpdate::Skip));
    assert_eq!(tracker.tick(t1 + DWELL / 2), None);
    assert_eq!(tracker.tick(t1 + DWELL), Some(cursor));
}

/// One poll of the editor thread: flush a rested cursor snapshot, then feed
/// the current state. Returns the snapshots emitted.
fn poll(tracker: &mut DwellTracker, now: i64, files: &Option<Vec<FileEntry>>) -> Vec<Vec<FileEntry>> {
    let mut out = Vec::new();
    if let Some(f) = tracker.tick(now) {
        out.push(f);
    }
    if let Some(files) = files {
        if let EditorUpdate::Emit(f) = tracker.update(files.clone(), now) {
            out.push(f);
        }
    }
    out
}

const POLL: i64 = 100 * MS;

#[test]
fn integration_cursor_dwell_fires_after_timeout() {
    let mut tracker = DwellTracker::new(CURSOR_DWELL_MS * MS);
    let state = Some(vec![cursor_entry("foo.rs", 10, 5)]);
    let mut emitted = Vec::new();
    let mut now = NOW;
    for _ in 0..3 {
        now += POLL;
        emitted.extend(poll(&mut tracker, now, &state));
    }
    assert_eq!(emitted.len(), 0, "no snapshot before dwell timeout");
    for _ in 0..3 {
        now += POLL;
        emitted.extend(poll(&mut tracker, now, &state));
    }
    assert_eq!(emitted.len(), 1, "exactly one snapshot after dwell timeout");
    assert_eq!(emitted[0], vec![cursor_entry("foo.rs", 10, 5)]);
}

#[test]
fn integration_cursor_replaced_before_dwell() {
    let mut tracker = DwellTracker::new(CURSOR_DWELL_MS * MS);
    let mut emitted = Vec::new();
    let mut now = NOW;
    let a = Some(vec![cursor_entry("foo.rs", 1, 1)]);
    for _ in 0..2 {
        now += POLL;
        emitted.extend(poll(&mut tracker, now, &a));
    }
    assert_eq!(emitted.len(), 0);
    let b = Some(vec![cursor_entry("foo.rs", 50, 10)]);
    for _ in 0..3 {
        now += POLL;
        emitted.extend(poll(&mut tracker, now, &b));
    }
    assert_eq!(emitted.len(), 0, "no snapshot: cursor B hasn't dwelled long enough");
}

#[test]
fn integration_selection_interrupts_cursor_dwell() {
    let mut tracker = DwellTracker::new(CURSOR_DWELL_MS * MS);
    let mut emitted = Vec::new();
    let mut now = NOW;
    let cursor = Some(vec![cursor_entry("foo.rs", 1, 1)]);
    for _ in 0..2 {
        now += POLL;
        emitted.extend(poll(&mut tracker, now, &cursor));
    }
    assert_eq!(emitted.len(), 0, "cursor still pending");
    let sel_files = vec![selection_entry("foo.rs", 1, 1, 5, 20)];
    let sel = Some(sel_files.clone());
    now += POLL;
    emitted.extend(poll(&mut tracker, now, &sel));
    assert_eq!(emitted.len(), 1, "exactly one snapshot: the selection");
    assert_eq!(emitted[0], sel_files, "emitted event contains the selection");
    for _ in 0..6 {
        now += POLL;
        emitted.extend(poll(&mut tracker, now, &sel));
    }
    assert_eq!(emitted.len(), 1, "no extra snapshot from discarded cursor");
}

#[test]
fn clipboard_png_encodes_or_refuses() {
    let img = make_image(2, 3, 0x7f);
    let png = clipboard_png(&img).unwrap();
    assert_eq!(&png[..8], &[0x89, b'P', b'N', b'G', 0x0d, 0x0a, 0x1a, 0x0a]);
    let short = ImageData { width: 2, height: 3, bytes: vec![0; 23] };
    assert!(clipboard_png(&short).is_none());
}

// ── File change watcher ─────────────────────────────────────────────────────

/// A read of a file first seen reports nothing; a changed content reports the
/// content it replaced, once.
#[test]
fn diff_tracker_reports_change_once() {
    let mut t = DiffTracker::new();
    assert_eq!(t.note_content("/p/a.rs", "one\n".to_string()), None);
    assert_eq!(t.note_content("/p/a.rs", "two\n".to_string()), Some("one\n".to_string()));
    assert_eq!(t.note_content("/p/a.rs", "two\n".to_string()), None);
}

/// A change and its revert are both reported.
#[test]
fn diff_tracker_reports_revert() {
    let mut t = DiffTracker::new();
    t.seed("/p/a.rs", Some(1), "original\n".to_string());
    assert!(t.note_mtime("/p/a.rs", 2));
    assert_eq!(t.note_content("/p/a.rs", "changed\n".to_string()), Some("original\n".to_string()));
    assert!(t.note_mtime("/p/a.rs", 3));
    assert_eq!(t.note_content("/p/a.rs", "original\n".to_string()), Some("changed\n".to_string()));
}

/// An unchanged modification time asks for no read; a seeded time counts.
#[test]
fn diff_tracker_unchanged_mtime_not_reread() {
    let mut t = DiffTracker::new();
    t.seed("/p/a.rs", Some(7), "x".to_string());
    assert!(!t.note_mtime("/p/a.rs", 7));
    assert!(t.note_mtime("/p/a.rs", -7));
    assert!(!t.note_mtime("/p/a.rs", -7));
    assert!(t.note_mtime("/p/b.rs", 7));
}

/// Files are tracked apart: a change of one reports nothing for another.
#[test]
fn diff_tracker_tracks_files_apart() {
    let mut t = DiffTracker::new();
    t.seed("/p/a.rs", None, "a".to_string());
    t.seed("/p/b.rs", None, "b".to_string());
    assert_eq!(t.note_content("/p/b.rs", "b".to_string()), None);
    assert_eq!(t.note_content("/p/a.rs", "b".to_string()), Some("a".to_string()));
    assert!(t.note_mtime("/p/a.rs", 0));
}
