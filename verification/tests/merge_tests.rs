use attend::merge::{
    collapse_cursor_only, collapse_ext_selections, compress_and_merge, dedup_browser_vs_external,
    dedup_clipboard_selections, net_change_diffs, normalize_text, process_run, sort_events,
    subsume_progressive_selections, union_snapshots, CapturedRegion, ClipboardContent, Event,
    RedactedKind,
};
use attend::model::{FileEntry, Position, Selection};

/// Seconds to a timestamp in nanoseconds since the epoch.
fn ts(secs: f64) -> i64 {
    (secs * 1000.0) as i64 * 1_000_000
}

fn ext(t: f64, app: &str, window: &str, text: &str) -> Event {
    Event::ExternalSelection {
        timestamp: ts(t),
        last_seen: ts(t),
        app: app.to_string(),
        window_title: window.to_string(),
        text: text.to_string(),
    }
}

fn browser(t: f64, url: &str, text: &str, plain: &str) -> Event {
    Event::BrowserSelection {
        timestamp: ts(t),
        last_seen: ts(t),
        url: url.to_string(),
        title: "Page".to_string(),
        text: text.to_string(),
        plain_text: plain.to_string(),
    }
}

fn shell(t: f64, command: &str, cwd: &str, exit: Option<i32>) -> Event {
    Event::ShellCommand {
        timestamp: ts(t),
        shell: "fish".to_string(),
        command: command.to_string(),
        cwd: cwd.to_string(),
        exit_status: exit,
        duration_secs_bits: exit.map(|_| 0.1f64.to_bits()),
    }
}

fn words(t: f64, text: &str) -> Event {
    Event::Words { timestamp: ts(t), text: text.to_string() }
}

fn clip(t: f64, text: &str) -> Event {
    Event::ClipboardSelection {
        timestamp: ts(t),
        content: ClipboardContent::Text { text: text.to_string() },
    }
}

fn pos(line: usize, col: usize) -> Position {
    Position { line, col }
}

fn region(path: &str, content: &str) -> CapturedRegion {
    CapturedRegion {
        path: path.to_string(),
        content: content.to_string(),
        first_line: 1,
        selections: vec![],
        language: None,
    }
}

fn cursor_snap(t: f64, path: &str) -> Event {
    Event::EditorSnapshot {
        timestamp: ts(t),
        last_seen: ts(t),
        files: vec![FileEntry {
            path: path.to_string(),
            selections: vec![Selection { start: pos(1, 1), end: pos(1, 1) }],
        }],
        regions: vec![region(path, "x\n")],
    }
}

fn selection_snap(t: f64, path: &str, content: &str) -> Event {
    Event::EditorSnapshot {
        timestamp: ts(t),
        last_seen: ts(t),
        files: vec![FileEntry {
            path: path.to_string(),
            selections: vec![Selection { start: pos(1, 1), end: pos(5, 10) }],
        }],
        regions: vec![region(path, content)],
    }
}

// ── net_change_diffs ────────────────────────────────────────────────────────

/// Multiple FileDiff events to the same path collapse: the first `old` and
/// last `new` survive, with the latest timestamp.
#[test]
fn net_change_diffs_collapses_same_path() {
    let diffs = vec![
        (ts(1.0), "a.rs".to_string(), "v0".to_string(), "v1".to_string()),
        (ts(2.0), "a.rs".to_string(), "v1".to_string(), "v2".to_string()),
        (ts(3.0), "a.rs".to_string(), "v2".to_string(), "v3".to_string()),
    ];
    let result = net_change_diffs(diffs);
    assert_eq!(result.len(), 1, "same-path diffs collapse to one entry");
    let (ts_out, path, old, new) = &result[0];
    assert_eq!(path, "a.rs");
    assert_eq!(old, "v0", "old is from the earliest diff");
    assert_eq!(new, "v3", "new is from the latest diff");
    assert_eq!(*ts_out, ts(3.0), "timestamp is from the latest diff");
}

/// Diffs to paths A, B, A produce output in insertion order: A then B.
#[test]
fn net_change_diffs_preserves_order() {
    let diffs = vec![
        (ts(1.0), "a.rs".to_string(), "a_old".to_string(), "a_mid".to_string()),
        (ts(2.0), "b.rs".to_string(), "b_old".to_string(), "b_new".to_string()),
        (ts(3.0), "a.rs".to_string(), "a_mid".to_string(), "a_new".to_string()),
    ];
    let result = net_change_diffs(diffs);
    assert_eq!(result.len(), 2, "two unique paths");
    assert_eq!(result[0].1, "a.rs", "a.rs first (insertion order)");
    assert_eq!(result[1].1, "b.rs", "b.rs second (insertion order)");
    assert_eq!(result[0].2, "a_old", "a.rs old from first diff");
    assert_eq!(result[0].3, "a_new", "a.rs new from last diff");
}

// ── collapse_ext_selections ─────────────────────────────────────────────────

/// Progressive ExternalSelection events from the same app+window merge.
#[test]
fn collapse_ext_forward_merge() {
    let events = vec![ext(1.0, "Safari", "Docs", "hello"), ext(2.0, "Safari", "Docs", "hello world")];
    let result = collapse_ext_selections(events);
    assert_eq!(result.len(), 1, "progressive selection forward-merged");
    if let Event::ExternalSelection { text, timestamp, .. } = &result[0] {
        assert_eq!(text, "hello world", "wider selection survives");
        assert_eq!(*timestamp, ts(2.0), "timestamp from the wider event");
    } else {
        panic!("expected ExternalSelection");
    }
}

/// A postexec ShellCommand removes its preexec entry, and forward-merges of
/// external selections still find their targets afterwards.
#[test]
fn collapse_ext_survives_shell_command_retain() {
    let events = vec![
        ext(1.0, "Safari", "Docs", "hello"),
        shell(2.0, "ls", "/tmp", None),
        shell(3.0, "ls", "/tmp", Some(0)),
        ext(4.0, "Safari", "Docs", "hello world"),
    ];
    let result = collapse_ext_selections(events);
    assert_eq!(result.len(), 2, "merged ExtSel + postexec ShellCommand");
    if let Event::ExternalSelection { text, .. } = &result[0] {
        assert_eq!(text, "hello world", "progressive selection forward-merged after retain");
    } else {
        panic!("expected ExternalSelection at index 0, got: {:?}", result[0]);
    }
    if let Event::ShellCommand { exit_status, cwd, .. } = &result[1] {
        assert_eq!(*exit_status, Some(0), "postexec survives");
        assert_eq!(cwd, "/tmp", "preexec cwd preserved on merged command");
    } else {
        panic!("expected ShellCommand at index 1, got: {:?}", result[1]);
    }
}

/// ExternalSelection events from different apps do not merge.
#[test]
fn collapse_ext_different_sources_no_merge() {
    let events = vec![ext(1.0, "Safari", "Docs", "hello"), ext(2.0, "Firefox", "Docs", "hello world")];
    let result = collapse_ext_selections(events);
    assert_eq!(result.len(), 2, "different apps do not merge");
}

/// A postexec takes its preexec's working directory.
#[test]
fn collapse_ext_postexec_takes_preexec_cwd() {
    let events = vec![shell(1.0, "cd ..", "/project", None), shell(2.0, "cd ..", "/", Some(0))];
    let result = collapse_ext_selections(events);
    assert_eq!(result.len(), 1);
    if let Event::ShellCommand { cwd, exit_status, timestamp, .. } = &result[0] {
        assert_eq!(cwd, "/project");
        assert_eq!(*exit_status, Some(0));
        assert_eq!(*timestamp, ts(2.0));
    } else {
        panic!("expected ShellCommand");
    }
}

/// Browser selections with the same url and text keep the latest, in place.
#[test]
fn collapse_ext_browser_dedup_keeps_latest() {
    let events = vec![
        browser(1.0, "https://a", "x", "x"),
        words(1.5, "between"),
        browser(2.0, "https://a", "x", "x"),
    ];
    let result = collapse_ext_selections(events);
    assert_eq!(result.len(), 2);
    assert!(matches!(&result[0], Event::BrowserSelection { timestamp, .. } if *timestamp == ts(2.0)));
    assert!(matches!(&result[1], Event::Words { .. }));
}

/// A narrower later selection starts a new chain: both survive.
#[test]
fn collapse_ext_narrower_starts_new_chain() {
    let events = vec![ext(1.0, "A", "W", "hello world"), ext(2.0, "A", "W", "hello")];
    let result = collapse_ext_selections(events);
    assert_eq!(result.len(), 2);
}

// ── dedup passes ────────────────────────────────────────────────────────────

/// An external selection reported by the browser within 500ms is dropped.
#[test]
fn dedup_browser_drops_matching_external() {
    let mut events = vec![browser(1.0, "https://a", "**hi**  there", "hi there"), ext(1.3, "Safari", "W", " hi\nthere ")];
    dedup_browser_vs_external(&mut events);
    assert_eq!(events.len(), 1);
    assert!(matches!(&events[0], Event::BrowserSelection { .. }));
}

/// Outside the window the external selection stays.
#[test]
fn dedup_browser_keeps_distant_external() {
    let mut events = vec![browser(1.0, "https://a", "hi", "hi"), ext(1.6, "Safari", "W", "hi")];
    dedup_browser_vs_external(&mut events);
    assert_eq!(events.len(), 2);
}

/// A browser event without plain text is compared by its markdown text.
#[test]
fn dedup_browser_falls_back_to_text() {
    let mut events = vec![ext(2.0, "Safari", "W", "hello"), browser(2.4, "https://a", "hello", "")];
    dedup_browser_vs_external(&mut events);
    assert_eq!(events.len(), 1);
}

/// Text clipboard captures that a selection reports are dropped; blank ones stay.
#[test]
fn dedup_clipboard_drops_reported_text() {
    let mut events = vec![
        ext(1.0, "A", "W", "some  text"),
        clip(2.0, "some text"),
        clip(3.0, "   "),
        clip(4.0, "other"),
        Event::ClipboardSelection {
            timestamp: ts(5.0),
            content: ClipboardContent::Image { path: "a.png".to_string() },
        },
    ];
    dedup_clipboard_selections(&mut events);
    assert_eq!(events.len(), 4);
    assert!(matches!(&events[1], Event::ClipboardSelection { content: ClipboardContent::Text { text }, .. } if text == "   "));
}

/// normalize_text collapses whitespace to single spaces and trims.
#[test]
fn normalize_text_collapses_whitespace() {
    assert_eq!(normalize_text("  a \t b\n\nc  "), "a b c");
    assert_eq!(normalize_text(""), "");
    assert_eq!(normalize_text(" \n "), "");
}

// ── subsumption ─────────────────────────────────────────────────────────────

/// A narrower selection is dropped when a wider one follows within the window.
#[test]
fn subsume_drops_narrower_within_window() {
    let mut events = vec![ext(1.0, "A", "W", "hel"), words(1.5, "and"), ext(2.5, "A", "W", "hello")];
    subsume_progressive_selections(&mut events);
    assert_eq!(events.len(), 2);
    assert!(matches!(&events[1], Event::ExternalSelection { text, .. } if text == "hello"));
}

/// Outside the window nothing is subsumed.
#[test]
fn subsume_keeps_beyond_window() {
    let mut events = vec![ext(1.0, "A", "W", "hel"), ext(3.5, "A", "W", "hello")];
    subsume_progressive_selections(&mut events);
    assert_eq!(events.len(), 2);
}

/// The window is measured from `last_seen` of the earlier event.
#[test]
fn subsume_uses_last_seen() {
    let mut events = vec![
        Event::ExternalSelection {
            timestamp: ts(1.0),
            last_seen: ts(3.0),
            app: "A".to_string(),
            window_title: "W".to_string(),
            text: "hel".to_string(),
        },
        ext(4.5, "A", "W", "hello"),
    ];
    subsume_progressive_selections(&mut events);
    assert_eq!(events.len(), 1);
}

/// A clipboard capture is subsumed by a wider external selection.
#[test]
fn subsume_clipboard_by_external() {
    let mut events = vec![clip(1.0, "foo"), ext(1.5, "A", "W", "foo bar")];
    subsume_progressive_selections(&mut events);
    assert_eq!(events.len(), 1);
    assert!(matches!(&events[0], Event::ExternalSelection { .. }));
}

/// Editor snapshots are subsumed when every region is covered.
#[test]
fn subsume_editor_snapshots_by_coverage() {
    let mut events = vec![selection_snap(1.0, "a.rs", "fn a"), selection_snap(1.5, "a.rs", "fn a() {}")];
    subsume_progressive_selections(&mut events);
    assert_eq!(events.len(), 1);
}

// ── cursor compression, union, sort ─────────────────────────────────────────

/// All cursor-only snapshots but the last are removed; selections stay.
#[test]
fn collapse_cursor_only_keeps_last_and_selections() {
    let mut run = vec![cursor_snap(1.0, "a.rs"), selection_snap(2.0, "b.rs", "sel"), cursor_snap(3.0, "c.rs")];
    collapse_cursor_only(&mut run);
    assert_eq!(run.len(), 2);
    assert!(matches!(&run[0], Event::EditorSnapshot { regions, .. } if regions[0].path == "b.rs"));
    assert!(matches!(&run[1], Event::EditorSnapshot { regions, .. } if regions[0].path == "c.rs"));
}

/// The union keeps each distinct region once and the last timestamps.
#[test]
fn union_snapshots_dedups_regions() {
    let snaps = vec![
        (ts(1.0), ts(1.0), vec![], vec![region("a.rs", "x"), region("b.rs", "y")]),
        (ts(2.0), ts(2.5), vec![], vec![region("a.rs", "x"), region("c.rs", "z")]),
    ];
    let (t, l, _files, regions) = union_snapshots(snaps).unwrap();
    assert_eq!(t, ts(2.0));
    assert_eq!(l, ts(2.5));
    let paths: Vec<&str> = regions.iter().map(|r| r.path.as_str()).collect();
    assert_eq!(paths, vec!["a.rs", "b.rs", "c.rs"]);
    assert!(union_snapshots(vec![]).is_none());
}

/// Sorting is stable for equal timestamps.
#[test]
fn sort_events_is_stable() {
    let sorted = sort_events(vec![words(2.0, "b"), words(1.0, "a"), words(2.0, "c")]);
    let texts: Vec<String> = sorted
        .iter()
        .map(|e| match e {
            Event::Words { text, .. } => text.clone(),
            _ => String::new(),
        })
        .collect();
    assert_eq!(texts, vec!["a", "b", "c"]);
}

/// A run's snapshots are unioned, diffs net-changed, and the result sorted.
#[test]
fn process_run_combines_parts() {
    let run = vec![
        selection_snap(1.0, "a.rs", "fn a()\n"),
        Event::FileDiff { timestamp: ts(1.5), path: "f.rs".to_string(), old: "1".to_string(), new: "2".to_string() },
        selection_snap(2.0, "b.rs", "fn b()\n"),
        Event::FileDiff { timestamp: ts(2.5), path: "f.rs".to_string(), old: "2".to_string(), new: "3".to_string() },
    ];
    let out = process_run(run);
    assert_eq!(out.len(), 2);
    match &out[0] {
        Event::EditorSnapshot { regions, timestamp, .. } => {
            assert_eq!(regions.len(), 2);
            assert_eq!(*timestamp, ts(2.0));
        }
        other => panic!("expected snapshot, got {other:?}"),
    }
    match &out[1] {
        Event::FileDiff { old, new, .. } => {
            assert_eq!(old, "1");
            assert_eq!(new, "3");
        }
        other => panic!("expected diff, got {other:?}"),
    }
}

// ── compress_and_merge ──────────────────────────────────────────────────────

/// Consecutive cursor-only snapshots compress to the last before speech, and
/// a trailing cursor-only snapshot after speech is dropped.
#[test]
fn compress_consecutive_cursor_snapshots() {
    let mut events = vec![
        cursor_snap(1.0, "a.rs"),
        cursor_snap(2.0, "b.rs"),
        cursor_snap(3.0, "c.rs"),
        words(4.0, "hello"),
        cursor_snap(5.0, "d.rs"),
    ];
    compress_and_merge(&mut events);
    assert_eq!(events.len(), 2);
    assert!(matches!(&events[0], Event::EditorSnapshot { regions, .. } if regions[0].path == "c.rs"));
    assert!(matches!(&events[1], Event::Words { .. }));
}

/// Without speech everything is kept, and events are put in time order.
#[test]
fn compress_code_only_keeps_trailing_cursor() {
    let mut events = vec![cursor_snap(3.0, "b.rs"), selection_snap(1.0, "a.rs", "sel")];
    compress_and_merge(&mut events);
    assert_eq!(events.len(), 1);
    match &events[0] {
        Event::EditorSnapshot { regions, timestamp, .. } => {
            assert_eq!(regions.len(), 2);
            assert_eq!(*timestamp, ts(3.0));
        }
        other => panic!("expected snapshot, got {other:?}"),
    }
}

/// Diffs of the same file between two utterances merge into one.
#[test]
fn compress_merges_diffs_between_words() {
    let mut events = vec![
        words(0.0, "before"),
        Event::FileDiff { timestamp: ts(1.0), path: "f.rs".to_string(), old: "a".to_string(), new: "b".to_string() },
        Event::FileDiff { timestamp: ts(2.0), path: "f.rs".to_string(), old: "b".to_string(), new: "c".to_string() },
        words(3.0, "after"),
    ];
    compress_and_merge(&mut events);
    assert_eq!(events.len(), 3);
    assert!(matches!(&events[1], Event::FileDiff { old, new, .. } if old == "a" && new == "c"));
}

/// Redaction markers pass through a run.
#[test]
fn compress_keeps_redaction_markers() {
    let mut events = vec![
        Event::Redacted { timestamp: ts(1.0), kind: RedactedKind::FileDiff, keys: vec!["x".to_string()] },
        words(2.0, "hi"),
    ];
    compress_and_merge(&mut events);
    assert_eq!(events.len(), 2);
}

fn diff_event(t: f64, path: &str, old: &str, new: &str) -> Event {
    Event::FileDiff { timestamp: ts(t), path: path.to_string(), old: old.to_string(), new: new.to_string() }
}

fn snapshot_paths(e: &Event) -> Vec<String> {
    match e {
        Event::EditorSnapshot { regions, .. } => regions.iter().map(|r| r.path.clone()).collect(),
        _ => Vec::new(),
    }
}

/// Selection (highlight) snapshots survive compression even between
/// cursor-only snapshots, and the survivors are united into one snapshot.
#[test]
fn compress_preserves_selection_snapshots() {
    let mut events = vec![cursor_snap(1.0, "a.rs"), selection_snap(2.0, "b.rs", "selected\n"), cursor_snap(3.0, "c.rs")];
    compress_and_merge(&mut events);
    assert_eq!(events.len(), 1, "both files in single merged snapshot");
    assert_eq!(snapshot_paths(&events[0]), vec!["b.rs".to_string(), "c.rs".to_string()]);
}

/// Diff events between cursor-only snapshots are preserved during compression.
#[test]
fn compress_keeps_diffs_between_snapshots() {
    let mut events =
        vec![cursor_snap(1.0, "a.rs"), diff_event(2.0, "changed.rs", "", "added\n"), cursor_snap(3.0, "b.rs")];
    compress_and_merge(&mut events);
    let all: Vec<String> = events.iter().flat_map(snapshot_paths).collect();
    assert!(!all.contains(&"a.rs".to_string()), "a.rs should be compressed away");
    assert!(all.contains(&"b.rs".to_string()), "b.rs should be kept (last in run)");
    assert!(events.iter().any(|e| matches!(e, Event::FileDiff { path, .. } if path == "changed.rs")));
}

/// Adjacent selection snapshots are merged into a single snapshot with all files.
#[test]
fn tests_merge_snapshots_union() {
    check_merge_snapshots_union();
}

#[test]
fn compress_merge_snapshots_union() {
    check_merge_snapshots_union();
}

fn check_merge_snapshots_union() {
    let mut events = vec![selection_snap(1.0, "a.rs", "fn a()\n"), selection_snap(2.0, "b.rs", "fn b()\n")];
    compress_and_merge(&mut events);
    assert_eq!(events.len(), 1);
    match &events[0] {
        Event::EditorSnapshot { regions, .. } => {
            assert_eq!(regions[0].content, "fn a()\n");
            assert_eq!(regions[1].content, "fn b()\n");
        },
        other => panic!("expected snapshot, got {other:?}"),
    }
}

/// Consecutive diffs to the same file merge into a single net-change diff.
#[test]
fn tests_merge_diffs_net_change() {
    check_merge_diffs_net_change();
}

#[test]
fn compress_merge_diffs_net_change() {
    check_merge_diffs_net_change();
}

fn check_merge_diffs_net_change() {
    let mut events = vec![
        words(0.0, "before"),
        diff_event(1.0, "f.rs", "aaa\nbbb\nccc\n", "aaa\nBBB\nccc\n"),
        diff_event(2.0, "f.rs", "aaa\nBBB\nccc\n", "aaa\nBBB\nCCC\n"),
        words(3.0, "after"),
    ];
    compress_and_merge(&mut events);
    let diffs: Vec<&Event> = events.iter().filter(|e| matches!(e, Event::FileDiff { .. })).collect();
    assert_eq!(diffs.len(), 1, "should produce one merged diff");
    match diffs[0] {
        Event::FileDiff { old, new, .. } => {
            assert_eq!(old, "aaa\nbbb\nccc\n");
            assert_eq!(new, "aaa\nBBB\nCCC\n");
        },
        _ => unreachable!(),
    }
}

/// A change followed by its exact revert leaves an empty net change.
#[test]
fn tests_merge_diffs_cancelled_change_disappears() {
    check_merge_diffs_cancelled();
}

#[test]
fn compress_merge_diffs_cancelled_change_disappears() {
    check_merge_diffs_cancelled();
}

fn check_merge_diffs_cancelled() {
    let mut events =
        vec![diff_event(1.0, "f.rs", "original\n", "changed\n"), diff_event(2.0, "f.rs", "changed\n", "original\n")];
    compress_and_merge(&mut events);
    assert_eq!(events.len(), 1);
    match &events[0] {
        Event::FileDiff { old, new, .. } => assert_eq!(old, new, "reverted change has no net change"),
        other => panic!("expected diff, got {other:?}"),
    }
}

/// Same scenario as `compress_consecutive_cursor_snapshots`, as stated for
/// the compression pass on its own.
#[test]
fn consecutive_cursor_snapshots() {
    compress_consecutive_cursor_snapshots();
}

#[test]
fn preserves_selection_snapshots() {
    compress_preserves_selection_snapshots();
}

#[test]
fn keeps_diffs_between_snapshots() {
    compress_keeps_diffs_between_snapshots();
}

/// Merging is not idempotent: a selection that started a new chain and was
/// then extended is merged away, but the earlier, wider selection of the
/// first chain is only joined to the extension when the result is merged
/// again.
#[test]
fn merging_again_can_join_further() {
    let mut events = vec![
        ext(0.0, "Safari", "Docs", "ab"),
        ext(100.0, "Safari", "Docs", "a"),
        ext(200.0, "Safari", "Docs", "abc"),
    ];
    compress_and_merge(&mut events);
    assert_eq!(events.len(), 2);
    compress_and_merge(&mut events);
    assert_eq!(events.len(), 1);
}
