use attend::filter::{collapse_redacted, filter_events, relativize_events};
use attend::merge::{CapturedRegion, ClipboardContent, Event, RedactedKind};
use attend::narrate::{collect_pending, prepare_pending};

/// Seconds to a timestamp in nanoseconds since the epoch.
fn ts(secs: f64) -> i64 {
    (secs * 1000.0) as i64 * 1_000_000
}

fn region(path: &str, content: &str) -> CapturedRegion {
    CapturedRegion {
        path: path.to_string(),
        content: content.to_string(),
        first_line: 1,
        selections: vec![],
        language: None,
    }
}

fn shell(t: f64, shell: &str, command: &str, cwd: &str, secs: f64) -> Event {
    Event::ShellCommand {
        timestamp: ts(t),
        shell: shell.to_string(),
        command: command.to_string(),
        cwd: cwd.to_string(),
        exit_status: Some(0),
        duration_secs_bits: Some(secs.to_bits()),
    }
}

fn diff(t: f64, path: &str, old: &str, new: &str) -> Event {
    Event::FileDiff {
        timestamp: ts(t),
        path: path.to_string(),
        old: old.to_string(),
        new: new.to_string(),
    }
}

fn strings(items: &[&str]) -> Vec<String> {
    items.iter().map(|s| s.to_string()).collect()
}

#[test]
fn collect_pending_empty_dir() {
    let files = collect_pending(Vec::new(), Vec::new());
    assert!(files.is_empty());
}

#[test]
fn collect_pending_keeps_json_sorted() {
    let session = strings(&[
        "/c/pending/s/2026-02-18T10-00-02Z.json",
        "/c/pending/s/notes.txt",
        "/c/pending/s/2026-02-18T10-00-01Z.json",
    ]);
    let local = strings(&["/c/pending/_local/2026-02-18T10-00-00Z.json", "/c/pending/_local/.json"]);
    let files = collect_pending(session, local);
    assert_eq!(
        files,
        strings(&[
            "/c/pending/_local/2026-02-18T10-00-00Z.json",
            "/c/pending/s/2026-02-18T10-00-01Z.json",
            "/c/pending/s/2026-02-18T10-00-02Z.json",
        ])
    );
}

#[test]
fn collect_pending_sorts_by_components() {
    // Component order puts "a" before "a-b", though '-' sorts before '/'.
    let files = collect_pending(strings(&["/p/a-b/x.json", "/p/a/x.json"]), Vec::new());
    assert_eq!(files, strings(&["/p/a/x.json", "/p/a-b/x.json"]));
}

#[test]
fn filter_events_keeps_words() {
    let mut events = vec![Event::Words { timestamp: ts(0.0), text: "hello".to_string() }];
    filter_events(&mut events, "/project", &Vec::new());
    assert_eq!(events.len(), 1);
}

#[test]
fn filter_events_redacts_outside_diff() {
    let mut events = vec![diff(0.0, "/other/file.rs", "a\n", "b\n")];
    filter_events(&mut events, "/project", &Vec::new());
    assert_eq!(events.len(), 1, "should have one Redacted event");
    assert!(
        matches!(
            &events[0],
            Event::Redacted { kind: RedactedKind::FileDiff, keys, .. } if keys == &["/other/file.rs"]
        ),
        "should be a Redacted FileDiff with the filtered path"
    );
}

#[test]
fn filter_events_keeps_ext_selection() {
    let mut events = vec![Event::ExternalSelection {
        timestamp: ts(0.0),
        last_seen: ts(0.0),
        app: "iTerm2".to_string(),
        window_title: "~/other-project".to_string(),
        text: "error message".to_string(),
    }];
    filter_events(&mut events, "/project", &Vec::new());
    assert_eq!(events.len(), 1, "external selection should pass through");
}

#[test]
fn filter_events_keeps_browser_selection() {
    let mut events = vec![Event::BrowserSelection {
        timestamp: ts(0.0),
        last_seen: ts(0.0),
        url: "https://example.com".to_string(),
        title: "Example Page".to_string(),
        text: "some text".to_string(),
        plain_text: "some text".to_string(),
    }];
    filter_events(&mut events, "/project", &Vec::new());
    assert_eq!(events.len(), 1, "browser selection should pass through");
}

#[test]
fn relativize_events_strips_prefix() {
    let mut events = vec![
        Event::EditorSnapshot {
            timestamp: ts(0.0),
            last_seen: ts(0.0),
            files: vec![],
            regions: vec![region("/project/src/lib.rs", "code\n")],
        },
        diff(1.0, "/project/src/main.rs", "a\n", "b\n"),
    ];
    relativize_events(&mut events, "/project");
    if let Event::EditorSnapshot { regions, .. } = &events[0] {
        assert_eq!(regions[0].path, "src/lib.rs");
    } else {
        panic!("expected EditorSnapshot");
    }
    if let Event::FileDiff { path, .. } = &events[1] {
        assert_eq!(path, "src/main.rs");
    } else {
        panic!("expected FileDiff");
    }
}

#[test]
fn filter_events_keeps_shell_command_inside_cwd() {
    let mut events = vec![shell(0.0, "fish", "cargo test", "/project/src", 2.5)];
    filter_events(&mut events, "/project", &Vec::new());
    assert_eq!(events.len(), 1, "shell command inside cwd should pass");
}

#[test]
fn filter_events_redacts_shell_command_outside_cwd() {
    let mut events = vec![shell(0.0, "zsh", "ls", "/other-project", 0.1)];
    filter_events(&mut events, "/project", &Vec::new());
    assert_eq!(events.len(), 1, "should have one Redacted event");
    assert!(
        matches!(
            &events[0],
            Event::Redacted { kind: RedactedKind::ShellCommand, keys, .. } if keys == &["ls"]
        ),
        "should be a Redacted ShellCommand with the command text"
    );
}

#[test]
fn relativize_events_strips_shell_command_cwd() {
    let mut events = vec![shell(0.0, "fish", "cargo build", "/project/src/lib", 5.0)];
    relativize_events(&mut events, "/project");
    if let Event::ShellCommand { cwd, .. } = &events[0] {
        assert_eq!(cwd, "src/lib", "cwd should be relativized");
    } else {
        panic!("expected ShellCommand");
    }
}

#[test]
fn relativize_events_shell_command_at_root() {
    let mut events = vec![shell(0.0, "fish", "cargo fmt", "/project", 0.3)];
    relativize_events(&mut events, "/project");
    if let Event::ShellCommand { cwd, .. } = &events[0] {
        assert!(cwd.is_empty(), "project root should relativize to empty string");
    } else {
        panic!("expected ShellCommand");
    }
}

#[test]
fn filter_events_keeps_shell_command_in_include_dirs() {
    let extra_dirs = strings(&["/shared"]);
    let mut events = vec![shell(0.0, "zsh", "make", "/shared/build", 1.0)];
    filter_events(&mut events, "/project", &extra_dirs);
    assert_eq!(events.len(), 1, "shell command in include_dirs should pass");
}

#[test]
fn clipboard_passes_through_filter() {
    let mut events = vec![Event::ClipboardSelection {
        timestamp: ts(0.0),
        content: ClipboardContent::Text { text: "copied text".to_string() },
    }];
    filter_events(&mut events, "/project", &Vec::new());
    assert_eq!(events.len(), 1, "clipboard selection should pass through filter");
    assert!(matches!(events[0], Event::ClipboardSelection { .. }));
}

#[test]
fn clipboard_not_relativized() {
    let image = "/Users/oxide/.cache/attend/clipboard-staging/12345.png";
    let mut events = vec![Event::ClipboardSelection {
        timestamp: ts(0.0),
        content: ClipboardContent::Image { path: image.to_string() },
    }];
    relativize_events(&mut events, "/project");
    match &events[0] {
        Event::ClipboardSelection { content: ClipboardContent::Image { path }, .. } => {
            assert_eq!(path, image, "clipboard image path should not be relativized");
        },
        other => panic!("expected ClipboardSelection, got {other:?}"),
    }
}

#[test]
fn filter_events_partial_editor_snapshot_redaction() {
    let mut events = vec![Event::EditorSnapshot {
        timestamp: ts(0.0),
        last_seen: ts(0.0),
        files: vec![],
        regions: vec![
            region("/project/src/main.rs", "fn main() {}\n"),
            region("/other/lib.rs", "fn other() {}\n"),
            region("/elsewhere/util.rs", "fn util() {}\n"),
        ],
    }];
    filter_events(&mut events, "/project", &Vec::new());
    assert_eq!(events.len(), 2, "surviving snapshot + redacted marker");
    assert!(
        matches!(&events[0], Event::EditorSnapshot { regions, .. } if regions.len() == 1),
        "one region should survive"
    );
    assert!(
        matches!(
            &events[1],
            Event::Redacted { kind: RedactedKind::EditorSnapshot, keys, .. } if keys.len() == 2
        ),
        "two distinct files should be redacted"
    );
}

#[test]
fn collapse_redacted_merges_adjacent_same_kind() {
    let mut events = vec![
        diff(0.0, "/other/a.rs", "a", "b"),
        diff(1.0, "/other/a.rs", "b", "c"),
        diff(2.0, "/other/b.rs", "x", "y"),
    ];
    filter_events(&mut events, "/project", &Vec::new());
    assert_eq!(events.len(), 1, "three diffs should collapse into one Redacted");
    match &events[0] {
        Event::Redacted { kind, keys, .. } => {
            assert_eq!(*kind, RedactedKind::FileDiff);
            assert_eq!(keys.len(), 2, "two distinct file paths after dedup");
        },
        other => panic!("expected Redacted, got {other:?}"),
    }
}

#[test]
fn collapse_redacted_reorders_interleaved_kinds() {
    let mut events = vec![
        Event::EditorSnapshot {
            timestamp: ts(0.0),
            last_seen: ts(0.0),
            files: vec![],
            regions: vec![region("/other/a.rs", "fn a() {}\n")],
        },
        shell(1.0, "fish", "ls", "/other", 0.1),
        Event::EditorSnapshot {
            timestamp: ts(2.0),
            last_seen: ts(2.0),
            files: vec![],
            regions: vec![region("/other/b.rs", "fn b() {}\n")],
        },
    ];
    filter_events(&mut events, "/project", &Vec::new());
    assert_eq!(events.len(), 2, "interleaved kinds should reorder into 2 groups");
    assert!(
        matches!(
            &events[0],
            Event::Redacted { kind: RedactedKind::EditorSnapshot, keys, .. } if keys.len() == 2
        ),
        "first should be EditorSnapshot with 2 files"
    );
    assert!(
        matches!(
            &events[1],
            Event::Redacted { kind: RedactedKind::ShellCommand, keys, .. } if keys.len() == 1
        ),
        "second should be ShellCommand with 1 command"
    );
}

#[test]
fn collapse_redacted_keeps_first_timestamp_and_sorted_keys() {
    let mut events = vec![
        Event::Redacted { timestamp: ts(3.0), kind: RedactedKind::FileDiff, keys: strings(&["/b.rs"]) },
        Event::Redacted { timestamp: ts(4.0), kind: RedactedKind::FileDiff, keys: strings(&["/a.rs", "/b.rs"]) },
        Event::Words { timestamp: ts(5.0), text: "x".to_string() },
        Event::Redacted { timestamp: ts(6.0), kind: RedactedKind::FileDiff, keys: strings(&["/c.rs"]) },
    ];
    collapse_redacted(&mut events);
    assert_eq!(
        events,
        vec![
            Event::Redacted { timestamp: ts(3.0), kind: RedactedKind::FileDiff, keys: strings(&["/a.rs", "/b.rs"]) },
            Event::Words { timestamp: ts(5.0), text: "x".to_string() },
            Event::Redacted { timestamp: ts(6.0), kind: RedactedKind::FileDiff, keys: strings(&["/c.rs"]) },
        ]
    );
}

#[test]
fn read_pending_empty() {
    assert!(prepare_pending(Vec::new(), Some("/project"), &Vec::new()).is_none());
}

#[test]
fn read_pending_redaction_only_returns_none() {
    let batches = vec![vec![diff(0.0, "/other/file.rs", "a\n", "b\n")]];
    assert!(prepare_pending(batches, Some("/project"), &Vec::new()).is_none());
}

#[test]
fn read_pending_keeps_redaction_marker_beside_words() {
    let batches = vec![vec![
        Event::Words { timestamp: ts(0.0), text: "look at this".to_string() },
        diff(1.0, "/other/file.rs", "a\n", "b\n"),
    ]];
    let events = prepare_pending(batches, Some("/project"), &Vec::new()).unwrap();
    assert_eq!(events.len(), 2);
    assert!(matches!(&events[1], Event::Redacted { kind: RedactedKind::FileDiff, .. }));
}

#[test]
fn read_pending_drops_leading_snapshot_only() {
    let snap = |t: f64| Event::EditorSnapshot {
        timestamp: ts(t),
        last_seen: ts(t),
        files: vec![],
        regions: vec![region("/project/src/lib.rs", "code\n")],
    };
    let batches = vec![
        vec![snap(0.0), Event::Words { timestamp: ts(1.0), text: "one".to_string() }],
        vec![snap(2.0)],
    ];
    let events = prepare_pending(batches, Some("/project"), &Vec::new()).unwrap();
    assert_eq!(events.len(), 2);
    assert!(matches!(&events[0], Event::Words { .. }));
    match &events[1] {
        Event::EditorSnapshot { regions, .. } => assert_eq!(regions[0].path, "src/lib.rs"),
        other => panic!("expected EditorSnapshot, got {other:?}"),
    }
}

#[test]
fn read_pending_without_cwd_keeps_absolute_paths() {
    let batches = vec![vec![diff(0.0, "/other/file.rs", "a\n", "b\n")]];
    let events = prepare_pending(batches, None, &Vec::new()).unwrap();
    assert!(matches!(&events[0], Event::FileDiff { path, .. } if path == "/other/file.rs"));
}

/// Only the `.json` files of a pending directory are collected, sorted.
#[test]
fn collect_pending_dir_returns_sorted_json() {
    let files = collect_pending(strings(&["/d/b.json", "/d/a.json", "/d/c.txt"]), Vec::new());
    assert_eq!(files.len(), 2, "should find only .json files");
    assert_eq!(files, strings(&["/d/a.json", "/d/b.json"]));
}

/// A directory that could not be listed contributes nothing.
#[test]
fn collect_pending_dir_missing_dir() {
    let files = collect_pending(Vec::new(), Vec::new());
    assert!(files.is_empty());
}

/// The files of the session and those recorded without one are collected
/// together, and their narrations are delivered together.
#[test]
fn collect_pending_merges_session_and_local() {
    let session_file = "/c/pending/merge-test-session/2026-02-18T10-00-01Z.json".to_string();
    let local_file = "/c/pending/_local/2026-02-18T10-00-00Z.json".to_string();
    let files = collect_pending(vec![session_file.clone()], vec![local_file.clone()]);
    assert_eq!(files.len(), 2);
    // Each file's events, as read from it.
    let batch = |f: &String| {
        if *f == session_file {
            vec![Event::Words { timestamp: ts(1.0), text: "session narration".to_string() }]
        } else {
            vec![Event::Words { timestamp: ts(0.0), text: "local narration".to_string() }]
        }
    };
    let batches: Vec<Vec<Event>> = files.iter().map(batch).collect();
    let events = prepare_pending(batches, Some("/project"), &Vec::new()).unwrap();
    let said: Vec<String> = events
        .iter()
        .filter_map(|e| match e {
            Event::Words { text, .. } => Some(text.clone()),
            _ => None,
        })
        .collect();
    assert!(said.contains(&"local narration".to_string()), "_local narration should be included");
    assert!(said.contains(&"session narration".to_string()), "session narration should be included");
}
