use attend::filter::{filter_events, sort_dedup_strings};
use attend::merge::{compress_and_merge, process_run, sort_events, CapturedRegion, Event};
use attend::model::{FileEntry, Position, Selection};
use attend::narrate::{lock_file_content, parse_lock_content};

fn ts(secs: f64) -> i64 {
    (secs * 1000.0) as i64 * 1_000_000
}

fn words(t: f64, text: &str) -> Event {
    Event::Words { timestamp: ts(t), text: text.to_string() }
}

fn snap(t: f64, path: &str, content: &str, cursor: bool) -> Event {
    let start = Position { line: 1, col: 1 };
    let end = if cursor { start } else { Position { line: 1, col: 4 } };
    Event::EditorSnapshot {
        timestamp: ts(t),
        last_seen: ts(t),
        files: vec![FileEntry { path: path.to_string(), selections: vec![Selection { start, end }] }],
        regions: vec![CapturedRegion {
            path: path.to_string(),
            content: content.to_string(),
            first_line: 1,
            selections: vec![],
            language: None,
        }],
    }
}

fn diff(t: f64, path: &str, old: &str, new: &str) -> Event {
    Event::FileDiff { timestamp: ts(t), path: path.to_string(), old: old.to_string(), new: new.to_string() }
}

fn timestamp(e: &Event) -> i64 {
    match e {
        Event::Words { timestamp, .. }
        | Event::EditorSnapshot { timestamp, .. }
        | Event::FileDiff { timestamp, .. }
        | Event::ExternalSelection { timestamp, .. }
        | Event::BrowserSelection { timestamp, .. }
        | Event::ShellCommand { timestamp, .. }
        | Event::ClipboardSelection { timestamp, .. }
        | Event::Redacted { timestamp, .. } => *timestamp,
    }
}

fn spoken(events: &[Event]) -> Vec<String> {
    events
        .iter()
        .filter_map(|e| match e {
            Event::Words { text, .. } => Some(text.clone()),
            _ => None,
        })
        .collect()
}

fn mixed_events() -> Vec<Event> {
    vec![
        diff(4.0, "/p/a.rs", "a", "b"),
        words(3.0, "second"),
        snap(1.0, "/p/a.rs", "x\n", true),
        words(0.5, "first"),
        snap(1.5, "/p/b.rs", "y\n", false),
        diff(2.0, "/p/a.rs", "0", "a"),
        snap(3.5, "/p/a.rs", "x\n", true),
        words(5.0, "third"),
        snap(6.0, "/p/c.rs", "z\n", true),
    ]
}

#[test]
fn merge_keeps_speech_in_order() {
    let mut events = mixed_events();
    compress_and_merge(&mut events);
    assert_eq!(spoken(&events), vec!["first", "second", "third"]);
}

#[test]
fn merge_output_is_chronological() {
    let mut events = mixed_events();
    compress_and_merge(&mut events);
    let times: Vec<i64> = events.iter().map(timestamp).collect();
    let mut sorted = times.clone();
    sorted.sort();
    assert_eq!(times, sorted);
    let inputs: Vec<i64> = mixed_events().iter().map(timestamp).collect();
    assert!(times.iter().all(|t| inputs.contains(t)));
}

#[test]
fn sort_is_a_chronological_permutation() {
    let sorted = sort_events(mixed_events());
    assert_eq!(sorted.len(), mixed_events().len());
    let times: Vec<i64> = sorted.iter().map(timestamp).collect();
    assert_eq!(times, vec![ts(0.5), ts(1.0), ts(1.5), ts(2.0), ts(3.0), ts(3.5), ts(4.0), ts(5.0), ts(6.0)]);
}

#[test]
fn run_keeps_one_snapshot() {
    let run = vec![
        snap(1.0, "/p/a.rs", "x\n", false),
        diff(1.5, "/p/a.rs", "0", "1"),
        snap(2.0, "/p/b.rs", "y\n", false),
        snap(3.0, "/p/c.rs", "z\n", true),
    ];
    let out = process_run(run);
    let snapshots: Vec<&Event> = out.iter().filter(|e| matches!(e, Event::EditorSnapshot { .. })).collect();
    assert_eq!(snapshots.len(), 1);
    match snapshots[0] {
        Event::EditorSnapshot { regions, timestamp, .. } => {
            assert_eq!(regions.len(), 3);
            assert_eq!(*timestamp, ts(3.0));
        },
        _ => unreachable!(),
    }
}

#[test]
fn marker_keys_sorted_without_duplicates() {
    let keys = vec!["/b.rs".to_string(), "/a.rs".to_string(), "/b.rs".to_string(), "/a.rs/x".to_string()];
    assert_eq!(sort_dedup_strings(keys), vec!["/a.rs", "/a.rs/x", "/b.rs"]);
}

#[test]
fn lock_content_round_trip() {
    let content = lock_file_content(4242, 1_700_000_123);
    assert_eq!(content, "4242:1700000123\n");
    assert_eq!(parse_lock_content(&content), Some((4242, Some(1_700_000_123))));
    assert_eq!(parse_lock_content("  17\n"), Some((17, None)));
    assert_eq!(parse_lock_content("17:"), None);
    assert_eq!(parse_lock_content("x:1"), None);
}

/// Signed values and the legacy bare PID read back as written.
#[test]
fn lock_content_parse_signed_and_legacy() {
    for (pid, ts) in [(-5i32, -7i64), (i32::MIN, i64::MIN), (i32::MAX, i64::MAX), (0, 0)] {
        assert_eq!(parse_lock_content(&format!("{pid}:{ts}")), Some((pid, Some(ts))));
        assert_eq!(parse_lock_content(&pid.to_string()), Some((pid, None)));
    }
}

/// After filtering, every path left lies in the project and the words are
/// the words recorded.
#[test]
fn filtered_events_stay_in_scope_and_keep_words() {
    let mut events = vec![
        words(0.0, "look"),
        snap(1.0, "/other/x.rs", "x", false),
        diff(2.0, "/other/y.rs", "a", "b"),
        snap(3.0, "/project/src/a.rs", "a", true),
        diff(4.0, "/project/src/a.rs", "1", "2"),
        words(5.0, "here"),
    ];
    filter_events(&mut events, "/project", &Vec::new());
    let said: Vec<&str> = events
        .iter()
        .filter_map(|e| match e {
            Event::Words { text, .. } => Some(text.as_str()),
            _ => None,
        })
        .collect();
    assert_eq!(said, vec!["look", "here"]);
    for e in &events {
        match e {
            Event::EditorSnapshot { regions, files, .. } => {
                assert!(regions.iter().all(|r| r.path.starts_with("/project/")));
                assert!(files.iter().all(|f| f.path.starts_with("/project/")));
            },
            Event::FileDiff { path, .. } => assert!(path.starts_with("/project/")),
            _ => {},
        }
    }
    assert_eq!(events.iter().filter(|e| matches!(e, Event::Redacted { .. })).count(), 2);
}

/// Merging never adds events.
#[test]
fn merge_never_adds_events() {
    let inputs = vec![
        vec![],
        vec![words(0.0, "a")],
        vec![snap(1.0, "/p/a.rs", "a", true), snap(2.0, "/p/b.rs", "b", false), diff(3.0, "/p/a.rs", "1", "2")],
        vec![diff(1.0, "/p/a.rs", "1", "2"), words(2.0, "x"), diff(3.0, "/p/a.rs", "2", "3"), diff(4.0, "/p/a.rs", "3", "4")],
    ];
    for events in inputs {
        let n = events.len();
        let mut merged = events.clone();
        compress_and_merge(&mut merged);
        assert!(merged.len() <= n);
    }
}
