use attend::event_text::{clock_string, preview_string, render_changes, unified_diff, LineTag};
use attend::merge::{CapturedRegion, ClipboardContent, Event, RedactedKind};

/// Seconds to a timestamp in nanoseconds since the epoch.
fn ts(secs: f64) -> i64 {
    (secs * 1000.0) as i64 * 1_000_000
}

fn region(path: &str, content: &str) -> CapturedRegion {
    CapturedRegion {
        path: path.into(),
        content: content.into(),
        first_line: 1,
        selections: vec![],
        language: None,
    }
}

/// Words display includes HH:MM:SS timestamp and text preview.
#[test]
fn words_shows_timestamp_and_text() {
    let event = Event::Words { timestamp: ts(3661.0), text: "hello world".into() };
    assert_eq!(event.display_string(), r#"Words[01:01:01]: "hello world""#);
}

/// Words display truncates text longer than 40 characters with "...".
#[test]
fn words_truncates_long_text() {
    let event = Event::Words { timestamp: ts(0.0), text: "a".repeat(50) };
    let display = event.display_string();
    assert!(display.ends_with("...\""), "expected trailing ...: {display}");
    assert!(display.contains(&"a".repeat(40)), "expected 40 chars of content");
    assert!(!display.contains(&"a".repeat(41)), "should not contain 41 chars");
}

/// Words display does not truncate text at exactly 40 characters.
#[test]
fn words_exact_40_no_truncation() {
    let exact = "b".repeat(40);
    let event = Event::Words { timestamp: ts(0.0), text: exact.clone() };
    let display = event.display_string();
    assert!(!display.contains("..."), "40-char text should not be truncated: {display}");
    assert!(display.contains(&exact));
}

/// EditorSnapshot display shows region count.
#[test]
fn editor_snapshot_shows_region_count() {
    let event = Event::EditorSnapshot {
        timestamp: ts(7200.0),
        last_seen: ts(7200.0),
        files: vec![],
        regions: vec![region("a.rs", "fn a() {}"), region("b.rs", "fn b() {}")],
    };
    assert_eq!(event.display_string(), "EditorSnapshot[02:00:00]: 2 region(s)");
}

/// FileDiff display shows the file path.
#[test]
fn file_diff_shows_path() {
    let event = Event::FileDiff {
        timestamp: ts(0.0),
        path: "src/main.rs".into(),
        old: String::new(),
        new: String::new(),
    };
    assert_eq!(event.display_string(), "FileDiff[00:00:00]: src/main.rs");
}

/// ExternalSelection display shows app + window title.
#[test]
fn external_selection_shows_app_and_window() {
    let event = Event::ExternalSelection {
        timestamp: ts(3600.0),
        last_seen: ts(3600.0),
        app: "Firefox".into(),
        window_title: "Rust docs".into(),
        text: "some selected text".into(),
    };
    assert_eq!(event.display_string(), "ExternalSelection[01:00:00]: Firefox - Rust docs");
}

/// BrowserSelection display shows title and URL.
#[test]
fn browser_selection_shows_title_and_url() {
    let event = Event::BrowserSelection {
        timestamp: ts(0.0),
        last_seen: ts(0.0),
        url: "https://doc.rust-lang.org".into(),
        title: "std docs".into(),
        text: "selected".into(),
        plain_text: "selected".into(),
    };
    assert_eq!(
        event.display_string(),
        "BrowserSelection[00:00:00]: std docs (https://doc.rust-lang.org)"
    );
}

/// ShellCommand display shows the exit status.
#[test]
fn shell_command_with_exit_status() {
    let event = Event::ShellCommand {
        timestamp: ts(0.0),
        shell: "fish".into(),
        command: "cargo test".into(),
        cwd: "/home/user".into(),
        exit_status: Some(0),
        duration_secs_bits: Some(1.5f64.to_bits()),
    };
    assert_eq!(event.display_string(), r#"ShellCommand[00:00:00]: "cargo test" (exit 0)"#);
}

/// ShellCommand display shows "(running)" for preexec-only events.
#[test]
fn shell_command_running() {
    let event = Event::ShellCommand {
        timestamp: ts(0.0),
        shell: "zsh".into(),
        command: "make".into(),
        cwd: "/tmp".into(),
        exit_status: None,
        duration_secs_bits: None,
    };
    assert_eq!(event.display_string(), r#"ShellCommand[00:00:00]: "make" (running)"#);
}

/// ShellCommand display truncates commands longer than 40 characters.
#[test]
fn shell_command_truncates_long_command() {
    let event = Event::ShellCommand {
        timestamp: ts(0.0),
        shell: "fish".into(),
        command: "x".repeat(50),
        cwd: "/tmp".into(),
        exit_status: Some(1),
        duration_secs_bits: Some(0.1f64.to_bits()),
    };
    let display = event.display_string();
    assert!(display.contains("..."), "long command should be truncated");
    assert!(display.contains(&"x".repeat(40)));
    assert!(!display.contains(&"x".repeat(41)));
}

/// A negative exit status is shown with its sign.
#[test]
fn shell_command_negative_exit() {
    let event = Event::ShellCommand {
        timestamp: ts(0.0),
        shell: "fish".into(),
        command: "x".into(),
        cwd: "/".into(),
        exit_status: Some(-2),
        duration_secs_bits: None,
    };
    assert_eq!(event.display_string(), r#"ShellCommand[00:00:00]: "x" (exit -2)"#);
}

/// ClipboardSelection text variant shows content type and text preview.
#[test]
fn clipboard_text_shows_content_type() {
    let event = Event::ClipboardSelection {
        timestamp: ts(0.0),
        content: ClipboardContent::Text { text: "copied text".into() },
    };
    assert_eq!(event.display_string(), r#"ClipboardSelection[00:00:00]: text "copied text""#);
}

/// ClipboardSelection image variant shows content type and image path.
#[test]
fn clipboard_image_shows_content_type() {
    let event = Event::ClipboardSelection {
        timestamp: ts(0.0),
        content: ClipboardContent::Image { path: "/tmp/clip.png".into() },
    };
    assert_eq!(event.display_string(), "ClipboardSelection[00:00:00]: image /tmp/clip.png");
}

/// ClipboardSelection text variant truncates long text.
#[test]
fn clipboard_text_truncates() {
    let event = Event::ClipboardSelection {
        timestamp: ts(0.0),
        content: ClipboardContent::Text { text: "z".repeat(45) },
    };
    let display = event.display_string();
    assert!(display.contains("..."), "long clipboard text should be truncated");
    assert!(display.contains(&"z".repeat(40)));
    assert!(!display.contains(&"z".repeat(41)));
}

/// Redacted display includes timestamp and the kind of event that was redacted.
#[test]
fn redacted_shows_kind() {
    let event = Event::Redacted {
        timestamp: ts(0.0),
        kind: RedactedKind::FileDiff,
        keys: vec!["src/lib.rs".into()],
    };
    assert_eq!(event.display_string(), "Redacted[00:00:00]: FileDiff");
}

/// All variants include an HH:MM:SS timestamp in their display output.
#[test]
fn all_variants_include_timestamp() {
    let t = ts(45296.0);
    let events = vec![
        Event::Words { timestamp: t, text: "hi".into() },
        Event::EditorSnapshot { timestamp: t, last_seen: t, files: vec![], regions: vec![] },
        Event::FileDiff { timestamp: t, path: "f.rs".into(), old: String::new(), new: String::new() },
        Event::ExternalSelection {
            timestamp: t,
            last_seen: t,
            app: "app".into(),
            window_title: "win".into(),
            text: "sel".into(),
        },
        Event::BrowserSelection {
            timestamp: t,
            last_seen: t,
            url: "https://x".into(),
            title: "t".into(),
            text: "s".into(),
            plain_text: "s".into(),
        },
        Event::ShellCommand {
            timestamp: t,
            shell: "fish".into(),
            command: "ls".into(),
            cwd: "/".into(),
            exit_status: Some(0),
            duration_secs_bits: Some(0.0f64.to_bits()),
        },
        Event::ClipboardSelection { timestamp: t, content: ClipboardContent::Text { text: "clip".into() } },
        Event::Redacted { timestamp: t, kind: RedactedKind::ShellCommand, keys: vec![] },
    ];
    for event in &events {
        let display = event.display_string();
        assert!(display.contains("12:34:56"), "missing timestamp in: {display}");
    }
}

/// Instants before the epoch still give the time of day.
#[test]
fn clock_before_epoch() {
    assert_eq!(clock_string(-1_000_000_000), "23:59:59");
    assert_eq!(clock_string(0), "00:00:00");
    assert_eq!(clock_string(86_399_999_999_999), "23:59:59");
}

/// Previews keep multi-byte characters whole.
#[test]
fn preview_counts_characters() {
    let s = "é".repeat(41);
    let p = preview_string(&s);
    assert_eq!(p, format!("{}...", "é".repeat(40)));
}

/// A unified diff marks deleted and inserted lines.
#[test]
fn unified_diff_marks_lines() {
    let d = unified_diff("aaa\nbbb\nccc\n", "aaa\nBBB\nccc\n");
    assert_eq!(d, " aaa\n-bbb\n+BBB\n ccc\n");
}

/// Lines without a final newline get one.
#[test]
fn unified_diff_adds_missing_newline() {
    let d = unified_diff("a", "b");
    assert_eq!(d, "-a\n+b\n");
    assert_eq!(unified_diff("same\n", "same\n"), " same\n");
}

/// A reverted change renders as unchanged lines only.
#[test]
fn unified_diff_of_equal_texts_has_no_change() {
    let d = unified_diff("x\ny\n", "x\ny\n");
    assert!(!d.contains('+') && !d.contains('-'));
}

/// Rendering line changes: sign, text, newline.
#[test]
fn render_changes_exact() {
    let changes = vec![
        (LineTag::Equal, "a\n".to_string()),
        (LineTag::Delete, "b".to_string()),
        (LineTag::Insert, "".to_string()),
    ];
    assert_eq!(render_changes(&changes), " a\n-b\n+\n");
}

fn check_unified_diff_basic() {
    let old = "line1\nline2\nline3\n";
    let new = "line1\nchanged\nline3\n";
    let diff = unified_diff(old, new);
    assert!(diff.contains("-line2"));
    assert!(diff.contains("+changed"));
    assert!(diff.contains(" line1"));
}

/// unified_diff produces standard +/- output for changed lines.
#[test]
fn tests_unified_diff_basic() {
    check_unified_diff_basic();
}

#[test]
fn render_unified_diff_basic() {
    check_unified_diff_basic();
}
