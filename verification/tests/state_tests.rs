use attend::json::{iso_utc, split_selections, CompactPayload};
use attend::model::{
    build_editor_state, editor_context_due, format_human, get_editor_state, resolve_selections, EditorState, FileEntry,
    FileSource, Position, RawEditor, ResolveError, Selection,
};
use attend::narrate::{
    clean_summary, expired, staging_file_time, timestamp_part_of,
    count_json_files, dir_key, lock_held, lock_liveness, poll_step, resolve_session, run, staged_events,
    started_near, stop, LivenessCheck, LockHeld, PollStep, ReceiveMode, StopPlan,
};
use attend::merge::Event;
use attend::status::{
    config_warnings, idle_timeout_text, parse_daemon_status, query_listener_state, query_recording_state,
    query_status, AccessibilityState, DaemonStatus, EngineInfo, IntegrationHealth, ListenerState,
    RecordingState, StatusInputs, StatusPaths,
};

fn pos(line: usize, col: usize) -> Position {
    Position { line, col }
}

fn row(path: &str, start: Option<i64>, end: Option<i64>) -> RawEditor {
    RawEditor { path: path.to_string(), sel_start: start, sel_end: end }
}

fn source(path: &str, text: &str) -> FileSource {
    FileSource { path: path.to_string(), bytes: text.as_bytes().to_vec() }
}

// ── Editor state ────────────────────────────────────────────────────────────

#[test]
fn resolve_selections_dedups_and_sorts() {
    let bytes = b"ab\ncd\n".to_vec();
    let sels = resolve_selections(&bytes, &vec![(4, 4), (0, 1), (4, 4), (1, 5)]);
    assert_eq!(
        sels,
        vec![
            Selection { start: pos(1, 1), end: pos(1, 2) },
            Selection { start: pos(1, 2), end: pos(2, 3) },
            Selection { start: pos(2, 2), end: pos(2, 2) },
        ]
    );
}

#[test]
fn offsets_past_the_end_map_to_the_final_position() {
    let bytes = b"a\nb".to_vec();
    let sels = resolve_selections(&bytes, &vec![(99, 99)]);
    assert_eq!(sels, vec![Selection { start: pos(2, 2), end: pos(2, 2) }]);
}

#[test]
fn build_editor_state_groups_filters_and_relativizes() {
    let rows = vec![
        row("/p/src/b.rs", Some(0), Some(0)),
        row("/other/x.rs", Some(0), Some(1)),
        row("/p/src/a.rs", Some(2), Some(4)),
        row("/p/src/b.rs", Some(3), Some(3)),
        row("/p/src/c.rs", None, None),
    ];
    let sources = vec![source("/p/src/a.rs", "hello\n"), source("/p/src/b.rs", "x\ny\n")];
    let state = build_editor_state(rows, vec!["/p/sub".to_string(), "/tmp".to_string()], Some("/p"), &sources)
        .unwrap();
    let paths: Vec<&str> = state.files.iter().map(|f| f.path.as_str()).collect();
    assert_eq!(paths, vec!["src/a.rs", "src/b.rs", "src/c.rs"]);
    assert_eq!(state.files[0].selections, vec![Selection { start: pos(1, 3), end: pos(1, 5) }]);
    assert_eq!(
        state.files[1].selections,
        vec![Selection { start: pos(1, 1), end: pos(1, 1) }, Selection { start: pos(2, 2), end: pos(2, 2) }]
    );
    assert!(state.files[2].selections.is_empty());
    assert_eq!(state.terminals, vec!["sub".to_string(), "/tmp".to_string()]);
    assert_eq!(format_human(&state), "src/a.rs 1:3-1:5\nsrc/b.rs 1:1,2:2\nsrc/c.rs");
    assert_eq!(state.display_string(), "src/a.rs 1:3-1:5\nsrc/b.rs 1:1,2:2\nsrc/c.rs\nsub $\n/tmp $");
}

#[test]
fn build_editor_state_needs_the_selected_files() {
    let rows = vec![row("/p/a.rs", Some(0), Some(1))];
    let err = build_editor_state(rows, vec![], None, &vec![]).unwrap_err();
    assert!(matches!(err, ResolveError::Unreadable(p) if p == "/p/a.rs"));
}

#[test]
fn get_editor_state_empty_is_none() {
    assert!(matches!(get_editor_state(None, vec![], None, &vec![]), Ok(None)));
    let rows = vec![row("/elsewhere/a.rs", None, None)];
    assert!(matches!(get_editor_state(Some(rows), vec![], Some("/p"), &vec![]), Ok(None)));
    let state = get_editor_state(Some(vec![]), vec!["/p".to_string()], Some("/p"), &vec![]).unwrap().unwrap();
    assert_eq!(state.terminals, vec![".".to_string()]);
}

#[test]
fn display_strings() {
    assert_eq!(pos(3, 7).display_string(), "3:7");
    let sel = Selection { start: pos(1, 2), end: pos(3, 4) };
    assert_eq!(sel.display_string(), "1:2-3:4");
    assert_eq!(Selection { start: pos(5, 1), end: pos(5, 1) }.display_string(), "5:1");
    let entry = FileEntry { path: "a.rs".to_string(), selections: vec![sel] };
    assert_eq!(entry.display_string(), "a.rs 1:2-3:4");
    let state = EditorState { files: vec![], terminals: vec!["/t".to_string()], cwd: None };
    assert_eq!(state.display_string(), "/t $");
}

// ── JSON payloads ───────────────────────────────────────────────────────────

#[test]
fn split_selections_separates_cursors() {
    let sels = vec![
        Selection { start: pos(1, 1), end: pos(1, 1) },
        Selection { start: pos(2, 1), end: pos(2, 5) },
        Selection { start: pos(3, 3), end: pos(3, 3) },
    ];
    let (cursors, ranges) = split_selections(&sels);
    assert_eq!(cursors, vec![pos(1, 1), pos(3, 3)]);
    assert_eq!(ranges, vec![Selection { start: pos(2, 1), end: pos(2, 5) }]);
}

#[test]
fn compact_payload_relativizes_paths() {
    let state = EditorState {
        files: vec![FileEntry {
            path: "/p/src/a.rs".to_string(),
            selections: vec![Selection { start: pos(1, 1), end: pos(1, 1) }],
        }],
        terminals: vec![],
        cwd: Some("/p".to_string()),
    };
    let payload = CompactPayload::from_state(&state);
    assert_eq!(payload.files.len(), 1);
    assert_eq!(payload.files[0].path, "src/a.rs");
    assert_eq!(payload.files[0].cursors, vec![pos(1, 1)]);
    assert!(payload.files[0].selections.is_empty());
}

#[test]
fn iso_utc_pads_fields() {
    assert_eq!(iso_utc(2026, 2, 18, 15, 30, 45), "2026-02-18T15:30:45Z");
    assert_eq!(iso_utc(987, 1, 2, 3, 4, 5), "0987-01-02T03:04:05Z");
    assert_eq!(iso_utc(-1, 12, 31, 23, 59, 59), "-001-12-31T23:59:59Z");
    assert_eq!(iso_utc(12345, 10, 10, 10, 10, 10), "12345-10-10T10:10:10Z");
}

// ── Status ──────────────────────────────────────────────────────────────────

#[test]
fn daemon_status_parses_trimmed_words() {
    assert_eq!(parse_daemon_status(" recording\n"), Some(DaemonStatus::Recording));
    assert_eq!(parse_daemon_status("paused"), Some(DaemonStatus::Paused));
    assert_eq!(parse_daemon_status("idle"), Some(DaemonStatus::Idle));
    assert_eq!(parse_daemon_status("Idle"), None);
}

#[test]
fn recording_and_listener_states() {
    assert_eq!(query_recording_state(false, None, false, None), RecordingState::Stopped);
    assert_eq!(query_recording_state(true, None, false, None), RecordingState::Unknown);
    assert_eq!(query_recording_state(true, Some("12:34"), true, None), RecordingState::Recording);
    assert_eq!(
        query_recording_state(true, Some("12:34"), true, Some(DaemonStatus::Idle)),
        RecordingState::Idle
    );
    assert_eq!(query_recording_state(true, Some("12:34"), false, None), RecordingState::StaleLock);
    assert_eq!(query_recording_state(true, Some("garbage"), false, None), RecordingState::Unknown);
    assert_eq!(query_listener_state(false, None, false), ListenerState::Inactive);
    assert_eq!(query_listener_state(true, Some("7"), true), ListenerState::Active);
    assert_eq!(query_listener_state(true, Some("7"), false), ListenerState::StaleLock);
    assert_eq!(query_listener_state(true, Some("x"), false), ListenerState::Unknown);
}

#[test]
fn idle_timeout_defaults() {
    assert_eq!(idle_timeout_text(None), "5m (default)");
    assert_eq!(idle_timeout_text(Some("forever")), "forever");
    assert_eq!(idle_timeout_text(Some("10m")), "10m");
}

#[test]
fn config_warnings_report_bad_values() {
    let missing = vec!["/gone".to_string()];
    let w = config_warnings(Some("7 parsecs"), Some("forever"), Some("/m.bin"), true, &missing);
    assert_eq!(
        w,
        vec![
            "archive_retention: invalid value \"7 parsecs\" (using default 7d)".to_string(),
            "model: custom path does not exist: /m.bin".to_string(),
            "include_dirs: directory does not exist: /gone".to_string(),
        ]
    );
    assert!(config_warnings(Some("7d"), Some("5m"), None, false, &vec![]).is_empty());
    let quoted = config_warnings(None, Some("a\"b"), None, false, &vec![]);
    assert_eq!(quoted, vec!["daemon_idle_timeout: invalid value \"a\\\"b\" (using default 5m)".to_string()]);
}

/// A duration text that would overflow the parser is reported, not parsed;
/// ordinary durations with up to eleven digits are checked by the parser.
#[test]
fn config_warnings_guard_overflowing_durations() {
    let w = config_warnings(Some("18446744073709551615s 1000000000ns"), None, None, false, &vec![]);
    assert_eq!(w.len(), 1);
    assert!(w[0].starts_with("archive_retention: invalid value"));
    assert!(config_warnings(Some("99999999999s"), Some("1h 30m 15s"), None, false, &vec![]).is_empty());
    assert_eq!(config_warnings(None, Some("100000000000s"), None, false, &vec![]).len(), 1);
}

fn inputs() -> StatusInputs {
    StatusInputs {
        record_lock_exists: true,
        record_lock_content: Some("41:1700000000".to_string()),
        record_owner_alive: true,
        daemon_status: Some("paused\n".to_string()),
        engine: EngineInfo { display_name: "Parakeet".to_string(), model_cached: true },
        idle_timeout: None,
        session: Some("s1".to_string()),
        listen_lock_exists: false,
        listen_lock_content: None,
        listen_owner_alive: false,
        editors: vec![IntegrationHealth { name: "zed".to_string(), warnings: vec![] }],
        shells: vec![],
        browsers: vec![],
        has_platform_source: true,
        accessibility_granted: false,
        clipboard_capture: None,
        session_pending: vec!["/c/s1/a.json".to_string(), "/c/s1/b.tmp".to_string()],
        local_pending: vec!["/c/_local/c.json".to_string()],
        archive_size: 2048,
        paths: StatusPaths {
            cache: "/c".to_string(),
            archive: "/c/archive".to_string(),
            lock: "/c/record.lock".to_string(),
            config: None,
        },
        archive_retention: None,
        model: None,
        model_missing: false,
        missing_dirs: vec![],
    }
}

#[test]
fn query_status_gathers_observations() {
    let info = query_status(inputs());
    assert_eq!(info.recording, RecordingState::Paused);
    assert_eq!(info.listener, ListenerState::Inactive);
    assert_eq!(info.idle_timeout, "5m (default)");
    assert_eq!(info.accessibility, AccessibilityState::PermissionNotGranted);
    assert!(info.clipboard_enabled);
    assert_eq!(info.pending_count, 2);
    assert_eq!(info.session.as_deref(), Some("s1"));
    assert!(info.config_warnings.is_empty());
}

#[test]
fn status_report_text() {
    let info = query_status(inputs());
    let text = info.display_string("2.0 KB");
    let expected = "Recording:      paused\nEngine:         Parakeet (model downloaded)\nIdle timeout:   5m (default)\nSession:        s1\nListener:       inactive\nEditors:        zed (ok)\nAccessibility:  permission not granted (System Settings > Privacy & Security > Accessibility)\nClipboard:      enabled\nPending:        2 narration(s)\nArchive:        2.0 KB\n\nPaths:\n  Cache:      /c\n  Archive:    /c/archive\n  Lock:       /c/record.lock\n";
    assert_eq!(text, expected);
}

// ── Narration sessions ──────────────────────────────────────────────────────

#[test]
fn lock_liveness_by_format() {
    assert_eq!(lock_liveness("12:100"), LivenessCheck::PidSince(12, 100));
    assert_eq!(lock_liveness(" 12 "), LivenessCheck::Pid(12));
    assert_eq!(lock_liveness("-"), LivenessCheck::Unparseable);
    assert!(started_near(100, 102));
    assert!(!started_near(100, 103));
}

#[test]
fn session_keys_and_modes() {
    assert_eq!(dir_key(Some("abc")), "abc");
    assert_eq!(dir_key(None), "_local");
    assert_eq!(resolve_session(None, Some("l".to_string())), Some("l".to_string()));
    assert_eq!(resolve_session(Some("f".to_string()), Some("l".to_string())), Some("f".to_string()));
    assert_eq!(run(true, None, Some("s".to_string())), ReceiveMode::Wait("s".to_string()));
    assert_eq!(run(false, Some("t".to_string()), None), ReceiveMode::Once("t".to_string()));
    assert_eq!(run(false, None, None), ReceiveMode::NoSession);
}

#[test]
fn listener_poll_and_lock_decisions() {
    assert_eq!(poll_step("s", Some("s"), 0), PollStep::Sleep);
    assert_eq!(poll_step("s", Some("s"), 2), PollStep::NarrationPending);
    assert_eq!(poll_step("s", Some("t"), 2), PollStep::SessionGone);
    assert_eq!(poll_step("s", None, 0), PollStep::SessionGone);
    assert_eq!(lock_held("s", Some("s")), LockHeld::RetryUntilDeadline);
    assert!(matches!(lock_held("s", Some("t")), LockHeld::GiveUp(m) if m.contains("different session")));
    assert!(matches!(lock_held("s", None), LockHeld::GiveUp(m) if m.contains("Cannot determine")));
}

#[test]
fn stop_plans() {
    assert_eq!(stop(None, Some("s".to_string())), StopPlan::Deactivate(Some("s".to_string())));
    assert_eq!(stop(Some("s"), Some("s".to_string())), StopPlan::Deactivate(Some("s".to_string())));
    assert_eq!(stop(Some("t"), Some("s".to_string())), StopPlan::Mismatch);
    assert_eq!(stop(Some("t"), None), StopPlan::Mismatch);
    assert_eq!(stop(None, None), StopPlan::Deactivate(None));
}

#[test]
fn staged_events_are_stamped_or_dropped() {
    let shell = Event::ShellCommand {
        timestamp: 0,
        shell: "fish".to_string(),
        command: "ls".to_string(),
        cwd: "/p".to_string(),
        exit_status: None,
        duration_secs_bits: None,
    };
    let stamped = staged_events(Some(50), 10, 99, vec![shell.clone()]).unwrap();
    assert!(matches!(&stamped[0], Event::ShellCommand { timestamp: 50, .. }));
    assert!(staged_events(Some(5), 10, 99, vec![shell.clone()]).is_none());
    let now = staged_events(None, 10, 99, vec![shell]).unwrap();
    assert!(matches!(&now[0], Event::ShellCommand { timestamp: 99, .. }));
}

#[test]
fn count_json_files_counts_extensions() {
    let files = vec!["a.json".to_string(), "b.JSON".to_string(), ".json".to_string(), "c.json".to_string()];
    assert_eq!(count_json_files(&files), 2);
}

#[test]
fn staging_file_times_from_names() {
    let base = chrono::NaiveDate::from_ymd_opt(2026, 2, 23)
        .unwrap()
        .and_hms_opt(22, 42, 28)
        .unwrap()
        .and_utc()
        .timestamp_nanos_opt()
        .unwrap();
    assert_eq!(staging_file_time("/s/2026-02-23T22-42-28Z.json"), Some(base));
    assert_eq!(staging_file_time("/s/2026-02-23T22-42-28.123456789Z.json"), Some(base + 123_456_789));
    assert_eq!(staging_file_time("/s/2026-02-23T22-42-28.5Z-0f3a.json"), Some(base + 500_000_000));
    assert_eq!(staging_file_time("/s/notes.json"), None);
}

#[test]
fn cleanup_decisions_and_report() {
    assert!(expired(10, 100, 50));
    assert!(!expired(50, 100, 50));
    assert_eq!(
        clean_summary(2, 1, 0, 7 * 86_400, 0),
        "Removed 3 narration(s) (2 archived, 1 stale pending) and 0 clipboard image(s) older than 7days."
    );
}

/// A session is not shown a state it already saw: same files, selections and
/// terminals compare equal, whatever directory they were resolved against.
#[test]
fn editor_state_same_as() {
    let sel = Selection { start: pos(1, 1), end: pos(2, 3) };
    let a = EditorState {
        files: vec![FileEntry { path: "src/a.rs".to_string(), selections: vec![sel] }],
        terminals: vec!["/p".to_string()],
        cwd: Some("/p".to_string()),
    };
    let same = EditorState {
        files: vec![FileEntry { path: "src/a.rs".to_string(), selections: vec![sel] }],
        terminals: vec!["/p".to_string()],
        cwd: None,
    };
    let moved = EditorState {
        files: vec![FileEntry {
            path: "src/a.rs".to_string(),
            selections: vec![Selection { start: pos(1, 1), end: pos(2, 4) }],
        }],
        terminals: vec!["/p".to_string()],
        cwd: None,
    };
    let other_terminal = EditorState { files: a.files.clone(), terminals: vec!["/q".to_string()], cwd: None };
    assert!(a.same_as(&same));
    assert!(!a.same_as(&moved));
    assert!(!a.same_as(&other_terminal));
    assert!(!a.same_as(&EditorState { files: Vec::new(), terminals: a.terminals.clone(), cwd: None }));
}

/// The line and column of a byte offset, counted directly: a line feed, a
/// lone carriage return, or a CR LF pair (counted once) starts a line.
fn reference_position(content: &[u8], offset: usize) -> Position {
    let clamped = offset.min(content.len());
    let mut line = 1;
    let mut col = 1;
    let mut after_cr = false;
    for &b in &content[..clamped] {
        match b {
            b'\n' if after_cr => after_cr = false,
            b'\n' => {
                line += 1;
                col = 1;
            },
            b'\r' => {
                line += 1;
                col = 1;
                after_cr = true;
            },
            _ => {
                col += 1;
                after_cr = false;
            },
        }
    }
    Position { line, col }
}

/// Resolved positions agree with the reference for every newline style, at
/// every offset, including offsets past the end.
#[test]
fn resolve_matches_reference_for_all_newline_styles() {
    for nl in ["\n", "\r\n", "\r"] {
        let text = ["fn a() {", "  x", "", "}"].join(nl);
        let bytes = text.as_bytes().to_vec();
        let n = bytes.len() as i64;
        for s in 0..=n + 1 {
            let sels = resolve_selections(&bytes, &vec![(s, n)]);
            assert_eq!(sels.len(), 1);
            assert_eq!(sels[0].start, reference_position(&bytes, s as usize), "newline {nl:?} offset {s}");
            assert_eq!(sels[0].end, reference_position(&bytes, n as usize));
        }
    }
}

/// A lone carriage return starts a line: `a`, CR, `b` ends at line 2, column 2.
#[test]
fn carriage_return_starts_a_line() {
    let bytes = b"a\rb".to_vec();
    let sels = resolve_selections(&bytes, &vec![(3, 3), (1, 2)]);
    assert_eq!(sels[0], Selection { start: pos(1, 2), end: pos(2, 1) });
    assert_eq!(sels[1], Selection { start: pos(2, 2), end: pos(2, 2) });
    let crlf = b"a\r\nb".to_vec();
    let sels = resolve_selections(&crlf, &vec![(4, 4)]);
    assert_eq!(sels[0].start, pos(2, 2));
}

/// Editor context is shown on a prompt when the session saw nothing before or
/// saw a different state, and not again for a state it already saw.
#[test]
fn editor_context_shown_only_when_changed() {
    let sel = Selection { start: pos(3, 1), end: pos(3, 1) };
    let st = |col: usize| EditorState {
        files: vec![FileEntry { path: "a.rs".to_string(), selections: vec![Selection { start: pos(3, col), ..sel }] }],
        terminals: Vec::new(),
        cwd: None,
    };
    assert!(editor_context_due(None, &st(1)));
    assert!(!editor_context_due(Some(&st(1)), &st(1)));
    assert!(editor_context_due(Some(&st(1)), &st(2)));
}

/// The timestamp of a staging name runs to its first `Z`.
#[test]
fn timestamp_part_of_stem() {
    assert_eq!(timestamp_part_of("2026-02-23T22-42-28Z-3"), "2026-02-23T22-42-28Z");
    assert_eq!(timestamp_part_of("notes"), "notes");
    assert_eq!(timestamp_part_of("Z"), "Z");
}
