//! Narration system status: the states read from lock and status files, the
//! configuration warnings, and the status report.
//!
//! The caller gathers what is on disk and running; these functions classify
//! it and render the report.

use vstd::prelude::*;
use crate::narrate::lock_content_spec;
use crate::text::{decimal, decimal_string, join_strings, join_with, push_str, str_eq, string_views};

verus! {

broadcast use vstd::string::group_string_axioms;

/// Recording daemon state.
#[derive(Debug, Clone, Copy, PartialEq, Eq, Structural)]
pub enum RecordingState {
    /// Lock file absent: daemon is not running.
    Stopped,
    /// Daemon alive, status file says "idle".
    Idle,
    /// Daemon alive, status file says "recording" (or status file missing).
    Recording,
    /// Daemon alive, status file says "paused".
    Paused,
    /// Lock file present, parseable, but owner process is dead.
    StaleLock,
    /// Lock file present but content is unparseable or unreadable.
    Unknown,
}

/// Receive listener state.
#[derive(Debug, Clone, Copy, PartialEq, Eq, Structural)]
pub enum ListenerState {
    /// No lock file: listener is not running.
    Inactive,
    /// Lock file present and owner alive.
    Active,
    /// Lock file present, parseable, but owner process is dead.
    StaleLock,
    /// Lock file present but content is unparseable or unreadable.
    Unknown,
}

/// Accessibility (external selection capture) state.
#[derive(Debug, Clone, Copy, PartialEq, Eq, Structural)]
pub enum AccessibilityState {
    /// Platform backend available and permission granted.
    Granted,
    /// Platform backend available but permission not granted.
    PermissionNotGranted,
    /// No platform backend.
    NotAvailable,
}

/// What the recording daemon's status file says.
#[derive(Debug, Clone, Copy, PartialEq, Eq, Structural)]
pub enum DaemonStatus {
    Recording,
    Paused,
    Idle,
}

/// The daemon state written in its status file (`recording`, `paused`,
/// `idle`, with surrounding whitespace ignored).
pub open spec fn daemon_status_spec(s: Seq<char>) -> Option<DaemonStatus> {
    let t = crate::text::trim_spec(s);
    if t == "recording"@ {
        Some(DaemonStatus::Recording)
    } else if t == "paused"@ {
        Some(DaemonStatus::Paused)
    } else if t == "idle"@ {
        Some(DaemonStatus::Idle)
    } else {
        None
    }
}

/// Read the daemon state from its status file's content.
pub fn parse_daemon_status(s: &str) -> (r: Option<DaemonStatus>)
    ensures
        r == daemon_status_spec(s@),
{
    let t = crate::text::trim_chars(s);
    let ts = crate::text::string_of(t.as_slice());
    if str_eq(ts.as_str(), "recording") {
        Some(DaemonStatus::Recording)
    } else if str_eq(ts.as_str(), "paused") {
        Some(DaemonStatus::Paused)
    } else if str_eq(ts.as_str(), "idle") {
        Some(DaemonStatus::Idle)
    } else {
        None
    }
}

/// The recording state from the lock file (whether it exists, its content
/// when it could be read, whether its owner is alive) and the daemon's
/// status file.
pub open spec fn recording_state_spec(
    lock_exists: bool,
    content: Option<Seq<char>>,
    owner_alive: bool,
    status: Option<DaemonStatus>,
) -> RecordingState {
    if !lock_exists {
        RecordingState::Stopped
    } else {
        match content {
            None => RecordingState::Unknown,
            Some(c) => if owner_alive {
                match status {
                    Some(DaemonStatus::Recording) => RecordingState::Recording,
                    Some(DaemonStatus::Paused) => RecordingState::Paused,
                    Some(DaemonStatus::Idle) => RecordingState::Idle,
                    None => RecordingState::Recording,
                }
            } else if lock_content_spec(c) is Some {
                RecordingState::StaleLock
            } else {
                RecordingState::Unknown
            },
        }
    }
}

/// The characters of an optional text.
pub open spec fn opt_text_view(o: Option<&str>) -> Option<Seq<char>> {
    match o {
        Some(s) => Some(s@),
        None => None,
    }
}

/// Determine the recording state: no lock means stopped, an unreadable lock
/// unknown; with a live owner the status file decides (recording when it is
/// missing); a dead owner's parseable lock is stale.
pub fn query_recording_state(
    lock_exists: bool,
    content: Option<&str>,
    owner_alive: bool,
    status: Option<DaemonStatus>,
) -> (r: RecordingState)
    ensures
        r == recording_state_spec(lock_exists, opt_text_view(content), owner_alive, status),
{
    if !lock_exists {
        return RecordingState::Stopped;
    }
    match content {
        None => RecordingState::Unknown,
        Some(c) => {
            if owner_alive {
                match status {
                    Some(DaemonStatus::Recording) => RecordingState::Recording,
                    Some(DaemonStatus::Paused) => RecordingState::Paused,
                    Some(DaemonStatus::Idle) => RecordingState::Idle,
                    None => RecordingState::Recording,
                }
            } else if crate::narrate::parse_lock_content(c).is_some() {
                RecordingState::StaleLock
            } else {
                RecordingState::Unknown
            }
        },
    }
}

/// Determine the listener state from its lock file.
pub fn query_listener_state(lock_exists: bool, content: Option<&str>, owner_alive: bool) -> (r: ListenerState)
    ensures
        r == if !lock_exists {
            ListenerState::Inactive
        } else {
            match opt_text_view(content) {
                None => ListenerState::Unknown,
                Some(c) => if owner_alive {
                    ListenerState::Active
                } else if lock_content_spec(c) is Some {
                    ListenerState::StaleLock
                } else {
                    ListenerState::Unknown
                },
            }
        },
{
    if !lock_exists {
        return ListenerState::Inactive;
    }
    match content {
        None => ListenerState::Unknown,
        Some(c) => {
            if owner_alive {
                ListenerState::Active
            } else if crate::narrate::parse_lock_content(c).is_some() {
                ListenerState::StaleLock
            } else {
                ListenerState::Unknown
            }
        },
    }
}

/// The idle timeout as shown: the configured value, or the default.
pub fn idle_timeout_text(configured: Option<&str>) -> (r: String)
    ensures
        r@ == match configured {
            Some(s) => s@,
            None => "5m (default)"@,
        },
{
    match configured {
        Some(s) => s.to_string(),
        None => "5m (default)".to_string(),
    }
}

/// Whether `humantime` accepts a duration text.
pub uninterp spec fn duration_parses(s: Seq<char>) -> bool;

/// The number of ASCII digits in a text.
pub open spec fn digit_count(s: Seq<char>) -> nat
    decreases s.len(),
{
    if s.len() == 0 {
        0
    } else {
        digit_count(s.drop_last()) + if '0' <= s.last() && s.last() <= '9' {
            1nat
        } else {
            0nat
        }
    }
}

/// The most digits a duration text may have to be handed to the parser.
pub const MAX_DURATION_DIGITS: usize = 11;

/// Whether a duration text parses.
///
/// Trusted: calls `humantime::parse_duration`, a function of the text alone,
/// and reports whether it succeeded. The parser's arithmetic is checked
/// everywhere but in its final `Duration::new`, which panics when the
/// seconds reach `u64::MAX` while a whole second of nanoseconds is carried
/// (`"18446744073709551615s 1000000000ns"`). With at most eleven digits in
/// the text, every number and fraction of it stays below 10^11 and the
/// total below (10^11 + 11) * 31 557 600 seconds (a year, the largest unit),
/// far from `u64::MAX`: `requires` leaves out the other texts.
#[verifier::external_body]
fn parses_as_duration(s: &str) -> (r: bool)
    requires
        digit_count(s@) <= MAX_DURATION_DIGITS,
    ensures
        r == duration_parses(s@),
{
    humantime::parse_duration(s).is_ok()
}

/// The number of ASCII digits in a text.
fn count_digits(s: &str) -> (n: usize)
    ensures
        n == digit_count(s@),
{
    let cs = crate::text::chars_of(s);
    let mut n: usize = 0;
    let mut i: usize = 0;
    while i < cs.len()
        invariant
            i <= cs.len(),
            cs@ == s@,
            n == digit_count(cs@.take(i as int)),
            n <= i,
        decreases cs.len() - i,
    {
        assert(cs@.take(i + 1).drop_last() =~= cs@.take(i as int));
        if '0' <= cs[i] && cs[i] <= '9' {
            n += 1;
        }
        i += 1;
    }
    assert(cs@.take(cs.len() as int) =~= cs@);
    n
}

/// A duration text is accepted: it has at most `MAX_DURATION_DIGITS` digits
/// and `humantime` parses it. A text with more digits is not handed to the
/// parser, which could panic on it, and counts as not accepted.
pub open spec fn duration_accepted(s: Seq<char>) -> bool {
    digit_count(s) <= MAX_DURATION_DIGITS && duration_parses(s)
}

/// Whether a duration text is accepted.
pub fn duration_ok(s: &str) -> (r: bool)
    ensures
        r == duration_accepted(s@),
{
    if count_digits(s) <= MAX_DURATION_DIGITS {
        parses_as_duration(s)
    } else {
        false
    }
}

/// A configured duration is rejected: neither `forever` nor an accepted
/// duration.
pub open spec fn bad_duration(o: Option<Seq<char>>) -> bool {
    o matches Some(s) && s != "forever"@ && !duration_accepted(s)
}

/// `format!("{:?}", s)` of a string: quoted, with its special characters
/// escaped.
pub uninterp spec fn debug_text(s: Seq<char>) -> Seq<char>;

/// The `Debug` rendering of a string.
///
/// Trusted: formats with `<str as Debug>::fmt`, a function of the text
/// alone.
#[verifier::external_body]
fn debug_quoted(s: &str) -> (r: String)
    ensures
        r@ == debug_text(s@),
{
    format!("{:?}", s)
}

/// The configuration warnings. `model_missing` says whether a configured
/// model path does not exist, `missing_dirs` lists the extra directories
/// that do not exist.
pub open spec fn config_warnings_spec(
    retention: Option<Seq<char>>,
    idle: Option<Seq<char>>,
    model: Option<Seq<char>>,
    model_missing: bool,
    missing_dirs: Seq<Seq<char>>,
) -> Seq<Seq<char>> {
    retention_part(retention) + (if bad_duration(idle) {
        seq![
            "daemon_idle_timeout: invalid value "@ + debug_text(idle.unwrap())
                + " (using default 5m)"@,
        ]
    } else {
        Seq::empty()
    }) + (if model matches Some(m) && model_missing {
        seq!["model: custom path does not exist: "@ + model.unwrap()]
    } else {
        Seq::empty()
    }) + dir_warnings(missing_dirs)
}

/// The warnings for extra directories that do not exist.
pub open spec fn dir_warnings(dirs: Seq<Seq<char>>) -> Seq<Seq<char>> {
    dirs.map_values(|d: Seq<char>| "include_dirs: directory does not exist: "@ + d)
}

/// The warning for an invalid archive retention.
pub open spec fn retention_part(retention: Option<Seq<char>>) -> Seq<Seq<char>> {
    if bad_duration(retention) {
        seq![
            "archive_retention: invalid value "@ + debug_text(retention.unwrap())
                + " (using default 7d)"@,
        ]
    } else {
        Seq::empty()
    }
}

/// Configuration warnings: invalid durations, a missing custom model, and
/// extra directories that do not exist.
pub fn config_warnings(
    retention: Option<&str>,
    idle: Option<&str>,
    model: Option<&str>,
    model_missing: bool,
    missing_dirs: &Vec<String>,
) -> (r: Vec<String>)
    ensures
        string_views(r@) == config_warnings_spec(
            opt_text_view(retention),
            opt_text_view(idle),
            opt_text_view(model),
            model_missing,
            string_views(missing_dirs@),
        ),
{
    let mut w: Vec<String> = Vec::new();
    match retention {
        Some(s) => {
            if !str_eq(s, "forever") && !duration_ok(s) {
                let mut m = String::new();
                push_str(&mut m, "archive_retention: invalid value ");
                let q = debug_quoted(s);
                push_str(&mut m, q.as_str());
                push_str(&mut m, " (using default 7d)");
                assert(m@ =~= "archive_retention: invalid value "@ + debug_text(s@)
                    + " (using default 7d)"@);
                w.push(m);
                assert(string_views(w@) =~= seq![m@]);
            }
        },
        None => {},
    }
    let ghost w1 = string_views(w@);
    assert(w1 =~= retention_part(opt_text_view(retention)));
    match idle {
        Some(s) => {
            if !str_eq(s, "forever") && !duration_ok(s) {
                let mut m = String::new();
                push_str(&mut m, "daemon_idle_timeout: invalid value ");
                let q = debug_quoted(s);
                push_str(&mut m, q.as_str());
                push_str(&mut m, " (using default 5m)");
                assert(m@ =~= "daemon_idle_timeout: invalid value "@ + debug_text(s@)
                    + " (using default 5m)"@);
                let ghost before = string_views(w@);
                w.push(m);
                assert(string_views(w@) =~= before.push(m@));
            }
        },
        None => {},
    }
    let ghost w2 = string_views(w@);
    assert(w2 =~= w1 + (if bad_duration(opt_text_view(idle)) {
        seq![
            "daemon_idle_timeout: invalid value "@ + debug_text(opt_text_view(idle).unwrap())
                + " (using default 5m)"@,
        ]
    } else {
        Seq::empty()
    }));
    match model {
        Some(p) => {
            if model_missing {
                let mut m = String::new();
                push_str(&mut m, "model: custom path does not exist: ");
                push_str(&mut m, p);
                let ghost before = string_views(w@);
                w.push(m);
                assert(string_views(w@) =~= before.push(m@));
            }
        },
        None => {},
    }
    let ghost w3 = string_views(w@);
    assert(w3 =~= w2 + (if opt_text_view(model) matches Some(m) && model_missing {
        seq!["model: custom path does not exist: "@ + opt_text_view(model).unwrap()]
    } else {
        Seq::empty()
    }));
    let ghost dv = string_views(missing_dirs@);
    let mut i: usize = 0;
    while i < missing_dirs.len()
        invariant
            i <= missing_dirs.len(),
            dv == string_views(missing_dirs@),
            string_views(w@) == w3 + dir_warnings(dv.take(i as int)),
        decreases missing_dirs.len() - i,
    {
        let ghost before = string_views(w@);
        let mut m = String::new();
        push_str(&mut m, "include_dirs: directory does not exist: ");
        push_str(&mut m, missing_dirs[i].as_str());
        w.push(m);
        proof {
            assert(string_views(w@) =~= before.push("include_dirs: directory does not exist: "@ + dv[i as int]));
            assert(dir_warnings(dv.take(i + 1)) =~= dir_warnings(dv.take(i as int)).push(
                "include_dirs: directory does not exist: "@ + dv[i as int],
            ));
        }
        i += 1;
    }
    proof {
        assert(dv.take(missing_dirs.len() as int) =~= dv);
        assert(string_views(w@) =~= config_warnings_spec(
            opt_text_view(retention),
            opt_text_view(idle),
            opt_text_view(model),
            model_missing,
            dv,
        ));
    }
    w
}

// ── The report ──────────────────────────────────────────────────────────────

/// Health of an editor, shell or browser integration.
#[derive(Debug, Clone)]
pub struct IntegrationHealth {
    /// Display name of the integration (e.g., "zed", "fish", "chrome").
    pub name: String,
    /// Empty if healthy; otherwise the warning messages.
    pub warnings: Vec<String>,
}

/// Transcription engine info.
#[derive(Debug, Clone)]
pub struct EngineInfo {
    /// Human-readable engine name.
    pub display_name: String,
    /// Whether the model files are cached on disk.
    pub model_cached: bool,
}

/// File system paths shown in the report.
#[derive(Debug, Clone)]
pub struct StatusPaths {
    pub cache: String,
    pub archive: String,
    pub lock: String,
    /// Global config file path, if the config home is known.
    pub config: Option<String>,
}

/// Complete snapshot of the narration system status.
#[derive(Debug, Clone)]
pub struct StatusInfo {
    pub recording: RecordingState,
    pub engine: EngineInfo,
    pub idle_timeout: String,
    pub session: Option<String>,
    pub listener: ListenerState,
    pub editors: Vec<IntegrationHealth>,
    pub shells: Vec<IntegrationHealth>,
    pub browsers: Vec<IntegrationHealth>,
    pub accessibility: AccessibilityState,
    pub clipboard_enabled: bool,
    pub pending_count: usize,
    pub archive_size: u64,
    pub paths: StatusPaths,
    pub config_warnings: Vec<String>,
}

/// What the caller observed for the status report: the lock files and
/// whether their owners live, the daemon's status file, the configuration,
/// the integrations' health, the pending files and the archive's size.
#[derive(Debug, Clone)]
pub struct StatusInputs {
    pub record_lock_exists: bool,
    /// The recording lock's content, when it could be read.
    pub record_lock_content: Option<String>,
    pub record_owner_alive: bool,
    /// The daemon's status file content, when it could be read.
    pub daemon_status: Option<String>,
    pub engine: EngineInfo,
    /// The configured daemon idle timeout.
    pub idle_timeout: Option<String>,
    /// The listening session.
    pub session: Option<String>,
    pub listen_lock_exists: bool,
    pub listen_lock_content: Option<String>,
    pub listen_owner_alive: bool,
    pub editors: Vec<IntegrationHealth>,
    pub shells: Vec<IntegrationHealth>,
    pub browsers: Vec<IntegrationHealth>,
    /// Whether the platform has an external-selection backend.
    pub has_platform_source: bool,
    /// Whether that backend's permission is granted.
    pub accessibility_granted: bool,
    /// The configured clipboard capture switch.
    pub clipboard_capture: Option<bool>,
    /// The paths in the listening session's pending directory (none without a session).
    pub session_pending: Vec<String>,
    /// The paths in the pending directory of narrations made without a session.
    pub local_pending: Vec<String>,
    pub archive_size: u64,
    pub paths: StatusPaths,
    pub archive_retention: Option<String>,
    /// The configured custom model path.
    pub model: Option<String>,
    /// Whether that model path does not exist.
    pub model_missing: bool,
    /// The configured extra directories that do not exist.
    pub missing_dirs: Vec<String>,
}

/// The characters of an optional string.
pub open spec fn opt_string_view(o: Option<String>) -> Option<Seq<char>> {
    match o {
        Some(s) => Some(s@),
        None => None,
    }
}

/// The accessibility state: no backend, a backend without permission, or
/// a granted one.
pub open spec fn accessibility_spec(has_source: bool, granted: bool) -> AccessibilityState {
    if !has_source {
        AccessibilityState::NotAvailable
    } else if granted {
        AccessibilityState::Granted
    } else {
        AccessibilityState::PermissionNotGranted
    }
}

fn opt_as_str(o: &Option<String>) -> (r: Option<&str>)
    ensures
        opt_text_view(r) == opt_string_view(*o),
{
    match o {
        Some(s) => Some(s.as_str()),
        None => None,
    }
}

/// Gather the observations into the status snapshot: the recording and
/// listener states, the idle timeout text, the accessibility state, the
/// clipboard switch (on by default), the count of pending `.json` files
/// and the configuration warnings.
pub fn query_status(inputs: StatusInputs) -> (r: StatusInfo)
    requires
        inputs.session_pending@.len() + inputs.local_pending@.len() <= usize::MAX,
    ensures
        r.recording == recording_state_spec(
            inputs.record_lock_exists,
            opt_string_view(inputs.record_lock_content),
            inputs.record_owner_alive,
            match inputs.daemon_status {
                Some(t) => daemon_status_spec(t@),
                None => None,
            },
        ),
        r.engine == inputs.engine,
        r.idle_timeout@ == match inputs.idle_timeout {
            Some(s) => s@,
            None => "5m (default)"@,
        },
        r.session == inputs.session,
        r.listener == (if !inputs.listen_lock_exists {
            ListenerState::Inactive
        } else {
            match opt_string_view(inputs.listen_lock_content) {
                None => ListenerState::Unknown,
                Some(c) => if inputs.listen_owner_alive {
                    ListenerState::Active
                } else if lock_content_spec(c) is Some {
                    ListenerState::StaleLock
                } else {
                    ListenerState::Unknown
                },
            }
        }),
        r.editors == inputs.editors,
        r.shells == inputs.shells,
        r.browsers == inputs.browsers,
        r.accessibility == accessibility_spec(inputs.has_platform_source, inputs.accessibility_granted),
        r.clipboard_enabled == match inputs.clipboard_capture {
            Some(b) => b,
            None => true,
        },
        r.pending_count == crate::narrate::json_files(string_views(inputs.session_pending@)).len()
            + crate::narrate::json_files(string_views(inputs.local_pending@)).len(),
        r.archive_size == inputs.archive_size,
        r.paths == inputs.paths,
        string_views(r.config_warnings@) == config_warnings_spec(
            opt_string_view(inputs.archive_retention),
            opt_string_view(inputs.idle_timeout),
            opt_string_view(inputs.model),
            inputs.model_missing,
            string_views(inputs.missing_dirs@),
        ),
{
    let status = match &inputs.daemon_status {
        Some(t) => parse_daemon_status(t.as_str()),
        None => None,
    };
    let recording = query_recording_state(
        inputs.record_lock_exists,
        opt_as_str(&inputs.record_lock_content),
        inputs.record_owner_alive,
        status,
    );
    let listener = query_listener_state(
        inputs.listen_lock_exists,
        opt_as_str(&inputs.listen_lock_content),
        inputs.listen_owner_alive,
    );
    let idle_timeout = idle_timeout_text(opt_as_str(&inputs.idle_timeout));
    let accessibility = if !inputs.has_platform_source {
        AccessibilityState::NotAvailable
    } else if inputs.accessibility_granted {
        AccessibilityState::Granted
    } else {
        AccessibilityState::PermissionNotGranted
    };
    let clipboard_enabled = match inputs.clipboard_capture {
        Some(b) => b,
        None => true,
    };
    let session_count = crate::narrate::count_json_files(&inputs.session_pending);
    let local_count = crate::narrate::count_json_files(&inputs.local_pending);
    proof {
        crate::narrate::lemma_json_files_len(string_views(inputs.session_pending@));
        crate::narrate::lemma_json_files_len(string_views(inputs.local_pending@));
    }
    let warnings = config_warnings(
        opt_as_str(&inputs.archive_retention),
        opt_as_str(&inputs.idle_timeout),
        opt_as_str(&inputs.model),
        inputs.model_missing,
        &inputs.missing_dirs,
    );
    StatusInfo {
        recording,
        engine: inputs.engine,
        idle_timeout,
        session: inputs.session,
        listener,
        editors: inputs.editors,
        shells: inputs.shells,
        browsers: inputs.browsers,
        accessibility,
        clipboard_enabled,
        pending_count: session_count + local_count,
        archive_size: inputs.archive_size,
        paths: inputs.paths,
        config_warnings: warnings,
    }
}

/// `n` spaces.
pub open spec fn spaces(n: int) -> Seq<char> {
    Seq::new(if n > 0 { n as nat } else { 0 }, |i: int| ' ')
}

/// `label` left-aligned in a column of `width` (`{:<width$}`).
pub open spec fn padded(label: Seq<char>, width: int) -> Seq<char> {
    label + spaces(width - label.len())
}

/// A report line: the label in the first column, then the value.
pub open spec fn report_line(label: Seq<char>, value: Seq<char>) -> Seq<char> {
    padded(label, 16) + value + seq!['\n']
}

/// A line of the paths section.
pub open spec fn path_line(label: Seq<char>, value: Seq<char>) -> Seq<char> {
    "  "@ + padded(label, 12) + value + seq!['\n']
}

fn push_padded(s: &mut String, label: &str, width: usize)
    requires
        label@.len() <= width,
    ensures
        final(s)@ == old(s)@ + padded(label@, width as int),
{
    let ghost s0 = s@;
    push_str(s, label);
    let n = crate::text::chars_of(label).len();
    let mut k = n;
    while k < width
        invariant
            n == label@.len(),
            n <= k <= width,
            s@ == s0 + label@ + spaces(k - n),
        decreases width - k,
    {
        push_str(s, " ");
        proof {
            reveal_strlit(" ");
            assert(spaces(k + 1 - n) =~= spaces(k - n).push(' '));
            assert(" "@ =~= seq![' ']);
        }
        k += 1;
    }
}

fn push_report_line(s: &mut String, label: &str, value: &str)
    requires
        label@.len() <= 16,
    ensures
        final(s)@ == old(s)@ + report_line(label@, value@),
{
    let ghost s0 = s@;
    push_padded(s, label, 16);
    push_str(s, value);
    push_str(s, "\n");
    proof {
        reveal_strlit("\n");
        assert("\n"@ =~= seq!['\n']);
        assert(s@ =~= s0 + report_line(label@, value@));
    }
}

/// How the recording state is shown.
pub open spec fn recording_text(r: RecordingState) -> Seq<char> {
    match r {
        RecordingState::Stopped => "stopped"@,
        RecordingState::Idle => "idle (daemon resident)"@,
        RecordingState::Recording => "recording"@,
        RecordingState::Paused => "paused"@,
        RecordingState::StaleLock => "stale lock (daemon not running): run `attend narrate toggle` to clean up"@,
        RecordingState::Unknown => "unknown (lock file unreadable)"@,
    }
}

/// How the listener state is shown.
pub open spec fn listener_text(l: ListenerState) -> Seq<char> {
    match l {
        ListenerState::Inactive => "inactive"@,
        ListenerState::Active => "active"@,
        ListenerState::StaleLock => "stale lock"@,
        ListenerState::Unknown => "unknown (lock file unreadable)"@,
    }
}

/// How the accessibility state is shown.
pub open spec fn accessibility_text(a: AccessibilityState) -> Seq<char> {
    match a {
        AccessibilityState::Granted => "ok"@,
        AccessibilityState::PermissionNotGranted => "permission not granted (System Settings > Privacy & Security > Accessibility)"@,
        AccessibilityState::NotAvailable => "not available (no platform backend)"@,
    }
}

/// An integration as shown: `name (ok)` or `name (warning; warning)`.
pub open spec fn health_part(h: IntegrationHealth) -> Seq<char> {
    if h.warnings@.len() == 0 {
        h.name@ + " (ok)"@
    } else {
        h.name@ + " ("@ + join_with(string_views(h.warnings@), "; "@) + ")"@
    }
}

/// The parts of a list of integrations.
pub open spec fn health_parts(v: Seq<IntegrationHealth>) -> Seq<Seq<char>> {
    v.map_values(|h: IntegrationHealth| health_part(h))
}

/// A browser as shown: `name (ok)`.
pub open spec fn browser_parts(v: Seq<IntegrationHealth>) -> Seq<Seq<char>> {
    v.map_values(|h: IntegrationHealth| h.name@ + " (ok)"@)
}

/// The line of a list of integrations, when it is not empty.
pub open spec fn list_line(label: Seq<char>, parts: Seq<Seq<char>>) -> Seq<char> {
    if parts.len() == 0 {
        Seq::empty()
    } else {
        report_line(label, join_with(parts, ", "@))
    }
}

/// The config warnings section, when there are warnings.
pub open spec fn warnings_section(w: Seq<Seq<char>>) -> Seq<char> {
    if w.len() == 0 {
        Seq::empty()
    } else {
        "\nConfig warnings:\n"@ + warning_lines(w)
    }
}

/// One `  - warning` line per warning.
pub open spec fn warning_lines(w: Seq<Seq<char>>) -> Seq<char>
    decreases w.len(),
{
    if w.len() == 0 {
        Seq::empty()
    } else {
        warning_lines(w.drop_last()) + "  - "@ + w.last() + seq!['\n']
    }
}

/// The first lines of the report: recording, engine, idle timeout, session
/// and listener.
pub open spec fn head_part(s: StatusInfo) -> Seq<char> {
    report_line("Recording:"@, recording_text(s.recording)) + report_line(
        "Engine:"@,
        s.engine.display_name@ + " (model "@ + (if s.engine.model_cached {
            "downloaded"@
        } else {
            "not downloaded"@
        }) + ")"@,
    ) + report_line("Idle timeout:"@, s.idle_timeout@) + report_line(
        "Session:"@,
        match s.session {
            Some(x) => x@,
            None => "none"@,
        },
    ) + report_line("Listener:"@, listener_text(s.listener))
}

/// The integration lines of the report.
pub open spec fn lists_part(s: StatusInfo) -> Seq<char> {
    list_line("Editors:"@, health_parts(s.editors@)) + list_line("Shells:"@, health_parts(s.shells@))
        + list_line("Browsers:"@, browser_parts(s.browsers@))
}

/// The accessibility, clipboard, pending and archive lines of the report.
pub open spec fn tail_part(s: StatusInfo, archive_text: Seq<char>) -> Seq<char> {
    report_line("Accessibility:"@, accessibility_text(s.accessibility)) + report_line(
        "Clipboard:"@,
        if s.clipboard_enabled {
            "enabled"@
        } else {
            "disabled"@
        },
    ) + report_line("Pending:"@, decimal(s.pending_count as nat) + " narration(s)"@) + report_line(
        "Archive:"@,
        archive_text,
    )
}

/// The paths section of the report.
pub open spec fn paths_part(s: StatusInfo) -> Seq<char> {
    "\nPaths:\n"@ + path_line("Cache:"@, s.paths.cache@) + path_line("Archive:"@, s.paths.archive@)
        + path_line("Lock:"@, s.paths.lock@) + match s.paths.config {
        Some(c) => path_line("Config:"@, c@),
        None => Seq::empty(),
    }
}

/// The status report, with the archive size already formatted.
pub open spec fn report(s: StatusInfo, archive_text: Seq<char>) -> Seq<char> {
    head_part(s) + lists_part(s) + tail_part(s, archive_text) + paths_part(s) + warnings_section(
        string_views(s.config_warnings@),
    )
}

fn health_part_string(h: &IntegrationHealth, browser: bool) -> (r: String)
    ensures
        r@ == if browser {
            h.name@ + " (ok)"@
        } else {
            health_part(*h)
        },
{
    let mut r = h.name.clone();
    if browser || h.warnings.len() == 0 {
        push_str(&mut r, " (ok)");
    } else {
        push_str(&mut r, " (");
        let j = join_strings(&h.warnings, "; ");
        push_str(&mut r, j.as_str());
        push_str(&mut r, ")");
    }
    r
}

fn list_line_string(s: &mut String, label: &str, items: &Vec<IntegrationHealth>, browser: bool)
    requires
        label@.len() <= 16,
    ensures
        final(s)@ == old(s)@ + list_line(
            label@,
            if browser {
                browser_parts(items@)
            } else {
                health_parts(items@)
            },
        ),
{
    let ghost want = if browser {
        browser_parts(items@)
    } else {
        health_parts(items@)
    };
    if items.len() == 0 {
        assert(s@ =~= s@ + list_line(label@, want));
        return;
    }
    let mut parts: Vec<String> = Vec::new();
    let mut i: usize = 0;
    while i < items.len()
        invariant
            i <= items.len(),
            want == (if browser {
                browser_parts(items@)
            } else {
                health_parts(items@)
            }),
            string_views(parts@) == want.take(i as int),
        decreases items.len() - i,
    {
        let ghost p0 = parts@;
        let p = health_part_string(&items[i], browser);
        parts.push(p);
        assert(string_views(parts@) =~= string_views(p0).push(p@));
        assert(want.take(i + 1) =~= want.take(i as int).push(want[i as int]));
        i += 1;
    }
    assert(want.take(items.len() as int) =~= want);
    let joined = join_strings(&parts, ", ");
    push_report_line(s, label, joined.as_str());
}

fn push_path_line(s: &mut String, label: &str, value: &str)
    requires
        label@.len() <= 12,
    ensures
        final(s)@ == old(s)@ + path_line(label@, value@),
{
    let ghost s0 = s@;
    push_str(s, "  ");
    push_padded(s, label, 12);
    push_str(s, value);
    push_str(s, "\n");
    proof {
        reveal_strlit("\n");
        assert("\n"@ =~= seq!['\n']);
        assert(s@ =~= s0 + path_line(label@, value@));
    }
}

impl StatusInfo {
    fn push_head(&self, s: &mut String)
        ensures
            final(s)@ == old(s)@ + head_part(*self),
    {
        proof {
            reveal_strlit("Recording:");
            reveal_strlit("Engine:");
            reveal_strlit("Idle timeout:");
            reveal_strlit("Session:");
            reveal_strlit("Listener:");
        }
        let ghost s0 = s@;
        let rec = match self.recording {
            RecordingState::Stopped => "stopped",
            RecordingState::Idle => "idle (daemon resident)",
            RecordingState::Recording => "recording",
            RecordingState::Paused => "paused",
            RecordingState::StaleLock => "stale lock (daemon not running): run `attend narrate toggle` to clean up",
            RecordingState::Unknown => "unknown (lock file unreadable)",
        };
        push_report_line(s, "Recording:", rec);
        let mut engine = self.engine.display_name.clone();
        push_str(&mut engine, " (model ");
        if self.engine.model_cached {
            push_str(&mut engine, "downloaded");
        } else {
            push_str(&mut engine, "not downloaded");
        }
        push_str(&mut engine, ")");
        push_report_line(s, "Engine:", engine.as_str());
        push_report_line(s, "Idle timeout:", self.idle_timeout.as_str());
        match &self.session {
            Some(x) => push_report_line(s, "Session:", x.as_str()),
            None => push_report_line(s, "Session:", "none"),
        }
        let lis = match self.listener {
            ListenerState::Inactive => "inactive",
            ListenerState::Active => "active",
            ListenerState::StaleLock => "stale lock",
            ListenerState::Unknown => "unknown (lock file unreadable)",
        };
        push_report_line(s, "Listener:", lis);
        assert(s@ =~= s0 + head_part(*self));
    }

    fn push_tail(&self, s: &mut String, archive_text: &str)
        ensures
            final(s)@ == old(s)@ + tail_part(*self, archive_text@),
    {
        proof {
            reveal_strlit("Accessibility:");
            reveal_strlit("Clipboard:");
            reveal_strlit("Pending:");
            reveal_strlit("Archive:");
        }
        let ghost s0 = s@;
        let acc = match self.accessibility {
            AccessibilityState::Granted => "ok",
            AccessibilityState::PermissionNotGranted => "permission not granted (System Settings > Privacy & Security > Accessibility)",
            AccessibilityState::NotAvailable => "not available (no platform backend)",
        };
        push_report_line(s, "Accessibility:", acc);
        if self.clipboard_enabled {
            push_report_line(s, "Clipboard:", "enabled");
        } else {
            push_report_line(s, "Clipboard:", "disabled");
        }
        let mut pending = decimal_string(self.pending_count as u64);
        push_str(&mut pending, " narration(s)");
        push_report_line(s, "Pending:", pending.as_str());
        push_report_line(s, "Archive:", archive_text);
        assert(s@ =~= s0 + tail_part(*self, archive_text@));
    }

    fn push_paths(&self, s: &mut String)
        ensures
            final(s)@ == old(s)@ + paths_part(*self),
    {
        proof {
            reveal_strlit("Cache:");
            reveal_strlit("Archive:");
            reveal_strlit("Lock:");
            reveal_strlit("Config:");
        }
        let ghost s0 = s@;
        push_str(s, "\nPaths:\n");
        push_path_line(s, "Cache:", self.paths.cache.as_str());
        push_path_line(s, "Archive:", self.paths.archive.as_str());
        push_path_line(s, "Lock:", self.paths.lock.as_str());
        match &self.paths.config {
            Some(c) => push_path_line(s, "Config:", c.as_str()),
            None => {},
        }
        assert(s@ =~= s0 + paths_part(*self));
    }

    fn push_warnings(&self, s: &mut String)
        ensures
            final(s)@ == old(s)@ + warnings_section(string_views(self.config_warnings@)),
    {
        let ghost s0 = s@;
        if self.config_warnings.len() > 0 {
            push_str(s, "\nConfig warnings:\n");
            let ghost wv = string_views(self.config_warnings@);
            let ghost base = s@;
            let mut i: usize = 0;
            while i < self.config_warnings.len()
                invariant
                    i <= self.config_warnings.len(),
                    wv == string_views(self.config_warnings@),
                    s@ == base + warning_lines(wv.take(i as int)),
                decreases self.config_warnings.len() - i,
            {
                push_str(s, "  - ");
                push_str(s, self.config_warnings[i].as_str());
                push_str(s, "\n");
                proof {
                    reveal_strlit("\n");
                    assert("\n"@ =~= seq!['\n']);
                    assert(wv.take(i + 1).drop_last() =~= wv.take(i as int));
                }
                i += 1;
            }
            assert(wv.take(self.config_warnings.len() as int) =~= wv);
            assert(s@ =~= s0 + warnings_section(wv));
        } else {
            assert(s@ =~= s0 + warnings_section(string_views(self.config_warnings@)));
        }
    }

    /// The status report (what `attend narrate status` prints); the archive
    /// size comes already formatted.
    pub fn display_string(&self, archive_text: &str) -> (r: String)
        ensures
            r@ == report(*self, archive_text@),
    {
        proof {
            reveal_strlit("Editors:");
            reveal_strlit("Shells:");
            reveal_strlit("Browsers:");
        }
        let mut s = String::new();
        self.push_head(&mut s);
        list_line_string(&mut s, "Editors:", &self.editors, false);
        list_line_string(&mut s, "Shells:", &self.shells, false);
        list_line_string(&mut s, "Browsers:", &self.browsers, true);
        self.push_tail(&mut s, archive_text);
        self.push_paths(&mut s);
        self.push_warnings(&mut s);
        assert(s@ =~= report(*self, archive_text@));
        s
    }
}

} // verus!
