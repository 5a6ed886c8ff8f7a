//! Narration session bookkeeping: lock files, staged events, the receive
//! listener's decisions and the preparation of pending narrations.
//!
//! The file system, the clock and the processes are the caller's: these
//! functions decide from what the caller read.

use vstd::prelude::*;
use crate::filter::{collapse_spec, filter_all, filter_events, rel_events, relativize_events};
use crate::event_text::signed_decimal;
use crate::merge::{event_views, Event, EventView};
use crate::model::{path_order, path_order_of};
use crate::text::{decimal, decimal_string, digit_char, is_ws, push_str, string_views, trim_chars, trim_spec};

verus! {

broadcast use vstd::string::group_string_axioms;

// ── Lock files ──────────────────────────────────────────────────────────────

/// Whether every character is an ASCII digit.
pub open spec fn all_digits(s: Seq<char>) -> bool {
    forall|i: int| 0 <= i < s.len() ==> '0' <= #[trigger] s[i] && s[i] <= '9'
}

/// The value of a string of decimal digits.
pub open spec fn digits_value(s: Seq<char>) -> int
    decreases s.len(),
{
    if s.len() == 0 {
        0
    } else {
        digits_value(s.drop_last()) * 10 + ((s.last() as u32) - 48)
    }
}

/// Integer syntax of `str::parse`: an optional `+` or `-`, then one or more
/// ASCII digits.
pub open spec fn int_text(s: Seq<char>) -> Option<int> {
    if s.len() > 0 && (s[0] == '+' || s[0] == '-') {
        let d = s.drop_first();
        if d.len() > 0 && all_digits(d) {
            Some(
                if s[0] == '-' {
                    -digits_value(d)
                } else {
                    digits_value(d)
                },
            )
        } else {
            None
        }
    } else if s.len() > 0 && all_digits(s) {
        Some(digits_value(s))
    } else {
        None
    }
}

/// `s.parse::<i64>()`: the integer, when it is well formed and in range.
pub open spec fn parse_i64_spec(s: Seq<char>) -> Option<i64> {
    match int_text(s) {
        Some(v) => if i64::MIN <= v <= i64::MAX {
            Some(v as i64)
        } else {
            None
        },
        None => None,
    }
}

/// `s.parse::<i32>()`: the integer, when it is well formed and in range.
pub open spec fn parse_i32_spec(s: Seq<char>) -> Option<i32> {
    match int_text(s) {
        Some(v) => if i32::MIN <= v <= i32::MAX {
            Some(v as i32)
        } else {
            None
        },
        None => None,
    }
}

proof fn lemma_digits_value_nonneg(s: Seq<char>)
    requires
        all_digits(s),
    ensures
        digits_value(s) >= 0,
    decreases s.len(),
{
    if s.len() > 0 {
        assert(all_digits(s.drop_last()));
        lemma_digits_value_nonneg(s.drop_last());
    }
}

/// The magnitude of a run of digits, or `None` when it exceeds 2^63.
fn digits_magnitude(d: &[char]) -> (r: Option<u64>)
    requires
        all_digits(d@),
    ensures
        match r {
            Some(v) => v == digits_value(d@) && v <= 0x8000_0000_0000_0000,
            None => digits_value(d@) > 0x8000_0000_0000_0000,
        },
{
    let mut acc: u64 = 0;
    let mut i: usize = 0;
    while i < d.len()
        invariant
            i <= d.len(),
            all_digits(d@),
            acc == digits_value(d@.take(i as int)),
            acc <= 0x8000_0000_0000_0000,
        decreases d.len() - i,
    {
        assert(d@.take(i + 1).drop_last() =~= d@.take(i as int));
        assert('0' <= d@[i as int] <= '9');
        let digit = (d[i] as u32 - 48) as u64;
        if acc > (0x8000_0000_0000_0000u64 - digit) / 10 {
            proof {
                let rest = d@.skip(i + 1);
                lemma_digits_grow(d@, i as int + 1);
            }
            return None;
        }
        acc = acc * 10 + digit;
        i += 1;
    }
    assert(d@.take(d.len() as int) =~= d@);
    Some(acc)
}

proof fn lemma_digits_grow(s: Seq<char>, k: int)
    requires
        all_digits(s),
        0 <= k <= s.len(),
    ensures
        digits_value(s) >= digits_value(s.take(k)),
    decreases s.len() - k,
{
    if k < s.len() {
        lemma_digits_grow(s, k + 1);
        assert(s.take(k + 1).drop_last() =~= s.take(k));
        assert(all_digits(s.take(k)));
        lemma_digits_value_nonneg(s.take(k));
    } else {
        assert(s.take(k) =~= s);
    }
}

/// `s.parse::<i64>()`.
pub fn parse_i64(s: &[char]) -> (r: Option<i64>)
    ensures
        r == parse_i64_spec(s@),
{
    if s.len() == 0 {
        return None;
    }
    let signed = s[0] == '+' || s[0] == '-';
    let start: usize = if signed { 1 } else { 0 };
    if start >= s.len() {
        return None;
    }
    let mut i = start;
    while i < s.len()
        invariant
            start <= i <= s.len(),
            s.len() > 0,
            start < s.len(),
            start == (if signed { 1usize } else { 0usize }),
            signed == (s@[0] == '+' || s@[0] == '-'),
            forall|k: int| start <= k < i ==> '0' <= #[trigger] s@[k] && s@[k] <= '9',
        decreases s.len() - i,
    {
        if !('0' <= s[i] && s[i] <= '9') {
            proof {
                if signed {
                    let d = s@.drop_first();
                    assert(d[i - 1] == s@[i as int]);
                    assert(!all_digits(d));
                } else {
                    assert(!all_digits(s@));
                }
            }
            return None;
        }
        i += 1;
    }
    let mut digits: Vec<char> = Vec::new();
    let mut k = start;
    while k < s.len()
        invariant
            start <= k <= s.len(),
            digits@ == s@.subrange(start as int, k as int),
        decreases s.len() - k,
    {
        digits.push(s[k]);
        k += 1;
    }
    let ghost d = digits@;
    proof {
        if signed {
            assert(d =~= s@.drop_first());
        } else {
            assert(d =~= s@);
        }
        assert(all_digits(d));
        lemma_digits_value_nonneg(d);
    }
    match digits_magnitude(digits.as_slice()) {
        Some(m) => {
            if signed && s[0] == '-' {
                if m == 0x8000_0000_0000_0000 {
                    Some(i64::MIN)
                } else {
                    Some(-(m as i64))
                }
            } else if m <= 0x7fff_ffff_ffff_ffff {
                Some(m as i64)
            } else {
                None
            }
        },
        None => None,
    }
}

/// `s.parse::<i32>()`.
pub fn parse_i32(s: &[char]) -> (r: Option<i32>)
    ensures
        r == parse_i32_spec(s@),
{
    match parse_i64(s) {
        Some(v) => {
            if v >= -2147483648 && v <= 2147483647 {
                Some(v as i32)
            } else {
                None
            }
        },
        None => {
            proof {
                if int_text(s@) is Some {
                    let v = int_text(s@).unwrap();
                    assert(!(i64::MIN <= v <= i64::MAX));
                }
            }
            None
        },
    }
}

/// The index of the first `:` of `s` (-1 when there is none).
pub open spec fn first_colon(s: Seq<char>) -> int
    decreases s.len(),
{
    if s.len() == 0 {
        -1
    } else {
        let q = first_colon(s.drop_last());
        if q >= 0 {
            q
        } else if s.last() == ':' {
            s.len() - 1
        } else {
            -1
        }
    }
}

/// A lock file's content: `PID:TIMESTAMP` (Unix seconds), or a bare `PID`
/// (legacy), with surrounding whitespace ignored.
pub open spec fn lock_content_spec(content: Seq<char>) -> Option<(i32, Option<i64>)> {
    let t = trim_spec(content);
    let c = first_colon(t);
    if c >= 0 {
        match (parse_i32_spec(t.take(c)), parse_i64_spec(t.skip(c + 1))) {
            (Some(pid), Some(ts)) => Some((pid, Some(ts))),
            _ => None,
        }
    } else {
        match parse_i32_spec(t) {
            Some(pid) => Some((pid, None)),
            None => None,
        }
    }
}

proof fn lemma_first_colon_range(s: Seq<char>)
    ensures
        -1 <= first_colon(s) < s.len(),
        first_colon(s) >= 0 ==> s[first_colon(s)] == ':',
    decreases s.len(),
{
    if s.len() > 0 {
        lemma_first_colon_range(s.drop_last());
    }
}

/// Parse a lock file's content into the owner's PID and, in the current
/// format, its start time (Unix seconds). `None` when it cannot be parsed.
pub fn parse_lock_content(content: &str) -> (r: Option<(i32, Option<i64>)>)
    ensures
        r == lock_content_spec(content@),
{
    let t = trim_chars(content);
    let mut c: Option<usize> = None;
    let mut i: usize = 0;
    while i < t.len()
        invariant
            i <= t.len(),
            match c {
                Some(k) => k < i && k == first_colon(t@.take(i as int)),
                None => first_colon(t@.take(i as int)) == -1,
            },
        decreases t.len() - i,
    {
        assert(t@.take(i + 1).drop_last() =~= t@.take(i as int));
        if c.is_none() && t[i] == ':' {
            c = Some(i);
        }
        i += 1;
    }
    assert(t@.take(t.len() as int) =~= t@);
    match c {
        Some(k) => {
            let mut head: Vec<char> = Vec::new();
            let mut j: usize = 0;
            while j < k
                invariant
                    j <= k < t.len(),
                    head@ == t@.take(j as int),
                decreases k - j,
            {
                head.push(t[j]);
                assert(t@.take(j + 1) =~= t@.take(j as int).push(t@[j as int]));
                j += 1;
            }
            let mut tail: Vec<char> = Vec::new();
            let mut m = k + 1;
            while m < t.len()
                invariant
                    k < m <= t.len(),
                    tail@ == t@.subrange(k + 1, m as int),
                decreases t.len() - m,
            {
                tail.push(t[m]);
                m += 1;
            }
            assert(tail@ =~= t@.skip(k + 1));
            match (parse_i32(head.as_slice()), parse_i64(tail.as_slice())) {
                (Some(pid), Some(ts)) => Some((pid, Some(ts))),
                _ => None,
            }
        },
        None => match parse_i32(t.as_slice()) {
            Some(pid) => Some((pid, None)),
            None => None,
        },
    }
}

/// The content written to a lock file: `PID:TIMESTAMP` and a newline, the
/// owner's process ID and its start time in Unix seconds.
pub fn lock_file_content(pid: u32, now: u64) -> (r: String)
    ensures
        r@ == decimal(pid as nat) + seq![':'] + decimal(now as nat) + seq!['\n'],
{
    let mut s = decimal_string(pid as u64);
    let sep = ":";
    proof {
        reveal_strlit(":");
        assert(sep@ =~= seq![':']);
    }
    push_str(&mut s, sep);
    let tail = decimal_string(now);
    push_str(&mut s, tail.as_str());
    let nl = "\n";
    proof {
        reveal_strlit("\n");
        assert(nl@ =~= seq!['\n']);
    }
    push_str(&mut s, nl);
    s
}

proof fn lemma_decimal_digits(n: nat)
    ensures
        decimal(n).len() > 0,
        all_digits(decimal(n)),
        digits_value(decimal(n)) == n,
    decreases n,
{
    reveal_with_fuel(digits_value, 2);
    let d = decimal(n);
    if n < 10 {
        assert(d.drop_last() =~= Seq::<char>::empty());
        assert((digit_char(n) as u32) == n + 48);
    } else {
        lemma_decimal_digits(n / 10);
        let h = decimal(n / 10);
        assert(d == h.push(digit_char(n % 10)));
        assert(d.drop_last() =~= h);
        assert((digit_char(n % 10) as u32) == n % 10 + 48);
        assert forall|i: int| 0 <= i < d.len() implies '0' <= #[trigger] d[i] && d[i] <= '9' by {
            if i < h.len() {
                assert(d[i] == h[i]);
            }
        }
        assert(n == (n / 10) * 10 + n % 10) by (nonlinear_arith);
    }
}

proof fn lemma_no_colon(s: Seq<char>)
    requires
        forall|i: int| 0 <= i < s.len() ==> #[trigger] s[i] != ':',
    ensures
        first_colon(s) == -1,
    decreases s.len(),
{
    if s.len() > 0 {
        let t = s.drop_last();
        assert forall|i: int| 0 <= i < t.len() implies #[trigger] t[i] != ':' by {
            assert(t[i] == s[i]);
        }
        lemma_no_colon(t);
        assert(s[s.len() - 1] != ':');
    }
}

proof fn lemma_colon_at(s: Seq<char>, q: int)
    requires
        0 <= q < s.len(),
        s[q] == ':',
        first_colon(s.take(q)) == -1,
    ensures
        first_colon(s) == q,
    decreases s.len(),
{
    if s.len() - 1 == q {
        assert(s.drop_last() =~= s.take(q));
    } else {
        assert(s.drop_last().take(q) =~= s.take(q));
        lemma_colon_at(s.drop_last(), q);
    }
}

/// Reading back a lock file gives what was written: the content written for
/// a process ID and a start time parses to that ID and time.
pub proof fn law_lock_content_roundtrip(pid: u32, now: u64)
    requires
        pid <= i32::MAX,
        now <= i64::MAX,
    ensures
        lock_content_spec(decimal(pid as nat) + seq![':'] + decimal(now as nat) + seq!['\n']) == Some(
            (pid as i32, Some(now as i64)),
        ),
{
    let p = pid as i32;
    let t = now as i64;
    assert(p as int == pid as int);
    assert(t as int == now as int);
    law_lock_content_parse(p, t);
    let a = signed_decimal(p as int);
    let b = signed_decimal(t as int);
    assert(a == decimal(pid as nat));
    assert(b == decimal(now as nat));
    let c = a + seq![':'] + b;
    lemma_signed_text(p as int);
    lemma_signed_text(t as int);
    assert(c[0] == a[0]);
    assert(c.last() == b.last());
    lemma_trim_newline(c);
    lemma_trim_plain(c);
    assert(trim_spec(c + seq!['\n']) == trim_spec(c));
    assert(lock_content_spec(c + seq!['\n']) == lock_content_spec(c));
}

/// The parser reads back every `PID:TIMESTAMP` and every legacy bare `PID`,
/// signs included, as `format!` writes them: `{pid}:{ts}` gives the PID and
/// the time, `{pid}` gives the PID alone.
pub proof fn law_lock_content_parse(pid: i32, ts: i64)
    ensures
        lock_content_spec(signed_decimal(pid as int) + seq![':'] + signed_decimal(ts as int)) == Some(
            (pid, Some(ts)),
        ),
        lock_content_spec(signed_decimal(pid as int)) == Some((pid, None::<i64>)),
{
    let a = signed_decimal(pid as int);
    let b = signed_decimal(ts as int);
    let c = a + seq![':'] + b;
    lemma_signed_text(pid as int);
    lemma_signed_text(ts as int);
    assert(c[0] == a[0]);
    assert(c.last() == b[b.len() - 1]);
    lemma_trim_plain(c);
    lemma_trim_plain(a);
    assert(c.take(a.len() as int) =~= a);
    lemma_no_colon(a);
    lemma_colon_at(c, a.len() as int);
    assert(c.skip(a.len() as int + 1) =~= b);
}

/// `format!("{v}")` of an integer: its digits, after a `-` when negative.
proof fn lemma_signed_text(v: int)
    ensures
        int_text(signed_decimal(v)) == Some(v),
        signed_decimal(v).len() > 0,
        !is_ws(signed_decimal(v)[0]),
        '0' <= signed_decimal(v).last() <= '9',
        forall|i: int| 0 <= i < signed_decimal(v).len() ==> #[trigger] signed_decimal(v)[i] != ':',
{
    if v < 0 {
        let d = decimal((-v) as nat);
        lemma_int_text_decimal((-v) as nat);
        let s = signed_decimal(v);
        assert(s == seq!['-'] + d);
        assert(s.drop_first() =~= d);
        assert(s.last() == d.last());
        assert forall|i: int| 0 <= i < s.len() implies #[trigger] s[i] != ':' by {
            if i > 0 {
                assert(s[i] == d[i - 1]);
            }
        }
    } else {
        let d = decimal(v as nat);
        lemma_int_text_decimal(v as nat);
        assert(!(d[0] == '+' || d[0] == '-'));
    }
}

proof fn lemma_trim_newline(c: Seq<char>)
    requires
        c.len() > 0,
        !is_ws(c[0]),
        '0' <= c.last() <= '9',
    ensures
        trim_spec(c + seq!['\n']) == c,
{
    let t = c + seq!['\n'];
    assert(is_ws('\n'));
    assert(t[0] == c[0]);
    assert(crate::text::trim_start_index(t) == 0);
    assert(t.drop_last() =~= c);
    assert(crate::text::trim_end_index(c) == c.len());
    assert(crate::text::trim_end_index(t) == c.len());
    assert(t.subrange(0, c.len() as int) =~= c);
}

proof fn lemma_int_text_decimal(n: nat)
    ensures
        int_text(decimal(n)) == Some(n as int),
        '0' <= decimal(n)[0] <= '9',
        '0' <= decimal(n).last() <= '9',
        all_digits(decimal(n)),
{
    lemma_decimal_digits(n);
    let d = decimal(n);
    assert('0' <= d[0] <= '9');
    assert('0' <= d[d.len() - 1] <= '9');
}

proof fn lemma_trim_plain(c: Seq<char>)
    requires
        c.len() > 0,
        !is_ws(c[0]),
        '0' <= c.last() <= '9',
    ensures
        trim_spec(c) == c,
{
    assert(!is_ws(c.last()));
    assert(crate::text::trim_start_index(c) == 0);
    assert(crate::text::trim_end_index(c) == c.len());
    assert(c.subrange(0, c.len() as int) =~= c);
}

/// How to check whether a lock's owner is alive.
#[derive(Debug, Clone, Copy, PartialEq, Eq, Structural)]
pub enum LivenessCheck {
    /// The content is unreadable: the owner counts as dead.
    Unparseable,
    /// Legacy lock: whether the PID exists.
    Pid(i32),
    /// Whether the PID exists and was started at (about) this time.
    PidSince(i32, i64),
}

/// What to check for the owner of a lock with this content.
pub fn lock_liveness(content: &str) -> (r: LivenessCheck)
    ensures
        r == match lock_content_spec(content@) {
            Some((pid, Some(ts))) => LivenessCheck::PidSince(pid, ts),
            Some((pid, None)) => LivenessCheck::Pid(pid),
            None => LivenessCheck::Unparseable,
        },
{
    match parse_lock_content(content) {
        Some((pid, Some(ts))) => LivenessCheck::PidSince(pid, ts),
        Some((pid, None)) => LivenessCheck::Pid(pid),
        None => LivenessCheck::Unparseable,
    }
}

/// Whether a process started at `start_time` is the one the lock recorded as
/// created at `created_at`: at most two seconds apart (a larger gap means
/// the PID was reused).
pub fn started_near(start_time: i64, created_at: i64) -> (r: bool)
    ensures
        r == (-2 <= start_time - created_at <= 2),
{
    let d = start_time as i128 - created_at as i128;
    -2 <= d && d <= 2
}

// ── Session directories ─────────────────────────────────────────────────────

/// The directory key of a session: its ID, or `_local` without one.
pub open spec fn dir_key_spec(session: Option<Seq<char>>) -> Seq<char> {
    match session {
        Some(s) => s,
        None => "_local"@,
    }
}

/// The directory key of a session: its ID, or `_local` when no agent
/// session is active.
pub fn dir_key(session_id: Option<&str>) -> (r: String)
    ensures
        r@ == dir_key_spec(match session_id {
            Some(s) => Some(s@),
            None => None,
        }),
{
    match session_id {
        Some(s) => s.to_string(),
        None => "_local".to_string(),
    }
}

/// The session to use: the one given, else the one listening.
pub fn resolve_session(flag: Option<String>, listening: Option<String>) -> (r: Option<String>)
    ensures
        r == match flag {
            Some(f) => Some(f),
            None => listening,
        },
{
    match flag {
        Some(f) => Some(f),
        None => listening,
    }
}

// ── Staged events ───────────────────────────────────────────────────────────

/// Collected staged events, with the paths of their files for cleanup.
pub struct StagingResult {
    pub events: Vec<Event>,
    pub files: Vec<String>,
}

/// Deferred cleanup handle: the staging files to remove once the narration
/// is safely written.
pub struct StagingCleanup {
    pub files: Vec<String>,
}

impl StagingResult {
    /// Split into events (for merging) and a cleanup handle.
    pub fn take(self) -> (r: (Vec<Event>, StagingCleanup))
        ensures
            r.0@ == self.events@,
            r.1.files@ == self.files@,
    {
        (self.events, StagingCleanup { files: self.files })
    }
}

/// The staged events of a file, with its time, or `None` when the file
/// predates the recording period (it is then removed).
pub open spec fn staged_events_spec(
    file_time: Option<i64>,
    period_start: i64,
    now: i64,
    events: Seq<EventView>,
) -> Option<Seq<EventView>> {
    match file_time {
        Some(ft) => if ft < period_start {
            None
        } else {
            Some(stamp_all(events, ft))
        },
        None => Some(stamp_all(events, now)),
    }
}

/// Every event stamped with the time `t`.
pub open spec fn stamp_all(events: Seq<EventView>, t: i64) -> Seq<EventView> {
    events.map_values(|e: EventView| stamp_event(e, t))
}

/// A staged event stamped with its file's time: browser selections get it as
/// timestamp and last-seen time, shell commands as timestamp.
pub open spec fn stamp_event(e: EventView, t: i64) -> EventView {
    match e {
        EventView::BrowserSelection { url, title, text, plain_text, .. } => {
            EventView::BrowserSelection { timestamp: t, last_seen: t, url, title, text, plain_text }
        },
        EventView::ShellCommand { shell, command, cwd, exit_status, duration_secs_bits, .. } => {
            EventView::ShellCommand { timestamp: t, shell, command, cwd, exit_status, duration_secs_bits }
        },
        _ => e,
    }
}

fn stamp(e: Event, t: i64) -> (r: Event)
    ensures
        r@ == stamp_event(e@, t),
{
    match e {
        Event::BrowserSelection { url, title, text, plain_text, .. } => {
            Event::BrowserSelection { timestamp: t, last_seen: t, url, title, text, plain_text }
        },
        Event::ShellCommand { shell, command, cwd, exit_status, duration_secs_bits, .. } => {
            Event::ShellCommand { timestamp: t, shell, command, cwd, exit_status, duration_secs_bits }
        },
        other => other,
    }
}

/// The events of one staging file: dropped when the file's time (from its
/// name) predates the recording period; otherwise stamped with that time, or
/// with `now` when the name carries none.
pub fn staged_events(file_time: Option<i64>, period_start: i64, now: i64, events: Vec<Event>) -> (r: Option<Vec<Event>>)
    ensures
        match staged_events_spec(file_time, period_start, now, event_views(events@)) {
            None => r is None,
            Some(s) => r matches Some(v) && event_views(v@) == s,
        },
{
    let t = match file_time {
        Some(ft) => {
            if ft < period_start {
                return None;
            }
            ft
        },
        None => now,
    };
    let ghost ev = event_views(events@);
    let n = events.len();
    let mut out: Vec<Event> = Vec::new();
    let mut idx: usize = 0;
    for e in it: events
        invariant
            idx == it.index(),
            ev == event_views(it.seq()),
            ev.len() == n,
            event_views(out@) == stamp_all(ev.take(idx as int), t),
    {
        let ghost o0 = event_views(out@);
        let ghost e0 = e@;
        out.push(stamp(e, t));
        proof {
            assert(ev[idx as int] == e0);
            assert(event_views(out@) =~= o0.push(stamp_event(e0, t)));
            assert(stamp_all(ev.take(idx + 1), t) =~= stamp_all(ev.take(idx as int), t).push(
                stamp_event(e0, t),
            ));
        }
        idx += 1;
    }
    assert(ev.take(n as int) =~= ev);
    Some(out)
}

/// `Path::file_stem` of a path, as a string.
pub uninterp spec fn path_stem_of(path: Seq<char>) -> Option<Seq<char>>;

/// The file name of a path without its extension.
///
/// Trusted: calls `std::path::Path::file_stem`, a function of the path
/// alone; a stem of a `&str` path is valid UTF-8, so `to_str` keeps it.
#[verifier::external_body]
fn path_stem(path: &str) -> (r: Option<String>)
    ensures
        match path_stem_of(path@) {
            Some(s) => r matches Some(x) && x@ == s,
            None => r is None,
        },
{
    std::path::Path::new(path).file_stem().and_then(|s| s.to_str()).map(|s| s.to_string())
}

/// `chrono::NaiveDateTime::parse_from_str(text, format)` read as UTC, in
/// nanoseconds since the Unix epoch (`None` when it does not parse or does
/// not fit).
pub uninterp spec fn naive_utc_nanos(text: Seq<char>, format: Seq<char>) -> Option<i64>;

/// Parse a date and time without a zone, as UTC nanoseconds.
///
/// Trusted: calls `chrono::NaiveDateTime::parse_from_str`, a function of the
/// text and the format alone, and converts the result to nanoseconds.
#[verifier::external_body]
fn parse_naive_utc(text: &str, format: &str) -> (r: Option<i64>)
    ensures
        r == naive_utc_nanos(text@, format@),
{
    chrono::NaiveDateTime::parse_from_str(text, format).ok().and_then(|n| n.and_utc().timestamp_nanos_opt())
}

/// The index of the first `Z` of `s` (-1 when there is none).
pub open spec fn first_z(s: Seq<char>) -> int
    decreases s.len(),
{
    if s.len() == 0 {
        -1
    } else {
        let q = first_z(s.drop_last());
        if q >= 0 {
            q
        } else if s.last() == 'Z' {
            s.len() - 1
        } else {
            -1
        }
    }
}

/// The timestamp part of a staging file's name: up to and including its
/// first `Z`, or the whole name.
pub open spec fn timestamp_part(stem: Seq<char>) -> Seq<char> {
    if first_z(stem) >= 0 {
        stem.take(first_z(stem) + 1)
    } else {
        stem
    }
}

/// The time a staging file's name records: `2026-02-23T22-42-28Z`, with
/// optional fractional seconds, maybe followed by a suffix after the `Z`.
pub open spec fn staging_time_spec(path: Seq<char>) -> Option<i64> {
    match path_stem_of(path) {
        None => None,
        Some(stem) => {
            let t = timestamp_part(stem);
            match naive_utc_nanos(t, "%Y-%m-%dT%H-%M-%S%.fZ"@) {
                Some(x) => Some(x),
                None => naive_utc_nanos(t, "%Y-%m-%dT%H-%M-%SZ"@),
            }
        },
    }
}

proof fn lemma_first_z_range(s: Seq<char>)
    ensures
        -1 <= first_z(s) < s.len(),
    decreases s.len(),
{
    if s.len() > 0 {
        lemma_first_z_range(s.drop_last());
    }
}

/// The UTC time (nanoseconds) recorded in a staging file's name, if any.
pub fn staging_file_time(path: &str) -> (r: Option<i64>)
    ensures
        r == staging_time_spec(path@),
{
    let stem = match path_stem(path) {
        Some(s) => s,
        None => return None,
    };
    let part = timestamp_part_of(stem.as_str());
    match parse_naive_utc(part.as_str(), "%Y-%m-%dT%H-%M-%S%.fZ") {
        Some(x) => Some(x),
        None => parse_naive_utc(part.as_str(), "%Y-%m-%dT%H-%M-%SZ"),
    }
}

/// The timestamp part of a staging file's stem: up to and including its
/// first `Z`, or the whole stem when it has none.
pub fn timestamp_part_of(stem: &str) -> (r: String)
    ensures
        r@ == timestamp_part(stem@),
{
    let cs = crate::text::chars_of(stem);
    let mut z: Option<usize> = None;
    let mut i: usize = 0;
    while i < cs.len()
        invariant
            i <= cs.len(),
            cs@ == stem@,
            match z {
                Some(k) => k < i && k == first_z(cs@.take(i as int)),
                None => first_z(cs@.take(i as int)) == -1,
            },
        decreases cs.len() - i,
    {
        assert(cs@.take(i + 1).drop_last() =~= cs@.take(i as int));
        if z.is_none() && cs[i] == 'Z' {
            z = Some(i);
        }
        i += 1;
    }
    assert(cs@.take(cs.len() as int) =~= cs@);
    proof {
        lemma_first_z_range(cs@);
    }
    let part = match z {
        Some(k) => {
            let mut head: Vec<char> = Vec::new();
            let mut j: usize = 0;
            while j <= k
                invariant
                    j <= k + 1,
                    k < cs.len(),
                    head@ == cs@.take(j as int),
                decreases k + 1 - j,
            {
                head.push(cs[j]);
                assert(cs@.take(j + 1) =~= cs@.take(j as int).push(cs@[j as int]));
                j += 1;
            }
            crate::text::string_of(head.as_slice())
        },
        None => stem.to_string(),
    };
    assert(part@ == timestamp_part(stem@));
    part
}

// ── Cleanup ─────────────────────────────────────────────────────────────────

/// Whether a file last modified at `modified` is older than the retention
/// `older_than` at time `now` (all in nanoseconds).
pub fn expired(modified: i64, now: i64, older_than: i64) -> (r: bool)
    ensures
        r == (modified < now - older_than),
{
    (modified as i128) < (now as i128) - (older_than as i128)
}

/// `humantime::format_duration` of a duration of `secs` seconds and
/// `nanos` nanoseconds.
pub uninterp spec fn duration_text_of(secs: u64, nanos: u32) -> Seq<char>;

/// The human-readable form of a duration (`7days`, `1h 30m`).
///
/// Trusted: calls `humantime::format_duration`, a function of the duration
/// alone, and renders it with `Display`.
#[verifier::external_body]
fn duration_text(secs: u64, nanos: u32) -> (r: String)
    requires
        nanos < 1_000_000_000,
    ensures
        r@ == duration_text_of(secs, nanos),
{
    humantime::format_duration(std::time::Duration::new(secs, nanos)).to_string()
}

/// What `attend narrate clean` reports.
pub open spec fn clean_summary_text(archived: u64, pending: u64, images: u64, secs: u64, nanos: u32) -> Seq<char> {
    "Removed "@ + decimal((archived + pending) as nat) + " narration(s) ("@ + decimal(archived as nat)
        + " archived, "@ + decimal(pending as nat) + " stale pending) and "@ + decimal(images as nat)
        + " clipboard image(s) older than "@ + duration_text_of(secs, nanos) + "."@
}

/// The cleanup report: how many archived and stale pending narrations and
/// clipboard images were removed, and the age limit.
pub fn clean_summary(archived: u64, pending: u64, images: u64, secs: u64, nanos: u32) -> (r: String)
    requires
        archived + pending <= u64::MAX,
        nanos < 1_000_000_000,
    ensures
        r@ == clean_summary_text(archived, pending, images, secs, nanos),
{
    let mut s = "Removed ".to_string();
    push_str(&mut s, decimal_string(archived + pending).as_str());
    push_str(&mut s, " narration(s) (");
    push_str(&mut s, decimal_string(archived).as_str());
    push_str(&mut s, " archived, ");
    push_str(&mut s, decimal_string(pending).as_str());
    push_str(&mut s, " stale pending) and ");
    push_str(&mut s, decimal_string(images).as_str());
    push_str(&mut s, " clipboard image(s) older than ");
    push_str(&mut s, duration_text(secs, nanos).as_str());
    push_str(&mut s, ".");
    s
}

// ── The receive listener ────────────────────────────────────────────────────

/// How the receive command runs.
#[derive(Debug, Clone, PartialEq, Eq)]
pub enum ReceiveMode {
    /// Check once for pending narration for the session, print and archive it.
    Once(String),
    /// Hold the listener lock and poll for pending narration for the session.
    Wait(String),
    /// No session: run `/attend` first.
    NoSession,
}

/// The mode of the receive command: with `--wait` the polling listener,
/// otherwise a single check, for the session given or else the listening
/// one; no session is an error.
pub fn run(wait: bool, session_flag: Option<String>, listening: Option<String>) -> (r: ReceiveMode)
    ensures
        match resolve_session_spec(session_flag, listening) {
            None => r == ReceiveMode::NoSession,
            Some(s) => if wait {
                r == ReceiveMode::Wait(s)
            } else {
                r == ReceiveMode::Once(s)
            },
        },
{
    match resolve_session(session_flag, listening) {
        None => ReceiveMode::NoSession,
        Some(s) => if wait {
            ReceiveMode::Wait(s)
        } else {
            ReceiveMode::Once(s)
        },
    }
}

/// The session to use: the one given, else the one listening.
pub open spec fn resolve_session_spec(flag: Option<String>, listening: Option<String>) -> Option<String> {
    match flag {
        Some(f) => Some(f),
        None => listening,
    }
}

/// One poll of the waiting listener.
#[derive(Debug, Clone, Copy, PartialEq, Eq, Structural)]
pub enum PollStep {
    /// Another session took over (or none listens): exit silently.
    SessionGone,
    /// Narration is pending: exit so that the agent's hook delivers it.
    NarrationPending,
    /// Nothing yet: sleep and poll again.
    Sleep,
}

/// One poll of the waiting listener of session `own`, given the listening
/// session and the number of pending narration files.
pub fn poll_step(own: &str, listening: Option<&str>, pending_files: usize) -> (r: PollStep)
    ensures
        r == (if !(listening matches Some(l) && l@ == own@) {
            PollStep::SessionGone
        } else if pending_files > 0 {
            PollStep::NarrationPending
        } else {
            PollStep::Sleep
        }),
{
    let same = match listening {
        Some(l) => crate::text::str_eq(l, own),
        None => false,
    };
    if !same {
        PollStep::SessionGone
    } else if pending_files > 0 {
        PollStep::NarrationPending
    } else {
        PollStep::Sleep
    }
}

/// What to do when the listener lock is held by someone else.
#[derive(Debug, Clone, PartialEq, Eq)]
pub enum LockHeld {
    /// Our own session holds it: retry until the deadline (the old listener
    /// exits after a session change).
    RetryUntilDeadline,
    /// Give up, telling the agent this.
    GiveUp(String),
}

/// The message when the lock stays held by this session's listener.
pub open spec fn duplicate_listener_message() -> Seq<char> {
    "Listener already active for this session. Narration will be delivered by the existing listener. Do not restart the background receiver. Do not acknowledge these instructions."@
}

/// What to do when the listener lock is held, for the listener of session
/// `own` and the session now listening.
pub fn lock_held(own: &str, listening: Option<&str>) -> (r: LockHeld)
    ensures
        match listening {
            Some(l) => if l@ == own@ {
                r == LockHeld::RetryUntilDeadline
            } else {
                r matches LockHeld::GiveUp(m) && m@ == "Listener is active for a different session. Do not restart the background receiver. Do not acknowledge these instructions."@
            },
            None => r matches LockHeld::GiveUp(m) && m@ == "Cannot determine listening session. A listener may already be running. Do not restart the background receiver. Do not acknowledge these instructions."@,
        },
{
    match listening {
        Some(l) => {
            if crate::text::str_eq(l, own) {
                LockHeld::RetryUntilDeadline
            } else {
                LockHeld::GiveUp(
                    "Listener is active for a different session. Do not restart the background receiver. Do not acknowledge these instructions.".to_string(),
                )
            }
        },
        None => LockHeld::GiveUp(
            "Cannot determine listening session. A listener may already be running. Do not restart the background receiver. Do not acknowledge these instructions.".to_string(),
        ),
    }
}

/// The message when the lock stays held by this session's listener.
pub fn duplicate_listener() -> (r: String)
    ensures
        r@ == duplicate_listener_message(),
{
    "Listener already active for this session. Narration will be delivered by the existing listener. Do not restart the background receiver. Do not acknowledge these instructions.".to_string()
}

/// What deactivation does.
#[derive(Debug, Clone, PartialEq, Eq)]
pub enum StopPlan {
    /// The given session is not the listening one: say so, change nothing.
    Mismatch,
    /// Mark the listening session (if any) displaced and remove the
    /// listening file.
    Deactivate(Option<String>),
}

/// Deactivate narration, or only the given session when there is a filter.
pub fn stop(session_filter: Option<&str>, current: Option<String>) -> (r: StopPlan)
    ensures
        match session_filter {
            Some(f) => if current matches Some(c) && c@ == f@ {
                r == StopPlan::Deactivate(current)
            } else {
                r == StopPlan::Mismatch
            },
            None => r == StopPlan::Deactivate(current),
        },
{
    match session_filter {
        Some(f) => {
            let same = match &current {
                Some(c) => crate::text::str_eq(c.as_str(), f),
                None => false,
            };
            if same {
                StopPlan::Deactivate(current)
            } else {
                StopPlan::Mismatch
            }
        },
        None => StopPlan::Deactivate(current),
    }
}

// ── Pending narrations ──────────────────────────────────────────────────────

/// The events of the pending files, each file filtered to the project and
/// relativized when there is a project directory, concatenated.
pub open spec fn pending_events(
    batches: Seq<Seq<EventView>>,
    cwd: Option<Seq<char>>,
    dirs: Seq<Seq<char>>,
) -> Seq<EventView>
    decreases batches.len(),
{
    if batches.len() == 0 {
        Seq::empty()
    } else {
        pending_events(batches.drop_last(), cwd, dirs) + match cwd {
            Some(c) => rel_events(collapse_spec(filter_all(batches.last(), c, dirs)), c),
            None => batches.last(),
        }
    }
}

/// A redaction marker.
pub open spec fn is_marker(e: EventView) -> bool {
    e is Redacted
}

/// The events without a leading editor snapshot.
pub open spec fn without_leading_snapshot(all: Seq<EventView>) -> Seq<EventView> {
    if all.len() > 0 && all[0] is EditorSnapshot {
        all.drop_first()
    } else {
        all
    }
}

/// What remains to deliver: without the leading editor snapshot (the hook
/// delivers the current editor state itself), and nothing when nothing or
/// only redaction markers remain.
pub open spec fn deliverable(all: Seq<EventView>) -> Option<Seq<EventView>> {
    let rest = without_leading_snapshot(all);
    if rest.len() == 0 {
        None
    } else if forall|i: int| 0 <= i < rest.len() ==> #[trigger] is_marker(rest[i]) {
        None
    } else {
        Some(rest)
    }
}

/// The models of batches of events.
pub open spec fn batch_views(b: Seq<Vec<Event>>) -> Seq<Seq<EventView>> {
    b.map_values(|v: Vec<Event>| event_views(v@))
}

/// The events to render from the parsed pending files: each filtered to the
/// project (`cwd` and `include_dirs`) and relativized when there is a
/// project directory, then without a leading editor snapshot; `None` when
/// nothing but redaction markers would be delivered.
pub fn prepare_pending(batches: Vec<Vec<Event>>, cwd: Option<&str>, include_dirs: &Vec<String>) -> (r: Option<Vec<Event>>)
    ensures
        match deliverable(pending_events(batch_views(batches@), crate::paths::opt_view(cwd), string_views(include_dirs@))) {
            None => r is None,
            Some(s) => r matches Some(v) && event_views(v@) == s,
        },
{
    let ghost bv = batch_views(batches@);
    let ghost dirs = string_views(include_dirs@);
    let n = batches.len();
    let mut all: Vec<Event> = Vec::new();
    let mut idx: usize = 0;
    for batch in it: batches
        invariant
            idx == it.index(),
            bv == batch_views(it.seq()),
            bv.len() == n,
            dirs == string_views(include_dirs@),
            event_views(all@) == pending_events(bv.take(idx as int), crate::paths::opt_view(cwd), dirs),
    {
        proof {
            assert(bv.take(idx + 1).drop_last() =~= bv.take(idx as int));
            assert(bv.take(idx + 1).last() == event_views(batch@));
        }
        let mut events = batch;
        match cwd {
            Some(c) => {
                filter_events(&mut events, c, include_dirs);
                relativize_events(&mut events, c);
            },
            None => {},
        }
        let ghost a0 = event_views(all@);
        let ghost e0 = event_views(events@);
        all.append(&mut events);
        assert(event_views(all@) =~= a0 + e0);
        idx += 1;
    }
    assert(bv.take(n as int) =~= bv);
    let ghost full = event_views(all@);
    assert(full == pending_events(bv, crate::paths::opt_view(cwd), dirs));
    let leading = all.len() > 0 && match &all[0] {
        Event::EditorSnapshot { .. } => true,
        _ => false,
    };
    assert(leading == (full.len() > 0 && full[0] is EditorSnapshot));
    if leading {
        all.remove(0);
        assert(event_views(all@) =~= full.drop_first());
    }
    let ghost rest = event_views(all@);
    assert(rest == without_leading_snapshot(full));
    if all.len() == 0 {
        return None;
    }
    let mut witness: Option<usize> = None;
    let mut i: usize = 0;
    while i < all.len()
        invariant
            i <= all.len(),
            rest == event_views(all@),
            witness matches Some(w) ==> w < all.len() && !is_marker(rest[w as int]),
            witness is None ==> forall|k: int| 0 <= k < i ==> #[trigger] is_marker(rest[k]),
        decreases all.len() - i,
    {
        let marker = match &all[i] {
            Event::Redacted { .. } => true,
            _ => false,
        };
        assert(marker == is_marker(rest[i as int]));
        if !marker {
            witness = Some(i);
        }
        i += 1;
    }
    match witness {
        None => {
            assert(deliverable(full) is None);
            None
        },
        Some(w) => {
            assert(!is_marker(rest[w as int]));
            assert(rest.len() > 0);
            assert(!(forall|k: int| 0 <= k < rest.len() ==> #[trigger] is_marker(rest[k])));
            assert(deliverable(full) == Some(rest));
            Some(all)
        },
    }
}


// ── Pending files ───────────────────────────────────────────────────────────

/// `Path::extension` of a path.
pub uninterp spec fn path_extension_of(path: Seq<char>) -> Option<Seq<char>>;

/// The extension of the path's file name.
///
/// Trusted: calls `std::path::Path::extension`, a function of the path
/// alone; the extension of a `&str` path is valid UTF-8, so `to_str` keeps it.
#[verifier::external_body]
fn path_extension(path: &str) -> (r: Option<String>)
    ensures
        match path_extension_of(path@) {
            Some(e) => r matches Some(x) && x@ == e,
            None => r is None,
        },
{
    std::path::Path::new(path).extension().and_then(|e| e.to_str()).map(|e| e.to_string())
}

/// Whether a path names a `.json` file.
pub open spec fn is_json_file(path: Seq<char>) -> bool {
    path_extension_of(path) == Some(seq!['j', 's', 'o', 'n'])
}

/// The `.json` files among the paths, in their order.
pub open spec fn json_files(paths: Seq<Seq<char>>) -> Seq<Seq<char>>
    decreases paths.len(),
{
    if paths.len() == 0 {
        Seq::empty()
    } else if is_json_file(paths.last()) {
        json_files(paths.drop_last()).push(paths.last())
    } else {
        json_files(paths.drop_last())
    }
}

/// There are no more `.json` files than paths.
pub proof fn lemma_json_files_len(paths: Seq<Seq<char>>)
    ensures
        json_files(paths).len() <= paths.len(),
    decreases paths.len(),
{
    if paths.len() > 0 {
        lemma_json_files_len(paths.drop_last());
    }
}

/// How many of the paths name `.json` files.
pub fn count_json_files(paths: &Vec<String>) -> (r: usize)
    ensures
        r == json_files(string_views(paths@)).len(),
{
    let ghost pv = string_views(paths@);
    let mut count: usize = 0;
    let mut i: usize = 0;
    while i < paths.len()
        invariant
            i <= paths.len(),
            pv == string_views(paths@),
            count == json_files(pv.take(i as int)).len(),
            count <= i,
        decreases paths.len() - i,
    {
        proof {
            assert(pv.take(i + 1).drop_last() =~= pv.take(i as int));
            assert(pv.take(i + 1).last() == paths@[i as int]@);
        }
        let keep = match path_extension(paths[i].as_str()) {
            Some(e) => crate::text::str_eq(e.as_str(), "json"),
            None => false,
        };
        proof {
            reveal_strlit("json");
            assert("json"@ =~= seq!['j', 's', 'o', 'n']);
        }
        assert(keep == is_json_file(paths@[i as int]@));
        if keep {
            count += 1;
        }
        i += 1;
    }
    assert(pv.take(paths.len() as int) =~= pv);
    count
}

/// Each path sorts no later than the next one, in `Path` order.
pub open spec fn path_sorted(paths: Seq<Seq<char>>) -> bool {
    forall|i: int| 0 <= i < paths.len() - 1 ==> path_order_of(#[trigger] paths[i], paths[i + 1]) <= 0
}

/// Insert a path into a list sorted in `Path` order, after the paths that
/// sort no later than it.
fn insert_path_sorted(files: &mut Vec<String>, path: String)
    requires
        path_sorted(string_views(old(files)@)),
    ensures
        path_sorted(string_views(final(files)@)),
        string_views(final(files)@).to_multiset() == string_views(old(files)@).to_multiset().insert(path@),
{
    let ghost v0 = string_views(files@);
    let mut k: usize = files.len();
    loop
        invariant
            k <= files.len(),
            files@ == old(files)@,
            v0 == string_views(files@),
            path_sorted(v0),
            k < files.len() ==> path_order_of(path@, v0[k as int]) < 0,
        ensures
            k <= files.len(),
            files@ == old(files)@,
            k < files.len() ==> path_order_of(path@, v0[k as int]) < 0,
            k > 0 ==> path_order_of(v0[k - 1], path@) <= 0,
        decreases k,
    {
        if k == 0 {
            break;
        }
        let o = path_order(files[k - 1].as_str(), path.as_str());
        if o <= 0 {
            break;
        }
        k -= 1;
    }
    let ghost x = path@;
    files.insert(k, path);
    proof {
        let nv = string_views(files@);
        assert(nv =~= v0.insert(k as int, x));
        vstd::seq_lib::to_multiset_insert(v0, k as int, x);
        assert forall|i: int| 0 <= i < nv.len() - 1 implies path_order_of(#[trigger] nv[i], nv[i + 1]) <= 0 by {
            if i + 1 < k {
                assert(nv[i] == v0[i] && nv[i + 1] == v0[i + 1]);
            } else if i + 1 == k {
                assert(nv[i] == v0[i] && nv[i + 1] == x);
            } else if i == k {
                assert(nv[i] == x && nv[i + 1] == v0[i]);
            } else {
                assert(nv[i] == v0[i - 1] && nv[i + 1] == v0[i]);
            }
        }
    }
}

/// The pending narration files to deliver, from the paths listed in the
/// session's pending directory and in the directory of narrations made
/// without a session: the `.json` files of both, sorted in `Path` order
/// (the timestamped file names put them in recording order).
pub fn collect_pending(session_files: Vec<String>, local_files: Vec<String>) -> (r: Vec<String>)
    ensures
        string_views(r@).to_multiset() == json_files(string_views(session_files@) + string_views(local_files@)).to_multiset(),
        path_sorted(string_views(r@)),
{
    let ghost all = string_views(session_files@) + string_views(local_files@);
    let mut listed = session_files;
    let mut more = local_files;
    listed.append(&mut more);
    assert(string_views(listed@) =~= all);
    let n = listed.len();
    let mut out: Vec<String> = Vec::new();
    let mut idx: usize = 0;
    proof {
        assert(all.take(0) =~= Seq::<Seq<char>>::empty());
        assert(string_views(out@) =~= Seq::<Seq<char>>::empty());
    }
    for path in it: listed
        invariant
            idx == it.index(),
            all == string_views(it.seq()),
            all.len() == n,
            path_sorted(string_views(out@)),
            string_views(out@).to_multiset() == json_files(all.take(idx as int)).to_multiset(),
    {
        proof {
            assert(all.take(idx + 1).drop_last() =~= all.take(idx as int));
            assert(all.take(idx + 1).last() == path@);
        }
        let keep = match path_extension(path.as_str()) {
            Some(e) => crate::text::str_eq(e.as_str(), "json"),
            None => false,
        };
        proof {
            reveal_strlit("json");
            assert("json"@ =~= seq!['j', 's', 'o', 'n']);
        }
        assert(keep == is_json_file(path@));
        if keep {
            let ghost p = path@;
            insert_path_sorted(&mut out, path);
            proof {
                vstd::seq_lib::to_multiset_build(json_files(all.take(idx as int)), p);
            }
        }
        idx += 1;
    }
    assert(all.take(n as int) =~= all);
    out
}

} // verus!
