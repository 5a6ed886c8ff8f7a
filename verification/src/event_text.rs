//! Text renderings of narration events: the one-line summary of an event and
//! the unified diff of a file change.

use vstd::prelude::*;
use crate::merge::{ClipboardContent, ClipboardView, Event, EventView, RedactedKind};
use crate::text::{chars_of, decimal, decimal_string, push_str, string_of};

verus! {

broadcast use vstd::string::group_string_axioms;

/// Nanoseconds in a day.
pub open spec fn day_nanos() -> int {
    86_400_000_000_000int
}

/// Seconds since midnight UTC of the instant `ts` (nanoseconds since the epoch).
pub open spec fn clock_seconds(ts: i64) -> int {
    (ts as int % day_nanos()) / 1_000_000_000
}

/// `n` with at least two digits (`{:02}`).
pub open spec fn two_digits(n: nat) -> Seq<char> {
    if n < 10 {
        seq!['0'] + decimal(n)
    } else {
        decimal(n)
    }
}

/// `HH:MM:SS` of the instant `ts`, in UTC.
pub open spec fn clock_text(ts: i64) -> Seq<char> {
    let s = clock_seconds(ts);
    two_digits((s / 3600) as nat) + seq![':'] + two_digits(((s % 3600) / 60) as nat) + seq![':']
        + two_digits((s % 60) as nat)
}

fn two_digit_string(n: u64) -> (s: String)
    ensures
        s@ == two_digits(n as nat),
{
    let d = decimal_string(n);
    if n < 10 {
        let mut s = String::new();
        push_str(&mut s, "0");
        push_str(&mut s, d.as_str());
        proof {
            reveal_strlit("0");
            assert("0"@ =~= seq!['0']);
        }
        s
    } else {
        d
    }
}

/// `HH:MM:SS` of the instant `ts` (nanoseconds since the epoch), in UTC.
pub fn clock_string(ts: i64) -> (s: String)
    ensures
        s@ == clock_text(ts),
{
    let day: i128 = 86_400_000_000_000;
    // Shift by whole days so that the value is not negative.
    let shifted: i128 = ts as i128 + 106_752 * day;
    let in_day: i128 = shifted % day;
    proof {
        assert(shifted >= 0);
        assert((shifted as int) % day_nanos() == (ts as int) % day_nanos()) by (nonlinear_arith)
            requires
                shifted as int == ts as int + 106_752 * day_nanos(),
                day_nanos() == 86_400_000_000_000,
        {
            vstd::arithmetic::div_mod::lemma_mod_multiples_vanish(
                106_752,
                ts as int,
                day_nanos(),
            );
        }
    }
    let secs: i128 = in_day / 1_000_000_000;
    let h = (secs / 3600) as u64;
    let m = ((secs % 3600) / 60) as u64;
    let sec = (secs % 60) as u64;
    let mut s = two_digit_string(h);
    push_str(&mut s, ":");
    let ms = two_digit_string(m);
    push_str(&mut s, ms.as_str());
    push_str(&mut s, ":");
    let ss = two_digit_string(sec);
    push_str(&mut s, ss.as_str());
    proof {
        reveal_strlit(":");
        assert(":"@ =~= seq![':']);
    }
    s
}

/// The number of characters a preview shows.
pub const PREVIEW_CHARS: usize = 40;

/// The first characters of `t`, with `...` when it is longer.
pub open spec fn preview_text(t: Seq<char>) -> Seq<char> {
    if t.len() > PREVIEW_CHARS {
        t.take(PREVIEW_CHARS as int) + seq!['.', '.', '.']
    } else {
        t
    }
}

/// The first forty characters of `t`, followed by `...` when `t` is longer.
pub fn preview_string(t: &str) -> (s: String)
    ensures
        s@ == preview_text(t@),
{
    let cs = chars_of(t);
    if cs.len() > PREVIEW_CHARS {
        let mut head: Vec<char> = Vec::new();
        let mut i: usize = 0;
        while i < PREVIEW_CHARS
            invariant
                i <= PREVIEW_CHARS < cs.len(),
                head@ == cs@.take(i as int),
            decreases PREVIEW_CHARS - i,
        {
            head.push(cs[i]);
            assert(cs@.take(i + 1) =~= cs@.take(i as int).push(cs@[i as int]));
            i += 1;
        }
        let mut s = string_of(head.as_slice());
        push_str(&mut s, "...");
        proof {
            reveal_strlit("...");
            assert("..."@ =~= seq!['.', '.', '.']);
        }
        s
    } else {
        string_of(cs.as_slice())
    }
}

/// The `Debug` name of a redaction kind.
pub open spec fn kind_name(k: RedactedKind) -> Seq<char> {
    match k {
        RedactedKind::EditorSnapshot => seq!['E', 'd', 'i', 't', 'o', 'r', 'S', 'n', 'a', 'p', 's', 'h', 'o', 't'],
        RedactedKind::FileDiff => seq!['F', 'i', 'l', 'e', 'D', 'i', 'f', 'f'],
        RedactedKind::ShellCommand => seq!['S', 'h', 'e', 'l', 'l', 'C', 'o', 'm', 'm', 'a', 'n', 'd'],
    }
}

/// The decimal representation of a signed integer.
pub open spec fn signed_decimal(n: int) -> Seq<char> {
    if n < 0 {
        seq!['-'] + decimal((-n) as nat)
    } else {
        decimal(n as nat)
    }
}

fn signed_decimal_string(n: i32) -> (s: String)
    ensures
        s@ == signed_decimal(n as int),
{
    if n < 0 {
        let mut s = String::new();
        push_str(&mut s, "-");
        let d = decimal_string((-(n as i64)) as u64);
        push_str(&mut s, d.as_str());
        proof {
            reveal_strlit("-");
            assert("-"@ =~= seq!['-']);
        }
        s
    } else {
        decimal_string(n as u64)
    }
}

/// `name[HH:MM:SS]: `, the head of every event line.
pub open spec fn line_head(name: Seq<char>, ts: i64) -> Seq<char> {
    name + seq!['['] + clock_text(ts) + seq![']', ':', ' ']
}

/// A quoted preview of `t`.
pub open spec fn quoted_preview(t: Seq<char>) -> Seq<char> {
    seq!['"'] + preview_text(t) + seq!['"']
}

/// The one-line summary of an event.
pub open spec fn event_line(e: EventView) -> Seq<char> {
    match e {
        EventView::Words { timestamp, text } => line_head("Words"@, timestamp) + quoted_preview(text),
        EventView::EditorSnapshot { timestamp, regions, .. } => line_head(
            "EditorSnapshot"@,
            timestamp,
        ) + decimal(regions.len()) + " region(s)"@,
        EventView::FileDiff { timestamp, path, .. } => line_head("FileDiff"@, timestamp) + path,
        EventView::ExternalSelection { timestamp, app, window_title, .. } => line_head(
            "ExternalSelection"@,
            timestamp,
        ) + app + " - "@ + window_title,
        EventView::BrowserSelection { timestamp, url, title, .. } => line_head(
            "BrowserSelection"@,
            timestamp,
        ) + title + " ("@ + url + ")"@,
        EventView::ShellCommand { timestamp, command, exit_status, .. } => line_head(
            "ShellCommand"@,
            timestamp,
        ) + quoted_preview(command) + match exit_status {
            Some(code) => " (exit "@ + signed_decimal(code as int) + ")"@,
            None => " (running)"@,
        },
        EventView::ClipboardSelection { timestamp, content } => line_head(
            "ClipboardSelection"@,
            timestamp,
        ) + match content {
            ClipboardView::Text { text } => "text "@ + quoted_preview(text),
            ClipboardView::Image { path } => "image "@ + path,
        },
        EventView::Redacted { timestamp, kind, .. } => line_head("Redacted"@, timestamp)
            + kind_name(kind),
    }
}

fn head_string(name: &str, ts: i64) -> (s: String)
    ensures
        s@ == line_head(name@, ts),
{
    let mut s = String::new();
    push_str(&mut s, name);
    push_str(&mut s, "[");
    let c = clock_string(ts);
    push_str(&mut s, c.as_str());
    push_str(&mut s, "]: ");
    proof {
        reveal_strlit("[");
        reveal_strlit("]: ");
        assert("["@ =~= seq!['[']);
        assert("]: "@ =~= seq![']', ':', ' ']);
    }
    s
}

fn quoted_preview_string(t: &str) -> (s: String)
    ensures
        s@ == quoted_preview(t@),
{
    let mut s = String::new();
    push_str(&mut s, "\"");
    let p = preview_string(t);
    push_str(&mut s, p.as_str());
    push_str(&mut s, "\"");
    proof {
        reveal_strlit("\"");
        assert("\""@ =~= seq!['"']);
    }
    s
}

impl Event {
    /// The one-line summary of the event: its kind, the time of day, and a
    /// short description (text previews are cut at forty characters).
    pub fn display_string(&self) -> (s: String)
        ensures
            s@ == event_line(self@),
    {
        match self {
            Event::Words { timestamp, text } => {
                let mut s = head_string("Words", *timestamp);
                let q = quoted_preview_string(text.as_str());
                push_str(&mut s, q.as_str());
                s
            },
            Event::EditorSnapshot { timestamp, regions, .. } => {
                let mut s = head_string("EditorSnapshot", *timestamp);
                let n = decimal_string(regions.len() as u64);
                push_str(&mut s, n.as_str());
                push_str(&mut s, " region(s)");
                s
            },
            Event::FileDiff { timestamp, path, .. } => {
                let mut s = head_string("FileDiff", *timestamp);
                push_str(&mut s, path.as_str());
                s
            },
            Event::ExternalSelection { timestamp, app, window_title, .. } => {
                let mut s = head_string("ExternalSelection", *timestamp);
                push_str(&mut s, app.as_str());
                push_str(&mut s, " - ");
                push_str(&mut s, window_title.as_str());
                s
            },
            Event::BrowserSelection { timestamp, url, title, .. } => {
                let mut s = head_string("BrowserSelection", *timestamp);
                push_str(&mut s, title.as_str());
                push_str(&mut s, " (");
                push_str(&mut s, url.as_str());
                push_str(&mut s, ")");
                s
            },
            Event::ShellCommand { timestamp, command, exit_status, .. } => {
                let mut s = head_string("ShellCommand", *timestamp);
                let q = quoted_preview_string(command.as_str());
                push_str(&mut s, q.as_str());
                match exit_status {
                    Some(code) => {
                        push_str(&mut s, " (exit ");
                        let c = signed_decimal_string(*code);
                        push_str(&mut s, c.as_str());
                        push_str(&mut s, ")");
                    },
                    None => {
                        push_str(&mut s, " (running)");
                    },
                }
                s
            },
            Event::ClipboardSelection { timestamp, content } => {
                let mut s = head_string("ClipboardSelection", *timestamp);
                match content {
                    ClipboardContent::Text { text } => {
                        push_str(&mut s, "text ");
                        let q = quoted_preview_string(text.as_str());
                        push_str(&mut s, q.as_str());
                    },
                    ClipboardContent::Image { path } => {
                        push_str(&mut s, "image ");
                        push_str(&mut s, path.as_str());
                    },
                }
                s
            },
            Event::Redacted { timestamp, kind, .. } => {
                let mut s = head_string("Redacted", *timestamp);
                match kind {
                    RedactedKind::EditorSnapshot => {
                        push_str(&mut s, "EditorSnapshot");
                        proof {
                            reveal_strlit("EditorSnapshot");
                        }
                    },
                    RedactedKind::FileDiff => {
                        push_str(&mut s, "FileDiff");
                        proof {
                            reveal_strlit("FileDiff");
                        }
                    },
                    RedactedKind::ShellCommand => {
                        push_str(&mut s, "ShellCommand");
                        proof {
                            reveal_strlit("ShellCommand");
                        }
                    },
                }
                s
            },
        }
    }
}

// ── Unified diff ────────────────────────────────────────────────────────────

/// The kind of a line in a line diff.
#[derive(Debug, Clone, Copy, PartialEq, Eq, Structural)]
pub enum LineTag {
    /// The line is in both texts.
    Equal,
    /// The line is only in the old text.
    Delete,
    /// The line is only in the new text.
    Insert,
}

/// The changes of the line diff of `old` against `new` that `similar`
/// computes with its default (Myers) algorithm and no deadline: each line of
/// either text with its tag, in diff order.
pub uninterp spec fn line_changes(old: Seq<char>, new: Seq<char>) -> Seq<(LineTag, Seq<char>)>;

/// The models of a list of line changes.
pub open spec fn change_views(v: Seq<(LineTag, String)>) -> Seq<(LineTag, Seq<char>)> {
    v.map_values(|c: (LineTag, String)| (c.0, c.1@))
}

/// The line diff of `old` against `new`.
///
/// Trusted: calls `similar::TextDiff::from_lines` and `iter_all_changes`,
/// whose result depends on the two texts alone (no deadline is set); each
/// change is handed back as its tag and its text.
#[verifier::external_body]
fn diff_lines(old: &str, new: &str) -> (r: Vec<(LineTag, String)>)
    ensures
        change_views(r@) == line_changes(old@, new@),
{
    let diff = similar::TextDiff::from_lines(old, new);
    diff.iter_all_changes().map(|change| {
        let tag = match change.tag() {
            similar::ChangeTag::Equal => LineTag::Equal,
            similar::ChangeTag::Delete => LineTag::Delete,
            similar::ChangeTag::Insert => LineTag::Insert,
        };
        (tag, change.value().to_string())
    }).collect()
}

/// The sign that starts a diff line.
pub open spec fn tag_sign(t: LineTag) -> Seq<char> {
    match t {
        LineTag::Equal => seq![' '],
        LineTag::Delete => seq!['-'],
        LineTag::Insert => seq!['+'],
    }
}

/// One diff line: sign, text, and a newline when the text lacks one.
pub open spec fn change_line(c: (LineTag, Seq<char>)) -> Seq<char> {
    if c.1.len() > 0 && c.1.last() == '\n' {
        tag_sign(c.0) + c.1
    } else {
        tag_sign(c.0) + c.1 + seq!['\n']
    }
}

/// All diff lines, concatenated.
pub open spec fn render_changes_spec(cs: Seq<(LineTag, Seq<char>)>) -> Seq<char>
    decreases cs.len(),
{
    if cs.len() == 0 {
        Seq::empty()
    } else {
        render_changes_spec(cs.drop_last()) + change_line(cs.last())
    }
}

/// Renders line changes as unified-diff body lines (`-`, `+` or a space, then
/// the line, newline-terminated).
pub fn render_changes(changes: &Vec<(LineTag, String)>) -> (r: String)
    ensures
        r@ == render_changes_spec(change_views(changes@)),
{
    let ghost cv = change_views(changes@);
    let mut out = String::new();
    let mut i: usize = 0;
    while i < changes.len()
        invariant
            i <= changes.len(),
            cv == change_views(changes@),
            out@ == render_changes_spec(cv.take(i as int)),
        decreases changes.len() - i,
    {
        assert(cv.take(i + 1).drop_last() =~= cv.take(i as int));
        let ghost c = cv[i as int];
        match changes[i].0 {
            LineTag::Equal => push_str(&mut out, " "),
            LineTag::Delete => push_str(&mut out, "-"),
            LineTag::Insert => push_str(&mut out, "+"),
        }
        let text = chars_of(changes[i].1.as_str());
        push_str(&mut out, changes[i].1.as_str());
        if text.len() == 0 || text[text.len() - 1] != '\n' {
            push_str(&mut out, "\n");
        }
        proof {
            reveal_strlit(" ");
            reveal_strlit("-");
            reveal_strlit("+");
            reveal_strlit("\n");
            assert(" "@ =~= seq![' ']);
            assert("-"@ =~= seq!['-']);
            assert("+"@ =~= seq!['+']);
            assert("\n"@ =~= seq!['\n']);
        }
        i += 1;
    }
    assert(cv.take(changes.len() as int) =~= cv);
    out
}

/// The unified-diff body of `old` against `new`: every line of the line diff,
/// prefixed with `-`, `+` or a space, and newline-terminated.
pub fn unified_diff(old: &str, new: &str) -> (r: String)
    ensures
        r@ == render_changes_spec(line_changes(old@, new@)),
{
    let changes = diff_lines(old, new);
    render_changes(&changes)
}

} // verus!
