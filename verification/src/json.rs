//! Payloads of the JSON outputs: the compact editor state and the view of
//! captured file regions. Serialization itself is done by the caller.

use vstd::prelude::*;
use crate::model::{file_views, EditorState, FileEntryView, Position, Selection};
use crate::merge::opt_chars;
use crate::paths::{opt_view, relativize, relativized};
use crate::text::{chars_of, decimal, decimal_string, push_str, string_of};

verus! {

broadcast use vstd::string::group_string_axioms;

/// JSON representation of a file with cursors and selections split.
#[derive(Debug)]
pub struct CompactFile {
    pub path: String,
    pub cursors: Vec<Position>,
    pub selections: Vec<Selection>,
}

/// Top-level JSON payload for `attend --format json`.
#[derive(Debug)]
pub struct CompactPayload {
    pub files: Vec<CompactFile>,
}

/// JSON representation of a group of selections with rendered content.
#[derive(Debug)]
pub struct ViewGroup {
    pub cursors: Vec<Position>,
    pub selections: Vec<Selection>,
    /// 1-based first line of the rendered content.
    pub first_line: usize,
    /// 1-based last line of the rendered content.
    pub last_line: usize,
    pub content: String,
}

/// JSON representation of a single file's view output.
#[derive(Debug)]
pub struct ViewFile {
    pub path: String,
    pub groups: Vec<ViewGroup>,
}

/// Top-level JSON payload for `attend view --format json`.
#[derive(Debug)]
pub struct ViewPayload {
    pub files: Vec<ViewFile>,
}

/// The start positions of the cursors of `s`, in order.
pub open spec fn cursor_positions(s: Seq<Selection>) -> Seq<Position>
    decreases s.len(),
{
    if s.len() == 0 {
        Seq::empty()
    } else if s.last().is_cursor_spec() {
        cursor_positions(s.drop_last()).push(s.last().start)
    } else {
        cursor_positions(s.drop_last())
    }
}

/// The selections of `s` that are ranges, in order.
pub open spec fn range_selections(s: Seq<Selection>) -> Seq<Selection>
    decreases s.len(),
{
    if s.len() == 0 {
        Seq::empty()
    } else if s.last().is_cursor_spec() {
        range_selections(s.drop_last())
    } else {
        range_selections(s.drop_last()).push(s.last())
    }
}

/// Split a list of selections into cursor positions and range selections.
pub fn split_selections(sels: &[Selection]) -> (r: (Vec<Position>, Vec<Selection>))
    ensures
        r.0@ == cursor_positions(sels@),
        r.1@ == range_selections(sels@),
{
    let mut cursors: Vec<Position> = Vec::new();
    let mut selections: Vec<Selection> = Vec::new();
    let mut i: usize = 0;
    while i < sels.len()
        invariant
            i <= sels.len(),
            cursors@ == cursor_positions(sels@.take(i as int)),
            selections@ == range_selections(sels@.take(i as int)),
        decreases sels.len() - i,
    {
        assert(sels@.take(i + 1).drop_last() =~= sels@.take(i as int));
        let sel = sels[i];
        if sel.is_cursor_like() {
            cursors.push(sel.start);
        } else {
            selections.push(sel);
        }
        i += 1;
    }
    assert(sels@.take(sels.len() as int) =~= sels@);
    (cursors, selections)
}

/// The compact form of one file.
pub open spec fn compact_file_ok(c: CompactFile, f: FileEntryView, cwd: Option<Seq<char>>) -> bool {
    &&& c.path@ == relativized(f.path, cwd)
    &&& c.cursors@ == cursor_positions(f.selections)
    &&& c.selections@ == range_selections(f.selections)
}

impl CompactPayload {
    /// Build from an `EditorState`, splitting cursor-like selections from
    /// ranges and making paths relative to the state's directory.
    pub fn from_state(state: &EditorState) -> (r: Self)
        ensures
            r.files@.len() == state.files@.len(),
            forall|i: int|
                0 <= i < r.files@.len() ==> compact_file_ok(
                    #[trigger] r.files@[i],
                    state.files@[i]@,
                    opt_chars(state.cwd),
                ),
    {
        let ghost cwd_v = opt_chars(state.cwd);
        let cwd: Option<&str> = match &state.cwd {
            Some(c) => Some(c.as_str()),
            None => None,
        };
        assert(opt_view(cwd) == cwd_v);
        let mut files: Vec<CompactFile> = Vec::new();
        let mut i: usize = 0;
        while i < state.files.len()
            invariant
                i <= state.files.len(),
                opt_view(cwd) == cwd_v,
                cwd_v == opt_chars(state.cwd),
                files@.len() == i,
                forall|k: int|
                    0 <= k < i ==> compact_file_ok(#[trigger] files@[k], state.files@[k]@, cwd_v),
            decreases state.files.len() - i,
        {
            let entry = &state.files[i];
            let path = relativize(entry.path.as_str(), cwd);
            let (cursors, selections) = split_selections(entry.selections.as_slice());
            files.push(CompactFile { path, cursors, selections });
            i += 1;
        }
        CompactPayload { files }
    }
}


// ── Timestamps ──────────────────────────────────────────────────────────────

/// `n` in decimal, with zeros in front up to `width` characters (`{:0w}`).
pub open spec fn zero_padded(n: nat, width: nat) -> Seq<char> {
    let d = decimal(n);
    if d.len() >= width {
        d
    } else {
        Seq::new((width - d.len()) as nat, |i: int| '0') + d
    }
}

/// A year as `{:04}` writes it: a minus sign counts toward the width.
pub open spec fn year_text(y: int) -> Seq<char> {
    if y >= 0 {
        zero_padded(y as nat, 4)
    } else {
        seq!['-'] + zero_padded((-y) as nat, 3)
    }
}

/// An ISO 8601 UTC timestamp such as `2026-02-18T15:30:45Z`.
pub open spec fn iso_utc_text(year: int, month: nat, day: nat, hour: nat, minute: nat, second: nat) -> Seq<char> {
    year_text(year) + seq!['-'] + zero_padded(month, 2) + seq!['-'] + zero_padded(day, 2) + seq!['T']
        + zero_padded(hour, 2) + seq![':'] + zero_padded(minute, 2) + seq![':'] + zero_padded(second, 2)
        + seq!['Z']
}

fn padded(n: u64, width: usize) -> (r: String)
    ensures
        r@ == zero_padded(n as nat, width as nat),
{
    let d = decimal_string(n);
    let digits = chars_of(d.as_str());
    let mut out: Vec<char> = Vec::new();
    if digits.len() < width {
        let pad = width - digits.len();
        let mut i: usize = 0;
        while i < pad
            invariant
                i <= pad,
                out@ == Seq::new(i as nat, |k: int| '0'),
            decreases pad - i,
        {
            out.push('0');
            assert(out@ =~= Seq::new((i + 1) as nat, |k: int| '0'));
            i += 1;
        }
    }
    let mut j: usize = 0;
    let ghost prefix = out@;
    while j < digits.len()
        invariant
            j <= digits.len(),
            digits@ == d@,
            out@ == prefix + digits@.take(j as int),
        decreases digits.len() - j,
    {
        out.push(digits[j]);
        assert(digits@.take(j + 1) =~= digits@.take(j as int).push(digits@[j as int]));
        j += 1;
    }
    assert(digits@.take(digits.len() as int) =~= digits@);
    assert(out@ =~= zero_padded(n as nat, width as nat));
    string_of(out.as_slice())
}

/// The ISO 8601 UTC timestamp of a broken-down time (year, month 1-12,
/// day, hour, minute, second), as `utc_now` writes it.
pub fn iso_utc(year: i64, month: u32, day: u32, hour: u32, minute: u32, second: u32) -> (r: String)
    ensures
        r@ == iso_utc_text(year as int, month as nat, day as nat, hour as nat, minute as nat, second as nat),
{
    let mut s = if year >= 0 {
        padded(year as u64, 4)
    } else {
        let mut m = "-".to_string();
        let mag = (-(year as i128)) as u64;
        let p = padded(mag, 3);
        push_str(&mut m, p.as_str());
        proof {
            reveal_strlit("-");
        }
        assert(m@ =~= seq!['-'] + zero_padded((-year) as nat, 3));
        m
    };
    let dash = "-";
    let tee = "T";
    let colon = ":";
    let zed = "Z";
    proof {
        reveal_strlit("-");
        reveal_strlit("T");
        reveal_strlit(":");
        reveal_strlit("Z");
        assert(dash@ =~= seq!['-']);
        assert(tee@ =~= seq!['T']);
        assert(colon@ =~= seq![':']);
        assert(zed@ =~= seq!['Z']);
    }
    push_str(&mut s, dash);
    push_str(&mut s, padded(month as u64, 2).as_str());
    push_str(&mut s, dash);
    push_str(&mut s, padded(day as u64, 2).as_str());
    push_str(&mut s, tee);
    push_str(&mut s, padded(hour as u64, 2).as_str());
    push_str(&mut s, colon);
    push_str(&mut s, padded(minute as u64, 2).as_str());
    push_str(&mut s, colon);
    push_str(&mut s, padded(second as u64, 2).as_str());
    push_str(&mut s, zed);
    s
}

} // verus!
