//! Event filtering and path scoping for project-directory boundaries.
//!
//! Events captured with absolute paths are filtered to the current project
//! directory (and any configured extra directories). Events outside scope are
//! replaced with [`Event::Redacted`] markers, adjacent markers are collapsed,
//! and surviving paths are made relative.

use vstd::prelude::*;
use crate::merge::{
    event_views, keep_seq, region_views, retain_flagged, CapturedRegion, Event, EventView,
    RedactedKind, RegionView,
};
use crate::model::{file_views, FileEntry, FileEntryView};
use crate::paths::{included, path_included, relative_to, relativize_str};
use crate::text::{chars_of, string_views};

verus! {

broadcast use vstd::string::group_string_axioms;

// ── Filtering ───────────────────────────────────────────────────────────────

/// Which regions lie in scope.
pub open spec fn region_mask(rs: Seq<RegionView>, cwd: Seq<char>, dirs: Seq<Seq<char>>) -> Seq<bool> {
    Seq::new(rs.len(), |i: int| included(rs[i].path, cwd, dirs))
}

/// Which regions lie out of scope.
pub open spec fn outside_mask(rs: Seq<RegionView>, cwd: Seq<char>, dirs: Seq<Seq<char>>) -> Seq<bool> {
    Seq::new(rs.len(), |i: int| !included(rs[i].path, cwd, dirs))
}

/// Which files lie in scope.
pub open spec fn file_mask(fs: Seq<FileEntryView>, cwd: Seq<char>, dirs: Seq<Seq<char>>) -> Seq<bool> {
    Seq::new(fs.len(), |i: int| included(fs[i].path, cwd, dirs))
}

/// The paths of a sequence of regions.
pub open spec fn region_paths(rs: Seq<RegionView>) -> Seq<Seq<char>> {
    rs.map_values(|r: RegionView| r.path)
}

/// What one event becomes after filtering.
///
/// A snapshot keeps its regions and files in scope (and disappears when no
/// region is left), and the paths of the dropped regions go to a redaction
/// marker; a diff or a shell command out of scope becomes a marker keyed by
/// its path or command; every other event passes.
pub open spec fn filter_one(e: EventView, cwd: Seq<char>, dirs: Seq<Seq<char>>) -> Seq<EventView> {
    match e {
        EventView::EditorSnapshot { timestamp, last_seen, files, regions } => {
            let kept = keep_seq(regions, region_mask(regions, cwd, dirs));
            let dropped = keep_seq(region_paths(regions), outside_mask(regions, cwd, dirs));
            (if kept.len() > 0 {
                seq![
                    EventView::EditorSnapshot {
                        timestamp,
                        last_seen,
                        files: keep_seq(files, file_mask(files, cwd, dirs)),
                        regions: kept,
                    },
                ]
            } else {
                Seq::empty()
            }) + (if dropped.len() > 0 {
                seq![
                    EventView::Redacted {
                        timestamp,
                        kind: RedactedKind::EditorSnapshot,
                        keys: dropped,
                    },
                ]
            } else {
                Seq::empty()
            })
        },
        EventView::FileDiff { timestamp, path, .. } => if included(path, cwd, dirs) {
            seq![e]
        } else {
            seq![EventView::Redacted { timestamp, kind: RedactedKind::FileDiff, keys: seq![path] }]
        },
        EventView::ShellCommand { timestamp, command, cwd: c, .. } => if included(c, cwd, dirs) {
            seq![e]
        } else {
            seq![
                EventView::Redacted {
                    timestamp,
                    kind: RedactedKind::ShellCommand,
                    keys: seq![command],
                },
            ]
        },
        _ => seq![e],
    }
}

/// Every event filtered, in order.
pub open spec fn filter_all(es: Seq<EventView>, cwd: Seq<char>, dirs: Seq<Seq<char>>) -> Seq<EventView>
    decreases es.len(),
{
    if es.len() == 0 {
        Seq::empty()
    } else {
        filter_all(es.drop_last(), cwd, dirs) + filter_one(es.last(), cwd, dirs)
    }
}

proof fn lemma_region_views_keep(s: Seq<CapturedRegion>, keep: Seq<bool>)
    ensures
        region_views(keep_seq(s, keep)) == keep_seq(region_views(s), keep),
    decreases s.len(),
{
    if s.len() > 0 {
        lemma_region_views_keep(s.drop_last(), keep);
        assert(region_views(s).drop_last() =~= region_views(s.drop_last()));
        let r = keep_seq(s.drop_last(), keep);
        assert(region_views(r.push(s.last())) =~= region_views(r).push(s.last()@));
    } else {
        assert(region_views(keep_seq(s, keep)) =~= keep_seq(region_views(s), keep));
    }
}

proof fn lemma_file_views_keep(s: Seq<FileEntry>, keep: Seq<bool>)
    ensures
        file_views(keep_seq(s, keep)) == keep_seq(file_views(s), keep),
    decreases s.len(),
{
    if s.len() > 0 {
        lemma_file_views_keep(s.drop_last(), keep);
        assert(file_views(s).drop_last() =~= file_views(s.drop_last()));
        let r = keep_seq(s.drop_last(), keep);
        assert(file_views(r.push(s.last())) =~= file_views(r).push(s.last()@));
    } else {
        assert(file_views(keep_seq(s, keep)) =~= keep_seq(file_views(s), keep));
    }
}

/// Appends what `event` becomes after filtering to `out`.
fn filter_event(event: Event, cwd: &str, include_dirs: &Vec<String>, out: &mut Vec<Event>)
    ensures
        event_views(final(out)@) == event_views(old(out)@) + filter_one(
            event@,
            cwd@,
            string_views(include_dirs@),
        ),
{
    let ghost dirs = string_views(include_dirs@);
    let ghost ev = event@;
    let ghost o0 = event_views(out@);
    match event {
        Event::EditorSnapshot { timestamp, last_seen, files, regions } => {
            let ghost rv = region_views(regions@);
            let ghost fv = file_views(files@);
            let mut keep_r: Vec<bool> = Vec::new();
            let mut dropped: Vec<String> = Vec::new();
            let mut i: usize = 0;
            while i < regions.len()
                invariant
                    i <= regions.len(),
                    rv == region_views(regions@),
                    keep_r@.len() == i,
                    forall|m: int| 0 <= m < i ==> keep_r@[m] == region_mask(rv, cwd@, dirs)[m],
                    string_views(dropped@) == keep_seq(
                        region_paths(rv).take(i as int),
                        outside_mask(rv, cwd@, dirs),
                    ),
                    dirs == string_views(include_dirs@),
                decreases regions.len() - i,
            {
                let inside = path_included(regions[i].path.as_str(), cwd, include_dirs);
                keep_r.push(inside);
                proof {
                    assert(region_paths(rv).take(i + 1).drop_last() =~= region_paths(rv).take(
                        i as int,
                    ));
                }
                if !inside {
                    let ghost d0 = dropped@;
                    dropped.push(regions[i].path.clone());
                    assert(string_views(dropped@) =~= string_views(d0).push(rv[i as int].path));
                }
                i += 1;
            }
            assert(keep_r@ =~= region_mask(rv, cwd@, dirs));
            assert(region_paths(rv).take(regions.len() as int) =~= region_paths(rv));
            let mut keep_f: Vec<bool> = Vec::new();
            let mut j: usize = 0;
            while j < files.len()
                invariant
                    j <= files.len(),
                    fv == file_views(files@),
                    keep_f@.len() == j,
                    forall|m: int| 0 <= m < j ==> keep_f@[m] == file_mask(fv, cwd@, dirs)[m],
                    dirs == string_views(include_dirs@),
                decreases files.len() - j,
            {
                keep_f.push(path_included(files[j].path.as_str(), cwd, include_dirs));
                j += 1;
            }
            assert(keep_f@ =~= file_mask(fv, cwd@, dirs));
            let ghost regions_seq = regions@;
            let ghost files_seq = files@;
            let kept_regions = retain_flagged(regions, &keep_r);
            let kept_files = retain_flagged(files, &keep_f);
            proof {
                lemma_region_views_keep(regions_seq, keep_r@);
                lemma_file_views_keep(files_seq, keep_f@);
            }
            let has_kept = kept_regions.len() > 0;
            let has_dropped = dropped.len() > 0;
            if has_kept {
                out.push(
                    Event::EditorSnapshot {
                        timestamp,
                        last_seen,
                        files: kept_files,
                        regions: kept_regions,
                    },
                );
            }
            let ghost o1 = event_views(out@);
            if has_dropped {
                out.push(Event::Redacted { timestamp, kind: RedactedKind::EditorSnapshot, keys: dropped });
            }
            proof {
                if has_kept {
                    assert(o1 =~= o0 + filter_one(ev, cwd@, dirs).take(1));
                } else {
                    assert(o1 =~= o0);
                }
                assert(event_views(out@) =~= o0 + filter_one(ev, cwd@, dirs));
            }
        },
        Event::FileDiff { timestamp, path, old, new } => {
            if path_included(path.as_str(), cwd, include_dirs) {
                out.push(Event::FileDiff { timestamp, path, old, new });
            } else {
                let mut keys: Vec<String> = Vec::new();
                keys.push(path);
                out.push(Event::Redacted { timestamp, kind: RedactedKind::FileDiff, keys });
                proof {
                    assert(string_views(keys@) =~= seq![ev->FileDiff_path]);
                }
            }
            assert(event_views(out@) =~= o0 + filter_one(ev, cwd@, dirs));
        },
        Event::ShellCommand { timestamp, shell, command, cwd: cmd_cwd, exit_status, duration_secs_bits } => {
            if path_included(cmd_cwd.as_str(), cwd, include_dirs) {
                out.push(
                    Event::ShellCommand {
                        timestamp,
                        shell,
                        command,
                        cwd: cmd_cwd,
                        exit_status,
                        duration_secs_bits,
                    },
                );
            } else {
                let mut keys: Vec<String> = Vec::new();
                keys.push(command);
                out.push(Event::Redacted { timestamp, kind: RedactedKind::ShellCommand, keys });
                proof {
                    assert(string_views(keys@) =~= seq![ev->ShellCommand_command]);
                }
            }
            assert(event_views(out@) =~= o0 + filter_one(ev, cwd@, dirs));
        },
        other => {
            out.push(other);
            assert(event_views(out@) =~= o0 + filter_one(ev, cwd@, dirs));
        },
    }
}

/// Filter events to only those about files under `cwd` or any of the
/// extra directories.
///
/// Events that fall outside scope are replaced with [`Event::Redacted`]
/// markers. Runs of adjacent markers are then collapsed
/// ([`collapse_redacted`]).
pub fn filter_events(events: &mut Vec<Event>, cwd: &str, include_dirs: &Vec<String>)
    ensures
        event_views(final(events)@) == collapse_spec(
            filter_all(event_views(old(events)@), cwd@, string_views(include_dirs@)),
        ),
{
    let ghost dirs = string_views(include_dirs@);
    let mut taken: Vec<Event> = Vec::new();
    std::mem::swap(events, &mut taken);
    let ghost ov = event_views(taken@);
    let n = taken.len();
    let mut filtered: Vec<Event> = Vec::new();
    let mut idx: usize = 0;
    for event in it: taken
        invariant
            idx == it.index(),
            ov == event_views(it.seq()),
            ov.len() == n,
            dirs == string_views(include_dirs@),
            event_views(filtered@) == filter_all(ov.take(idx as int), cwd@, dirs),
    {
        proof {
            assert(ov.take(idx + 1).drop_last() =~= ov.take(idx as int));
            assert(ov.take(idx + 1).last() == event@);
        }
        filter_event(event, cwd, include_dirs, &mut filtered);
        idx += 1;
    }
    assert(ov.take(n as int) =~= ov);
    collapse_redacted(&mut filtered);
    *events = filtered;
}

// ── Redaction markers ───────────────────────────────────────────────────────

/// `a` sorts before `b` (string order: by characters, a proper prefix first).
pub open spec fn lex_lt(a: Seq<char>, b: Seq<char>) -> bool {
    exists|i: int|
        0 <= i <= a.len() && i <= b.len() && #[trigger] a.take(i) == b.take(i) && ((i == a.len()
            && i < b.len()) || (i < a.len() && i < b.len() && (a[i] as u32) < (b[i] as u32)))
}

/// String order of two strings.
pub fn str_lt(a: &str, b: &str) -> (r: bool)
    ensures
        r == lex_lt(a@, b@),
{
    let x = chars_of(a);
    let y = chars_of(b);
    let mut i: usize = 0;
    while i < x.len() && i < y.len() && x[i] == y[i]
        invariant
            i <= x.len(),
            i <= y.len(),
            x@.take(i as int) == y@.take(i as int),
        decreases x.len() - i,
    {
        assert(x@.take(i + 1) =~= x@.take(i as int).push(x@[i as int]));
        assert(y@.take(i + 1) =~= y@.take(i as int).push(y@[i as int]));
        i += 1;
    }
    let r = if i == x.len() {
        i < y.len()
    } else if i == y.len() {
        false
    } else {
        (x[i] as u32) < (y[i] as u32)
    };
    proof {
        if r {
            assert(x@.take(i as int) == y@.take(i as int));
        } else if lex_lt(x@, y@) {
            let w = choose|w: int|
                0 <= w <= x@.len() && w <= y@.len() && #[trigger] x@.take(w) == y@.take(w) && ((w
                    == x@.len() && w < y@.len()) || (w < x@.len() && w < y@.len() && (
                x@[w] as u32) < (y@[w] as u32)));
            if w < i {
                assert(x@.take(i as int)[w] == x@[w]);
                assert(y@.take(i as int)[w] == y@[w]);
            } else if w > i {
                assert(x@.take(w)[i as int] == x@[i as int]);
                assert(y@.take(w)[i as int] == y@[i as int]);
            }
        }
    }
    r
}

/// Inserts `x` into the sorted, duplicate-free `s` unless it is already there.
pub open spec fn insert_dedup(s: Seq<Seq<char>>, x: Seq<char>) -> Seq<Seq<char>>
    decreases s.len(),
{
    if s.len() == 0 {
        seq![x]
    } else if s.last() == x {
        s
    } else if lex_lt(s.last(), x) {
        s.push(x)
    } else {
        insert_dedup(s.drop_last(), x).push(s.last())
    }
}

/// The distinct values of `keys`, sorted (`sort` then `dedup`).
pub open spec fn sort_dedup(keys: Seq<Seq<char>>) -> Seq<Seq<char>>
    decreases keys.len(),
{
    if keys.len() == 0 {
        Seq::empty()
    } else {
        insert_dedup(sort_dedup(keys.drop_last()), keys.last())
    }
}

proof fn lemma_insert_dedup_at(s: Seq<Seq<char>>, x: Seq<char>, j: int)
    requires
        0 <= j <= s.len(),
        forall|k: int| j <= k < s.len() ==> s[k] != x && !lex_lt(#[trigger] s[k], x),
        j == 0 || lex_lt(s[j - 1], x),
    ensures
        insert_dedup(s, x) == s.insert(j, x),
    decreases s.len(),
{
    if s.len() == j {
        assert(s.insert(j, x) =~= s.push(x));
    } else {
        assert(s[s.len() - 1] != x && !lex_lt(s[s.len() - 1], x));
        lemma_insert_dedup_at(s.drop_last(), x, j);
        assert(s.insert(j, x) =~= s.drop_last().insert(j, x).push(s.last()));
    }
}

proof fn lemma_insert_dedup_found(s: Seq<Seq<char>>, x: Seq<char>, j: int)
    requires
        0 < j <= s.len(),
        s[j - 1] == x,
        forall|k: int| j <= k < s.len() ==> s[k] != x && !lex_lt(#[trigger] s[k], x),
    ensures
        insert_dedup(s, x) == s,
    decreases s.len(),
{
    if s.len() > j {
        assert(s[s.len() - 1] != x && !lex_lt(s[s.len() - 1], x));
        lemma_insert_dedup_found(s.drop_last(), x, j);
        assert(s.drop_last().push(s.last()) =~= s);
    }
}

/// Sorts strings and drops duplicates.
pub fn sort_dedup_strings(keys: Vec<String>) -> (r: Vec<String>)
    ensures
        string_views(r@) == sort_dedup(string_views(keys@)),
{
    let ghost kv = string_views(keys@);
    let n = keys.len();
    let mut out: Vec<String> = Vec::new();
    let mut idx: usize = 0;
    for x in it: keys
        invariant
            idx == it.index(),
            kv == string_views(it.seq()),
            kv.len() == n,
            string_views(out@) == sort_dedup(kv.take(idx as int)),
    {
        let ghost sv = string_views(out@);
        let ghost xv = x@;
        proof {
            assert(kv.take(idx + 1).drop_last() =~= kv.take(idx as int));
            assert(kv.take(idx + 1).last() == xv);
        }
        let mut j = out.len();
        let mut dup = false;
        let mut below = false;
        while j > 0 && !dup && !below
            invariant
                j <= out.len(),
                sv == string_views(out@),
                xv == x@,
                dup ==> j > 0 && sv[j - 1] == xv,
                below ==> j > 0 && lex_lt(sv[j - 1], xv),
                !(dup && below),
                forall|k: int| j <= k < sv.len() ==> sv[k] != xv && !lex_lt(#[trigger] sv[k], xv),
            decreases j + if dup || below { 0int } else { 1int },
        {
            if out[j - 1] == x {
                dup = true;
            } else if str_lt(out[j - 1].as_str(), x.as_str()) {
                below = true;
            } else {
                j -= 1;
            }
        }
        if dup {
            proof {
                lemma_insert_dedup_found(sv, xv, j as int);
            }
        } else {
            proof {
                lemma_insert_dedup_at(sv, xv, j as int);
            }
            out.insert(j, x);
            assert(string_views(out@) =~= sv.insert(j as int, xv));
        }
        idx += 1;
    }
    assert(kv.take(n as int) =~= kv);
    out
}

/// The keys of the markers of kind `k` in `run`, concatenated in order.
pub open spec fn kind_keys(run: Seq<EventView>, k: RedactedKind) -> Seq<Seq<char>>
    decreases run.len(),
{
    if run.len() == 0 {
        Seq::empty()
    } else {
        kind_keys(run.drop_last(), k) + match run.last() {
            EventView::Redacted { kind, keys, .. } => if kind == k {
                keys
            } else {
                Seq::empty()
            },
            _ => Seq::empty(),
        }
    }
}

/// The timestamp of the first marker of kind `k` in `run`.
pub open spec fn kind_first_ts(run: Seq<EventView>, k: RedactedKind) -> Option<i64>
    decreases run.len(),
{
    if run.len() == 0 {
        None
    } else {
        match kind_first_ts(run.drop_last(), k) {
            Some(t) => Some(t),
            None => match run.last() {
                EventView::Redacted { timestamp, kind, .. } => if kind == k {
                    Some(timestamp)
                } else {
                    None
                },
                _ => None,
            },
        }
    }
}

proof fn lemma_no_kind_no_keys(run: Seq<EventView>, k: RedactedKind)
    requires
        kind_first_ts(run, k) is None,
    ensures
        kind_keys(run, k) =~= Seq::<Seq<char>>::empty(),
    decreases run.len(),
{
    if run.len() > 0 {
        lemma_no_kind_no_keys(run.drop_last(), k);
    }
}

/// One marker for the kind `k` of a run of markers, if it has any: the first
/// timestamp and the sorted, distinct keys.
pub open spec fn kind_group(run: Seq<EventView>, k: RedactedKind) -> Seq<EventView> {
    match kind_first_ts(run, k) {
        Some(t) => seq![EventView::Redacted { timestamp: t, kind: k, keys: sort_dedup(kind_keys(run, k)) }],
        None => Seq::empty(),
    }
}

/// The summary of a run of markers: one per kind, in kind order.
pub open spec fn summarize(run: Seq<EventView>) -> Seq<EventView> {
    kind_group(run, RedactedKind::EditorSnapshot) + kind_group(run, RedactedKind::FileDiff)
        + kind_group(run, RedactedKind::ShellCommand)
}

/// Output of the collapse: every maximal run of markers is summarized,
/// everything else is kept in place. `run` is the run collected so far.
pub open spec fn redacted_out(s: Seq<EventView>, run: Seq<EventView>) -> Seq<EventView>
    decreases s.len(),
{
    if s.len() == 0 {
        summarize(run)
    } else if s[0] is Redacted {
        redacted_out(s.drop_first(), run.push(s[0]))
    } else {
        summarize(run) + seq![s[0]] + redacted_out(s.drop_first(), Seq::empty())
    }
}

/// The collapse of all marker runs of `s`.
pub open spec fn collapse_spec(s: Seq<EventView>) -> Seq<EventView> {
    redacted_out(s, Seq::empty())
}

/// The state of one kind's group while a run is read.
pub open spec fn group_matches(acc: Option<(i64, Vec<String>)>, run: Seq<EventView>, k: RedactedKind) -> bool {
    match acc {
        None => kind_first_ts(run, k) is None,
        Some(g) => kind_first_ts(run, k) == Some(g.0) && string_views(g.1@) == kind_keys(run, k),
    }
}

fn absorb(acc: &mut Option<(i64, Vec<String>)>, timestamp: i64, keys: Vec<String>)
    ensures
        match *old(acc) {
            None => *final(acc) matches Some(g) && g.0 == timestamp && string_views(g.1@)
                == string_views(keys@),
            Some(o) => *final(acc) matches Some(g) && g.0 == o.0 && string_views(g.1@)
                == string_views(o.1@) + string_views(keys@),
        },
{
    let mut keys = keys;
    match acc {
        None => {
            *acc = Some((timestamp, keys));
        },
        Some(g) => {
            let ghost before = g.1@;
            let ghost added = keys@;
            g.1.append(&mut keys);
            assert(string_views(g.1@) =~= string_views(before) + string_views(added));
        },
    }
}

fn flush(acc: Option<(i64, Vec<String>)>, kind: RedactedKind, out: &mut Vec<Event>)
    ensures
        event_views(final(out)@) == event_views(old(out)@) + match acc {
            Some(g) => seq![
                EventView::Redacted {
                    timestamp: g.0,
                    kind,
                    keys: sort_dedup(string_views(g.1@)),
                },
            ],
            None => Seq::empty(),
        },
{
    let ghost o0 = event_views(out@);
    match acc {
        Some((timestamp, keys)) => {
            let keys = sort_dedup_strings(keys);
            out.push(Event::Redacted { timestamp, kind, keys });
            assert(event_views(out@) =~= o0.push(event_views(out@).last()));
        },
        None => {
            assert(event_views(out@) =~= o0 + Seq::<EventView>::empty());
        },
    }
}

fn flush_all(
    es: Option<(i64, Vec<String>)>,
    fd: Option<(i64, Vec<String>)>,
    sc: Option<(i64, Vec<String>)>,
    out: &mut Vec<Event>,
    Ghost(run): Ghost<Seq<EventView>>,
)
    requires
        group_matches(es, run, RedactedKind::EditorSnapshot),
        group_matches(fd, run, RedactedKind::FileDiff),
        group_matches(sc, run, RedactedKind::ShellCommand),
    ensures
        event_views(final(out)@) == event_views(old(out)@) + summarize(run),
{
    let ghost o0 = event_views(out@);
    flush(es, RedactedKind::EditorSnapshot, out);
    flush(fd, RedactedKind::FileDiff, out);
    flush(sc, RedactedKind::ShellCommand, out);
    assert(event_views(out@) =~= o0 + summarize(run));
}

/// Collapse runs of adjacent `Redacted` events into one marker per kind.
///
/// Within a run the markers are grouped by kind (in kind order, whatever
/// their order in the run), each with the first timestamp of its kind and its
/// keys sorted and deduplicated. A run like "file, edit, file" becomes
/// "2 files, edit".
pub fn collapse_redacted(events: &mut Vec<Event>)
    ensures
        event_views(final(events)@) == collapse_spec(event_views(old(events)@)),
{
    let mut taken: Vec<Event> = Vec::new();
    std::mem::swap(events, &mut taken);
    let ghost sv = event_views(taken@);
    let n = taken.len();
    let mut output: Vec<Event> = Vec::new();
    let mut es: Option<(i64, Vec<String>)> = None;
    let mut fd: Option<(i64, Vec<String>)> = None;
    let mut sc: Option<(i64, Vec<String>)> = None;
    let ghost mut run: Seq<EventView> = Seq::empty();
    let mut idx: usize = 0;
    proof {
        assert(sv.skip(0) =~= sv);
        assert(event_views(output@) =~= Seq::<EventView>::empty());
    }
    for event in it: taken
        invariant
            idx == it.index(),
            sv == event_views(it.seq()),
            sv.len() == n,
            group_matches(es, run, RedactedKind::EditorSnapshot),
            group_matches(fd, run, RedactedKind::FileDiff),
            group_matches(sc, run, RedactedKind::ShellCommand),
            event_views(output@) + redacted_out(sv.skip(idx as int), run) == redacted_out(
                sv,
                Seq::empty(),
            ),
    {
        let ghost ev = event@;
        let ghost o0 = event_views(output@);
        proof {
            assert(sv.skip(idx as int)[0] == ev);
            assert(sv.skip(idx as int).drop_first() =~= sv.skip(idx + 1));
        }
        match event {
            Event::Redacted { timestamp, kind, keys } => {
                proof {
                    let r2 = run.push(ev);
                    assert(r2.drop_last() =~= run);
                }
                let ghost kv = string_views(keys@);
                proof {
                    if kind_first_ts(run, RedactedKind::EditorSnapshot) is None {
                        lemma_no_kind_no_keys(run, RedactedKind::EditorSnapshot);
                    }
                    if kind_first_ts(run, RedactedKind::FileDiff) is None {
                        lemma_no_kind_no_keys(run, RedactedKind::FileDiff);
                    }
                    if kind_first_ts(run, RedactedKind::ShellCommand) is None {
                        lemma_no_kind_no_keys(run, RedactedKind::ShellCommand);
                    }
                }
                match kind {
                    RedactedKind::EditorSnapshot => absorb(&mut es, timestamp, keys),
                    RedactedKind::FileDiff => absorb(&mut fd, timestamp, keys),
                    RedactedKind::ShellCommand => absorb(&mut sc, timestamp, keys),
                }
                proof {
                    let r2 = run.push(ev);
                    assert(r2.drop_last() =~= run);
                    assert(r2.last() == ev);
                    assert(kind_keys(r2, RedactedKind::EditorSnapshot) =~= kind_keys(
                        run,
                        RedactedKind::EditorSnapshot,
                    ) + if kind == RedactedKind::EditorSnapshot {
                        kv
                    } else {
                        Seq::empty()
                    });
                    assert(kind_keys(r2, RedactedKind::FileDiff) =~= kind_keys(
                        run,
                        RedactedKind::FileDiff,
                    ) + if kind == RedactedKind::FileDiff {
                        kv
                    } else {
                        Seq::empty()
                    });
                    assert(kind_keys(r2, RedactedKind::ShellCommand) =~= kind_keys(
                        run,
                        RedactedKind::ShellCommand,
                    ) + if kind == RedactedKind::ShellCommand {
                        kv
                    } else {
                        Seq::empty()
                    });
                    assert(kind_first_ts(r2, RedactedKind::EditorSnapshot) == match kind_first_ts(
                        run,
                        RedactedKind::EditorSnapshot,
                    ) {
                        Some(t) => Some(t),
                        None => if kind == RedactedKind::EditorSnapshot {
                            Some(timestamp)
                        } else {
                            None
                        },
                    });
                    assert(kind_first_ts(r2, RedactedKind::FileDiff) == match kind_first_ts(
                        run,
                        RedactedKind::FileDiff,
                    ) {
                        Some(t) => Some(t),
                        None => if kind == RedactedKind::FileDiff {
                            Some(timestamp)
                        } else {
                            None
                        },
                    });
                    assert(kind_first_ts(r2, RedactedKind::ShellCommand) == match kind_first_ts(
                        run,
                        RedactedKind::ShellCommand,
                    ) {
                        Some(t) => Some(t),
                        None => if kind == RedactedKind::ShellCommand {
                            Some(timestamp)
                        } else {
                            None
                        },
                    });
                    run = r2;
                }
            },
            other => {
                let mut e2: Option<(i64, Vec<String>)> = None;
                let mut f2: Option<(i64, Vec<String>)> = None;
                let mut s2: Option<(i64, Vec<String>)> = None;
                std::mem::swap(&mut es, &mut e2);
                std::mem::swap(&mut fd, &mut f2);
                std::mem::swap(&mut sc, &mut s2);
                flush_all(e2, f2, s2, &mut output, Ghost(run));
                let ghost o1 = event_views(output@);
                output.push(other);
                proof {
                    assert(event_views(output@) =~= o1.push(ev));
                    assert(event_views(output@) =~= o0 + summarize(run) + seq![ev]);
                    run = Seq::empty();
                }
            },
        }
        idx += 1;
    }
    proof {
        assert(sv.skip(n as int) =~= Seq::<EventView>::empty());
    }
    flush_all(es, fd, sc, &mut output, Ghost(run));
    *events = output;
}

// ── Relativizing ────────────────────────────────────────────────────────────

/// A region with its path made relative to `cwd`.
pub open spec fn rel_region(r: RegionView, cwd: Seq<char>) -> RegionView {
    RegionView { path: relative_to(r.path, cwd), ..r }
}

/// Regions with their paths made relative to `cwd`.
pub open spec fn rel_regions(rs: Seq<RegionView>, cwd: Seq<char>) -> Seq<RegionView> {
    rs.map_values(|r: RegionView| rel_region(r, cwd))
}

/// An event with its paths made relative to `cwd`: snapshot regions, diff
/// paths and shell working directories.
pub open spec fn rel_event(e: EventView, cwd: Seq<char>) -> EventView {
    match e {
        EventView::EditorSnapshot { timestamp, last_seen, files, regions } => {
            EventView::EditorSnapshot { timestamp, last_seen, files, regions: rel_regions(regions, cwd) }
        },
        EventView::FileDiff { timestamp, path, old, new } => EventView::FileDiff {
            timestamp,
            path: relative_to(path, cwd),
            old,
            new,
        },
        EventView::ShellCommand { timestamp, shell, command, cwd: c, exit_status, duration_secs_bits } => {
            EventView::ShellCommand {
                timestamp,
                shell,
                command,
                cwd: relative_to(c, cwd),
                exit_status,
                duration_secs_bits,
            }
        },
        _ => e,
    }
}

/// Events with their paths made relative to `cwd`.
pub open spec fn rel_events(es: Seq<EventView>, cwd: Seq<char>) -> Seq<EventView> {
    es.map_values(|e: EventView| rel_event(e, cwd))
}

fn relativize_event(event: Event, cwd: &str) -> (r: Event)
    ensures
        r@ == rel_event(event@, cwd@),
{
    match event {
        Event::EditorSnapshot { timestamp, last_seen, files, regions } => {
            let ghost rv = region_views(regions@);
            let n = regions.len();
            let mut out: Vec<CapturedRegion> = Vec::new();
            let mut idx: usize = 0;
            for region in it: regions
                invariant
                    idx == it.index(),
                    rv == region_views(it.seq()),
                    rv.len() == n,
                    region_views(out@) == rel_regions(rv.take(idx as int), cwd@),
            {
                let ghost o0 = region_views(out@);
                let CapturedRegion { path, content, first_line, selections, language } = region;
                let rel = relativize_str(path.as_str(), cwd);
                out.push(CapturedRegion { path: rel, content, first_line, selections, language });
                proof {
                    assert(region_views(out@) =~= o0.push(rel_region(rv[idx as int], cwd@)));
                    assert(rel_regions(rv.take(idx + 1), cwd@) =~= rel_regions(
                        rv.take(idx as int),
                        cwd@,
                    ).push(rel_region(rv[idx as int], cwd@)));
                }
                idx += 1;
            }
            assert(rv.take(n as int) =~= rv);
            Event::EditorSnapshot { timestamp, last_seen, files, regions: out }
        },
        Event::FileDiff { timestamp, path, old, new } => {
            let rel = relativize_str(path.as_str(), cwd);
            Event::FileDiff { timestamp, path: rel, old, new }
        },
        Event::ShellCommand { timestamp, shell, command, cwd: c, exit_status, duration_secs_bits } => {
            let rel = relativize_str(c.as_str(), cwd);
            Event::ShellCommand { timestamp, shell, command, cwd: rel, exit_status, duration_secs_bits }
        },
        other => other,
    }
}

/// Rewrite absolute paths to be relative to `cwd`: snapshot regions, diff
/// paths and shell working directories. Paths outside `cwd` are unchanged.
pub fn relativize_events(events: &mut Vec<Event>, cwd: &str)
    ensures
        event_views(final(events)@) == rel_events(event_views(old(events)@), cwd@),
{
    let mut taken: Vec<Event> = Vec::new();
    std::mem::swap(events, &mut taken);
    let ghost ov = event_views(taken@);
    let n = taken.len();
    let mut out: Vec<Event> = Vec::new();
    let mut idx: usize = 0;
    for event in it: taken
        invariant
            idx == it.index(),
            ov == event_views(it.seq()),
            ov.len() == n,
            event_views(out@) == rel_events(ov.take(idx as int), cwd@),
    {
        let ghost o0 = event_views(out@);
        let ghost ev = event@;
        let r = relativize_event(event, cwd);
        out.push(r);
        proof {
            assert(ov[idx as int] == ev);
            assert(event_views(out@) =~= o0.push(rel_event(ev, cwd@)));
            assert(rel_events(ov.take(idx + 1), cwd@) =~= rel_events(ov.take(idx as int), cwd@).push(
                rel_event(ov[idx as int], cwd@),
            ));
        }
        idx += 1;
    }
    assert(ov.take(n as int) =~= ov);
    *events = out;
}

} // verus!
