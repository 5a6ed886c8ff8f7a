//! Properties of the narration merge that hold for every input: the sort is
//! a chronological permutation, speech is never lost or reordered, cursor
//! compression keeps one cursor snapshot and every selection, net-change
//! diffs keep one diff per path, merging never adds events, subsumption drops
//! a selection only for a wider one from the same window or page, and the
//! clipboard dedup removes exactly the text captures that a selection already
//! reports.

use vstd::prelude::*;
use crate::merge::{
    clipboard_mask, collapse_fold, collapse_step, compressed_run, cursor_only, cursor_mask,
    diff_events, drop_trailing_cursor, insert_by_ts, keep_seq, last_cursor_only, merge_spec,
    net_change, no_words, path_index, preexec_mask, process_run_spec, run_others, runs_out,
    sort_by_ts, subsume_mask, union_part, with_cwd, ClipboardView, EventView, normalized,
};
use crate::text::is_substr;

verus! {

broadcast use vstd::seq_lib::group_to_multiset_ensures;

// ── Chronological sort ──────────────────────────────────────────────────────

/// Timestamps never decrease along the sequence.
pub open spec fn ts_sorted(s: Seq<EventView>) -> bool {
    forall|i: int, j: int| 0 <= i <= j < s.len() ==> #[trigger] s[i].ts() <= #[trigger] s[j].ts()
}

proof fn lemma_insert_by_ts(s: Seq<EventView>, x: EventView)
    requires
        ts_sorted(s),
    ensures
        ts_sorted(insert_by_ts(s, x)),
        insert_by_ts(s, x).to_multiset() == s.to_multiset().insert(x),
        insert_by_ts(s, x).len() == s.len() + 1,
        forall|i: int|
            0 <= i < insert_by_ts(s, x).len() ==> #[trigger] insert_by_ts(s, x)[i] == x || s.contains(
                insert_by_ts(s, x)[i],
            ),
    decreases s.len(),
{
    vstd::seq_lib::to_multiset_build(s, x);
    if s.len() == 0 || s.last().ts() <= x.ts() {
        let r = s.push(x);
        assert forall|i: int, j: int| 0 <= i <= j < r.len() implies #[trigger] r[i].ts() <= #[trigger] r[j].ts() by {
            if j == s.len() {
                if i < s.len() {
                    assert(s[i].ts() <= s[s.len() - 1].ts());
                }
            } else {
                assert(s[i].ts() <= s[j].ts());
            }
        }
        assert forall|i: int| 0 <= i < r.len() implies #[trigger] r[i] == x || s.contains(r[i]) by {
            if i < s.len() {
                assert(s[i] == r[i]);
            }
        }
    } else {
        let t = s.drop_last();
        assert(ts_sorted(t)) by {
            assert forall|i: int, j: int| 0 <= i <= j < t.len() implies #[trigger] t[i].ts() <= #[trigger] t[j].ts() by {
                assert(s[i].ts() <= s[j].ts());
            }
        }
        lemma_insert_by_ts(t, x);
        let q = insert_by_ts(t, x);
        let r = q.push(s.last());
        assert(insert_by_ts(s, x) == r);
        assert forall|i: int| 0 <= i < q.len() implies #[trigger] q[i].ts() <= s.last().ts() by {
            if q[i] != x {
                assert(t.contains(q[i]));
                let k = choose|k: int| 0 <= k < t.len() && t[k] == q[i];
                assert(s[k].ts() <= s[s.len() - 1].ts());
            }
        }
        assert forall|i: int, j: int| 0 <= i <= j < r.len() implies #[trigger] r[i].ts() <= #[trigger] r[j].ts() by {
            if j == q.len() {
                if i < q.len() {
                    assert(q[i].ts() <= s.last().ts());
                }
            } else {
                assert(q[i].ts() <= q[j].ts());
            }
        }
        assert forall|i: int| 0 <= i < r.len() implies #[trigger] r[i] == x || s.contains(r[i]) by {
            if i < q.len() {
                if q[i] != x {
                    let k = choose|k: int| 0 <= k < t.len() && t[k] == q[i];
                    assert(s[k] == r[i]);
                }
            } else {
                assert(s[s.len() - 1] == r[i]);
            }
        }
        vstd::seq_lib::to_multiset_build(q, s.last());
        vstd::seq_lib::to_multiset_build(t, s.last());
        assert(t.push(s.last()) =~= s);
        assert(r.to_multiset() =~= s.to_multiset().insert(x));
    }
}

/// Sorting by timestamp gives a chronological permutation of the events:
/// the same events, as many times each, with timestamps never decreasing.
pub proof fn law_sort_is_chronological_permutation(s: Seq<EventView>)
    ensures
        ts_sorted(sort_by_ts(s)),
        sort_by_ts(s).to_multiset() == s.to_multiset(),
        sort_by_ts(s).len() == s.len(),
        forall|i: int| 0 <= i < sort_by_ts(s).len() ==> s.contains(#[trigger] sort_by_ts(s)[i]),
    decreases s.len(),
{
    if s.len() == 0 {
        assert(s.to_multiset() =~= vstd::multiset::Multiset::empty());
    } else {
        let t = s.drop_last();
        law_sort_is_chronological_permutation(t);
        lemma_insert_by_ts(sort_by_ts(t), s.last());
        vstd::seq_lib::to_multiset_build(t, s.last());
        assert(t.push(s.last()) =~= s);
        let r = sort_by_ts(s);
        assert forall|i: int| 0 <= i < r.len() implies s.contains(#[trigger] r[i]) by {
            if r[i] == s.last() {
                assert(s[s.len() - 1] == r[i]);
            } else {
                let k = choose|k: int| 0 <= k < sort_by_ts(t).len() && sort_by_ts(t)[k] == r[i];
                assert(t.contains(sort_by_ts(t)[k]));
                let m = choose|m: int| 0 <= m < t.len() && t[m] == r[i];
                assert(s[m] == r[i]);
            }
        }
    }
}

// ── Speech is preserved ─────────────────────────────────────────────────────

/// The `Words` events of `s`, in order.
pub open spec fn words_of(s: Seq<EventView>) -> Seq<EventView>
    decreases s.len(),
{
    if s.len() == 0 {
        Seq::empty()
    } else {
        words_of(s.drop_last()) + if s.last() is Words {
            seq![s.last()]
        } else {
            Seq::empty()
        }
    }
}

pub(crate) proof fn lemma_words_concat(a: Seq<EventView>, b: Seq<EventView>)
    ensures
        words_of(a + b) == words_of(a) + words_of(b),
    decreases b.len(),
{
    if b.len() == 0 {
        assert(a + b =~= a);
        assert(words_of(a) + words_of(b) =~= words_of(a));
    } else {
        lemma_words_concat(a, b.drop_last());
        assert((a + b).drop_last() =~= a + b.drop_last());
        assert((a + b).last() == b.last());
        assert(words_of(a + b) =~= words_of(a) + words_of(b));
    }
}

pub(crate) proof fn lemma_words_single(x: EventView)
    ensures
        words_of(seq![x]) == (if x is Words {
            seq![x]
        } else {
            Seq::<EventView>::empty()
        }),
{
    reveal_with_fuel(words_of, 2);
    assert(seq![x].drop_last() =~= Seq::<EventView>::empty());
    assert(words_of(seq![x]) =~= (if x is Words {
        seq![x]
    } else {
        Seq::<EventView>::empty()
    }));
}

proof fn lemma_no_words_empty(s: Seq<EventView>)
    requires
        no_words(s),
    ensures
        words_of(s) == Seq::<EventView>::empty(),
    decreases s.len(),
{
    if s.len() > 0 {
        assert(no_words(s.drop_last()));
        lemma_no_words_empty(s.drop_last());
        assert(!(s[s.len() - 1] is Words));
        assert(words_of(s) =~= Seq::<EventView>::empty());
    }
}

proof fn lemma_keep_words(s: Seq<EventView>, keep: Seq<bool>)
    requires
        forall|i: int| 0 <= i < s.len() && #[trigger] s[i] is Words ==> keep[i],
    ensures
        words_of(keep_seq(s, keep)) == words_of(s),
    decreases s.len(),
{
    if s.len() > 0 {
        let t = s.drop_last();
        assert forall|i: int| 0 <= i < t.len() && #[trigger] t[i] is Words implies keep[i] by {
            assert(s[i] == t[i]);
        }
        lemma_keep_words(t, keep);
        let r = keep_seq(t, keep);
        if keep[s.len() - 1] {
            lemma_words_concat(r, seq![s.last()]);
            assert(r.push(s.last()) =~= r + seq![s.last()]);
            lemma_words_single(s.last());
        } else {
            assert(!(s.last() is Words));
            assert(words_of(s) =~= words_of(t));
        }
    }
}

proof fn lemma_keep_no_words(s: Seq<EventView>, keep: Seq<bool>)
    requires
        no_words(s),
    ensures
        no_words(keep_seq(s, keep)),
    decreases s.len(),
{
    if s.len() > 0 {
        assert(no_words(s.drop_last()));
        lemma_keep_no_words(s.drop_last(), keep);
        let r = keep_seq(s.drop_last(), keep);
        assert(forall|k: int| 0 <= k < r.len() ==> r.push(s.last())[k] == r[k]);
        assert(!(s[s.len() - 1] is Words));
    }
}

proof fn lemma_keep_contains(s: Seq<EventView>, keep: Seq<bool>)
    ensures
        forall|i: int| 0 <= i < keep_seq(s, keep).len() ==> s.contains(#[trigger] keep_seq(s, keep)[i]),
    decreases s.len(),
{
    if s.len() > 0 {
        let t = s.drop_last();
        lemma_keep_contains(t, keep);
        let r = keep_seq(t, keep);
        let o = keep_seq(s, keep);
        assert forall|i: int| 0 <= i < o.len() implies s.contains(#[trigger] o[i]) by {
            if i < r.len() {
                assert(o[i] == r[i]);
                let k = choose|k: int| 0 <= k < t.len() && t[k] == r[i];
                assert(s[k] == o[i]);
            } else {
                assert(s[s.len() - 1] == o[i]);
            }
        }
    }
}

/// Each event after one collapse step is an earlier one, the added one, or
/// (for a completed command) the added command with another directory.
proof fn lemma_collapse_step_from(r: Seq<EventView>, e: EventView)
    ensures
        forall|k: int|
            0 <= k < collapse_step(r, e).len() ==> r.contains(#[trigger] collapse_step(r, e)[k])
                || collapse_step(r, e)[k] == e || (e is ShellCommand && collapse_step(r, e)[k] is ShellCommand
                && collapse_step(r, e)[k].ts() == e.ts()),
{
    let out = collapse_step(r, e);
    match e {
        EventView::ExternalSelection { app, window_title, text, .. } => {
            crate::merge::lemma_last_ext_target_range(r, app, window_title, text);
            let t = crate::merge::last_ext_target(r, app, window_title, text);
            assert forall|k: int| 0 <= k < out.len() implies r.contains(#[trigger] out[k]) || out[k] == e by {
                if k < r.len() && k != t {
                    assert(out[k] == r[k]);
                }
            }
        },
        EventView::BrowserSelection { url, text, .. } => {
            crate::merge::lemma_first_browser_dup_range(r, url, text);
            let t = crate::merge::first_browser_dup(r, url, text);
            assert forall|k: int| 0 <= k < out.len() implies r.contains(#[trigger] out[k]) || out[k] == e by {
                if k < r.len() && k != t {
                    assert(out[k] == r[k]);
                }
            }
        },
        EventView::ShellCommand { command, exit_status, .. } => {
            if exit_status is Some {
                let kept = keep_seq(r, preexec_mask(r, command));
                lemma_keep_contains(r, preexec_mask(r, command));
                assert forall|k: int| 0 <= k < out.len() implies r.contains(#[trigger] out[k]) || (
                out[k] is ShellCommand && out[k].ts() == e.ts()) by {
                    if k < kept.len() {
                        assert(out[k] == kept[k]);
                    }
                }
            } else {
                assert forall|k: int| 0 <= k < out.len() implies r.contains(#[trigger] out[k]) || out[k] == e by {
                    if k < r.len() {
                        assert(out[k] == r[k]);
                    }
                }
            }
        },
        _ => {
            assert forall|k: int| 0 <= k < out.len() implies r.contains(#[trigger] out[k]) || out[k] == e by {
                if k < r.len() {
                    assert(out[k] == r[k]);
                }
            }
        },
    }
}

proof fn lemma_collapse_no_words(s: Seq<EventView>)
    requires
        no_words(s),
    ensures
        no_words(collapse_fold(s)),
    decreases s.len(),
{
    if s.len() > 0 {
        assert(no_words(s.drop_last()));
        lemma_collapse_no_words(s.drop_last());
        let r = collapse_fold(s.drop_last());
        let e = s.last();
        assert(!(s[s.len() - 1] is Words));
        lemma_collapse_step_from(r, e);
        let out = collapse_step(r, e);
        assert forall|k: int| 0 <= k < out.len() implies !(#[trigger] out[k] is Words) by {
            if r.contains(out[k]) {
                let m = choose|m: int| 0 <= m < r.len() && r[m] == out[k];
                assert(!(r[m] is Words));
            }
        }
    }
}

proof fn lemma_run_others_no_words(s: Seq<EventView>)
    ensures
        no_words(run_others(s)),
    decreases s.len(),
{
    if s.len() > 0 {
        lemma_run_others_no_words(s.drop_last());
        let r = run_others(s.drop_last());
        assert forall|k: int| 0 <= k < run_others(s).len() implies !(#[trigger] run_others(s)[k] is Words) by {
            if k < r.len() {
                assert(run_others(s)[k] == r[k]);
            }
        }
    }
}

proof fn lemma_process_run_no_words(run: Seq<EventView>)
    requires
        no_words(run),
    ensures
        no_words(process_run_spec(run)),
{
    if run.len() > 1 {
        let c = keep_seq(run, cursor_mask(run));
        lemma_keep_no_words(run, cursor_mask(run));
        if c.len() > 1 {
            let others = run_others(c);
            lemma_run_others_no_words(c);
            lemma_collapse_no_words(others);
            let f = collapse_fold(others);
            lemma_keep_no_words(f, crate::merge::browser_mask(f));
            let parts = union_part(c) + diff_events(net_change(crate::merge::run_diffs(c)))
                + crate::merge::collapsed_others(c);
            let u = union_part(c);
            let d = diff_events(net_change(crate::merge::run_diffs(c)));
            let o = crate::merge::collapsed_others(c);
            assert(no_words(parts)) by {
                assert forall|k: int| 0 <= k < parts.len() implies !(#[trigger] parts[k] is Words) by {
                    if k < u.len() {
                        assert(parts[k] == u[k]);
                    } else if k < u.len() + d.len() {
                        assert(parts[k] == d[k - u.len()]);
                    } else {
                        assert(parts[k] == o[k - u.len() - d.len()]);
                    }
                }
            }
            law_sort_is_chronological_permutation(parts);
            let sorted = sort_by_ts(parts);
            assert(sorted == compressed_run(c));
            assert forall|k: int| 0 <= k < sorted.len() implies !(#[trigger] sorted[k] is Words) by {
                assert(parts.contains(sorted[k]));
            }
        }
    }
}

proof fn lemma_runs_out_words(s: Seq<EventView>, run: Seq<EventView>)
    requires
        no_words(run),
    ensures
        words_of(runs_out(s, run)) == words_of(s),
    decreases s.len(),
{
    if s.len() == 0 {
        if run.len() > 0 {
            lemma_process_run_no_words(run);
            lemma_no_words_empty(process_run_spec(run));
        }
    } else {
        let rest = s.drop_first();
        assert(s =~= seq![s[0]] + rest);
        lemma_words_concat(seq![s[0]], rest);
        lemma_words_single(s[0]);
        if s[0] is Words {
            lemma_runs_out_words(rest, Seq::empty());
            let p = if run.len() > 0 {
                process_run_spec(run)
            } else {
                Seq::empty()
            };
            if run.len() > 0 {
                lemma_process_run_no_words(run);
            }
            lemma_no_words_empty(p);
            lemma_words_concat(p, seq![s[0]]);
            lemma_words_concat(p + seq![s[0]], runs_out(rest, Seq::empty()));
        } else {
            assert(no_words(run.push(s[0])));
            lemma_runs_out_words(rest, run.push(s[0]));
        }
    }
}

/// Speech is never dropped, altered or reordered: the `Words` events of the
/// merged narration are exactly those of the input, in chronological order.
pub proof fn law_merge_keeps_speech(es: Seq<EventView>)
    ensures
        words_of(merge_spec(es)) == words_of(sort_by_ts(es)),
{
    let sorted = sort_by_ts(es);
    let kept = keep_seq(sorted, subsume_mask(sorted));
    assert forall|i: int| 0 <= i < sorted.len() && #[trigger] sorted[i] is Words implies subsume_mask(sorted)[i] by {
        if crate::merge::subsumed_at(sorted, i) {
            let j = choose|j: int|
                i < j < sorted.len() && #[trigger] crate::merge::subsumes(sorted[i], sorted[j]) && forall|k: int|
                    i < k <= j ==> #[trigger] crate::merge::within_window(sorted[i], sorted[k]);
            assert(crate::merge::subsumes(sorted[i], sorted[j]));
        }
    }
    lemma_keep_words(sorted, subsume_mask(sorted));
    lemma_runs_out_words(kept, Seq::empty());
    let out = runs_out(kept, Seq::empty());
    let deduped = keep_seq(out, clipboard_mask(out));
    assert forall|i: int| 0 <= i < out.len() && #[trigger] out[i] is Words implies clipboard_mask(out)[i] by {}
    lemma_keep_words(out, clipboard_mask(out));
    if crate::merge::has_words(deduped) && deduped.len() > 0 && cursor_only(deduped.last()) {
        assert(deduped =~= deduped.drop_last().push(deduped.last()));
        lemma_words_concat(deduped.drop_last(), seq![deduped.last()]);
        assert(deduped.drop_last() + seq![deduped.last()] =~= deduped);
        lemma_words_single(deduped.last());
    }
}


// ── Cursor compression ──────────────────────────────────────────────────────

/// How many cursor-only snapshots `s` has.
pub open spec fn cursor_count(s: Seq<EventView>) -> nat
    decreases s.len(),
{
    if s.len() == 0 {
        0
    } else {
        cursor_count(s.drop_last()) + if cursor_only(s.last()) {
            1nat
        } else {
            0nat
        }
    }
}

/// The events of `s` that are not cursor-only snapshots, in order.
pub open spec fn non_cursor(s: Seq<EventView>) -> Seq<EventView>
    decreases s.len(),
{
    if s.len() == 0 {
        Seq::empty()
    } else {
        non_cursor(s.drop_last()) + if cursor_only(s.last()) {
            Seq::empty()
        } else {
            seq![s.last()]
        }
    }
}

proof fn lemma_last_cursor_only(s: Seq<EventView>)
    ensures
        -1 <= last_cursor_only(s) < s.len(),
        last_cursor_only(s) >= 0 ==> cursor_only(s[last_cursor_only(s)]),
        forall|k: int| last_cursor_only(s) < k < s.len() ==> !cursor_only(#[trigger] s[k]),
    decreases s.len(),
{
    if s.len() > 0 {
        lemma_last_cursor_only(s.drop_last());
        assert forall|k: int| last_cursor_only(s) < k < s.len() implies !cursor_only(#[trigger] s[k]) by {
            if k < s.len() - 1 {
                assert(s.drop_last()[k] == s[k]);
            }
        }
    }
}

proof fn lemma_cursor_prefix(s: Seq<EventView>, n: int)
    requires
        0 <= n <= s.len(),
    ensures
        cursor_count(keep_seq(s.take(n), cursor_mask(s))) == (if 0 <= last_cursor_only(s) < n {
            1nat
        } else {
            0nat
        }),
        non_cursor(keep_seq(s.take(n), cursor_mask(s))) == non_cursor(s.take(n)),
        forall|i: int|
            0 <= i < keep_seq(s.take(n), cursor_mask(s)).len() && cursor_only(
                #[trigger] keep_seq(s.take(n), cursor_mask(s))[i],
            ) ==> keep_seq(s.take(n), cursor_mask(s))[i] == s[last_cursor_only(s)],
    decreases n,
{
    lemma_last_cursor_only(s);
    let m = cursor_mask(s);
    let l = last_cursor_only(s);
    if n == 0 {
        assert(s.take(0) =~= Seq::<EventView>::empty());
    } else {
        lemma_cursor_prefix(s, n - 1);
        let t = s.take(n);
        assert(t.drop_last() =~= s.take(n - 1));
        assert(t.last() == s[n - 1]);
        let prev = keep_seq(s.take(n - 1), m);
        let cur = keep_seq(t, m);
        if m[n - 1] {
            assert(cur == prev.push(s[n - 1]));
            assert(cur.drop_last() =~= prev);
            assert forall|i: int| 0 <= i < cur.len() && cursor_only(#[trigger] cur[i]) implies cur[i] == s[l] by {
                if i < prev.len() {
                    assert(cur[i] == prev[i]);
                }
            }
            if cursor_only(s[n - 1]) {
                assert(n - 1 == l);
                assert(non_cursor(cur) =~= non_cursor(prev));
            } else {
                assert(non_cursor(cur) =~= non_cursor(prev) + seq![s[n - 1]]);
            }
        } else {
            assert(cur == prev);
            assert(cursor_only(s[n - 1]) && n - 1 != l);
            assert(n - 1 < l);
        }
    }
}

/// Cursor compression keeps exactly one cursor-only snapshot, the last one,
/// when the run has any, and every other event in order: selection
/// snapshots are never removed.
pub proof fn law_cursor_compression(s: Seq<EventView>)
    ensures
        cursor_count(keep_seq(s, cursor_mask(s))) == (if last_cursor_only(s) >= 0 {
            1nat
        } else {
            0nat
        }),
        last_cursor_only(s) >= 0 ==> cursor_only(s[last_cursor_only(s)]),
        forall|i: int|
            0 <= i < keep_seq(s, cursor_mask(s)).len() && cursor_only(#[trigger] keep_seq(s, cursor_mask(s))[i])
                ==> keep_seq(s, cursor_mask(s))[i] == s[last_cursor_only(s)],
        non_cursor(keep_seq(s, cursor_mask(s))) == non_cursor(s),
{
    lemma_last_cursor_only(s);
    lemma_cursor_prefix(s, s.len() as int);
    assert(s.take(s.len() as int) =~= s);
}

// ── Net-change diffs ────────────────────────────────────────────────────────

/// The `old` text of the first diff of path `p` in `s`.
pub open spec fn first_old(s: Seq<(i64, Seq<char>, Seq<char>, Seq<char>)>, p: Seq<char>) -> Option<Seq<char>>
    decreases s.len(),
{
    if s.len() == 0 {
        None
    } else {
        match first_old(s.drop_last(), p) {
            Some(o) => Some(o),
            None => if s.last().1 == p {
                Some(s.last().2)
            } else {
                None
            },
        }
    }
}

/// The timestamp and `new` text of the last diff of path `p` in `s`.
pub open spec fn last_new(s: Seq<(i64, Seq<char>, Seq<char>, Seq<char>)>, p: Seq<char>) -> Option<(i64, Seq<char>)>
    decreases s.len(),
{
    if s.len() == 0 {
        None
    } else if s.last().1 == p {
        Some((s.last().0, s.last().3))
    } else {
        last_new(s.drop_last(), p)
    }
}

proof fn lemma_path_index_absent(r: Seq<(i64, Seq<char>, Seq<char>, Seq<char>)>, p: Seq<char>)
    ensures
        path_index(r, p) < 0 ==> forall|i: int| 0 <= i < r.len() ==> (#[trigger] r[i]).1 != p,
    decreases r.len(),
{
    if r.len() > 0 {
        lemma_path_index_absent(r.drop_last(), p);
        if path_index(r, p) < 0 {
            assert forall|i: int| 0 <= i < r.len() implies (#[trigger] r[i]).1 != p by {
                if i < r.len() - 1 {
                    assert(r.drop_last()[i] == r[i]);
                }
            }
        }
    }
}

/// Some diff of `s` is of path `p`.
pub open spec fn has_path(s: Seq<(i64, Seq<char>, Seq<char>, Seq<char>)>, p: Seq<char>) -> bool {
    exists|k: int| 0 <= k < s.len() && (#[trigger] s[k]).1 == p
}

/// Net change keeps one diff per path, for exactly the paths that have
/// diffs, each with the first `old` text and the last `new` text and
/// timestamp of that path's diffs.
pub proof fn law_net_change(s: Seq<(i64, Seq<char>, Seq<char>, Seq<char>)>)
    ensures
        forall|i: int, j: int|
            0 <= i < j < net_change(s).len() ==> (#[trigger] net_change(s)[i]).1 != (
            #[trigger] net_change(s)[j]).1,
        forall|p: Seq<char>| #[trigger] has_path(net_change(s), p) == has_path(s, p),
        forall|i: int|
            0 <= i < net_change(s).len() ==> first_old(s, (#[trigger] net_change(s)[i]).1) == Some(
                net_change(s)[i].2,
            ) && last_new(s, net_change(s)[i].1) == Some((net_change(s)[i].0, net_change(s)[i].3)),
    decreases s.len(),
{
    if s.len() > 0 {
        let t = s.drop_last();
        law_net_change(t);
        let r = net_change(t);
        let d = s.last();
        crate::merge::lemma_path_index_range(r, d.1);
        lemma_path_index_absent(r, d.1);
        let k = path_index(r, d.1);
        let out = net_change(s);
        // Paths of `t` and of `s`.
        assert forall|p: Seq<char>| #[trigger] has_path(out, p) == has_path(s, p) by {
            assert(has_path(r, p) == has_path(t, p));
            if exists|i: int| 0 <= i < out.len() && (#[trigger] out[i]).1 == p {
                let i = choose|i: int| 0 <= i < out.len() && (#[trigger] out[i]).1 == p;
                if k >= 0 {
                    assert(out[i].1 == r[i].1);
                    let q = choose|q: int| 0 <= q < t.len() && (#[trigger] t[q]).1 == p;
                    assert(s[q] == t[q]);
                } else if i < r.len() {
                    assert(out[i] == r[i]);
                    let q = choose|q: int| 0 <= q < t.len() && (#[trigger] t[q]).1 == p;
                    assert(s[q] == t[q]);
                } else {
                    assert(s[s.len() - 1].1 == p);
                }
            }
            if exists|q: int| 0 <= q < s.len() && (#[trigger] s[q]).1 == p {
                let q = choose|q: int| 0 <= q < s.len() && (#[trigger] s[q]).1 == p;
                if q < t.len() {
                    assert(t[q] == s[q]);
                    let i = choose|i: int| 0 <= i < r.len() && (#[trigger] r[i]).1 == p;
                    if k >= 0 {
                        assert(out[i].1 == r[i].1);
                    } else {
                        assert(out[i] == r[i]);
                    }
                } else {
                    if k >= 0 {
                        assert(out[k].1 == p);
                    } else {
                        assert(out[r.len() as int] == d);
                    }
                }
            }
        }
        assert forall|i: int, j: int| 0 <= i < j < out.len() implies (#[trigger] out[i]).1 != (#[trigger] out[j]).1 by {
            if k >= 0 {
                assert(out[i].1 == r[i].1 && out[j].1 == r[j].1);
            } else if j < r.len() {
                assert(out[i] == r[i] && out[j] == r[j]);
            } else {
                assert(out[i] == r[i] && out[j] == d);
            }
        }
        assert forall|i: int| 0 <= i < out.len() implies first_old(s, (#[trigger] out[i]).1) == Some(out[i].2)
            && last_new(s, out[i].1) == Some((out[i].0, out[i].3)) by {
            if k >= 0 {
                if i == k {
                    assert(out[i] == (d.0, r[k].1, r[k].2, d.3));
                    assert(first_old(t, r[k].1) == Some(r[k].2));
                } else {
                    assert(out[i] == r[i]);
                    assert(r[i].1 != r[k].1);
                }
            } else if i < r.len() {
                assert(out[i] == r[i]);
            } else {
                assert(out[i] == d);
                if first_old(t, d.1) is Some {
                    lemma_first_old_some(t, d.1);
                    assert(has_path(t, d.1));
                    assert(has_path(r, d.1));
                    let m = choose|m: int| 0 <= m < r.len() && (#[trigger] r[m]).1 == d.1;
                    assert(r[m].1 != d.1);
                }
            }
        }
    }
}

proof fn lemma_first_old_some(s: Seq<(i64, Seq<char>, Seq<char>, Seq<char>)>, p: Seq<char>)
    requires
        first_old(s, p) is Some,
    ensures
        has_path(s, p),
    decreases s.len(),
{
    if first_old(s.drop_last(), p) is Some {
        lemma_first_old_some(s.drop_last(), p);
        let q = choose|q: int| 0 <= q < s.drop_last().len() && (#[trigger] s.drop_last()[q]).1 == p;
        assert(s[q] == s.drop_last()[q]);
    } else {
        assert(s[s.len() - 1].1 == p);
    }
}


// ── Chronological output ────────────────────────────────────────────────────

/// Some event of `src` has timestamp `t`.
pub open spec fn has_time(src: Seq<EventView>, t: i64) -> bool {
    exists|j: int| 0 <= j < src.len() && (#[trigger] src[j]).ts() == t
}

/// Every timestamp of `out` is the timestamp of some event of `src`.
pub open spec fn times_from(out: Seq<EventView>, src: Seq<EventView>) -> bool {
    forall|i: int| 0 <= i < out.len() ==> #[trigger] has_time(src, out[i].ts())
}

proof fn lemma_contained_times(out: Seq<EventView>, src: Seq<EventView>)
    requires
        forall|i: int| 0 <= i < out.len() ==> src.contains(#[trigger] out[i]),
    ensures
        times_from(out, src),
{
    assert forall|i: int| 0 <= i < out.len() implies #[trigger] has_time(src, out[i].ts()) by {
        assert(src.contains(out[i]));
        let j = choose|j: int| 0 <= j < src.len() && src[j] == out[i];
        assert(src[j].ts() == out[i].ts());
    }
}

proof fn lemma_times_trans(a: Seq<EventView>, b: Seq<EventView>, c: Seq<EventView>)
    requires
        times_from(a, b),
        times_from(b, c),
    ensures
        times_from(a, c),
{
    assert forall|i: int| 0 <= i < a.len() implies #[trigger] has_time(c, a[i].ts()) by {
        assert(has_time(b, a[i].ts()));
        let j = choose|j: int| 0 <= j < b.len() && (#[trigger] b[j]).ts() == a[i].ts();
        assert(has_time(c, b[j].ts()));
    }
}

proof fn lemma_keep_sorted(s: Seq<EventView>, keep: Seq<bool>)
    requires
        ts_sorted(s),
    ensures
        ts_sorted(keep_seq(s, keep)),
        times_from(keep_seq(s, keep), s),
    decreases s.len(),
{
    lemma_keep_contains(s, keep);
    lemma_contained_times(keep_seq(s, keep), s);
    if s.len() > 0 {
        let t = s.drop_last();
        assert(ts_sorted(t)) by {
            assert forall|i: int, j: int| 0 <= i <= j < t.len() implies #[trigger] t[i].ts() <= #[trigger] t[j].ts() by {
                assert(s[i].ts() <= s[j].ts());
            }
        }
        lemma_keep_sorted(t, keep);
        lemma_keep_contains(t, keep);
        let r = keep_seq(t, keep);
        let o = keep_seq(s, keep);
        assert forall|i: int, j: int| 0 <= i <= j < o.len() implies #[trigger] o[i].ts() <= #[trigger] o[j].ts() by {
            if j < r.len() {
                assert(o[i] == r[i] && o[j] == r[j]);
            } else if i < r.len() {
                assert(o[i] == r[i] && o[j] == s.last());
                assert(t.contains(r[i]));
                let k = choose|k: int| 0 <= k < t.len() && t[k] == r[i];
                assert(s[k].ts() <= s[s.len() - 1].ts());
            }
        }
    }
}

proof fn lemma_union_part_times(c: Seq<EventView>)
    ensures
        times_from(union_part(c), c),
    decreases c.len(),
{
    if c.len() > 0 {
        lemma_union_part_times(c.drop_last());
        let u = union_part(c);
        assert forall|i: int| 0 <= i < u.len() implies #[trigger] has_time(c, u[i].ts()) by {
            match c.last() {
                EventView::EditorSnapshot { .. } => {
                    assert(c[c.len() - 1].ts() == u[i].ts());
                },
                _ => {
                    lemma_snapshot_times_from(c);
                },
            }
        }
    }
}

proof fn lemma_snapshot_times_from(c: Seq<EventView>)
    ensures
        crate::merge::last_snapshot_times(c) matches Some(t) ==> has_time(c, t.0),
    decreases c.len(),
{
    if c.len() > 0 {
        match c.last() {
            EventView::EditorSnapshot { .. } => {
                assert(c[c.len() - 1].ts() == c.last().ts());
            },
            _ => {
                lemma_snapshot_times_from(c.drop_last());
                if crate::merge::last_snapshot_times(c) is Some {
                    let t = crate::merge::last_snapshot_times(c).unwrap();
                    let j = choose|j: int| 0 <= j < c.drop_last().len() && (#[trigger] c.drop_last()[j]).ts() == t.0;
                    assert(c[j] == c.drop_last()[j]);
                }
            },
        }
    }
}

proof fn lemma_run_diffs_times(c: Seq<EventView>)
    ensures
        forall|k: int|
            0 <= k < crate::merge::run_diffs(c).len() ==> has_time(c, (#[trigger] crate::merge::run_diffs(c)[k]).0),
    decreases c.len(),
{
    if c.len() > 0 {
        let t = c.drop_last();
        lemma_run_diffs_times(t);
        let r = crate::merge::run_diffs(t);
        let o = crate::merge::run_diffs(c);
        assert forall|k: int| 0 <= k < o.len() implies has_time(c, (#[trigger] o[k]).0) by {
            if k < r.len() {
                assert(o[k] == r[k]);
                assert(has_time(t, r[k].0));
                let j = choose|j: int| 0 <= j < t.len() && (#[trigger] t[j]).ts() == r[k].0;
                assert(c[j] == t[j]);
            } else {
                assert(c[c.len() - 1].ts() == o[k].0);
            }
        }
    }
}

proof fn lemma_last_new_times(s: Seq<(i64, Seq<char>, Seq<char>, Seq<char>)>, p: Seq<char>)
    ensures
        last_new(s, p) matches Some(x) ==> exists|k: int| 0 <= k < s.len() && (#[trigger] s[k]).0 == x.0,
    decreases s.len(),
{
    if s.len() > 0 {
        if s.last().1 == p {
            assert(s[s.len() - 1].0 == s.last().0);
        } else {
            lemma_last_new_times(s.drop_last(), p);
            if last_new(s, p) is Some {
                let x = last_new(s, p).unwrap();
                let k = choose|k: int| 0 <= k < s.drop_last().len() && (#[trigger] s.drop_last()[k]).0 == x.0;
                assert(s[k] == s.drop_last()[k]);
            }
        }
    }
}

proof fn lemma_diff_part_times(c: Seq<EventView>)
    ensures
        times_from(diff_events(net_change(crate::merge::run_diffs(c))), c),
{
    let ds = crate::merge::run_diffs(c);
    let n = net_change(ds);
    law_net_change(ds);
    lemma_run_diffs_times(c);
    let de = diff_events(n);
    assert forall|i: int| 0 <= i < de.len() implies #[trigger] has_time(c, de[i].ts()) by {
        assert(de[i].ts() == n[i].0);
        assert(last_new(ds, n[i].1) == Some((n[i].0, n[i].3)));
        lemma_last_new_times(ds, n[i].1);
        let k = choose|k: int| 0 <= k < ds.len() && (#[trigger] ds[k]).0 == n[i].0;
        assert(has_time(c, ds[k].0));
    }
}

proof fn lemma_collapse_times(s: Seq<EventView>)
    ensures
        times_from(collapse_fold(s), s),
    decreases s.len(),
{
    if s.len() > 0 {
        let t = s.drop_last();
        lemma_collapse_times(t);
        let r = collapse_fold(t);
        let e = s.last();
        lemma_collapse_step_from(r, e);
        let o = collapse_fold(s);
        assert forall|i: int| 0 <= i < o.len() implies #[trigger] has_time(s, o[i].ts()) by {
            if r.contains(o[i]) {
                let m = choose|m: int| 0 <= m < r.len() && r[m] == o[i];
                assert(has_time(t, r[m].ts()));
                let j = choose|j: int| 0 <= j < t.len() && (#[trigger] t[j]).ts() == r[m].ts();
                assert(s[j] == t[j]);
            } else {
                assert(s[s.len() - 1].ts() == o[i].ts());
            }
        }
    }
}

proof fn lemma_run_others_times(s: Seq<EventView>)
    ensures
        times_from(run_others(s), s),
    decreases s.len(),
{
    if s.len() > 0 {
        let t = s.drop_last();
        lemma_run_others_times(t);
        let r = run_others(t);
        let o = run_others(s);
        assert forall|i: int| 0 <= i < o.len() implies #[trigger] has_time(s, o[i].ts()) by {
            if i < r.len() {
                assert(o[i] == r[i]);
                assert(has_time(t, r[i].ts()));
                let j = choose|j: int| 0 <= j < t.len() && (#[trigger] t[j]).ts() == r[i].ts();
                assert(s[j] == t[j]);
            } else {
                assert(s[s.len() - 1].ts() == o[i].ts());
            }
        }
    }
}

proof fn lemma_times_concat3(a: Seq<EventView>, b: Seq<EventView>, c: Seq<EventView>, src: Seq<EventView>)
    requires
        times_from(a, src),
        times_from(b, src),
        times_from(c, src),
    ensures
        times_from(a + b + c, src),
{
    let x = a + b + c;
    assert forall|i: int| 0 <= i < x.len() implies #[trigger] has_time(src, x[i].ts()) by {
        if i < a.len() {
            assert(x[i] == a[i]);
        } else if i < a.len() + b.len() {
            assert(x[i] == b[i - a.len()]);
        } else {
            assert(x[i] == c[i - a.len() - b.len()]);
        }
    }
}

proof fn lemma_process_run_sorted(run: Seq<EventView>)
    requires
        ts_sorted(run),
    ensures
        ts_sorted(process_run_spec(run)),
        times_from(process_run_spec(run), run),
{
    if run.len() <= 1 {
        lemma_contained_times(run, run);
    } else {
        let c = keep_seq(run, cursor_mask(run));
        lemma_keep_sorted(run, cursor_mask(run));
        if c.len() > 1 {
            let u = union_part(c);
            let d = diff_events(net_change(crate::merge::run_diffs(c)));
            let others = run_others(c);
            let f = collapse_fold(others);
            let o = crate::merge::collapsed_others(c);
            lemma_union_part_times(c);
            lemma_diff_part_times(c);
            lemma_run_others_times(c);
            lemma_collapse_times(others);
            lemma_times_trans(f, others, c);
            lemma_keep_contains(f, crate::merge::browser_mask(f));
            lemma_contained_times(o, f);
            lemma_times_trans(o, f, c);
            lemma_times_concat3(u, d, o, c);
            let parts = u + d + o;
            law_sort_is_chronological_permutation(parts);
            lemma_contained_times(sort_by_ts(parts), parts);
            lemma_times_trans(sort_by_ts(parts), parts, c);
            lemma_times_trans(sort_by_ts(parts), c, run);
        }
    }
}

proof fn lemma_runs_out_sorted(s: Seq<EventView>, run: Seq<EventView>)
    requires
        ts_sorted(run + s),
    ensures
        ts_sorted(runs_out(s, run)),
        times_from(runs_out(s, run), run + s),
    decreases s.len(),
{
    let all = run + s;
    assert(ts_sorted(run)) by {
        assert forall|i: int, j: int| 0 <= i <= j < run.len() implies #[trigger] run[i].ts() <= #[trigger] run[j].ts() by {
            assert(all[i] == run[i] && all[j] == run[j]);
        }
    }
    if s.len() == 0 {
        assert(all =~= run);
        if run.len() > 0 {
            lemma_process_run_sorted(run);
        }
    } else {
        let rest = s.drop_first();
        if s[0] is Words {
            let p = if run.len() > 0 {
                process_run_spec(run)
            } else {
                Seq::empty()
            };
            if run.len() > 0 {
                lemma_process_run_sorted(run);
            }
            assert(ts_sorted(Seq::<EventView>::empty() + rest)) by {
                assert(Seq::<EventView>::empty() + rest =~= rest);
                assert forall|i: int, j: int| 0 <= i <= j < rest.len() implies #[trigger] rest[i].ts() <= #[trigger] rest[j].ts() by {
                    assert(all[run.len() + 1 + i] == rest[i] && all[run.len() + 1 + j] == rest[j]);
                }
            }
            lemma_runs_out_sorted(rest, Seq::empty());
            let q = runs_out(rest, Seq::empty());
            assert(Seq::<EventView>::empty() + rest =~= rest);
            let out = p + seq![s[0]] + q;
            let w = s[0];
            assert(all[run.len() as int] == w);
            // Everything of the run is no later than the words, everything after no earlier.
            assert forall|i: int| 0 <= i < p.len() implies #[trigger] p[i].ts() <= w.ts() by {
                assert(has_time(run, p[i].ts()));
                let j = choose|j: int| 0 <= j < run.len() && (#[trigger] run[j]).ts() == p[i].ts();
                assert(all[j] == run[j]);
            }
            assert forall|i: int| 0 <= i < q.len() implies #[trigger] q[i].ts() >= w.ts() by {
                assert(has_time(rest, q[i].ts()));
                let j = choose|j: int| 0 <= j < rest.len() && (#[trigger] rest[j]).ts() == q[i].ts();
                assert(all[run.len() + 1 + j] == rest[j]);
            }
            assert forall|i: int, j: int| 0 <= i <= j < out.len() implies #[trigger] out[i].ts() <= #[trigger] out[j].ts() by {
                if j < p.len() {
                    assert(out[i] == p[i] && out[j] == p[j]);
                } else if j == p.len() {
                    if i < p.len() {
                        assert(out[i] == p[i]);
                    }
                } else if i < p.len() {
                    assert(out[i] == p[i] && out[j] == q[j - p.len() - 1]);
                } else if i == p.len() {
                    assert(out[j] == q[j - p.len() - 1]);
                } else {
                    assert(out[i] == q[i - p.len() - 1] && out[j] == q[j - p.len() - 1]);
                }
            }
            assert forall|i: int| 0 <= i < out.len() implies #[trigger] has_time(all, out[i].ts()) by {
                if i < p.len() {
                    assert(out[i] == p[i]);
                    assert(has_time(run, p[i].ts()));
                    let j = choose|j: int| 0 <= j < run.len() && (#[trigger] run[j]).ts() == p[i].ts();
                    assert(all[j] == run[j]);
                } else if i == p.len() {
                    assert(all[run.len() as int] == out[i]);
                } else {
                    assert(out[i] == q[i - p.len() - 1]);
                    assert(has_time(rest, q[i - p.len() - 1].ts()));
                    let j = choose|j: int| 0 <= j < rest.len() && (#[trigger] rest[j]).ts() == q[i - p.len() - 1].ts();
                    assert(all[run.len() + 1 + j] == rest[j]);
                }
            }
        } else {
            assert(run.push(s[0]) + rest =~= all);
            lemma_runs_out_sorted(rest, run.push(s[0]));
        }
    }
}

/// The merged narration is chronological: timestamps never decrease, and
/// every timestamp is that of some input event.
pub proof fn law_merge_is_chronological(es: Seq<EventView>)
    ensures
        ts_sorted(merge_spec(es)),
        times_from(merge_spec(es), es),
{
    let sorted = sort_by_ts(es);
    law_sort_is_chronological_permutation(es);
    lemma_contained_times(sorted, es);
    let kept = keep_seq(sorted, subsume_mask(sorted));
    lemma_keep_sorted(sorted, subsume_mask(sorted));
    assert(Seq::<EventView>::empty() + kept =~= kept);
    lemma_runs_out_sorted(kept, Seq::empty());
    let out = runs_out(kept, Seq::empty());
    let deduped = keep_seq(out, clipboard_mask(out));
    lemma_keep_sorted(out, clipboard_mask(out));
    lemma_times_trans(deduped, out, kept);
    lemma_times_trans(deduped, kept, sorted);
    lemma_times_trans(deduped, sorted, es);
    let fin = drop_trailing_cursor(deduped);
    assert forall|i: int, j: int| 0 <= i <= j < fin.len() implies #[trigger] fin[i].ts() <= #[trigger] fin[j].ts() by {
        assert(fin[i] == deduped[i] && fin[j] == deduped[j]);
    }
    assert forall|i: int| 0 <= i < fin.len() implies #[trigger] has_time(es, fin[i].ts()) by {
        assert(fin[i] == deduped[i]);
    }
}


// ── One snapshot per run ────────────────────────────────────────────────────

/// How many editor snapshots `s` has.
pub open spec fn snapshot_count(s: Seq<EventView>) -> nat
    decreases s.len(),
{
    if s.len() == 0 {
        0
    } else {
        snapshot_count(s.drop_last()) + if s.last() is EditorSnapshot {
            1nat
        } else {
            0nat
        }
    }
}

proof fn lemma_snapshot_count_concat(a: Seq<EventView>, b: Seq<EventView>)
    ensures
        snapshot_count(a + b) == snapshot_count(a) + snapshot_count(b),
    decreases b.len(),
{
    if b.len() == 0 {
        assert(a + b =~= a);
    } else {
        lemma_snapshot_count_concat(a, b.drop_last());
        assert((a + b).drop_last() =~= a + b.drop_last());
        assert((a + b).last() == b.last());
    }
}

proof fn lemma_insert_snapshot_count(s: Seq<EventView>, x: EventView)
    ensures
        snapshot_count(insert_by_ts(s, x)) == snapshot_count(s) + if x is EditorSnapshot {
            1nat
        } else {
            0nat
        },
    decreases s.len(),
{
    if s.len() == 0 || s.last().ts() <= x.ts() {
        assert(s.push(x).drop_last() =~= s);
    } else {
        lemma_insert_snapshot_count(s.drop_last(), x);
        let q = insert_by_ts(s.drop_last(), x);
        assert(q.push(s.last()).drop_last() =~= q);
    }
}

proof fn lemma_sort_snapshot_count(s: Seq<EventView>)
    ensures
        snapshot_count(sort_by_ts(s)) == snapshot_count(s),
    decreases s.len(),
{
    if s.len() > 0 {
        lemma_sort_snapshot_count(s.drop_last());
        lemma_insert_snapshot_count(sort_by_ts(s.drop_last()), s.last());
    }
}

proof fn lemma_no_snapshot_count(s: Seq<EventView>)
    requires
        forall|k: int| 0 <= k < s.len() ==> !(#[trigger] s[k] is EditorSnapshot),
    ensures
        snapshot_count(s) == 0,
    decreases s.len(),
{
    if s.len() > 0 {
        lemma_no_snapshot_count(s.drop_last());
        assert(!(s[s.len() - 1] is EditorSnapshot));
    }
}

proof fn lemma_collapse_no_snapshots(s: Seq<EventView>)
    requires
        forall|k: int| 0 <= k < s.len() ==> !(#[trigger] s[k] is EditorSnapshot),
    ensures
        forall|k: int| 0 <= k < collapse_fold(s).len() ==> !(#[trigger] collapse_fold(s)[k] is EditorSnapshot),
    decreases s.len(),
{
    if s.len() > 0 {
        lemma_collapse_no_snapshots(s.drop_last());
        let r = collapse_fold(s.drop_last());
        let e = s.last();
        assert(!(s[s.len() - 1] is EditorSnapshot));
        lemma_collapse_step_from(r, e);
        let out = collapse_step(r, e);
        assert forall|k: int| 0 <= k < out.len() implies !(#[trigger] out[k] is EditorSnapshot) by {
            if r.contains(out[k]) {
                let m = choose|m: int| 0 <= m < r.len() && r[m] == out[k];
                assert(!(r[m] is EditorSnapshot));
            }
        }
    }
}

proof fn lemma_run_others_no_snapshots(s: Seq<EventView>)
    ensures
        forall|k: int| 0 <= k < run_others(s).len() ==> !(#[trigger] run_others(s)[k] is EditorSnapshot),
    decreases s.len(),
{
    if s.len() > 0 {
        lemma_run_others_no_snapshots(s.drop_last());
        let r = run_others(s.drop_last());
        assert forall|k: int| 0 <= k < run_others(s).len() implies !(#[trigger] run_others(s)[k] is EditorSnapshot) by {
            if k < r.len() {
                assert(run_others(s)[k] == r[k]);
            }
        }
    }
}

/// Processing a run leaves at most one editor snapshot: the surviving
/// snapshots are folded into their union.
pub proof fn law_run_has_one_snapshot(run: Seq<EventView>)
    ensures
        snapshot_count(process_run_spec(run)) <= 1,
{
    reveal_with_fuel(snapshot_count, 2);
    if run.len() <= 1 {
        if run.len() == 1 {
            assert(run.drop_last() =~= Seq::<EventView>::empty());
        }
    } else {
        let c = keep_seq(run, cursor_mask(run));
        if c.len() <= 1 {
            if c.len() == 1 {
                assert(c.drop_last() =~= Seq::<EventView>::empty());
            }
        } else {
            let u = union_part(c);
            let d = diff_events(net_change(crate::merge::run_diffs(c)));
            let others = run_others(c);
            let f = collapse_fold(others);
            let o = crate::merge::collapsed_others(c);
            lemma_run_others_no_snapshots(c);
            lemma_collapse_no_snapshots(others);
            lemma_keep_contains(f, crate::merge::browser_mask(f));
            assert forall|k: int| 0 <= k < o.len() implies !(#[trigger] o[k] is EditorSnapshot) by {
                assert(f.contains(o[k]));
                let m = choose|m: int| 0 <= m < f.len() && f[m] == o[k];
                assert(!(f[m] is EditorSnapshot));
            }
            lemma_no_snapshot_count(o);
            assert forall|k: int| 0 <= k < d.len() implies !(#[trigger] d[k] is EditorSnapshot) by {}
            lemma_no_snapshot_count(d);
            if u.len() == 1 {
                assert(u.drop_last() =~= Seq::<EventView>::empty());
            }
            lemma_snapshot_count_concat(u, d);
            lemma_snapshot_count_concat(u + d, o);
            lemma_sort_snapshot_count(u + d + o);
        }
    }
}


// ── Snapshot union ──────────────────────────────────────────────────────────

/// The union of the snapshots' regions (and files) lists each one once:
/// nothing is repeated and nothing is lost.
pub proof fn law_union_dedups<V>(s: Seq<V>)
    ensures
        crate::merge::first_occurrences(s).no_duplicates(),
        forall|x: V| #[trigger] crate::merge::first_occurrences(s).contains(x) == s.contains(x),
    decreases s.len(),
{
    assert forall|x: V| #[trigger] crate::merge::first_occurrences(s).contains(x) == s.contains(x) by {
        crate::merge::lemma_first_occurrences_contains(s, x);
    }
    if s.len() > 0 {
        let t = s.drop_last();
        law_union_dedups(t);
        let d = crate::merge::first_occurrences(t);
        if !t.contains(s.last()) {
            crate::merge::lemma_first_occurrences_contains(t, s.last());
            let r = d.push(s.last());
            assert forall|i: int, j: int| 0 <= i < r.len() && 0 <= j < r.len() && i != j implies r[i] != r[j] by {
                if i < d.len() && j < d.len() {
                    assert(r[i] == d[i] && r[j] == d[j]);
                } else if i < d.len() {
                    assert(r[i] == d[i]);
                    assert(d.contains(d[i]));
                } else {
                    assert(r[j] == d[j]);
                    assert(d.contains(d[j]));
                }
            }
        }
    }
}


// ── Merging never adds events ──────────────────────────────────────────────

proof fn lemma_keep_len<A>(s: Seq<A>, keep: Seq<bool>)
    ensures
        keep_seq(s, keep).len() <= s.len(),
    decreases s.len(),
{
    if s.len() > 0 {
        lemma_keep_len(s.drop_last(), keep);
    }
}

proof fn lemma_net_change_len(s: Seq<(i64, Seq<char>, Seq<char>, Seq<char>)>)
    ensures
        net_change(s).len() <= s.len(),
    decreases s.len(),
{
    if s.len() > 0 {
        lemma_net_change_len(s.drop_last());
        crate::merge::lemma_path_index_range(net_change(s.drop_last()), s.last().1);
    }
}

proof fn lemma_collapse_fold_len(s: Seq<EventView>)
    ensures
        collapse_fold(s).len() <= s.len(),
    decreases s.len(),
{
    if s.len() > 0 {
        let r = collapse_fold(s.drop_last());
        lemma_collapse_fold_len(s.drop_last());
        match s.last() {
            EventView::ExternalSelection { app, window_title, text, .. } => {
                crate::merge::lemma_last_ext_target_range(r, app, window_title, text);
            },
            EventView::BrowserSelection { url, text, .. } => {
                crate::merge::lemma_first_browser_dup_range(r, url, text);
            },
            EventView::ShellCommand { command, .. } => {
                lemma_keep_len(r, crate::merge::preexec_mask(r, command));
            },
            _ => {},
        }
    }
}

/// A run without speech is made of its snapshots, its diffs and the rest.
proof fn lemma_run_parts_len(c: Seq<EventView>)
    requires
        no_words(c),
    ensures
        snapshot_count(c) + crate::merge::run_diffs(c).len() + run_others(c).len() == c.len(),
        crate::merge::last_snapshot_times(c) is Some ==> snapshot_count(c) >= 1,
    decreases c.len(),
{
    if c.len() > 0 {
        assert(no_words(c.drop_last())) by {
            assert forall|k: int| 0 <= k < c.drop_last().len() implies !(#[trigger] c.drop_last()[k] is Words) by {
                assert(c.drop_last()[k] == c[k]);
            }
        }
        lemma_run_parts_len(c.drop_last());
        assert(!(c[c.len() - 1] is Words));
    }
}

proof fn lemma_process_run_len(run: Seq<EventView>)
    requires
        no_words(run),
    ensures
        process_run_spec(run).len() <= run.len(),
{
    if run.len() > 1 {
        let c = keep_seq(run, cursor_mask(run));
        lemma_keep_len(run, cursor_mask(run));
        lemma_keep_no_words(run, cursor_mask(run));
        if c.len() > 1 {
            lemma_run_parts_len(c);
            let u = union_part(c);
            let nd = net_change(crate::merge::run_diffs(c));
            lemma_net_change_len(crate::merge::run_diffs(c));
            let f = collapse_fold(run_others(c));
            lemma_collapse_fold_len(run_others(c));
            lemma_keep_len(f, crate::merge::browser_mask(f));
            let parts = u + diff_events(nd) + crate::merge::collapsed_others(c);
            law_sort_is_chronological_permutation(parts);
            assert(u.len() <= snapshot_count(c));
            assert(compressed_run(c) == sort_by_ts(parts));
        }
    }
}

proof fn lemma_runs_out_len(s: Seq<EventView>, run: Seq<EventView>)
    requires
        no_words(run),
    ensures
        runs_out(s, run).len() <= s.len() + run.len(),
    decreases s.len(),
{
    if s.len() == 0 {
        if run.len() > 0 {
            lemma_process_run_len(run);
        }
    } else {
        let rest = s.drop_first();
        if s[0] is Words {
            lemma_runs_out_len(rest, Seq::empty());
            if run.len() > 0 {
                lemma_process_run_len(run);
            }
        } else {
            assert(no_words(run.push(s[0]))) by {
                assert forall|k: int| 0 <= k < run.push(s[0]).len() implies !(#[trigger] run.push(s[0])[k] is Words) by {
                    if k < run.len() {
                        assert(run.push(s[0])[k] == run[k]);
                    }
                }
            }
            lemma_runs_out_len(rest, run.push(s[0]));
        }
    }
}

/// Merging never adds events: the merged narration has at most as many
/// events as were captured.
pub proof fn law_merge_never_adds(es: Seq<EventView>)
    ensures
        merge_spec(es).len() <= es.len(),
{
    let sorted = sort_by_ts(es);
    law_sort_is_chronological_permutation(es);
    let kept = keep_seq(sorted, subsume_mask(sorted));
    lemma_keep_len(sorted, subsume_mask(sorted));
    assert(no_words(Seq::<EventView>::empty()));
    lemma_runs_out_len(kept, Seq::empty());
    let out = runs_out(kept, Seq::empty());
    lemma_keep_len(out, clipboard_mask(out));
}


// ── Subsumption and clipboard dedup ─────────────────────────────────────────

/// `later` is an external selection from the same app and the same window
/// title as the external selection `earlier`, and its text contains
/// `earlier`'s text.
pub open spec fn wider_in_same_window(earlier: EventView, later: EventView) -> bool {
    &&& earlier matches EventView::ExternalSelection { app, window_title, text, .. }
    &&& later matches EventView::ExternalSelection { app: a, window_title: w, text: t, .. }
    &&& a == app
    &&& w == window_title
    &&& is_substr(text, t)
}

/// An external selection is only ever dropped by subsumption in favour of a
/// later external selection with the same app and the same window title whose
/// text contains it.
pub proof fn law_external_dropped_only_for_same_window(es: Seq<EventView>, i: int)
    requires
        0 <= i < es.len(),
        es[i] is ExternalSelection,
        !subsume_mask(es)[i],
    ensures
        exists|j: int| i < j < es.len() && #[trigger] wider_in_same_window(es[i], es[j]),
{
    let j = choose|j: int|
        i < j < es.len() && #[trigger] crate::merge::subsumes(es[i], es[j]) && forall|k: int|
            i < k <= j ==> #[trigger] crate::merge::within_window(es[i], es[k]);
    assert(wider_in_same_window(es[i], es[j]));
}

/// Two external selections whose windows differ (by app or by title) are
/// both kept by subsumption, in order.
pub proof fn law_selections_in_different_windows_both_kept(a: EventView, b: EventView)
    requires
        a matches EventView::ExternalSelection { app: a_app, window_title: a_title, .. },
        b matches EventView::ExternalSelection { app: b_app, window_title: b_title, .. },
        a->ExternalSelection_app != b->ExternalSelection_app
            || a->ExternalSelection_window_title != b->ExternalSelection_window_title,
    ensures
        keep_seq(seq![a, b], subsume_mask(seq![a, b])) == seq![a, b],
{
    let es = seq![a, b];
    if !subsume_mask(es)[0] {
        law_external_dropped_only_for_same_window(es, 0);
        let j = choose|j: int| 0 < j < es.len() && #[trigger] wider_in_same_window(es[0], es[j]);
        assert(j == 1);
    }
    if !subsume_mask(es)[1] {
        law_external_dropped_only_for_same_window(es, 1);
    }
    let m = subsume_mask(es);
    assert(m[0] && m[1]);
    assert(es.drop_last() =~= seq![a]);
    assert(seq![a].drop_last() =~= Seq::<EventView>::empty());
    assert(keep_seq(Seq::<EventView>::empty(), m) =~= Seq::<EventView>::empty());
    assert(keep_seq(seq![a], m) =~= seq![a]);
    assert(keep_seq(es, m) =~= seq![a, b]);
}

/// `e` is a text clipboard capture whose text is `t`.
pub open spec fn clipboard_text_is(e: EventView, t: Seq<char>) -> bool {
    e matches EventView::ClipboardSelection { content: ClipboardView::Text { text }, .. }
        && text == t
}

/// Some external selection's text, or some browser selection's plain text,
/// normalizes to `n`.
pub open spec fn reported_elsewhere(es: Seq<EventView>, n: Seq<char>) -> bool {
    exists|k: int|
        0 <= k < es.len() && {
            ||| (#[trigger] es[k]) matches EventView::ExternalSelection { text, .. } && normalized(
                text,
            ) == n
            ||| es[k] matches EventView::BrowserSelection { plain_text, .. } && normalized(
                plain_text,
            ) == n
        }
}

/// The clipboard dedup removes exactly the text clipboard captures whose
/// normalized text is not empty and equals the normalized text of some
/// external selection or the normalized plain text of some browser selection;
/// every other event is kept.
pub proof fn law_clipboard_dedup_exact(es: Seq<EventView>, i: int)
    requires
        0 <= i < es.len(),
    ensures
        !clipboard_mask(es)[i] <==> exists|t: Seq<char>|
            #[trigger] clipboard_text_is(es[i], t) && normalized(t).len() > 0
                && reported_elsewhere(es, normalized(t)),
{
    if !clipboard_mask(es)[i] {
        let t = crate::merge::clipboard_text(es[i])->0;
        assert(clipboard_text_is(es[i], t));
        let k = choose|k: int|
            0 <= k < es.len() && #[trigger] crate::merge::richer_text(es[k]) == Some(normalized(t));
        assert(es[k] == es[k]);
    }
    if exists|t: Seq<char>|
        #[trigger] clipboard_text_is(es[i], t) && normalized(t).len() > 0 && reported_elsewhere(
            es,
            normalized(t),
        ) {
        let t = choose|t: Seq<char>|
            #[trigger] clipboard_text_is(es[i], t) && normalized(t).len() > 0
                && reported_elsewhere(es, normalized(t));
        let k = choose|k: int|
            0 <= k < es.len() && {
                ||| (#[trigger] es[k]) matches EventView::ExternalSelection { text, .. }
                    && normalized(text) == normalized(t)
                ||| es[k] matches EventView::BrowserSelection { plain_text, .. } && normalized(
                    plain_text,
                ) == normalized(t)
            };
        assert(crate::merge::richer_text(es[k]) == Some(normalized(t)));
        assert(crate::merge::clipboard_dup_at(es, i));
    }
}

/// A text clipboard capture that a browser selection's plain text already
/// reports (after whitespace normalization, and not empty) is removed.
pub proof fn law_clipboard_dropped_for_browser_plain_text(es: Seq<EventView>, i: int, k: int)
    requires
        0 <= i < es.len(),
        0 <= k < es.len(),
        es[i] matches EventView::ClipboardSelection { content: ClipboardView::Text { text }, .. }
            && normalized(text).len() > 0,
        es[k] matches EventView::BrowserSelection { plain_text, .. } && normalized(plain_text)
            == normalized(es[i]->ClipboardSelection_content->Text_text),
    ensures
        !clipboard_mask(es)[i],
{
    let t = es[i]->ClipboardSelection_content->Text_text;
    assert(clipboard_text_is(es[i], t));
    assert(reported_elsewhere(es, normalized(t)));
    law_clipboard_dedup_exact(es, i);
}


/// A wider selection from the same window that arrives within two seconds
/// after the earlier selection was last seen, right after it, drops it.
pub proof fn law_wider_selection_in_window_drops(es: Seq<EventView>, i: int)
    requires
        0 <= i,
        i + 1 < es.len(),
        wider_in_same_window(es[i], es[i + 1]),
        es[i + 1].ts() - es[i].seen() <= 2000 * 1_000_000,
    ensures
        !subsume_mask(es)[i],
{
    assert(crate::merge::subsumes(es[i], es[i + 1]));
    assert forall|k: int| i < k <= i + 1 implies #[trigger] crate::merge::within_window(es[i], es[k]) by {
        assert(k == i + 1);
    }
    assert(crate::merge::subsumed_at(es, i));
}

/// `later` is a browser selection on the same URL as the browser selection
/// `earlier`, and its text contains `earlier`'s text.
pub open spec fn wider_on_same_page(earlier: EventView, later: EventView) -> bool {
    &&& earlier matches EventView::BrowserSelection { url, text, .. }
    &&& later matches EventView::BrowserSelection { url: u, text: t, .. }
    &&& u == url
    &&& is_substr(text, t)
}

/// A browser selection is only ever dropped by subsumption in favour of a
/// later browser selection on the same URL whose text contains it.
pub proof fn law_browser_dropped_only_for_same_page(es: Seq<EventView>, i: int)
    requires
        0 <= i < es.len(),
        es[i] is BrowserSelection,
        !subsume_mask(es)[i],
    ensures
        exists|j: int| i < j < es.len() && #[trigger] wider_on_same_page(es[i], es[j]),
{
    let j = choose|j: int|
        i < j < es.len() && #[trigger] crate::merge::subsumes(es[i], es[j]) && forall|k: int|
            i < k <= j ==> #[trigger] crate::merge::within_window(es[i], es[k]);
    assert(wider_on_same_page(es[i], es[j]));
}

} // verus!
