//! Properties of redaction-marker collapsing that hold for every input: the
//! events that are not markers pass untouched and in order, within each run
//! of markers there is at most one marker per kind, in kind order, and each
//! marker's keys are sorted without duplicates. Of filtering as a whole:
//! what survives lies in the project, what lies in the project passes
//! unchanged, and no word is lost.

use vstd::prelude::*;
use crate::filter::{
    collapse_spec, file_mask, filter_all, filter_one, insert_dedup, kind_group, lex_lt, outside_mask,
    redacted_out, region_mask, region_paths, sort_dedup, summarize,
};
use crate::merge::{lemma_keep_seq_members, EventView, RedactedKind};
use crate::merge_laws::{lemma_words_concat, lemma_words_single, words_of};
use crate::paths::{included, path_starts_with};

verus! {

/// The events of `s` that are not redaction markers, in order.
pub open spec fn non_markers(s: Seq<EventView>) -> Seq<EventView>
    decreases s.len(),
{
    if s.len() == 0 {
        Seq::empty()
    } else {
        non_markers(s.drop_last()) + if s.last() is Redacted {
            Seq::empty()
        } else {
            seq![s.last()]
        }
    }
}

/// The position of a marker kind in kind order.
pub open spec fn kind_rank(k: RedactedKind) -> int {
    match k {
        RedactedKind::EditorSnapshot => 0,
        RedactedKind::FileDiff => 1,
        RedactedKind::ShellCommand => 2,
    }
}

/// The rank of a marker's kind (-1 for other events).
pub open spec fn marker_rank(e: EventView) -> int {
    match e {
        EventView::Redacted { kind, .. } => kind_rank(kind),
        _ => -1,
    }
}

/// Adjacent markers have strictly increasing kinds: no two adjacent markers
/// share a kind.
pub open spec fn markers_ordered(s: Seq<EventView>) -> bool {
    forall|i: int|
        0 <= i < s.len() - 1 && #[trigger] s[i] is Redacted && s[i + 1] is Redacted ==> marker_rank(s[i])
            < marker_rank(s[i + 1])
}

proof fn lemma_non_markers_concat(a: Seq<EventView>, b: Seq<EventView>)
    ensures
        non_markers(a + b) == non_markers(a) + non_markers(b),
    decreases b.len(),
{
    if b.len() == 0 {
        assert(a + b =~= a);
        assert(non_markers(a) + non_markers(b) =~= non_markers(a));
    } else {
        lemma_non_markers_concat(a, b.drop_last());
        assert((a + b).drop_last() =~= a + b.drop_last());
        assert((a + b).last() == b.last());
        assert(non_markers(a + b) =~= non_markers(a) + non_markers(b));
    }
}

proof fn lemma_non_markers_single(x: EventView)
    ensures
        non_markers(seq![x]) == (if x is Redacted {
            Seq::<EventView>::empty()
        } else {
            seq![x]
        }),
{
    reveal_with_fuel(non_markers, 2);
    assert(seq![x].drop_last() =~= Seq::<EventView>::empty());
    assert(non_markers(seq![x]) =~= (if x is Redacted {
        Seq::<EventView>::empty()
    } else {
        seq![x]
    }));
}

proof fn lemma_all_markers(s: Seq<EventView>)
    requires
        forall|i: int| 0 <= i < s.len() ==> #[trigger] s[i] is Redacted,
    ensures
        non_markers(s) == Seq::<EventView>::empty(),
    decreases s.len(),
{
    if s.len() > 0 {
        lemma_all_markers(s.drop_last());
        assert(s[s.len() - 1] is Redacted);
        assert(non_markers(s) =~= Seq::<EventView>::empty());
    }
}

proof fn lemma_kind_group(run: Seq<EventView>, k: RedactedKind)
    ensures
        kind_group(run, k).len() <= 1,
        kind_group(run, k).len() == 1 ==> kind_group(run, k)[0] is Redacted && marker_rank(
            kind_group(run, k)[0],
        ) == kind_rank(k),
{
}

proof fn lemma_summarize(run: Seq<EventView>)
    ensures
        forall|i: int| 0 <= i < summarize(run).len() ==> #[trigger] summarize(run)[i] is Redacted,
        forall|i: int, j: int|
            0 <= i < j < summarize(run).len() ==> marker_rank(#[trigger] summarize(run)[i]) < marker_rank(
                #[trigger] summarize(run)[j],
            ),
{
    let g1 = kind_group(run, RedactedKind::EditorSnapshot);
    let g2 = kind_group(run, RedactedKind::FileDiff);
    let g3 = kind_group(run, RedactedKind::ShellCommand);
    lemma_kind_group(run, RedactedKind::EditorSnapshot);
    lemma_kind_group(run, RedactedKind::FileDiff);
    lemma_kind_group(run, RedactedKind::ShellCommand);
    let s = summarize(run);
    assert(s == g1 + g2 + g3);
    assert forall|i: int| 0 <= i < s.len() implies #[trigger] s[i] is Redacted && 0 <= marker_rank(s[i])
        && (i < g1.len() ==> marker_rank(s[i]) == 0) && (g1.len() <= i < g1.len() + g2.len()
        ==> marker_rank(s[i]) == 1) && (g1.len() + g2.len() <= i ==> marker_rank(s[i]) == 2) by {
        if i < g1.len() {
            assert(s[i] == g1[i]);
        } else if i < g1.len() + g2.len() {
            assert(s[i] == g2[i - g1.len()]);
        } else {
            assert(s[i] == g3[i - g1.len() - g2.len()]);
        }
    }
}

proof fn lemma_ordered_concat(a: Seq<EventView>, b: Seq<EventView>)
    requires
        markers_ordered(a),
        markers_ordered(b),
        a.len() == 0 || b.len() == 0 || !(a.last() is Redacted) || !(b[0] is Redacted) || marker_rank(a.last())
            < marker_rank(b[0]),
    ensures
        markers_ordered(a + b),
{
    let c = a + b;
    assert forall|i: int|
        0 <= i < c.len() - 1 && #[trigger] c[i] is Redacted && c[i + 1] is Redacted implies marker_rank(c[i])
        < marker_rank(c[i + 1]) by {
        if i + 1 < a.len() {
            assert(c[i] == a[i] && c[i + 1] == a[i + 1]);
        } else if i + 1 == a.len() {
            assert(c[i] == a.last() && c[i + 1] == b[0]);
        } else {
            assert(c[i] == b[i - a.len()] && c[i + 1] == b[i + 1 - a.len()]);
        }
    }
}

proof fn lemma_redacted_out(s: Seq<EventView>, run: Seq<EventView>)
    ensures
        non_markers(redacted_out(s, run)) == non_markers(s),
        markers_ordered(redacted_out(s, run)),
    decreases s.len(),
{
    lemma_summarize(run);
    let sm = summarize(run);
    lemma_all_markers(sm);
    assert(markers_ordered(sm));
    if s.len() > 0 {
        let rest = s.drop_first();
        assert(s =~= seq![s[0]] + rest);
        lemma_non_markers_concat(seq![s[0]], rest);
        lemma_non_markers_single(s[0]);
        if s[0] is Redacted {
            lemma_redacted_out(rest, run.push(s[0]));
        } else {
            lemma_redacted_out(rest, Seq::empty());
            let r = redacted_out(rest, Seq::empty());
            lemma_non_markers_concat(sm, seq![s[0]]);
            lemma_non_markers_concat(sm + seq![s[0]], r);
            assert(markers_ordered(seq![s[0]]));
            lemma_ordered_concat(sm, seq![s[0]]);
            assert((sm + seq![s[0]]).last() == s[0]);
            lemma_ordered_concat(sm + seq![s[0]], r);
        }
    }
}

/// Collapsing redaction markers keeps every other event, unchanged and in
/// order, and leaves no two adjacent markers of the same kind: each run of
/// markers becomes at most one marker per kind, in kind order.
pub proof fn law_collapse_redacted(s: Seq<EventView>)
    ensures
        non_markers(collapse_spec(s)) == non_markers(s),
        markers_ordered(collapse_spec(s)),
{
    lemma_redacted_out(s, Seq::empty());
}


// ── Sorted, distinct keys ───────────────────────────────────────────────────

proof fn lemma_lex_irreflexive(a: Seq<char>)
    ensures
        !lex_lt(a, a),
{
}

proof fn lemma_common_prefix(a: Seq<char>, b: Seq<char>, k: int)
    requires
        0 <= k <= a.len(),
        k <= b.len(),
        a.take(k) == b.take(k),
    ensures
        exists|j: int|
            k <= j <= a.len() && j <= b.len() && #[trigger] a.take(j) == b.take(j) && (j == a.len() || j
                == b.len() || a[j] != b[j]),
    decreases a.len() - k,
{
    if k < a.len() && k < b.len() && a[k] == b[k] {
        assert(a.take(k + 1) =~= a.take(k).push(a[k]));
        assert(b.take(k + 1) =~= b.take(k).push(b[k]));
        lemma_common_prefix(a, b, k + 1);
    } else {
        assert(a.take(k) == b.take(k));
    }
}

proof fn lemma_lex_total(a: Seq<char>, b: Seq<char>)
    requires
        a != b,
    ensures
        lex_lt(a, b) || lex_lt(b, a),
{
    assert(a.take(0) =~= b.take(0));
    lemma_common_prefix(a, b, 0);
    let j = choose|j: int|
        0 <= j <= a.len() && j <= b.len() && #[trigger] a.take(j) == b.take(j) && (j == a.len() || j
            == b.len() || a[j] != b[j]);
    if j == a.len() && j == b.len() {
        assert(a =~= a.take(j));
        assert(b =~= b.take(j));
    } else if j == a.len() {
        assert(lex_lt(a, b));
    } else if j == b.len() {
        assert(b.take(j) == a.take(j));
        assert(lex_lt(b, a));
    } else if (a[j] as u32) < (b[j] as u32) {
        assert(lex_lt(a, b));
    } else {
        vstd::utf8::char_u32_cast(a[j], a[j] as u32);
        vstd::utf8::char_u32_cast(b[j], b[j] as u32);
        assert((a[j] as u32) != (b[j] as u32));
        assert(b.take(j) == a.take(j));
        assert(lex_lt(b, a));
    }
}

proof fn lemma_take_take(a: Seq<char>, b: Seq<char>, i: int, j: int)
    requires
        0 <= j <= i <= a.len(),
        i <= b.len(),
        a.take(i) == b.take(i),
    ensures
        a.take(j) == b.take(j),
        forall|m: int| 0 <= m < i ==> a[m] == b[m],
{
    assert(a.take(j) =~= a.take(i).take(j));
    assert(b.take(j) =~= b.take(i).take(j));
    assert forall|m: int| 0 <= m < i implies a[m] == b[m] by {
        assert(a.take(i)[m] == a[m]);
        assert(b.take(i)[m] == b[m]);
    }
}

proof fn lemma_lex_transitive(a: Seq<char>, b: Seq<char>, c: Seq<char>)
    requires
        lex_lt(a, b),
        lex_lt(b, c),
    ensures
        lex_lt(a, c),
{
    let i = choose|i: int|
        0 <= i <= a.len() && i <= b.len() && #[trigger] a.take(i) == b.take(i) && ((i == a.len() && i
            < b.len()) || (i < a.len() && i < b.len() && (a[i] as u32) < (b[i] as u32)));
    let j = choose|j: int|
        0 <= j <= b.len() && j <= c.len() && #[trigger] b.take(j) == c.take(j) && ((j == b.len() && j
            < c.len()) || (j < b.len() && j < c.len() && (b[j] as u32) < (c[j] as u32)));
    if i < j {
        lemma_take_take(b, c, j, i);
        assert(a.take(i) == c.take(i));
        assert(b[i] == c[i]);
    } else if j < i {
        lemma_take_take(a, b, i, j);
        assert(a.take(j) == c.take(j));
        assert(a[j] == b[j]);
    } else {
        assert(a.take(i) == c.take(i));
    }
}

/// Every element is strictly before every later one.
pub open spec fn strictly_sorted(s: Seq<Seq<char>>) -> bool {
    forall|i: int, j: int| 0 <= i < j < s.len() ==> lex_lt(#[trigger] s[i], #[trigger] s[j])
}

proof fn lemma_insert_dedup(s: Seq<Seq<char>>, x: Seq<char>)
    requires
        strictly_sorted(s),
    ensures
        strictly_sorted(insert_dedup(s, x)),
        forall|y: Seq<char>| #[trigger] insert_dedup(s, x).contains(y) <==> (s.contains(y) || y == x),
    decreases s.len(),
{
    let r = insert_dedup(s, x);
    if s.len() == 0 {
        assert forall|y: Seq<char>| #[trigger] r.contains(y) <==> (s.contains(y) || y == x) by {
            if r.contains(y) {
                let k = choose|k: int| 0 <= k < r.len() && r[k] == y;
            }
            if y == x {
                assert(r[0] == x);
            }
        }
    } else if s.last() == x {
        assert forall|y: Seq<char>| #[trigger] r.contains(y) <==> (s.contains(y) || y == x) by {
            if y == x {
                assert(s[s.len() - 1] == x);
            }
        }
    } else if lex_lt(s.last(), x) {
        assert forall|i: int, j: int| 0 <= i < j < r.len() implies lex_lt(#[trigger] r[i], #[trigger] r[j]) by {
            if j < s.len() {
                assert(r[i] == s[i] && r[j] == s[j]);
            } else if i < s.len() - 1 {
                assert(lex_lt(s[i], s[s.len() - 1]));
                lemma_lex_transitive(s[i], s.last(), x);
            }
        }
        assert forall|y: Seq<char>| #[trigger] r.contains(y) <==> (s.contains(y) || y == x) by {
            if r.contains(y) {
                let k = choose|k: int| 0 <= k < r.len() && r[k] == y;
                if k < s.len() {
                    assert(s[k] == y);
                }
            }
            if s.contains(y) {
                let k = choose|k: int| 0 <= k < s.len() && s[k] == y;
                assert(r[k] == y);
            }
            if y == x {
                assert(r[s.len() as int] == x);
            }
        }
    } else {
        let t = s.drop_last();
        assert(strictly_sorted(t)) by {
            assert forall|i: int, j: int| 0 <= i < j < t.len() implies lex_lt(#[trigger] t[i], #[trigger] t[j]) by {
                assert(t[i] == s[i] && t[j] == s[j]);
            }
        }
        lemma_insert_dedup(t, x);
        let q = insert_dedup(t, x);
        lemma_lex_total(s.last(), x);
        assert(lex_lt(x, s.last()));
        assert forall|k: int| 0 <= k < q.len() implies lex_lt(#[trigger] q[k], s.last()) by {
            assert(q.contains(q[k]));
            if q[k] != x {
                let m = choose|m: int| 0 <= m < t.len() && t[m] == q[k];
                assert(s[m] == t[m]);
                assert(lex_lt(s[m], s[s.len() - 1]));
            }
        }
        assert forall|i: int, j: int| 0 <= i < j < r.len() implies lex_lt(#[trigger] r[i], #[trigger] r[j]) by {
            if j < q.len() {
                assert(r[i] == q[i] && r[j] == q[j]);
            } else {
                assert(r[i] == q[i]);
            }
        }
        assert forall|y: Seq<char>| #[trigger] r.contains(y) <==> (s.contains(y) || y == x) by {
            if r.contains(y) {
                let k = choose|k: int| 0 <= k < r.len() && r[k] == y;
                if k < q.len() {
                    assert(q.contains(q[k]));
                    if y != x {
                        let m = choose|m: int| 0 <= m < t.len() && t[m] == y;
                        assert(s[m] == y);
                    }
                } else {
                    assert(s[s.len() - 1] == y);
                }
            }
            if s.contains(y) {
                let k = choose|k: int| 0 <= k < s.len() && s[k] == y;
                if k < t.len() {
                    assert(t[k] == y);
                    assert(q.contains(y));
                    let m = choose|m: int| 0 <= m < q.len() && q[m] == y;
                    assert(r[m] == y);
                } else {
                    assert(r[q.len() as int] == y);
                }
            }
            if y == x {
                assert(q.contains(x));
                let m = choose|m: int| 0 <= m < q.len() && q[m] == x;
                assert(r[m] == x);
            }
        }
    }
}

/// The keys of a collapsed marker are sorted, without duplicates, and are
/// exactly the keys of the markers it replaces.
pub proof fn law_sort_dedup(keys: Seq<Seq<char>>)
    ensures
        strictly_sorted(sort_dedup(keys)),
        sort_dedup(keys).no_duplicates(),
        forall|y: Seq<char>| #[trigger] sort_dedup(keys).contains(y) <==> keys.contains(y),
    decreases keys.len(),
{
    if keys.len() > 0 {
        let t = keys.drop_last();
        law_sort_dedup(t);
        lemma_insert_dedup(sort_dedup(t), keys.last());
        assert forall|y: Seq<char>| #[trigger] sort_dedup(keys).contains(y) <==> keys.contains(y) by {
            if keys.contains(y) && y != keys.last() {
                let k = choose|k: int| 0 <= k < keys.len() && keys[k] == y;
                assert(t[k] == y);
            }
            if t.contains(y) {
                let k = choose|k: int| 0 <= k < t.len() && t[k] == y;
                assert(keys[k] == y);
            }
            if y == keys.last() {
                assert(keys[keys.len() - 1] == y);
            }
        }
    }
    let r = sort_dedup(keys);
    assert forall|i: int, j: int| 0 <= i < r.len() && 0 <= j < r.len() && i != j implies r[i] != r[j] by {
        if i < j {
            assert(lex_lt(r[i], r[j]));
        } else {
            assert(lex_lt(r[j], r[i]));
        }
        lemma_lex_irreflexive(r[i]);
    }
}


// ── Filtering as a whole ────────────────────────────────────────────────────

/// Whether everything an event names lies in scope: the regions and files
/// of a snapshot, the path of a diff, the directory of a shell command.
pub open spec fn event_in_scope(e: EventView, cwd: Seq<char>, dirs: Seq<Seq<char>>) -> bool {
    match e {
        EventView::EditorSnapshot { files, regions, .. } => {
            &&& forall|i: int| #![trigger regions[i]] 0 <= i < regions.len() ==> included(regions[i].path, cwd, dirs)
            &&& forall|i: int| #![trigger files[i]] 0 <= i < files.len() ==> included(files[i].path, cwd, dirs)
        },
        EventView::FileDiff { path, .. } => included(path, cwd, dirs),
        EventView::ShellCommand { cwd: c, .. } => included(c, cwd, dirs),
        _ => true,
    }
}

proof fn lemma_filter_one_in_scope(e: EventView, cwd: Seq<char>, dirs: Seq<Seq<char>>)
    ensures
        forall|k: int| 0 <= k < filter_one(e, cwd, dirs).len() ==> event_in_scope(#[trigger] filter_one(e, cwd, dirs)[k], cwd, dirs),
{
    match e {
        EventView::EditorSnapshot { timestamp, last_seen, files, regions } => {
            let rm = region_mask(regions, cwd, dirs);
            let fm = file_mask(files, cwd, dirs);
            lemma_keep_seq_members(regions, rm);
            lemma_keep_seq_members(files, fm);
            let kept = crate::merge::keep_seq(regions, rm);
            let kf = crate::merge::keep_seq(files, fm);
            assert forall|i: int| #![trigger kept[i]] 0 <= i < kept.len() implies included(kept[i].path, cwd, dirs) by {
                assert(crate::merge::flagged_in(regions, rm, kept[i]));
                let j = choose|j: int| 0 <= j < regions.len() && rm[j] && regions[j] == kept[i];
            }
            assert forall|i: int| #![trigger kf[i]] 0 <= i < kf.len() implies included(kf[i].path, cwd, dirs) by {
                assert(crate::merge::flagged_in(files, fm, kf[i]));
                let j = choose|j: int| 0 <= j < files.len() && fm[j] && files[j] == kf[i];
            }
        },
        _ => {},
    }
}

proof fn lemma_filter_all_in_scope(es: Seq<EventView>, cwd: Seq<char>, dirs: Seq<Seq<char>>)
    ensures
        forall|k: int| 0 <= k < filter_all(es, cwd, dirs).len() ==> event_in_scope(#[trigger] filter_all(es, cwd, dirs)[k], cwd, dirs),
    decreases es.len(),
{
    if es.len() > 0 {
        let a = filter_all(es.drop_last(), cwd, dirs);
        let b = filter_one(es.last(), cwd, dirs);
        lemma_filter_all_in_scope(es.drop_last(), cwd, dirs);
        lemma_filter_one_in_scope(es.last(), cwd, dirs);
        assert(filter_all(es, cwd, dirs) == a + b);
        assert forall|k: int| 0 <= k < (a + b).len() implies event_in_scope(#[trigger] (a + b)[k], cwd, dirs) by {
            if k < a.len() {
                assert((a + b)[k] == a[k]);
            } else {
                assert((a + b)[k] == b[k - a.len()]);
            }
        }
    }
}

proof fn lemma_non_markers_members(s: Seq<EventView>)
    ensures
        forall|x: EventView| #[trigger] non_markers(s).contains(x) ==> s.contains(x),
    decreases s.len(),
{
    if s.len() > 0 {
        let t = s.drop_last();
        lemma_non_markers_members(t);
        lemma_non_markers_concat(t, seq![s.last()]);
        lemma_non_markers_single(s.last());
        assert(t + seq![s.last()] =~= s);
        assert forall|x: EventView| #[trigger] non_markers(s).contains(x) implies s.contains(x) by {
            let k = choose|k: int| 0 <= k < non_markers(s).len() && non_markers(s)[k] == x;
            if k < non_markers(t).len() {
                assert(non_markers(t)[k] == x);
                assert(non_markers(t).contains(x));
                let j = choose|j: int| 0 <= j < t.len() && t[j] == x;
                assert(s[j] == x);
            } else {
                assert(s[s.len() - 1] == x);
            }
        }
    }
}

proof fn lemma_non_markers_keep(s: Seq<EventView>, k: int)
    requires
        0 <= k < s.len(),
        !(s[k] is Redacted),
    ensures
        non_markers(s).contains(s[k]),
    decreases s.len(),
{
    let t = s.drop_last();
    lemma_non_markers_concat(t, seq![s.last()]);
    lemma_non_markers_single(s.last());
    assert(t + seq![s.last()] =~= s);
    if k < t.len() {
        lemma_non_markers_keep(t, k);
        let j = choose|j: int| 0 <= j < non_markers(t).len() && non_markers(t)[j] == t[k];
        assert(non_markers(s)[j] == s[k]);
    } else {
        assert(non_markers(s)[non_markers(s).len() - 1] == s[k]);
    }
}

/// What filtering delivers lies in the project: every region and file of a
/// snapshot, every diff and every shell command is under the working
/// directory or an included directory; the rest is redaction markers.
pub proof fn law_filter_in_scope(es: Seq<EventView>, cwd: Seq<char>, dirs: Seq<Seq<char>>)
    ensures
        forall|k: int|
            0 <= k < collapse_spec(filter_all(es, cwd, dirs)).len() ==> event_in_scope(
                #[trigger] collapse_spec(filter_all(es, cwd, dirs))[k],
                cwd,
                dirs,
            ),
{
    let f = filter_all(es, cwd, dirs);
    let out = collapse_spec(f);
    law_collapse_redacted(f);
    lemma_filter_all_in_scope(es, cwd, dirs);
    lemma_non_markers_members(f);
    assert forall|k: int| 0 <= k < out.len() implies event_in_scope(#[trigger] out[k], cwd, dirs) by {
        if !(out[k] is Redacted) {
            lemma_non_markers_keep(out, k);
            assert(non_markers(f).contains(out[k]));
            let j = choose|j: int| 0 <= j < f.len() && f[j] == out[k];
            assert(event_in_scope(f[j], cwd, dirs));
        }
    }
}

proof fn lemma_no_words(s: Seq<EventView>)
    requires
        forall|i: int| 0 <= i < s.len() ==> !(#[trigger] s[i] is Words),
    ensures
        words_of(s) == Seq::<EventView>::empty(),
    decreases s.len(),
{
    if s.len() > 0 {
        lemma_no_words(s.drop_last());
        assert(!(s[s.len() - 1] is Words));
        assert(words_of(s) =~= Seq::<EventView>::empty());
    }
}

proof fn lemma_words_filter_one(e: EventView, cwd: Seq<char>, dirs: Seq<Seq<char>>)
    ensures
        words_of(filter_one(e, cwd, dirs)) == words_of(seq![e]),
{
    lemma_words_single(e);
    let f = filter_one(e, cwd, dirs);
    if e is Words {
        assert(f == seq![e]);
    } else {
        assert forall|i: int| 0 <= i < f.len() implies !(#[trigger] f[i] is Words) by {
            match e {
                EventView::EditorSnapshot { .. } => {
                    assert(f[i] is EditorSnapshot || f[i] is Redacted);
                },
                _ => {},
            }
        }
        lemma_no_words(f);
    }
}

proof fn lemma_words_filter_all(es: Seq<EventView>, cwd: Seq<char>, dirs: Seq<Seq<char>>)
    ensures
        words_of(filter_all(es, cwd, dirs)) == words_of(es),
    decreases es.len(),
{
    if es.len() > 0 {
        let t = es.drop_last();
        lemma_words_filter_all(t, cwd, dirs);
        lemma_words_filter_one(es.last(), cwd, dirs);
        lemma_words_concat(filter_all(t, cwd, dirs), filter_one(es.last(), cwd, dirs));
        lemma_words_concat(t, seq![es.last()]);
        assert(t + seq![es.last()] =~= es);
    }
}

proof fn lemma_words_non_markers(s: Seq<EventView>)
    ensures
        words_of(non_markers(s)) == words_of(s),
    decreases s.len(),
{
    if s.len() > 0 {
        let t = s.drop_last();
        lemma_words_non_markers(t);
        lemma_non_markers_concat(t, seq![s.last()]);
        lemma_non_markers_single(s.last());
        assert(t + seq![s.last()] =~= s);
        let tail = if s.last() is Redacted { Seq::<EventView>::empty() } else { seq![s.last()] };
        lemma_words_concat(non_markers(t), tail);
        lemma_words_concat(t, seq![s.last()]);
        lemma_words_single(s.last());
        if s.last() is Redacted {
            lemma_no_words(tail);
        }
    }
}

/// Filtering never loses or reorders speech: the words delivered are the
/// words recorded.
pub proof fn law_filter_keeps_speech(es: Seq<EventView>, cwd: Seq<char>, dirs: Seq<Seq<char>>)
    ensures
        words_of(collapse_spec(filter_all(es, cwd, dirs))) == words_of(es),
{
    let f = filter_all(es, cwd, dirs);
    law_collapse_redacted(f);
    lemma_words_non_markers(f);
    lemma_words_non_markers(collapse_spec(f));
    lemma_words_filter_all(es, cwd, dirs);
}


// ── What is in scope passes unchanged ───────────────────────────────────────

/// `path` lies under `cwd` or under one of `dirs`, component by component.
pub open spec fn under_project(path: Seq<char>, cwd: Seq<char>, dirs: Seq<Seq<char>>) -> bool {
    path_starts_with(path, cwd) || exists|k: int|
        0 <= k < dirs.len() && #[trigger] path_starts_with(path, dirs[k])
}

/// A diff or a shell command whose path (working directory) lies under the
/// project, or a snapshot with at least one region whose regions and files
/// all lie under it.
pub open spec fn wholly_in_project(e: EventView, cwd: Seq<char>, dirs: Seq<Seq<char>>) -> bool {
    match e {
        EventView::EditorSnapshot { files, regions, .. } => {
            &&& regions.len() > 0
            &&& forall|i: int| #![trigger regions[i]] 0 <= i < regions.len() ==> under_project(regions[i].path, cwd, dirs)
            &&& forall|i: int| #![trigger files[i]] 0 <= i < files.len() ==> under_project(files[i].path, cwd, dirs)
        },
        EventView::FileDiff { path, .. } => under_project(path, cwd, dirs),
        EventView::ShellCommand { cwd: c, .. } => under_project(c, cwd, dirs),
        _ => false,
    }
}

proof fn lemma_keep_all<A>(s: Seq<A>, keep: Seq<bool>)
    requires
        forall|i: int| 0 <= i < s.len() ==> #[trigger] keep[i],
    ensures
        crate::merge::keep_seq(s, keep) == s,
    decreases s.len(),
{
    if s.len() > 0 {
        lemma_keep_all(s.drop_last(), keep);
        assert(s.drop_last().push(s.last()) =~= s);
    }
}

proof fn lemma_keep_none<A>(s: Seq<A>, keep: Seq<bool>)
    requires
        forall|i: int| 0 <= i < s.len() ==> !#[trigger] keep[i],
    ensures
        crate::merge::keep_seq(s, keep).len() == 0,
    decreases s.len(),
{
    if s.len() > 0 {
        lemma_keep_none(s.drop_last(), keep);
    }
}

/// Filtering leaves an event that lies wholly in the project as it is: a
/// diff under the working directory or under any included directory, a shell
/// command run there, a snapshot whose regions and files all lie there.
pub proof fn law_in_project_event_unchanged(e: EventView, cwd: Seq<char>, dirs: Seq<Seq<char>>)
    requires
        wholly_in_project(e, cwd, dirs),
    ensures
        filter_one(e, cwd, dirs) == seq![e],
{
    match e {
        EventView::EditorSnapshot { timestamp, last_seen, files, regions } => {
            let rm = region_mask(regions, cwd, dirs);
            let om = outside_mask(regions, cwd, dirs);
            let fm = file_mask(files, cwd, dirs);
            assert forall|i: int| 0 <= i < regions.len() implies #[trigger] rm[i] by {
                assert(under_project(regions[i].path, cwd, dirs));
            }
            assert forall|i: int| 0 <= i < files.len() implies #[trigger] fm[i] by {
                assert(under_project(files[i].path, cwd, dirs));
            }
            assert forall|i: int| 0 <= i < region_paths(regions).len() implies !#[trigger] om[i] by {
                assert(under_project(regions[i].path, cwd, dirs));
            }
            lemma_keep_all(regions, rm);
            lemma_keep_all(files, fm);
            lemma_keep_none(region_paths(regions), om);
            assert(filter_one(e, cwd, dirs) =~= seq![e]);
        },
        _ => {},
    }
}

proof fn lemma_filter_all_has(es: Seq<EventView>, cwd: Seq<char>, dirs: Seq<Seq<char>>, i: int)
    requires
        0 <= i < es.len(),
        filter_one(es[i], cwd, dirs) == seq![es[i]],
    ensures
        exists|k: int| 0 <= k < filter_all(es, cwd, dirs).len() && #[trigger] filter_all(es, cwd, dirs)[k] == es[i],
    decreases es.len(),
{
    let a = filter_all(es.drop_last(), cwd, dirs);
    let b = filter_one(es.last(), cwd, dirs);
    assert(filter_all(es, cwd, dirs) == a + b);
    if i == es.len() - 1 {
        assert((a + b)[a.len() as int] == es[i]);
    } else {
        lemma_filter_all_has(es.drop_last(), cwd, dirs, i);
        let k = choose|k: int| 0 <= k < a.len() && #[trigger] a[k] == es.drop_last()[i];
        assert((a + b)[k] == es[i]);
    }
}

/// `filter_events` keeps every event that lies wholly in the project: such a
/// diff, shell command or snapshot is found, unchanged, in what filtering
/// delivers; only what lies outside becomes a redaction marker.
pub proof fn law_filter_keeps_in_project(es: Seq<EventView>, cwd: Seq<char>, dirs: Seq<Seq<char>>, i: int)
    requires
        0 <= i < es.len(),
        wholly_in_project(es[i], cwd, dirs),
    ensures
        collapse_spec(filter_all(es, cwd, dirs)).contains(es[i]),
{
    let f = filter_all(es, cwd, dirs);
    law_in_project_event_unchanged(es[i], cwd, dirs);
    lemma_filter_all_has(es, cwd, dirs, i);
    let k = choose|k: int| 0 <= k < f.len() && #[trigger] f[k] == es[i];
    lemma_non_markers_keep(f, k);
    law_collapse_redacted(f);
    lemma_non_markers_members(collapse_spec(f));
}

} // verus!
