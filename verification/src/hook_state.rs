//! The narration hook dispatcher as a state machine over the hook-visible state.
//!
//! The state that the hook system keeps on disk (the listening file, the per-session
//! `activated` and `displaced` markers, the pending narration files and the receiver lock)
//! is held here as plain values. Each hook invocation is one step: it reads the state,
//! decides what the agent is told, and changes the state.

use vstd::prelude::*;
use vstd::string::StringExecFns;
use crate::hook_command::{detect_listen_command, listen_command_spec, is_attend_prompt, is_attend_text, is_unattend_prompt, is_unattend_text, ListenCommand};
use crate::hook_decision::{general_decision, general_decision_spec, relation_spec, session_relation, SessionRelation};
use crate::hook_types::{GuidanceEffect, GuidanceReason, HookDecision, HookInput, HookKind, HookType};
use crate::event_text::event_line;
use crate::filter::{collapse_spec, filter_all, filter_events, rel_events, relativize_events};
use crate::merge::{event_views, Event, EventView};
use crate::text::{join_strings, join_with, string_views};

verus! {

/// One event of a pending narration file, as it is delivered: its summary
/// line, and whether it is an editor snapshot or a redaction marker.
#[derive(Debug)]
pub struct PendingItem {
    pub text: String,
    pub snapshot: bool,
    pub marker: bool,
}

/// A pending narration file: the session it was recorded for (`None` for narrations
/// recorded without an agent session) and its events, scoped to the project.
#[derive(Debug)]
pub struct PendingNarration {
    pub session: Option<String>,
    pub items: Vec<PendingItem>,
}

/// The hook-visible narration state.
#[derive(Debug)]
pub struct HookState {
    /// The session that currently owns narration.
    pub listening: Option<String>,
    /// Sessions that have activated `/attend` at some point.
    pub activated: Vec<String>,
    /// Sessions that were displaced (stolen from or deactivated).
    pub displaced: Vec<String>,
    /// Pending narration files, in delivery (file name) order.
    pub pending: Vec<PendingNarration>,
    /// Whether a background receiver holds the receive lock.
    pub receiver_alive: bool,
}

/// What the agent is told by one narration hook.
#[derive(Debug, PartialEq, Eq)]
pub enum HookOutcome {
    /// A guidance decision (or silence).
    Decision(HookDecision),
    /// Narration content delivered inline.
    Narration(String),
    /// The session was activated for narration (auto-claim).
    Activation,
}

pub open spec fn opt_view(o: Option<String>) -> Option<Seq<char>> {
    match o {
        Some(s) => Some(s@),
        None => None,
    }
}

pub open spec fn strs(v: Seq<String>) -> Seq<Seq<char>> {
    v.map_values(|s: String| s@)
}

pub struct ItemView {
    pub text: Seq<char>,
    pub snapshot: bool,
    pub marker: bool,
}

pub struct PendingView {
    pub session: Option<Seq<char>>,
    pub items: Seq<ItemView>,
}

pub struct HookStateView {
    pub listening: Option<Seq<char>>,
    pub activated: Seq<Seq<char>>,
    pub displaced: Seq<Seq<char>>,
    pub pending: Seq<PendingView>,
    pub receiver_alive: bool,
}

pub enum OutcomeView {
    Decision(HookDecision),
    Narration(Seq<char>),
    Activation,
}

pub open spec fn item_view(i: PendingItem) -> ItemView {
    ItemView { text: i.text@, snapshot: i.snapshot, marker: i.marker }
}

pub open spec fn item_views(s: Seq<PendingItem>) -> Seq<ItemView> {
    s.map_values(|i: PendingItem| item_view(i))
}

pub open spec fn pending_view(p: PendingNarration) -> PendingView {
    PendingView { session: opt_view(p.session), items: item_views(p.items@) }
}

/// How an event is delivered: its summary line, and whether it is an editor
/// snapshot or a redaction marker.
pub open spec fn event_item(e: EventView) -> ItemView {
    ItemView { text: event_line(e), snapshot: e is EditorSnapshot, marker: e is Redacted }
}

/// A pending file's events scoped to the project: filtered to `cwd` and the
/// extra directories, with redaction markers collapsed, and made relative to
/// `cwd`; unchanged without a project directory.
pub open spec fn scoped_events(ev: Seq<EventView>, cwd: Option<Seq<char>>, dirs: Seq<Seq<char>>) -> Seq<EventView> {
    match cwd {
        Some(c) => rel_events(collapse_spec(filter_all(ev, c, dirs)), c),
        None => ev,
    }
}

impl View for HookState {
    type V = HookStateView;

    open spec fn view(&self) -> HookStateView {
        HookStateView {
            listening: opt_view(self.listening),
            activated: strs(self.activated@),
            displaced: strs(self.displaced@),
            pending: self.pending@.map_values(|p: PendingNarration| pending_view(p)),
            receiver_alive: self.receiver_alive,
        }
    }
}

impl View for HookOutcome {
    type V = OutcomeView;

    open spec fn view(&self) -> OutcomeView {
        match self {
            HookOutcome::Decision(d) => OutcomeView::Decision(*d),
            HookOutcome::Narration(s) => OutcomeView::Narration(s@),
            HookOutcome::Activation => OutcomeView::Activation,
        }
    }
}

/// Adds `x` to a marker set.
pub open spec fn mark(s: Seq<Seq<char>>, x: Seq<char>) -> Seq<Seq<char>> {
    if s.contains(x) {
        s
    } else {
        s.push(x)
    }
}

/// Removes `x` from a marker set.
pub open spec fn unmark(s: Seq<Seq<char>>, x: Seq<char>) -> Seq<Seq<char>> {
    s.filter(other_than(x))
}

/// The predicate "is not `x`".
pub open spec fn other_than(x: Seq<char>) -> spec_fn(Seq<char>) -> bool {
    |y: Seq<char>| y != x
}

/// Whether a pending file is delivered to session `sid`: its own files and those recorded
/// without a session.
pub open spec fn belongs(p: PendingView, sid: Seq<char>) -> bool {
    p.session == Some(sid) || p.session is None
}

/// The pending files that a delivery to `sid` collects.
pub open spec fn collected(pending: Seq<PendingView>, sid: Seq<char>) -> Seq<PendingView> {
    pending.filter(|p: PendingView| belongs(p, sid))
}

/// The pending files that remain after a delivery to `sid` archives its files.
pub open spec fn after_archive(pending: Seq<PendingView>, sid: Seq<char>) -> Seq<PendingView> {
    pending.filter(|p: PendingView| !belongs(p, sid))
}

/// The events of a list of pending files, merged in file order.
pub open spec fn items_of(ps: Seq<PendingView>) -> Seq<ItemView>
    decreases ps.len(),
{
    if ps.len() == 0 {
        Seq::empty()
    } else {
        items_of(ps.drop_last()) + ps.last().items
    }
}

/// The summary lines of a list of events.
pub open spec fn item_texts(s: Seq<ItemView>) -> Seq<Seq<char>> {
    s.map_values(|i: ItemView| i.text)
}

/// The delivered text of the merged events: without a leading editor
/// snapshot (the hook delivers the current editor state itself), one line
/// per event; `None` when nothing or only redaction markers remain.
pub open spec fn delivered_text(all: Seq<ItemView>) -> Option<Seq<char>> {
    if forall|i: int| 0 <= i < after_leading(all).len() ==> #[trigger] after_leading(all)[i].marker {
        None
    } else {
        Some(join_with(item_texts(after_leading(all)), seq!['\n']))
    }
}

/// The events without a leading editor snapshot.
pub open spec fn after_leading(all: Seq<ItemView>) -> Seq<ItemView> {
    if all.len() > 0 && all[0].snapshot {
        all.drop_first()
    } else {
        all
    }
}

/// The deliverable content of a list of pending files: their events merged
/// in order and delivered together; `None` if nothing is left to deliver.
pub open spec fn content_of(ps: Seq<PendingView>) -> Option<Seq<char>> {
    delivered_text(items_of(ps))
}

/// The delivered form of one pending file's events, scoped to the project
/// (`cwd` and `include_dirs`) when there is a project directory.
pub fn pending_items(events: Vec<Event>, cwd: Option<&str>, include_dirs: &Vec<String>) -> (r: Vec<PendingItem>)
    ensures
        item_views(r@) == scoped_events(event_views(events@), crate::paths::opt_view(cwd), string_views(include_dirs@)).map_values(
            |e: EventView| event_item(e),
        ),
{
    let mut events = events;
    match cwd {
        Some(c) => {
            filter_events(&mut events, c, include_dirs);
            relativize_events(&mut events, c);
        },
        None => {},
    }
    let ghost ev = event_views(events@);
    let mut out: Vec<PendingItem> = Vec::new();
    let mut i: usize = 0;
    while i < events.len()
        invariant
            i <= events.len(),
            ev == event_views(events@),
            item_views(out@) == ev.take(i as int).map_values(|e: EventView| event_item(e)),
        decreases events.len() - i,
    {
        let e = &events[i];
        let snapshot = match e {
            Event::EditorSnapshot { .. } => true,
            _ => false,
        };
        let marker = match e {
            Event::Redacted { .. } => true,
            _ => false,
        };
        let item = PendingItem { text: e.display_string(), snapshot, marker };
        let ghost o0 = item_views(out@);
        out.push(item);
        proof {
            assert(ev[i as int] == e@);
            assert(item_views(out@) =~= o0.push(item_view(item)));
            assert(ev.take(i + 1).map_values(|e: EventView| event_item(e)) =~= ev.take(i as int).map_values(
                |e: EventView| event_item(e),
            ).push(event_item(ev[i as int])));
        }
        i += 1;
    }
    assert(ev.take(events.len() as int) =~= ev);
    out
}

/// Activation (`/attend`, or auto-claim): the session owns narration, is marked activated,
/// and its displaced marker is cleared.
pub open spec fn activate_spec(s: HookStateView, sid: Seq<char>) -> HookStateView {
    HookStateView {
        listening: Some(sid),
        activated: mark(s.activated, sid),
        displaced: unmark(s.displaced, sid),
        ..s
    }
}

pub open spec fn with_pending(s: HookStateView, p: Seq<PendingView>) -> HookStateView {
    HookStateView { pending: p, ..s }
}

pub open spec fn with_displaced(s: HookStateView, d: Seq<Seq<char>>) -> HookStateView {
    HookStateView { displaced: d, ..s }
}

pub open spec fn block_spec(r: GuidanceReason) -> HookDecision {
    HookDecision::Guidance { reason: r, effect: GuidanceEffect::Block }
}

pub open spec fn approve_spec(r: GuidanceReason) -> HookDecision {
    HookDecision::Guidance { reason: r, effect: GuidanceEffect::Approve }
}

/// `attend listen` hooks.
pub open spec fn listen_step(
    s: HookStateView,
    sid: Option<Seq<char>>,
    hook_type: HookType,
    rel: SessionRelation,
) -> (OutcomeView, HookStateView) {
    if hook_type == HookType::PostToolUse {
        (OutcomeView::Decision(approve_spec(GuidanceReason::ListenerStarted)), s)
    } else {
        match rel {
            SessionRelation::Stolen => (OutcomeView::Decision(block_spec(GuidanceReason::SessionMoved)), s),
            SessionRelation::Active => {
                let l = s.listening->0;
                let files = collected(s.pending, l);
                match content_of(files) {
                    Some(c) => (OutcomeView::Narration(c), with_pending(s, after_archive(s.pending, l))),
                    None => {
                        let s2 = if files.len() > 0 {
                            with_pending(s, after_archive(s.pending, l))
                        } else {
                            s
                        };
                        if s.receiver_alive {
                            (OutcomeView::Decision(block_spec(GuidanceReason::ListenerAlreadyActive)), s2)
                        } else {
                            (OutcomeView::Decision(HookDecision::Silent), s2)
                        }
                    },
                }
            },
            SessionRelation::Inactive => {
                if hook_type == HookType::PreToolUse && sid is Some {
                    if s.displaced.contains(sid->0) {
                        (OutcomeView::Decision(block_spec(GuidanceReason::Deactivated)), s)
                    } else {
                        (OutcomeView::Activation, activate_spec(s, sid->0))
                    }
                } else {
                    (OutcomeView::Decision(HookDecision::Silent), s)
                }
            },
        }
    }
}

/// `attend listen --stop` hooks.
pub open spec fn unlisten_step(s: HookStateView, hook_type: HookType, rel: SessionRelation) -> (
    OutcomeView,
    HookStateView,
) {
    if hook_type == HookType::PostToolUse {
        (OutcomeView::Decision(HookDecision::Silent), s)
    } else if rel == SessionRelation::Active {
        (
            OutcomeView::Decision(approve_spec(GuidanceReason::Deactivated)),
            with_displaced(s, mark(s.displaced, s.listening->0)),
        )
    } else {
        (OutcomeView::Decision(block_spec(GuidanceReason::SessionMoved)), s)
    }
}

/// Hooks on any other tool, and stop hooks.
pub open spec fn general_step(
    s: HookStateView,
    sid: Option<Seq<char>>,
    hook_type: HookType,
    rel: SessionRelation,
    stop_active: bool,
) -> (OutcomeView, HookStateView) {
    let l = s.listening->0;
    let files = collected(s.pending, l);
    let has_pending = rel == SessionRelation::Active && files.len() > 0 && content_of(files) is Some;
    let s2 = if rel == SessionRelation::Active && files.len() > 0 && content_of(files) is None {
        with_pending(s, after_archive(s.pending, l))
    } else {
        s
    };
    let d = general_decision_spec(rel, has_pending, s.receiver_alive, stop_active, hook_type);
    if (d matches HookDecision::Guidance { reason: GuidanceReason::SessionMoved, .. }) && sid is Some {
        if s2.displaced.contains(sid->0) {
            (OutcomeView::Decision(HookDecision::Silent), s2)
        } else {
            (OutcomeView::Decision(d), with_displaced(s2, mark(s2.displaced, sid->0)))
        }
    } else {
        (OutcomeView::Decision(d), s2)
    }
}

/// One narration hook (Stop, PreToolUse, PostToolUse): what the agent is told and the
/// state afterwards.
pub open spec fn narration_step(
    s: HookStateView,
    sid: Option<Seq<char>>,
    hook_type: HookType,
    cmd: Option<ListenCommand>,
    stop_active: bool,
) -> (OutcomeView, HookStateView) {
    let rel = relation_spec(s.listening, sid);
    if rel != SessionRelation::Active && sid is Some && !s.activated.contains(sid->0) && cmd
        != Some(ListenCommand::Listen) {
        (OutcomeView::Decision(HookDecision::Silent), s)
    } else {
        match cmd {
            Some(ListenCommand::Listen) => listen_step(s, sid, hook_type, rel),
            Some(ListenCommand::ListenStop) => unlisten_step(s, hook_type, rel),
            None => general_step(s, sid, hook_type, rel, stop_active),
        }
    }
}

/// The `stop_hook_active` flag of a hook input.
pub open spec fn stop_active_spec(k: HookKind) -> bool {
    k matches HookKind::Stop { stop_hook_active } && stop_hook_active
}

/// The listen command of a hook input, given the running binary's file name.
pub open spec fn listen_cmd_spec(k: HookKind, bin: Option<Seq<char>>) -> Option<ListenCommand> {
    match (k, bin) {
        (HookKind::ToolUse { bash_command: Some(cmd) }, Some(b)) => listen_command_spec(cmd@, b),
        _ => None,
    }
}

/// Membership of a string in a marker list.
fn contains_str(v: &Vec<String>, x: &String) -> (r: bool)
    ensures
        r == strs(v@).contains(x@),
{
    let mut i: usize = 0;
    while i < v.len()
        invariant
            i <= v.len(),
            forall|k: int| 0 <= k < i ==> strs(v@)[k] != x@,
        decreases v.len() - i,
    {
        if v[i] == *x {
            assert(strs(v@)[i as int] == x@);
            return true;
        }
        i += 1;
    }
    false
}

/// Adds a session to a marker list.
fn mark_in(v: &mut Vec<String>, x: &String)
    ensures
        strs(final(v)@) == mark(strs(old(v)@), x@),
{
    if !contains_str(v, x) {
        let ghost old_v = v@;
        v.push(x.clone());
        assert(strs(v@) =~= strs(old_v).push(x@));
    }
}

/// Removes a session from a marker list.
fn unmark_in(v: &mut Vec<String>, x: &String)
    ensures
        strs(final(v)@) == unmark(strs(old(v)@), x@),
{
    let ghost f = other_than(x@);
    let mut out: Vec<String> = Vec::new();
    let mut i: usize = 0;
    while i < v.len()
        invariant
            i <= v.len(),
            f == other_than(x@),
            strs(out@) == strs(v@).take(i as int).filter(f),
        decreases v.len() - i,
    {
        proof {
            reveal(Seq::filter);
            assert(strs(v@).take(i + 1).drop_last() =~= strs(v@).take(i as int));
        }
        if v[i] != *x {
            let ghost old_out = out@;
            out.push(v[i].clone());
            assert(strs(out@) =~= strs(old_out).push(v@[i as int]@));
        }
        i += 1;
    }
    assert(strs(v@).take(v.len() as int) =~= strs(v@));
    *v = out;
}

impl PendingNarration {
    /// Whether this file is delivered to session `sid`.
    fn belongs_to(&self, sid: &String) -> (r: bool)
        ensures
            r == belongs(pending_view(*self), sid@),
    {
        match &self.session {
            None => true,
            Some(s) => *s == *sid,
        }
    }
}

impl HookState {
    /// No session, no markers, nothing pending, no receiver.
    pub fn new() -> (s: Self)
        ensures
            s@.listening is None,
            s@.activated.len() == 0,
            s@.displaced.len() == 0,
            s@.pending.len() == 0,
            !s@.receiver_alive,
    {
        HookState {
            listening: None,
            activated: Vec::new(),
            displaced: Vec::new(),
            pending: Vec::new(),
            receiver_alive: false,
        }
    }

    /// Make `sid` the narration owner: it is marked activated and its displaced marker is
    /// cleared, so it gets a fresh notification if narration moves away again.
    pub fn activate(&mut self, sid: &String)
        ensures
            final(self)@ == activate_spec(old(self)@, sid@),
    {
        self.listening = Some(sid.clone());
        mark_in(&mut self.activated, sid);
        unmark_in(&mut self.displaced, sid);
    }

    /// Record that `sid` was displaced.
    pub fn mark_displaced(&mut self, sid: &String)
        ensures
            final(self)@ == with_displaced(old(self)@, mark(old(self)@.displaced, sid@)),
    {
        mark_in(&mut self.displaced, sid);
    }

    /// Add a pending narration file (recorded for `session`) at the end of the queue.
    pub fn add_pending(&mut self, session: Option<String>, items: Vec<PendingItem>)
        ensures
            final(self)@ == with_pending(
                old(self)@,
                old(self)@.pending.push(PendingView { session: opt_view(session), items: item_views(items@) }),
            ),
    {
        let ghost old_p = self@.pending;
        let p = PendingNarration { session, items };
        self.pending.push(p);
        assert(self@.pending =~= old_p.push(pending_view(p)));
    }

    /// The deliverable content of the files that a delivery to `sid` collects, and how
    /// many files it collects.
    fn collect(&self, sid: &String) -> (r: (usize, Option<String>))
        ensures
            r.0 == collected(self@.pending, sid@).len(),
            opt_view(r.1) == content_of(collected(self@.pending, sid@)),
    {
        let ghost pv = self@.pending;
        let ghost pred = |p: PendingView| belongs(p, sid@);
        let mut count: usize = 0;
        let mut texts: Vec<String> = Vec::new();
        let mut snaps: Vec<bool> = Vec::new();
        let mut marks: Vec<bool> = Vec::new();
        let mut i: usize = 0;
        while i < self.pending.len()
            invariant
                i <= self.pending.len(),
                pv == self@.pending,
                pred == (|p: PendingView| belongs(p, sid@)),
                count == pv.take(i as int).filter(pred).len(),
                string_views(texts@) == item_texts(items_of(pv.take(i as int).filter(pred))),
                snaps.len() == texts.len() && marks.len() == texts.len(),
                forall|k: int| 0 <= k < texts.len() ==> #[trigger] snaps@[k] == items_of(pv.take(i as int).filter(pred))[k].snapshot,
                forall|k: int| 0 <= k < texts.len() ==> #[trigger] marks@[k] == items_of(pv.take(i as int).filter(pred))[k].marker,
                items_of(pv.take(i as int).filter(pred)).len() == texts.len(),
                count <= i,
            decreases self.pending.len() - i,
        {
            proof {
                reveal(Seq::filter);
                assert(pv.take(i + 1).drop_last() =~= pv.take(i as int));
                assert(pv.take(i + 1).last() == pending_view(self.pending@[i as int]));
            }
            let p = &self.pending[i];
            if p.belongs_to(sid) {
                let ghost prev = pv.take(i as int).filter(pred);
                let ghost next = prev.push(pending_view(*p));
                assert(next.drop_last() =~= prev);
                assert(pv.take(i + 1).filter(pred) == next);
                assert(items_of(next) == items_of(prev) + item_views(p.items@));
                let ghost before = items_of(prev);
                count += 1;
                let mut j: usize = 0;
                while j < p.items.len()
                    invariant
                        j <= p.items.len(),
                        string_views(texts@) == item_texts(before + item_views(p.items@).take(j as int)),
                        snaps.len() == texts.len() && marks.len() == texts.len(),
                        texts.len() == before.len() + j,
                        forall|k: int| 0 <= k < texts.len() ==> #[trigger] snaps@[k] == (before + item_views(p.items@).take(j as int))[k].snapshot,
                        forall|k: int| 0 <= k < texts.len() ==> #[trigger] marks@[k] == (before + item_views(p.items@).take(j as int))[k].marker,
                    decreases p.items.len() - j,
                {
                    let it = &p.items[j];
                    let ghost t0 = string_views(texts@);
                    texts.push(it.text.clone());
                    snaps.push(it.snapshot);
                    marks.push(it.marker);
                    proof {
                        let a = before + item_views(p.items@).take(j as int);
                        let b = before + item_views(p.items@).take(j + 1);
                        assert(b =~= a.push(item_view(p.items@[j as int])));
                        assert(string_views(texts@) =~= t0.push(it.text@));
                        assert(item_texts(b) =~= item_texts(a).push(it.text@));
                        assert(b[texts.len() - 1] == item_view(p.items@[j as int]));
                        assert forall|k: int| 0 <= k < texts.len() implies #[trigger] snaps@[k] == b[k].snapshot by {
                            if k < texts.len() - 1 {
                                assert(b[k] == a[k]);
                            }
                        }
                        assert forall|k: int| 0 <= k < texts.len() implies #[trigger] marks@[k] == b[k].marker by {
                            if k < texts.len() - 1 {
                                assert(b[k] == a[k]);
                            }
                        }
                    }
                    j += 1;
                }
                assert(item_views(p.items@).take(p.items.len() as int) =~= item_views(p.items@));
            }
            i += 1;
        }
        proof {
            assert(pv.take(self.pending.len() as int) =~= pv);
        }
        let ghost all = items_of(collected(pv, sid@));
        assert(all == items_of(pv.take(self.pending.len() as int).filter(pred)));
        let start: usize = if texts.len() > 0 && snaps[0] { 1 } else { 0 };
        let ghost rest = after_leading(all);
        assert(rest =~= all.skip(start as int));
        let mut has_content = false;
        let mut k: usize = start;
        while k < texts.len()
            invariant
                start <= k <= texts.len(),
                marks.len() == texts.len(),
                all.len() == texts.len(),
                forall|m: int| 0 <= m < texts.len() ==> #[trigger] marks@[m] == all[m].marker,
                has_content == exists|m: int| start <= m < k && !#[trigger] all[m].marker,
            decreases texts.len() - k,
        {
            if !marks[k] {
                has_content = true;
            }
            k += 1;
        }
        if !has_content {
            proof {
                assert forall|m: int| 0 <= m < rest.len() implies #[trigger] rest[m].marker by {
                    assert(rest[m] == all[m + start]);
                }
            }
            return (count, None);
        }
        proof {
            let m = choose|m: int| start <= m < texts.len() && !#[trigger] all[m].marker;
            assert(rest[m - start] == all[m]);
        }
        let mut lines: Vec<String> = Vec::new();
        let mut q: usize = start;
        while q < texts.len()
            invariant
                start <= q <= texts.len(),
                string_views(texts@) == item_texts(all),
                string_views(lines@) == item_texts(all).subrange(start as int, q as int),
            decreases texts.len() - q,
        {
            let ghost l0 = string_views(lines@);
            lines.push(texts[q].clone());
            assert(string_views(lines@) =~= l0.push(texts@[q as int]@));
            assert(item_texts(all).subrange(start as int, q + 1) =~= item_texts(all).subrange(start as int, q as int).push(item_texts(all)[q as int]));
            q += 1;
        }
        assert(item_texts(all).subrange(start as int, texts.len() as int) =~= item_texts(rest));
        let text = join_strings(&lines, "\n");
        proof {
            reveal_strlit("\n");
            assert("\n"@ =~= seq!['\n']);
            assert(!(forall|i: int| 0 <= i < rest.len() ==> #[trigger] rest[i].marker));
        }
        (count, Some(text))
    }

    /// Archive (remove) the pending files that a delivery to `sid` collects.
    fn archive(&mut self, sid: &String)
        ensures
            final(self)@ == with_pending(old(self)@, after_archive(old(self)@.pending, sid@)),
    {
        let ghost pv = self@.pending;
        let ghost pred = |p: PendingView| !belongs(p, sid@);
        let mut kept: Vec<PendingNarration> = Vec::new();
        let mut rest: Vec<PendingNarration> = Vec::new();
        std::mem::swap(&mut rest, &mut self.pending);
        let n = rest.len();
        let mut i: usize = 0;
        while i < n
            invariant
                i <= n,
                n == pv.len(),
                pred == (|p: PendingView| !belongs(p, sid@)),
                rest@.len() == n - i,
                forall|k: int| 0 <= k < n - i ==> pending_view(#[trigger] rest@[k]) == pv[i + k],
                kept@.map_values(|p: PendingNarration| pending_view(p)) == pv.take(i as int).filter(pred),
            decreases n - i,
        {
            let p = rest.remove(0);
            proof {
                reveal(Seq::filter);
                assert(pv.take(i + 1).drop_last() =~= pv.take(i as int));
                assert(pending_view(p) == pv[i as int]);
            }
            if !p.belongs_to(sid) {
                let ghost old_kept = kept@;
                kept.push(p);
                assert(kept@.map_values(|p: PendingNarration| pending_view(p)) =~= old_kept.map_values(
                    |p: PendingNarration| pending_view(p),
                ).push(pv[i as int]));
            }
            i += 1;
        }
        assert(pv.take(n as int) =~= pv);
        self.pending = kept;
    }

    /// One narration hook (Stop, PreToolUse, PostToolUse), given the file name of the
    /// running binary (to recognize `attend listen`).
    pub fn check_narration(&mut self, input: &HookInput, hook_type: HookType, bin_name: Option<&str>) -> (out: HookOutcome)
        ensures
            (out@, final(self)@) == narration_step(
                old(self)@,
                opt_view(input.session_id),
                hook_type,
                listen_cmd_spec(input.kind, match bin_name {
                    Some(b) => Some(b@),
                    None => None,
                }),
                stop_active_spec(input.kind),
            ),
    {
        let relation = session_relation(self.listening.as_ref(), input.session_id.as_ref());
        let listen_cmd = detect_listen_command(input, bin_name);
        if relation != SessionRelation::Active {
            if let Some(sid) = &input.session_id {
                if !contains_str(&self.activated, sid) && listen_cmd != Some(ListenCommand::Listen) {
                    return HookOutcome::Decision(HookDecision::Silent);
                }
            }
        }
        match listen_cmd {
            Some(ListenCommand::Listen) => self.handle_listen_hook(input, hook_type, relation),
            Some(ListenCommand::ListenStop) => self.handle_unlisten_hook(hook_type, relation),
            None => {
                let stop_active = match &input.kind {
                    HookKind::Stop { stop_hook_active } => *stop_hook_active,
                    _ => false,
                };
                self.handle_general_hook(input, hook_type, relation, stop_active)
            },
        }
    }

    /// PreToolUse/PostToolUse for `attend listen`.
    fn handle_listen_hook(&mut self, input: &HookInput, hook_type: HookType, relation: SessionRelation) -> (out: HookOutcome)
        requires
            relation == relation_spec(old(self)@.listening, opt_view(input.session_id)),
        ensures
            (out@, final(self)@) == listen_step(old(self)@, opt_view(input.session_id), hook_type, relation),
    {
        if hook_type == HookType::PostToolUse {
            return HookOutcome::Decision(HookDecision::approve(GuidanceReason::ListenerStarted));
        }
        match relation {
            SessionRelation::Stolen => HookOutcome::Decision(HookDecision::block(GuidanceReason::SessionMoved)),
            SessionRelation::Active => {
                let sid = self.listening.clone().unwrap();
                let (count, content) = self.collect(&sid);
                if let Some(c) = content {
                    self.archive(&sid);
                    return HookOutcome::Narration(c);
                }
                if count > 0 {
                    self.archive(&sid);
                }
                if self.receiver_alive {
                    HookOutcome::Decision(HookDecision::block(GuidanceReason::ListenerAlreadyActive))
                } else {
                    HookOutcome::Decision(HookDecision::Silent)
                }
            },
            SessionRelation::Inactive => {
                if hook_type == HookType::PreToolUse {
                    if let Some(sid) = &input.session_id {
                        if contains_str(&self.displaced, sid) {
                            return HookOutcome::Decision(HookDecision::block(GuidanceReason::Deactivated));
                        }
                        self.activate(sid);
                        return HookOutcome::Activation;
                    }
                }
                HookOutcome::Decision(HookDecision::Silent)
            },
        }
    }

    /// PreToolUse/PostToolUse for `attend listen --stop`: only the owning session may
    /// deactivate.
    fn handle_unlisten_hook(&mut self, hook_type: HookType, relation: SessionRelation) -> (out: HookOutcome)
        requires
            relation == SessionRelation::Active ==> old(self)@.listening is Some,
        ensures
            (out@, final(self)@) == unlisten_step(old(self)@, hook_type, relation),
    {
        if hook_type == HookType::PostToolUse {
            return HookOutcome::Decision(HookDecision::Silent);
        }
        match relation {
            SessionRelation::Active => {
                let sid = self.listening.clone().unwrap();
                self.mark_displaced(&sid);
                HookOutcome::Decision(HookDecision::approve(GuidanceReason::Deactivated))
            },
            _ => HookOutcome::Decision(HookDecision::block(GuidanceReason::SessionMoved)),
        }
    }

    /// Stop hooks and tool hooks other than `attend listen`, with the displaced ratchet:
    /// the `SessionMoved` advisory is delivered once per displacement, then suppressed.
    fn handle_general_hook(
        &mut self,
        input: &HookInput,
        hook_type: HookType,
        relation: SessionRelation,
        stop_active: bool,
    ) -> (out: HookOutcome)
        requires
            relation == relation_spec(old(self)@.listening, opt_view(input.session_id)),
        ensures
            (out@, final(self)@) == general_step(old(self)@, opt_view(input.session_id), hook_type, relation, stop_active),
    {
        let mut has_pending = false;
        if relation == SessionRelation::Active {
            let sid = self.listening.clone().unwrap();
            let (count, content) = self.collect(&sid);
            if count > 0 {
                if content.is_some() {
                    has_pending = true;
                } else {
                    self.archive(&sid);
                }
            }
        }
        let decision = general_decision(relation, has_pending, self.receiver_alive, stop_active, hook_type);
        if let HookDecision::Guidance { reason: GuidanceReason::SessionMoved, .. } = decision {
            if let Some(sid) = &input.session_id {
                if contains_str(&self.displaced, sid) {
                    return HookOutcome::Decision(HookDecision::Silent);
                }
                self.mark_displaced(sid);
            }
        }
        HookOutcome::Decision(decision)
    }
}


/// What the `UserPromptSubmit` hook does.
#[derive(Debug, PartialEq, Eq)]
pub enum PromptOutcome {
    /// `/attend`: the session now owns narration.
    Activated(String),
    /// `/unattend`: the session gave up narration (if it owned it).
    Deactivated(String),
    /// An activation or deactivation prompt without a session ID.
    MissingSession,
    /// Any other prompt: editor context is emitted.
    EditorContext,
}

impl HookState {
    /// The `UserPromptSubmit` hook's effect on narration ownership.
    pub fn user_prompt(&mut self, input: &HookInput) -> (out: PromptOutcome)
        ensures
            is_attend_prompt_spec(input) ==> match input.session_id {
                None => out == PromptOutcome::MissingSession && final(self)@ == old(self)@,
                Some(sid) => (out matches PromptOutcome::Activated(x) && x@ == sid@)
                    && final(self)@ == activate_spec(old(self)@, sid@),
            },
            !is_attend_prompt_spec(input) && is_unattend_prompt_spec(input) ==> match input.session_id {
                None => out == PromptOutcome::MissingSession && final(self)@ == old(self)@,
                Some(sid) => (out matches PromptOutcome::Deactivated(x) && x@ == sid@)
                    && final(self)@ == (if old(self)@.listening == Some(sid@) {
                        HookStateView {
                            listening: None,
                            displaced: mark(old(self)@.displaced, sid@),
                            ..old(self)@
                        }
                    } else {
                        old(self)@
                    }),
            },
            !is_attend_prompt_spec(input) && !is_unattend_prompt_spec(input) ==> out
                == PromptOutcome::EditorContext && final(self)@ == old(self)@,
    {
        if is_attend_prompt(input) {
            match &input.session_id {
                None => PromptOutcome::MissingSession,
                Some(sid) => {
                    self.activate(sid);
                    PromptOutcome::Activated(sid.clone())
                },
            }
        } else if is_unattend_prompt(input) {
            match &input.session_id {
                None => PromptOutcome::MissingSession,
                Some(sid) => {
                    let owns = match &self.listening {
                        Some(l) => *l == *sid,
                        None => false,
                    };
                    if owns {
                        self.mark_displaced(sid);
                        self.listening = None;
                    }
                    PromptOutcome::Deactivated(sid.clone())
                },
            }
        } else {
            PromptOutcome::EditorContext
        }
    }

    /// The `SessionEnd` hook: a session that owns narration gives it up.
    pub fn session_end(&mut self, input: &HookInput)
        ensures
            final(self)@ == (if input.session_id is Some && old(self)@.listening == opt_view(input.session_id) {
                HookStateView { listening: None, ..old(self)@ }
            } else {
                old(self)@
            }),
    {
        if let Some(sid) = &input.session_id {
            let owns = match &self.listening {
                Some(l) => *l == *sid,
                None => false,
            };
            if owns {
                self.listening = None;
            }
        }
    }

    /// Whether the session of a `SessionStart` hook is the one listening for narration.
    pub fn is_listening(&self, input: &HookInput) -> (r: bool)
        ensures
            r == (input.session_id is Some && self@.listening == opt_view(input.session_id)),
    {
        match (&input.session_id, &self.listening) {
            (Some(s), Some(l)) => *s == *l,
            _ => false,
        }
    }
}

/// Whether a hook input is a `/attend` prompt.
pub open spec fn is_attend_prompt_spec(input: &HookInput) -> bool {
    input.kind matches HookKind::UserPrompt { prompt: Some(p) } && is_attend_text(p@)
}

/// Whether a hook input is a `/unattend` prompt.
pub open spec fn is_unattend_prompt_spec(input: &HookInput) -> bool {
    input.kind matches HookKind::UserPrompt { prompt: Some(p) } && is_unattend_text(p@)
}

/// After `/attend`, the session owns narration and its hooks are handled as the active
/// session's: it is not silenced by the participation gate.
pub proof fn law_attend_makes_active(s: HookStateView, sid: Seq<char>)
    ensures
        activate_spec(s, sid).listening == Some(sid),
        relation_spec(activate_spec(s, sid).listening, Some(sid)) == SessionRelation::Active,
        activate_spec(s, sid).activated.contains(sid),
        !activate_spec(s, sid).displaced.contains(sid),
{
    broadcast use vstd::seq_lib::group_filter_ensures;
    if !s.activated.contains(sid) {
        assert(s.activated.push(sid)[s.activated.len() as int] == sid);
    }
    if activate_spec(s, sid).displaced.contains(sid) {
        s.displaced.lemma_filter_contains_rev(other_than(sid), sid);
    }
}

/// A session that never activated narration, does not own it, and is not running
/// `attend listen` is invisible to the hook system: it is told nothing and nothing changes.
pub proof fn law_non_participant_invisible(
    s: HookStateView,
    sid: Seq<char>,
    hook_type: HookType,
    cmd: Option<ListenCommand>,
    stop_active: bool,
)
    requires
        s.listening != Some(sid),
        !s.activated.contains(sid),
        cmd != Some(ListenCommand::Listen),
    ensures
        narration_step(s, Some(sid), hook_type, cmd, stop_active) == (OutcomeView::Decision(HookDecision::Silent), s),
{
}

/// The PostToolUse hook of `attend listen` always answers with the `ListenerStarted`
/// advisory and changes nothing.
pub proof fn law_listen_post_tool_use_advisory(s: HookStateView, sid: Option<Seq<char>>, stop_active: bool)
    ensures
        narration_step(s, sid, HookType::PostToolUse, Some(ListenCommand::Listen), stop_active) == (
            OutcomeView::Decision(approve_spec(GuidanceReason::ListenerStarted)),
            s,
        ),
{
}

/// A session whose narration was taken by another session cannot start a listener: its
/// `attend listen` is blocked with `SessionMoved` and nothing changes (no steal-back).
pub proof fn law_stolen_listen_blocked(s: HookStateView, sid: Seq<char>, stop_active: bool)
    requires
        s.listening is Some,
        s.listening != Some(sid),
    ensures
        narration_step(s, Some(sid), HookType::PreToolUse, Some(ListenCommand::Listen), stop_active) == (
            OutcomeView::Decision(block_spec(GuidanceReason::SessionMoved)),
            s,
        ),
{
}

/// The displaced ratchet: two general hooks of a session whose narration was taken, with
/// nothing in between, tell it `SessionMoved` at most once; the second is silent and
/// changes nothing.
pub proof fn law_moved_advisory_once(
    s: HookStateView,
    sid: Seq<char>,
    t1: HookType,
    t2: HookType,
    stop1: bool,
    stop2: bool,
)
    requires
        s.listening is Some,
        s.listening != Some(sid),
    ensures
        ({
            let (o1, s1) = narration_step(s, Some(sid), t1, None, stop1);
            let (o2, s2) = narration_step(s1, Some(sid), t2, None, stop2);
            o2 == OutcomeView::Decision(HookDecision::Silent) && s2 == s1
        }),
{
    let (o1, s1) = narration_step(s, Some(sid), t1, None, stop1);
    if s.activated.contains(sid) {
        assert(mark(s.displaced, sid).contains(sid)) by {
            if !s.displaced.contains(sid) {
                assert(s.displaced.push(sid)[s.displaced.len() as int] == sid);
            }
        }
    }
}

/// Re-activating resets the ratchet: after a session re-activates and another session then
/// takes narration, the first session's next general hook tells it `SessionMoved` again.
pub proof fn law_reactivation_resets_ratchet(
    s: HookStateView,
    a: Seq<char>,
    b: Seq<char>,
    t: HookType,
    stop_active: bool,
)
    requires
        a != b,
    ensures
        narration_step(activate_spec(activate_spec(s, a), b), Some(a), t, None, stop_active).0
            == OutcomeView::Decision(approve_spec(GuidanceReason::SessionMoved)),
{
    let s1 = activate_spec(s, a);
    let s2 = activate_spec(s1, b);
    assert(s1.activated.contains(a)) by {
        if !s.activated.contains(a) {
            assert(s.activated.push(a)[s.activated.len() as int] == a);
        }
    }
    assert(s2.activated.contains(a)) by {
        let i = choose|i: int| 0 <= i < s1.activated.len() && s1.activated[i] == a;
        if !s1.activated.contains(b) {
            assert(s1.activated.push(b)[i] == a);
        }
    }
    broadcast use vstd::seq_lib::group_filter_ensures;
    assert(!s1.displaced.contains(a)) by {
        if s1.displaced.contains(a) {
            let i = choose|i: int| 0 <= i < s1.displaced.len() && s1.displaced[i] == a;
            s.displaced.lemma_filter_pred(other_than(a), i);
        }
    }
    assert(!s2.displaced.contains(a)) by {
        if s2.displaced.contains(a) {
            let i = choose|i: int| 0 <= i < s2.displaced.len() && s2.displaced[i] == a;
            s1.displaced.lemma_filter_contains_rev(other_than(b), a);
        }
    }
}

/// A session that was displaced cannot reclaim narration by running `attend listen` while
/// nobody owns it: it is blocked with `Deactivated` and nothing changes.
pub proof fn law_displaced_cannot_reclaim(s: HookStateView, sid: Seq<char>, stop_active: bool)
    requires
        s.listening is None,
        s.displaced.contains(sid),
    ensures
        narration_step(s, Some(sid), HookType::PreToolUse, Some(ListenCommand::Listen), stop_active) == (
            OutcomeView::Decision(block_spec(GuidanceReason::Deactivated)),
            s,
        ),
{
}

/// Only the owning session may deactivate narration: `attend listen --stop` from any other
/// session is blocked and changes nothing.
pub proof fn law_only_owner_deactivates(s: HookStateView, sid: Seq<char>, stop_active: bool)
    requires
        s.listening != Some(sid),
        s.activated.contains(sid),
    ensures
        narration_step(s, Some(sid), HookType::PreToolUse, Some(ListenCommand::ListenStop), stop_active) == (
            OutcomeView::Decision(block_spec(GuidanceReason::SessionMoved)),
            s,
        ),
{
}

/// Delivery consumes: when the owner's `attend listen` delivers narration, none of the
/// files it collected remain pending.
pub proof fn law_delivery_consumes(s: HookStateView, stop_active: bool)
    requires
        s.listening is Some,
    ensures
        ({
            let l = s.listening->0;
            let (o, s1) = narration_step(s, Some(l), HookType::PreToolUse, Some(ListenCommand::Listen), stop_active);
            o is Narration ==> (o == OutcomeView::Narration(content_of(collected(s.pending, l))->0)
                && collected(s1.pending, l).len() == 0)
        }),
{
    let l = s.listening->0;
    let q = after_archive(s.pending, l);
    let pred = |p: PendingView| belongs(p, l);
    let npred = |p: PendingView| !belongs(p, l);
    broadcast use vstd::seq_lib::group_filter_ensures;
    assert(q.all(|x: PendingView| !pred(x))) by {
        assert forall|i: int| 0 <= i < q.len() implies !pred(#[trigger] q[i]) by {
            s.pending.lemma_filter_pred(npred, i);
        }
    }
    q.lemma_all_neg_filter_empty(pred);
}

/// Narration recorded for one session is never delivered to another: the files a delivery
/// to `sid` collects were recorded for `sid` or without a session.
pub proof fn law_pending_per_session(pending: Seq<PendingView>, sid: Seq<char>, i: int)
    requires
        0 <= i < collected(pending, sid).len(),
    ensures
        collected(pending, sid)[i].session == Some(sid) || collected(pending, sid)[i].session is None,
{
    let pred = |p: PendingView| belongs(p, sid);
    pending.lemma_filter_pred(pred, i);
}


/// The pending files made from batches of recorded events (each with its
/// events scoped to the project), all recorded for `session`.
pub open spec fn files_of(
    bs: Seq<Seq<EventView>>,
    cwd: Option<Seq<char>>,
    dirs: Seq<Seq<char>>,
    session: Option<Seq<char>>,
) -> Seq<PendingView> {
    Seq::new(
        bs.len(),
        |i: int| PendingView { session, items: scoped_events(bs[i], cwd, dirs).map_values(|e: EventView| event_item(e)) },
    )
}

proof fn lemma_items_of_files(bs: Seq<Seq<EventView>>, cwd: Option<Seq<char>>, dirs: Seq<Seq<char>>, session: Option<Seq<char>>)
    ensures
        items_of(files_of(bs, cwd, dirs, session)) == crate::narrate::pending_events(bs, cwd, dirs).map_values(
            |e: EventView| event_item(e),
        ),
    decreases bs.len(),
{
    if bs.len() > 0 {
        let t = bs.drop_last();
        lemma_items_of_files(t, cwd, dirs, session);
        let f = files_of(bs, cwd, dirs, session);
        assert(f.drop_last() =~= files_of(t, cwd, dirs, session));
        let a = crate::narrate::pending_events(t, cwd, dirs);
        let b = scoped_events(bs.last(), cwd, dirs);
        assert(crate::narrate::pending_events(bs, cwd, dirs) == a + b);
        assert((a + b).map_values(|e: EventView| event_item(e)) =~= a.map_values(|e: EventView| event_item(e))
            + b.map_values(|e: EventView| event_item(e)));
    }
}

/// What is delivered of pending files is what their merged events give: the
/// files' events, scoped to the project, are merged in file order; a leading
/// editor snapshot of the whole is dropped; nothing is delivered when only
/// redaction markers remain; and each remaining event is one line.
pub proof fn law_delivery_is_merged(
    bs: Seq<Seq<EventView>>,
    cwd: Option<Seq<char>>,
    dirs: Seq<Seq<char>>,
    session: Option<Seq<char>>,
)
    ensures
        content_of(files_of(bs, cwd, dirs, session)) == match crate::narrate::deliverable(
            crate::narrate::pending_events(bs, cwd, dirs),
        ) {
            None => None,
            Some(es) => Some(join_with(es.map_values(|e: EventView| event_line(e)), seq!['\n'])),
        },
{
    lemma_items_of_files(bs, cwd, dirs, session);
    let all = crate::narrate::pending_events(bs, cwd, dirs);
    let items = all.map_values(|e: EventView| event_item(e));
    let rest = crate::narrate::without_leading_snapshot(all);
    let ir = after_leading(items);
    assert(ir =~= rest.map_values(|e: EventView| event_item(e)));
    assert(item_texts(ir) =~= rest.map_values(|e: EventView| event_line(e)));
    if forall|i: int| 0 <= i < ir.len() ==> #[trigger] ir[i].marker {
        assert forall|i: int| 0 <= i < rest.len() implies #[trigger] crate::narrate::is_marker(rest[i]) by {
            assert(ir[i].marker);
        }
    } else {
        let w = choose|i: int| 0 <= i < ir.len() && !#[trigger] ir[i].marker;
        assert(!crate::narrate::is_marker(rest[w]));
    }
}

} // verus!
