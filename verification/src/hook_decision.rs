//! Pure decision logic for general (non-listen) narration hooks.

use vstd::prelude::*;
use crate::hook_types::{GuidanceEffect, GuidanceReason, HookDecision, HookType};

verus! {

/// Relationship between the hook's session and the active listening session.
#[derive(Debug, Clone, Copy, PartialEq, Eq, Structural)]
pub enum SessionRelation {
    /// This session is the active listener.
    Active,
    /// Another session owns narration (this session was displaced).
    Stolen,
    /// No listening session exists, or no session ID on this hook.
    Inactive,
}

/// The relation of a hook's session to the listening session.
pub open spec fn relation_spec(listening: Option<Seq<char>>, session: Option<Seq<char>>) -> SessionRelation {
    match (listening, session) {
        (Some(l), Some(h)) => if l == h {
            SessionRelation::Active
        } else {
            SessionRelation::Stolen
        },
        _ => SessionRelation::Inactive,
    }
}

/// Classify the hook's session against the listening session.
pub fn session_relation(listening: Option<&String>, session: Option<&String>) -> (r: SessionRelation)
    ensures
        r == relation_spec(
            match listening {
                Some(l) => Some(l@),
                None => None,
            },
            match session {
                Some(h) => Some(h@),
                None => None,
            },
        ),
{
    match (listening, session) {
        (Some(l), Some(h)) => if *l == *h {
            SessionRelation::Active
        } else {
            SessionRelation::Stolen
        },
        _ => SessionRelation::Inactive,
    }
}

/// The decision table for general hooks (Stop, PreToolUse, PostToolUse on tools other than
/// `attend listen`).
pub open spec fn general_decision_spec(
    relation: SessionRelation,
    has_pending: bool,
    receiver_alive: bool,
    stop_hook_active: bool,
    hook_type: HookType,
) -> HookDecision {
    match relation {
        SessionRelation::Inactive => HookDecision::Silent,
        SessionRelation::Stolen => HookDecision::Guidance {
            reason: GuidanceReason::SessionMoved,
            effect: GuidanceEffect::Approve,
        },
        SessionRelation::Active => if has_pending {
            HookDecision::Guidance {
                reason: GuidanceReason::NarrationReady,
                effect: GuidanceEffect::Block,
            }
        } else if receiver_alive || stop_hook_active {
            HookDecision::Silent
        } else if hook_type == HookType::Stop {
            HookDecision::Guidance {
                reason: GuidanceReason::StartReceiver,
                effect: GuidanceEffect::Block,
            }
        } else {
            HookDecision::Guidance {
                reason: GuidanceReason::StartReceiver,
                effect: GuidanceEffect::Approve,
            }
        },
    }
}

/// Pure decision logic for general (non-listen) hooks.
///
/// `stop_hook_active` is set by the agent on re-invocation after a previous block; it acts
/// as a safety valve against an infinite block loop.
pub fn general_decision(
    relation: SessionRelation,
    has_pending: bool,
    receiver_alive: bool,
    stop_hook_active: bool,
    hook_type: HookType,
) -> (d: HookDecision)
    ensures
        d == general_decision_spec(relation, has_pending, receiver_alive, stop_hook_active, hook_type),
{
    match relation {
        SessionRelation::Inactive => HookDecision::Silent,
        SessionRelation::Stolen => HookDecision::approve(GuidanceReason::SessionMoved),
        SessionRelation::Active => {
            if has_pending {
                return HookDecision::block(GuidanceReason::NarrationReady);
            }
            if receiver_alive {
                return HookDecision::Silent;
            }
            if stop_hook_active {
                return HookDecision::Silent;
            }
            match hook_type {
                HookType::Stop => HookDecision::block(GuidanceReason::StartReceiver),
                _ => HookDecision::approve(GuidanceReason::StartReceiver),
            }
        },
    }
}

/// Whether a decision blocks the current action.
pub open spec fn is_block(d: HookDecision) -> bool {
    d matches HookDecision::Guidance { effect: GuidanceEffect::Block, .. }
}

/// Inactive and stolen sessions are never blocked by a general hook.
pub proof fn law_non_active_never_blocked(
    relation: SessionRelation,
    has_pending: bool,
    receiver_alive: bool,
    stop_hook_active: bool,
    hook_type: HookType,
)
    requires
        relation != SessionRelation::Active,
    ensures
        !is_block(general_decision_spec(relation, has_pending, receiver_alive, stop_hook_active, hook_type)),
{
}

/// `SessionMoved` is only ever delivered as advisory guidance, never as a block.
pub proof fn law_session_moved_is_advisory(
    relation: SessionRelation,
    has_pending: bool,
    receiver_alive: bool,
    stop_hook_active: bool,
    hook_type: HookType,
)
    ensures
        general_decision_spec(relation, has_pending, receiver_alive, stop_hook_active, hook_type) matches HookDecision::Guidance { reason: GuidanceReason::SessionMoved, effect }
            ==> effect == GuidanceEffect::Approve,
{
}

/// A stolen session gets the same advisory whatever the rest of the narration state is.
pub proof fn law_stolen_ignores_state(
    has_pending: bool,
    receiver_alive: bool,
    stop_hook_active: bool,
    hook_type: HookType,
)
    ensures
        general_decision_spec(SessionRelation::Stolen, has_pending, receiver_alive, stop_hook_active, hook_type)
            == (HookDecision::Guidance { reason: GuidanceReason::SessionMoved, effect: GuidanceEffect::Approve }),
{
}

/// Pending narration for the active session always blocks with `NarrationReady`, whatever
/// the receiver, re-entry and hook-type state.
pub proof fn law_pending_always_blocks(receiver_alive: bool, stop_hook_active: bool, hook_type: HookType)
    ensures
        general_decision_spec(SessionRelation::Active, true, receiver_alive, stop_hook_active, hook_type)
            == (HookDecision::Guidance { reason: GuidanceReason::NarrationReady, effect: GuidanceEffect::Block }),
{
}

/// The re-entry safety valve: a re-invoked stop hook with nothing pending is never blocked.
pub proof fn law_reentry_releases(receiver_alive: bool, hook_type: HookType)
    ensures
        general_decision_spec(SessionRelation::Active, false, receiver_alive, true, hook_type)
            == HookDecision::Silent,
{
}

} // verus!
