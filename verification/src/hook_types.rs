//! The types of the agent hooks: which hook fired, what it was given, and
//! what the agent is told back.

use vstd::prelude::*;

verus! {

/// Discriminant for which hook event is being processed.
#[derive(Debug, Clone, Copy, PartialEq, Eq, Structural)]
pub enum HookType {
    SessionStart,
    UserPrompt,
    Stop,
    PreToolUse,
    PostToolUse,
    SessionEnd,
}

/// Whether guidance blocks or approves the current action.
#[derive(Debug, Clone, Copy, PartialEq, Eq, Structural)]
pub enum GuidanceEffect {
    /// Block the current action.
    Block,
    /// Approve the current action (guidance is advisory).
    Approve,
}

/// Why the guidance is being issued.
#[derive(Debug, Clone, Copy, PartialEq, Eq, Structural)]
pub enum GuidanceReason {
    /// Narration is active in a different session.
    SessionMoved,
    /// No background receiver is running: agent should start one.
    StartReceiver,
    /// Narration is pending; the agent should run `attend listen`.
    NarrationReady,
    /// A listener is already active for this session.
    ListenerAlreadyActive,
    /// A listener was just started in the background.
    ListenerStarted,
    /// Narration was deactivated via `attend listen --stop`.
    Deactivated,
}

/// Structured hook decision with semantic variants.
#[derive(Debug, Clone, Copy, PartialEq, Eq, Structural)]
pub enum HookDecision {
    /// No output needed.
    Silent,
    /// Guidance for the agent with a block/approve effect.
    Guidance { reason: GuidanceReason, effect: GuidanceEffect },
}

impl HookDecision {
    /// Guidance that blocks the current action.
    pub fn block(reason: GuidanceReason) -> (d: Self)
        ensures
            d == (HookDecision::Guidance { reason, effect: GuidanceEffect::Block }),
    {
        HookDecision::Guidance { reason, effect: GuidanceEffect::Block }
    }

    /// Advisory guidance that lets the current action through.
    pub fn approve(reason: GuidanceReason) -> (d: Self)
        ensures
            d == (HookDecision::Guidance { reason, effect: GuidanceEffect::Approve }),
    {
        HookDecision::Guidance { reason, effect: GuidanceEffect::Approve }
    }
}

/// Hook-type-specific payload.
#[derive(Debug)]
pub enum HookKind {
    SessionStart,
    UserPrompt { prompt: Option<String> },
    Stop { stop_hook_active: bool },
    ToolUse {
        /// Bash command string, if the tool is a Bash invocation.
        bash_command: Option<String>,
    },
}

impl Default for HookKind {
    fn default() -> (k: Self)
        ensures
            k is SessionStart,
    {
        HookKind::SessionStart
    }
}

/// Parsed input from an agent hook invocation.
#[derive(Debug)]
pub struct HookInput {
    pub session_id: Option<String>,
    pub cwd: Option<String>,
    pub kind: HookKind,
}

impl Default for HookInput {
    fn default() -> (i: Self)
        ensures
            i.session_id is None,
            i.cwd is None,
            i.kind is SessionStart,
    {
        HookInput { session_id: None, cwd: None, kind: HookKind::SessionStart }
    }
}

} // verus!
