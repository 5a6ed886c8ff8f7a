use std::cell::RefCell;

use attend::hook_command::{
    is_attend_prompt, is_listen_command, is_unattend_prompt, listen_command_named, parse_listen_command, ListenCommand,
};
use attend::hook_decision::{general_decision, SessionRelation};
use attend::hook_state::{pending_items, HookOutcome, HookState, PendingItem};
use attend::merge::Event;
use attend::hook_types::{GuidanceEffect, GuidanceReason, HookDecision, HookInput, HookKind, HookType};

// ---------------------------------------------------------------------------
// parse_listen_command
// ---------------------------------------------------------------------------

#[test]
fn bare_name() {
    assert_eq!(parse_listen_command("attend listen", "attend"), Some(ListenCommand::Listen));
}

#[test]
fn full_path() {
    assert_eq!(
        parse_listen_command("/usr/local/bin/attend listen", "attend"),
        Some(ListenCommand::Listen)
    );
}

#[test]
fn with_flags() {
    assert_eq!(parse_listen_command("attend listen --check", "attend"), Some(ListenCommand::Listen));
}

#[test]
fn with_stop_flag() {
    assert_eq!(parse_listen_command("attend listen --stop", "attend"), Some(ListenCommand::ListenStop));
}

#[test]
fn stop_with_other_flags() {
    assert_eq!(
        parse_listen_command("attend listen --session abc --stop", "attend"),
        Some(ListenCommand::ListenStop)
    );
}

#[test]
fn different_subcommand() {
    assert_eq!(parse_listen_command("attend narrate status", "attend"), None);
}

#[test]
fn different_binary() {
    assert_eq!(parse_listen_command("cargo test", "attend"), None);
}

#[test]
fn empty() {
    assert_eq!(parse_listen_command("", "attend"), None);
}

#[test]
fn no_subcommand() {
    assert_eq!(parse_listen_command("attend", "attend"), None);
}

#[test]
fn listen_command_bare_name() {
    assert!(is_listen_command("attend listen", "attend"));
}

#[test]
fn listen_command_full_path() {
    assert!(is_listen_command("/usr/local/bin/attend listen", "attend"));
}

#[test]
fn listen_command_with_flags() {
    assert!(is_listen_command("attend listen --check", "attend"));
}

#[test]
fn listen_command_different_subcommand() {
    assert!(!is_listen_command("attend narrate status", "attend"));
}

#[test]
fn listen_command_different_binary() {
    assert!(!is_listen_command("cargo test", "attend"));
}

#[test]
fn listen_command_empty() {
    assert!(!is_listen_command("", "attend"));
}

#[test]
fn listen_command_no_subcommand() {
    assert!(!is_listen_command("attend", "attend"));
}

#[test]
fn listen_command_tabs_and_relative_path() {
    assert_eq!(parse_listen_command("\t./bin/attend\u{3000}listen\n", "attend"), Some(ListenCommand::Listen));
    assert_eq!(parse_listen_command("bin/attend/ listen", "attend"), Some(ListenCommand::Listen));
    assert_eq!(parse_listen_command("attend/.. listen", "attend"), None);
    assert_eq!(parse_listen_command("/ listen", "attend"), None);
    assert_eq!(parse_listen_command("attend listen --stopper", "attend"), Some(ListenCommand::Listen));
}

// ---------------------------------------------------------------------------
// Prompt detection
// ---------------------------------------------------------------------------

fn prompt(p: &str) -> HookInput {
    HookInput { kind: HookKind::UserPrompt { prompt: Some(p.into()) }, ..Default::default() }
}

#[test]
fn is_attend_prompt_exact() {
    assert!(is_attend_prompt(&prompt("/attend")));
}

#[test]
fn is_attend_prompt_with_whitespace() {
    assert!(is_attend_prompt(&prompt("  /attend  ")));
}

#[test]
fn is_attend_prompt_different_text() {
    assert!(!is_attend_prompt(&prompt("hello world")));
}

#[test]
fn is_attend_prompt_no_prompt_field() {
    let input = HookInput::default();
    assert!(!is_attend_prompt(&input));
}

#[test]
fn is_attend_prompt_partial() {
    assert!(!is_attend_prompt(&prompt("/attend to this")));
}

#[test]
fn exact() {
    assert!(is_attend_prompt(&prompt("/attend")));
}

#[test]
fn with_whitespace() {
    assert!(is_attend_prompt(&prompt("  /attend  ")));
}

#[test]
fn different_text() {
    assert!(!is_attend_prompt(&prompt("hello world")));
}

#[test]
fn no_prompt_field() {
    let input = HookInput::default();
    assert!(!is_attend_prompt(&input));
}

#[test]
fn partial() {
    assert!(!is_attend_prompt(&prompt("/attend to this")));
}

#[test]
fn unattend_exact() {
    assert!(is_unattend_prompt(&prompt("/unattend")));
}

#[test]
fn unattend_with_whitespace() {
    assert!(is_unattend_prompt(&prompt("  /unattend  ")));
}

#[test]
fn unattend_different_text() {
    assert!(!is_unattend_prompt(&prompt("/attend")));
}

#[test]
fn unattend_partial() {
    assert!(!is_unattend_prompt(&prompt("/unattend now")));
}

#[test]
fn plugin_prompts_recognized() {
    assert!(is_attend_prompt(&prompt("/attend:start\n")));
    assert!(is_unattend_prompt(&prompt(" /attend:stop")));
    assert!(!is_unattend_prompt(&prompt("/attend:start")));
}

// ---------------------------------------------------------------------------
// general_decision: exhaustive enumeration
// ---------------------------------------------------------------------------

const ALL_RELATIONS: [SessionRelation; 3] =
    [SessionRelation::Active, SessionRelation::Stolen, SessionRelation::Inactive];
const GENERAL_HOOK_TYPES: [HookType; 3] = [HookType::Stop, HookType::PreToolUse, HookType::PostToolUse];
const ALL_BOOLS: [bool; 2] = [false, true];

fn for_all(mut f: impl FnMut(SessionRelation, bool, bool, bool, HookType)) {
    for &relation in &ALL_RELATIONS {
        for &has_pending in &ALL_BOOLS {
            for &receiver_alive in &ALL_BOOLS {
                for &stop_hook_active in &ALL_BOOLS {
                    for &hook_type in &GENERAL_HOOK_TYPES {
                        f(relation, has_pending, receiver_alive, stop_hook_active, hook_type);
                    }
                }
            }
        }
    }
}

fn is_block(d: &HookDecision) -> bool {
    matches!(d, HookDecision::Guidance { effect: GuidanceEffect::Block, .. })
}

fn effect_of(d: &HookDecision) -> Option<GuidanceEffect> {
    match d {
        HookDecision::Silent => None,
        HookDecision::Guidance { effect, .. } => Some(*effect),
    }
}

fn reason_of(d: &HookDecision) -> Option<&GuidanceReason> {
    match d {
        HookDecision::Silent => None,
        HookDecision::Guidance { reason, .. } => Some(reason),
    }
}

#[test]
fn non_active_sessions_never_blocked() {
    for_all(|relation, has_pending, receiver_alive, stop_hook_active, hook_type| {
        if relation == SessionRelation::Active {
            return;
        }
        let d = general_decision(relation, has_pending, receiver_alive, stop_hook_active, hook_type);
        assert!(!is_block(&d), "non-active session got Block: {relation:?} {d:?}");
    });
}

#[test]
fn session_moved_is_never_block() {
    for_all(|relation, has_pending, receiver_alive, stop_hook_active, hook_type| {
        let d = general_decision(relation, has_pending, receiver_alive, stop_hook_active, hook_type);
        if reason_of(&d) == Some(&GuidanceReason::SessionMoved) {
            assert_eq!(
                effect_of(&d),
                Some(GuidanceEffect::Approve),
                "SessionMoved should be Approve: relation={relation:?}, hook_type={hook_type:?}"
            );
        }
    });
}

#[test]
fn inactive_always_silent() {
    for_all(|relation, has_pending, receiver_alive, stop_hook_active, hook_type| {
        if relation != SessionRelation::Inactive {
            return;
        }
        let d = general_decision(relation, has_pending, receiver_alive, stop_hook_active, hook_type);
        assert_eq!(d, HookDecision::Silent);
    });
}

#[test]
fn stolen_decision_ignores_other_state() {
    for_all(|relation, has_pending, receiver_alive, stop_hook_active, hook_type| {
        if relation != SessionRelation::Stolen {
            return;
        }
        let d = general_decision(relation, has_pending, receiver_alive, stop_hook_active, hook_type);
        assert_eq!(d, HookDecision::approve(GuidanceReason::SessionMoved));
    });
}

#[test]
fn pending_narration_always_blocks() {
    for_all(|relation, has_pending, receiver_alive, stop_hook_active, hook_type| {
        if relation != SessionRelation::Active || !has_pending {
            return;
        }
        let d = general_decision(relation, has_pending, receiver_alive, stop_hook_active, hook_type);
        assert_eq!(d, HookDecision::block(GuidanceReason::NarrationReady));
    });
}

#[test]
fn missing_receiver_detected() {
    for &hook_type in &GENERAL_HOOK_TYPES {
        let d = general_decision(SessionRelation::Active, false, false, false, hook_type);
        assert_eq!(
            reason_of(&d),
            Some(&GuidanceReason::StartReceiver),
            "missing receiver should produce StartReceiver: hook_type={hook_type:?}"
        );
    }
}

#[test]
fn reentry_safety_valve_releases() {
    for &receiver_alive in &ALL_BOOLS {
        for &hook_type in &GENERAL_HOOK_TYPES {
            let d = general_decision(SessionRelation::Active, false, receiver_alive, true, hook_type);
            assert_eq!(d, HookDecision::Silent);
        }
    }
}

#[test]
fn start_receiver_effect_by_hook_type() {
    for &hook_type in &GENERAL_HOOK_TYPES {
        let d = general_decision(SessionRelation::Active, false, false, false, hook_type);
        let expected = match hook_type {
            HookType::Stop => GuidanceEffect::Block,
            _ => GuidanceEffect::Approve,
        };
        assert_eq!(effect_of(&d), Some(expected), "StartReceiver effect wrong for hook_type={hook_type:?}");
    }
}

#[test]
fn narration_ready_always_blocks() {
    for_all(|relation, has_pending, receiver_alive, stop_hook_active, hook_type| {
        let d = general_decision(relation, has_pending, receiver_alive, stop_hook_active, hook_type);
        if reason_of(&d) == Some(&GuidanceReason::NarrationReady) {
            assert!(is_block(&d));
        }
    });
}

#[test]
fn receiver_alive_no_pending_is_silent() {
    for &stop_hook_active in &ALL_BOOLS {
        for &hook_type in &GENERAL_HOOK_TYPES {
            let d = general_decision(SessionRelation::Active, false, true, stop_hook_active, hook_type);
            assert_eq!(d, HookDecision::Silent);
        }
    }
}

#[test]
fn general_inactive_silent() {
    let d = general_decision(SessionRelation::Inactive, false, false, false, HookType::Stop);
    assert_eq!(d, HookDecision::Silent);
}

#[test]
fn general_stolen_session_moved() {
    let d = general_decision(SessionRelation::Stolen, false, false, false, HookType::Stop);
    assert_eq!(d, HookDecision::approve(GuidanceReason::SessionMoved));
}

#[test]
fn general_active_pending_narration() {
    let d = general_decision(SessionRelation::Active, true, false, false, HookType::Stop);
    assert_eq!(d, HookDecision::block(GuidanceReason::NarrationReady));
}

#[test]
fn general_pending_takes_priority_over_receiver() {
    let d = general_decision(SessionRelation::Active, true, true, false, HookType::Stop);
    assert_eq!(d, HookDecision::block(GuidanceReason::NarrationReady));
}

#[test]
fn general_pending_takes_priority_over_reentry() {
    let d = general_decision(SessionRelation::Active, true, false, true, HookType::Stop);
    assert_eq!(d, HookDecision::block(GuidanceReason::NarrationReady));
}

#[test]
fn general_active_receiver_alive_no_pending() {
    let d = general_decision(SessionRelation::Active, false, true, false, HookType::Stop);
    assert_eq!(d, HookDecision::Silent);
}

#[test]
fn general_stop_no_receiver_blocks() {
    let d = general_decision(SessionRelation::Active, false, false, false, HookType::Stop);
    assert_eq!(d, HookDecision::block(GuidanceReason::StartReceiver));
}

#[test]
fn general_pre_tool_use_no_receiver_approves() {
    let d = general_decision(SessionRelation::Active, false, false, false, HookType::PreToolUse);
    assert_eq!(d, HookDecision::approve(GuidanceReason::StartReceiver));
}

#[test]
fn general_active_reentry_no_receiver_silent() {
    let d = general_decision(SessionRelation::Active, false, false, true, HookType::Stop);
    assert_eq!(d, HookDecision::Silent);
}

#[test]
fn general_active_reentry_receiver_alive_silent() {
    let d = general_decision(SessionRelation::Active, false, true, true, HookType::Stop);
    assert_eq!(d, HookDecision::Silent);
}

// ---------------------------------------------------------------------------
// Scenario tests against the hook state machine
// ---------------------------------------------------------------------------

const ALL_HOOK_TYPES: [HookType; 3] = [HookType::Stop, HookType::PreToolUse, HookType::PostToolUse];

/// A delivered event line.
fn item(text: &str) -> PendingItem {
    PendingItem { text: text.to_string(), snapshot: false, marker: false }
}

struct TestHarness {
    state: RefCell<HookState>,
}

struct ReceiverGuard;

impl TestHarness {
    fn new() -> Self {
        TestHarness { state: RefCell::new(HookState::new()) }
    }

    fn activate(&self, session_id: &String) {
        self.state.borrow_mut().activate(session_id);
    }

    fn write_pending(&self, session_id: &String, text: &str) {
        self.state.borrow_mut().add_pending(Some(session_id.clone()), vec![item(text)]);
    }

    fn write_undeliverable_pending(&self, session_id: &String) {
        let marker = PendingItem { text: "Redacted".to_string(), snapshot: false, marker: true };
        self.state.borrow_mut().add_pending(Some(session_id.clone()), vec![marker]);
    }

    fn fake_receiver(&self) -> ReceiverGuard {
        self.state.borrow_mut().receiver_alive = true;
        ReceiverGuard
    }

    fn fire_hook(&self, session_id: &String, hook_type: HookType, is_listen: bool, stop_hook_active: bool) -> HookOutcome {
        let command = if is_listen { "/opt/bin/attend listen" } else { "some-other-tool" };
        self.fire_with(session_id, hook_type, command, stop_hook_active)
    }

    fn fire_with(&self, session_id: &String, hook_type: HookType, command: &str, stop_hook_active: bool) -> HookOutcome {
        let kind = match hook_type {
            HookType::Stop => HookKind::Stop { stop_hook_active },
            HookType::PreToolUse | HookType::PostToolUse => {
                HookKind::ToolUse { bash_command: Some(command.to_string()) }
            }
            _ => HookKind::default(),
        };
        let input = HookInput { session_id: Some(session_id.clone()), cwd: Some("/project".into()), kind };
        self.state.borrow_mut().check_narration(&input, hook_type, Some("attend"))
    }

    fn assert_decision(outcome: &HookOutcome, expected: &HookDecision) {
        match outcome {
            HookOutcome::Decision(d) => assert_eq!(d, expected, "expected {expected:?}, got {d:?}"),
            other => panic!("expected decision {expected:?}, got {other:?}"),
        }
    }

    fn assert_narration(outcome: &HookOutcome, expected_substring: &str) {
        match outcome {
            HookOutcome::Narration(content) => assert!(
                content.contains(expected_substring),
                "narration should contain {expected_substring:?}, got: {content}"
            ),
            other => panic!("expected narration containing {expected_substring:?}, got {other:?}"),
        }
    }
}

fn sid(s: &str) -> String {
    s.to_string()
}

fn run_non_participant_is_invisible() {
    let h = TestHarness::new();
    let active = sid("active");
    let bystander = sid("bystander");
    h.activate(&active);
    for &ht in &ALL_HOOK_TYPES {
        let out = h.fire_hook(&bystander, ht, false, false);
        TestHarness::assert_decision(&out, &HookDecision::Silent);
    }
    h.write_pending(&active, "hello world");
    for &ht in &ALL_HOOK_TYPES {
        let out = h.fire_hook(&bystander, ht, false, false);
        TestHarness::assert_decision(&out, &HookDecision::Silent);
    }
}

fn run_single_session_lifecycle() {
    let h = TestHarness::new();
    let s = sid("session-1");
    let out = h.fire_hook(&s, HookType::PreToolUse, false, false);
    TestHarness::assert_decision(&out, &HookDecision::Silent);
    h.activate(&s);
    let out = h.fire_hook(&s, HookType::PreToolUse, false, false);
    TestHarness::assert_decision(&out, &HookDecision::approve(GuidanceReason::StartReceiver));
    let out = h.fire_hook(&s, HookType::Stop, false, false);
    TestHarness::assert_decision(&out, &HookDecision::block(GuidanceReason::StartReceiver));
    let _receiver = h.fake_receiver();
    let out = h.fire_hook(&s, HookType::PreToolUse, false, false);
    TestHarness::assert_decision(&out, &HookDecision::Silent);
    let out = h.fire_hook(&s, HookType::Stop, false, false);
    TestHarness::assert_decision(&out, &HookDecision::Silent);
    h.write_pending(&s, "look at this function");
    let out = h.fire_hook(&s, HookType::PreToolUse, false, false);
    TestHarness::assert_decision(&out, &HookDecision::block(GuidanceReason::NarrationReady));
    let out = h.fire_hook(&s, HookType::PreToolUse, true, false);
    TestHarness::assert_narration(&out, "look at this function");
    let out = h.fire_hook(&s, HookType::PreToolUse, false, false);
    TestHarness::assert_decision(&out, &HookDecision::Silent);
}

fn run_session_stealing() {
    let h = TestHarness::new();
    let a = sid("session-a");
    let b = sid("session-b");
    h.activate(&a);
    let _receiver = h.fake_receiver();
    let out = h.fire_hook(&a, HookType::PreToolUse, false, false);
    TestHarness::assert_decision(&out, &HookDecision::Silent);
    h.activate(&b);
    let out = h.fire_hook(&a, HookType::PreToolUse, false, false);
    TestHarness::assert_decision(&out, &HookDecision::approve(GuidanceReason::SessionMoved));
    let out = h.fire_hook(&a, HookType::PreToolUse, false, false);
    TestHarness::assert_decision(&out, &HookDecision::Silent);
    let out = h.fire_hook(&a, HookType::PreToolUse, true, false);
    TestHarness::assert_decision(&out, &HookDecision::block(GuidanceReason::SessionMoved));
    let out = h.fire_hook(&b, HookType::PreToolUse, false, false);
    TestHarness::assert_decision(&out, &HookDecision::Silent);
}

fn run_moved_ratchet_resets_on_reactivation() {
    let h = TestHarness::new();
    let a = sid("session-a");
    let b = sid("session-b");
    h.activate(&a);
    h.activate(&b);
    let out = h.fire_hook(&a, HookType::PreToolUse, false, false);
    TestHarness::assert_decision(&out, &HookDecision::approve(GuidanceReason::SessionMoved));
    let out = h.fire_hook(&a, HookType::PreToolUse, false, false);
    TestHarness::assert_decision(&out, &HookDecision::Silent);
    h.activate(&a);
    h.activate(&b);
    let out = h.fire_hook(&a, HookType::PreToolUse, false, false);
    TestHarness::assert_decision(&out, &HookDecision::approve(GuidanceReason::SessionMoved));
}

fn run_stop_reentry_safety_valve() {
    let h = TestHarness::new();
    let s = sid("session-1");
    h.activate(&s);
    let out = h.fire_hook(&s, HookType::Stop, false, false);
    TestHarness::assert_decision(&out, &HookDecision::block(GuidanceReason::StartReceiver));
    let out = h.fire_hook(&s, HookType::Stop, false, true);
    TestHarness::assert_decision(&out, &HookDecision::Silent);
}

fn run_listen_post_tool_use_always_advisory() {
    let h = TestHarness::new();
    let s = sid("session-1");
    h.activate(&s);
    let out = h.fire_hook(&s, HookType::PostToolUse, true, false);
    TestHarness::assert_decision(&out, &HookDecision::approve(GuidanceReason::ListenerStarted));
}

fn run_listen_blocked_when_receiver_alive() {
    let h = TestHarness::new();
    let s = sid("session-1");
    h.activate(&s);
    let _receiver = h.fake_receiver();
    let out = h.fire_hook(&s, HookType::PreToolUse, true, false);
    TestHarness::assert_decision(&out, &HookDecision::block(GuidanceReason::ListenerAlreadyActive));
}

fn run_listen_allowed_when_no_receiver_no_pending() {
    let h = TestHarness::new();
    let s = sid("session-1");
    h.activate(&s);
    let out = h.fire_hook(&s, HookType::PreToolUse, true, false);
    TestHarness::assert_decision(&out, &HookDecision::Silent);
}

fn run_batched_narration_delivery() {
    let h = TestHarness::new();
    let s = sid("session-1");
    h.activate(&s);
    h.write_pending(&s, "first narration");
    h.write_pending(&s, "second narration");
    let out = h.fire_hook(&s, HookType::PreToolUse, true, false);
    TestHarness::assert_narration(&out, "first narration");
    TestHarness::assert_narration(&out, "second narration");
    let out = h.fire_hook(&s, HookType::PreToolUse, false, false);
    TestHarness::assert_decision(&out, &HookDecision::approve(GuidanceReason::StartReceiver));
}

fn run_pending_narration_is_per_session() {
    let h = TestHarness::new();
    let a = sid("session-a");
    let b = sid("session-b");
    h.activate(&a);
    h.write_pending(&a, "narration for A");
    h.activate(&b);
    let out = h.fire_hook(&b, HookType::PreToolUse, false, false);
    TestHarness::assert_decision(&out, &HookDecision::approve(GuidanceReason::StartReceiver));
    let out = h.fire_hook(&a, HookType::PreToolUse, false, false);
    TestHarness::assert_decision(&out, &HookDecision::approve(GuidanceReason::SessionMoved));
}

#[test]
fn scenario_non_participant_is_invisible() {
    run_non_participant_is_invisible();
}

#[test]
fn scenario_single_session_lifecycle() {
    run_single_session_lifecycle();
}

#[test]
fn scenario_session_stealing() {
    run_session_stealing();
}

#[test]
fn scenario_moved_ratchet_resets_on_reactivation() {
    run_moved_ratchet_resets_on_reactivation();
}

#[test]
fn scenario_stop_reentry_safety_valve() {
    run_stop_reentry_safety_valve();
}

#[test]
fn scenario_listen_post_tool_use_always_advisory() {
    run_listen_post_tool_use_always_advisory();
}

#[test]
fn scenario_listen_blocked_when_receiver_alive() {
    run_listen_blocked_when_receiver_alive();
}

#[test]
fn scenario_listen_allowed_when_no_receiver_no_pending() {
    run_listen_allowed_when_no_receiver_no_pending();
}

#[test]
fn scenario_batched_narration_delivery() {
    run_batched_narration_delivery();
}

#[test]
fn scenario_pending_narration_is_per_session() {
    run_pending_narration_is_per_session();
}

#[test]
fn non_participant_is_invisible() {
    run_non_participant_is_invisible();
}

#[test]
fn single_session_lifecycle() {
    run_single_session_lifecycle();
}

#[test]
fn session_stealing() {
    run_session_stealing();
}

#[test]
fn moved_ratchet_resets_on_reactivation() {
    run_moved_ratchet_resets_on_reactivation();
}

#[test]
fn stop_reentry_safety_valve() {
    run_stop_reentry_safety_valve();
}

#[test]
fn listen_post_tool_use_always_advisory() {
    run_listen_post_tool_use_always_advisory();
}

#[test]
fn listen_blocked_when_receiver_alive() {
    run_listen_blocked_when_receiver_alive();
}

#[test]
fn listen_allowed_when_no_receiver_no_pending() {
    run_listen_allowed_when_no_receiver_no_pending();
}

#[test]
fn batched_narration_delivery() {
    run_batched_narration_delivery();
}

#[test]
fn pending_narration_is_per_session() {
    run_pending_narration_is_per_session();
}

// ---------------------------------------------------------------------------
// Further hook behaviour
// ---------------------------------------------------------------------------

#[test]
fn auto_claim_then_displaced_cannot_reclaim() {
    let h = TestHarness::new();
    let s = sid("solo");
    let out = h.fire_hook(&s, HookType::PreToolUse, true, false);
    assert_eq!(out, HookOutcome::Activation);
    assert_eq!(h.state.borrow().listening.as_deref(), Some("solo"));
    let out = h.fire_with(&s, HookType::PreToolUse, "attend listen --stop", false);
    TestHarness::assert_decision(&out, &HookDecision::approve(GuidanceReason::Deactivated));
    h.state.borrow_mut().listening = None;
    let out = h.fire_hook(&s, HookType::PreToolUse, true, false);
    TestHarness::assert_decision(&out, &HookDecision::block(GuidanceReason::Deactivated));
    assert_eq!(h.state.borrow().listening, None);
}

#[test]
fn unlisten_from_other_session_blocked() {
    let h = TestHarness::new();
    let a = sid("a");
    let b = sid("b");
    h.activate(&b);
    h.activate(&a);
    let out = h.fire_with(&b, HookType::PreToolUse, "attend listen --stop", false);
    TestHarness::assert_decision(&out, &HookDecision::block(GuidanceReason::SessionMoved));
    let out = h.fire_with(&a, HookType::PostToolUse, "attend listen --stop", false);
    TestHarness::assert_decision(&out, &HookDecision::Silent);
}

#[test]
fn undeliverable_pending_is_archived() {
    let h = TestHarness::new();
    let s = sid("s");
    h.activate(&s);
    h.write_undeliverable_pending(&s);
    let out = h.fire_hook(&s, HookType::PreToolUse, false, false);
    TestHarness::assert_decision(&out, &HookDecision::approve(GuidanceReason::StartReceiver));
    assert!(h.state.borrow().pending.is_empty());
}

#[test]
fn local_narration_delivered_to_owner() {
    let h = TestHarness::new();
    let s = sid("s");
    h.activate(&s);
    h.state.borrow_mut().add_pending(None, vec![item("recorded before a session")]);
    h.write_pending(&sid("other"), "not mine");
    let out = h.fire_hook(&s, HookType::PreToolUse, true, false);
    assert_eq!(out, HookOutcome::Narration("recorded before a session".into()));
    assert_eq!(h.state.borrow().pending.len(), 1);
}

#[test]
fn prompt_activation_and_deactivation() {
    let mut state = HookState::new();
    let mut input = prompt("/attend");
    input.session_id = Some("x".into());
    assert_eq!(state.user_prompt(&input), attend::hook_state::PromptOutcome::Activated("x".into()));
    assert!(state.is_listening(&input));
    let mut off = prompt("/unattend");
    off.session_id = Some("x".into());
    assert_eq!(state.user_prompt(&off), attend::hook_state::PromptOutcome::Deactivated("x".into()));
    assert_eq!(state.listening, None);
    assert_eq!(state.displaced, vec!["x".to_string()]);
    assert_eq!(state.user_prompt(&prompt("/attend")), attend::hook_state::PromptOutcome::MissingSession);
    assert_eq!(state.user_prompt(&prompt("hi")), attend::hook_state::PromptOutcome::EditorContext);
}

#[test]
fn session_end_releases_ownership() {
    let mut state = HookState::new();
    state.activate(&"x".to_string());
    let mut other = HookInput::default();
    other.session_id = Some("y".into());
    state.session_end(&other);
    assert_eq!(state.listening.as_deref(), Some("x"));
    let mut mine = HookInput::default();
    mine.session_id = Some("x".into());
    state.session_end(&mine);
    assert_eq!(state.listening, None);
}

#[test]
fn tests_non_participant_is_invisible() {
    run_non_participant_is_invisible();
}

#[test]
fn tests_single_session_lifecycle() {
    run_single_session_lifecycle();
}

#[test]
fn tests_session_stealing() {
    run_session_stealing();
}

#[test]
fn tests_moved_ratchet_resets_on_reactivation() {
    run_moved_ratchet_resets_on_reactivation();
}

#[test]
fn tests_stop_reentry_safety_valve() {
    run_stop_reentry_safety_valve();
}

#[test]
fn tests_listen_post_tool_use_always_advisory() {
    run_listen_post_tool_use_always_advisory();
}

#[test]
fn tests_listen_blocked_when_receiver_alive() {
    run_listen_blocked_when_receiver_alive();
}

#[test]
fn tests_listen_allowed_when_no_receiver_no_pending() {
    run_listen_allowed_when_no_receiver_no_pending();
}

#[test]
fn tests_batched_narration_delivery() {
    run_batched_narration_delivery();
}

#[test]
fn tests_pending_narration_is_per_session() {
    run_pending_narration_is_per_session();
}


/// The pending files of a delivery are merged before delivery: only the
/// first file's leading editor snapshot is dropped, and a file holding only
/// redaction markers is delivered along with the others.
#[test]
fn pending_files_delivered_merged() {
    let h = TestHarness::new();
    let s = sid("s");
    h.activate(&s);
    let snap = PendingItem { text: "snap".to_string(), snapshot: true, marker: false };
    let snap2 = PendingItem { text: "snap2".to_string(), snapshot: true, marker: false };
    let marker = PendingItem { text: "cut".to_string(), snapshot: false, marker: true };
    h.state.borrow_mut().add_pending(Some(s.clone()), vec![snap, item("one")]);
    h.state.borrow_mut().add_pending(Some(s.clone()), vec![marker]);
    h.state.borrow_mut().add_pending(Some(s.clone()), vec![snap2, item("two")]);
    let out = h.fire_hook(&s, HookType::PreToolUse, true, false);
    assert_eq!(out, HookOutcome::Narration("one\ncut\nsnap2\ntwo".into()));
}

/// A file's events are scoped to the project and summarized one per line.
#[test]
fn pending_items_scope_and_summarize() {
    let words = Event::Words { timestamp: 0, text: "hello".to_string() };
    let diff = Event::FileDiff {
        timestamp: 1_000_000_000,
        path: "/elsewhere/x.rs".to_string(),
        old: "a".to_string(),
        new: "b".to_string(),
    };
    let items = pending_items(vec![words.clone(), diff], Some("/project"), &Vec::new());
    assert_eq!(items.len(), 2);
    assert_eq!(items[0].text, words.display_string());
    assert!(!items[0].marker && !items[0].snapshot);
    assert!(items[1].marker);
}

/// The decision after the file-name lookup goes by the name it is given.
#[test]
fn listen_command_by_given_name() {
    assert_eq!(listen_command_named("/x/y listen --stop", Some("attend"), "attend"), Some(ListenCommand::ListenStop));
    assert_eq!(listen_command_named("attend listen", Some("other"), "attend"), None);
    assert_eq!(listen_command_named("attend listen", None, "attend"), None);
    assert_eq!(listen_command_named("attend", Some("attend"), "attend"), None);
}
