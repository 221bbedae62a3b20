use zj_agents::model::{AgentState, Observation};
use zj_agents::state::{AttentionKind, PaneState};

#[test]
fn first_observation_is_a_notification_free_baseline() {
    let mut pane = PaneState::new();
    let change = pane.observe(Observation::Blocked, false);
    assert_eq!(pane.state(), AgentState::Blocked);
    assert_eq!(change.attention, None);
    assert!(!pane.baseline_pending());
}

#[test]
fn focused_working_to_idle_bypasses_done() {
    let mut pane = PaneState::baseline(AgentState::Working);
    pane.observe(Observation::Idle, true);
    assert_eq!(pane.state(), AgentState::Idle);
}

#[test]
fn two_unfocused_idle_observations_derive_done() {
    let mut pane = PaneState::baseline(AgentState::Working);
    assert_eq!(pane.observe(Observation::Idle, false).attention, None);
    let change = pane.observe(Observation::Idle, false);
    assert_eq!(pane.state(), AgentState::Done);
    assert_eq!(change.attention, Some(AttentionKind::Done));
}

#[test]
fn successful_unknown_is_not_operational_recovery() {
    let mut pane = PaneState::baseline(AgentState::Idle);
    pane.observe(Observation::Unknown, false);
    assert_eq!(pane.state(), AgentState::Unknown);
    assert!(!pane.baseline_pending());
    assert_eq!(
        pane.observe(Observation::Blocked, false).attention,
        Some(AttentionKind::Blocked)
    );
}

#[test]
fn third_read_failure_enters_baselined_operational_unknown() {
    let mut pane = PaneState::baseline(AgentState::Done);
    pane.read_failed(false);
    pane.read_failed(false);
    pane.read_failed(false);
    assert_eq!(pane.state(), AgentState::Unknown);
    assert!(pane.baseline_pending());
    assert_eq!(pane.observe(Observation::Blocked, false).attention, None);
}

#[test]
fn focus_clears_done_even_when_the_read_fails() {
    let mut pane = PaneState::baseline(AgentState::Done);
    pane.read_failed(true);
    assert_eq!(pane.state(), AgentState::Idle);
}

#[test]
fn sticky_done_survives_idle_and_unknown() {
    let mut pane = PaneState::baseline(AgentState::Working);
    pane.observe(Observation::Idle, false);
    pane.observe(Observation::Idle, false);
    assert_eq!(pane.state(), AgentState::Done);
    pane.observe(Observation::Idle, false);
    assert_eq!(pane.state(), AgentState::Done);
    pane.observe(Observation::Unknown, false);
    assert_eq!(pane.state(), AgentState::Done);
}

#[test]
fn working_supersedes_sticky_done() {
    let mut pane = PaneState::baseline(AgentState::Working);
    pane.observe(Observation::Idle, false);
    pane.observe(Observation::Idle, false);
    pane.observe(Observation::Working, false);
    assert_eq!(pane.state(), AgentState::Working);
}

#[test]
fn focused_blocked_suppresses_attention() {
    let mut pane = PaneState::baseline(AgentState::Idle);
    let change = pane.observe(Observation::Blocked, true);
    assert_eq!(pane.state(), AgentState::Blocked);
    assert_eq!(change.attention, None);
}

#[test]
fn generation_increments_on_state_change() {
    let mut pane = PaneState::baseline(AgentState::Idle);
    let before = pane.generation();
    let change = pane.observe(Observation::Working, false);
    assert!(change.changed);
    assert_eq!(change.generation, before + 1);
    assert_eq!(pane.since_ms(), 0);
}

#[test]
fn advance_only_while_unchanged() {
    let mut pane = PaneState::baseline(AgentState::Idle);
    pane.advance(500);
    assert_eq!(pane.since_ms(), 500);
    pane.observe(Observation::Working, false);
    assert_eq!(pane.since_ms(), 0);
}

#[test]
fn non_idle_cancels_completion_pending() {
    let mut pane = PaneState::baseline(AgentState::Working);
    pane.observe(Observation::Idle, false);
    pane.observe(Observation::Working, false);
    let change = pane.observe(Observation::Idle, false);
    assert_eq!(pane.state(), AgentState::Working);
    assert_eq!(change.attention, None);
}

#[test]
fn transition_table_unknown_paths() {
    let mut pane = PaneState::baseline(AgentState::Unknown);
    assert!(!pane.observe(Observation::Unknown, false).changed);
    pane.observe(Observation::Idle, false);
    assert_eq!(pane.state(), AgentState::Idle);
    pane.observe(Observation::Unknown, false);
    assert_eq!(pane.state(), AgentState::Unknown);
    pane.observe(Observation::Working, false);
    assert_eq!(pane.state(), AgentState::Working);
}

#[test]
fn blocked_to_working_and_idle() {
    let mut pane = PaneState::baseline(AgentState::Blocked);
    pane.observe(Observation::Working, false);
    assert_eq!(pane.state(), AgentState::Working);
    let mut pane = PaneState::baseline(AgentState::Blocked);
    pane.observe(Observation::Idle, false);
    assert_eq!(pane.state(), AgentState::Idle);
}

#[test]
fn generation_never_decreases_over_a_run() {
    let mut pane = PaneState::new();
    let mut last = pane.generation();
    let script = [
        Observation::Working,
        Observation::Idle,
        Observation::Idle,
        Observation::Blocked,
        Observation::Unknown,
        Observation::Working,
    ];
    for (i, o) in script.iter().enumerate() {
        pane.observe(*o, i % 2 == 0);
        assert!(pane.generation() >= last);
        last = pane.generation();
    }
    pane.read_failed(false);
    assert!(pane.generation() >= last);
}

#[test]
fn baseline_after_rebaseline_is_silent() {
    let mut pane = PaneState::baseline(AgentState::Idle);
    pane.set_baseline_pending();
    let change = pane.observe(Observation::Blocked, false);
    assert_eq!(change.attention, None);
    assert_eq!(pane.state(), AgentState::Blocked);
}
