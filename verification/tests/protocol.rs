use zj_agents::model::{AgentState, DiagnosticSource};
use zj_agents::protocol::{
    snapshot_eq, AgentSnapshot, Diagnostic, Hello, Reload, Snapshot, TabSnapshot, PROTOCOL_VERSION,
};
use zj_agents::sanitize::{choose_display, sanitize_label, sanitize_metadata};

fn sample() -> Snapshot {
    Snapshot {
        v: PROTOCOL_VERSION,
        tabs: vec![TabSnapshot {
            position: 0,
            name: "work".into(),
        }],
        agents: vec![AgentSnapshot {
            pane_id: 7,
            tab_position: 0,
            agent: "grok".into(),
            agent_label: "Grok CLI".into(),
            display: "repo".into(),
            state: AgentState::Working,
            since_ms: 1_500,
            fallback_used: false,
        }],
        diagnostics: vec![Diagnostic {
            source: DiagnosticSource::Manifest,
            message: "invalid override manifest".into(),
        }],
    }
}

#[test]
fn snapshot_uses_version_one_and_structured_diagnostics() {
    let snapshot = sample();
    assert_eq!(snapshot.v, 1);
    assert_eq!(snapshot.agents[0].state.as_str(), "working");
    assert_eq!(snapshot.diagnostics[0].source, DiagnosticSource::Manifest);
    assert_eq!(snapshot.diagnostics[0].message, "invalid override manifest");
}

#[test]
fn hello_and_reload_are_versioned() {
    assert_eq!(Hello::v1().v, 1);
    assert_eq!(Reload::v1().v, 1);
}

#[test]
fn snapshot_only_carries_sanitized_metadata() {
    let hostile_label = sanitize_label("\u{1b}[31mGrok\u{200b}", 60, 1);
    let hostile_tab = sanitize_metadata("\u{202e}work", 60);
    let snapshot = Snapshot {
        v: PROTOCOL_VERSION,
        tabs: vec![TabSnapshot {
            position: 0,
            name: hostile_tab.clone(),
        }],
        agents: vec![AgentSnapshot {
            pane_id: 1,
            tab_position: 0,
            agent: "grok".into(),
            agent_label: hostile_label.clone(),
            display: choose_display(Some("\u{1b}repo"), None, 1),
            state: AgentState::Idle,
            since_ms: 0,
            fallback_used: false,
        }],
        diagnostics: vec![Diagnostic::new(
            DiagnosticSource::Manifest,
            &sanitize_metadata("bad", 60),
        )],
    };
    let mut text = String::new();
    for tab in &snapshot.tabs {
        text.push_str(&tab.name);
    }
    for agent in &snapshot.agents {
        text.push_str(&agent.agent_label);
        text.push_str(&agent.display);
    }
    for d in &snapshot.diagnostics {
        text.push_str(&d.message);
    }
    assert!(!text.contains('\u{1b}'));
    assert!(!text.contains('\u{202e}'));
    assert_eq!(snapshot.agents[0].agent_label, "Grok");
    assert_eq!(snapshot.tabs[0].name, "work");
}

#[test]
fn snapshots_compare_by_content() {
    let a = sample();
    let mut b = sample();
    assert!(snapshot_eq(&a, &b));
    b.agents[0].since_ms = 1_501;
    assert!(!snapshot_eq(&a, &b));
    let mut c = sample();
    c.diagnostics.clear();
    assert!(!snapshot_eq(&a, &c));
}
