use zj_agents::model::AgentState;
use zj_agents::protocol::{AgentSnapshot, Snapshot, TabSnapshot, PROTOCOL_VERSION};
use zj_agents::sidebar::{map_key, render_plan, KeyPress, Sidebar, SidebarAction, SidebarKey};

fn snap() -> Snapshot {
    Snapshot {
        v: PROTOCOL_VERSION,
        tabs: vec![TabSnapshot {
            position: 0,
            name: "main".into(),
        }],
        agents: vec![AgentSnapshot {
            pane_id: 3,
            tab_position: 0,
            agent: "grok".into(),
            agent_label: "Grok CLI".into(),
            display: "repo".into(),
            state: AgentState::Working,
            since_ms: 0,
            fallback_used: false,
        }],
        diagnostics: vec![],
    }
}

#[test]
fn connecting_before_snapshot() {
    let sidebar = Sidebar::new();
    let lines = render_plan(&sidebar, 10, 80);
    assert!(lines[0].text.contains("Connecting"));
}

#[test]
fn grant_emits_hello() {
    let mut sidebar = Sidebar::new();
    assert_eq!(sidebar.on_permission(true), SidebarAction::SendHello);
}

#[test]
fn denied_screen() {
    let mut sidebar = Sidebar::new();
    sidebar.on_permission(false);
    let lines = render_plan(&sidebar, 10, 80);
    assert!(lines[0].text.contains("permissions denied"));
}

#[test]
fn accepts_v1_and_rejects_other() {
    let mut sidebar = Sidebar::new();
    sidebar.on_permission(true);
    sidebar.on_snapshot_payload(Some(snap()));
    assert!(sidebar.has_snapshot());
    let mut bad = snap();
    bad.v = 9;
    sidebar.on_snapshot_payload(Some(bad));
    assert_eq!(sidebar.incompatible_version(), Some(9));
}

#[test]
fn heartbeat_every_30s() {
    let mut sidebar = Sidebar::new();
    sidebar.on_permission(true);
    assert_eq!(sidebar.on_timer(29_999), SidebarAction::NoAction);
    assert_eq!(sidebar.on_timer(1), SidebarAction::SendHello);
}

#[test]
fn keys_while_pending_do_not_focus() {
    let mut sidebar = Sidebar::new();
    assert_eq!(sidebar.on_key(SidebarKey::Enter), SidebarAction::NoAction);
    assert_eq!(sidebar.on_key(SidebarKey::Quit), SidebarAction::Hide);
}

#[test]
fn empty_snapshot_message() {
    let mut sidebar = Sidebar::new();
    sidebar.on_permission(true);
    let empty = Snapshot {
        v: PROTOCOL_VERSION,
        tabs: vec![],
        agents: vec![],
        diagnostics: vec![],
    };
    sidebar.on_snapshot_payload(Some(empty));
    let lines = render_plan(&sidebar, 10, 80);
    assert!(lines.iter().any(|l| l.text.contains("No agent panes")));
}

#[test]
fn agent_line_has_glyph_and_text_state() {
    let mut sidebar = Sidebar::new();
    sidebar.on_permission(true);
    sidebar.on_snapshot_payload(Some(snap()));
    let lines = render_plan(&sidebar, 20, 80);
    let agent = lines.iter().find(|l| l.text.contains("working")).unwrap();
    assert!(agent.text.contains('›') || agent.text.contains("working"));
    assert!(agent.color.is_some());
}

#[test]
fn selection_focuses_and_reload_is_forwarded() {
    let mut sidebar = Sidebar::new();
    sidebar.on_permission(true);
    sidebar.on_snapshot_payload(Some(snap()));
    assert_eq!(sidebar.on_key(SidebarKey::Enter), SidebarAction::Focus(3));
    assert_eq!(sidebar.on_key(SidebarKey::Down), SidebarAction::NoAction);
    assert_eq!(sidebar.on_key(SidebarKey::Enter), SidebarAction::Focus(3));
    assert_eq!(sidebar.on_key(SidebarKey::Reload), SidebarAction::SendReload);
    let lines = render_plan(&sidebar, 20, 80);
    assert_eq!(lines[0].text, "zj-agents");
    assert_eq!(lines[1].text, "Tab 0: main");
    assert_eq!(lines[2].text, "› working  repo  Grok CLI  0s");
    assert!(lines[2].selected);
    assert_eq!(lines[2].color, Some(4));
}

#[test]
fn screen_fits_the_viewport() {
    let mut sidebar = Sidebar::new();
    sidebar.on_permission(true);
    sidebar.on_snapshot_payload(Some(snap()));
    assert!(render_plan(&sidebar, 0, 80).is_empty());
    let two = render_plan(&sidebar, 2, 80);
    assert_eq!(two.len(), 2);
    assert_eq!(two[0].text, "zj-agents");
    assert!(two[1].selected);
    let narrow = render_plan(&sidebar, 20, 0);
    assert!(narrow.iter().all(|l| l.text.chars().count() <= 1));
    sidebar.on_snapshot_payload(None);
    let lines = render_plan(&sidebar, 20, 80);
    assert_eq!(lines[1].text, "malformed snapshot");
    assert_eq!(lines[1].color, Some(1));
}

#[test]
fn incompatible_version_screen() {
    let mut sidebar = Sidebar::new();
    sidebar.on_permission(true);
    let mut bad = snap();
    bad.v = 12;
    sidebar.on_snapshot_payload(Some(bad));
    let lines = render_plan(&sidebar, 5, 80);
    assert_eq!(lines[0].text, "Incompatible engine protocol version 12");
}

#[test]
fn key_bindings() {
    assert_eq!(map_key(KeyPress::Up, true), Some(SidebarKey::Up));
    assert_eq!(map_key(KeyPress::Char('k'), true), Some(SidebarKey::Up));
    assert_eq!(map_key(KeyPress::Down, true), Some(SidebarKey::Down));
    assert_eq!(map_key(KeyPress::Char('j'), true), Some(SidebarKey::Down));
    assert_eq!(map_key(KeyPress::Enter, true), Some(SidebarKey::Enter));
    assert_eq!(map_key(KeyPress::Char('r'), true), Some(SidebarKey::Reload));
    assert_eq!(map_key(KeyPress::Char('q'), true), Some(SidebarKey::Quit));
    assert_eq!(map_key(KeyPress::Esc, true), Some(SidebarKey::Quit));
    assert_eq!(map_key(KeyPress::Char('x'), true), None);
    assert_eq!(map_key(KeyPress::Other, true), None);
    assert_eq!(map_key(KeyPress::Char('q'), false), None);
    assert_eq!(map_key(KeyPress::Up, false), None);
}
