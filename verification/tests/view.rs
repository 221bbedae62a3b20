use std::collections::BTreeSet;

use zj_agents::model::AgentState;
use zj_agents::protocol::{AgentSnapshot, Snapshot, TabSnapshot, PROTOCOL_VERSION};
use zj_agents::view::{build_rows, format_duration, selectable_pane_ids, Row, Selection};

fn snapshot_fixture() -> Snapshot {
    Snapshot {
        v: PROTOCOL_VERSION,
        tabs: vec![
            TabSnapshot {
                position: 0,
                name: "main".into(),
            },
            TabSnapshot {
                position: 1,
                name: "work".into(),
            },
        ],
        agents: vec![
            agent(1, 0, AgentState::Working),
            agent(2, 0, AgentState::Blocked),
            agent(3, 1, AgentState::Done),
            agent(4, 1, AgentState::Idle),
        ],
        diagnostics: vec![],
    }
}

fn agent(pane_id: u32, tab: usize, state: AgentState) -> AgentSnapshot {
    AgentSnapshot {
        pane_id,
        tab_position: tab,
        agent: "grok".into(),
        agent_label: "Grok".into(),
        display: format!("d{pane_id}"),
        state,
        since_ms: 0,
        fallback_used: false,
    }
}

#[test]
fn attention_rows_are_not_duplicated_in_tabs() {
    let rows = build_rows(&snapshot_fixture());
    let ids = rows
        .iter()
        .filter_map(|row| match row {
            Row::Agent(a) => Some(a.pane_id()),
            _ => None,
        })
        .collect::<Vec<_>>();
    let unique = ids.iter().copied().collect::<BTreeSet<_>>();
    assert_eq!(ids.len(), unique.len());
}

#[test]
fn attention_order_blocked_then_done() {
    let rows = build_rows(&snapshot_fixture());
    let attention: Vec<_> = rows
        .iter()
        .filter_map(|r| match r {
            Row::Agent(a) if a.in_attention => Some(a.state),
            _ => None,
        })
        .collect();
    assert_eq!(attention, vec![AgentState::Blocked, AgentState::Done]);
}

#[test]
fn selection_moves_to_nearest_when_removed() {
    let mut selection = Selection::new();
    selection.set(Some(2));
    let old = vec![1, 2, 3];
    let new = vec![1, 3];
    selection.reconcile(&old, &new);
    assert_eq!(selection.pane_id(), Some(3));
}

#[test]
fn selection_wraps() {
    let mut selection = Selection::new();
    selection.set(Some(1));
    let ids = vec![1, 2, 3];
    selection.previous(&ids);
    assert_eq!(selection.pane_id(), Some(3));
    selection.next(&ids);
    assert_eq!(selection.pane_id(), Some(1));
}

#[test]
fn rows_group_the_rest_by_tab_after_the_attention_section() {
    let rows = build_rows(&snapshot_fixture());
    assert_eq!(rows[0], Row::Section("Attention"));
    assert!(matches!(&rows[3], Row::Tab { position: 0, name } if name == "main"));
    assert!(matches!(&rows[5], Row::Tab { position: 1, name } if name == "work"));
    assert_eq!(selectable_pane_ids(&rows), vec![2, 3, 1, 4]);
    match &rows[1] {
        Row::Agent(a) => assert_eq!(a.line_text(), "! blocked  d2  Grok  0s"),
        _ => panic!("expected an agent row"),
    }
}

#[test]
fn durations_read_as_minutes_and_seconds() {
    assert_eq!(format_duration(0), "0s");
    assert_eq!(format_duration(59_999), "59s");
    assert_eq!(format_duration(61_000), "1m01s");
    assert_eq!(format_duration(3_600_000), "60m00s");
}

#[test]
fn selection_empty_list_clears() {
    let mut selection = Selection::new();
    selection.set(Some(5));
    selection.next(&[]);
    assert_eq!(selection.pane_id(), None);
    selection.reconcile(&[], &[7, 8]);
    assert_eq!(selection.pane_id(), Some(7));
}
