use zj_agents::inventory::{
    live_candidates, parse_pane_list_json, Inventory, PaneListRow, TerminalCandidate,
};

#[test]
fn event_rows_win_over_cli() {
    let mut inv = Inventory::default();
    inv.apply_event_manifest(vec![TerminalCandidate {
        pane_id: 1,
        tab_position: 0,
        tab_name: "event".into(),
        title: "new".into(),
    }]);
    inv.merge_cli_candidates(vec![TerminalCandidate {
        pane_id: 1,
        tab_position: 9,
        tab_name: "cli".into(),
        title: "old".into(),
    }]);
    assert_eq!(inv.get(1).unwrap().tab_name, "event");
    inv.merge_cli_candidates(vec![TerminalCandidate {
        pane_id: 2,
        tab_position: 1,
        tab_name: "cli".into(),
        title: "extra".into(),
    }]);
    assert!(inv.get(2).is_some());
}

#[test]
fn remove_drops_membership() {
    let mut inv = Inventory::default();
    inv.apply_event_manifest(vec![TerminalCandidate {
        pane_id: 3,
        tab_position: 0,
        tab_name: "t".into(),
        title: "x".into(),
    }]);
    inv.remove(3);
    assert!(inv.get(3).is_none());
}

fn row(id: u32, is_plugin: bool, exited: bool, title: &str) -> PaneListRow {
    PaneListRow {
        id,
        is_plugin,
        exited,
        tab_position: 0,
        tab_name: "main".into(),
        title: title.into(),
    }
}

#[test]
fn parses_only_live_terminals() {
    let rows = vec![row(1, false, false, "shell"), row(1, true, false, "plugin"), row(2, false, true, "dead")];
    let parsed = parse_pane_list_json(b"[]", Some(rows)).unwrap();
    assert_eq!(parsed.len(), 1);
    assert_eq!(
        parsed[0],
        TerminalCandidate {
            pane_id: 1,
            tab_position: 0,
            tab_name: "main".into(),
            title: "shell".into(),
        }
    );
}

#[test]
fn unreadable_listings_are_refused() {
    assert!(parse_pane_list_json(b"[]", None).is_err());
    assert!(parse_pane_list_json(&[0xff, 0xfe], Some(vec![])).is_err());
    let parsed = parse_pane_list_json(b"[]", Some(vec![row(4, false, false, "\u{1b}[31mred\u{200b}")])).unwrap();
    assert_eq!(parsed[0].title, "red");
}

#[test]
fn listing_is_keyed_by_pane_in_order() {
    let mut inv = Inventory::new();
    inv.apply_event_manifest(vec![
        TerminalCandidate { pane_id: 7, tab_position: 0, tab_name: "a".into(), title: "first".into() },
        TerminalCandidate { pane_id: 3, tab_position: 1, tab_name: "b".into(), title: "x".into() },
        TerminalCandidate { pane_id: 7, tab_position: 2, tab_name: "c".into(), title: "second".into() },
    ]);
    assert_eq!(inv.pane_ids(), vec![3, 7]);
    let titles: Vec<&str> = inv.iter().iter().map(|c| c.title.as_str()).collect();
    assert_eq!(titles, vec!["x", "second"]);
    inv.update_title(7, "\u{1b}]0;t\u{7}new title".into());
    inv.update_tab(3, 5, "\u{202e}tab".into());
    inv.update_title(99, "ignored".into());
    assert_eq!(inv.get(7).unwrap().title, "new title");
    assert_eq!(inv.get(3).unwrap().tab_position, 5);
    assert_eq!(inv.get(3).unwrap().tab_name, "tab");
    assert!(inv.get(99).is_none());
}

#[test]
fn live_candidates_drop_plugins_and_exited_panes() {
    let row = |id: u32, is_plugin: bool, exited: bool, title: &str| PaneListRow {
        id,
        is_plugin,
        exited,
        tab_position: 2,
        tab_name: String::new(),
        title: title.into(),
    };
    let rows = vec![
        row(1, false, false, "\u{1b}[1mshell\u{1b}[0m"),
        row(2, true, false, "plugin"),
        row(3, false, true, "gone"),
        row(4, false, false, "  two   words "),
    ];
    let out = live_candidates(&rows);
    assert_eq!(
        out,
        vec![
            TerminalCandidate {
                pane_id: 1,
                tab_position: 2,
                tab_name: String::new(),
                title: "shell".into(),
            },
            TerminalCandidate {
                pane_id: 4,
                tab_position: 2,
                tab_name: String::new(),
                title: "two words".into(),
            },
        ]
    );
}
