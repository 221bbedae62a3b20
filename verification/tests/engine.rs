use zj_agents::engine::{
    Effect, Engine, EngineConfig, HostError, HostKind, HostRequests, TimerObservations,
};
use zj_agents::idmap::IdMap;
use zj_agents::inventory::TerminalCandidate;
use zj_agents::manifest::{CompiledManifest, ManifestSetError, RawDetect, RawManifest, RawRule};
use zj_agents::model::{AgentState, DiagnosticSource};
use zj_agents::protocol::{Hello, Reload};
use zj_agents::strmap::StringMap;

/// A stand-in for the bundled agent manifests.
fn bundled() -> Result<Vec<CompiledManifest>, ManifestSetError> {
    let grok = RawManifest {
        schema: 1,
        name: "grok".into(),
        label: "Grok CLI".into(),
        scan_lines: 40,
        fallback: Some("idle".into()),
        detect: RawDetect {
            process: vec!["grok".into()],
            argv_any: vec![],
        },
        rule: vec![
            RawRule {
                state: "blocked".into(),
                pattern: r"(?i)do you want to proceed|allow\?".into(),
            },
            RawRule {
                state: "working".into(),
                pattern: r"(?i)esc to interrupt".into(),
            },
        ],
    };
    Ok(vec![CompiledManifest::parse("grok.toml", Some(&grok)).unwrap()])
}

fn engine_with(config: StringMap) -> Engine {
    Engine::new(EngineConfig::parse(config), bundled(), Some("/home/u".into()))
}

fn engine() -> Engine {
    engine_with(StringMap::new())
}

fn has_diagnostic(engine: &Engine, source: DiagnosticSource) -> bool {
    engine.snapshot().diagnostics.iter().any(|d| d.source == source)
}

fn observations(focused: Option<u32>, viewports: Vec<(u32, Result<Vec<String>, HostError>)>) -> TimerObservations {
    let mut map = IdMap::new();
    for (id, lines) in viewports {
        map.insert(id, lines);
    }
    TimerObservations {
        focused_pane_id: focused,
        reconciled_commands: IdMap::new(),
        viewports: map,
    }
}

#[test]
fn ids_increase_and_resolve_once() {
    let mut hr = HostRequests::default();
    let a = hr.start(HostKind::PaneInventory).unwrap();
    assert_eq!(a.get("kind").unwrap(), "pane-inventory");
    assert_eq!(a.get("request_id").unwrap(), "1");
    assert!(hr.start(HostKind::PaneInventory).is_none());
    assert_eq!(hr.resolve(&a), Some(HostKind::PaneInventory));
    assert_eq!(hr.resolve(&a), None);
}

#[test]
fn notify_may_overlap() {
    let mut hr = HostRequests::default();
    let a = hr.start(HostKind::Notify).unwrap();
    let b = hr.start(HostKind::Notify).unwrap();
    assert_ne!(a.get("request_id"), b.get("request_id"));
    assert_eq!(hr.resolve(&a), Some(HostKind::Notify));
    assert_eq!(hr.resolve(&b), Some(HostKind::Notify));
}

#[test]
fn permission_denied_is_inert() {
    let mut engine = engine();
    assert!(engine.on_permission(false).is_empty());
    assert!(engine.begin_timer(1000).is_none());
    assert!(engine.on_hello(1, Some(Hello::v1())).is_empty());
}

#[test]
fn granted_starts_bootstrap_effects() {
    let mut engine = engine();
    let effects = engine.on_permission(true);
    assert!(effects
        .iter()
        .any(|e| matches!(e, Effect::RequestInventory { .. })));
    assert!(effects
        .iter()
        .any(|e| matches!(e, Effect::ReadOverrides { .. })));
    assert!(effects
        .iter()
        .any(|e| matches!(e, Effect::DetectHost { .. })));
}

#[test]
fn second_permission_ignored() {
    let mut engine = engine();
    engine.on_permission(true);
    assert!(engine.on_permission(false).is_empty());
    assert!(engine.permission_is_granted());
}

#[test]
fn config_parses_only_three_keys() {
    let mut map = StringMap::new();
    map.insert("notify".into(), "false".into());
    map.insert("extra".into(), "x".into());
    let cfg = EngineConfig::parse(map);
    assert!(!cfg.notify);
}

#[test]
fn hello_registers_sidebar_and_replies() {
    let mut engine = engine();
    engine.on_permission(true);
    let effects = engine.on_hello(7, Some(Hello::v1()));
    assert_eq!(effects.len(), 1);
    match &effects[0] {
        Effect::SendSnapshot { plugin_id, payload } => {
            assert_eq!(*plugin_id, 7);
            assert_eq!(payload.v, 1);
        }
        _ => panic!("expected snapshot"),
    }
}

#[test]
fn reconcile_due_every_five_seconds() {
    let mut engine = engine();
    engine.on_permission(true);
    engine.on_event_inventory(vec![TerminalCandidate {
        pane_id: 4,
        tab_position: 0,
        tab_name: "t".into(),
        title: "x".into(),
    }]);
    let plan = engine.begin_timer(4_999).unwrap();
    assert!(plan.reconcile_pane_ids.is_empty());
    let plan = engine.begin_timer(1).unwrap();
    assert_eq!(plan.reconcile_pane_ids, vec![4]);
}

#[test]
fn promotion_and_classification_baseline() {
    let mut engine = engine();
    engine.on_permission(true);
    engine.on_event_inventory(vec![TerminalCandidate {
        pane_id: 9,
        tab_position: 0,
        tab_name: "main".into(),
        title: "grok".into(),
    }]);
    engine.on_command_changed(9, &["grok".into()], true);
    assert!(engine.snapshot().agents.iter().any(|a| a.pane_id == 9));
    let plan = engine.begin_timer(1000).unwrap();
    let effects = engine.finish_timer(
        plan,
        observations(
            None,
            vec![(9, Ok(vec!["Do you want to proceed?".into(), "Allow?".into()]))],
        ),
    );
    let _ = effects;
    let snapshot = engine.snapshot();
    let pane = snapshot.agents.iter().find(|a| a.pane_id == 9).unwrap();
    assert_eq!(pane.state, AgentState::Blocked);
}

#[test]
fn inventory_failure_then_success_clears_slot() {
    let mut engine = engine();
    let effects = engine.on_permission(true);
    let ctx = effects
        .iter()
        .find_map(|e| match e {
            Effect::RequestInventory { context, .. } => Some(context),
            _ => None,
        })
        .expect("bootstrap inventory request");
    engine.on_host_result(ctx, Some(1), b"", None, vec![]);
    assert!(has_diagnostic(&engine, DiagnosticSource::Inventory));
    let plan = engine.begin_timer(5_000).unwrap();
    let ctx = plan
        .effects
        .iter()
        .find_map(|e| match e {
            Effect::RequestInventory { context, .. } => Some(context),
            _ => None,
        })
        .expect("retried inventory request");
    engine.on_host_result(ctx, Some(0), b"[]", Some(vec![]), vec![]);
    assert!(!has_diagnostic(&engine, DiagnosticSource::Inventory));
}

#[test]
fn manifest_read_nonzero_exit_empty_stdout_preserves_manifests() {
    let mut engine = engine();
    let effects = engine.on_permission(true);
    let before_names: Vec<String> = engine.manifest_names();
    assert!(!before_names.is_empty());

    let ctx = effects
        .iter()
        .find_map(|e| match e {
            Effect::ReadOverrides { context, .. } => Some(context),
            _ => None,
        })
        .expect("bootstrap manifest-read request");

    engine.on_host_result(ctx, Some(1), b"", None, vec![]);
    let after_names: Vec<String> = engine.manifest_names();
    assert_eq!(before_names, after_names);
    assert!(has_diagnostic(&engine, DiagnosticSource::Manifest));

    let effects = engine.on_reload(Some(Reload::v1()));
    let ctx = effects
        .iter()
        .find_map(|e| match e {
            Effect::ReadOverrides { context, .. } => Some(context),
            _ => None,
        })
        .expect("reload manifest-read request");
    engine.on_host_result(ctx, None, b"", None, vec![]);
    let after_none: Vec<String> = engine.manifest_names();
    assert_eq!(before_names, after_none);
    assert!(has_diagnostic(&engine, DiagnosticSource::Manifest));
}

#[test]
fn pane_update_syncs_tracked_tab_and_sanitized_title() {
    let mut engine = engine();
    engine.on_permission(true);
    engine.on_event_inventory(vec![TerminalCandidate {
        pane_id: 5,
        tab_position: 0,
        tab_name: "main".into(),
        title: "shell".into(),
    }]);
    engine.on_command_changed(5, &["grok".into()], true);
    let snapshot = engine.snapshot();
    assert_eq!(snapshot.agents.iter().find(|a| a.pane_id == 5).unwrap().tab_position, 0);

    engine.on_event_inventory(vec![TerminalCandidate {
        pane_id: 5,
        tab_position: 2,
        tab_name: "work".into(),
        title: "\u{1b}[31mrepo\u{200b}".into(),
    }]);
    let snapshot = engine.snapshot();
    let pane = snapshot.agents.iter().find(|a| a.pane_id == 5).unwrap();
    assert_eq!(pane.tab_position, 2);
    assert_eq!(engine.pane_title(5).as_deref(), Some("repo"));
    assert_eq!(pane.display, "repo");
}

#[test]
fn notification_batch_goes_out_after_the_window() {
    let mut config = StringMap::new();
    config.insert(
        "notify_command".into(),
        r#"["notify-send","--","{title}","{body}"]"#.into(),
    );
    let mut engine = engine_with(config);
    engine.on_permission(true);
    engine.on_command_changed(9, &["grok".into()], true);
    let plan = engine.begin_timer(100).unwrap();
    engine.finish_timer(plan, observations(None, vec![(9, Ok(vec!["ready".into()]))]));
    let plan = engine.begin_timer(100).unwrap();
    engine.finish_timer(plan, observations(None, vec![(9, Ok(vec!["Allow?".into()]))]));
    let plan = engine.begin_timer(2_000).unwrap();
    let effects = engine.finish_timer(plan, observations(None, vec![(9, Ok(vec!["Allow?".into()]))]));
    let argv = effects
        .iter()
        .find_map(|e| match e {
            Effect::Notify { argv, .. } => Some(argv.clone()),
            _ => None,
        })
        .expect("notification");
    assert_eq!(argv, vec!["notify-send", "--", "zj-agents", "pane 9 blocked"]);
}

#[test]
fn ambiguous_commands_are_reported() {
    let a = RawManifest {
        schema: 1,
        name: "a".into(),
        label: "A".into(),
        scan_lines: 40,
        fallback: None,
        detect: RawDetect { process: vec!["tool".into()], argv_any: vec![] },
        rule: vec![RawRule { state: "idle".into(), pattern: "x".into() }],
    };
    let mut b = a.clone();
    b.name = "b".into();
    let set = vec![
        CompiledManifest::parse("b.toml", Some(&b)).unwrap(),
        CompiledManifest::parse("a.toml", Some(&a)).unwrap(),
    ];
    let mut engine = Engine::new(EngineConfig::parse(StringMap::new()), Ok(set), None);
    engine.on_permission(true);
    engine.on_command_changed(3, &["tool".into()], true);
    let snapshot = engine.snapshot();
    assert!(snapshot.agents.is_empty());
    let d = snapshot
        .diagnostics
        .iter()
        .find(|d| d.source == DiagnosticSource::Detection)
        .unwrap();
    assert_eq!(d.message, "ambiguous manifests: a,b");
    assert!(has_diagnostic(&engine, DiagnosticSource::Manifest));
}

#[test]
fn results_for_unknown_requests_are_ignored() {
    let mut engine = engine();
    engine.on_permission(true);
    let mut ctx = StringMap::new();
    ctx.insert("kind".into(), "pane-inventory".into());
    ctx.insert("request_id".into(), "77".into());
    assert!(engine.on_host_result(&ctx, Some(1), b"", None, vec![]).is_empty());
    assert!(!has_diagnostic(&engine, DiagnosticSource::Inventory));
    engine.on_unknown_pipe();
    assert!(has_diagnostic(&engine, DiagnosticSource::Protocol));
    assert!(engine.on_hello(2, Some(Hello { v: 3 })).is_empty());
    assert!(engine.on_hello(2, None).is_empty());
}

#[test]
fn snapshots_are_sent_only_when_something_changed() {
    let mut engine = engine();
    engine.on_permission(true);
    engine.on_hello(7, Some(Hello::v1()));
    let plan = engine.begin_timer(100).unwrap();
    let first = engine.finish_timer(plan, observations(None, vec![]));
    assert!(first.iter().any(|e| matches!(e, Effect::SendSnapshot { plugin_id: 7, .. })));
    let plan = engine.begin_timer(100).unwrap();
    let second = engine.finish_timer(plan, observations(None, vec![]));
    assert!(!second.iter().any(|e| matches!(e, Effect::SendSnapshot { .. })));
}

#[test]
fn host_detection_reads_uname_output() {
    let mut engine = engine();
    let effects = engine.on_permission(true);
    let ctx = effects
        .iter()
        .find_map(|e| match e {
            Effect::DetectHost { context, .. } => Some(context),
            _ => None,
        })
        .expect("host detection");
    engine.on_host_result(ctx, Some(0), b"Plan9\xff\n", None, vec![]);
    assert!(has_diagnostic(&engine, DiagnosticSource::Host));
    let d = engine
        .snapshot()
        .diagnostics
        .into_iter()
        .find(|d| d.source == DiagnosticSource::Host)
        .unwrap();
    assert_eq!(d.message, "unsupported host");
}

#[test]
fn snapshot_text_is_fit_to_show() {
    let mut engine = engine();
    engine.on_permission(true);
    let mut tabs = IdMap::new();
    tabs.insert(0usize, "\u{202e}work\u{7}".to_string());
    engine.on_tab_update(tabs);
    engine.on_event_inventory(vec![TerminalCandidate {
        pane_id: 5,
        tab_position: 0,
        tab_name: "main".into(),
        title: "\u{1b}]0;x\u{7}\u{200b}\u{1b}[1m".into(),
    }]);
    engine.on_command_changed(5, &["grok".into()], true);
    engine.on_cwd_changed(5, "\u{1b}[2J\u{7}".into());
    let snapshot = engine.snapshot();
    let hostile = |s: &str| s.chars().any(|c| c.is_control() || ('\u{200b}'..='\u{200f}').contains(&c) || ('\u{202a}'..='\u{202e}').contains(&c));
    assert_eq!(snapshot.tabs[0].name, "work");
    let pane = snapshot.agents.iter().find(|a| a.pane_id == 5).unwrap();
    assert_eq!(pane.display, "pane 5");
    assert_eq!(pane.agent_label, "Grok CLI");
    for tab in &snapshot.tabs {
        assert!(!hostile(&tab.name));
    }
    for agent in &snapshot.agents {
        assert!(!hostile(&agent.display) && !hostile(&agent.agent_label));
    }
    for d in &snapshot.diagnostics {
        assert!(!hostile(&d.message));
    }
}

#[test]
fn notification_body_names_the_pane_not_its_contents() {
    let mut config = StringMap::new();
    config.insert(
        "notify_command".into(),
        r#"["notify-send","--","{title}","{body}"]"#.into(),
    );
    let mut engine = engine_with(config);
    engine.on_permission(true);
    engine.on_event_inventory(vec![TerminalCandidate {
        pane_id: 9,
        tab_position: 0,
        tab_name: "main".into(),
        title: "\u{1b}[1mwork\u{202e}\u{7}".into(),
    }]);
    engine.on_command_changed(9, &["grok".into()], true);
    let secret = "token=abc123 Allow?";
    let plan = engine.begin_timer(100).unwrap();
    engine.finish_timer(plan, observations(None, vec![(9, Ok(vec!["ready".into()]))]));
    let plan = engine.begin_timer(100).unwrap();
    engine.finish_timer(plan, observations(None, vec![(9, Ok(vec![secret.into()]))]));
    let plan = engine.begin_timer(2_000).unwrap();
    let effects = engine.finish_timer(plan, observations(None, vec![(9, Ok(vec![secret.into()]))]));
    let argv = effects
        .iter()
        .find_map(|e| match e {
            Effect::Notify { argv, .. } => Some(argv.clone()),
            _ => None,
        })
        .expect("notification");
    assert_eq!(argv, vec!["notify-send", "--", "zj-agents", "work blocked"]);
    assert!(!argv.iter().any(|a| a.contains("abc123")));
}
