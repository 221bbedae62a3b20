use zj_agents::model::DiagnosticSource;
use zj_agents::notification::{
    default_notify_argv, parse_host_os, AttentionEvent, AttentionQueue, DiagnosticSlots, HostOs,
    NotifyTemplate, NotifyTemplateError, PendingAttention, NOTIFICATION_TITLE,
};
use zj_agents::protocol::Diagnostic;
use zj_agents::state::AttentionKind;

#[test]
fn diagnostics_are_current_slots_in_protocol_order() {
    let mut slots = DiagnosticSlots::default();
    slots.set(DiagnosticSource::Protocol, "bad message");
    slots.set(DiagnosticSource::Inventory, "list failed");
    slots.set(DiagnosticSource::Protocol, "unsupported v");
    assert_eq!(
        slots.snapshot(),
        vec![
            Diagnostic::new(DiagnosticSource::Inventory, "list failed"),
            Diagnostic::new(DiagnosticSource::Protocol, "unsupported v"),
        ]
    );
    slots.clear(DiagnosticSource::Inventory);
    assert_eq!(slots.snapshot().len(), 1);
}

#[test]
fn macos_default_keeps_untrusted_values_after_double_dash() {
    let argv = default_notify_argv(HostOs::Darwin);
    assert_eq!(argv[7], "--");
    assert_eq!(argv[8], "{title}");
    assert_eq!(argv[9], "{body}");
}

#[test]
fn executable_basename_rejects_shells() {
    assert!(NotifyTemplate::parse(r#"["/bin/sh","--","{title}","{body}"]"#).is_err());
}

#[test]
fn notify_send_escapes_markup_in_the_instantiated_body() {
    for executable in ["notify-send", "/usr/bin/notify-send"] {
        let template =
            NotifyTemplate::parse(&format!(r#"["{executable}","--","{{title}}","{{body}}"]"#))
                .unwrap();
        assert_eq!(
            template.instantiate("repo&<ui> blocked"),
            vec![
                executable.to_owned(),
                "--".to_owned(),
                "zj-agents".to_owned(),
                "repo&amp;&lt;ui&gt; blocked".to_owned(),
            ]
        );
    }
}

#[test]
fn linux_default_argv() {
    assert_eq!(
        default_notify_argv(HostOs::Linux),
        vec!["notify-send", "--", "{title}", "{body}"]
    );
}

#[test]
fn blocked_working_blocked_emits_only_final_generation() {
    let mut q = AttentionQueue::default();
    q.enqueue(PendingAttention {
        pane_id: 1,
        state: AttentionKind::Blocked,
        generation: 1,
        label: "a".into(),
    });
    q.invalidate_if_stale(1, 2, AttentionKind::Done);
    q.enqueue(PendingAttention {
        pane_id: 1,
        state: AttentionKind::Blocked,
        generation: 3,
        label: "a".into(),
    });
    let events = q
        .advance(2_000, |e| e.generation == 3 && e.state == AttentionKind::Blocked)
        .unwrap();
    assert_eq!(events.len(), 1);
    assert_eq!(events[0].generation, 3);
    assert_eq!(AttentionQueue::format_body(&events), "a blocked");
}

#[test]
fn focused_pending_is_dropped_even_if_unfocused_before_deadline() {
    let mut q = AttentionQueue::default();
    q.enqueue(PendingAttention {
        pane_id: 2,
        state: AttentionKind::Done,
        generation: 1,
        label: "b".into(),
    });
    q.on_focused(2);
    let events = q.advance(2_000, |_| true);
    assert!(events.is_none() || events.unwrap().is_empty());
}

#[test]
fn mixed_batch_body() {
    let events = vec![
        AttentionEvent {
            pane_id: 1,
            state: AttentionKind::Blocked,
            generation: 1,
            label: "a".into(),
        },
        AttentionEvent {
            pane_id: 2,
            state: AttentionKind::Done,
            generation: 1,
            label: "b".into(),
        },
    ];
    assert_eq!(
        AttentionQueue::format_body(&events),
        "2 agents need attention"
    );
}

#[test]
fn parse_host_os_exact() {
    assert_eq!(parse_host_os("Linux\n"), Some(HostOs::Linux));
    assert_eq!(parse_host_os("Darwin"), Some(HostOs::Darwin));
    assert_eq!(parse_host_os("Windows"), None);
}

#[test]
fn notify_title_constant() {
    assert_eq!(NOTIFICATION_TITLE, "zj-agents");
}

#[test]
fn template_errors_each_have_an_input() {
    assert_eq!(NotifyTemplate::parse("not json").err(), Some(NotifyTemplateError::InvalidJson));
    assert_eq!(NotifyTemplate::parse("[]").err(), Some(NotifyTemplateError::Empty));
    assert_eq!(
        NotifyTemplate::parse(r#"["notify-send","--","{title}"]"#).err(),
        Some(NotifyTemplateError::MissingPlaceholder)
    );
    assert_eq!(
        NotifyTemplate::parse(r#"["notify-send","--","{title}","{body}","{body}"]"#).err(),
        Some(NotifyTemplateError::RepeatedPlaceholder)
    );
    assert_eq!(
        NotifyTemplate::parse(r#"["notify-send","--","{title}","{body}","x{title}"]"#).err(),
        Some(NotifyTemplateError::PlaceholderNotWholeElement)
    );
    assert_eq!(
        NotifyTemplate::parse(r#"["notify-send","{title}","{body}"]"#).err(),
        Some(NotifyTemplateError::MissingDoubleDash)
    );
    assert_eq!(
        NotifyTemplate::parse(r#"["bash","--","{title}","{body}"]"#).err(),
        Some(NotifyTemplateError::ShellExecutable)
    );
}

#[test]
fn batch_bodies_for_uniform_batches() {
    let blocked = |id: u32| AttentionEvent {
        pane_id: id,
        state: AttentionKind::Blocked,
        generation: 1,
        label: "x".into(),
    };
    let done = |id: u32| AttentionEvent {
        pane_id: id,
        state: AttentionKind::Done,
        generation: 1,
        label: "y".into(),
    };
    assert_eq!(AttentionQueue::format_body(&[blocked(1), blocked(2)]), "2 agents blocked");
    assert_eq!(AttentionQueue::format_body(&[done(1), done(2), done(3)]), "3 agents finished");
    assert_eq!(AttentionQueue::format_body(&[done(4)]), "y finished");
    assert_eq!(AttentionQueue::format_body(&[]), "");
}

#[test]
fn queue_keeps_one_entry_per_pane_and_waits_for_the_window() {
    let mut q = AttentionQueue::new();
    for (pane_id, generation) in [(3u32, 1u64), (1, 1), (3, 2)] {
        q.enqueue(PendingAttention {
            pane_id,
            state: AttentionKind::Done,
            generation,
            label: format!("p{pane_id}"),
        });
    }
    assert!(q.advance(1_999, |_| true).is_none());
    let events = q.advance(1, |_| true).unwrap();
    let ids: Vec<(u32, u64)> = events.iter().map(|e| (e.pane_id, e.generation)).collect();
    assert_eq!(ids, vec![(1, 1), (3, 2)]);
    assert!(q.advance(5_000, |_| true).is_none());
}
