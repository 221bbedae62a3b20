use zj_agents::manifest::{CompiledManifest, ManifestError, RawDetect, RawManifest, RawRule};
use zj_agents::overrides::{
    adopt_overrides, parse_manifest_frame, resolve_manifest_dir, FrameError, ManifestRecord,
    ReloadController,
};

#[test]
fn parses_zero_and_multiple_records() {
    assert!(parse_manifest_frame(b"").unwrap().is_empty());
    let body = b"hello = 1\n";
    let mut bytes = Vec::new();
    bytes.extend_from_slice(b"10\0");
    bytes.extend_from_slice(format!("{}\0", body.len()).as_bytes());
    bytes.extend_from_slice(b"hello.toml");
    bytes.extend_from_slice(body);
    let records = parse_manifest_frame(&bytes).unwrap();
    assert_eq!(records.len(), 1);
    assert_eq!(records[0].0, "hello.toml");
    assert_eq!(records[0].1, body);
}

#[test]
fn embedded_newlines_and_markers_ok() {
    let content = b"x = \"a\\n---\\n\"";
    let name = b"a.toml";
    let mut bytes = Vec::new();
    bytes.extend_from_slice(format!("{}\0", name.len()).as_bytes());
    bytes.extend_from_slice(format!("{}\0", content.len()).as_bytes());
    bytes.extend_from_slice(name);
    bytes.extend_from_slice(content);
    let records = parse_manifest_frame(&bytes).unwrap();
    assert_eq!(records[0].1, content);
}

#[test]
fn truncation_fails() {
    assert_eq!(parse_manifest_frame(b"5\0"), Err(FrameError::Truncated));
}

#[test]
fn reload_controller_pending_followup() {
    let mut c = ReloadController::default();
    assert!(c.request_start());
    assert!(!c.request_start());
    assert!(c.complete());
    assert!(!c.complete());
}

#[test]
fn resolve_dir_rules() {
    let home = Some("/home/u");
    assert_eq!(
        resolve_manifest_dir(None, home).unwrap(),
        "/home/u/.config/zellij/zj-agents/agent-detection"
    );
    assert_eq!(resolve_manifest_dir(Some("~/x"), home).unwrap(), "/home/u/x");
    assert_eq!(resolve_manifest_dir(Some("/abs"), home).unwrap(), "/abs");
    assert!(resolve_manifest_dir(Some("rel"), home).is_err());
}

#[test]
fn frame_errors_each_have_an_input() {
    assert_eq!(parse_manifest_frame(b"x\0"), Err(FrameError::InvalidLength));
    assert_eq!(parse_manifest_frame(b"1\0"), Err(FrameError::Truncated));
    assert_eq!(parse_manifest_frame(b"1\x000\0a!"), Err(FrameError::InvalidLength));
    assert_eq!(parse_manifest_frame(b"1\x000\0\xff"), Err(FrameError::NonUtf8Name));
    assert_eq!(
        parse_manifest_frame(b"1\x000\0a1\x000\0a"),
        Err(FrameError::DuplicateName)
    );
    assert!(resolve_manifest_dir(None, None).is_err());
    assert!(resolve_manifest_dir(Some("~/x"), None).is_err());
    assert_eq!(resolve_manifest_dir(Some(""), Some("/h")).unwrap(), "/h/.config/zellij/zj-agents/agent-detection");
}

fn doc(name: &str, label: &str) -> RawManifest {
    RawManifest {
        schema: 1,
        name: name.into(),
        label: label.into(),
        scan_lines: 40,
        fallback: None,
        detect: RawDetect {
            process: vec![name.into()],
            argv_any: vec![],
        },
        rule: vec![RawRule {
            state: "working".into(),
            pattern: "busy".into(),
        }],
    }
}

#[test]
fn overrides_replace_by_name_or_join() {
    let bundled: Vec<CompiledManifest> = vec![
        CompiledManifest::parse("a.toml", Some(&doc("a", "A"))).unwrap(),
        CompiledManifest::parse("b.toml", Some(&doc("b", "B"))).unwrap(),
    ];
    let records = vec![
        ManifestRecord {
            file_name: "b.toml".into(),
            content: b"...".to_vec(),
            document: Some(doc("b", "B2")),
        },
        ManifestRecord {
            file_name: "c.toml".into(),
            content: b"...".to_vec(),
            document: Some(doc("c", "C")),
        },
    ];
    let set = adopt_overrides(&Ok(bundled), &records).unwrap();
    let labels: Vec<&str> = set.iter().map(|m| m.label()).collect();
    assert_eq!(labels, vec!["A", "B2", "C"]);
    let bad = vec![ManifestRecord {
        file_name: "d.toml".into(),
        content: vec![0xff, 0xfe],
        document: Some(doc("d", "D")),
    }];
    assert!(matches!(adopt_overrides(&Ok(vec![]), &bad), Err(ManifestError::Parse)));
}

fn framed(records: &[(&str, &[u8])]) -> Vec<u8> {
    let mut out = Vec::new();
    for (name, content) in records {
        out.extend_from_slice(name.len().to_string().as_bytes());
        out.push(0);
        out.extend_from_slice(content.len().to_string().as_bytes());
        out.push(0);
        out.extend_from_slice(name.as_bytes());
        out.extend_from_slice(content);
    }
    out
}

#[test]
fn framed_records_read_back() {
    let records: Vec<(&str, &[u8])> = vec![
        ("a.toml", b"x = 1\n"),
        ("é.toml", b""),
        ("long.toml", &[0u8, 10, 255, 0]),
    ];
    let parsed = parse_manifest_frame(&framed(&records)).unwrap();
    let expected: Vec<(String, Vec<u8>)> =
        records.iter().map(|(n, c)| (n.to_string(), c.to_vec())).collect();
    assert_eq!(parsed, expected);
    let dup: Vec<(&str, &[u8])> = vec![("a.toml", b"1"), ("b.toml", b"2"), ("a.toml", b"3")];
    assert_eq!(parse_manifest_frame(&framed(&dup)), Err(FrameError::DuplicateName));
    assert_eq!(parse_manifest_frame(&framed(&[])).unwrap(), vec![]);
}
