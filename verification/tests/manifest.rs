use zj_agents::manifest::{
    bundled_manifests, classify, classify_outcomes, default_scan_lines, detect, scan_window,
    CompiledManifest, Detection, ManifestError, RawDetect, RawManifest, RawRule,
};
use zj_agents::model::Observation;

fn valid() -> RawManifest {
    RawManifest {
        schema: 1,
        name: "grok".into(),
        label: "Grok CLI".into(),
        scan_lines: 40,
        fallback: Some("idle".into()),
        detect: RawDetect {
            process: vec!["grok".into()],
            argv_any: vec![],
        },
        rule: vec![RawRule {
            state: "blocked".into(),
            pattern: "(?i)permission".into(),
        }],
    }
}

fn tool(name: &str) -> RawManifest {
    RawManifest {
        schema: 1,
        name: name.into(),
        label: name.to_uppercase(),
        scan_lines: default_scan_lines(),
        fallback: None,
        detect: RawDetect {
            process: vec!["tool".into()],
            argv_any: vec![],
        },
        rule: vec![RawRule {
            state: "idle".into(),
            pattern: "x".into(),
        }],
    }
}

#[test]
fn compiles_valid_manifest() {
    let manifest = CompiledManifest::parse("grok.toml", Some(&valid())).unwrap();
    assert_eq!(manifest.name(), "grok");
    assert_eq!(manifest.scan_lines(), 40);
}

#[test]
fn rejects_schema() {
    let mut raw = valid();
    raw.schema = 2;
    assert!(matches!(
        CompiledManifest::parse("grok.toml", Some(&raw)),
        Err(ManifestError::Schema)
    ));
}

#[test]
fn rejects_filename_mismatch() {
    assert!(matches!(
        CompiledManifest::parse("codex.toml", Some(&valid())),
        Err(ManifestError::FilenameMismatch)
    ));
}

#[test]
fn rejects_empty_process() {
    let mut raw = valid();
    raw.detect.process = vec![];
    assert!(matches!(
        CompiledManifest::parse("grok.toml", Some(&raw)),
        Err(ManifestError::Process)
    ));
}

#[test]
fn rejects_scan_lines_out_of_range() {
    let mut raw = valid();
    raw.scan_lines = 0;
    assert!(matches!(
        CompiledManifest::parse("grok.toml", Some(&raw)),
        Err(ManifestError::ScanLines)
    ));
}

#[test]
fn rejects_non_idle_fallback() {
    let mut raw = valid();
    raw.fallback = Some("working".into());
    assert!(matches!(
        CompiledManifest::parse("grok.toml", Some(&raw)),
        Err(ManifestError::Fallback)
    ));
}

#[test]
fn rejects_invalid_rule_state() {
    let mut raw = valid();
    raw.rule[0].state = "done".into();
    assert!(matches!(
        CompiledManifest::parse("grok.toml", Some(&raw)),
        Err(ManifestError::Rules)
    ));
}

#[test]
fn rejects_invalid_regex() {
    let mut raw = valid();
    raw.rule[0].pattern = "(".into();
    assert!(matches!(
        CompiledManifest::parse("grok.toml", Some(&raw)),
        Err(ManifestError::Regex)
    ));
}

#[test]
fn rejects_no_rules() {
    let raw = RawManifest {
        schema: 1,
        name: "grok".into(),
        label: "Grok CLI".into(),
        scan_lines: 40,
        fallback: None,
        detect: RawDetect {
            process: vec!["grok".into()],
            argv_any: vec![],
        },
        rule: vec![],
    };
    assert!(matches!(
        CompiledManifest::parse("grok.toml", Some(&raw)),
        Err(ManifestError::Rules)
    ));
}

#[test]
fn detection_ambiguous_when_two_match() {
    let a = CompiledManifest::parse("a.toml", Some(&tool("a"))).unwrap();
    let b = CompiledManifest::parse("b.toml", Some(&tool("b"))).unwrap();
    let manifests = vec![a, b];
    match detect(&manifests, &["tool".into()]) {
        Detection::Ambiguous(names) => assert_eq!(names, vec!["a", "b"]),
        Detection::NoMatch | Detection::One(_) => panic!("expected ambiguous"),
    }
}

#[test]
fn classify_first_rule_wins() {
    let m = CompiledManifest::parse("grok.toml", Some(&valid())).unwrap();
    let c = classify(&m, &["need permission please".into()]);
    assert_eq!(c.observation, Observation::Blocked);
    assert!(!c.fallback_used);
}

#[test]
fn classify_uses_fallback() {
    let m = CompiledManifest::parse("grok.toml", Some(&valid())).unwrap();
    let c = classify(&m, &["nothing special".into()]);
    assert_eq!(c.observation, Observation::Idle);
    assert!(c.fallback_used);
}

#[test]
fn argv_any_filters() {
    let raw = RawManifest {
        schema: 1,
        name: "x".into(),
        label: "X".into(),
        scan_lines: default_scan_lines(),
        fallback: None,
        detect: RawDetect {
            process: vec!["node".into()],
            argv_any: vec!["codex".into()],
        },
        rule: vec![RawRule {
            state: "idle".into(),
            pattern: "z".into(),
        }],
    };
    let m = CompiledManifest::parse("x.toml", Some(&raw)).unwrap();
    assert!(!m.matches_argv(&["node".into(), "other".into()]));
    assert!(m.matches_argv(&["node".into(), "codex".into()]));
}

#[test]
fn unreadable_document_and_bad_names_are_refused() {
    assert!(matches!(CompiledManifest::parse("grok.toml", None), Err(ManifestError::Parse)));
    let mut raw = valid();
    raw.name = "Grok".into();
    assert!(matches!(
        CompiledManifest::parse("Grok.toml", Some(&raw)),
        Err(ManifestError::Name)
    ));
    let mut raw = valid();
    raw.label = "  ".into();
    assert!(matches!(
        CompiledManifest::parse("grok.toml", Some(&raw)),
        Err(ManifestError::Label)
    ));
    let mut raw = valid();
    raw.detect.process = vec!["grok".into(), " ".into()];
    assert!(matches!(
        CompiledManifest::parse("grok.toml", Some(&raw)),
        Err(ManifestError::Process)
    ));
    assert!(matches!(
        CompiledManifest::parse("/", Some(&valid())),
        Err(ManifestError::FilenameMismatch)
    ));
    assert_eq!(ManifestError::ScanLines.message(), "manifest error: scan_lines");
    assert_eq!(ManifestError::FilenameMismatch.category(), "filename");
}

#[test]
fn classification_scans_only_the_last_lines() {
    let mut raw = valid();
    raw.scan_lines = 1;
    raw.fallback = None;
    let m = CompiledManifest::parse("grok.toml", Some(&raw)).unwrap();
    let c = classify(&m, &["permission?".into(), "ok".into()]);
    assert_eq!(c.observation, Observation::Unknown);
    assert!(!c.fallback_used);
    let c = classify(&m, &["ok".into(), "Permission?".into()]);
    assert_eq!(c.observation, Observation::Blocked);
}

#[test]
fn detection_by_executable_basename() {
    let m = CompiledManifest::parse("grok.toml", Some(&valid())).unwrap();
    let manifests = vec![m];
    assert!(matches!(detect(&manifests, &["/usr/local/bin/grok".into()]), Detection::One(x) if x.name() == "grok"));
    assert!(matches!(detect(&manifests, &["bash".into()]), Detection::NoMatch));
    assert!(matches!(detect(&manifests, &[]), Detection::NoMatch));
}

#[test]
fn bundled_set_fails_on_the_first_bad_document() {
    let ok = bundled_manifests(&[
        ("a.toml".to_string(), Some(tool("a"))),
        ("b.toml".to_string(), Some(tool("b"))),
    ])
    .unwrap();
    assert_eq!(ok.len(), 2);
    let err = bundled_manifests(&[
        ("a.toml".to_string(), Some(tool("a"))),
        ("c.toml".to_string(), None),
    ])
    .unwrap_err();
    assert_eq!(err.message, "bundled c.toml: manifest error: parse");
}

fn two_rules(fallback: Option<&str>) -> CompiledManifest {
    let raw = RawManifest {
        schema: 1,
        name: "t".into(),
        label: "T".into(),
        scan_lines: 2,
        fallback: fallback.map(|f| f.to_string()),
        detect: RawDetect {
            process: vec!["t".into()],
            argv_any: vec![],
        },
        rule: vec![
            RawRule {
                state: "blocked".into(),
                pattern: "allow\\?".into(),
            },
            RawRule {
                state: "working".into(),
                pattern: "esc to interrupt".into(),
            },
        ],
    };
    CompiledManifest::parse("t.toml", Some(&raw)).unwrap()
}

#[test]
fn scan_window_joins_the_last_lines() {
    let m = two_rules(None);
    let lines: Vec<String> = vec!["one".into(), "two".into(), "three".into()];
    assert_eq!(scan_window(&m, &lines), "two\nthree");
    assert_eq!(scan_window(&m, &lines[..1]), "one");
    assert_eq!(scan_window(&m, &[]), "");
}

#[test]
fn outcomes_pick_the_first_matching_rule() {
    let m = two_rules(Some("idle"));
    let c = classify_outcomes(&m, &[false, true]);
    assert_eq!((c.observation, c.fallback_used), (Observation::Working, false));
    let c = classify_outcomes(&m, &[true]);
    assert_eq!((c.observation, c.fallback_used), (Observation::Blocked, false));
    let c = classify_outcomes(&m, &[false, false]);
    assert_eq!((c.observation, c.fallback_used), (Observation::Idle, true));
    let m = two_rules(None);
    let c = classify_outcomes(&m, &[]);
    assert_eq!((c.observation, c.fallback_used), (Observation::Unknown, false));
}

#[test]
fn only_the_scanned_lines_are_matched() {
    let m = two_rules(None);
    let lines: Vec<String> = vec!["allow?".into(), "x".into(), "esc to interrupt".into()];
    let c = classify(&m, &lines);
    assert_eq!(c.observation, Observation::Working);
    let lines: Vec<String> = vec!["x".into(), "allow?".into(), "esc to interrupt".into()];
    assert_eq!(classify(&m, &lines).observation, Observation::Blocked);
}
