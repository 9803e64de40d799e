use architectural_drift_detector::cache::CacheUpdateResult;
use architectural_drift_detector::config::{ArchitectureConfig, LayerDefinition, LayerMap};
use architectural_drift_detector::lsp::{
    analyze_document, changed_text, close_document, document_target, failure_message,
    publications_of, violations_to_diagnostics, DiagnosticSeverity, DiagnosticTag,
};
use architectural_drift_detector::{
    AddError, ArchitectureCache, Validator, Violation, ViolationSeverity,
};

fn violation(line: usize, column: usize, severity: ViolationSeverity) -> Violation {
    Violation {
        rule: "test-rule".into(),
        file: "src/ui/App.tsx".into(),
        line,
        column,
        import_path: "../data/repo".into(),
        message: "not allowed".into(),
        remediation: vec!["fix it".into()],
        severity,
    }
}

fn strict_cache() -> ArchitectureCache {
    let layer = |pattern: &str, allowed: Option<Vec<String>>| LayerDefinition {
        path_patterns: vec![pattern.into()],
        allowed_dependencies: allowed,
        enforce_interface_boundary: false,
        interface_port_layer: None,
        port_path_patterns: vec![],
    };
    let config = ArchitectureConfig {
        layers: LayerMap::from_entries(vec![
            ("ui".into(), layer("**/ui/**", Some(vec![]))),
            ("data".into(), layer("**/data/**", None)),
        ]),
        rules: vec![],
    };
    ArchitectureCache::new(Validator::new(config.compile().expect("compile")))
}

#[test]
fn maps_violation_positions_to_zero_based_lsp() {
    let diagnostics = violations_to_diagnostics(
        "file:///test.ts",
        &[Violation {
            rule: "test-rule".into(),
            file: "src/ui/App.tsx".into(),
            line: 3,
            column: 5,
            import_path: "../data/repo".into(),
            message: "not allowed".into(),
            remediation: vec!["fix it".into()],
            severity: ViolationSeverity::Normal,
        }],
    );

    assert_eq!(diagnostics[0].range.start.line, 2);
    assert_eq!(diagnostics[0].range.start.character, 4);
    assert_eq!(diagnostics[0].severity, Some(DiagnosticSeverity::Warning));
}

#[test]
fn maps_high_severity_to_error() {
    let diagnostics = violations_to_diagnostics(
        "file:///test.ts",
        &[Violation {
            rule: "interface-bypass-violation".into(),
            file: "src/ui/App.tsx".into(),
            line: 1,
            column: 1,
            import_path: "../data/repo".into(),
            message: "bypass".into(),
            remediation: vec![],
            severity: ViolationSeverity::High,
        }],
    );

    assert_eq!(diagnostics[0].severity, Some(DiagnosticSeverity::Error));
}

#[test]
fn diagnostics_say_what_the_violation_says() {
    let mut high = violation(0, 0, ViolationSeverity::High);
    high.remediation = vec!["first".into(), "second".into()];
    let diagnostics =
        violations_to_diagnostics("file:///a.ts", &[violation(7, 2, ViolationSeverity::Normal), high]);
    assert_eq!(diagnostics.len(), 2);

    let warning = &diagnostics[0];
    assert_eq!(warning.message, "not allowed (import `../data/repo`)");
    assert_eq!(warning.code.as_deref(), Some("test-rule"));
    assert_eq!(warning.source.as_deref(), Some("architectural-drift-detector"));
    assert!(warning.tags.is_none());
    assert_eq!(warning.range.start, warning.range.end);

    let error = &diagnostics[1];
    assert_eq!((error.range.start.line, error.range.start.character), (0, 0));
    assert_eq!(error.tags.as_deref(), Some([DiagnosticTag::Unnecessary].as_slice()));
    let notes = error.related_information.as_ref().expect("notes");
    let texts: Vec<&str> = notes.iter().map(|note| note.message.as_str()).collect();
    assert_eq!(texts, ["1. first", "2. second"]);
    assert_eq!(notes[0].location.uri, "file:///a.ts");
    assert_eq!(notes[1].location.range, error.range);
}

#[test]
fn no_steps_give_no_notes() {
    let mut plain = violation(1, 1, ViolationSeverity::Normal);
    plain.remediation.clear();
    let diagnostics = violations_to_diagnostics("file:///a.ts", &[plain]);
    assert!(diagnostics[0].related_information.is_none());
    assert!(violations_to_diagnostics("file:///a.ts", &[]).is_empty());
}

#[test]
fn positions_beyond_32_bits_wrap() {
    let far = violation(0x1_0000_0003, 0x1_0000_0000, ViolationSeverity::Normal);
    let diagnostics = violations_to_diagnostics("file:///a.ts", &[far]);
    assert_eq!(diagnostics[0].range.start.line, 2);
    assert_eq!(diagnostics[0].range.start.character, u32::MAX);
}

#[test]
fn only_typescript_files_are_analyzed() {
    assert_eq!(document_target("file:///src/a%20b.ts").as_deref(), Some("/src/a b.ts"));
    assert_eq!(document_target("file:///src/App.TSX").as_deref(), Some("/src/App.TSX"));
    assert_eq!(document_target("file:///src/a.js"), None);
    assert_eq!(document_target("file:///src/ts"), None);
    assert_eq!(document_target("untitled:Untitled-1"), None);
    assert_eq!(document_target("https://example.com/a.ts"), None);
    assert_eq!(document_target("not a url"), None);
}

#[test]
fn the_last_change_is_the_text() {
    assert_eq!(changed_text(vec!["a".into(), "b".into()]), "b");
    assert_eq!(changed_text(vec![]), "");
}

#[test]
fn only_files_with_urls_are_published() {
    let update = CacheUpdateResult {
        diagnostics: vec![
            ("src/relative.ts".into(), vec![violation(1, 1, ViolationSeverity::Normal)]),
            ("/src/with space.ts".into(), vec![violation(2, 1, ViolationSeverity::High)]),
            ("/src/clean.ts".into(), vec![]),
        ],
        files_reparsed: 1,
        files_revalidated: 3,
    };
    let published = publications_of(&update);
    let uris: Vec<&str> = published.iter().map(|entry| entry.uri.as_str()).collect();
    assert_eq!(uris, ["file:///src/with%20space.ts", "file:///src/clean.ts"]);
    assert_eq!(published[0].diagnostics.len(), 1);
    assert_eq!(
        published[0].diagnostics[0].related_information.as_ref().expect("notes")[0].location.uri,
        "file:///src/with%20space.ts"
    );
    assert!(published[1].diagnostics.is_empty());
}

#[test]
fn an_analysis_publishes_the_file_and_its_dependents() {
    let mut cache = strict_cache();
    let first =
        analyze_document(&mut cache, "/app/ui/Home.ts", "import '../data/db';").expect("ui");
    assert_eq!(first.len(), 1);
    assert_eq!(first[0].uri, "file:///app/ui/Home.ts");
    assert_eq!(first[0].diagnostics[0].code.as_deref(), Some("layer-allowlist"));

    let second =
        analyze_document(&mut cache, "/app/data/db.ts", "export const db = 1;").expect("data");
    let uris: Vec<&str> = second.iter().map(|entry| entry.uri.as_str()).collect();
    assert_eq!(uris, ["file:///app/data/db.ts", "file:///app/ui/Home.ts"]);
    assert!(second[0].diagnostics.is_empty());
    assert_eq!(second[1].diagnostics[0].code.as_deref(), Some("layer-allowlist"));
}

#[test]
fn closed_documents_are_forgotten_until_they_come_back() {
    let mut cache = strict_cache();
    analyze_document(&mut cache, "/app/ui/Home.ts", "import '../data/db.ts';").expect("ui");
    analyze_document(&mut cache, "/app/data/db.ts", "").expect("data");
    close_document(&mut cache, "https://example.com/a.ts");
    assert_eq!(cache.layout_count(), 2);
    close_document(&mut cache, "file:///app/data/db.ts");
    assert_eq!(cache.layout_count(), 1);
    let again = analyze_document(&mut cache, "/app/data/db.ts", "").expect("data");
    assert_eq!(again.len(), 2);
}

#[test]
fn failures_are_told() {
    let failure = AddError::InvalidUtf8 { offset: 12 };
    assert_eq!(
        failure_message(&failure),
        "analysis failed: invalid UTF-8 in source at byte offset 12"
    );
}
