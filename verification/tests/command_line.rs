use architectural_drift_detector::ast_engine::AstExtractor;
use architectural_drift_detector::cli::{
    collect_source_files, exit_code, layout_of, render_terminal_report, required_target,
    SourceEngines,
};
use architectural_drift_detector::path::{
    has_file_name, is_rooted, is_supported_source, is_tsx_path, normalize_path_components, path_extension, path_identity,
};
use architectural_drift_detector::{AddError, ValidationReport, Violation, ViolationSeverity};

fn violation(rule: &str, steps: &[&str]) -> Violation {
    Violation {
        rule: rule.into(),
        file: "src/ui/Home.tsx".into(),
        line: 3,
        column: 14,
        import_path: "../data/db".into(),
        message: "No.".into(),
        remediation: steps.iter().map(|step| step.to_string()).collect(),
        severity: ViolationSeverity::Normal,
    }
}

#[test]
fn terminal_reports_list_every_violation() {
    let report = ValidationReport {
        violations: vec![violation("first", &["Do this.", "Or that."]), violation("second", &[])],
        files_checked: 2,
        rules_evaluated: 1,
        allowlist_layers_evaluated: 0,
    };
    assert_eq!(
        render_terminal_report(&report),
        "Architectural Drift Detector — 2 file(s), 1 explicit rule(s), 0 allowlist layer(s)\n\
         \n2 violation(s) found:\n\n\
         1. [first] src/ui/Home.tsx\n   at 3:14 — import `../data/db`\n   No.\n   remediation:\n     - Do this.\n     - Or that.\n\n\
         2. [second] src/ui/Home.tsx\n   at 3:14 — import `../data/db`\n   No.\n\n"
    );
}

#[test]
fn terminal_reports_say_when_all_is_well() {
    let report = ValidationReport { files_checked: 12, ..Default::default() };
    assert_eq!(
        render_terminal_report(&report),
        "Architectural Drift Detector — 12 file(s), 0 explicit rule(s), 0 allowlist layer(s)\n\
         No architectural violations detected.\n"
    );
}

#[test]
fn violations_fail_the_run_unless_told_otherwise() {
    let clean = ValidationReport::default();
    let broken =
        ValidationReport { violations: vec![violation("r", &[])], ..ValidationReport::default() };
    assert_eq!(exit_code(&clean, false), 0);
    assert_eq!(exit_code(&clean, true), 0);
    assert_eq!(exit_code(&broken, false), 1);
    assert_eq!(exit_code(&broken, true), 0);
}

#[test]
fn a_target_must_be_given() {
    assert_eq!(required_target(Some("src".into())).expect("target"), "src");
    let error = required_target(None).expect_err("missing");
    assert_eq!(error.message(), "target path does not exist: `<missing target>`");
}

#[test]
fn sources_are_selected_by_extension() {
    let found = ["a.ts", "b.js", "c/d.TSX", "e.d.ts", "ts", ".ts"];
    let found: Vec<String> = found.iter().map(|name| name.to_string()).collect();
    assert_eq!(
        collect_source_files("src", true, found.clone()).expect("files"),
        ["a.ts", "c/d.TSX", "e.d.ts"]
    );
    match collect_source_files("src", false, found) {
        Err(AddError::TargetNotFound(target)) => assert_eq!(target, "src"),
        other => panic!("unexpected: {other:?}"),
    }
    match collect_source_files("docs", true, vec!["x.md".into()]) {
        Err(AddError::NoSourceFiles(target)) => assert_eq!(target, "docs"),
        other => panic!("unexpected: {other:?}"),
    }
}

#[test]
fn engines_are_chosen_by_extension() {
    let mut engines = SourceEngines::new().expect("engines");
    let tsx = engines.extract_file("A.tsx", "import x from './x'; let y = <b>z</b>;").expect("tsx");
    assert_eq!(tsx.imports.len(), 1);
    let ts = engines.extract_file("a.ts", "let y = <any>z; import('./x');").expect("ts");
    assert_eq!(ts.imports[0].path, "./x");
    assert_eq!(ts.file_path, "a.ts");
}

#[test]
fn layouts_come_in_the_order_of_the_files() {
    let mut engines = SourceEngines::new().expect("engines");
    let files = vec![
        ("b.tsx".to_owned(), "import './x'; let y = <b>z</b>;".to_owned()),
        ("a.ts".to_owned(), "".to_owned()),
        ("b.tsx".to_owned(), "import './x'; import './y';".to_owned()),
    ];
    let layout = layout_of(&mut engines, files).expect("layout");
    let seen: Vec<_> =
        layout.files.iter().map(|file| (file.file_path.as_str(), file.imports.len())).collect();
    assert_eq!(seen, [("b.tsx", 1), ("a.ts", 0), ("b.tsx", 2)]);
    assert!(layout_of(&mut engines, vec![]).expect("layout").files.is_empty());
}

#[test]
fn extensions_are_those_of_file_names() {
    assert_eq!(path_extension("a/b.ts").as_deref(), Some("ts"));
    assert_eq!(path_extension("a.b/c"), None);
    assert_eq!(path_extension(".ts"), None);
    assert_eq!(path_extension("a."), Some(String::new()));
    assert_eq!(path_extension("a.ts/.."), None);
    assert_eq!(path_extension("a.ts/."), Some("ts".to_owned()));
    assert_eq!(path_extension("x/..foo"), Some("foo".to_owned()));
    assert!(is_tsx_path("A.TsX") && !is_tsx_path("a.ts"));
    assert!(is_supported_source("a.TS") && is_supported_source("a.tsx"));
    assert!(!is_supported_source("a.mts") && !is_supported_source("a"));
}

#[test]
fn roots_and_names_are_told() {
    assert!(is_rooted("/a") && is_rooted("/") && !is_rooted("a/") && !is_rooted(""));
    assert!(has_file_name("a/b") && has_file_name("/a/") && has_file_name("a/."));
    assert!(!has_file_name("") && !has_file_name("/") && !has_file_name("a/.."));
}

#[test]
fn paths_have_one_spelling() {
    assert_eq!(path_identity("a//b/./c/"), "a/b/c");
    assert_eq!(path_identity("./a"), "./a");
    assert_eq!(path_identity("."), ".");
    assert_eq!(path_identity("/a//b"), "/a/b");
    assert_eq!(path_identity("//"), "/");
    assert_eq!(path_identity("a/../b"), "a/../b");
    assert_eq!(path_identity(""), "");
    assert_eq!(normalize_path_components("/a/../b/./c"), "b/c");
}

#[test]
fn errors_tell_what_went_wrong() {
    let path = || "src/a.ts".to_owned();
    let source = || "denied".to_owned();
    let told = [
        (AddError::IoRead { path: path(), source: source() }, "failed to read file `src/a.ts`: denied"),
        (
            AddError::ConfigRead { path: path(), source: source() },
            "failed to read configuration `src/a.ts`: denied",
        ),
        (
            AddError::ConfigParse(source()),
            "failed to parse architecture configuration: denied",
        ),
        (AddError::LanguageSetup(source()), "tree-sitter language setup failed: denied"),
        (AddError::ParseFailed { path: path() }, "tree-sitter parse failed for `src/a.ts`"),
        (AddError::QueryCompile(source()), "invalid tree-sitter query: denied"),
        (
            AddError::InvalidUtf8 { offset: 1024 },
            "invalid UTF-8 in source at byte offset 1024",
        ),
        (AddError::TargetNotFound(path()), "target path does not exist: `src/a.ts`"),
        (AddError::NoSourceFiles(path()), "no TypeScript source files found under `src/a.ts`"),
        (
            AddError::ReportWrite { path: path(), source: source() },
            "failed to write report `src/a.ts`: denied",
        ),
        (AddError::ReportRender(source()), "failed to render report: denied"),
    ];
    for (error, message) in told {
        assert_eq!(error.message(), message);
    }
}
