use std::sync::Arc;

use architectural_drift_detector::ast_engine::{FileLayout, ImportRef, StructuralLayout};
use architectural_drift_detector::config::{
    ArchitecturalRule, ArchitectureConfig, LayerDefinition, LayerMap,
};
use architectural_drift_detector::{
    normalize_path, resolve_import_path, CompiledArchitectureConfig, ValidationReport, Validator,
    ViolationSeverity, INTERFACE_BYPASS_RULE, LAYER_ALLOWLIST_RULE,
};

fn texts(items: &[&str]) -> Vec<String> {
    items.iter().map(|item| item.to_string()).collect()
}

fn layer(
    path_patterns: &[&str],
    allowed: Option<&[&str]>,
    port_layer: Option<&str>,
    ports: &[&str],
) -> LayerDefinition {
    LayerDefinition {
        path_patterns: texts(path_patterns),
        allowed_dependencies: allowed.map(texts),
        enforce_interface_boundary: port_layer.is_some(),
        interface_port_layer: port_layer.map(str::to_string),
        port_path_patterns: texts(ports),
    }
}

fn sample_config() -> CompiledArchitectureConfig {
    let config = ArchitectureConfig {
        layers: LayerMap::from_entries(vec![
            (
                "presentation".to_owned(),
                layer(&["**/presentation/**", "**/ui/**"], Some(&["domain"]), Some("domain"), &[]),
            ),
            (
                "domain".to_owned(),
                layer(
                    &["**/domain/**"],
                    None,
                    None,
                    &["**/domain/ports/**", "**/domain/interfaces/**"],
                ),
            ),
            (
                "infrastructure".to_owned(),
                layer(&["**/data/**", "**/infrastructure/**"], None, None, &[]),
            ),
        ]),
        rules: vec![ArchitecturalRule {
            name: "no-presentation-to-infrastructure".into(),
            description: None,
            source_layers: texts(&["presentation"]),
            forbidden_import_patterns: texts(&["**/data/**", "**/infrastructure/**"]),
            message: "Presentation/UI layers cannot import infrastructure paths.".into(),
            remediation: texts(&["Use a domain-facing port instead."]),
        }],
    };

    config.compile().expect("compile")
}

fn home_page(import: &str, line: usize) -> StructuralLayout {
    StructuralLayout {
        files: vec![FileLayout {
            file_path: "src/ui/HomePage.tsx".into(),
            imports: vec![ImportRef { path: import.into(), line, column: 1 }],
        }],
    }
}

fn validate(layout: &StructuralLayout) -> ValidationReport {
    Validator::new(sample_config()).validate_layout(layout).expect("validate")
}

#[test]
fn flags_forbidden_import_from_ui_layer() {
    let report = validate(&home_page("../data/infrastructure/UserRepo", 3));
    assert!(report.violations.iter().any(|v| v.rule == "no-presentation-to-infrastructure"));
}

#[test]
fn flags_disallowed_layer_dependency_via_allowlist() {
    let report = validate(&home_page("../infrastructure/cache", 2));
    assert!(report.violations.iter().any(|v| v.rule == LAYER_ALLOWLIST_RULE));
}

#[test]
fn allows_import_targeting_permitted_layer() {
    let report = validate(&home_page("../domain/ports/IUserRepository", 2));
    assert!(report.violations.is_empty());
}

#[test]
fn flags_interface_bypass_for_concrete_repository() {
    let report = validate(&home_page("../domain/repositories/UserRepository", 2));
    let bypass = report
        .violations
        .iter()
        .find(|v| v.rule == INTERFACE_BYPASS_RULE)
        .expect("interface bypass");
    assert!(bypass.is_high_severity());
}

#[test]
fn resolves_relative_import_paths() {
    let resolved =
        resolve_import_path("src/ui/Home.tsx", "../domain/models/User").expect("resolved");
    assert_eq!(resolved, "src/domain/models/User");
}

#[test]
fn violations_come_rule_by_rule_with_their_texts() {
    let report = validate(&home_page("../infrastructure/cache", 2));
    let rules: Vec<&str> = report.violations.iter().map(|v| v.rule.as_str()).collect();
    assert_eq!(
        rules,
        ["no-presentation-to-infrastructure", LAYER_ALLOWLIST_RULE, INTERFACE_BYPASS_RULE]
    );

    let forbidden = &report.violations[0];
    assert_eq!(forbidden.file, "src/ui/HomePage.tsx");
    assert_eq!((forbidden.line, forbidden.column), (2, 1));
    assert_eq!(forbidden.import_path, "../infrastructure/cache");
    assert_eq!(forbidden.message, "Presentation/UI layers cannot import infrastructure paths.");
    assert_eq!(forbidden.remediation, ["Use a domain-facing port instead."]);
    assert_eq!(forbidden.severity, ViolationSeverity::Normal);

    let allowlist = &report.violations[1];
    assert_eq!(
        allowlist.message,
        "Layer `presentation` may only depend on [domain], but import resolves to layer `infrastructure`."
    );
    assert_eq!(
        allowlist.remediation,
        [
            "Remove the dependency on `infrastructure` or add it to `presentation.allowed_dependencies`.",
            "Move shared contracts to an allowed layer.",
        ]
    );
    assert_eq!(allowlist.severity, ViolationSeverity::Normal);

    let bypass = &report.violations[2];
    assert_eq!(
        bypass.message,
        "Layer `presentation` must depend on `domain` ports/interfaces, not concrete implementations (`../infrastructure/cache`)."
    );
    assert_eq!(
        bypass.remediation,
        [
            "Import from `domain` port modules (e.g. `domain/ports/*` or `domain/interfaces/*`).",
            "Inject concrete implementations at the composition root.",
            "Replace direct Repository/Adapter imports with their interface definitions.",
        ]
    );
    assert_eq!(bypass.severity, ViolationSeverity::High);

    assert_eq!(report.files_checked, 1);
    assert_eq!(report.rules_evaluated, 1);
    assert_eq!(report.allowlist_layers_evaluated, 1);
}

#[test]
fn packages_and_imports_inside_the_layer_are_not_flagged() {
    assert!(validate(&home_page("react", 1)).violations.is_empty());
    assert!(validate(&home_page("./Button", 1)).violations.is_empty());
    assert!(validate(&home_page("../presentation/data/table", 1)).violations.len() == 1);
}

#[test]
fn plain_domain_modules_are_allowed_but_not_concrete_ones() {
    assert!(validate(&home_page("../domain/models/User", 1)).violations.is_empty());
    let report = validate(&home_page("../domain/UserRepository", 1));
    assert_eq!(report.violations.len(), 1);
    assert_eq!(report.violations[0].rule, INTERFACE_BYPASS_RULE);
}

#[test]
fn a_leading_dot_changes_only_the_file_named() {
    let plain = home_page("../infrastructure/cache", 2);
    let mut dotted = plain.clone();
    dotted.files[0].file_path = "./src/ui/HomePage.tsx".into();
    let expected = validate(&plain).violations;
    let mut found = validate(&dotted).violations;
    assert_eq!(found.len(), 3);
    for violation in &mut found {
        assert_eq!(violation.file, "./src/ui/HomePage.tsx");
        violation.file = "src/ui/HomePage.tsx".into();
    }
    assert_eq!(found, expected);
}

#[test]
fn relative_and_root_imports_of_one_target_are_treated_alike() {
    let allowlist = |import: &str| {
        let report = validate(&home_page(import, 1));
        report.violations.iter().filter(|v| v.rule == LAYER_ALLOWLIST_RULE).count()
    };
    assert_eq!(allowlist("../data/db"), 1);
    assert_eq!(allowlist("/src/ui/../data/db"), 1);
    assert_eq!(allowlist("../domain/User"), 0);
    assert_eq!(allowlist("/src/domain/User"), 0);
}

#[test]
fn files_outside_every_layer_are_free() {
    let layout = StructuralLayout {
        files: vec![FileLayout {
            file_path: "scripts/build.ts".into(),
            imports: vec![ImportRef { path: "../src/data/db".into(), line: 1, column: 1 }],
        }],
    };
    assert!(validate(&layout).violations.is_empty());
}

#[test]
fn a_layout_reports_its_files_one_after_the_other() {
    let mut layout = home_page("../domain/UserRepository", 1);
    layout.files.extend(home_page("../domain/models/User", 2).files);
    layout.files.extend(home_page("../domain/repositories/Orders", 3).files);
    let report = validate(&layout);
    let lines: Vec<usize> = report.violations.iter().map(|v| v.line).collect();
    assert_eq!(lines, [1, 3]);
    assert_eq!(report.files_checked, 3);

    let validator = Validator::new(sample_config());
    let mut separately = Vec::new();
    for file in &layout.files {
        separately.extend(validator.validate_file_layout(file).expect("file"));
    }
    assert_eq!(separately, report.violations);
}

#[test]
fn validators_share_their_configuration() {
    let shared = Arc::new(sample_config());
    let validator = Validator::with_shared(Arc::clone(&shared));
    assert!(Arc::ptr_eq(&shared, &validator.shared_config()));
    assert_eq!(validator.config().layer_for_path("src/ui/A.tsx"), Some("presentation"));
    assert_eq!(validator.config().raw.rules[0].name, "no-presentation-to-infrastructure");
    assert_eq!(Validator::new(sample_config()).shared_config().raw.layers.len(), 3);
}

#[test]
fn an_empty_report_counts_nothing() {
    let report = ValidationReport::default();
    assert!(report.violations.is_empty());
    assert_eq!(report.files_checked, 0);
    assert_eq!(report.rules_evaluated, 0);
    assert_eq!(report.allowlist_layers_evaluated, 0);
}

#[test]
fn paths_are_normalized_for_matching() {
    assert_eq!(normalize_path("./src\\ui\\App.tsx"), "src/ui/App.tsx");
    assert_eq!(normalize_path("././a/./b"), "a/./b");
    assert_eq!(normalize_path(".\\.\\x"), "x");
    assert_eq!(normalize_path(""), "");
    assert_eq!(normalize_path(&normalize_path("./.\\./y")), normalize_path("./.\\./y"));
}

#[test]
fn imports_are_resolved_or_left_alone() {
    assert_eq!(resolve_import_path("src/a.ts", "react"), None);
    assert_eq!(resolve_import_path("src/a.ts", ""), None);
    assert_eq!(resolve_import_path("", "./b"), None);
    assert_eq!(resolve_import_path("/", "./b"), None);
    assert_eq!(resolve_import_path("a.ts", "./b"), Some("b".to_owned()));
    assert_eq!(resolve_import_path("src/a.ts", "."), Some("src".to_owned()));
    assert_eq!(resolve_import_path("src/a.ts", "../../../b"), Some("b".to_owned()));
    assert_eq!(resolve_import_path("src/a.ts", ".//x/./y//"), Some("src/x/y".to_owned()));
    assert_eq!(resolve_import_path("src/a.ts", "//lib/../core"), Some("core".to_owned()));
    assert_eq!(resolve_import_path("/abs/a.ts", "./b"), Some("abs/b".to_owned()));
    assert_eq!(resolve_import_path("src/a.ts", ".hidden"), Some("src/.hidden".to_owned()));
    let resolved = resolve_import_path("src/a.ts", "../x/b").expect("resolved");
    assert_eq!(resolve_import_path("any/file.ts", &format!("/{resolved}")), Some(resolved));
}
