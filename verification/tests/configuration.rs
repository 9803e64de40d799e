use architectural_drift_detector::config::{
    ArchitecturalRule, ArchitectureConfig, LayerDefinition, LayerMap,
};
use architectural_drift_detector::AddError;
use serde_yaml::Value;

const SAMPLE: &str = r#"
layers:
  presentation:
    path_patterns:
      - "**/presentation/**"
      - "**/ui/**"
    allowed_dependencies:
      - domain
    enforce_interface_boundary: true
  domain:
    path_patterns:
      - "**/domain/**"
    port_path_patterns:
      - "**/domain/ports/**"
      - "**/domain/interfaces/**"
  infrastructure:
    path_patterns:
      - "**/data/**"
      - "**/infrastructure/**"

rules:
  - name: no-presentation-to-infrastructure
    source_layers: [presentation]
    forbidden_import_patterns:
      - "**/data/**"
      - "**/infrastructure/**"
    message: "Presentation/UI layers cannot import infrastructure paths."
    remediation:
      - "Extract shared contracts into a domain layer."
"#;

fn text(value: &Value, key: &str) -> Option<String> {
    value.get(key).and_then(Value::as_str).map(str::to_owned)
}

fn list(value: &Value, key: &str) -> Option<Vec<String>> {
    let items = value.get(key)?.as_sequence()?;
    Some(items.iter().map(|item| item.as_str().expect("text").to_owned()).collect())
}

fn layer_from(value: &Value) -> LayerDefinition {
    LayerDefinition {
        path_patterns: list(value, "path_patterns").unwrap_or_default(),
        allowed_dependencies: list(value, "allowed_dependencies"),
        enforce_interface_boundary: value
            .get("enforce_interface_boundary")
            .and_then(Value::as_bool)
            .unwrap_or(false),
        interface_port_layer: text(value, "interface_port_layer"),
        port_path_patterns: list(value, "port_path_patterns").unwrap_or_default(),
    }
}

fn rule_from(value: &Value) -> ArchitecturalRule {
    ArchitecturalRule {
        name: text(value, "name").expect("name"),
        description: text(value, "description"),
        source_layers: list(value, "source_layers").expect("source_layers"),
        forbidden_import_patterns: list(value, "forbidden_import_patterns").expect("patterns"),
        message: text(value, "message").expect("message"),
        remediation: list(value, "remediation").unwrap_or_default(),
    }
}

fn config_from(yaml: &str) -> ArchitectureConfig {
    let value: Value = serde_yaml::from_str(yaml).expect("yaml parse");
    let mut layers = LayerMap::new();
    if let Some(entries) = value.get("layers").and_then(Value::as_mapping) {
        for (name, layer) in entries {
            layers.insert(name.as_str().expect("name").to_owned(), layer_from(layer));
        }
    }
    let rules = match value.get("rules").and_then(Value::as_sequence) {
        Some(rules) => rules.iter().map(rule_from).collect(),
        None => Vec::new(),
    };
    ArchitectureConfig { layers, rules }
}

fn problem(yaml: &str) -> String {
    match config_from(yaml).compile() {
        Err(AddError::QueryCompile(reason)) => reason,
        Err(other) => panic!("unexpected error: {other:?}"),
        Ok(_) => panic!("the configuration compiles"),
    }
}

#[test]
fn parses_and_compiles_sample_config() {
    let config = config_from(SAMPLE);
    let compiled = config.compile().expect("compile");
    assert!(compiled.layer_for_path("src/presentation/components/Button.tsx").is_some());
    assert_eq!(
        compiled.allowed_dependencies_for_layer("presentation"),
        Some(["domain".to_owned()].as_slice())
    );
    assert_eq!(compiled.interface_port_layer_for("presentation"), Some("domain"));
}

#[test]
fn layers_are_found_by_their_patterns() {
    let compiled = config_from(SAMPLE).compile().expect("compile");
    assert_eq!(
        compiled.layer_for_path("src/presentation/components/Button.tsx"),
        Some("presentation")
    );
    assert_eq!(compiled.layer_for_path("app/ui/x.ts"), Some("presentation"));
    assert_eq!(compiled.layer_for_path("src/domain/User.ts"), Some("domain"));
    assert_eq!(compiled.layer_for_path("src/data/db.ts"), Some("infrastructure"));
    assert_eq!(compiled.layer_for_path("README.md"), None);
    assert_eq!(compiled.layer_for_path("src/domain/ui/x.ts"), Some("presentation"));
}

#[test]
fn compiled_layers_keep_what_was_declared() {
    let compiled = config_from(SAMPLE).compile().expect("compile");
    assert_eq!(compiled.allowed_dependencies_for_layer("domain"), None);
    assert_eq!(compiled.allowed_dependencies_for_layer("nobody"), None);
    assert_eq!(compiled.interface_port_layer_for("domain"), None);
    assert!(compiled.port_matchers_for_layer("presentation").is_none());
    let ports = compiled.port_matchers_for_layer("domain").expect("ports");
    assert!(ports.is_match("src/domain/ports/IUser"));
    assert!(!ports.is_match("src/domain/User"));
    assert!(compiled.concrete_impl_matchers().is_match("x/adapters/y"));
    assert!(compiled.concrete_impl_matchers().is_match("src/UserRepository.ts"));
    assert!(!compiled.concrete_impl_matchers().is_match("src/User.ts"));

    let allowlists = compiled.layers_with_allowlists();
    assert_eq!(allowlists.len(), 1);
    assert_eq!(allowlists[0].0, "presentation");
    assert_eq!(allowlists[0].1, ["domain".to_owned()]);
    assert_eq!(compiled.layers_with_interface_enforcement(), ["presentation"]);

    let rules = compiled.compiled_rules();
    assert_eq!(rules.len(), 1);
    assert_eq!(rules[0].name, "no-presentation-to-infrastructure");
    assert_eq!(rules[0].description, None);
    assert_eq!(rules[0].remediation, ["Extract shared contracts into a domain layer.".to_owned()]);
    assert!(rules[0].source_layer_matchers[0].is_match("src/ui/App.tsx"));
    assert!(rules[0].forbidden_import_matchers.is_match("../data/x"));
    assert_eq!(compiled.raw.rules.len(), 1);
    assert_eq!(compiled.raw.layers.len(), 3);
}

#[test]
fn an_empty_configuration_compiles() {
    let compiled = config_from("{}").compile().expect("compile");
    assert_eq!(compiled.layer_for_path("src/a.ts"), None);
    assert!(compiled.compiled_rules().is_empty());
}

#[test]
fn unknown_allowed_dependencies_are_refused() {
    let reason = problem("layers:\n  ui:\n    allowed_dependencies: [core, nowhere]\n  core: {}\n");
    assert_eq!(reason, "layer `ui` references unknown allowed dependency `nowhere`");
}

#[test]
fn boundaries_need_a_port_layer() {
    assert_eq!(
        problem("layers:\n  ui:\n    enforce_interface_boundary: true\n"),
        "layer `ui` has enforce_interface_boundary but no interface_port_layer"
    );
    assert_eq!(
        problem(
            "layers:\n  ui:\n    enforce_interface_boundary: true\n    interface_port_layer: core\n"
        ),
        "layer `ui` references unknown interface_port_layer `core`"
    );
    assert_eq!(
        problem("layers:\n  ui:\n    enforce_interface_boundary: true\n  domain: {}\n"),
        "layer `domain` must define port_path_patterns for interface enforcement"
    );
}

#[test]
fn port_layers_may_be_declared_before_or_after() {
    let after = "layers:\n  ui:\n    enforce_interface_boundary: true\n  domain:\n    port_path_patterns: ['**/ports/**']\n";
    let before = "layers:\n  domain:\n    port_path_patterns: ['**/ports/**']\n  ui:\n    enforce_interface_boundary: true\n";
    for yaml in [after, before] {
        let compiled = config_from(yaml).compile().expect("compile");
        assert_eq!(compiled.interface_port_layer_for("ui"), Some("domain"));
    }
}

#[test]
fn rules_must_name_declared_layers() {
    let yaml = "rules:\n  - name: r\n    source_layers: [ghost]\n    forbidden_import_patterns: []\n    message: m\n";
    assert_eq!(problem(yaml), "rule `r` references unknown layer `ghost`");
}

#[test]
fn malformed_patterns_are_refused_with_their_reason() {
    let layer = problem("layers:\n  ui:\n    path_patterns: ['a{b']\n");
    assert!(layer.starts_with("layer `ui`: error parsing glob 'a{b'"), "{layer}");
    let ports = problem("layers:\n  ui:\n    port_path_patterns: ['[z-a]']\n");
    assert!(ports.starts_with("layer `ui` port patterns: error parsing glob '[z-a]'"), "{ports}");
    let rule = problem(
        "rules:\n  - name: r\n    source_layers: []\n    forbidden_import_patterns: ['ok', 'x[']\n    message: m\n",
    );
    assert!(rule.starts_with("rule `r`: error parsing glob 'x['"), "{rule}");
}

#[test]
fn a_layer_map_keeps_one_definition_per_name() {
    let mut layers = LayerMap::new();
    let definition = |pattern: &str| LayerDefinition {
        path_patterns: vec![pattern.to_owned()],
        allowed_dependencies: None,
        enforce_interface_boundary: false,
        interface_port_layer: None,
        port_path_patterns: vec![],
    };
    layers.insert("a".into(), definition("1"));
    layers.insert("b".into(), definition("2"));
    layers.insert("a".into(), definition("3"));
    assert_eq!(layers.len(), 2);
    assert_eq!(layers.get("a").expect("a").path_patterns, ["3"]);
    assert_eq!(layers.get("b").expect("b").path_patterns, ["2"]);
    assert!(layers.get("c").is_none());
    assert_eq!(layers.clone().len(), 2);
}
