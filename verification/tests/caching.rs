use std::sync::Arc;

use architectural_drift_detector::ast_engine::{FileLayout, ImportRef};
use architectural_drift_detector::config::{ArchitectureConfig, LayerDefinition, LayerMap};
use architectural_drift_detector::{ArchitectureCache, CacheUpdateResult, Validator};

fn layer(pattern: &str, ports: &[&str]) -> LayerDefinition {
    LayerDefinition {
        path_patterns: vec![pattern.into()],
        allowed_dependencies: None,
        enforce_interface_boundary: false,
        interface_port_layer: None,
        port_path_patterns: ports.iter().map(|port| port.to_string()).collect(),
    }
}

fn test_validator() -> Validator {
    let config = ArchitectureConfig {
        layers: LayerMap::from_entries(vec![
            ("presentation".into(), layer("**/ui/**", &[])),
            (
                "domain".into(),
                layer("**/domain/**", &["**/domain/ports/**", "**/domain/interfaces/**"]),
            ),
        ]),
        rules: vec![],
    };
    Validator::new(config.compile().expect("compile"))
}

fn strict_validator() -> Validator {
    let mut ui = layer("**/ui/**", &[]);
    ui.allowed_dependencies = Some(vec![]);
    let config = ArchitectureConfig {
        layers: LayerMap::from_entries(vec![
            ("presentation".into(), ui),
            ("domain".into(), layer("**/domain/**", &[])),
        ]),
        rules: vec![],
    };
    Validator::new(config.compile().expect("compile"))
}

fn file(path: &str, imports: &[&str]) -> FileLayout {
    FileLayout {
        file_path: path.into(),
        imports: imports
            .iter()
            .map(|import| ImportRef { path: import.to_string(), line: 1, column: 1 })
            .collect(),
    }
}

fn touched(update: &CacheUpdateResult) -> Vec<&str> {
    update.diagnostics.iter().map(|entry| entry.0.as_str()).collect()
}

#[test]
fn revalidates_immediate_dependents_on_change() {
    let mut cache = ArchitectureCache::new(test_validator());

    cache
        .process_change("src/domain/User.ts", r#"export class User {}"#)
        .expect("seed domain");

    cache
        .process_change("src/ui/Home.tsx", r#"import { User } from "../domain/User";"#)
        .expect("seed ui");

    assert_eq!(cache.layout_count(), 2);
    assert!(!cache.importers_of("src/domain/User.ts").is_empty());

    let update = cache
        .process_change(
            "src/domain/User.ts",
            r#"import { Widget } from "../ui/Widget"; export class User {}"#,
        )
        .expect("update domain");

    assert_eq!(update.files_reparsed, 1);
    assert_eq!(update.files_revalidated, 2);
}

#[test]
fn the_changed_file_comes_first_with_its_violations() {
    let mut cache = ArchitectureCache::new(strict_validator());
    cache.process_change("src/domain/User.ts", "export class User {}").expect("domain");
    let first = cache
        .process_change("src/ui/Home.tsx", "import { User } from '../domain/User';")
        .expect("ui");
    assert_eq!(touched(&first), ["src/ui/Home.tsx"]);
    assert_eq!(first.diagnostics[0].1.len(), 1);
    assert_eq!(first.diagnostics[0].1[0].rule, "layer-allowlist");

    let second = cache.process_change("src/domain/User.ts", "export class User {}").expect("again");
    assert_eq!(touched(&second), ["src/domain/User.ts", "src/ui/Home.tsx"]);
    assert!(second.diagnostics[0].1.is_empty());
    assert_eq!(second.diagnostics[1].1.len(), 1);
    assert_eq!(second.files_revalidated, second.diagnostics.len());
}

#[test]
fn layouts_are_found_under_every_spelling() {
    let mut cache = ArchitectureCache::new(test_validator());
    cache.apply_layout(file("./src\\ui//Home.tsx", &["react"])).expect("change");
    assert_eq!(cache.layout_count(), 1);
    let layout = cache.get_layout("src/ui/Home.tsx").expect("layout");
    assert_eq!(layout.file_path, "./src\\ui//Home.tsx");
    assert_eq!(layout.imports[0].path, "react");
    assert!(cache.get_layout("src/ui/./Home.tsx").is_some());
    assert!(cache.get_layout("/src/ui/Home.tsx").is_none());
    assert!(cache.get_layout("src/ui/Other.tsx").is_none());
}

#[test]
fn a_second_layout_takes_the_place_of_the_first() {
    let mut cache = ArchitectureCache::new(test_validator());
    cache.apply_layout(file("src/a.ts", &["./b", "./c"])).expect("first");
    assert_eq!(cache.importers_of("src/b.ts"), ["src/a.ts"]);
    assert_eq!(cache.importers_of("src/c.tsx"), ["src/a.ts"]);
    cache.apply_layout(file("src/a.ts", &["./c", "./d.js"])).expect("second");
    assert!(cache.importers_of("src/b.ts").is_empty());
    assert!(cache.importers_of("src/b").is_empty());
    assert_eq!(cache.importers_of("src/c"), ["src/a.ts"]);
    assert_eq!(cache.importers_of("src/d.js"), ["src/a.ts"]);
    assert!(cache.importers_of("src/d.js.ts").is_empty());
    assert_eq!(cache.layout_count(), 1);
}

#[test]
fn removed_files_are_forgotten() {
    let mut cache = ArchitectureCache::new(test_validator());
    cache.apply_layout(file("src/a.ts", &["./b"])).expect("a");
    cache.apply_layout(file("src/b.ts", &[])).expect("b");
    cache.remove_file("src/a.ts");
    assert!(cache.get_layout("src/a.ts").is_none());
    assert!(cache.get_layout("src/b.ts").is_some());
    assert!(cache.importers_of("src/b.ts").is_empty());
    let update = cache.apply_layout(file("src/b.ts", &[])).expect("b again");
    assert_eq!(touched(&update), ["src/b.ts"]);

    cache.remove_file("src/never-seen.ts");
    assert_eq!(cache.layout_count(), 1);
}

#[test]
fn removing_a_new_file_leaves_the_cache_as_it_was() {
    let mut cache = ArchitectureCache::new(test_validator());
    cache.apply_layout(file("src/a.ts", &["./b", "./new.ts"])).expect("a");
    cache.apply_layout(file("src/new.ts", &["./b", "./new", "./z"])).expect("new");
    assert_eq!(cache.importers_of("src/b.ts"), ["src/a.ts", "src/new.ts"]);
    cache.remove_file("src/new.ts");
    assert_eq!(cache.importers_of("src/b.ts"), ["src/a.ts"]);
    assert_eq!(cache.importers_of("src/new.ts"), ["src/a.ts"]);
    assert!(cache.importers_of("src/z.ts").is_empty());
    assert_eq!(cache.layout_count(), 1);
}

#[test]
fn a_file_that_comes_back_still_has_its_importers() {
    let mut cache = ArchitectureCache::new(test_validator());
    cache.process_change("src/domain/User.ts", "export class User {}").expect("domain");
    cache
        .process_change("src/ui/Home.tsx", r#"import { User } from "../domain/User.ts";"#)
        .expect("ui");
    cache.remove_file("src/domain/User.ts");
    assert!(cache.get_layout("src/domain/User.ts").is_none());
    assert_eq!(cache.importers_of("src/domain/User.ts"), ["src/ui/Home.tsx"]);
    let update =
        cache.process_change("src/domain/User.ts", "export class User {}").expect("again");
    assert_eq!(update.files_revalidated, 2);
    assert_eq!(touched(&update), ["src/domain/User.ts", "src/ui/Home.tsx"]);
}

#[test]
fn dependents_are_found_under_the_root_too() {
    let mut cache = ArchitectureCache::new(strict_validator());
    cache.process_change("/p/src/domain/User.ts", "export class User {}").expect("domain");
    cache
        .process_change("/p/src/ui/Home.tsx", r#"import { User } from "../domain/User";"#)
        .expect("ui");
    let update =
        cache.process_change("/p/src/domain/User.ts", "export class User {}").expect("again");
    assert_eq!(update.files_revalidated, 2);
    assert_eq!(touched(&update), ["/p/src/domain/User.ts", "/p/src/ui/Home.tsx"]);
    assert_eq!(update.diagnostics[1].1.len(), 1);
    assert_eq!(cache.importers_of("/p/src/domain/User"), ["/p/src/ui/Home.tsx"]);
    assert!(cache.importers_of("p/src/domain/User.ts").is_empty());
}

#[test]
fn project_imports_of_a_file_under_the_root_reach_both() {
    let mut cache = ArchitectureCache::new(test_validator());
    cache.apply_layout(file("/src/a.ts", &["/src/lib"])).expect("a");
    let rooted = cache.apply_layout(file("/src/lib.ts", &[])).expect("rooted");
    assert_eq!(touched(&rooted), ["/src/lib.ts", "/src/a.ts"]);
    let relative = cache.apply_layout(file("src/lib.tsx", &[])).expect("relative");
    assert_eq!(touched(&relative), ["src/lib.tsx", "/src/a.ts"]);
}

#[test]
fn targets_are_found_however_they_are_written() {
    let mut cache = ArchitectureCache::new(test_validator());
    cache.apply_layout(file("src/a.ts", &["./x\\y"])).expect("a");
    let update = cache.apply_layout(file("src/x\\y.ts", &[])).expect("y");
    assert_eq!(touched(&update), ["src/x/y.ts", "src/a.ts"]);
}

#[test]
fn dependents_are_found_with_and_without_extensions() {
    let mut cache = ArchitectureCache::new(test_validator());
    cache.apply_layout(file("src/one.ts", &["./lib"])).expect("one");
    cache.apply_layout(file("src/two.ts", &["./lib.ts"])).expect("two");
    cache.apply_layout(file("src/three.ts", &["/src/lib"])).expect("three");
    cache.apply_layout(file("src/four.ts", &["lib"])).expect("four");
    let ts = cache.apply_layout(file("src/lib.ts", &[])).expect("ts");
    assert_eq!(touched(&ts), ["src/lib.ts", "src/one.ts", "src/two.ts", "src/three.ts"]);
    let tsx = cache.apply_layout(file("src/lib.tsx", &[])).expect("tsx");
    assert_eq!(touched(&tsx), ["src/lib.tsx", "src/one.ts", "src/three.ts"]);
    let plain = cache.apply_layout(file("src/lib", &[])).expect("plain");
    assert_eq!(touched(&plain), ["src/lib", "src/one.ts", "src/three.ts", "src/two.ts"]);
}

#[test]
fn a_file_that_imports_itself_is_validated_once() {
    let mut cache = ArchitectureCache::with_shared_validator(Arc::new(test_validator()));
    let update = cache.apply_layout(file("src/self.ts", &["./self", "./self.ts"])).expect("change");
    assert_eq!(touched(&update), ["src/self.ts"]);
    assert_eq!(update.files_revalidated, 1);
    assert_eq!(update.files_reparsed, 1);
}

#[test]
fn imports_of_the_root_are_indexed_under_the_root() {
    let mut cache = ArchitectureCache::new(test_validator());
    cache.apply_layout(file("a.ts", &["."])).expect("change");
    assert_eq!(cache.importers_of(""), ["a.ts"]);
    cache.apply_layout(file("a.ts", &[])).expect("change");
    assert!(cache.importers_of("").is_empty());
}

#[test]
fn an_empty_update_holds_nothing() {
    let update = CacheUpdateResult::default();
    assert!(update.diagnostics.is_empty());
    assert_eq!((update.files_reparsed, update.files_revalidated), (0, 0));
}
