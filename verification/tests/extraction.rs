use architectural_drift_detector::ast_engine::{collect_imports, AstExtractor};
use architectural_drift_detector::syntax::CapturedNode;
use architectural_drift_detector::{AddError, AstEngine, FileLayout, StructuralLayout};

fn node(capture: u32, start_byte: usize, row: usize, column: usize, text: &str) -> CapturedNode {
    CapturedNode { capture, start_byte, row, column, text: Some(text.to_owned()) }
}

#[test]
fn extracts_static_and_require_imports() {
    let source = r#"
import React from "react";
import { ApiClient } from "../data/infrastructure/client";
const cfg = require("./config/local");
"#;

    let mut engine = AstEngine::typescript().expect("engine");
    let layout = engine.extract_file("src/ui/App.tsx", source).expect("extract");

    assert_eq!(layout.imports.len(), 3);
    assert!(layout.imports.iter().any(|i| i.path.contains("infrastructure")));
}

#[test]
fn extracts_dynamic_and_export_from_imports() {
    let source = r#"
export { Button } from "./components/Button";
export * from "../data/infrastructure/models";
const mod = await import("./lazy/Panel");
import("./path/to/module");
"#;

    let mut engine = AstEngine::typescript().expect("engine");
    let layout = engine.extract_file("src/ui/App.tsx", source).expect("extract");

    let paths: Vec<_> = layout.imports.iter().map(|i| i.path.as_str()).collect();
    assert!(paths.contains(&"./components/Button"));
    assert!(paths.contains(&"../data/infrastructure/models"));
    assert!(paths.contains(&"./lazy/Panel"));
    assert!(paths.contains(&"./path/to/module"));
}

#[test]
fn imports_carry_their_places() {
    let mut engine = AstEngine::typescript().expect("engine");
    let layout = engine
        .parse("src/a.ts", "import a from 'x';\n\n  const b = require('./y');\n")
        .expect("parse");
    assert_eq!(layout.file_path, "src/a.ts");
    let places: Vec<_> =
        layout.imports.iter().map(|i| (i.path.as_str(), i.line, i.column)).collect();
    assert_eq!(places, [("x", 1, 15), ("./y", 3, 21)]);
}

#[test]
fn one_module_imported_twice_is_two_imports() {
    let mut engine = AstEngine::typescript().expect("engine");
    let source = "\u{feff}import a from './m'; import b from './m';\nconst \u{e9} = require('./m');\n";
    let layout = engine.parse("a.ts", source).expect("parse");
    assert_eq!(layout.imports.len(), 3);
    for (i, one) in layout.imports.iter().enumerate() {
        assert_eq!(one.path, "./m");
        for other in &layout.imports[i + 1..] {
            assert_ne!((one.line, one.column), (other.line, other.column));
        }
    }
    assert_eq!(engine.parse("a.ts", source).expect("again").imports, layout.imports);
}

#[test]
fn other_calls_and_empty_paths_are_no_imports() {
    let mut engine = AstEngine::typescript().expect("engine");
    let layout = engine
        .parse("a.ts", "load('./x'); import y from ''; export const z = 1; require(name);")
        .expect("parse");
    assert!(layout.imports.is_empty());
}

#[test]
fn each_engine_reads_its_grammar() {
    let source = "import A from './A'; const b = <A prop={1}>text</A>;";
    let mut tsx = AstEngine::for_path("src/App.TSX").expect("engine");
    assert_eq!(tsx.parse("src/App.TSX", source).expect("parse").imports.len(), 1);
    let mut ts = AstEngine::for_path("src/App.ts").expect("engine");
    assert_eq!(ts.parse("src/App.ts", "import A from './A'; let c = <any>d;").expect("parse").imports[0].path, "./A");
    assert_eq!(AstEngine::tsx().expect("engine").parse("x.tsx", source).expect("parse").imports[0].path, "./A");
}

#[test]
fn an_engine_reads_one_file_after_another() {
    let mut engine = AstEngine::typescript().expect("engine");
    for name in ["one", "two", "three"] {
        let layout = engine.parse("f.ts", &format!("import '{name}';")).expect("parse");
        assert_eq!(layout.imports[0].path, name);
    }
    assert!(engine.parse("f.ts", "").expect("parse").imports.is_empty());
}

#[test]
fn captured_nodes_become_imports() {
    let nodes = vec![
        node(0, 7, 0, 7, "'./a'"),
        node(1, 0, 0, 0, "import './a'"),
        node(0, 7, 0, 7, "'./a'"),
        node(0, 30, 2, 4, " \"'./b'\" "),
        node(0, 50, 3, 0, "''"),
    ];
    let imports = collect_imports(&nodes, 0).expect("imports");
    let found: Vec<_> = imports.iter().map(|i| (i.path.as_str(), i.line, i.column)).collect();
    assert_eq!(found, [("./a", 1, 8), ("./b", 3, 5)]);
}

#[test]
fn text_that_is_not_utf8_is_an_error_at_its_offset() {
    let mut nodes = vec![node(0, 3, 0, 3, "'a'")];
    nodes.push(CapturedNode { capture: 0, start_byte: 40, row: 1, column: 0, text: None });
    nodes.push(CapturedNode { capture: 0, start_byte: 60, row: 2, column: 0, text: None });
    match collect_imports(&nodes, 0) {
        Err(AddError::InvalidUtf8 { offset }) => assert_eq!(offset, 40),
        other => panic!("unexpected: {other:?}"),
    }
    assert!(collect_imports(&nodes, 1).expect("imports").is_empty());
}

#[test]
fn layouts_can_be_empty_and_copied() {
    assert!(StructuralLayout::default().files.is_empty());
    let layout = FileLayout::default();
    assert_eq!(layout.file_path, "");
    let mut engine = AstEngine::typescript().expect("engine");
    let parsed = engine.parse("a.ts", "import 'x';").expect("parse");
    let copy = StructuralLayout { files: vec![parsed.clone()] }.clone();
    assert_eq!(copy.files[0].imports, parsed.imports);
    assert_eq!(copy.files[0].file_path, "a.ts");
}
