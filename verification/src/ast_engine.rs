//! The imports of source files.

use std::collections::HashSet;

use tree_sitter::{Language, Parser, Query};
use vstd::prelude::*;

use crate::error::{AddError, AddResult, ErrorView};
use crate::path;
use crate::path::is_tsx_path;
use crate::syntax;
use crate::syntax::{
    compile_query, describe_query_error, find_capture, parse_text, query_tree, tsx_language,
    typescript_language, CapturedNode, Grammar, NodeView, IMPORT_QUERY,
};
use crate::text;
use crate::text::{trim, unquote};

verus! {

/// A resolved import extracted from source.
#[derive(Debug, PartialEq, Eq)]
pub struct ImportRef {
    pub path: String,
    pub line: usize,
    pub column: usize,
}

/// Structural facts about a single source file.
#[derive(Debug)]
pub struct FileLayout {
    pub file_path: String,
    pub imports: Vec<ImportRef>,
}

/// Aggregated structural layout for one or more files.
#[derive(Debug)]
pub struct StructuralLayout {
    pub files: Vec<FileLayout>,
}

#[verifier::ext_equal]
pub struct ImportView {
    pub path: Seq<char>,
    pub line: nat,
    pub column: nat,
}

#[verifier::ext_equal]
pub struct FileView {
    pub file_path: Seq<char>,
    pub imports: Seq<ImportView>,
}

impl DeepView for ImportRef {
    type V = ImportView;

    open spec fn deep_view(&self) -> ImportView {
        ImportView { path: self.path@, line: self.line as nat, column: self.column as nat }
    }
}

impl DeepView for FileLayout {
    type V = FileView;

    open spec fn deep_view(&self) -> FileView {
        FileView { file_path: self.file_path@, imports: self.imports.deep_view() }
    }
}

impl DeepView for StructuralLayout {
    type V = Seq<FileView>;

    open spec fn deep_view(&self) -> Seq<FileView> {
        self.files.deep_view()
    }
}

impl Clone for ImportRef {
    fn clone(&self) -> (r: ImportRef)
        ensures
            r == *self,
    {
        ImportRef { path: self.path.clone(), line: self.line, column: self.column }
    }
}

impl Clone for FileLayout {
    fn clone(&self) -> (r: FileLayout)
        ensures
            r.deep_view() == self.deep_view(),
    {
        let r = FileLayout { file_path: self.file_path.clone(), imports: self.imports.clone() };
        assert(r.imports.deep_view() =~= self.imports.deep_view());
        r
    }
}

impl Clone for StructuralLayout {
    fn clone(&self) -> (r: StructuralLayout)
        ensures
            r.deep_view() == self.deep_view(),
    {
        let r = StructuralLayout { files: self.files.clone() };
        assert(r.deep_view() =~= self.deep_view());
        r
    }
}

impl Default for FileLayout {
    fn default() -> (r: FileLayout)
        ensures
            r.deep_view() == (FileView { file_path: Seq::empty(), imports: Seq::empty() }),
    {
        let r = FileLayout { file_path: String::new(), imports: Vec::new() };
        assert(r.deep_view() =~= FileView { file_path: Seq::empty(), imports: Seq::empty() });
        r
    }
}

impl Default for StructuralLayout {
    fn default() -> (r: StructuralLayout)
        ensures
            r.deep_view() == Seq::<FileView>::empty(),
    {
        let r = StructuralLayout { files: Vec::new() };
        assert(r.deep_view() =~= Seq::<FileView>::empty());
        r
    }
}

/// The path that the text of a string literal names.
pub open spec fn literal_path(raw: Seq<char>) -> Seq<char> {
    text::unquoted(text::trimmed(raw))
}

pub open spec fn starts(nodes: Seq<NodeView>, byte: usize) -> bool {
    exists|i: int| 0 <= i < nodes.len() && (#[trigger] nodes[i]).start_byte == byte
}

/// The nodes of that capture, the first of those that start at the same byte.
pub open spec fn distinct_sources(nodes: Seq<NodeView>, capture: u32) -> Seq<NodeView>
    decreases nodes.len(),
{
    if nodes.len() == 0 {
        Seq::empty()
    } else {
        let before = distinct_sources(nodes.drop_last(), capture);
        if nodes.last().capture == capture && !starts(before, nodes.last().start_byte) {
            before.push(nodes.last())
        } else {
            before
        }
    }
}

/// Where the first node starts whose text is not UTF-8.
pub open spec fn first_unreadable(sources: Seq<NodeView>) -> Option<usize>
    decreases sources.len(),
{
    if sources.len() == 0 {
        None
    } else {
        match first_unreadable(sources.drop_last()) {
            Some(offset) => Some(offset),
            None => if sources.last().text is None {
                Some(sources.last().start_byte)
            } else {
                None
            },
        }
    }
}

/// The imports that the nodes stand for; lines and columns count from one. An empty
/// path is no import.
pub open spec fn imports_named(sources: Seq<NodeView>) -> Seq<ImportView>
    decreases sources.len(),
{
    if sources.len() == 0 {
        Seq::empty()
    } else {
        let before = imports_named(sources.drop_last());
        let node = sources.last();
        match node.text {
            Some(raw) => if literal_path(raw).len() > 0 {
                before.push(
                    ImportView {
                        path: literal_path(raw),
                        line: node.row + 1,
                        column: node.column + 1,
                    },
                )
            } else {
                before
            },
            None => before,
        }
    }
}

/// What is extracted from the captured nodes.
pub open spec fn extracted(nodes: Seq<NodeView>, capture: u32) -> Result<
    Seq<ImportView>,
    ErrorView,
> {
    let sources = distinct_sources(nodes, capture);
    match first_unreadable(sources) {
        Some(offset) => Err(ErrorView::InvalidUtf8 { offset: offset as nat }),
        None => Ok(imports_named(sources)),
    }
}

fn strip_quotes(raw: &str) -> (r: String)
    ensures
        r@ == literal_path(raw@),
{
    unquote(trim(raw).as_str())
}

proof fn lemma_unreadable_stays(nodes: Seq<NodeView>, capture: u32, n: int)
    requires
        0 <= n <= nodes.len(),
        first_unreadable(distinct_sources(nodes.take(n), capture)) is Some,
    ensures
        first_unreadable(distinct_sources(nodes, capture)) == first_unreadable(
            distinct_sources(nodes.take(n), capture),
        ),
    decreases nodes.len(),
{
    if n == nodes.len() {
        assert(nodes.take(n) == nodes);
    } else {
        let init = nodes.drop_last();
        assert(init.take(n) == nodes.take(n));
        lemma_unreadable_stays(init, capture, n);
        let before = distinct_sources(init, capture);
        let now = distinct_sources(nodes, capture);
        if now != before {
            assert(now.drop_last() == before);
        }
    }
}

/// The imports among the captured nodes.
pub fn collect_imports(nodes: &Vec<CapturedNode>, source_capture: u32) -> (r: AddResult<
    Vec<ImportRef>,
>)
    requires
        forall|i: int|
            0 <= i < nodes@.len() ==> (#[trigger] nodes@[i]).row < usize::MAX && nodes@[i].column
                < usize::MAX,
    ensures
        match r {
            Ok(imports) => extracted(nodes.deep_view(), source_capture) == Ok::<_, ErrorView>(
                imports.deep_view(),
            ),
            Err(error) => extracted(nodes.deep_view(), source_capture) == Err::<Seq<ImportView>, _>(
                error@,
            ),
        },
{
    broadcast use vstd::std_specs::hash::group_hash_axioms;

    let mut imports: Vec<ImportRef> = Vec::new();
    let mut seen_nodes: HashSet<usize> = HashSet::new();
    let ghost views = nodes.deep_view();
    let ghost mut sources = distinct_sources(views.take(0), source_capture);
    let mut i: usize = 0;
    assert(imports.deep_view() =~= imports_named(sources));
    while i < nodes.len()
        invariant
            i <= nodes@.len(),
            views == nodes.deep_view(),
            forall|j: int|
                0 <= j < nodes@.len() ==> (#[trigger] nodes@[j]).row < usize::MAX
                    && nodes@[j].column < usize::MAX,
            sources == distinct_sources(views.take(i as int), source_capture),
            first_unreadable(sources) is None,
            imports.deep_view() == imports_named(sources),
            forall|byte: usize| #[trigger]
                seen_nodes@.contains(byte) <==> starts(sources, byte),
        decreases nodes@.len() - i,
    {
        let node = &nodes[i];
        let ghost before = sources;
        let ghost known = seen_nodes@;
        proof {
            assert(views.take(i + 1).drop_last() == views.take(i as int));
            assert(views.take(i + 1).last() == node.deep_view());
            sources = distinct_sources(views.take(i + 1), source_capture);
        }
        if node.capture == source_capture && seen_nodes.insert(node.start_byte) {
            proof {
                assert(!known.contains(node.start_byte));
                assert(sources == before.push(node.deep_view()));
                assert(sources.drop_last() == before);
                assert forall|byte: usize| #[trigger]
                    seen_nodes@.contains(byte) <==> starts(sources, byte) by {
                    if known.contains(byte) {
                        let j = choose|j: int|
                            0 <= j < before.len() && (#[trigger] before[j]).start_byte == byte;
                        assert(sources[j].start_byte == byte);
                    }
                    if byte == node.start_byte {
                        assert(sources[before.len() as int].start_byte == byte);
                    }
                    if starts(sources, byte) {
                        let j = choose|j: int|
                            0 <= j < sources.len() && (#[trigger] sources[j]).start_byte == byte;
                        if j < before.len() {
                            assert(before[j].start_byte == byte);
                            assert(known.contains(byte));
                        }
                    }
                }
            }
            match &node.text {
                Some(raw) => {
                    let path = strip_quotes(raw.as_str());
                    if !path.as_str().is_empty() {
                        let ghost earlier = imports.deep_view();
                        let import = ImportRef { path, line: node.row + 1, column: node.column + 1 };
                        imports.push(import);
                        assert(imports.deep_view() =~= earlier.push(import.deep_view()));
                    }
                },
                None => {
                    proof {
                        lemma_unreadable_stays(views, source_capture, i + 1);
                    }
                    return Err(AddError::InvalidUtf8 { offset: node.start_byte });
                },
            }
        }
        i += 1;
    }
    assert(views.take(i as int) == views);
    Ok(imports)
}

/// Nodes at one place start at one byte.
pub open spec fn places_tell_apart(nodes: Seq<NodeView>) -> bool {
    forall|i: int, j: int|
        0 <= i < nodes.len() && 0 <= j < nodes.len() && (#[trigger] nodes[i]).row == (
        #[trigger] nodes[j]).row && nodes[i].column == nodes[j].column ==> nodes[i].start_byte
            == nodes[j].start_byte
}

/// Every import has a path without quotes around it and a place that counts from one,
/// and no two have the same place.
pub open spec fn imports_are_sound(imports: Seq<ImportView>) -> bool {
    &&& forall|i: int|
        0 <= i < imports.len() ==> (#[trigger] imports[i]).path.len() > 0 && !text::is_quote(
            imports[i].path[0],
        ) && !text::is_quote(imports[i].path.last()) && imports[i].line >= 1 && imports[i].column
            >= 1
    &&& forall|i: int, j: int|
        0 <= i < j < imports.len() ==> (#[trigger] imports[i]).line != (#[trigger] imports[j]).line
            || imports[i].column != imports[j].column
}

/// Trait abstraction for AST extraction backends (TypeScript today, more languages
/// later).
pub trait AstExtractor {
    /// Whether the backend is set up.
    spec fn ready(&self) -> bool;

    /// Whether the backend can read a text of that size.
    spec fn takes(&self, source: Seq<char>) -> bool;

    /// What the backend extracts from a file of that path and that text.
    spec fn extraction(&self, file_path: Seq<char>, source: Seq<char>) -> Result<
        FileView,
        ErrorView,
    >;

    fn extract_file(&mut self, path: &str, source: &str) -> (r: AddResult<FileLayout>)
        requires
            old(self).ready(),
            old(self).takes(source@),
        ensures
            final(self).ready(),
            forall|s: Seq<char>| #[trigger] final(self).takes(s) == old(self).takes(s),
            forall|p: Seq<char>, s: Seq<char>| #[trigger]
                final(self).extraction(p, s) == old(self).extraction(p, s),
            match r {
                Ok(layout) => old(self).extraction(path@, source@) == Ok::<_, ErrorView>(
                    layout.deep_view(),
                ),
                Err(error) => old(self).extraction(path@, source@) == Err::<FileView, _>(error@),
            },
    ;
}

/// Tree-sitter powered extractor for TypeScript and TSX.
pub struct AstEngine {
    parser: Parser,
    import_query: Query,
    source_capture: u32,
}

/// The capture of the imported paths in the import query.
pub open spec fn source_capture(language: Language) -> Option<u32> {
    syntax::capture_index(language, IMPORT_QUERY@, "import.source"@)
}

/// Why no engine can be made for a language.
pub open spec fn engine_problem(language: Language) -> Option<ErrorView> {
    if !syntax::language_accepted(language) {
        Some(ErrorView::LanguageSetup("unsupported tree-sitter language"@))
    } else {
        match syntax::query_error(language, IMPORT_QUERY@) {
            Some(error) => Some(ErrorView::QueryCompile(error)),
            None => if source_capture(language) is None {
                Some(ErrorView::QueryCompile("missing capture `import.source`"@))
            } else {
                None
            },
        }
    }
}

/// The layout of a file of that path and that text, read in that language.
pub open spec fn parsed(language: Language, file_path: Seq<char>, source: Seq<char>) -> Result<
    FileView,
    ErrorView,
> {
    match extracted(
        syntax::captured_nodes(language, IMPORT_QUERY@, source),
        source_capture(language)->0,
    ) {
        Ok(imports) => Ok(FileView { file_path, imports }),
        Err(error) => Err(error),
    }
}

/// The grammar in which a file is read: TSX by its extension, else TypeScript.
pub open spec fn grammar_for(file_path: Seq<char>) -> Grammar {
    if path::names_tsx(file_path) {
        Grammar::Tsx
    } else {
        Grammar::TypeScript
    }
}

impl AstEngine {
    /// The language that the engine reads.
    pub closed spec fn language(&self) -> Language {
        syntax::query_origin(self.import_query).0
    }

    pub fn typescript() -> (r: AddResult<AstEngine>)
        ensures
            match r {
                Ok(engine) => engine.ready() && engine.language() == syntax::language_of(
                    Grammar::TypeScript,
                ) && engine_problem(engine.language()) is None,
                Err(error) => engine_problem(syntax::language_of(Grammar::TypeScript)) == Some(
                    error@,
                ),
            },
    {
        AstEngine::with_language(typescript_language())
    }

    pub fn tsx() -> (r: AddResult<AstEngine>)
        ensures
            match r {
                Ok(engine) => engine.ready() && engine.language() == syntax::language_of(
                    Grammar::Tsx,
                ) && engine_problem(engine.language()) is None,
                Err(error) => engine_problem(syntax::language_of(Grammar::Tsx)) == Some(error@),
            },
    {
        AstEngine::with_language(tsx_language())
    }

    pub fn for_path(path: &str) -> (r: AddResult<AstEngine>)
        ensures
            match r {
                Ok(engine) => engine.ready() && engine.language() == syntax::language_of(
                    grammar_for(path@),
                ) && engine_problem(engine.language()) is None,
                Err(error) => engine_problem(syntax::language_of(grammar_for(path@))) == Some(
                    error@,
                ),
            },
    {
        if is_tsx_path(path) {
            AstEngine::tsx()
        } else {
            AstEngine::typescript()
        }
    }

    fn with_language(language: Language) -> (r: AddResult<AstEngine>)
        ensures
            match r {
                Ok(engine) => engine.ready() && engine.language() == language && engine_problem(
                    language,
                ) is None,
                Err(error) => engine_problem(language) == Some(error@),
            },
    {
        let mut parser = Parser::new();
        if parser.set_language(&language).is_err() {
            return Err(AddError::LanguageSetup("unsupported tree-sitter language".to_owned()));
        }
        let import_query = match compile_query(&language, IMPORT_QUERY) {
            Ok(query) => query,
            Err(error) => return Err(AddError::QueryCompile(describe_query_error(&error))),
        };
        match find_capture(&import_query, "import.source") {
            Some(source_capture) => Ok(AstEngine { parser, import_query, source_capture }),
            None => Err(AddError::QueryCompile("missing capture `import.source`".to_owned())),
        }
    }

    /// Parse source and extract structural layout.
    pub fn parse(&mut self, path: &str, source: &str) -> (r: AddResult<FileLayout>)
        requires
            old(self).ready(),
            syntax::fits_parser(source@),
        ensures
            final(self).ready(),
            final(self).language() == old(self).language(),
            r matches Ok(layout) ==> layout.file_path@ == path@ && imports_are_sound(
                layout.imports.deep_view(),
            ),
            match r {
                Ok(layout) => parsed(old(self).language(), path@, source@) == Ok::<_, ErrorView>(
                    layout.deep_view(),
                ),
                Err(error) => parsed(old(self).language(), path@, source@) == Err::<FileView, _>(
                    error@,
                ),
            },
    {
        let tree = match parse_text(&mut self.parser, source) {
            Some(tree) => tree,
            None => return Err(AddError::ParseFailed { path: path.to_owned() }),
        };
        let nodes = query_tree(&self.import_query, &tree, source);
        proof {
            let views = nodes.deep_view();
            assert forall|i: int, j: int|
                0 <= i < views.len() && 0 <= j < views.len() && (#[trigger] views[i]).row == (
                #[trigger] views[j]).row && views[i].column
                    == views[j].column implies views[i].start_byte == views[j].start_byte by {
                assert(views[i] == nodes@[i].deep_view() && views[j] == nodes@[j].deep_view());
            }
            extracted_imports_are_sound(views, self.source_capture);
        }
        match collect_imports(&nodes, self.source_capture) {
            Ok(imports) => Ok(FileLayout { file_path: path.to_owned(), imports }),
            Err(error) => Err(error),
        }
    }
}

impl AstExtractor for AstEngine {
    closed spec fn ready(&self) -> bool {
        &&& syntax::parser_is_plain(self.parser)
        &&& syntax::parser_language(self.parser) == Some(self.language())
        &&& syntax::query_origin(self.import_query).1 == IMPORT_QUERY@
        &&& source_capture(self.language()) == Some(self.source_capture)
    }

    open spec fn takes(&self, source: Seq<char>) -> bool {
        syntax::fits_parser(source)
    }

    open spec fn extraction(&self, file_path: Seq<char>, source: Seq<char>) -> Result<
        FileView,
        ErrorView,
    > {
        parsed(self.language(), file_path, source)
    }

    fn extract_file(&mut self, path: &str, source: &str) -> (r: AddResult<FileLayout>)
        ensures
            final(self).language() == old(self).language(),
            r matches Ok(layout) ==> layout.file_path@ == path@ && imports_are_sound(
                layout.imports.deep_view(),
            ),
    {
        self.parse(path, source)
    }
}

proof fn lemma_trimmed_start(s: Seq<char>, drop: spec_fn(char) -> bool)
    ensures
        text::trimmed_start(s, drop).len() > 0 ==> !drop(text::trimmed_start(s, drop)[0]),
    decreases s.len(),
{
    if s.len() > 0 && drop(s[0]) {
        lemma_trimmed_start(s.drop_first(), drop);
    }
}

proof fn lemma_trimmed_end(s: Seq<char>, drop: spec_fn(char) -> bool)
    ensures
        ({
            let r = text::trimmed_end(s, drop);
            r.len() > 0 ==> !drop(r.last()) && r[0] == s[0]
        }),
    decreases s.len(),
{
    if s.len() > 0 && drop(s.last()) {
        lemma_trimmed_end(s.drop_last(), drop);
    }
}

/// A path read from a literal neither begins nor ends with a quote.
pub proof fn paths_carry_no_quotes(raw: Seq<char>)
    requires
        literal_path(raw).len() > 0,
    ensures
        !text::is_quote(literal_path(raw)[0]),
        !text::is_quote(literal_path(raw).last()),
{
    let drop = |c: char| text::is_quote(c);
    let inner = text::trimmed(raw);
    lemma_trimmed_start(inner, drop);
    lemma_trimmed_end(text::trimmed_start(inner, drop), drop);
}

/// No two of the sources start at the same byte, each is a node of the capture, and
/// every node of the capture starts where a source starts.
pub proof fn each_source_is_taken_once(nodes: Seq<NodeView>, capture: u32)
    ensures
        ({
            let sources = distinct_sources(nodes, capture);
            &&& forall|i: int, j: int|
                0 <= i < j < sources.len() ==> (#[trigger] sources[i]).start_byte != (
                #[trigger] sources[j]).start_byte
            &&& forall|i: int|
                0 <= i < sources.len() ==> nodes.contains(#[trigger] sources[i])
                    && sources[i].capture == capture
            &&& forall|i: int|
                0 <= i < nodes.len() && (#[trigger] nodes[i]).capture == capture ==> starts(
                    sources,
                    nodes[i].start_byte,
                )
        }),
    decreases nodes.len(),
{
    if nodes.len() > 0 {
        let init = nodes.drop_last();
        each_source_is_taken_once(init, capture);
        let before = distinct_sources(init, capture);
        let sources = distinct_sources(nodes, capture);
        assert(nodes[nodes.len() - 1] == nodes.last());
        assert forall|i: int| 0 <= i < sources.len() implies nodes.contains(#[trigger] sources[i])
            && sources[i].capture == capture by {
            if i < before.len() {
                assert(sources[i] == before[i]);
                let k = choose|k: int| 0 <= k < init.len() && init[k] == before[i];
                assert(nodes[k] == sources[i]);
            }
        }
        assert forall|i: int, j: int| 0 <= i < j < sources.len() implies (
        #[trigger] sources[i]).start_byte != (#[trigger] sources[j]).start_byte by {
            assert(sources[i] == before[i]);
            if j < before.len() {
                assert(sources[j] == before[j]);
            }
        }
        assert forall|i: int|
            0 <= i < nodes.len() && (#[trigger] nodes[i]).capture == capture implies starts(
            sources,
            nodes[i].start_byte,
        ) by {
            if i < init.len() {
                assert(init[i] == nodes[i]);
                assert(starts(before, nodes[i].start_byte));
            }
            if starts(before, nodes[i].start_byte) {
                let k = choose|k: int|
                    0 <= k < before.len() && (#[trigger] before[k]).start_byte
                        == nodes[i].start_byte;
                assert(sources[k].start_byte == nodes[i].start_byte);
            } else {
                assert(sources[before.len() as int].start_byte == nodes[i].start_byte);
            }
        }
    }
}

/// Every import has a path, and its line and its column count from one.
pub proof fn imports_are_named_and_placed(sources: Seq<NodeView>)
    ensures
        imports_named(sources).len() <= sources.len(),
        forall|i: int|
            0 <= i < imports_named(sources).len() ==> (#[trigger] imports_named(
                sources,
            )[i]).path.len() > 0 && imports_named(sources)[i].line >= 1 && imports_named(
                sources,
            )[i].column >= 1,
    decreases sources.len(),
{
    if sources.len() > 0 {
        let init = sources.drop_last();
        imports_are_named_and_placed(init);
        assert forall|i: int| 0 <= i < imports_named(sources).len() implies (
        #[trigger] imports_named(sources)[i]).path.len() > 0 && imports_named(sources)[i].line >= 1
            && imports_named(sources)[i].column >= 1 by {
            if i < imports_named(init).len() {
                assert(imports_named(sources)[i] == imports_named(init)[i]);
            }
        }
    }
}

proof fn lemma_import_comes_from_a_source(sources: Seq<NodeView>, i: int)
    requires
        0 <= i < imports_named(sources).len(),
    ensures
        exists|k: int|
            0 <= k < sources.len() && (#[trigger] sources[k]).text is Some && imports_named(
                sources,
            )[i] == (ImportView {
                path: literal_path(sources[k].text->0),
                line: sources[k].row + 1,
                column: sources[k].column + 1,
            }),
    decreases sources.len(),
{
    let init = sources.drop_last();
    let before = imports_named(init);
    assert(sources[sources.len() - 1] == sources.last());
    if i < before.len() {
        lemma_import_comes_from_a_source(init, i);
        assert(imports_named(sources)[i] == before[i]);
        let k = choose|k: int|
            0 <= k < init.len() && (#[trigger] init[k]).text is Some && before[i] == (ImportView {
                path: literal_path(init[k].text->0),
                line: init[k].row + 1,
                column: init[k].column + 1,
            });
        assert(sources[k] == init[k]);
    }
}

proof fn lemma_imports_stand_apart(sources: Seq<NodeView>)
    requires
        places_tell_apart(sources),
        forall|i: int, j: int|
            0 <= i < j < sources.len() ==> (#[trigger] sources[i]).start_byte != (
            #[trigger] sources[j]).start_byte,
    ensures
        forall|i: int, j: int|
            0 <= i < j < imports_named(sources).len() ==> (#[trigger] imports_named(
                sources,
            )[i]).line != (#[trigger] imports_named(sources)[j]).line || imports_named(
                sources,
            )[i].column != imports_named(sources)[j].column,
    decreases sources.len(),
{
    if sources.len() > 0 {
        let init = sources.drop_last();
        let before = imports_named(init);
        let all = imports_named(sources);
        assert forall|i: int, j: int|
            0 <= i < init.len() && 0 <= j < init.len() && (#[trigger] init[i]).row == (
            #[trigger] init[j]).row && init[i].column == init[j].column implies init[i].start_byte
            == init[j].start_byte by {
            assert(init[i] == sources[i] && init[j] == sources[j]);
        }
        assert forall|i: int, j: int| 0 <= i < j < init.len() implies (
        #[trigger] init[i]).start_byte != (#[trigger] init[j]).start_byte by {
            assert(init[i] == sources[i] && init[j] == sources[j]);
        }
        lemma_imports_stand_apart(init);
        assert forall|i: int, j: int| 0 <= i < j < all.len() implies (#[trigger] all[i]).line != (
        #[trigger] all[j]).line || all[i].column != all[j].column by {
            assert(all[i] == before[i]);
            if j < before.len() {
                assert(all[j] == before[j]);
            } else {
                lemma_import_comes_from_a_source(init, i);
                let k = choose|k: int|
                    0 <= k < init.len() && (#[trigger] init[k]).text is Some && before[i] == (
                    ImportView {
                        path: literal_path(init[k].text->0),
                        line: init[k].row + 1,
                        column: init[k].column + 1,
                    });
                assert(init[k] == sources[k]);
                assert(sources[k].start_byte != sources[sources.len() - 1].start_byte);
            }
        }
    }
}

/// Where nodes at one place start at one byte, no two extracted imports have the same
/// place; each has a path without quotes around it and a place that counts from one.
pub proof fn extracted_imports_are_sound(nodes: Seq<NodeView>, capture: u32)
    requires
        places_tell_apart(nodes),
    ensures
        imports_are_sound(imports_named(distinct_sources(nodes, capture))),
{
    let sources = distinct_sources(nodes, capture);
    let imports = imports_named(sources);
    each_source_is_taken_once(nodes, capture);
    assert forall|i: int, j: int|
        0 <= i < sources.len() && 0 <= j < sources.len() && (#[trigger] sources[i]).row == (
        #[trigger] sources[j]).row && sources[i].column
            == sources[j].column implies sources[i].start_byte == sources[j].start_byte by {
        let a = choose|a: int| 0 <= a < nodes.len() && nodes[a] == sources[i];
        let b = choose|b: int| 0 <= b < nodes.len() && nodes[b] == sources[j];
        assert(nodes.contains(sources[i]) && nodes.contains(sources[j]));
        assert(nodes[a].row == nodes[b].row);
    }
    lemma_imports_stand_apart(sources);
    imports_are_named_and_placed(sources);
    assert forall|i: int| 0 <= i < imports.len() implies (#[trigger] imports[i]).path.len() > 0
        && !text::is_quote(imports[i].path[0]) && !text::is_quote(imports[i].path.last())
        && imports[i].line >= 1 && imports[i].column >= 1 by {
        lemma_import_comes_from_a_source(sources, i);
        let k = choose|k: int|
            0 <= k < sources.len() && (#[trigger] sources[k]).text is Some && imports[i] == (
            ImportView {
                path: literal_path(sources[k].text->0),
                line: sources[k].row + 1,
                column: sources[k].column + 1,
            });
        paths_carry_no_quotes(sources[k].text->0);
    }
}

/// Every source whose text names a path is an import of its own, at its own place,
/// though another source names the same path.
pub proof fn each_named_source_is_an_import(sources: Seq<NodeView>, i: int)
    requires
        0 <= i < sources.len(),
        sources[i].text matches Some(raw) && literal_path(raw).len() > 0,
    ensures
        imports_named(sources).contains(
            ImportView {
                path: literal_path(sources[i].text->0),
                line: sources[i].row + 1,
                column: sources[i].column + 1,
            },
        ),
    decreases sources.len(),
{
    let init = sources.drop_last();
    let before = imports_named(init);
    let all = imports_named(sources);
    let wanted = ImportView {
        path: literal_path(sources[i].text->0),
        line: sources[i].row + 1,
        column: sources[i].column + 1,
    };
    if i < init.len() {
        assert(init[i] == sources[i]);
        each_named_source_is_an_import(init, i);
        let k = choose|k: int| 0 <= k < before.len() && before[k] == wanted;
        assert(all[k] == wanted);
    } else {
        assert(sources[i] == sources.last());
        assert(all[before.len() as int] == wanted);
    }
}

/// The sources among some nodes and then others are those among the first, and of those
/// among the others the ones that start where none of the first starts.
pub proof fn sources_are_taken_in_turn(first: Seq<NodeView>, second: Seq<NodeView>, capture: u32)
    ensures
        distinct_sources(first + second, capture) == distinct_sources(first, capture)
            + distinct_sources(second, capture).filter(
            |node: NodeView| !starts(distinct_sources(first, capture), node.start_byte),
        ),
    decreases second.len(),
{
    reveal(Seq::filter);
    let kept = distinct_sources(first, capture);
    let fresh = |node: NodeView| !starts(kept, node.start_byte);
    if second.len() == 0 {
        assert(first + second == first);
        assert(distinct_sources(second, capture).filter(fresh) =~= Seq::empty());
        assert(kept + Seq::empty() =~= kept);
    } else {
        let init = second.drop_last();
        let node = second.last();
        sources_are_taken_in_turn(first, init, capture);
        assert((first + second).drop_last() == first + init);
        assert((first + second).last() == node);
        let before = distinct_sources(init, capture);
        let after = distinct_sources(second, capture);
        lemma_starts_in_sum(kept, before.filter(fresh), node.start_byte);
        if !starts(kept, node.start_byte) {
            lemma_starts_among_fresh(kept, before, node.start_byte);
        }
        if node.capture == capture && !starts(before, node.start_byte) {
            assert(after.drop_last() =~= before);
            assert(after.last() == node);
        }
        assert(distinct_sources(first + second, capture) =~= kept + after.filter(fresh));
    }
}

proof fn lemma_starts_in_sum(a: Seq<NodeView>, b: Seq<NodeView>, byte: usize)
    ensures
        starts(a + b, byte) <==> starts(a, byte) || starts(b, byte),
{
    if starts(a, byte) {
        let i = choose|i: int| 0 <= i < a.len() && (#[trigger] a[i]).start_byte == byte;
        assert((a + b)[i].start_byte == byte);
    }
    if starts(b, byte) {
        let i = choose|i: int| 0 <= i < b.len() && (#[trigger] b[i]).start_byte == byte;
        assert((a + b)[a.len() + i].start_byte == byte);
    }
    if starts(a + b, byte) {
        let i = choose|i: int|
            0 <= i < (a + b).len() && (#[trigger] (a + b)[i]).start_byte == byte;
        if i < a.len() {
            assert(a[i].start_byte == byte);
        } else {
            assert(b[i - a.len()].start_byte == byte);
        }
    }
}

proof fn lemma_starts_among_fresh(kept: Seq<NodeView>, nodes: Seq<NodeView>, byte: usize)
    requires
        !starts(kept, byte),
    ensures
        starts(
            nodes.filter(|node: NodeView| !starts(kept, node.start_byte)),
            byte,
        ) <==> starts(nodes, byte),
    decreases nodes.len(),
{
    reveal(Seq::filter);
    let fresh = |node: NodeView| !starts(kept, node.start_byte);
    if nodes.len() > 0 {
        let init = nodes.drop_last();
        let last = seq![nodes.last()];
        lemma_starts_among_fresh(kept, init, byte);
        assert(nodes =~= init + last);
        lemma_starts_in_sum(init, last, byte);
        lemma_starts_in_sum(init.filter(fresh), last, byte);
        assert(starts(last, byte) <==> nodes.last().start_byte == byte) by {
            assert(last[0] == nodes.last());
        }
        if fresh(nodes.last()) {
            assert(nodes.filter(fresh) =~= init.filter(fresh) + last);
        }
    }
}

/// One node is a source exactly where it is of the capture.
pub proof fn a_node_of_the_capture_is_a_source(node: NodeView, capture: u32)
    ensures
        distinct_sources(seq![node], capture) == (if node.capture == capture {
            seq![node]
        } else {
            Seq::empty()
        }),
{
    reveal_with_fuel(distinct_sources, 2);
    assert(seq![node].drop_last().len() == 0);
    assert(distinct_sources(seq![node], capture) =~= (if node.capture == capture {
        seq![node]
    } else {
        Seq::empty()
    }));
}

/// The imports of some sources and then others are those of the first and then those of
/// the others; a source that names nothing is none.
pub proof fn sources_are_named_in_turn(
    first: Seq<NodeView>,
    second: Seq<NodeView>,
    node: NodeView,
)
    ensures
        imports_named(first + second) == imports_named(first) + imports_named(second),
        imports_named(seq![node]) == (if node.text is Some && literal_path(
            node.text->0,
        ).len() > 0 {
            seq![
                ImportView {
                    path: literal_path(node.text->0),
                    line: node.row + 1,
                    column: node.column + 1,
                },
            ]
        } else {
            Seq::empty()
        }),
    decreases second.len(),
{
    reveal_with_fuel(imports_named, 2);
    assert(seq![node].drop_last().len() == 0);
    assert(seq![node].last() == node);
    assert(imports_named(seq![node]) =~= (if node.text is Some && literal_path(
        node.text->0,
    ).len() > 0 {
        seq![
            ImportView {
                path: literal_path(node.text->0),
                line: node.row + 1,
                column: node.column + 1,
            },
        ]
    } else {
        Seq::empty()
    }));
    if second.len() == 0 {
        assert(first + second == first);
        assert(imports_named(first) + imports_named(second) =~= imports_named(first));
    } else {
        sources_are_named_in_turn(first, second.drop_last(), node);
        assert((first + second).drop_last() == first + second.drop_last());
        assert((first + second).last() == second.last());
        assert(imports_named(first + second) =~= imports_named(first) + imports_named(second));
    }
}

proof fn lemma_all_readable(sources: Seq<NodeView>)
    ensures
        first_unreadable(sources) is None <==> forall|i: int|
            0 <= i < sources.len() ==> (#[trigger] sources[i]).text is Some,
    decreases sources.len(),
{
    if sources.len() > 0 {
        let init = sources.drop_last();
        lemma_all_readable(init);
        assert(sources[sources.len() - 1] == sources.last());
        if first_unreadable(sources) is None {
            assert forall|i: int| 0 <= i < sources.len() implies (#[trigger] sources[i]).text
                is Some by {
                if i < init.len() {
                    assert(init[i].text is Some);
                }
            }
        }
        if forall|i: int| 0 <= i < sources.len() ==> (#[trigger] sources[i]).text is Some {
            assert forall|i: int| 0 <= i < init.len() implies (#[trigger] init[i]).text is Some by {
                assert(init[i] == sources[i]);
            }
        }
    }
}

/// Imports are extracted exactly where every source can be read; else the first that
/// cannot is told by where it starts.
pub proof fn unreadable_sources_are_told(nodes: Seq<NodeView>, capture: u32, k: int)
    ensures
        extracted(nodes, capture) is Ok <==> forall|i: int|
            0 <= i < distinct_sources(nodes, capture).len() ==> (#[trigger] distinct_sources(
                nodes,
                capture,
            )[i]).text is Some,
        0 <= k < distinct_sources(nodes, capture).len() && distinct_sources(nodes, capture)[k].text
            is None && (forall|i: int|
            0 <= i < k ==> (#[trigger] distinct_sources(nodes, capture)[i]).text is Some)
            ==> extracted(nodes, capture) == Err::<Seq<ImportView>, ErrorView>(
            ErrorView::InvalidUtf8 {
                offset: distinct_sources(nodes, capture)[k].start_byte as nat,
            },
        ),
{
    let sources = distinct_sources(nodes, capture);
    lemma_all_readable(sources);
    if 0 <= k < sources.len() && sources[k].text is None && (forall|i: int|
        0 <= i < k ==> (#[trigger] sources[i]).text is Some) {
        lemma_first_unreadable_at(sources, k);
    }
}

proof fn lemma_first_unreadable_at(sources: Seq<NodeView>, k: int)
    requires
        0 <= k < sources.len(),
        sources[k].text is None,
        forall|i: int| 0 <= i < k ==> (#[trigger] sources[i]).text is Some,
    ensures
        first_unreadable(sources) == Some(sources[k].start_byte),
    decreases sources.len(),
{
    let init = sources.drop_last();
    if k < init.len() {
        assert forall|i: int| 0 <= i < k implies (#[trigger] init[i]).text is Some by {
            assert(init[i] == sources[i]);
        }
        lemma_first_unreadable_at(init, k);
    } else {
        lemma_all_readable(init);
        assert forall|i: int| 0 <= i < init.len() implies (#[trigger] init[i]).text is Some by {
            assert(init[i] == sources[i]);
        }
    }
}

/// A file is read as TSX exactly where its extension spells that, in whatever case.
pub proof fn tsx_is_told_by_the_extension(dir: Seq<char>, stem: Seq<char>, ext: Seq<char>)
    requires
        stem.len() > 0,
        !stem.contains('/'),
        !ext.contains('/'),
        !ext.contains('.'),
        ext.len() > 0,
    ensures
        grammar_for(dir + seq!['/'] + stem + seq!['.'] + ext) == Grammar::Tsx <==> path::spells_tsx(
            ext,
        ),
{
    path::sources_are_told_by_their_extension(dir, stem, ext);
}

/// The path of an import is what stands between its quotes, whatever white space stands
/// outside them, and keeps what stands inside them.
pub proof fn a_quoted_path_is_what_stands_between(
    front: Seq<char>,
    quote: char,
    named: Seq<char>,
    back: Seq<char>,
)
    requires
        forall|i: int| 0 <= i < front.len() ==> text::white_space(#[trigger] front[i]),
        forall|i: int| 0 <= i < back.len() ==> text::white_space(#[trigger] back[i]),
        quote == '\'' || quote == '"',
        named.len() > 0 ==> named[0] != '\'' && named[0] != '"' && named.last() != '\''
            && named.last() != '"',
    ensures
        literal_path(front + (seq![quote] + named + seq![quote]) + back) == named,
{
    let whole = seq![quote] + named + seq![quote];
    text::trimming_takes_white_space_alone(front, whole, back);
    text::unquoting_takes_quotes_alone(seq![quote], named, seq![quote]);
}

}
