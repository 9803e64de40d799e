//! Syntax trees, made and queried by the `tree-sitter` crate.
//!
//! Which nodes a query finds in a text is the crate's business: here it has a name,
//! `captured_nodes`, and so have the other answers of the crate that the library
//! rests on.

use tree_sitter::{
    Language, LanguageError, Parser, Query, QueryCursor, QueryError, StreamingIterator, Tree,
};
use vstd::prelude::*;

verus! {

#[verifier::external_type_specification]
#[verifier::external_body]
pub struct ExLanguage(tree_sitter::Language);

#[verifier::external_type_specification]
#[verifier::external_body]
pub struct ExLanguageError(tree_sitter::LanguageError);

#[verifier::external_type_specification]
#[verifier::external_body]
pub struct ExParser(tree_sitter::Parser);

#[verifier::external_type_specification]
#[verifier::external_body]
pub struct ExQuery(tree_sitter::Query);

#[verifier::external_type_specification]
#[verifier::external_body]
pub struct ExQueryError(tree_sitter::QueryError);

#[verifier::external_type_specification]
#[verifier::external_body]
pub struct ExTree(tree_sitter::Tree);

/// Static imports, re-exports, dynamic imports and calls of `require`.
pub const IMPORT_QUERY: &'static str = r#"
(import_statement
  source: (string) @import.source) @import.statement

(export_statement
  source: (string) @import.source) @export.reexport

(call_expression
  function: (import)
  arguments: (arguments (string) @import.source)) @import.dynamic_call

(call_expression
  function: (identifier) @import.require_fn
  arguments: (arguments (string) @import.source)
  (#eq? @import.require_fn "require"))
"#;

/// The grammars that the library reads.
#[derive(Debug, Clone, Copy, PartialEq, Eq, Structural)]
pub enum Grammar {
    TypeScript,
    Tsx,
}

/// A node that a query captured: which capture it was, where the node stands, and
/// its text where that is UTF-8. Rows and columns count from zero.
#[derive(Debug)]
pub struct CapturedNode {
    pub capture: u32,
    pub start_byte: usize,
    pub row: usize,
    pub column: usize,
    pub text: Option<String>,
}

#[verifier::ext_equal]
pub struct NodeView {
    pub capture: u32,
    pub start_byte: usize,
    pub row: nat,
    pub column: nat,
    pub text: Option<Seq<char>>,
}

impl DeepView for CapturedNode {
    type V = NodeView;

    open spec fn deep_view(&self) -> NodeView {
        NodeView {
            capture: self.capture,
            start_byte: self.start_byte,
            row: self.row as nat,
            column: self.column as nat,
            text: self.text.deep_view(),
        }
    }
}

/// The texts that a parser can take: their UTF-8 form is counted in 32 bits.
pub open spec fn fits_parser(source: Seq<char>) -> bool {
    vstd::utf8::encode_utf8(source).len() <= u32::MAX
}

/// The language of a grammar.
pub uninterp spec fn language_of(grammar: Grammar) -> Language;

/// Whether the parser takes a language, by the version of its tables.
pub uninterp spec fn language_accepted(language: Language) -> bool;

/// The language set on a parser.
pub uninterp spec fn parser_language(parser: Parser) -> Option<Language>;

/// Whether nothing but a language was ever set on a parser: no ranges, no timeout, no
/// cancellation flag.
pub uninterp spec fn parser_is_plain(parser: Parser) -> bool;

/// The text of the error with which `Query::new` refuses a query, if it does.
pub uninterp spec fn query_error(language: Language, query: Seq<char>) -> Option<Seq<char>>;

/// The text of a `tree_sitter::QueryError`.
pub uninterp spec fn query_error_text(error: QueryError) -> Seq<char>;

/// The language and the text from which a query was made.
pub uninterp spec fn query_origin(query: Query) -> (Language, Seq<char>);

/// The number of the capture of that name in a query.
pub uninterp spec fn capture_index(
    language: Language,
    query: Seq<char>,
    name: Seq<char>,
) -> Option<u32>;

/// The language and the text from which a tree was made.
pub uninterp spec fn tree_origin(tree: Tree) -> (Language, Seq<char>);

/// What a query captures in a text, match after match.
pub uninterp spec fn captured_nodes(
    language: Language,
    query: Seq<char>,
    source: Seq<char>,
) -> Seq<NodeView>;

/// `tree_sitter_typescript::LANGUAGE_TYPESCRIPT`, as a language.
#[verifier::external_body]
pub(crate) fn typescript_language() -> (r: Language)
    ensures
        r == language_of(Grammar::TypeScript),
{
    tree_sitter_typescript::LANGUAGE_TYPESCRIPT.into()
}

/// `tree_sitter_typescript::LANGUAGE_TSX`, as a language.
#[verifier::external_body]
pub(crate) fn tsx_language() -> (r: Language)
    ensures
        r == language_of(Grammar::Tsx),
{
    tree_sitter_typescript::LANGUAGE_TSX.into()
}

/// `tree_sitter::Parser::new`: a parser on which nothing is set.
pub assume_specification[ tree_sitter::Parser::new ]() -> (r: Parser)
    ensures
        parser_language(r) is None,
        parser_is_plain(r),
;

/// `tree_sitter::Parser::set_language`: sets the language where the parser takes it,
/// and leaves the parser as it was where not.
pub assume_specification[ tree_sitter::Parser::set_language ](
    parser: &mut Parser,
    language: &Language,
) -> (r: Result<(), LanguageError>)
    ensures
        r is Ok <==> language_accepted(*language),
        r is Ok ==> parser_language(*final(parser)) == Some(*language),
        r is Err ==> parser_language(*final(parser)) == parser_language(*old(parser)),
        parser_is_plain(*final(parser)) == parser_is_plain(*old(parser)),
;

/// `tree_sitter::Parser::parse` of a whole text: gives a tree where the parser has a
/// language, since neither a timeout nor a cancellation flag can stop it.
#[verifier::external_body]
pub(crate) fn parse_text(parser: &mut Parser, source: &str) -> (r: Option<Tree>)
    requires
        parser_is_plain(*old(parser)),
        fits_parser(source@),
    ensures
        parser_language(*final(parser)) == parser_language(*old(parser)),
        parser_is_plain(*final(parser)),
        match (r, parser_language(*old(parser))) {
            (Some(tree), Some(language)) => tree_origin(tree) == (language, source@),
            (None, None) => true,
            _ => false,
        },
{
    parser.parse(source, None)
}

/// `tree_sitter::Query::new` on the query of the library: the query made of it, or the
/// error that the language and the text decide.
#[verifier::external_body]
pub(crate) fn compile_query(language: &Language, source: &str) -> (r: Result<Query, QueryError>)
    requires
        source@ == IMPORT_QUERY@,
    ensures
        match r {
            Ok(query) => query_error(*language, source@) is None && query_origin(query) == (
                *language,
                source@,
            ),
            Err(error) => query_error(*language, source@) == Some(query_error_text(error)),
        },
{
    Query::new(language, source)
}

/// `tree_sitter::QueryError`'s `to_string`: the error's text.
#[verifier::external_body]
pub(crate) fn describe_query_error(error: &QueryError) -> (r: String)
    ensures
        r@ == query_error_text(*error),
{
    error.to_string()
}

/// `tree_sitter::Query::capture_index_for_name`: the number of the capture of that
/// name, where the query has one.
#[verifier::external_body]
pub(crate) fn find_capture(query: &Query, name: &str) -> (r: Option<u32>)
    ensures
        r == capture_index(query_origin(*query).0, query_origin(*query).1, name@),
{
    query.capture_index_for_name(name)
}

/// `tree_sitter::QueryCursor::matches` from the root of a tree, with a new cursor: the
/// captured nodes, match after match. A node starts inside the text, so its row and
/// its column are below the largest `usize`. Both are counted along with the bytes
/// before the node, so nodes at one place start at one byte.
#[verifier::external_body]
pub(crate) fn query_tree(query: &Query, tree: &Tree, source: &str) -> (r: Vec<CapturedNode>)
    requires
        fits_parser(source@),
        tree_origin(*tree) == (query_origin(*query).0, source@),
    ensures
        r.deep_view() == captured_nodes(query_origin(*query).0, query_origin(*query).1, source@),
        forall|i: int|
            0 <= i < r@.len() ==> (#[trigger] r@[i]).row < usize::MAX && r@[i].column < usize::MAX,
        forall|i: int, j: int|
            0 <= i < r@.len() && 0 <= j < r@.len() && (#[trigger] r@[i]).row == (
            #[trigger] r@[j]).row && r@[i].column == r@[j].column ==> r@[i].start_byte
                == r@[j].start_byte,
{
    let mut cursor = QueryCursor::new();
    let mut matches = cursor.matches(query, tree.root_node(), source.as_bytes());
    let mut nodes: Vec<CapturedNode> = Vec::new();
    while let Some(found) = matches.next() {
        nodes.extend(found.captures.iter().map(|capture| CapturedNode {
            capture: capture.index,
            start_byte: capture.node.start_byte(),
            row: capture.node.start_position().row,
            column: capture.node.start_position().column,
            text: capture.node.utf8_text(source.as_bytes()).ok().map(str::to_owned),
        }));
    }
    nodes
}

}
