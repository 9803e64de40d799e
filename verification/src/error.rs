//! What can go wrong.

use vstd::prelude::*;
use vstd::string::StringExecFns;

use crate::text;
use crate::text::push_decimal;

verus! {

pub type AddResult<T> = Result<T, AddError>;

/// Every failure that the detector reports. Failures of the system or of the YAML
/// reader carry their text.
#[derive(Debug, Clone)]
pub enum AddError {
    IoRead { path: String, source: String },
    ConfigRead { path: String, source: String },
    ConfigParse(String),
    LanguageSetup(String),
    ParseFailed { path: String },
    QueryCompile(String),
    InvalidUtf8 { offset: usize },
    TargetNotFound(String),
    NoSourceFiles(String),
    ReportWrite { path: String, source: String },
    ReportRender(String),
}

/// `AddError` over sequences of characters.
pub enum ErrorView {
    IoRead { path: Seq<char>, source: Seq<char> },
    ConfigRead { path: Seq<char>, source: Seq<char> },
    ConfigParse(Seq<char>),
    LanguageSetup(Seq<char>),
    ParseFailed { path: Seq<char> },
    QueryCompile(Seq<char>),
    InvalidUtf8 { offset: nat },
    TargetNotFound(Seq<char>),
    NoSourceFiles(Seq<char>),
    ReportWrite { path: Seq<char>, source: Seq<char> },
    ReportRender(Seq<char>),
}

impl View for AddError {
    type V = ErrorView;

    open spec fn view(&self) -> ErrorView {
        match self {
            AddError::IoRead { path, source } => ErrorView::IoRead {
                path: path@,
                source: source@,
            },
            AddError::ConfigRead { path, source } => ErrorView::ConfigRead {
                path: path@,
                source: source@,
            },
            AddError::ConfigParse(source) => ErrorView::ConfigParse(source@),
            AddError::LanguageSetup(reason) => ErrorView::LanguageSetup(reason@),
            AddError::ParseFailed { path } => ErrorView::ParseFailed { path: path@ },
            AddError::QueryCompile(reason) => ErrorView::QueryCompile(reason@),
            AddError::InvalidUtf8 { offset } => ErrorView::InvalidUtf8 { offset: *offset as nat },
            AddError::TargetNotFound(path) => ErrorView::TargetNotFound(path@),
            AddError::NoSourceFiles(path) => ErrorView::NoSourceFiles(path@),
            AddError::ReportWrite { path, source } => ErrorView::ReportWrite {
                path: path@,
                source: source@,
            },
            AddError::ReportRender(reason) => ErrorView::ReportRender(reason@),
        }
    }
}

/// The sentence that tells a user what went wrong.
pub open spec fn error_message(error: ErrorView) -> Seq<char> {
    match error {
        ErrorView::IoRead { path, source } => "failed to read file `"@ + path + "`: "@ + source,
        ErrorView::ConfigRead { path, source } => "failed to read configuration `"@ + path
            + "`: "@ + source,
        ErrorView::ConfigParse(source) => "failed to parse architecture configuration: "@ + source,
        ErrorView::LanguageSetup(reason) => "tree-sitter language setup failed: "@ + reason,
        ErrorView::ParseFailed { path } => "tree-sitter parse failed for `"@ + path + "`"@,
        ErrorView::QueryCompile(reason) => "invalid tree-sitter query: "@ + reason,
        ErrorView::InvalidUtf8 { offset } => "invalid UTF-8 in source at byte offset "@ + text::decimal(
            offset,
        ),
        ErrorView::TargetNotFound(path) => "target path does not exist: `"@ + path + "`"@,
        ErrorView::NoSourceFiles(path) => "no TypeScript source files found under `"@ + path
            + "`"@,
        ErrorView::ReportWrite { path, source } => "failed to write report `"@ + path + "`: "@
            + source,
        ErrorView::ReportRender(reason) => "failed to render report: "@ + reason,
    }
}

impl AddError {
    /// The sentence that tells a user what went wrong.
    pub fn message(&self) -> (r: String)
        ensures
            r@ == error_message(self@),
    {
        match self {
            AddError::IoRead { path, source } => quoted(
                "failed to read file `",
                path.as_str(),
                "`: ",
                source.as_str(),
            ),
            AddError::ConfigRead { path, source } => quoted(
                "failed to read configuration `",
                path.as_str(),
                "`: ",
                source.as_str(),
            ),
            AddError::ConfigParse(source) => "failed to parse architecture configuration: ".to_owned().concat(
                source.as_str(),
            ),
            AddError::LanguageSetup(reason) => "tree-sitter language setup failed: ".to_owned().concat(
                reason.as_str(),
            ),
            AddError::ParseFailed { path } => "tree-sitter parse failed for `".to_owned().concat(
                path.as_str(),
            ).concat("`"),
            AddError::QueryCompile(reason) => "invalid tree-sitter query: ".to_owned().concat(
                reason.as_str(),
            ),
            AddError::InvalidUtf8 { offset } => {
                let mut text = "invalid UTF-8 in source at byte offset ".to_owned();
                push_decimal(&mut text, *offset as u64);
                text
            },
            AddError::TargetNotFound(path) => "target path does not exist: `".to_owned().concat(
                path.as_str(),
            ).concat("`"),
            AddError::NoSourceFiles(path) => "no TypeScript source files found under `".to_owned().concat(
                path.as_str(),
            ).concat("`"),
            AddError::ReportWrite { path, source } => quoted(
                "failed to write report `",
                path.as_str(),
                "`: ",
                source.as_str(),
            ),
            AddError::ReportRender(reason) => "failed to render report: ".to_owned().concat(
                reason.as_str(),
            ),
        }
    }
}

/// The four pieces, one after the other.
pub(crate) fn quoted(a: &str, b: &str, c: &str, d: &str) -> (r: String)
    ensures
        r@ == a@ + b@ + c@ + d@,
{
    let mut text = a.to_owned();
    text.append(b);
    text.append(c);
    text.append(d);
    text
}

/// What a user is told of an error holds all that is known of it.
pub proof fn a_message_tells_what_went_wrong(error: ErrorView)
    ensures
        match error {
            ErrorView::IoRead { path, source } => text::occurs(error_message(error), path)
                && text::occurs(error_message(error), source),
            ErrorView::ConfigRead { path, source } => text::occurs(error_message(error), path)
                && text::occurs(error_message(error), source),
            ErrorView::ConfigParse(source) => text::occurs(error_message(error), source),
            ErrorView::LanguageSetup(reason) => text::occurs(error_message(error), reason),
            ErrorView::ParseFailed { path } => text::occurs(error_message(error), path),
            ErrorView::QueryCompile(reason) => text::occurs(error_message(error), reason),
            ErrorView::InvalidUtf8 { offset } => text::occurs(
                error_message(error),
                text::decimal(offset),
            ),
            ErrorView::TargetNotFound(path) => text::occurs(error_message(error), path),
            ErrorView::NoSourceFiles(path) => text::occurs(error_message(error), path),
            ErrorView::ReportWrite { path, source } => text::occurs(error_message(error), path)
                && text::occurs(error_message(error), source),
            ErrorView::ReportRender(reason) => text::occurs(error_message(error), reason),
        },
{
    text::a_sum_holds_its_parts();
}

}
