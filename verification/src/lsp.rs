//! What the language server says to an editor.
//!
//! The server itself only carries messages: which document is analyzed, what is
//! published about which file, and where in the file, is decided here.

use tower_lsp::lsp_types::Url;
use vstd::prelude::*;
use vstd::string::StringExecFns;

use crate::ast_engine;
use crate::cache;
use crate::cache::{ArchitectureCache, CacheUpdateResult, CacheView};
use crate::error;
use crate::error::{AddError, ErrorView};
use crate::path;
use crate::path::is_supported_source;
use crate::syntax;
use crate::text;
use crate::text::push_decimal;
use crate::validator;
use crate::validator::{Violation, ViolationSeverity, ViolationView};

verus! {

/// A place in a document; lines and characters count from zero.
#[derive(Debug, Clone, Copy, PartialEq, Eq, Structural)]
pub struct Position {
    pub line: u32,
    pub character: u32,
}

#[derive(Debug, Clone, Copy, PartialEq, Eq, Structural)]
pub struct Range {
    pub start: Position,
    pub end: Position,
}

#[derive(Debug, Clone, Copy, PartialEq, Eq, Structural)]
pub enum DiagnosticSeverity {
    Error,
    Warning,
}

#[derive(Debug, Clone, Copy, PartialEq, Eq, Structural)]
pub enum DiagnosticTag {
    Unnecessary,
}

#[derive(Debug, Clone)]
pub struct Location {
    pub uri: String,
    pub range: Range,
}

#[derive(Debug, Clone)]
pub struct DiagnosticRelatedInformation {
    pub location: Location,
    pub message: String,
}

#[derive(Debug, Clone)]
pub struct Diagnostic {
    pub range: Range,
    pub severity: Option<DiagnosticSeverity>,
    pub code: Option<String>,
    pub source: Option<String>,
    pub message: String,
    pub related_information: Option<Vec<DiagnosticRelatedInformation>>,
    pub tags: Option<Vec<DiagnosticTag>>,
}

/// What to publish about one document.
#[derive(Debug, Clone)]
pub struct Publication {
    pub uri: String,
    pub diagnostics: Vec<Diagnostic>,
}

#[verifier::ext_equal]
pub struct RelatedView {
    pub uri: Seq<char>,
    pub range: Range,
    pub message: Seq<char>,
}

#[verifier::ext_equal]
pub struct DiagnosticView {
    pub range: Range,
    pub severity: Option<DiagnosticSeverity>,
    pub code: Option<Seq<char>>,
    pub source: Option<Seq<char>>,
    pub message: Seq<char>,
    pub related_information: Option<Seq<RelatedView>>,
    pub tags: Option<Seq<DiagnosticTag>>,
}

#[verifier::ext_equal]
pub struct PublicationView {
    pub uri: Seq<char>,
    pub diagnostics: Seq<DiagnosticView>,
}

impl DeepView for DiagnosticRelatedInformation {
    type V = RelatedView;

    open spec fn deep_view(&self) -> RelatedView {
        RelatedView {
            uri: self.location.uri@,
            range: self.location.range,
            message: self.message@,
        }
    }
}

impl DeepView for Diagnostic {
    type V = DiagnosticView;

    open spec fn deep_view(&self) -> DiagnosticView {
        DiagnosticView {
            range: self.range,
            severity: self.severity,
            code: self.code.deep_view(),
            source: self.source.deep_view(),
            message: self.message@,
            related_information: self.related_information.deep_view(),
            tags: match self.tags {
                Some(tags) => Some(tags@),
                None => None,
            },
        }
    }
}

impl DeepView for Publication {
    type V = PublicationView;

    open spec fn deep_view(&self) -> PublicationView {
        PublicationView { uri: self.uri@, diagnostics: self.diagnostics.deep_view() }
    }
}

/// A number that counts from one, as one that counts from zero, in 32 bits.
pub open spec fn zero_based(n: nat) -> u32 {
    if n == 0 {
        0
    } else {
        ((n - 1) % 0x1_0000_0000) as u32
    }
}

/// The place of a violation, as an empty range.
pub open spec fn range_of(v: ViolationView) -> Range {
    let position = Position { line: zero_based(v.line), character: zero_based(v.column) };
    Range { start: position, end: position }
}

/// The remediation steps, numbered from one, each at the place of the violation.
pub open spec fn related_of(uri: Seq<char>, range: Range, steps: Seq<Seq<char>>) -> Seq<
    RelatedView,
> {
    Seq::new(
        steps.len(),
        |i: int|
            RelatedView {
                uri,
                range,
                message: text::decimal((i + 1) as nat) + ". "@ + steps[i],
            },
    )
}

/// What an editor shows of a violation.
pub open spec fn diagnostic_of(uri: Seq<char>, v: ViolationView) -> DiagnosticView {
    let high = v.severity == ViolationSeverity::High;
    DiagnosticView {
        range: range_of(v),
        severity: Some(
            if high {
                DiagnosticSeverity::Error
            } else {
                DiagnosticSeverity::Warning
            },
        ),
        code: Some(v.rule),
        source: Some("architectural-drift-detector"@),
        message: v.message + " (import `"@ + v.import_path + "`)"@,
        related_information: if v.remediation.len() == 0 {
            None
        } else {
            Some(related_of(uri, range_of(v), v.remediation))
        },
        tags: if high {
            Some(seq![DiagnosticTag::Unnecessary])
        } else {
            None
        },
    }
}

pub open spec fn diagnostics_of(uri: Seq<char>, violations: Seq<ViolationView>) -> Seq<
    DiagnosticView,
> {
    Seq::new(violations.len(), |i: int| diagnostic_of(uri, violations[i]))
}

fn counted_from_zero(n: usize) -> (r: u32)
    ensures
        r == zero_based(n as nat),
{
    let before: u64 = n.saturating_sub(1) as u64;
    (before % 0x1_0000_0000) as u32
}

fn related_information(uri: &str, range: Range, steps: &Vec<String>) -> (r: Vec<
    DiagnosticRelatedInformation,
>)
    ensures
        r.deep_view() == related_of(uri@, range, steps.deep_view()),
{
    let mut related: Vec<DiagnosticRelatedInformation> = Vec::new();
    let ghost all = related_of(uri@, range, steps.deep_view());
    let mut i: usize = 0;
    while i < steps.len()
        invariant
            i <= steps@.len(),
            all == related_of(uri@, range, steps.deep_view()),
            related.deep_view() == all.take(i as int),
        decreases steps@.len() - i,
    {
        let ghost before = related.deep_view();
        let mut message: String = String::new();
        push_decimal(&mut message, (i + 1) as u64);
        message.append(". ");
        message.append(steps[i].as_str());
        assert(message@ =~= text::decimal((i + 1) as nat) + ". "@ + steps.deep_view()[i as int]);
        let entry = DiagnosticRelatedInformation {
            location: Location { uri: uri.to_owned(), range },
            message,
        };
        related.push(entry);
        assert(related.deep_view() =~= before.push(entry.deep_view()));
        i += 1;
        assert(related.deep_view() =~= all.take(i as int));
    }
    assert(all.take(i as int) =~= all);
    related
}

fn violation_to_diagnostic(uri: &str, violation: &Violation) -> (r: Diagnostic)
    ensures
        r.deep_view() == diagnostic_of(uri@, violation.deep_view()),
{
    let position = Position {
        line: counted_from_zero(violation.line),
        character: counted_from_zero(violation.column),
    };
    let range = Range { start: position, end: position };
    let related = related_information(uri, range, &violation.remediation);
    assert(related.deep_view().len() == violation.remediation.deep_view().len());
    let high = violation.is_high_severity();
    let mut message = violation.message.clone();
    message.append(" (import `");
    message.append(violation.import_path.as_str());
    message.append("`)");
    let tags = if high {
        let mut tags: Vec<DiagnosticTag> = Vec::new();
        tags.push(DiagnosticTag::Unnecessary);
        assert(tags@ =~= seq![DiagnosticTag::Unnecessary]);
        Some(tags)
    } else {
        None
    };
    let severity = if high {
        DiagnosticSeverity::Error
    } else {
        DiagnosticSeverity::Warning
    };
    let r = Diagnostic {
        range,
        severity: Some(severity),
        code: Some(violation.rule.clone()),
        source: Some("architectural-drift-detector".to_owned()),
        message,
        related_information: if related.len() == 0 {
            None
        } else {
            Some(related)
        },
        tags,
    };
    assert(r.deep_view() =~= diagnostic_of(uri@, violation.deep_view()));
    r
}

/// What an editor shows of the violations in the document at `uri`.
pub fn violations_to_diagnostics(uri: &str, violations: &[Violation]) -> (r: Vec<Diagnostic>)
    ensures
        r.deep_view() == diagnostics_of(uri@, violations.deep_view()),
{
    let mut diagnostics: Vec<Diagnostic> = Vec::new();
    let ghost all = diagnostics_of(uri@, violations.deep_view());
    let mut i: usize = 0;
    while i < violations.len()
        invariant
            i <= violations@.len(),
            all == diagnostics_of(uri@, violations.deep_view()),
            diagnostics.deep_view() == all.take(i as int),
        decreases violations@.len() - i,
    {
        let ghost before = diagnostics.deep_view();
        let diagnostic = violation_to_diagnostic(uri, &violations[i]);
        diagnostics.push(diagnostic);
        assert(diagnostics.deep_view() =~= before.push(diagnostic.deep_view()));
        i += 1;
        assert(diagnostics.deep_view() =~= all.take(i as int));
    }
    assert(all.take(i as int) =~= all);
    diagnostics
}

/// The path of the file that a URL names, on systems where `/` alone separates paths.
pub uninterp spec fn url_file_path(url: Seq<char>) -> Option<Seq<char>>;

/// The URL of the file at a path, on systems where `/` alone separates paths.
pub uninterp spec fn file_url(file_path: Seq<char>) -> Option<Seq<char>>;

/// `Url::to_file_path` of a URL given by its text: the path of the file that it names,
/// which starts at the root; none where it names no file of this system.
#[verifier::external_body]
fn uri_to_path(uri: &str) -> (r: Option<String>)
    ensures
        r.deep_view() == url_file_path(uri@),
        r matches Some(file_path) ==> path::rooted(file_path@),
{
    let url = Url::parse(uri).ok()?;
    url.to_file_path().ok().map(|file_path| file_path.to_string_lossy().into_owned())
}

/// `Url::from_file_path`: the text of the URL of the file at that path; none where the
/// path does not start at the root.
#[verifier::external_body]
fn path_to_uri(file_path: &str) -> (r: Option<String>)
    ensures
        r.deep_view() == file_url(file_path@),
        r is Some <==> path::rooted(file_path@),
{
    Url::from_file_path(file_path).ok().map(|url| url.to_string())
}

/// The file to analyze when a document changes: none where the URL names no file, or
/// one that is no TypeScript source.
pub open spec fn analyzed_path(uri: Seq<char>) -> Option<Seq<char>> {
    match url_file_path(uri) {
        Some(file_path) => if path::names_source(file_path) {
            Some(file_path)
        } else {
            None
        },
        None => None,
    }
}

/// The file to analyze when the document at `uri` changes.
pub fn document_target(uri: &str) -> (r: Option<String>)
    ensures
        r.deep_view() == analyzed_path(uri@),
        r matches Some(file_path) ==> path::rooted(file_path@),
{
    match uri_to_path(uri) {
        Some(file_path) => if is_supported_source(file_path.as_str()) {
            Some(file_path)
        } else {
            None
        },
        None => None,
    }
}

/// The text of a document after whole-text changes: the last one's, or nothing.
pub fn changed_text(changes: Vec<String>) -> (r: String)
    ensures
        r@ == (if changes@.len() == 0 {
            Seq::empty()
        } else {
            changes@.last()@
        }),
{
    if changes.len() == 0 {
        String::new()
    } else {
        changes[changes.len() - 1].clone()
    }
}

/// What to publish after an update: the diagnostics of every file that has a URL.
pub open spec fn publications(diagnostics: Seq<(Seq<char>, Seq<ViolationView>)>) -> Seq<
    PublicationView,
>
    decreases diagnostics.len(),
{
    if diagnostics.len() == 0 {
        Seq::empty()
    } else {
        let before = publications(diagnostics.drop_last());
        match file_url(diagnostics.last().0) {
            Some(uri) => before.push(
                PublicationView { uri, diagnostics: diagnostics_of(uri, diagnostics.last().1) },
            ),
            None => before,
        }
    }
}

/// What to publish after `update`.
pub fn publications_of(update: &CacheUpdateResult) -> (r: Vec<Publication>)
    ensures
        r.deep_view() == publications(update@.diagnostics),
{
    let mut published: Vec<Publication> = Vec::new();
    let ghost all = update@.diagnostics;
    let mut i: usize = 0;
    assert(published.deep_view() =~= publications(all.take(0)));
    while i < update.diagnostics.len()
        invariant
            i <= update.diagnostics@.len(),
            all == update.diagnostics.deep_view(),
            published.deep_view() == publications(all.take(i as int)),
        decreases update.diagnostics@.len() - i,
    {
        let entry = &update.diagnostics[i];
        proof {
            assert(all.take(i + 1).drop_last() == all.take(i as int));
            assert(all.take(i + 1).last() == entry.deep_view());
        }
        if let Some(uri) = path_to_uri(entry.0.as_str()) {
            let violations = entry.1.as_slice();
            assert(violations.deep_view() =~= entry.1.deep_view());
            let ghost before = published.deep_view();
            let diagnostics = violations_to_diagnostics(uri.as_str(), violations);
            let publication = Publication { uri, diagnostics };
            published.push(publication);
            assert(published.deep_view() =~= before.push(publication.deep_view()));
        }
        i += 1;
    }
    assert(all.take(i as int) == all);
    published
}

/// What the server logs of a failed analysis.
pub open spec fn failure_text(problem: ErrorView) -> Seq<char> {
    "analysis failed: "@ + error::error_message(problem)
}

/// What the server logs of a failed analysis.
pub fn failure_message(failure: &AddError) -> (r: String)
    ensures
        r@ == failure_text(failure@),
{
    "analysis failed: ".to_owned().concat(failure.message().as_str())
}

/// What follows from a change of a file's text: the cache, and what to publish or to
/// log.
pub open spec fn analysis(state: CacheView, file_path: Seq<char>, source: Seq<char>) -> (
    CacheView,
    Result<Seq<PublicationView>, Seq<char>>,
) {
    let language = syntax::language_of(ast_engine::grammar_for(file_path));
    match ast_engine::engine_problem(language) {
        Some(problem) => (state, Err(failure_text(problem))),
        None => match ast_engine::parsed(language, file_path, source) {
            Ok(file) => (
                cache::changed(state, file),
                Ok(publications(cache::update_after(state, file).diagnostics)),
            ),
            Err(problem) => (state, Err(failure_text(problem))),
        },
    }
}

/// Takes the new text of a file into the cache, and gives what to publish, or what to
/// log where the text cannot be analyzed.
pub fn analyze_document(known: &mut ArchitectureCache, file_path: &str, source: &str) -> (r: Result<
    Vec<Publication>,
    String,
>)
    requires
        syntax::fits_parser(source@),
    ensures
        final(known)@ == analysis(old(known)@, file_path@, source@).0,
        match r {
            Ok(published) => analysis(old(known)@, file_path@, source@).1 == Ok::<_, Seq<char>>(
                published.deep_view(),
            ),
            Err(message) => analysis(old(known)@, file_path@, source@).1 == Err::<
                Seq<PublicationView>,
                _,
            >(message@),
        },
{
    match known.process_change(file_path, source) {
        Ok(update) => Ok(publications_of(&update)),
        Err(failure) => Err(failure_message(&failure)),
    }
}

/// Forgets the file of a closed document.
pub fn close_document(known: &mut ArchitectureCache, uri: &str)
    ensures
        final(known)@ == (match url_file_path(uri@) {
            Some(file_path) => cache::removed(old(known)@, file_path),
            None => old(known)@,
        }),
{
    if let Some(file_path) = uri_to_path(uri) {
        known.remove_file(file_path.as_str());
    }
}

/// Every violation becomes one diagnostic: an error where its severity is high, and
/// only then marked unnecessary; with one related note for each remediation step.
pub proof fn each_violation_becomes_one_diagnostic(
    uri: Seq<char>,
    violations: Seq<ViolationView>,
    i: int,
)
    requires
        0 <= i < violations.len(),
    ensures
        diagnostics_of(uri, violations).len() == violations.len(),
        ({
            let d = diagnostics_of(uri, violations)[i];
            let v = violations[i];
            &&& d.severity == Some(DiagnosticSeverity::Error) <==> v.severity
                == ViolationSeverity::High
            &&& d.tags is Some <==> v.severity == ViolationSeverity::High
            &&& d.code == Some(v.rule)
            &&& d.related_information is None <==> v.remediation.len() == 0
            &&& d.related_information matches Some(notes) ==> notes.len() == v.remediation.len()
        }),
{
}

/// A place that counts from one becomes the place before it, which counts from zero.
pub proof fn positions_count_from_zero(uri: Seq<char>, v: ViolationView)
    requires
        1 <= v.line <= 0x1_0000_0000,
        1 <= v.column <= 0x1_0000_0000,
    ensures
        diagnostic_of(uri, v).range.start.line == v.line - 1,
        diagnostic_of(uri, v).range.start.character == v.column - 1,
        diagnostic_of(uri, v).range.end == diagnostic_of(uri, v).range.start,
{
}

/// An analysis that fails leaves the cache as it was.
pub proof fn a_failed_analysis_changes_nothing(
    state: CacheView,
    file_path: Seq<char>,
    source: Seq<char>,
)
    ensures
        analysis(state, file_path, source).1 is Err ==> analysis(state, file_path, source).0
            == state,
{
}

/// What an analysis makes of a cache that changes and removals lead to is such a cache
/// again.
pub proof fn an_analyzed_cache_is_reached(
    state: CacheView,
    file_path: Seq<char>,
    source: Seq<char>,
)
    requires
        cache::reached(state),
    ensures
        cache::reached(analysis(state, file_path, source).0),
{
    let language = syntax::language_of(ast_engine::grammar_for(file_path));
    if ast_engine::engine_problem(language) is None {
        if let Ok(file) = ast_engine::parsed(language, file_path, source) {
            cache::a_changed_cache_is_reached(state, file);
        }
    }
}

/// Every file that has a URL is published, with its diagnostics.
pub proof fn files_with_urls_are_published(
    diagnostics: Seq<(Seq<char>, Seq<ViolationView>)>,
    entry: (Seq<char>, Seq<ViolationView>),
    uri: Seq<char>,
)
    requires
        diagnostics.contains(entry),
        file_url(entry.0) == Some(uri),
    ensures
        publications(diagnostics).contains(
            PublicationView { uri, diagnostics: diagnostics_of(uri, entry.1) },
        ),
    decreases diagnostics.len(),
{
    let init = diagnostics.drop_last();
    let before = publications(init);
    let all = publications(diagnostics);
    let wanted = PublicationView { uri, diagnostics: diagnostics_of(uri, entry.1) };
    if diagnostics.last() == entry {
        assert(all[before.len() as int] == wanted);
    } else {
        let k = choose|k: int| 0 <= k < diagnostics.len() && diagnostics[k] == entry;
        assert(init[k] == entry);
        files_with_urls_are_published(init, entry, uri);
        let j = choose|j: int| 0 <= j < before.len() && before[j] == wanted;
        assert(all[j] == wanted);
    }
}

/// In whatever state changes and removals have led to, the analysis of a file publishes
/// the diagnostics of every other known file that has a URL and an import that names
/// the analyzed one.
pub proof fn an_analysis_publishes_the_dependents(
    state: CacheView,
    file_path: Seq<char>,
    source: Seq<char>,
    importer: Seq<char>,
    i: int,
    uri: Seq<char>,
)
    requires
        cache::reached(state),
        analysis(state, file_path, source).1 is Ok,
        state.layouts.contains_key(importer),
        importer != cache::key_of(file_path),
        0 <= i < state.layouts[importer].imports.len(),
        cache::names_file(
            state.layouts[importer].file_path,
            state.layouts[importer].imports[i].path,
            file_path,
        ),
        file_url(importer) == Some(uri),
    ensures
        analysis(state, file_path, source).1->Ok_0.contains(
            PublicationView {
                uri,
                diagnostics: diagnostics_of(
                    uri,
                    validator::file_violations(state.config, state.layouts[importer]),
                ),
            },
        ),
{
    let language = syntax::language_of(ast_engine::grammar_for(file_path));
    let file = ast_engine::parsed(language, file_path, source)->Ok_0;
    cache::a_change_reaches_whoever_names_the_file(state, file, importer, i);
    files_with_urls_are_published(
        cache::update_after(state, file).diagnostics,
        (importer, validator::file_violations(state.config, state.layouts[importer])),
        uri,
    );
}

/// What is published of some files and then others is what is published of the first and
/// then what is published of the others; of one file, its diagnostics, once, where it has
/// a URL.
pub proof fn files_are_published_in_turn(
    first: Seq<(Seq<char>, Seq<ViolationView>)>,
    second: Seq<(Seq<char>, Seq<ViolationView>)>,
    entry: (Seq<char>, Seq<ViolationView>),
)
    ensures
        publications(first + second) == publications(first) + publications(second),
        file_url(entry.0) is None ==> publications(seq![entry]).len() == 0,
        file_url(entry.0) is Some ==> publications(seq![entry]).len() == 1 && publications(
            seq![entry],
        )[0].uri == file_url(entry.0)->0 && publications(seq![entry])[0].diagnostics
            == diagnostics_of(file_url(entry.0)->0, entry.1),
    decreases second.len(),
{
    reveal_with_fuel(publications, 2);
    assert(seq![entry].drop_last().len() == 0);
    assert(seq![entry].last() == entry);
    if second.len() == 0 {
        assert(first + second == first);
        assert(publications(first) + publications(second) =~= publications(first));
    } else {
        files_are_published_in_turn(first, second.drop_last(), entry);
        assert((first + second).drop_last() == first + second.drop_last());
        assert((first + second).last() == second.last());
        assert(publications(first + second) =~= publications(first) + publications(second));
    }
}

/// A diagnostic tells the message and the import of its violation, names this program, and
/// gives each step of the remediation in order, with its number, at the same place.
pub proof fn a_diagnostic_tells_its_violation(uri: Seq<char>, v: ViolationView, i: int)
    ensures
        text::occurs(diagnostic_of(uri, v).message, v.message),
        text::occurs(diagnostic_of(uri, v).message, v.import_path),
        diagnostic_of(uri, v).source == Some("architectural-drift-detector"@),
        v.remediation.len() > 0 ==> diagnostic_of(uri, v).related_information is Some
            && diagnostic_of(uri, v).related_information->0.len() == v.remediation.len(),
        0 <= i < v.remediation.len() ==> ({
            let note = diagnostic_of(uri, v).related_information->0[i];
            &&& note.uri == uri
            &&& note.range == diagnostic_of(uri, v).range
            &&& text::ends_with(note.message, v.remediation[i])
            &&& text::decimal((i + 1) as nat).is_prefix_of(note.message)
        }),
{
    text::a_sum_holds_its_parts();
    if 0 <= i < v.remediation.len() {
        let step = v.remediation[i];
        let note = diagnostic_of(uri, v).related_information->0[i].message;
        assert(note == text::decimal((i + 1) as nat) + ". "@ + step);
        assert(note.skip(note.len() - step.len()) =~= step);
    }
}

/// A line or a column that counts from nothing is the first.
pub proof fn positions_stop_at_zero(uri: Seq<char>, v: ViolationView)
    ensures
        v.line == 0 ==> diagnostic_of(uri, v).range.start.line == 0,
        v.column == 0 ==> diagnostic_of(uri, v).range.start.character == 0,
        diagnostic_of(uri, v).range.end == diagnostic_of(uri, v).range.start,
{
}

/// A document is analyzed exactly where its URL names a file whose extension spells one of
/// the two endings, in whatever case.
pub proof fn sources_alone_are_analyzed(
    uri: Seq<char>,
    dir: Seq<char>,
    stem: Seq<char>,
    ext: Seq<char>,
)
    requires
        stem.len() > 0,
        !stem.contains('/'),
        !ext.contains('/'),
        !ext.contains('.'),
        ext.len() > 0,
    ensures
        url_file_path(uri) is None ==> analyzed_path(uri) is None,
        url_file_path(uri) == Some(dir + seq!['/'] + stem + seq!['.'] + ext) ==> analyzed_path(uri)
            == (if path::spells_ts(ext) || path::spells_tsx(ext) {
            url_file_path(uri)
        } else {
            None
        }),
{
    path::sources_are_told_by_their_extension(dir, stem, ext);
}

/// What is no high error is a warning; a diagnostic is of its violation alone.
pub proof fn diagnostics_warn_of_the_rest(uri: Seq<char>, violations: Seq<ViolationView>, i: int)
    requires
        0 <= i < violations.len(),
    ensures
        diagnostics_of(uri, violations)[i] == diagnostics_of(uri, seq![violations[i]])[0],
        violations[i].severity == ViolationSeverity::Normal ==> diagnostics_of(
            uri,
            violations,
        )[i].severity == Some(DiagnosticSeverity::Warning) && diagnostics_of(
            uri,
            violations,
        )[i].tags is None,
        violations[i].severity == ViolationSeverity::High ==> diagnostics_of(
            uri,
            violations,
        )[i].severity == Some(DiagnosticSeverity::Error) && diagnostics_of(uri, violations)[i].tags
            == Some(seq![DiagnosticTag::Unnecessary]),
{
}

/// Lines and columns that are too large start again from the first.
pub proof fn positions_start_again(uri: Seq<char>, v: ViolationView)
    requires
        v.line >= 1,
        v.column >= 1,
    ensures
        diagnostic_of(
            uri,
            (ViolationView { line: v.line + 0x1_0000_0000, column: v.column + 0x1_0000_0000, ..v }),
        ).range == diagnostic_of(uri, v).range,
{
}

/// An analysis that succeeds takes the layout of the file in under its key, and leaves
/// every other as it was.
pub proof fn an_analysis_takes_the_file_in(
    state: CacheView,
    file_path: Seq<char>,
    source: Seq<char>,
    other: Seq<char>,
)
    requires
        analysis(state, file_path, source).1 is Ok,
    ensures
        ({
            let after = analysis(state, file_path, source).0;
            &&& after.config == state.config
            &&& after.layouts.contains_key(cache::key_of(file_path))
            &&& after.layouts[cache::key_of(file_path)].file_path == file_path
            &&& other != cache::key_of(file_path) ==> after.layouts.contains_key(other)
                == state.layouts.contains_key(other) && after.layouts[other] == state.layouts[other]
        }),
{
    let language = syntax::language_of(ast_engine::grammar_for(file_path));
    if let Ok(file) = ast_engine::parsed(language, file_path, source) {
        cache::a_change_is_of_one_layout(state, file, other);
    }
}

/// In whatever state changes and removals have led to, the analysis of a file publishes
/// the diagnostics of every other known file that has a URL and an import that resolves
/// to the name of the analyzed one without its ending.
pub proof fn an_analysis_publishes_whoever_imports_its_name(
    state: CacheView,
    file_path: Seq<char>,
    source: Seq<char>,
    importer: Seq<char>,
    i: int,
    module: Seq<char>,
    ending: Seq<char>,
    uri: Seq<char>,
)
    requires
        cache::reached(state),
        analysis(state, file_path, source).1 is Ok,
        state.layouts.contains_key(importer),
        importer != cache::key_of(file_path),
        0 <= i < state.layouts[importer].imports.len(),
        cache::leads_to(
            state.layouts[importer].file_path,
            state.layouts[importer].imports[i].path,
            module,
        ),
        cache::is_ending(ending),
        path::normalized(file_path) == path::normalized(module + ending),
        !text::ends_with(path::normalized(module), ending),
        file_url(importer) == Some(uri),
    ensures
        analysis(state, file_path, source).1->Ok_0.contains(
            PublicationView {
                uri,
                diagnostics: diagnostics_of(
                    uri,
                    validator::file_violations(state.config, state.layouts[importer]),
                ),
            },
        ),
{
    let language = syntax::language_of(ast_engine::grammar_for(file_path));
    let file = ast_engine::parsed(language, file_path, source)->Ok_0;
    cache::a_change_reaches_whoever_imports_its_name(state, file, importer, i, module, ending);
    files_with_urls_are_published(
        cache::update_after(state, file).diagnostics,
        (importer, validator::file_violations(state.config, state.layouts[importer])),
        uri,
    );
}

}
