//! What the command line tool decides and prints.

use vstd::prelude::*;
use vstd::string::StringExecFns;

use crate::ast_engine;
use crate::ast_engine::{AstEngine, AstExtractor, FileLayout, FileView, StructuralLayout};
use crate::config::CompiledConfigView;
use crate::error::{AddError, AddResult, ErrorView};
use crate::path;
use crate::path::{is_supported_source, is_tsx_path};
use crate::syntax;
use crate::syntax::Grammar;
use crate::text;
use crate::text::push_decimal;
use crate::validator;
use crate::validator::{ReportView, ValidationReport, Violation, ViolationView};

verus! {

/// Those of the paths that name TypeScript sources, in order.
pub open spec fn sources_among(paths: Seq<Seq<char>>) -> Seq<Seq<char>>
    decreases paths.len(),
{
    if paths.len() == 0 {
        Seq::empty()
    } else if path::names_source(paths.last()) {
        sources_among(paths.drop_last()).push(paths.last())
    } else {
        sources_among(paths.drop_last())
    }
}

/// The target that was given; an error where none was.
pub fn required_target(target: Option<String>) -> (r: AddResult<String>)
    ensures
        match (r, target) {
            (Ok(path), Some(given)) => path@ == given@,
            (Err(error), None) => error@ == ErrorView::TargetNotFound("<missing target>"@),
            _ => false,
        },
{
    match target {
        Some(path) => Ok(path),
        None => Err(AddError::TargetNotFound("<missing target>".to_owned())),
    }
}

/// The sources to analyze: those among the files found under `target`. There is an
/// error where the target does not exist, and where no source is found.
pub fn collect_source_files(target: &str, exists: bool, found: Vec<String>) -> (r: AddResult<
    Vec<String>,
>)
    ensures
        match r {
            Ok(files) => exists && files.deep_view() == sources_among(found.deep_view())
                && files.deep_view().len() > 0,
            Err(error) => if !exists {
                error@ == ErrorView::TargetNotFound(target@)
            } else {
                error@ == ErrorView::NoSourceFiles(target@) && sources_among(
                    found.deep_view(),
                ).len() == 0
            },
        },
{
    if !exists {
        return Err(AddError::TargetNotFound(target.to_owned()));
    }
    let mut files: Vec<String> = Vec::new();
    let ghost all = found.deep_view();
    let mut i: usize = 0;
    assert(files.deep_view() =~= sources_among(all.take(0)));
    while i < found.len()
        invariant
            i <= found@.len(),
            all == found.deep_view(),
            files.deep_view() == sources_among(all.take(i as int)),
        decreases found@.len() - i,
    {
        proof {
            assert(all.take(i + 1).drop_last() == all.take(i as int));
            assert(all.take(i + 1).last() == found@[i as int]@);
        }
        if is_supported_source(found[i].as_str()) {
            let ghost before = files.deep_view();
            files.push(found[i].clone());
            assert(files.deep_view() =~= before.push(found@[i as int]@));
        }
        i += 1;
    }
    assert(all.take(i as int) == all);
    assert(files.deep_view().len() == files@.len());
    if files.len() == 0 {
        return Err(AddError::NoSourceFiles(target.to_owned()));
    }
    Ok(files)
}

/// An engine for each grammar.
pub struct SourceEngines {
    typescript: AstEngine,
    tsx: AstEngine,
}

impl SourceEngines {
    pub fn new() -> (r: AddResult<SourceEngines>)
        ensures
            match r {
                Ok(engines) => engines.ready(),
                Err(error) => match ast_engine::engine_problem(
                    syntax::language_of(Grammar::TypeScript),
                ) {
                    Some(problem) => error@ == problem,
                    None => ast_engine::engine_problem(syntax::language_of(Grammar::Tsx)) == Some(
                        error@,
                    ),
                },
            },
            r is Ok <==> ast_engine::engine_problem(syntax::language_of(Grammar::TypeScript))
                is None && ast_engine::engine_problem(syntax::language_of(Grammar::Tsx)) is None,
    {
        let typescript = match AstEngine::typescript() {
            Ok(engine) => engine,
            Err(error) => return Err(error),
        };
        let tsx = match AstEngine::tsx() {
            Ok(engine) => engine,
            Err(error) => return Err(error),
        };
        Ok(SourceEngines { typescript, tsx })
    }
}

/// The layout of a file, read in the grammar that its extension asks for.
pub open spec fn source_layout(file_path: Seq<char>, source: Seq<char>) -> Result<
    FileView,
    ErrorView,
> {
    ast_engine::parsed(
        syntax::language_of(ast_engine::grammar_for(file_path)),
        file_path,
        source,
    )
}

/// The layouts of the files, given by path and text, up to the first that has none.
pub open spec fn layouts(files: Seq<(Seq<char>, Seq<char>)>) -> Result<Seq<FileView>, ErrorView>
    decreases files.len(),
{
    if files.len() == 0 {
        Ok(Seq::empty())
    } else {
        match layouts(files.drop_last()) {
            Ok(done) => match source_layout(files.last().0, files.last().1) {
                Ok(file) => Ok(done.push(file)),
                Err(problem) => Err(problem),
            },
            Err(problem) => Err(problem),
        }
    }
}

impl AstExtractor for SourceEngines {
    closed spec fn ready(&self) -> bool {
        &&& self.typescript.ready()
        &&& self.typescript.language() == syntax::language_of(Grammar::TypeScript)
        &&& self.tsx.ready()
        &&& self.tsx.language() == syntax::language_of(Grammar::Tsx)
    }

    open spec fn takes(&self, source: Seq<char>) -> bool {
        syntax::fits_parser(source)
    }

    open spec fn extraction(&self, file_path: Seq<char>, source: Seq<char>) -> Result<
        FileView,
        ErrorView,
    > {
        source_layout(file_path, source)
    }

    fn extract_file(&mut self, path: &str, source: &str) -> (r: AddResult<FileLayout>)
        ensures
            r matches Ok(layout) ==> layout.file_path@ == path@ && ast_engine::imports_are_sound(
                layout.imports.deep_view(),
            ),
    {
        if is_tsx_path(path) {
            self.tsx.extract_file(path, source)
        } else {
            self.typescript.extract_file(path, source)
        }
    }
}

proof fn lemma_first_problem_stays(files: Seq<(Seq<char>, Seq<char>)>, n: int)
    requires
        0 <= n <= files.len(),
        layouts(files.take(n)) is Err,
    ensures
        layouts(files) == layouts(files.take(n)),
    decreases files.len(),
{
    if n == files.len() {
        assert(files.take(n) == files);
    } else {
        assert(files.drop_last().take(n) == files.take(n));
        lemma_first_problem_stays(files.drop_last(), n);
    }
}

/// The layout of the files, given by path and text, in their order; the error of the
/// first that has none.
pub fn layout_of(engines: &mut SourceEngines, files: Vec<(String, String)>) -> (r: AddResult<
    StructuralLayout,
>)
    requires
        old(engines).ready(),
        forall|i: int|
            0 <= i < files@.len() ==> syntax::fits_parser((#[trigger] files@[i]).1@),
    ensures
        final(engines).ready(),
        match r {
            Ok(layout) => layouts(files.deep_view()) == Ok::<_, ErrorView>(layout.deep_view()),
            Err(error) => layouts(files.deep_view()) == Err::<Seq<FileView>, _>(error@),
        },
{
    let mut layout = StructuralLayout::default();
    let ghost all = files.deep_view();
    let mut i: usize = 0;
    assert(layout.files.deep_view() =~= Seq::<FileView>::empty());
    while i < files.len()
        invariant
            i <= files@.len(),
            all == files.deep_view(),
            engines.ready(),
            forall|j: int|
                0 <= j < files@.len() ==> syntax::fits_parser((#[trigger] files@[j]).1@),
            layouts(all.take(i as int)) == Ok::<_, ErrorView>(layout.files.deep_view()),
        decreases files@.len() - i,
    {
        let entry = &files[i];
        proof {
            assert(all.take(i + 1).drop_last() == all.take(i as int));
            assert(all.take(i + 1).last() == entry.deep_view());
        }
        match engines.extract_file(entry.0.as_str(), entry.1.as_str()) {
            Ok(file) => {
                let ghost before = layout.files.deep_view();
                layout.files.push(file);
                assert(layout.files.deep_view() =~= before.push(file.deep_view()));
            },
            Err(error) => {
                proof {
                    lemma_first_problem_stays(all, i + 1);
                }
                return Err(error);
            },
        }
        i += 1;
    }
    assert(all.take(i as int) == all);
    Ok(layout)
}

/// The exit code: success where there is no violation or none is to fail the run.
pub open spec fn exit_status(report: ReportView, no_fail: bool) -> u8 {
    if no_fail || report.violations.len() == 0 {
        0
    } else {
        1
    }
}

pub fn exit_code(report: &ValidationReport, no_fail: bool) -> (r: u8)
    ensures
        r == exit_status(report@, no_fail),
{
    assert(report@.violations.len() == report.violations@.len());
    if no_fail || report.violations.len() == 0 {
        0
    } else {
        1
    }
}

/// The remediation steps under a violation.
pub open spec fn terminal_steps(steps: Seq<Seq<char>>) -> Seq<char>
    decreases steps.len(),
{
    if steps.len() == 0 {
        Seq::empty()
    } else {
        terminal_steps(steps.drop_last()) + ("     - "@ + steps.last() + "\n"@)
    }
}

/// The paragraph on the violation with that number.
pub open spec fn terminal_entry(number: nat, v: ViolationView) -> Seq<char> {
    text::decimal(number) + ". ["@ + v.rule + "] "@ + v.file + "\n   at "@ + text::decimal(v.line)
        + ":"@ + text::decimal(v.column) + " — import `"@ + v.import_path + "`\n   "@ + v.message
        + "\n"@ + (if v.remediation.len() > 0 {
        "   remediation:\n"@ + terminal_steps(v.remediation)
    } else {
        Seq::empty()
    }) + "\n"@
}

/// The paragraphs on the violations, numbered from one.
pub open spec fn terminal_entries(violations: Seq<ViolationView>) -> Seq<char>
    decreases violations.len(),
{
    if violations.len() == 0 {
        Seq::empty()
    } else {
        terminal_entries(violations.drop_last()) + terminal_entry(
            violations.len(),
            violations.last(),
        )
    }
}

/// A report as the terminal shows it.
pub open spec fn terminal_report(report: ReportView) -> Seq<char> {
    "Architectural Drift Detector — "@ + text::decimal(report.files_checked) + " file(s), "@
        + text::decimal(report.rules_evaluated) + " explicit rule(s), "@ + text::decimal(
        report.allowlist_layers_evaluated,
    ) + " allowlist layer(s)\n"@ + if report.violations.len() == 0 {
        "No architectural violations detected.\n"@
    } else {
        "\n"@ + text::decimal(report.violations.len()) + " violation(s) found:\n\n"@
            + terminal_entries(report.violations)
    }
}

fn write_steps(steps: &Vec<String>) -> (r: String)
    ensures
        r@ == terminal_steps(steps.deep_view()),
{
    let mut out: String = String::new();
    let ghost all = steps.deep_view();
    let mut i: usize = 0;
    assert(out@ =~= terminal_steps(all.take(0)));
    while i < steps.len()
        invariant
            i <= steps@.len(),
            all == steps.deep_view(),
            out@ == terminal_steps(all.take(i as int)),
        decreases steps@.len() - i,
    {
        proof {
            assert(all.take(i + 1).drop_last() == all.take(i as int));
            assert(all.take(i + 1).last() == steps@[i as int]@);
        }
        let mut item = "     - ".to_owned();
        item.append(steps[i].as_str());
        item.append("\n");
        out.append(item.as_str());
        i += 1;
    }
    assert(all.take(i as int) == all);
    out
}

fn write_entry(number: usize, violation: &Violation) -> (r: String)
    ensures
        r@ == terminal_entry(number as nat, violation.deep_view()),
{
    let mut out = text::decimal_text(number);
    out.append(". [");
    out.append(violation.rule.as_str());
    out.append("] ");
    out.append(violation.file.as_str());
    out.append("\n   at ");
    push_decimal(&mut out, violation.line as u64);
    out.append(":");
    push_decimal(&mut out, violation.column as u64);
    out.append(" — import `");
    out.append(violation.import_path.as_str());
    out.append("`\n   ");
    out.append(violation.message.as_str());
    out.append("\n");
    let mut remediation: String = String::new();
    if violation.remediation.len() > 0 {
        remediation = "   remediation:\n".to_owned();
        remediation.append(write_steps(&violation.remediation).as_str());
    }
    out.append(remediation.as_str());
    out.append("\n");
    out
}

fn write_entries(violations: &Vec<Violation>) -> (r: String)
    ensures
        r@ == terminal_entries(violations.deep_view()),
{
    let mut out: String = String::new();
    let ghost all = violations.deep_view();
    let mut i: usize = 0;
    assert(out@ =~= terminal_entries(all.take(0)));
    while i < violations.len()
        invariant
            i <= violations@.len(),
            all == violations.deep_view(),
            out@ == terminal_entries(all.take(i as int)),
        decreases violations@.len() - i,
    {
        proof {
            assert(all.take(i + 1).drop_last() == all.take(i as int));
            assert(all.take(i + 1).last() == violations@[i as int].deep_view());
        }
        out.append(write_entry(i + 1, &violations[i]).as_str());
        i += 1;
    }
    assert(all.take(i as int) == all);
    out
}

/// A report as the terminal shows it.
pub fn render_terminal_report(report: &ValidationReport) -> (r: String)
    ensures
        r@ == terminal_report(report@),
{
    let mut out = "Architectural Drift Detector — ".to_owned();
    push_decimal(&mut out, report.files_checked as u64);
    out.append(" file(s), ");
    push_decimal(&mut out, report.rules_evaluated as u64);
    out.append(" explicit rule(s), ");
    push_decimal(&mut out, report.allowlist_layers_evaluated as u64);
    out.append(" allowlist layer(s)\n");
    let mut rest: String = String::new();
    assert(report@.violations.len() == report.violations@.len());
    if report.violations.len() == 0 {
        rest = "No architectural violations detected.\n".to_owned();
    } else {
        rest = "\n".to_owned();
        push_decimal(&mut rest, report.violations.len() as u64);
        rest.append(" violation(s) found:\n\n");
        rest.append(write_entries(&report.violations).as_str());
    }
    out.append(rest.as_str());
    out
}

/// What is analyzed names sources alone, each of them found, and all that was found.
pub proof fn sources_are_what_was_found(paths: Seq<Seq<char>>, p: Seq<char>)
    ensures
        sources_among(paths).contains(p) <==> paths.contains(p) && path::names_source(p),
    decreases paths.len(),
{
    if paths.len() > 0 {
        let init = paths.drop_last();
        sources_are_what_was_found(init, p);
        let before = sources_among(init);
        assert(paths[paths.len() - 1] == paths.last());
        if init.contains(p) {
            let k = choose|k: int| 0 <= k < init.len() && init[k] == p;
            assert(paths[k] == p);
        }
        if paths.contains(p) && p != paths.last() {
            let k = choose|k: int| 0 <= k < paths.len() && paths[k] == p;
            assert(init[k] == p);
        }
        if before.contains(p) {
            let k = choose|k: int| 0 <= k < before.len() && before[k] == p;
            assert(sources_among(paths)[k] == p);
        }
        if path::names_source(paths.last()) {
            let all = before.push(paths.last());
            assert(all[before.len() as int] == paths.last());
            if all.contains(p) && p != paths.last() {
                let k = choose|k: int| 0 <= k < all.len() && all[k] == p;
                assert(before[k] == p);
            }
        }
    }
}

proof fn lemma_clean_layout(config: CompiledConfigView, files: Seq<FileView>)
    ensures
        validator::layout_violations(config, files).len() == 0 <==> forall|i: int|
            0 <= i < files.len() ==> validator::file_violations(
                config,
                #[trigger] files[i],
            ).len() == 0,
    decreases files.len(),
{
    if files.len() > 0 {
        let init = files.drop_last();
        lemma_clean_layout(config, init);
        assert(files[files.len() - 1] == files.last());
        if forall|i: int|
            0 <= i < files.len() ==> validator::file_violations(
                config,
                #[trigger] files[i],
            ).len() == 0 {
            assert forall|i: int| 0 <= i < init.len() implies validator::file_violations(
                config,
                #[trigger] init[i],
            ).len() == 0 by {
                assert(init[i] == files[i]);
            }
        }
        if validator::layout_violations(config, files).len() == 0 {
            assert forall|i: int| 0 <= i < files.len() implies validator::file_violations(
                config,
                #[trigger] files[i],
            ).len() == 0 by {
                if i < init.len() {
                    assert(init[i] == files[i]);
                }
            }
        }
    }
}

/// A run succeeds exactly where no file breaks anything, or where it is told not to
/// fail.
pub proof fn a_run_succeeds_where_every_file_is_clean(
    config: CompiledConfigView,
    files: Seq<FileView>,
    no_fail: bool,
)
    ensures
        exit_status(validator::validated(config, files), no_fail) == 0 <==> no_fail || forall|
            i: int,
        |
            0 <= i < files.len() ==> validator::file_violations(
                config,
                #[trigger] files[i],
            ).len() == 0,
{
    lemma_clean_layout(config, files);
}

/// Every file has its layout, in order; or there is a first file that has none, and its
/// error is told.
pub proof fn layouts_come_in_order_up_to_the_first_failure(files: Seq<(Seq<char>, Seq<char>)>)
    ensures
        match layouts(files) {
            Ok(made) => made.len() == files.len() && forall|i: int|
                0 <= i < files.len() ==> source_layout((#[trigger] files[i]).0, files[i].1)
                    == Ok::<_, ErrorView>(made[i]),
            Err(problem) => exists|i: int|
                0 <= i < files.len() && source_layout((#[trigger] files[i]).0, files[i].1)
                    == Err::<FileView, _>(problem) && forall|j: int|
                    0 <= j < i ==> source_layout((#[trigger] files[j]).0, files[j].1) is Ok,
        },
    decreases files.len(),
{
    if files.len() > 0 {
        let init = files.drop_last();
        layouts_come_in_order_up_to_the_first_failure(init);
        assert(files[files.len() - 1] == files.last());
        assert forall|i: int| 0 <= i < init.len() implies init[i] == #[trigger] files[i] by {}
        match layouts(init) {
            Ok(done) => {
                assert forall|j: int| 0 <= j < init.len() implies source_layout(
                    (#[trigger] files[j]).0,
                    files[j].1,
                ) == Ok::<_, ErrorView>(done[j]) by {
                    assert(init[j] == files[j]);
                }
            },
            Err(problem) => {
                let i = choose|i: int|
                    0 <= i < init.len() && source_layout((#[trigger] init[i]).0, init[i].1)
                        == Err::<FileView, _>(problem) && forall|j: int|
                        0 <= j < i ==> source_layout((#[trigger] init[j]).0, init[j].1) is Ok;
                assert(files[i] == init[i]);
                assert forall|j: int| 0 <= j < i implies source_layout(
                    (#[trigger] files[j]).0,
                    files[j].1,
                ) is Ok by {
                    assert(init[j] == files[j]);
                }
            },
        }
    }
}

/// A run that reads every source among the files found looks at each of them, in order
/// and under its path, and succeeds exactly where none breaks anything, or where it is
/// told not to fail.
pub proof fn a_run_is_of_the_sources_found(
    config: CompiledConfigView,
    found: Seq<Seq<char>>,
    files: Seq<(Seq<char>, Seq<char>)>,
    made: Seq<FileView>,
    no_fail: bool,
)
    requires
        files.len() == sources_among(found).len(),
        forall|i: int|
            0 <= i < files.len() ==> (#[trigger] files[i]).0 == sources_among(found)[i],
        layouts(files) == Ok::<_, ErrorView>(made),
    ensures
        made.len() == sources_among(found).len(),
        forall|i: int|
            0 <= i < made.len() ==> (#[trigger] made[i]).file_path == sources_among(found)[i],
        validator::validated(config, made).files_checked == sources_among(found).len(),
        exit_status(validator::validated(config, made), no_fail) == 0 <==> no_fail || forall|
            i: int,
        |
            0 <= i < made.len() ==> validator::file_violations(
                config,
                #[trigger] made[i],
            ).len() == 0,
{
    layouts_come_in_order_up_to_the_first_failure(files);
    a_run_succeeds_where_every_file_is_clean(config, made, no_fail);
    assert forall|i: int| 0 <= i < made.len() implies (#[trigger] made[i]).file_path
        == sources_among(found)[i] by {
        assert(source_layout(files[i].0, files[i].1) == Ok::<_, ErrorView>(made[i]));
    }
}

/// The sources among some paths and then others are those among the first and then those
/// among the others; of one path, that path where it names a source.
pub proof fn sources_are_found_in_turn(
    first: Seq<Seq<char>>,
    second: Seq<Seq<char>>,
    found: Seq<char>,
)
    ensures
        sources_among(first + second) == sources_among(first) + sources_among(second),
        sources_among(seq![found]) == (if path::names_source(found) {
            seq![found]
        } else {
            Seq::empty()
        }),
    decreases second.len(),
{
    reveal_with_fuel(sources_among, 2);
    assert(seq![found].drop_last().len() == 0);
    assert(seq![found].last() == found);
    assert(sources_among(seq![found]) =~= (if path::names_source(found) {
        seq![found]
    } else {
        Seq::empty()
    }));
    if second.len() == 0 {
        assert(first + second == first);
        assert(sources_among(first) + sources_among(second) =~= sources_among(first));
    } else {
        sources_are_found_in_turn(first, second.drop_last(), found);
        assert((first + second).drop_last() == first + second.drop_last());
        assert((first + second).last() == second.last());
        assert(sources_among(first + second) =~= sources_among(first) + sources_among(second));
    }
}

proof fn lemma_steps_are_listed(steps: Seq<Seq<char>>, i: int)
    requires
        0 <= i < steps.len(),
    ensures
        text::occurs(terminal_steps(steps), steps[i]),
    decreases steps.len(),
{
    text::a_sum_holds_its_parts();
    if i < steps.len() - 1 {
        lemma_steps_are_listed(steps.drop_last(), i);
        assert(steps.drop_last()[i] == steps[i]);
    }
}

/// A paragraph shows all that is told of its violation.
pub proof fn a_paragraph_shows_its_violation(number: nat, v: ViolationView)
    ensures
        text::occurs(terminal_entry(number, v), text::decimal(number)),
        text::occurs(terminal_entry(number, v), v.rule),
        text::occurs(terminal_entry(number, v), v.file),
        text::occurs(terminal_entry(number, v), text::decimal(v.line)),
        text::occurs(terminal_entry(number, v), text::decimal(v.column)),
        text::occurs(terminal_entry(number, v), v.import_path),
        text::occurs(terminal_entry(number, v), v.message),
        forall|i: int|
            0 <= i < v.remediation.len() ==> text::occurs(
                terminal_entry(number, v),
                #[trigger] v.remediation[i],
            ),
{
    text::a_sum_holds_its_parts();
    assert forall|i: int| 0 <= i < v.remediation.len() implies text::occurs(
        terminal_entry(number, v),
        #[trigger] v.remediation[i],
    ) by {
        lemma_steps_are_listed(v.remediation, i);
    }
}

proof fn lemma_entries_hold_each_entry(violations: Seq<ViolationView>, i: int)
    requires
        0 <= i < violations.len(),
    ensures
        text::occurs(terminal_entries(violations), terminal_entry((i + 1) as nat, violations[i])),
    decreases violations.len(),
{
    text::a_sum_holds_its_parts();
    if i < violations.len() - 1 {
        lemma_entries_hold_each_entry(violations.drop_last(), i);
        assert(violations.drop_last()[i] == violations[i]);
    }
}

/// The terminal shows a paragraph for each violation, under its number, and the counts.
pub proof fn the_terminal_shows_each_violation(report: ReportView, i: int)
    ensures
        0 <= i < report.violations.len() ==> text::occurs(
            terminal_report(report),
            terminal_entry((i + 1) as nat, report.violations[i]),
        ),
        text::occurs(terminal_report(report), text::decimal(report.files_checked)),
        text::occurs(terminal_report(report), text::decimal(report.rules_evaluated)),
        text::occurs(terminal_report(report), text::decimal(report.allowlist_layers_evaluated)),
        report.violations.len() > 0 ==> text::occurs(
            terminal_report(report),
            text::decimal(report.violations.len()),
        ),
{
    text::a_sum_holds_its_parts();
    if 0 <= i < report.violations.len() {
        lemma_entries_hold_each_entry(report.violations, i);
    }
}

/// The paragraphs of some violations stand, under the same numbers, before those of more.
pub proof fn paragraphs_come_in_order(first: Seq<ViolationView>, second: Seq<ViolationView>)
    ensures
        terminal_entries(first).is_prefix_of(terminal_entries(first + second)),
    decreases second.len(),
{
    if second.len() == 0 {
        assert(first + second == first);
    } else {
        paragraphs_come_in_order(first, second.drop_last());
        assert((first + second).drop_last() == first + second.drop_last());
    }
}

}
