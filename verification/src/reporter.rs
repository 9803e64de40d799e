//! CI/CD visual reporting for architectural validation results.
//!
//! Generates single-file HTML dashboards and GitHub Actions Markdown summaries
//! from a project-wide [`ValidationReport`].

use std::time::SystemTime;

use vstd::prelude::*;
use vstd::string::StringExecFns;

use crate::clock;
use crate::clock::chrono_lite_timestamp;
use crate::error::AddResult;
use crate::template;
use crate::template::{html_template, TABLE_PLACEHOLDER};
use crate::text;
use crate::text::{decimal_text, push_decimal, replace_placeholder};
use crate::validator::{ReportView, ValidationReport, Violation, ViolationSeverity, ViolationView};

verus! {

/// Penalty applied per high-severity violation when computing health score.
pub const HIGH_SEVERITY_PENALTY: usize = 8;

/// Penalty applied per warning-level violation when computing health score.
pub const WARNING_SEVERITY_PENALTY: usize = 3;

/// Aggregated metrics derived from a validation report.
#[derive(Debug, Clone, Copy, PartialEq, Eq)]
pub struct ReportSummary {
    pub files_scanned: usize,
    pub total_violations: usize,
    pub high_errors: usize,
    pub warnings: usize,
    pub health_score: u8,
}

#[verifier::ext_equal]
pub struct SummaryView {
    pub files_scanned: nat,
    pub total_violations: nat,
    pub high_errors: nat,
    pub warnings: nat,
    pub health_score: nat,
}

impl View for ReportSummary {
    type V = SummaryView;

    open spec fn view(&self) -> SummaryView {
        SummaryView {
            files_scanned: self.files_scanned as nat,
            total_violations: self.total_violations as nat,
            high_errors: self.high_errors as nat,
            warnings: self.warnings as nat,
            health_score: self.health_score as nat,
        }
    }
}

/// How many of the violations are of high severity.
pub open spec fn high_count(violations: Seq<ViolationView>) -> nat
    decreases violations.len(),
{
    if violations.len() == 0 {
        0
    } else {
        high_count(violations.drop_last()) + if violations.last().severity
            == ViolationSeverity::High {
            1nat
        } else {
            0nat
        }
    }
}

/// What is left of a hundred once every violation has cost its penalty.
pub open spec fn health_score(high_errors: nat, warnings: nat) -> nat {
    let penalty = high_errors * HIGH_SEVERITY_PENALTY + warnings * WARNING_SEVERITY_PENALTY;
    if penalty >= 100 {
        0
    } else {
        (100 - penalty) as nat
    }
}

pub open spec fn summary_of(report: ReportView) -> SummaryView {
    let high = high_count(report.violations);
    let warnings = (report.violations.len() - high) as nat;
    SummaryView {
        files_scanned: report.files_checked,
        total_violations: report.violations.len(),
        high_errors: high,
        warnings,
        health_score: health_score(high, warnings),
    }
}

/// Green from ninety, amber from seventy, red below.
pub open spec fn color_of(score: nat) -> Seq<char> {
    if score >= 90 {
        "#22c55e"@
    } else if score >= 70 {
        "#f59e0b"@
    } else {
        "#ef4444"@
    }
}

proof fn lemma_high_count(violations: Seq<ViolationView>)
    ensures
        high_count(violations) <= violations.len(),
    decreases violations.len(),
{
    if violations.len() > 0 {
        lemma_high_count(violations.drop_last());
    }
}

fn saturating_product(a: usize, b: usize) -> (r: usize)
    ensures
        r == (if a * b > usize::MAX {
            usize::MAX as int
        } else {
            a * b
        }),
{
    match a.checked_mul(b) {
        Some(product) => product,
        None => usize::MAX,
    }
}

fn compute_health_score(high_errors: usize, warnings: usize) -> (r: u8)
    ensures
        r == health_score(high_errors as nat, warnings as nat),
{
    let penalty = saturating_product(high_errors, HIGH_SEVERITY_PENALTY).saturating_add(
        saturating_product(warnings, WARNING_SEVERITY_PENALTY),
    );
    if penalty >= 100 {
        0
    } else {
        100 - penalty as u8
    }
}

impl ReportSummary {
    pub fn from_report(report: &ValidationReport) -> (r: ReportSummary)
        ensures
            r@ == summary_of(report@),
    {
        let ghost all = report@.violations;
        let mut high_errors: usize = 0;
        let mut i: usize = 0;
        while i < report.violations.len()
            invariant
                i <= report.violations@.len(),
                all == report.violations.deep_view(),
                high_errors == high_count(all.take(i as int)),
                high_errors <= i,
            decreases report.violations@.len() - i,
        {
            proof {
                assert(all.take(i + 1).drop_last() == all.take(i as int));
                assert(all.take(i + 1).last() == report.violations@[i as int].deep_view());
            }
            if report.violations[i].severity == ViolationSeverity::High {
                high_errors += 1;
            }
            i += 1;
        }
        assert(all.take(i as int) == all);
        let warnings: usize = report.violations.len() - high_errors;
        ReportSummary {
            files_scanned: report.files_checked,
            total_violations: report.violations.len(),
            high_errors,
            warnings,
            health_score: compute_health_score(high_errors, warnings),
        }
    }

    pub fn health_color(&self) -> (r: &'static str)
        ensures
            r@ == color_of(self@.health_score),
    {
        if self.health_score >= 90 {
            "#22c55e"
        } else if self.health_score >= 70 {
            "#f59e0b"
        } else {
            "#ef4444"
        }
    }
}

/// What stands for a character in HTML text.
pub open spec fn escaped_char(c: char) -> Seq<char> {
    if c == '&' {
        "&amp;"@
    } else if c == '<' {
        "&lt;"@
    } else if c == '>' {
        "&gt;"@
    } else if c == '"' {
        "&quot;"@
    } else if c == '\'' {
        "&#39;"@
    } else {
        seq![c]
    }
}

/// What stands for a text in HTML.
pub open spec fn escaped(input: Seq<char>) -> Seq<char>
    decreases input.len(),
{
    if input.len() == 0 {
        Seq::empty()
    } else {
        escaped(input.drop_last()) + escaped_char(input.last())
    }
}

pub fn escape_html(input: &str) -> (r: String)
    ensures
        r@ == escaped(input@),
{
    let mut out: String = String::new();
    assert(out@ =~= escaped(input@.take(0)));
    for c in it: input.chars()
        invariant
            it.seq() == input@,
            out@ == escaped(input@.take(it.index())),
    {
        proof {
            let upto = input@.take(it.index() + 1);
            assert(upto.drop_last() == input@.take(it.index()));
            assert(upto.last() == c);
        }
        if c == '&' {
            out.append("&amp;");
        } else if c == '<' {
            out.append("&lt;");
        } else if c == '>' {
            out.append("&gt;");
        } else if c == '"' {
            out.append("&quot;");
        } else if c == '\'' {
            out.append("&#39;");
        } else {
            out.push(c);
            assert(out@ =~= escaped(input@.take(it.index())) + seq![c]);
        }
    }
    assert(input@.take(input@.len() as int) == input@);
    out
}

pub open spec fn severity_name(severity: ViolationSeverity) -> Seq<char> {
    match severity {
        ViolationSeverity::High => "High"@,
        ViolationSeverity::Normal => "Warning"@,
    }
}

pub fn severity_label(severity: ViolationSeverity) -> (r: &'static str)
    ensures
        r@ == severity_name(severity),
{
    match severity {
        ViolationSeverity::High => "High",
        ViolationSeverity::Normal => "Warning",
    }
}

pub open spec fn severity_key(severity: ViolationSeverity) -> Seq<char> {
    if severity == ViolationSeverity::High {
        "high"@
    } else {
        "normal"@
    }
}

pub open spec fn badge_classes(severity: ViolationSeverity) -> Seq<char> {
    if severity == ViolationSeverity::High {
        "rounded px-2 py-0.5 text-xs font-semibold uppercase bg-red-500/20 text-red-400"@
    } else {
        "rounded px-2 py-0.5 text-xs font-semibold uppercase bg-amber-500/20 text-amber-400"@
    }
}

/// The remediation steps as list items.
pub open spec fn html_steps(steps: Seq<Seq<char>>) -> Seq<char>
    decreases steps.len(),
{
    if steps.len() == 0 {
        Seq::empty()
    } else {
        html_steps(steps.drop_last()) + ("<li class=\"text-xs\">"@ + escaped(steps.last())
            + "</li>"@)
    }
}

/// The table row of a violation.
pub open spec fn html_row(v: ViolationView) -> Seq<char> {
    "<tr data-severity=\""@ + severity_key(v.severity)
        + "\" class=\"hover:bg-slate-800/40\"><td class=\"px-4 py-3\"><span class=\""@
        + badge_classes(v.severity) + "\">"@ + severity_name(v.severity)
        + "</span></td><td class=\"px-4 py-3 font-mono text-xs text-blue-400\">"@ + escaped(v.rule)
        + "</td><td class=\"px-4 py-3 font-mono text-xs break-all\">"@ + escaped(v.file)
        + "</td><td class=\"px-4 py-3 text-slate-300\">"@ + text::decimal(v.line) + ":"@
        + text::decimal(v.column)
        + "</td><td class=\"px-4 py-3 font-mono text-xs break-all\">"@ + escaped(v.import_path)
        + "</td><td class=\"px-4 py-3 text-slate-300\">"@ + escaped(v.message)
        + "</td><td class=\"px-4 py-3 text-slate-400\"><ul class=\"list-disc pl-4 space-y-1\">"@
        + html_steps(v.remediation) + "</ul></td></tr>"@
}

pub open spec fn html_rows(violations: Seq<ViolationView>) -> Seq<char>
    decreases violations.len(),
{
    if violations.len() == 0 {
        Seq::empty()
    } else {
        html_rows(violations.drop_last()) + html_row(violations.last())
    }
}

/// The violations as a table, or a sentence that there are none.
pub open spec fn html_table(violations: Seq<ViolationView>) -> Seq<char> {
    if violations.len() == 0 {
        "<div class=\"p-12 text-center text-slate-400\">No architectural violations detected. Your codebase is architecturally healthy.</div>"@
    } else {
        "<table class=\"w-full min-w-[800px] text-left text-sm\"><thead class=\"border-b border-slate-800 bg-slate-800/50 text-xs uppercase tracking-wider text-slate-400\"><tr>"@
            + "<th class=\"px-4 py-3\">Severity</th><th class=\"px-4 py-3\">Rule</th><th class=\"px-4 py-3\">File</th><th class=\"px-4 py-3\">Location</th><th class=\"px-4 py-3\">Import</th><th class=\"px-4 py-3\">Message</th><th class=\"px-4 py-3\">Remediation</th>"@
            + "</tr></thead><tbody id=\"violations-body\" class=\"divide-y divide-slate-800\">"@
            + html_rows(violations) + "</tbody></table>"@
    }
}

fn render_steps(steps: &Vec<String>) -> (r: String)
    ensures
        r@ == html_steps(steps.deep_view()),
{
    let mut out: String = String::new();
    let ghost all = steps.deep_view();
    let mut i: usize = 0;
    assert(out@ =~= html_steps(all.take(0)));
    while i < steps.len()
        invariant
            i <= steps@.len(),
            all == steps.deep_view(),
            out@ == html_steps(all.take(i as int)),
        decreases steps@.len() - i,
    {
        proof {
            assert(all.take(i + 1).drop_last() == all.take(i as int));
            assert(all.take(i + 1).last() == steps@[i as int]@);
        }
        let mut item = "<li class=\"text-xs\">".to_owned();
        item.append(escape_html(steps[i].as_str()).as_str());
        item.append("</li>");
        out.append(item.as_str());
        i += 1;
    }
    assert(all.take(i as int) == all);
    out
}

fn render_row(violation: &Violation) -> (r: String)
    ensures
        r@ == html_row(violation.deep_view()),
{
    let high = violation.is_high_severity();
    let key: &str = if high {
        "high"
    } else {
        "normal"
    };
    let badge: &str = if high {
        "rounded px-2 py-0.5 text-xs font-semibold uppercase bg-red-500/20 text-red-400"
    } else {
        "rounded px-2 py-0.5 text-xs font-semibold uppercase bg-amber-500/20 text-amber-400"
    };
    let mut row = "<tr data-severity=\"".to_owned();
    row.append(key);
    row.append("\" class=\"hover:bg-slate-800/40\"><td class=\"px-4 py-3\"><span class=\"");
    row.append(badge);
    row.append("\">");
    row.append(severity_label(violation.severity));
    row.append("</span></td><td class=\"px-4 py-3 font-mono text-xs text-blue-400\">");
    row.append(escape_html(violation.rule.as_str()).as_str());
    row.append("</td><td class=\"px-4 py-3 font-mono text-xs break-all\">");
    row.append(escape_html(violation.file.as_str()).as_str());
    row.append("</td><td class=\"px-4 py-3 text-slate-300\">");
    push_decimal(&mut row, violation.line as u64);
    row.append(":");
    push_decimal(&mut row, violation.column as u64);
    row.append("</td><td class=\"px-4 py-3 font-mono text-xs break-all\">");
    row.append(escape_html(violation.import_path.as_str()).as_str());
    row.append("</td><td class=\"px-4 py-3 text-slate-300\">");
    row.append(escape_html(violation.message.as_str()).as_str());
    row.append(
        "</td><td class=\"px-4 py-3 text-slate-400\"><ul class=\"list-disc pl-4 space-y-1\">",
    );
    row.append(render_steps(&violation.remediation).as_str());
    row.append("</ul></td></tr>");
    row
}

/// The violations as a table, or a sentence that there are none.
pub fn render_violations_table(violations: &Vec<Violation>) -> (r: String)
    ensures
        r@ == html_table(violations.deep_view()),
{
    if violations.len() == 0 {
        return "<div class=\"p-12 text-center text-slate-400\">No architectural violations detected. Your codebase is architecturally healthy.</div>".to_owned();
    }
    let mut rows: String = String::new();
    let ghost all = violations.deep_view();
    let mut i: usize = 0;
    assert(rows@ =~= html_rows(all.take(0)));
    while i < violations.len()
        invariant
            i <= violations@.len(),
            all == violations.deep_view(),
            rows@ == html_rows(all.take(i as int)),
        decreases violations@.len() - i,
    {
        proof {
            assert(all.take(i + 1).drop_last() == all.take(i as int));
            assert(all.take(i + 1).last() == violations@[i as int].deep_view());
        }
        rows.append(render_row(&violations[i]).as_str());
        i += 1;
    }
    assert(all.take(i as int) == all);
    let mut table = "<table class=\"w-full min-w-[800px] text-left text-sm\"><thead class=\"border-b border-slate-800 bg-slate-800/50 text-xs uppercase tracking-wider text-slate-400\"><tr>".to_owned();
    table.append(
        "<th class=\"px-4 py-3\">Severity</th><th class=\"px-4 py-3\">Rule</th><th class=\"px-4 py-3\">File</th><th class=\"px-4 py-3\">Location</th><th class=\"px-4 py-3\">Import</th><th class=\"px-4 py-3\">Message</th><th class=\"px-4 py-3\">Remediation</th>",
    );
    table.append(
        "</tr></thead><tbody id=\"violations-body\" class=\"divide-y divide-slate-800\">",
    );
    table.append(rows.as_str());
    table.append("</tbody></table>");
    table
}

/// A blank page once its placeholders are replaced.
pub open spec fn filled(blank: Seq<char>, report: ReportView, generated_at: Seq<char>) -> Seq<char> {
    let summary = summary_of(report);
    let page = text::replaced_first(blank, "{{GENERATED_AT}}"@, escaped(generated_at));
    let page = text::replaced_first(
        page,
        "{{FILES_SCANNED}}"@,
        text::decimal(summary.files_scanned),
    );
    let page = text::replaced_first(
        page,
        "{{TOTAL_VIOLATIONS}}"@,
        text::decimal(summary.total_violations),
    );
    let page = text::replaced_first(page, "{{HIGH_COUNT}}"@, text::decimal(summary.high_errors));
    let page = text::replaced_first(page, "{{WARNING_COUNT}}"@, text::decimal(summary.warnings));
    let page = text::replaced_first(
        page,
        "{{HEALTH_SCORE}}"@,
        text::decimal(summary.health_score),
    );
    let page = text::replaced_first(page, "{{HEALTH_COLOR}}"@, color_of(summary.health_score));
    text::replaced_first(page, TABLE_PLACEHOLDER@, html_table(report.violations))
}

/// The page of a report that was generated at that time.
pub open spec fn html_report(report: ReportView, generated_at: Seq<char>) -> Seq<char> {
    filled(template::template(), report, generated_at)
}

/// Exports validation results into a deliverable artifact.
pub trait ReportGenerator {
    /// The name of the format.
    spec fn format(&self) -> Seq<char>;

    /// Whether `output` is what the generator makes of a report.
    spec fn renders(&self, report: ReportView, output: Seq<char>) -> bool;

    fn format_name(&self) -> (r: &'static str)
        ensures
            r@ == self.format(),
    ;

    fn render(&self, report: &ValidationReport) -> (r: AddResult<String>)
        ensures
            r matches Ok(output) ==> self.renders(report@, output@),
    ;
}

/// Single-file responsive HTML dashboard exporter.
#[derive(Debug, Clone, Copy, Default)]
pub struct HtmlReportGenerator;

impl HtmlReportGenerator {
    /// The page of a report that was generated at that time.
    pub fn render_at(&self, report: &ValidationReport, generated_at: &str) -> (r: String)
        ensures
            r@ == html_report(report@, generated_at@),
    {
        let summary = ReportSummary::from_report(report);
        let mut output = html_template();
        replace_placeholder(
            &mut output,
            "{{GENERATED_AT}}",
            escape_html(generated_at).as_str(),
        );
        replace_placeholder(
            &mut output,
            "{{FILES_SCANNED}}",
            decimal_text(summary.files_scanned).as_str(),
        );
        replace_placeholder(
            &mut output,
            "{{TOTAL_VIOLATIONS}}",
            decimal_text(summary.total_violations).as_str(),
        );
        replace_placeholder(
            &mut output,
            "{{HIGH_COUNT}}",
            decimal_text(summary.high_errors).as_str(),
        );
        replace_placeholder(
            &mut output,
            "{{WARNING_COUNT}}",
            decimal_text(summary.warnings).as_str(),
        );
        replace_placeholder(
            &mut output,
            "{{HEALTH_SCORE}}",
            decimal_text(summary.health_score as usize).as_str(),
        );
        replace_placeholder(&mut output, "{{HEALTH_COLOR}}", summary.health_color());
        replace_placeholder(
            &mut output,
            TABLE_PLACEHOLDER,
            render_violations_table(&report.violations).as_str(),
        );
        output
    }
}

impl ReportGenerator for HtmlReportGenerator {
    open spec fn format(&self) -> Seq<char> {
        "html"@
    }

    /// The page shows the time at which it was made, whichever that was.
    open spec fn renders(&self, report: ReportView, output: Seq<char>) -> bool {
        exists|time: SystemTime|
            output == html_report(report, clock::timestamp(#[trigger] clock::seconds_at(time)))
    }

    fn format_name(&self) -> (r: &'static str) {
        "html"
    }

    fn render(&self, report: &ValidationReport) -> (r: AddResult<String>)
        ensures
            r is Ok,
    {
        Ok(self.render_at(report, chrono_lite_timestamp().as_str()))
    }
}

/// The remediation steps as bullet points under a violation.
pub open spec fn markdown_steps(steps: Seq<Seq<char>>) -> Seq<char>
    decreases steps.len(),
{
    if steps.len() == 0 {
        Seq::empty()
    } else {
        markdown_steps(steps.drop_last()) + ("  - "@ + steps.last() + "\n"@)
    }
}

/// The section on the violation with that number.
pub open spec fn markdown_section(number: nat, v: ViolationView) -> Seq<char> {
    "### "@ + text::decimal(number) + ". ["@ + severity_name(v.severity) + "] `"@ + v.rule
        + "` — `"@ + v.file + "`\n- **Location:** line "@ + text::decimal(v.line) + ", column "@
        + text::decimal(v.column) + "\n- **Import:** `"@ + v.import_path + "`\n- **Message:** "@
        + v.message + "\n"@ + (if v.remediation.len() > 0 {
        "- **Remediation:**\n"@ + markdown_steps(v.remediation)
    } else {
        Seq::empty()
    }) + "\n"@
}

/// The sections on the violations, numbered from one.
pub open spec fn markdown_sections(violations: Seq<ViolationView>) -> Seq<char>
    decreases violations.len(),
{
    if violations.len() == 0 {
        Seq::empty()
    } else {
        markdown_sections(violations.drop_last()) + markdown_section(
            violations.len(),
            violations.last(),
        )
    }
}

/// The table of metrics.
pub open spec fn markdown_summary(report: ReportView) -> Seq<char> {
    let summary = summary_of(report);
    "# Architectural Drift Report\n\n## Summary\n\n| Metric | Value |\n| --- | --- |\n| Files Scanned | "@
        + text::decimal(summary.files_scanned) + " |\n| Total Violations | "@ + text::decimal(
        summary.total_violations,
    ) + " |\n| Architecture Health | "@ + text::decimal(summary.health_score)
        + "% |\n| High Errors | "@ + text::decimal(summary.high_errors) + " |\n| Warnings | "@
        + text::decimal(summary.warnings) + " |\n| Rules Evaluated | "@ + text::decimal(
        report.rules_evaluated,
    ) + " |\n| Allowlist Layers | "@ + text::decimal(report.allowlist_layers_evaluated) + " |\n"@
}

/// The counts by severity and the details of the violations.
pub open spec fn markdown_details(report: ReportView) -> Seq<char> {
    let summary = summary_of(report);
    "\n## Violations by Severity\n\n- **High errors:** "@ + text::decimal(summary.high_errors)
        + "\n- **Warnings:** "@ + text::decimal(summary.warnings)
        + "\n\n<details>\n<summary>Violation details ("@ + text::decimal(summary.total_violations)
        + " total)</summary>\n\n"@ + markdown_sections(report.violations) + "</details>\n"@
}

/// A report in Markdown.
pub open spec fn markdown_report(report: ReportView) -> Seq<char> {
    markdown_summary(report) + if report.violations.len() == 0 {
        "\n> No architectural violations detected.\n"@
    } else {
        markdown_details(report)
    }
}

fn write_steps(steps: &Vec<String>) -> (r: String)
    ensures
        r@ == markdown_steps(steps.deep_view()),
{
    let mut out: String = String::new();
    let ghost all = steps.deep_view();
    let mut i: usize = 0;
    assert(out@ =~= markdown_steps(all.take(0)));
    while i < steps.len()
        invariant
            i <= steps@.len(),
            all == steps.deep_view(),
            out@ == markdown_steps(all.take(i as int)),
        decreases steps@.len() - i,
    {
        proof {
            assert(all.take(i + 1).drop_last() == all.take(i as int));
            assert(all.take(i + 1).last() == steps@[i as int]@);
        }
        let mut item = "  - ".to_owned();
        item.append(steps[i].as_str());
        item.append("\n");
        out.append(item.as_str());
        i += 1;
    }
    assert(all.take(i as int) == all);
    out
}

fn write_section(number: usize, violation: &Violation) -> (r: String)
    ensures
        r@ == markdown_section(number as nat, violation.deep_view()),
{
    let mut md = "### ".to_owned();
    push_decimal(&mut md, number as u64);
    md.append(". [");
    md.append(severity_label(violation.severity));
    md.append("] `");
    md.append(violation.rule.as_str());
    md.append("` — `");
    md.append(violation.file.as_str());
    md.append("`\n- **Location:** line ");
    push_decimal(&mut md, violation.line as u64);
    md.append(", column ");
    push_decimal(&mut md, violation.column as u64);
    md.append("\n- **Import:** `");
    md.append(violation.import_path.as_str());
    md.append("`\n- **Message:** ");
    md.append(violation.message.as_str());
    md.append("\n");
    let mut remediation: String = String::new();
    if violation.remediation.len() > 0 {
        remediation = "- **Remediation:**\n".to_owned();
        remediation.append(write_steps(&violation.remediation).as_str());
    }
    md.append(remediation.as_str());
    md.append("\n");
    md
}

fn write_sections(violations: &Vec<Violation>) -> (r: String)
    ensures
        r@ == markdown_sections(violations.deep_view()),
{
    let mut out: String = String::new();
    let ghost all = violations.deep_view();
    let mut i: usize = 0;
    assert(out@ =~= markdown_sections(all.take(0)));
    while i < violations.len()
        invariant
            i <= violations@.len(),
            all == violations.deep_view(),
            out@ == markdown_sections(all.take(i as int)),
        decreases violations@.len() - i,
    {
        proof {
            assert(all.take(i + 1).drop_last() == all.take(i as int));
            assert(all.take(i + 1).last() == violations@[i as int].deep_view());
        }
        out.append(write_section(i + 1, &violations[i]).as_str());
        i += 1;
    }
    assert(all.take(i as int) == all);
    out
}

/// GitHub Actions step-summary compatible Markdown exporter.
#[derive(Debug, Clone, Copy, Default)]
pub struct MarkdownReportGenerator;

impl MarkdownReportGenerator {
    fn write_summary(&self, report: &ValidationReport, summary: &ReportSummary) -> (r: String)
        requires
            summary@ == summary_of(report@),
        ensures
            r@ == markdown_summary(report@),
    {
        let mut md = "# Architectural Drift Report\n\n## Summary\n\n| Metric | Value |\n| --- | --- |\n| Files Scanned | ".to_owned();
        push_decimal(&mut md, summary.files_scanned as u64);
        md.append(" |\n| Total Violations | ");
        push_decimal(&mut md, summary.total_violations as u64);
        md.append(" |\n| Architecture Health | ");
        push_decimal(&mut md, summary.health_score as u64);
        md.append("% |\n| High Errors | ");
        push_decimal(&mut md, summary.high_errors as u64);
        md.append(" |\n| Warnings | ");
        push_decimal(&mut md, summary.warnings as u64);
        md.append(" |\n| Rules Evaluated | ");
        push_decimal(&mut md, report.rules_evaluated as u64);
        md.append(" |\n| Allowlist Layers | ");
        push_decimal(&mut md, report.allowlist_layers_evaluated as u64);
        md.append(" |\n");
        md
    }

    fn write_details(&self, report: &ValidationReport, summary: &ReportSummary) -> (r: String)
        requires
            summary@ == summary_of(report@),
        ensures
            r@ == markdown_details(report@),
    {
        let mut md = "\n## Violations by Severity\n\n- **High errors:** ".to_owned();
        push_decimal(&mut md, summary.high_errors as u64);
        md.append("\n- **Warnings:** ");
        push_decimal(&mut md, summary.warnings as u64);
        md.append("\n\n<details>\n<summary>Violation details (");
        push_decimal(&mut md, summary.total_violations as u64);
        md.append(" total)</summary>\n\n");
        md.append(write_sections(&report.violations).as_str());
        md.append("</details>\n");
        md
    }
}

impl ReportGenerator for MarkdownReportGenerator {
    open spec fn format(&self) -> Seq<char> {
        "markdown"@
    }

    open spec fn renders(&self, report: ReportView, output: Seq<char>) -> bool {
        output == markdown_report(report)
    }

    fn format_name(&self) -> (r: &'static str) {
        "markdown"
    }

    fn render(&self, report: &ValidationReport) -> (r: AddResult<String>)
        ensures
            r is Ok,
    {
        let summary = ReportSummary::from_report(report);
        let mut md = self.write_summary(report, &summary);
        if summary.total_violations == 0 {
            md.append("\n> No architectural violations detected.\n");
            return Ok(md);
        }
        md.append(self.write_details(report, &summary).as_str());
        Ok(md)
    }
}

/// The violations are the high errors and the warnings, and the score is at most a
/// hundred, which it is exactly where there are none.
pub proof fn a_summary_adds_up(report: ReportView)
    ensures
        summary_of(report).high_errors + summary_of(report).warnings == summary_of(
            report,
        ).total_violations,
        summary_of(report).total_violations == report.violations.len(),
        summary_of(report).health_score <= 100,
        summary_of(report).health_score == 100 <==> report.violations.len() == 0,
{
    lemma_high_count(report.violations);
}

/// More violations never make a better score, and a high error costs more than a
/// warning.
pub proof fn more_violations_score_no_better(high: nat, warnings: nat, more_high: nat, more: nat)
    requires
        high <= more_high,
        warnings <= more,
    ensures
        health_score(more_high, more) <= health_score(high, warnings),
        health_score(high + 1, warnings) <= health_score(high, warnings + 1),
{
}

proof fn lemma_high_count_of_sum(first: Seq<ViolationView>, second: Seq<ViolationView>)
    ensures
        high_count(first + second) == high_count(first) + high_count(second),
    decreases second.len(),
{
    if second.len() == 0 {
        assert(first + second == first);
    } else {
        lemma_high_count_of_sum(first, second.drop_last());
        assert((first + second).drop_last() == first + second.drop_last());
        assert((first + second).last() == second.last());
    }
}

/// A report to which violations are added scores no better.
pub proof fn added_violations_score_no_better(report: ReportView, more: Seq<ViolationView>)
    ensures
        summary_of(
            ReportView { violations: report.violations + more, ..report },
        ).health_score <= summary_of(report).health_score,
{
    lemma_high_count(report.violations);
    lemma_high_count(more);
    lemma_high_count_of_sum(report.violations, more);
    let high = high_count(report.violations);
    let all = report.violations + more;
    more_violations_score_no_better(
        high,
        (report.violations.len() - high) as nat,
        high_count(all),
        (all.len() - high_count(all)) as nat,
    );
}

/// Escaped text holds nothing that opens a tag or closes an attribute.
pub proof fn escaped_text_is_inert(input: Seq<char>)
    ensures
        !escaped(input).contains('<'),
        !escaped(input).contains('>'),
        !escaped(input).contains('"'),
        !escaped(input).contains('\''),
    decreases input.len(),
{
    if input.len() > 0 {
        escaped_text_is_inert(input.drop_last());
        let before = escaped(input.drop_last());
        let piece = escaped_char(input.last());
        reveal_strlit("&amp;");
        reveal_strlit("&lt;");
        reveal_strlit("&gt;");
        reveal_strlit("&quot;");
        reveal_strlit("&#39;");
        assert forall|c: char|
            (c == '<' || c == '>' || c == '"' || c == '\'') implies !#[trigger] escaped(
            input,
        ).contains(c) by {
            if escaped(input).contains(c) {
                let k = choose|k: int| 0 <= k < escaped(input).len() && escaped(input)[k] == c;
                if k < before.len() {
                    assert(before[k] == c);
                    assert(before.contains(c));
                } else {
                    assert(piece[k - before.len()] == c);
                }
            }
        }
    }
}

/// Text without the five special characters stands for itself.
pub proof fn plain_text_is_not_escaped(input: Seq<char>)
    requires
        !input.contains('&'),
        !input.contains('<'),
        !input.contains('>'),
        !input.contains('"'),
        !input.contains('\''),
    ensures
        escaped(input) == input,
    decreases input.len(),
{
    if input.len() > 0 {
        let init = input.drop_last();
        assert forall|c: char| #[trigger] init.contains(c) implies input.contains(c) by {
            let k = choose|k: int| 0 <= k < init.len() && init[k] == c;
            assert(input[k] == c);
        }
        plain_text_is_not_escaped(init);
        assert(input[input.len() - 1] == input.last());
        assert(input.contains(input.last()));
        assert(escaped(input) =~= input);
    }
}

proof fn lemma_table_placeholder_stays(page: Seq<char>, placeholder: Seq<char>, value: Seq<char>)
    requires
        text::is_placeholder(placeholder),
        placeholder[2] != TABLE_PLACEHOLDER@[2],
        text::occurs(page, TABLE_PLACEHOLDER@),
    ensures
        text::occurs(
            text::replaced_first(page, placeholder, value),
            TABLE_PLACEHOLDER@,
        ),
{
    reveal_strlit("{{VIOLATIONS_TABLE}}");
    text::other_placeholders_stay(page, placeholder, value, TABLE_PLACEHOLDER@);
}

/// The page holds the table of its violations as it is: what reads like a placeholder
/// in a violation is left alone.
pub proof fn the_page_holds_the_table(report: ReportView, generated_at: Seq<char>)
    ensures
        text::occurs(html_report(report, generated_at), html_table(report.violations)),
{
    let summary = summary_of(report);
    let page = template::template();
    reveal_strlit("{{VIOLATIONS_TABLE}}");
    reveal_strlit("{{GENERATED_AT}}");
    reveal_strlit("{{FILES_SCANNED}}");
    reveal_strlit("{{TOTAL_VIOLATIONS}}");
    reveal_strlit("{{HIGH_COUNT}}");
    reveal_strlit("{{WARNING_COUNT}}");
    reveal_strlit("{{HEALTH_SCORE}}");
    reveal_strlit("{{HEALTH_COLOR}}");
    let at = template::BEFORE_TABLE@.len() as int;
    assert(page.subrange(at, at + TABLE_PLACEHOLDER@.len()) =~= TABLE_PLACEHOLDER@);
    assert(text::occurs_at(page, TABLE_PLACEHOLDER@, at));
    let page = text::replaced_first(page, "{{GENERATED_AT}}"@, escaped(generated_at));
    lemma_table_placeholder_stays(
        template::template(),
        "{{GENERATED_AT}}"@,
        escaped(generated_at),
    );
    let files = text::decimal(summary.files_scanned);
    lemma_table_placeholder_stays(page, "{{FILES_SCANNED}}"@, files);
    let page = text::replaced_first(page, "{{FILES_SCANNED}}"@, files);
    let total = text::decimal(summary.total_violations);
    lemma_table_placeholder_stays(page, "{{TOTAL_VIOLATIONS}}"@, total);
    let page = text::replaced_first(page, "{{TOTAL_VIOLATIONS}}"@, total);
    let high = text::decimal(summary.high_errors);
    lemma_table_placeholder_stays(page, "{{HIGH_COUNT}}"@, high);
    let page = text::replaced_first(page, "{{HIGH_COUNT}}"@, high);
    let warnings = text::decimal(summary.warnings);
    lemma_table_placeholder_stays(page, "{{WARNING_COUNT}}"@, warnings);
    let page = text::replaced_first(page, "{{WARNING_COUNT}}"@, warnings);
    let score = text::decimal(summary.health_score);
    lemma_table_placeholder_stays(page, "{{HEALTH_SCORE}}"@, score);
    let page = text::replaced_first(page, "{{HEALTH_SCORE}}"@, score);
    let color = color_of(summary.health_score);
    lemma_table_placeholder_stays(page, "{{HEALTH_COLOR}}"@, color);
    let page = text::replaced_first(page, "{{HEALTH_COLOR}}"@, color);
    text::replaced_text_holds_the_value(page, TABLE_PLACEHOLDER@, html_table(report.violations));
}

proof fn lemma_high_count_without(violations: Seq<ViolationView>, i: int)
    requires
        0 <= i < violations.len(),
    ensures
        high_count(violations) == high_count(violations.remove(i)) + high_count(
            seq![violations[i]],
        ),
{
    let first = violations.take(i);
    let one = seq![violations[i]];
    let rest = violations.skip(i + 1);
    assert(violations == first + one + rest);
    assert(violations.remove(i) == first + rest);
    lemma_high_count_of_sum(first + one, rest);
    lemma_high_count_of_sum(first, one);
    lemma_high_count_of_sum(first, rest);
}

proof fn lemma_high_count_in_any_order(a: Seq<ViolationView>, b: Seq<ViolationView>)
    requires
        a.to_multiset() == b.to_multiset(),
    ensures
        a.len() == b.len(),
        high_count(a) == high_count(b),
    decreases a.len(),
{
    a.to_multiset_ensures();
    b.to_multiset_ensures();
    if a.len() > 0 {
        let last = a.len() - 1;
        assert(a.contains(a[last]));
        assert(a.to_multiset().count(a[last]) > 0);
        assert(b.contains(a[last]));
        let i = choose|i: int| 0 <= i < b.len() && b[i] == a[last];
        lemma_high_count_without(a, last);
        lemma_high_count_without(b, i);
        assert(a.remove(last).to_multiset() == b.remove(i).to_multiset());
        lemma_high_count_in_any_order(a.remove(last), b.remove(i));
    }
}

/// The summary does not depend on the order of the violations.
pub proof fn a_summary_is_of_violations_in_any_order(
    report: ReportView,
    reordered: Seq<ViolationView>,
)
    requires
        report.violations.to_multiset() == reordered.to_multiset(),
    ensures
        summary_of(ReportView { violations: reordered, ..report }) == summary_of(report),
{
    lemma_high_count_in_any_order(report.violations, reordered);
}

/// The escaped form of two texts together is that of the first, then that of the
/// second.
pub proof fn escaping_goes_piece_by_piece(first: Seq<char>, second: Seq<char>)
    ensures
        escaped(first + second) == escaped(first) + escaped(second),
    decreases second.len(),
{
    if second.len() == 0 {
        assert(first + second == first);
        assert(escaped(first) + escaped(second) == escaped(first));
    } else {
        escaping_goes_piece_by_piece(first, second.drop_last());
        assert((first + second).drop_last() == first + second.drop_last());
        assert((first + second).last() == second.last());
        assert(escaped(first + second) =~= escaped(first) + escaped(second));
    }
}

proof fn lemma_escaped_from_the_front(s: Seq<char>)
    requires
        s.len() > 0,
    ensures
        escaped(s) == escaped_char(s[0]) + escaped(s.drop_first()),
{
    let first = seq![s[0]];
    assert(first.drop_last() == Seq::<char>::empty());
    assert(escaped(first.drop_last()) == Seq::<char>::empty());
    assert(escaped(first) =~= escaped_char(s[0]));
    assert(s == first + s.drop_first());
    escaping_goes_piece_by_piece(first, s.drop_first());
}

proof fn lemma_no_escape_begins_another(a: char, b: char, x: Seq<char>, y: Seq<char>)
    requires
        escaped_char(a) + x == escaped_char(b) + y,
    ensures
        a == b,
{
    reveal_strlit("&amp;");
    reveal_strlit("&lt;");
    reveal_strlit("&gt;");
    reveal_strlit("&quot;");
    reveal_strlit("&#39;");
    let left = escaped_char(a) + x;
    let right = escaped_char(b) + y;
    assert(left[0] == escaped_char(a)[0]);
    assert(right[0] == escaped_char(b)[0]);
    if escaped_char(a).len() > 1 && escaped_char(b).len() > 1 {
        assert(left[1] == escaped_char(a)[1]);
        assert(right[1] == escaped_char(b)[1]);
    }
}

/// Escaping loses nothing: two texts with one escaped form are the same.
pub proof fn escaping_tells_texts_apart(a: Seq<char>, b: Seq<char>)
    requires
        escaped(a) == escaped(b),
    ensures
        a == b,
    decreases a.len(),
{
    reveal_strlit("&amp;");
    reveal_strlit("&lt;");
    reveal_strlit("&gt;");
    reveal_strlit("&quot;");
    reveal_strlit("&#39;");
    if a.len() > 0 {
        lemma_escaped_from_the_front(a);
    }
    if b.len() > 0 {
        lemma_escaped_from_the_front(b);
    }
    if a.len() > 0 && b.len() > 0 {
        let x = escaped(a.drop_first());
        let y = escaped(b.drop_first());
        lemma_no_escape_begins_another(a[0], b[0], x, y);
        let piece = escaped_char(a[0]);
        assert(x =~= escaped(a).skip(piece.len() as int));
        assert(y =~= escaped(b).skip(piece.len() as int));
        escaping_tells_texts_apart(a.drop_first(), b.drop_first());
        assert(a == seq![a[0]] + a.drop_first());
        assert(b == seq![b[0]] + b.drop_first());
    } else {
        assert(a.len() == 0 && b.len() == 0);
        assert(a =~= b);
    }
}

/// Each high error costs eight points and each warning three, down to nothing.
pub proof fn each_violation_costs_its_points(high: nat, warnings: nat)
    ensures
        health_score(0, 0) == 100,
        health_score(high + 1, warnings) == (if health_score(high, warnings) >= 8 {
            health_score(high, warnings) - 8
        } else {
            0
        }),
        health_score(high, warnings + 1) == (if health_score(high, warnings) >= 3 {
            health_score(high, warnings) - 3
        } else {
            0
        }),
{
}

/// A summary counts the violations of either severity, and the files of the report.
pub proof fn a_summary_counts_by_severity(report: ReportView)
    ensures
        summary_of(report).files_scanned == report.files_checked,
        summary_of(report).high_errors == report.violations.filter(
            |v: ViolationView| v.severity == ViolationSeverity::High,
        ).len(),
        summary_of(report).warnings == report.violations.filter(
            |v: ViolationView| v.severity == ViolationSeverity::Normal,
        ).len(),
        summary_of(report).health_score == health_score(
            summary_of(report).high_errors,
            summary_of(report).warnings,
        ),
{
    lemma_counted_by_severity(report.violations);
}

proof fn lemma_counted_by_severity(violations: Seq<ViolationView>)
    ensures
        high_count(violations) == violations.filter(
            |v: ViolationView| v.severity == ViolationSeverity::High,
        ).len(),
        violations.len() - high_count(violations) == violations.filter(
            |v: ViolationView| v.severity == ViolationSeverity::Normal,
        ).len(),
    decreases violations.len(),
{
    reveal(Seq::filter);
    if violations.len() > 0 {
        lemma_counted_by_severity(violations.drop_last());
        match violations.last().severity {
            ViolationSeverity::High => {},
            ViolationSeverity::Normal => {},
        }
    }
}

proof fn lemma_steps_are_shown(steps: Seq<Seq<char>>, i: int)
    requires
        0 <= i < steps.len(),
    ensures
        text::occurs(html_steps(steps), escaped(steps[i])),
        text::occurs(markdown_steps(steps), steps[i]),
    decreases steps.len(),
{
    text::a_sum_holds_its_parts();
    if i < steps.len() - 1 {
        lemma_steps_are_shown(steps.drop_last(), i);
        assert(steps.drop_last()[i] == steps[i]);
    }
}

/// A row of the table shows, escaped, all that is told of its violation.
pub proof fn a_row_shows_its_violation(v: ViolationView)
    ensures
        text::occurs(html_row(v), severity_name(v.severity)),
        text::occurs(html_row(v), escaped(v.rule)),
        text::occurs(html_row(v), escaped(v.file)),
        text::occurs(html_row(v), text::decimal(v.line) + ":"@ + text::decimal(v.column)),
        text::occurs(html_row(v), escaped(v.import_path)),
        text::occurs(html_row(v), escaped(v.message)),
        forall|i: int|
            0 <= i < v.remediation.len() ==> text::occurs(
                html_row(v),
                escaped(#[trigger] v.remediation[i]),
            ),
{
    text::a_sum_holds_its_parts();
    let place = text::decimal(v.line) + ":"@ + text::decimal(v.column);
    let before = "<tr data-severity=\""@ + severity_key(v.severity)
        + "\" class=\"hover:bg-slate-800/40\"><td class=\"px-4 py-3\"><span class=\""@
        + badge_classes(v.severity) + "\">"@ + severity_name(v.severity)
        + "</span></td><td class=\"px-4 py-3 font-mono text-xs text-blue-400\">"@ + escaped(v.rule)
        + "</td><td class=\"px-4 py-3 font-mono text-xs break-all\">"@ + escaped(v.file)
        + "</td><td class=\"px-4 py-3 text-slate-300\">"@;
    assert(before + text::decimal(v.line) + ":"@ + text::decimal(v.column) =~= before + place);
    assert(text::occurs(before + place, place));
    assert forall|i: int| 0 <= i < v.remediation.len() implies text::occurs(
        html_row(v),
        escaped(#[trigger] v.remediation[i]),
    ) by {
        lemma_steps_are_shown(v.remediation, i);
    }
}

/// The rows of some violations and then others are those of the first and then those of
/// the others.
pub proof fn rows_come_in_order(first: Seq<ViolationView>, second: Seq<ViolationView>)
    ensures
        html_rows(first + second) == html_rows(first) + html_rows(second),
    decreases second.len(),
{
    if second.len() == 0 {
        assert(first + second == first);
        assert(html_rows(first) + html_rows(second) =~= html_rows(first));
    } else {
        rows_come_in_order(first, second.drop_last());
        assert((first + second).drop_last() == first + second.drop_last());
        assert((first + second).last() == second.last());
        assert(html_rows(first + second) =~= html_rows(first) + html_rows(second));
    }
}

proof fn lemma_rows_hold_each_row(violations: Seq<ViolationView>, i: int)
    requires
        0 <= i < violations.len(),
    ensures
        text::occurs(html_rows(violations), html_row(violations[i])),
    decreases violations.len(),
{
    text::a_sum_holds_its_parts();
    if i < violations.len() - 1 {
        lemma_rows_hold_each_row(violations.drop_last(), i);
        assert(violations.drop_last()[i] == violations[i]);
    }
}

/// The page shows a row for each violation.
pub proof fn the_page_shows_each_violation(report: ReportView, generated_at: Seq<char>, i: int)
    requires
        0 <= i < report.violations.len(),
    ensures
        text::occurs(html_report(report, generated_at), html_row(report.violations[i])),
{
    text::a_sum_holds_its_parts();
    lemma_rows_hold_each_row(report.violations, i);
    the_page_holds_the_table(report, generated_at);
    text::a_part_of_a_part_is_a_part(
        html_report(report, generated_at),
        html_table(report.violations),
        html_row(report.violations[i]),
    );
}

/// A section shows all that is told of its violation.
pub proof fn a_section_shows_its_violation(number: nat, v: ViolationView)
    ensures
        text::occurs(markdown_section(number, v), text::decimal(number)),
        text::occurs(markdown_section(number, v), severity_name(v.severity)),
        text::occurs(markdown_section(number, v), v.rule),
        text::occurs(markdown_section(number, v), v.file),
        text::occurs(markdown_section(number, v), text::decimal(v.line)),
        text::occurs(markdown_section(number, v), text::decimal(v.column)),
        text::occurs(markdown_section(number, v), v.import_path),
        text::occurs(markdown_section(number, v), v.message),
        forall|i: int|
            0 <= i < v.remediation.len() ==> text::occurs(
                markdown_section(number, v),
                #[trigger] v.remediation[i],
            ),
{
    text::a_sum_holds_its_parts();
    assert forall|i: int| 0 <= i < v.remediation.len() implies text::occurs(
        markdown_section(number, v),
        #[trigger] v.remediation[i],
    ) by {
        lemma_steps_are_shown(v.remediation, i);
    }
}

proof fn lemma_sections_hold_each_section(violations: Seq<ViolationView>, i: int)
    requires
        0 <= i < violations.len(),
    ensures
        text::occurs(
            markdown_sections(violations),
            markdown_section((i + 1) as nat, violations[i]),
        ),
    decreases violations.len(),
{
    text::a_sum_holds_its_parts();
    if i < violations.len() - 1 {
        lemma_sections_hold_each_section(violations.drop_last(), i);
        assert(violations.drop_last()[i] == violations[i]);
    }
}

/// A Markdown report has a section for each violation, under its number, and tells the
/// metrics.
pub proof fn the_markdown_shows_each_violation(report: ReportView, i: int)
    ensures
        0 <= i < report.violations.len() ==> text::occurs(
            markdown_report(report),
            markdown_section((i + 1) as nat, report.violations[i]),
        ),
        text::occurs(markdown_report(report), text::decimal(report.files_checked)),
        text::occurs(markdown_report(report), text::decimal(report.violations.len())),
        text::occurs(markdown_report(report), text::decimal(summary_of(report).high_errors)),
        text::occurs(markdown_report(report), text::decimal(summary_of(report).warnings)),
        text::occurs(markdown_report(report), text::decimal(summary_of(report).health_score)),
        text::occurs(markdown_report(report), text::decimal(report.rules_evaluated)),
        text::occurs(markdown_report(report), text::decimal(report.allowlist_layers_evaluated)),
{
    text::a_sum_holds_its_parts();
    if 0 <= i < report.violations.len() {
        lemma_sections_hold_each_section(report.violations, i);
    }
}

/// The sections of some violations stand, under the same numbers, before those of more.
pub proof fn sections_come_in_order(first: Seq<ViolationView>, second: Seq<ViolationView>)
    ensures
        markdown_sections(first).is_prefix_of(markdown_sections(first + second)),
    decreases second.len(),
{
    if second.len() == 0 {
        assert(first + second == first);
    } else {
        sections_come_in_order(first, second.drop_last());
        assert((first + second).drop_last() == first + second.drop_last());
    }
}

proof fn lemma_one_filled(
    before: Seq<char>,
    placeholder: Seq<char>,
    after: Seq<char>,
    value: Seq<char>,
    done: bool,
    needle: Seq<char>,
    put: Seq<char>,
)
    requires
        text::is_placeholder(placeholder),
        text::is_placeholder(needle),
        !before.contains('{'),
        !after.contains('{'),
        done ==> !value.contains('{'),
        needle == placeholder ==> put == value,
    ensures
        text::replaced_first(
            (if done {
                before + value + after
            } else {
                before + placeholder + after
            }),
            needle,
            put,
        ) == (if done || needle == placeholder {
            before + value + after
        } else {
            before + placeholder + after
        }),
{
    if done {
        let page = before + value + after;
        if page.contains('{') {
            let k = choose|k: int| 0 <= k < page.len() && page[k] == '{';
            if k < before.len() {
                assert(before[k] == '{');
            } else if k < before.len() + value.len() {
                assert(value[k - before.len()] == '{');
            } else {
                assert(after[k - before.len() - value.len()] == '{');
            }
        }
        text::no_placeholder_is_replaced_without_braces(page, needle, put);
    } else {
        text::a_lone_placeholder_is_replaced(before, placeholder, after, needle, put);
    }
}

proof fn lemma_filled(
    before: Seq<char>,
    placeholder: Seq<char>,
    after: Seq<char>,
    value: Seq<char>,
    report: ReportView,
    generated_at: Seq<char>,
)
    requires
        text::is_placeholder(placeholder),
        !before.contains('{'),
        !after.contains('{'),
        !value.contains('{') || placeholder == TABLE_PLACEHOLDER@,
        ({
            ||| placeholder == "{{GENERATED_AT}}"@ && value == escaped(generated_at)
            ||| placeholder == "{{FILES_SCANNED}}"@ && value == text::decimal(summary_of(report).files_scanned)
            ||| placeholder == "{{TOTAL_VIOLATIONS}}"@ && value == text::decimal(summary_of(report).total_violations)
            ||| placeholder == "{{HIGH_COUNT}}"@ && value == text::decimal(summary_of(report).high_errors)
            ||| placeholder == "{{WARNING_COUNT}}"@ && value == text::decimal(summary_of(report).warnings)
            ||| placeholder == "{{HEALTH_SCORE}}"@ && value == text::decimal(summary_of(report).health_score)
            ||| placeholder == "{{HEALTH_COLOR}}"@ && value == color_of(summary_of(report).health_score)
            ||| placeholder == "{{VIOLATIONS_TABLE}}"@ && value == html_table(report.violations)
        }),
    ensures
        filled(before + placeholder + after, report, generated_at) == before + value + after,
{
    reveal_strlit("{{GENERATED_AT}}");
    reveal_strlit("{{FILES_SCANNED}}");
    reveal_strlit("{{TOTAL_VIOLATIONS}}");
    reveal_strlit("{{HIGH_COUNT}}");
    reveal_strlit("{{WARNING_COUNT}}");
    reveal_strlit("{{HEALTH_SCORE}}");
    reveal_strlit("{{HEALTH_COLOR}}");
    reveal_strlit("{{VIOLATIONS_TABLE}}");
    lemma_placeholders_differ();
    let d0 = false;
    lemma_one_filled(
        before,
        placeholder,
        after,
        value,
        d0,
        "{{GENERATED_AT}}"@,
        escaped(generated_at),
    );
    let d1 = d0 || "{{GENERATED_AT}}"@ == placeholder;
    lemma_one_filled(
        before,
        placeholder,
        after,
        value,
        d1,
        "{{FILES_SCANNED}}"@,
        text::decimal(summary_of(report).files_scanned),
    );
    let d2 = d1 || "{{FILES_SCANNED}}"@ == placeholder;
    lemma_one_filled(
        before,
        placeholder,
        after,
        value,
        d2,
        "{{TOTAL_VIOLATIONS}}"@,
        text::decimal(summary_of(report).total_violations),
    );
    let d3 = d2 || "{{TOTAL_VIOLATIONS}}"@ == placeholder;
    lemma_one_filled(
        before,
        placeholder,
        after,
        value,
        d3,
        "{{HIGH_COUNT}}"@,
        text::decimal(summary_of(report).high_errors),
    );
    let d4 = d3 || "{{HIGH_COUNT}}"@ == placeholder;
    lemma_one_filled(
        before,
        placeholder,
        after,
        value,
        d4,
        "{{WARNING_COUNT}}"@,
        text::decimal(summary_of(report).warnings),
    );
    let d5 = d4 || "{{WARNING_COUNT}}"@ == placeholder;
    lemma_one_filled(
        before,
        placeholder,
        after,
        value,
        d5,
        "{{HEALTH_SCORE}}"@,
        text::decimal(summary_of(report).health_score),
    );
    let d6 = d5 || "{{HEALTH_SCORE}}"@ == placeholder;
    lemma_one_filled(
        before,
        placeholder,
        after,
        value,
        d6,
        "{{HEALTH_COLOR}}"@,
        color_of(summary_of(report).health_score),
    );
    let d7 = d6 || "{{HEALTH_COLOR}}"@ == placeholder;
    lemma_one_filled(
        before,
        placeholder,
        after,
        value,
        d7,
        "{{VIOLATIONS_TABLE}}"@,
        html_table(report.violations),
    );
}

proof fn lemma_placeholders_differ()
    ensures
        "{{GENERATED_AT}}"@ != "{{FILES_SCANNED}}"@,
        "{{GENERATED_AT}}"@ != "{{TOTAL_VIOLATIONS}}"@,
        "{{GENERATED_AT}}"@ != "{{HIGH_COUNT}}"@,
        "{{GENERATED_AT}}"@ != "{{WARNING_COUNT}}"@,
        "{{GENERATED_AT}}"@ != "{{HEALTH_SCORE}}"@,
        "{{GENERATED_AT}}"@ != "{{HEALTH_COLOR}}"@,
        "{{GENERATED_AT}}"@ != "{{VIOLATIONS_TABLE}}"@,
        "{{FILES_SCANNED}}"@ != "{{TOTAL_VIOLATIONS}}"@,
        "{{FILES_SCANNED}}"@ != "{{HIGH_COUNT}}"@,
        "{{FILES_SCANNED}}"@ != "{{WARNING_COUNT}}"@,
        "{{FILES_SCANNED}}"@ != "{{HEALTH_SCORE}}"@,
        "{{FILES_SCANNED}}"@ != "{{HEALTH_COLOR}}"@,
        "{{FILES_SCANNED}}"@ != "{{VIOLATIONS_TABLE}}"@,
        "{{TOTAL_VIOLATIONS}}"@ != "{{HIGH_COUNT}}"@,
        "{{TOTAL_VIOLATIONS}}"@ != "{{WARNING_COUNT}}"@,
        "{{TOTAL_VIOLATIONS}}"@ != "{{HEALTH_SCORE}}"@,
        "{{TOTAL_VIOLATIONS}}"@ != "{{HEALTH_COLOR}}"@,
        "{{TOTAL_VIOLATIONS}}"@ != "{{VIOLATIONS_TABLE}}"@,
        "{{HIGH_COUNT}}"@ != "{{WARNING_COUNT}}"@,
        "{{HIGH_COUNT}}"@ != "{{HEALTH_SCORE}}"@,
        "{{HIGH_COUNT}}"@ != "{{HEALTH_COLOR}}"@,
        "{{HIGH_COUNT}}"@ != "{{VIOLATIONS_TABLE}}"@,
        "{{WARNING_COUNT}}"@ != "{{HEALTH_SCORE}}"@,
        "{{WARNING_COUNT}}"@ != "{{HEALTH_COLOR}}"@,
        "{{WARNING_COUNT}}"@ != "{{VIOLATIONS_TABLE}}"@,
        "{{HEALTH_SCORE}}"@ != "{{HEALTH_COLOR}}"@,
        "{{HEALTH_SCORE}}"@ != "{{VIOLATIONS_TABLE}}"@,
        "{{HEALTH_COLOR}}"@ != "{{VIOLATIONS_TABLE}}"@,
{
    reveal_strlit("{{GENERATED_AT}}");
    reveal_strlit("{{FILES_SCANNED}}");
    reveal_strlit("{{TOTAL_VIOLATIONS}}");
    reveal_strlit("{{HIGH_COUNT}}");
    reveal_strlit("{{WARNING_COUNT}}");
    reveal_strlit("{{HEALTH_SCORE}}");
    reveal_strlit("{{HEALTH_COLOR}}");
    reveal_strlit("{{VIOLATIONS_TABLE}}");
    assert("{{GENERATED_AT}}"@.len() != "{{FILES_SCANNED}}"@.len());
    assert("{{GENERATED_AT}}"@.len() != "{{TOTAL_VIOLATIONS}}"@.len());
    assert("{{GENERATED_AT}}"@.len() != "{{HIGH_COUNT}}"@.len());
    assert("{{GENERATED_AT}}"@.len() != "{{WARNING_COUNT}}"@.len());
    assert("{{GENERATED_AT}}"@[2] != "{{HEALTH_SCORE}}"@[2]);
    assert("{{GENERATED_AT}}"@[2] != "{{HEALTH_COLOR}}"@[2]);
    assert("{{GENERATED_AT}}"@.len() != "{{VIOLATIONS_TABLE}}"@.len());
    assert("{{FILES_SCANNED}}"@.len() != "{{TOTAL_VIOLATIONS}}"@.len());
    assert("{{FILES_SCANNED}}"@.len() != "{{HIGH_COUNT}}"@.len());
    assert("{{FILES_SCANNED}}"@[2] != "{{WARNING_COUNT}}"@[2]);
    assert("{{FILES_SCANNED}}"@.len() != "{{HEALTH_SCORE}}"@.len());
    assert("{{FILES_SCANNED}}"@.len() != "{{HEALTH_COLOR}}"@.len());
    assert("{{FILES_SCANNED}}"@.len() != "{{VIOLATIONS_TABLE}}"@.len());
    assert("{{TOTAL_VIOLATIONS}}"@.len() != "{{HIGH_COUNT}}"@.len());
    assert("{{TOTAL_VIOLATIONS}}"@.len() != "{{WARNING_COUNT}}"@.len());
    assert("{{TOTAL_VIOLATIONS}}"@.len() != "{{HEALTH_SCORE}}"@.len());
    assert("{{TOTAL_VIOLATIONS}}"@.len() != "{{HEALTH_COLOR}}"@.len());
    assert("{{TOTAL_VIOLATIONS}}"@[2] != "{{VIOLATIONS_TABLE}}"@[2]);
    assert("{{HIGH_COUNT}}"@.len() != "{{WARNING_COUNT}}"@.len());
    assert("{{HIGH_COUNT}}"@.len() != "{{HEALTH_SCORE}}"@.len());
    assert("{{HIGH_COUNT}}"@.len() != "{{HEALTH_COLOR}}"@.len());
    assert("{{HIGH_COUNT}}"@.len() != "{{VIOLATIONS_TABLE}}"@.len());
    assert("{{WARNING_COUNT}}"@.len() != "{{HEALTH_SCORE}}"@.len());
    assert("{{WARNING_COUNT}}"@.len() != "{{HEALTH_COLOR}}"@.len());
    assert("{{WARNING_COUNT}}"@.len() != "{{VIOLATIONS_TABLE}}"@.len());
    assert("{{HEALTH_SCORE}}"@[9] != "{{HEALTH_COLOR}}"@[9]);
    assert("{{HEALTH_SCORE}}"@.len() != "{{VIOLATIONS_TABLE}}"@.len());
    assert("{{HEALTH_COLOR}}"@.len() != "{{VIOLATIONS_TABLE}}"@.len());
}

/// On a blank page each placeholder is replaced by what it stands for: the time of the
/// report, the files, the violations, the high errors, the warnings, the score, its color
/// and the table.
pub proof fn each_placeholder_gets_its_value(
    before: Seq<char>,
    after: Seq<char>,
    report: ReportView,
    generated_at: Seq<char>,
)
    requires
        !before.contains('{'),
        !after.contains('{'),
    ensures
        !escaped(generated_at).contains('{') ==> filled(before + "{{GENERATED_AT}}"@ + after, report, generated_at) == before
            + escaped(generated_at) + after,
        filled(before + "{{FILES_SCANNED}}"@ + after, report, generated_at) == before
            + text::decimal(summary_of(report).files_scanned) + after,
        filled(before + "{{TOTAL_VIOLATIONS}}"@ + after, report, generated_at) == before
            + text::decimal(summary_of(report).total_violations) + after,
        filled(before + "{{HIGH_COUNT}}"@ + after, report, generated_at) == before
            + text::decimal(summary_of(report).high_errors) + after,
        filled(before + "{{WARNING_COUNT}}"@ + after, report, generated_at) == before
            + text::decimal(summary_of(report).warnings) + after,
        filled(before + "{{HEALTH_SCORE}}"@ + after, report, generated_at) == before
            + text::decimal(summary_of(report).health_score) + after,
        filled(before + "{{HEALTH_COLOR}}"@ + after, report, generated_at) == before
            + color_of(summary_of(report).health_score) + after,
        filled(before + "{{VIOLATIONS_TABLE}}"@ + after, report, generated_at) == before
            + html_table(report.violations) + after,
{
    reveal_strlit("{{GENERATED_AT}}");
    reveal_strlit("{{FILES_SCANNED}}");
    reveal_strlit("{{TOTAL_VIOLATIONS}}");
    reveal_strlit("{{HIGH_COUNT}}");
    reveal_strlit("{{WARNING_COUNT}}");
    reveal_strlit("{{HEALTH_SCORE}}");
    reveal_strlit("{{HEALTH_COLOR}}");
    reveal_strlit("{{VIOLATIONS_TABLE}}");
    let summary = summary_of(report);
    text::decimals_stand_for_their_number(summary.files_scanned);
    text::decimals_stand_for_their_number(summary.total_violations);
    text::decimals_stand_for_their_number(summary.high_errors);
    text::decimals_stand_for_their_number(summary.warnings);
    text::decimals_stand_for_their_number(summary.health_score);
    reveal_strlit("#22c55e");
    reveal_strlit("#f59e0b");
    reveal_strlit("#ef4444");
    let color = color_of(summary.health_score);
    assert(!color.contains('{')) by {
        assert(color.len() == 7);
        assert forall|i: int| 0 <= i < color.len() implies color[i] != '{' by {}
    }
    if !escaped(generated_at).contains('{') {
        lemma_filled(
            before,
            "{{GENERATED_AT}}"@,
            after,
            escaped(generated_at),
            report,
            generated_at,
        );
    }
    lemma_filled(
        before,
        "{{FILES_SCANNED}}"@,
        after,
        text::decimal(summary_of(report).files_scanned),
        report,
        generated_at,
    );
    lemma_filled(
        before,
        "{{TOTAL_VIOLATIONS}}"@,
        after,
        text::decimal(summary_of(report).total_violations),
        report,
        generated_at,
    );
    lemma_filled(
        before,
        "{{HIGH_COUNT}}"@,
        after,
        text::decimal(summary_of(report).high_errors),
        report,
        generated_at,
    );
    lemma_filled(
        before,
        "{{WARNING_COUNT}}"@,
        after,
        text::decimal(summary_of(report).warnings),
        report,
        generated_at,
    );
    lemma_filled(
        before,
        "{{HEALTH_SCORE}}"@,
        after,
        text::decimal(summary_of(report).health_score),
        report,
        generated_at,
    );
    lemma_filled(
        before,
        "{{HEALTH_COLOR}}"@,
        after,
        color_of(summary_of(report).health_score),
        report,
        generated_at,
    );
    lemma_filled(
        before,
        "{{VIOLATIONS_TABLE}}"@,
        after,
        html_table(report.violations),
        report,
        generated_at,
    );
}

/// Two scores have one color exactly where both or neither reach ninety, and both or
/// neither reach seventy.
pub proof fn colors_tell_scores_apart(a: nat, b: nat)
    ensures
        color_of(a) == color_of(b) <==> (a >= 90 <==> b >= 90) && (a >= 70 <==> b >= 70),
{
    reveal_strlit("#22c55e");
    reveal_strlit("#f59e0b");
    reveal_strlit("#ef4444");
    assert("#22c55e"@[1] == '2' && "#f59e0b"@[1] == 'f' && "#ef4444"@[1] == 'e');
}

}
