use std::time::{Duration, SystemTime};

use architectural_drift_detector::clock::{chrono_lite_timestamp, timestamp_of, timestamp_text};
use architectural_drift_detector::reporter::{escape_html, render_violations_table, severity_label};
use architectural_drift_detector::{
    HtmlReportGenerator, MarkdownReportGenerator, ReportGenerator, ReportSummary, ValidationReport,
    Violation, ViolationSeverity,
};

fn sample_report() -> ValidationReport {
    ValidationReport {
        files_checked: 10,
        rules_evaluated: 2,
        allowlist_layers_evaluated: 1,
        violations: vec![
            Violation {
                rule: "interface-bypass-violation".into(),
                file: "src/ui/Home.tsx".into(),
                line: 3,
                column: 1,
                import_path: "../data/UserRepo".into(),
                message: "Concrete import bypasses port".into(),
                remediation: vec!["Use domain port".into()],
                severity: ViolationSeverity::High,
            },
            Violation {
                rule: "layer-allowlist".into(),
                file: "src/ui/Panel.tsx".into(),
                line: 5,
                column: 1,
                import_path: "../infra/cache".into(),
                message: "Layer not allowed".into(),
                remediation: vec!["Remove import".into()],
                severity: ViolationSeverity::Normal,
            },
        ],
    }
}

fn report_with(high: usize, normal: usize) -> ValidationReport {
    let sample = sample_report();
    let mut violations = vec![sample.violations[0].clone(); high];
    violations.extend(vec![sample.violations[1].clone(); normal]);
    ValidationReport { violations, ..Default::default() }
}

#[test]
fn computes_health_score_with_severity_weighting() {
    let summary = ReportSummary::from_report(&sample_report());
    assert_eq!(summary.high_errors, 1);
    assert_eq!(summary.warnings, 1);
    assert_eq!(summary.health_score, 89);
}

#[test]
fn html_report_contains_summary_and_violations() {
    let html = HtmlReportGenerator.render(&sample_report()).expect("html");
    assert!(html.contains("Architecture Health"));
    assert!(html.contains("interface-bypass-violation"));
    assert!(html.contains("id=\"search\""));
    assert!(html.contains("tailwindcss.com"));
    assert!(html.contains("89%") || html.contains(">89<"));
}

#[test]
fn markdown_report_is_github_actions_compatible() {
    let md = MarkdownReportGenerator.render(&sample_report()).expect("md");
    assert!(md.contains("# Architectural Drift Report"));
    assert!(md.contains("| Architecture Health | 89% |"));
    assert!(md.contains("<details>"));
    assert!(md.contains("interface-bypass-violation"));
}

#[test]
fn empty_report_renders_clean_health() {
    let report = ValidationReport { files_checked: 5, ..Default::default() };
    let summary = ReportSummary::from_report(&report);
    assert_eq!(summary.health_score, 100);
    let html = HtmlReportGenerator.render(&report).expect("html");
    assert!(html.contains("No architectural violations"));
}

#[test]
fn scores_fall_with_violations_and_stop_at_zero() {
    let score = |high, normal| ReportSummary::from_report(&report_with(high, normal)).health_score;
    assert_eq!(score(0, 1), 97);
    assert_eq!(score(1, 0), 92);
    assert_eq!(score(0, 33), 1);
    assert_eq!(score(0, 34), 0);
    assert_eq!(score(12, 1), 1);
    assert_eq!(score(13, 0), 0);
    assert_eq!(score(40, 40), 0);
}

#[test]
fn summaries_count_by_severity() {
    let summary = ReportSummary::from_report(&report_with(2, 3));
    assert_eq!(summary.files_scanned, 0);
    assert_eq!(summary.total_violations, 5);
    assert_eq!((summary.high_errors, summary.warnings), (2, 3));
    assert_eq!(ReportSummary::from_report(&sample_report()).files_scanned, 10);
}

#[test]
fn the_order_of_violations_does_not_count() {
    let mut report = sample_report();
    let summary = ReportSummary::from_report(&report);
    report.violations.reverse();
    assert_eq!(ReportSummary::from_report(&report), summary);
}

#[test]
fn health_has_three_colors() {
    let color = |score| {
        let summary = ReportSummary { health_score: score, ..ReportSummary::from_report(&sample_report()) };
        summary.health_color()
    };
    assert_eq!(color(100), "#22c55e");
    assert_eq!(color(90), "#22c55e");
    assert_eq!(color(89), "#f59e0b");
    assert_eq!(color(70), "#f59e0b");
    assert_eq!(color(69), "#ef4444");
    assert_eq!(color(0), "#ef4444");
}

#[test]
fn markdown_is_written_line_by_line() {
    let md = MarkdownReportGenerator.render(&sample_report()).expect("md");
    let expected = "# Architectural Drift Report\n\n## Summary\n\n| Metric | Value |\n| --- | --- |\n\
        | Files Scanned | 10 |\n| Total Violations | 2 |\n| Architecture Health | 89% |\n\
        | High Errors | 1 |\n| Warnings | 1 |\n| Rules Evaluated | 2 |\n| Allowlist Layers | 1 |\n\
        \n## Violations by Severity\n\n- **High errors:** 1\n- **Warnings:** 1\n\n<details>\n\
        <summary>Violation details (2 total)</summary>\n\n\
        ### 1. [High] `interface-bypass-violation` — `src/ui/Home.tsx`\n\
        - **Location:** line 3, column 1\n- **Import:** `../data/UserRepo`\n\
        - **Message:** Concrete import bypasses port\n- **Remediation:**\n  - Use domain port\n\n\
        ### 2. [Warning] `layer-allowlist` — `src/ui/Panel.tsx`\n\
        - **Location:** line 5, column 1\n- **Import:** `../infra/cache`\n\
        - **Message:** Layer not allowed\n- **Remediation:**\n  - Remove import\n\n</details>\n";
    assert_eq!(md, expected);
}

#[test]
fn markdown_of_a_clean_report_says_so() {
    let report = ValidationReport { files_checked: 5, ..Default::default() };
    let md = MarkdownReportGenerator.render(&report).expect("md");
    assert!(md.ends_with("| Allowlist Layers | 0 |\n\n> No architectural violations detected.\n"));
    assert!(!md.contains("<details>"));
}

#[test]
fn steps_may_be_missing() {
    let mut report = sample_report();
    report.violations[0].remediation.clear();
    report.violations.truncate(1);
    let md = MarkdownReportGenerator.render(&report).expect("md");
    assert!(!md.contains("Remediation"));
}

#[test]
fn the_page_shows_its_values() {
    let html = HtmlReportGenerator.render_at(&sample_report(), "UTC <now>");
    assert!(html.contains("Generated UTC &lt;now&gt;"));
    assert!(html.contains(">10</p>"));
    assert!(html.contains("89%"));
    assert!(html.contains("#f59e0b"));
    assert!(html.contains("<td class=\"px-4 py-3 text-slate-300\">3:1</td>"));
    assert!(html.contains("<li class=\"text-xs\">Use domain port</li>"));
    assert!(!html.contains("{{"));
}

#[test]
fn the_table_escapes_what_it_shows() {
    let mut report = sample_report();
    report.violations[0].message = "a < b && c > \"d\" 'e'".into();
    let table = render_violations_table(&report.violations);
    assert!(table.contains("a &lt; b &amp;&amp; c &gt; &quot;d&quot; &#39;e&#39;"));
    assert!(table.starts_with("<table class=\"w-full"));
    assert!(table.ends_with("</tbody></table>"));
    assert_eq!(table.matches("<tr data-severity=\"high\"").count(), 1);
    assert_eq!(table.matches("<tr data-severity=\"normal\"").count(), 1);
    assert!(render_violations_table(&Vec::new()).starts_with("<div class=\"p-12"));
}

#[test]
fn the_page_holds_the_table_as_it_is() {
    let mut report = sample_report();
    report.violations[0].message = "{{HEALTH_SCORE}} and {{VIOLATIONS_TABLE}}".into();
    report.violations[1].rule = "{{GENERATED_AT}}".into();
    let table = render_violations_table(&report.violations);
    assert!(table.contains("{{HEALTH_SCORE}} and {{VIOLATIONS_TABLE}}"));
    assert!(HtmlReportGenerator.render(&report).expect("html").contains(&table));
    let odd = HtmlReportGenerator.render_at(&report, "{{VIOLATIONS_TABLE}}");
    assert!(odd.contains(&table));
}

#[test]
fn html_is_escaped() {
    assert_eq!(escape_html("<a href=\"x\">&'</a>"), "&lt;a href=&quot;x&quot;&gt;&amp;&#39;&lt;/a&gt;");
    assert_eq!(escape_html("plain — text"), "plain — text");
    assert_eq!(escape_html(""), "");
    assert_eq!(escape_html("<a") + &escape_html("&b"), escape_html("<a&b"));
    assert_ne!(escape_html("&lt;"), escape_html("<"));
}

#[test]
fn formats_and_severities_have_names() {
    assert_eq!(HtmlReportGenerator.format_name(), "html");
    assert_eq!(MarkdownReportGenerator.format_name(), "markdown");
    assert_eq!(severity_label(ViolationSeverity::High), "High");
    assert_eq!(severity_label(ViolationSeverity::Normal), "Warning");
}

#[test]
fn times_are_seconds_since_the_epoch() {
    assert_eq!(timestamp_text(0), "UTC 0");
    assert_eq!(timestamp_text(u64::MAX), "UTC 18446744073709551615");
    let time = SystemTime::UNIX_EPOCH + Duration::from_millis(1234567890);
    assert_eq!(timestamp_of(time), "UTC 1234567");
    let before = SystemTime::UNIX_EPOCH - Duration::from_secs(1);
    assert_eq!(timestamp_of(before), "UTC 0");
    let now = chrono_lite_timestamp();
    let seconds: u64 = now.strip_prefix("UTC ").expect("prefix").parse().expect("seconds");
    assert!(seconds > 1_600_000_000);
}
