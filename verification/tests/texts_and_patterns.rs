use architectural_drift_detector::globs::build_glob_set;
use architectural_drift_detector::text::{
    contains_text, decimal_text, drop_suffixes, has_suffix, join, replace_placeholder, same_text,
    trim, unquote,
};

fn texts(items: &[&str]) -> Vec<String> {
    items.iter().map(|item| item.to_string()).collect()
}

#[test]
fn a_set_matches_what_one_of_its_patterns_matches() {
    let few = build_glob_set(&texts(&["src/*.ts"])).expect("few");
    let more = build_glob_set(&texts(&["lib/**", "src/*.ts"])).expect("more");
    assert!(few.is_match("src/a.ts") && more.is_match("src/a.ts"));
    assert!(!few.is_match("lib/x/y") && more.is_match("lib/x/y"));
    assert!(!few.is_match("src/a.tsx") && !more.is_match("src/a.tsx"));
    assert!(!build_glob_set(&[]).expect("empty").is_match("anything"));
}

#[test]
fn the_first_malformed_pattern_is_told() {
    let error = build_glob_set(&texts(&["ok", "a{", "b["])).expect_err("malformed");
    assert!(error.to_string().contains("'a{'"), "{error}");
}

#[test]
fn placeholders_are_replaced_once() {
    let mut page = "a {{X}} b {{X}}".to_owned();
    replace_placeholder(&mut page, "{{X}}", "{{X}}!");
    assert_eq!(page, "a {{X}}! b {{X}}");
    replace_placeholder(&mut page, "{{Y}}", "z");
    assert_eq!(page, "a {{X}}! b {{X}}");
    replace_placeholder(&mut page, "", "<");
    assert_eq!(page, "<a {{X}}! b {{X}}");
}

#[test]
fn white_space_and_quotes_are_trimmed() {
    assert_eq!(trim(" \t\u{a0}a b\u{3000}\n"), "a b");
    assert_eq!(trim("\u{200b}x"), "\u{200b}x");
    assert_eq!(trim("  "), "");
    assert_eq!(unquote("'\"a'b\"'"), "a'b");
    assert_eq!(unquote("''"), "");
    assert_eq!(unquote("`a`"), "`a`");
}

#[test]
fn numbers_are_written_in_decimal() {
    assert_eq!(decimal_text(0), "0");
    assert_eq!(decimal_text(9), "9");
    assert_eq!(decimal_text(10), "10");
    assert_eq!(decimal_text(usize::MAX), usize::MAX.to_string());
}

#[test]
fn suffixes_are_dropped_however_many() {
    assert_eq!(drop_suffixes("a.ts.ts", ".ts"), "a");
    assert_eq!(drop_suffixes(".ts", ".ts"), "");
    assert_eq!(drop_suffixes("a.tsx", ".ts"), "a.tsx");
    assert_eq!(drop_suffixes("abc", ""), "abc");
    assert!(has_suffix("a.ts", ".ts") && !has_suffix("s", ".ts"));
}

#[test]
fn lists_are_joined_and_searched() {
    assert_eq!(join(&texts(&["a", "b", "c"]), ", "), "a, b, c");
    assert_eq!(join(&[], ", "), "");
    assert!(contains_text(&texts(&["x", "y"]), "y"));
    assert!(!contains_text(&texts(&["x", "y"]), "z"));
    assert!(same_text("é", "é") && !same_text("a", "A"));
}
