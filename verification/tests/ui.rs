use science::diff::render;
use science::ui::{expectation_path, is_case_source, Expectation, UiFailure, UiTestOptions, UiTestReport};

#[test]
fn the_expectation_sits_next_to_the_source() {
    let expectation = expectation_path("tests/ui/tab_in_indentation.science");
    assert_eq!(expectation, "tests/ui/tab_in_indentation.stderr");
}

#[test]
fn an_extensionless_source_gains_one() {
    assert_eq!(expectation_path("tests/ui/case"), "tests/ui/case.stderr");
    assert_eq!(expectation_path(".hidden"), ".hidden.stderr");
    assert_eq!(expectation_path("a.b/c"), "a.b/c.stderr");
    assert_eq!(expectation_path("a/b.c.science"), "a/b.c.stderr");
    assert_eq!(expectation_path("dir/"), "dir.stderr");
    assert_eq!(expectation_path(".."), "..");
}

#[test]
fn a_trailing_dot_component_names_the_same_file() {
    // As `Path::with_extension` does: `foo.txt/.` is the file `foo.txt`.
    assert_eq!(expectation_path("foo.txt/."), "foo.stderr");
    assert_eq!(expectation_path("a/b.science/./"), "a/b.stderr");
    assert_eq!(expectation_path("."), ".");
    assert_eq!(expectation_path("foo/.."), "foo/..");
    for path in ["foo.txt/.", "a/b.science/./", "dir/", "a/b.c.science", ".hidden", "..", "."] {
        let expected = std::path::Path::new(path).with_extension("stderr");
        assert_eq!(expectation_path(path), expected.to_str().unwrap(), "{path}");
    }
}

#[test]
fn only_an_exact_one_blesses() {
    assert!(UiTestOptions::from_bless_value(Some("1")).bless);
    assert!(!UiTestOptions::from_bless_value(Some("0")).bless);
    assert!(!UiTestOptions::from_bless_value(Some("")).bless);
    assert!(!UiTestOptions::from_bless_value(None).bless);
}

#[test]
fn a_matching_case_passes() {
    let mut report = UiTestReport::new("tests/ui");
    let written = report.check_case(
        "tests/ui/a.science",
        UiTestOptions::default(),
        "error\r\n\n",
        Expectation::Found("error\n".to_string()),
    );
    assert!(written.is_none());
    assert_eq!(report.passed(), 1);
    assert_eq!(report.failed(), 0);
    assert_eq!(report.total(), 1);
    assert!(report.is_ok());
    report.assert_success();
    assert_eq!(report.passed_cases(), &["tests/ui/a.science".to_string()]);
}

#[test]
fn a_differing_case_fails_with_a_diff() {
    let mut report = UiTestReport::new("tests/ui");
    report.check_case(
        "tests/ui/b.science",
        UiTestOptions::default(),
        "new\n",
        Expectation::Found("old\n".to_string()),
    );
    assert_eq!(report.failed(), 1);
    assert!(!report.is_ok());
    let failure = &report.failures()[0];
    assert_eq!(failure.source, "tests/ui/b.science");
    assert_eq!(failure.expectation, "tests/ui/b.stderr");
    assert_eq!(failure.reason, "the diagnostics produced differ from the expectation");
    assert_eq!(failure.diff, render("old\n", "new\n"));
}

#[test]
fn a_missing_expectation_is_written_and_blessed() {
    let mut report = UiTestReport::new("tests/ui");
    let written = report.check_case(
        "tests/ui/c.science",
        UiTestOptions::default(),
        "out\n\n\n",
        Expectation::Missing,
    );
    assert_eq!(written, Some("out\n".to_string()));
    assert_eq!(report.total(), 0);
    report.record_write("tests/ui/c.science", Ok(()));
    assert_eq!(report.blessed(), 1);
    assert_eq!(report.blessed_cases(), &["tests/ui/c.science".to_string()]);
    assert!(report.is_ok());
}

#[test]
fn blessing_rewrites_an_existing_expectation() {
    let mut report = UiTestReport::new("tests/ui");
    let written = report.check_case(
        "tests/ui/d.science",
        UiTestOptions { bless: true },
        "current\n",
        Expectation::Found("stale\n".to_string()),
    );
    assert_eq!(written, Some("current\n".to_string()));
}

#[test]
fn io_errors_are_failures() {
    let mut report = UiTestReport::new("tests/ui");
    report.check_case(
        "tests/ui/e.science",
        UiTestOptions::default(),
        "x\n",
        Expectation::Unreadable("permission denied".to_string()),
    );
    report.source_unreadable("tests/ui/f.science", "gone");
    report.record_write("tests/ui/g.science", Err("disk full".to_string()));
    report.directory_unreadable("no such directory");
    let reasons: Vec<&str> = report.failures().iter().map(|f| f.reason.as_str()).collect();
    assert_eq!(
        reasons,
        vec![
            "could not read the expectation: permission denied",
            "could not read the source: gone",
            "could not write the expectation: disk full",
            "could not read the UI test directory tests/ui: no such directory",
        ]
    );
    assert_eq!(report.failures()[1].expectation, "tests/ui/f.stderr");
    assert_eq!(report.directory(), "tests/ui");
}

#[test]
fn the_summary_counts_lists_and_hints() {
    let mut report = UiTestReport::new("tests/ui");
    report.check_case("a.science", UiTestOptions::default(), "x\n", Expectation::Found("x\n".to_string()));
    report.record_write("b.science", Ok(()));
    report.check_case("c.science", UiTestOptions::default(), "y\n", Expectation::Found("x\n".to_string()));
    let summary = report.summary();
    assert!(summary.starts_with("ui tests in tests/ui: 1 passed, 1 failed, 1 blessed\nblessed b.science\n\nFAILED c.science\n"));
    assert!(summary.contains("  the diagnostics produced differ from the expectation\n"));
    assert!(summary.contains("  expectation: c.stderr\n"));
    assert!(summary.contains("  --- expected (the .stderr file on disk)\n"));
    assert!(summary.ends_with(
        "\nIf these outputs are the new correct ones, rerun with SCIENCE_BLESS=1 to overwrite the expectation files, then read `git diff` before committing.\n"
    ));
}

#[test]
fn a_clean_summary_has_no_hint() {
    let report = UiTestReport::new("tests/ui");
    assert_eq!(report.summary(), "ui tests in tests/ui: 0 passed, 0 failed, 0 blessed\n");
}

#[test]
fn a_failure_reads_with_its_diff_indented() {
    let failure = UiFailure {
        source: "s.science".to_string(),
        expectation: "s.stderr".to_string(),
        reason: "why".to_string(),
        diff: "a\nb\n".to_string(),
    };
    assert_eq!(failure.text(), "FAILED s.science\n  why\n  expectation: s.stderr\n  a\n  b\n");
}

#[test]
fn a_case_is_a_file_whose_extension_is_the_source_one() {
    assert!(is_case_source("tests/ui/case.science"));
    assert!(is_case_source("a.b/c.science"));
    assert!(!is_case_source("tests/ui/case.stderr"));
    assert!(!is_case_source("tests/ui/.science"));
    assert!(!is_case_source("tests/ui/case.sciences"));
    assert!(!is_case_source("tests/ui/case"));
    assert!(!is_case_source(".."));
    for path in ["a/x.science", "x.science/.", ".science", "y.science.bak", "dir/", "a.science/"] {
        let by_std = std::path::Path::new(path).extension().and_then(|e| e.to_str()) == Some("science");
        assert_eq!(is_case_source(path), by_std, "{path}");
    }
}
