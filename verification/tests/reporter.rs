use steiger::diagnostic::{Diagnostic, Fix, Severity};
use steiger::reporter::{count_text, exit_status, fixable_count, fixes_text, location_text, severity_count, summary_line, summary_text};

#[test]
fn counts_read_naturally() {
    assert_eq!(count_text(1, "error"), "1 error");
    assert_eq!(count_text(3, "warning"), "3 warnings");
    assert_eq!(fixes_text(0, 4), "none can be fixed automatically");
    assert_eq!(fixes_text(4, 4), "all can be fixed automatically with --fix");
    assert_eq!(fixes_text(2, 4), "2 can be fixed automatically with --fix");
}

#[test]
fn severities_and_fixes_are_counted() {
    let mut warn = Diagnostic::new("fsd/a", "m", "/p/a");
    warn.severity = Severity::Warn;
    let fixable = Diagnostic::new("fsd/b", "m", "/p/b").with_fixes(vec![Fix::CreateFolder { path: "/p/b".to_owned() }]);
    let diagnostics = vec![warn, fixable, Diagnostic::new("fsd/c", "m", "/p/c")];
    assert_eq!(severity_count(&diagnostics, Severity::Error), 2);
    assert_eq!(severity_count(&diagnostics, Severity::Warn), 1);
    assert_eq!(fixable_count(&diagnostics), 1);
}

#[test]
fn locations_are_shown_relative_to_the_working_directory() {
    let mut d = Diagnostic::new("fsd/a", "m", "/w/src/app");
    assert_eq!(location_text(&d, "/w"), "src/app");
    assert_eq!(location_text(&d, "/elsewhere"), "/w/src/app");
    d.location.line = Some(12);
    assert_eq!(location_text(&d, "/w"), "src/app:12");
    d.location.column = Some(3);
    assert_eq!(location_text(&d, "/w"), "src/app:12:3");
}

#[test]
fn errors_fail_the_run_and_warnings_only_when_asked() {
    let mut warn = Diagnostic::new("fsd/a", "m", "/p/a");
    warn.severity = Severity::Warn;
    let warnings = vec![warn];
    assert_eq!(exit_status(&warnings, false), 0);
    assert_eq!(exit_status(&warnings, true), 1);
    assert_eq!(exit_status(&vec![Diagnostic::new("fsd/a", "m", "/p/a")], false), 1);
    assert_eq!(exit_status(&Vec::new(), true), 0);
}

#[test]
fn a_folder_location_is_shown_without_a_trailing_separator() {
    let d = Diagnostic::new("fsd/a", "m", "/w/src/features/");
    assert_eq!(location_text(&d, "/w"), "src/features");
    let e = Diagnostic::new("fsd/a", "m", "/w//src/app");
    assert_eq!(location_text(&e, "/w"), "src/app");
}

#[test]
fn locations_are_relative_to_a_root_working_folder() {
    let d = Diagnostic::new("fsd/a", "m", "/src/app");
    assert_eq!(location_text(&d, "/"), "src/app");
}

#[test]
fn the_summary_names_the_present_counts_and_the_fixes() {
    assert_eq!(
        summary_text(2, 1, 1, 3),
        "Found 2 errors and 1 warning (1 can be fixed automatically with --fix)"
    );
    assert_eq!(summary_text(0, 3, 0, 3), "Found 3 warnings (none can be fixed automatically)");
    assert_eq!(summary_text(1, 0, 1, 1), "Found 1 error (all can be fixed automatically with --fix)");
    assert_eq!(summary_line(&vec!["a".to_owned(), "b".to_owned()], "c"), "Found a and b (c)");
}
