use steiger::diagnostic::Diagnostic;
use steiger::engine::compare_diagnostic_paths;

#[test]
fn sorts_ascii_paths_like_javascript_locale_compare() {
    let mut diagnostics = vec![
        Diagnostic::new("fsd/test", "account tariff", "/src/pages/AccountTariff/index.ts"),
        Diagnostic::new("fsd/test", "accounts reports", "/src/pages/AccountsReports/index.ts"),
    ];

    diagnostics.sort_by(compare_diagnostic_paths);

    assert_eq!(diagnostics[0].message, "accounts reports");
    assert_eq!(diagnostics[1].message, "account tariff");
}

use std::cmp::Ordering;
use steiger::config::Config;
use steiger::diagnostic::{Fix, Severity};
use steiger::engine::{apply_severities, plan_fixes, rename_destination, sort_diagnostics};

#[test]
fn comparison_folds_case_then_orders_paths() {
    let a = Diagnostic::new("fsd/test", "a", "/src/B");
    let b = Diagnostic::new("fsd/test", "b", "/src/a");
    assert_eq!(compare_diagnostic_paths(&a, &b), Ordering::Greater);
    assert_eq!(compare_diagnostic_paths(&b, &a), Ordering::Less);
    let upper = Diagnostic::new("fsd/test", "u", "/src/A");
    assert_eq!(compare_diagnostic_paths(&upper, &b), Ordering::Less);
    assert_eq!(compare_diagnostic_paths(&a, &a), Ordering::Equal);
}

#[test]
fn sorting_keeps_equal_paths_in_order() {
    let diagnostics = vec![
        Diagnostic::new("fsd/test", "second path", "/src/b"),
        Diagnostic::new("fsd/test", "first", "/src/a"),
        Diagnostic::new("fsd/test", "second", "/src/a"),
    ];
    let sorted = sort_diagnostics(&diagnostics);
    let messages: Vec<&str> = sorted.iter().map(|d| d.message.as_str()).collect();
    assert_eq!(messages, vec!["first", "second", "second path"]);
}

#[test]
fn applies_create_file_and_rename_fixes() {
    let slice = "/t/user";
    let diagnostics = vec![
        Diagnostic::new("fsd/public-api", "missing", slice).with_fixes(vec![Fix::CreateFile {
            path: "/t/user/index.js".to_owned(),
            content: "export {}".to_owned(),
        }]),
        Diagnostic::new("fsd/inconsistent-naming", "rename", slice).with_fixes(vec![Fix::Rename {
            path: slice.to_owned(),
            new_name: "users".to_owned(),
        }]),
    ];
    let (remaining, steps) = plan_fixes(&diagnostics);
    assert!(remaining.is_empty());
    assert_eq!(steps.len(), 2);
    assert_eq!(steps[0].1, "fsd/public-api");
    assert_eq!(steps[1].2, "/t/user");
    assert_eq!(rename_destination(slice, "users"), "/t/users");
    assert_eq!(rename_destination("user", "users"), "users");
}

#[test]
fn diagnostics_without_fixes_remain() {
    let diagnostics = vec![Diagnostic::new("fsd/no-processes", "m", "/t/src/processes")];
    let (remaining, steps) = plan_fixes(&diagnostics);
    assert_eq!(remaining.len(), 1);
    assert!(steps.is_empty());
}

#[test]
fn off_diagnostics_are_dropped_and_others_rated() {
    let config = Config::recommended();
    let diagnostics = vec![
        Diagnostic::new("fsd/public-api", "kept", "/t/src/shared"),
        Diagnostic::new("fsd/no-cross-imports", "dropped", "/t/src/features/a/x.ts"),
    ];
    let files = vec!["/t/src/features/a/x.ts".to_owned(), "/t/src/shared/a.ts".to_owned()];
    let rated = apply_severities(&config, diagnostics, &files, &vec![false, true]);
    assert_eq!(rated.len(), 1);
    assert_eq!(rated[0].message, "kept");
    assert_eq!(rated[0].severity, Severity::Error);
}
