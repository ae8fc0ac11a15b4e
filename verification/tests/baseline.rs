use steiger::baseline::{new_diagnostics_status, normalize_path, DiagnosticBaseline};
use steiger::diagnostic::Diagnostic;

#[test]
fn matches_rule_and_path_relative_to_the_baseline_file() {
    let raw = vec![("fsd/insignificant-slice".to_owned(), vec!["src/entities/user".to_owned()])];
    let baseline = DiagnosticBaseline::new("/t/fsd-errors.json", &raw);
    let known = Diagnostic::new("fsd/insignificant-slice", "known", "/t/src/entities/user");
    let new_path = Diagnostic::new("fsd/insignificant-slice", "new", "/t/src/entities/account");
    let new_rule = Diagnostic::new("fsd/no-processes", "new rule", "/t/src/processes");
    assert!(baseline.contains(&known));
    assert!(!baseline.contains(&new_path));
    assert!(!baseline.contains(&new_rule));
}

#[test]
fn accepts_absolute_paths_and_windows_separators() {
    let target = "/t/src/features/search";
    let windows_path = target.replace('/', "\\");
    let raw = vec![("fsd/test".to_owned(), vec![windows_path])];
    let baseline = DiagnosticBaseline::new("/t/fsd-errors.json", &raw);
    assert!(baseline.contains(&Diagnostic::new("fsd/test", "known", target)));
}

#[test]
fn only_diagnostics_absent_from_the_baseline_remain() {
    let raw = vec![("fsd/no-processes".to_owned(), vec!["./src/processes/".to_owned()])];
    let baseline = DiagnosticBaseline::new("/t/fsd-errors.json", &raw);
    let diagnostics = vec![
        Diagnostic::new("fsd/no-processes", "known", "/t/src/processes"),
        Diagnostic::new("fsd/public-api", "new", "/t/src/processes"),
    ];
    let remaining = baseline.retain_new(diagnostics);
    assert_eq!(remaining.len(), 1);
    assert_eq!(remaining[0].message, "new");
    let empty = DiagnosticBaseline::new("/t/fsd-errors.json", &Vec::new());
    assert_eq!(empty.retain_new(vec![Diagnostic::new("fsd/x", "m", "/t/a")]).len(), 1);
}

#[test]
fn baseline_paths_are_normalized() {
    assert_eq!(normalize_path(".\\src\\a\\"), "src/a");
    assert_eq!(normalize_path("./src//"), "src");
    assert_eq!(normalize_path("/abs/path"), "/abs/path");
}

#[test]
fn a_run_fails_only_on_new_diagnostics_and_passes_after_a_reduction() {
    let raw = vec![(
        "fsd/insignificant-slice".to_owned(),
        vec!["src/entities/user".to_owned(), "src/entities/account".to_owned()],
    )];
    let baseline = DiagnosticBaseline::new("/t/fsd-errors.json", &raw);
    let known_user = Diagnostic::new("fsd/insignificant-slice", "known", "/t/src/entities/user");
    let known_account = Diagnostic::new("fsd/insignificant-slice", "known", "/t/src/entities/account");
    let fresh = Diagnostic::new("fsd/insignificant-slice", "new", "/t/src/entities/order");
    let all_known = baseline.retain_new(vec![known_user.clone(), known_account.clone()]);
    assert_eq!(new_diagnostics_status(&all_known), 0);
    let reduced = baseline.retain_new(vec![known_account]);
    assert_eq!(new_diagnostics_status(&reduced), 0);
    let with_new = baseline.retain_new(vec![known_user, fresh]);
    assert_eq!(with_new.len(), 1);
    assert_eq!(new_diagnostics_status(&with_new), 1);
}

#[test]
fn a_baseline_at_the_file_system_root_matches_relative_paths() {
    let raw = vec![("r".to_owned(), vec!["a/x.ts".to_owned()])];
    let baseline = DiagnosticBaseline::new("/b.json", &raw);
    assert!(baseline.contains(&Diagnostic::new("r", "m", "/a/x.ts")));
    assert!(!baseline.contains(&Diagnostic::new("r", "m", "/a/y.ts")));
}

#[test]
fn a_baseline_is_read_from_its_json_text() {
    let text = r#"{"fsd/insignificant-slice":["src/entities/user"]}"#;
    let baseline = DiagnosticBaseline::from_text("/t/fsd-errors.json", text).unwrap();
    assert!(baseline.contains(&Diagnostic::new("fsd/insignificant-slice", "known", "/t/src/entities/user")));
    assert!(!baseline.contains(&Diagnostic::new("fsd/insignificant-slice", "new", "/t/src/entities/account")));
    assert!(DiagnosticBaseline::from_text("/t/fsd-errors.json", "not json").is_none());
    assert!(DiagnosticBaseline::from_text("/t/fsd-errors.json", r#"{"r": "x"}"#).is_none());
}
