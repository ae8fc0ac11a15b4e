use steiger::config::{
    config_candidates, Config, ConfigDocument, ConfigErrorKind, RawRuleGroup,
};
use steiger::diagnostic::Severity;

fn group(files: &[&str], ignores: &[&str], rules: &[(&str, Severity)]) -> RawRuleGroup {
    RawRuleGroup {
        files: if files.is_empty() { None } else { Some(files.iter().map(|f| f.to_string()).collect()) },
        ignores: ignores.iter().map(|f| f.to_string()).collect(),
        rules: rules.iter().map(|(r, s)| (r.to_string(), *s)).collect(),
    }
}

#[test]
fn flat_config_overrides_recommended_severity() {
    let document = ConfigDocument::Flat(vec![
        group(&["./src/shared/**"], &[], &[("fsd/public-api", Severity::Off)]),
        group(&["./src/shared/ui/**"], &[], &[("fsd/public-api", Severity::Warn)]),
    ]);
    let config = Config::from_document("/t/steiger.json", document).unwrap();
    assert_eq!(config.severity_for_file("fsd/public-api", "/t/src/shared/api/a.ts"), Severity::Off);
    assert_eq!(config.severity_for_file("fsd/public-api", "/t/src/shared/ui/a.ts"), Severity::Warn);
}

#[test]
fn loads_structured_toml_and_global_ignores() {
    let document = ConfigDocument::Structured {
        global_ignores: vec!["**/generated/**".to_owned()],
        rules: vec![("fsd/no-processes".to_owned(), Severity::Warn)],
        overrides: vec![group(&["./src/shared/**"], &[], &[("fsd/public-api", Severity::Off)])],
    };
    let config = Config::from_document("/t/steiger.toml", document).unwrap();
    assert!(config.is_global_ignored("/t/src/generated/code.ts"));
    assert_eq!(config.severity_for_file("fsd/no-processes", "/t/src/processes/auth.ts"), Severity::Warn);
    assert_eq!(config.severity_for_file("fsd/public-api", "/t/src/shared/api/client.ts"), Severity::Off);
}

#[test]
fn folder_severity_uses_descendants_not_textual_prefix_siblings() {
    let document = ConfigDocument::Structured {
        global_ignores: Vec::new(),
        rules: vec![("fsd/public-api".to_owned(), Severity::Off)],
        overrides: vec![group(&["./src/entities/product/ui/**"], &[], &[("fsd/public-api", Severity::Warn)])],
    };
    let config = Config::from_document("/t/steiger.json", document).unwrap();
    let mut files = vec![
        "/t/src/entities/product/ui/Card.tsx".to_owned(),
        "/t/src/entities/product/ui-kit/theme.ts".to_owned(),
    ];
    files.sort();
    assert_eq!(
        config.severity_for_location("fsd/public-api", "/t/src/entities/product/ui", &files, false),
        Severity::Warn
    );
}

#[test]
fn recommended_rules_are_errors_and_others_off() {
    let config = Config::recommended();
    assert_eq!(config.severity_for_file("fsd/public-api", "/x/a.ts"), Severity::Error);
    assert_eq!(config.severity_for_file("fsd/no-cross-imports", "/x/a.ts"), Severity::Off);
    assert!(!config.is_global_ignored("/x/a.ts"));
}

#[test]
fn negated_ignores_bring_files_back() {
    let document = ConfigDocument::Flat(vec![group(&[], &["**/mocks/**", "!**/mocks/keep.ts"], &[])]);
    let config = Config::from_document("/t/steiger.json", document).unwrap();
    assert!(config.is_global_ignored("/t/src/mocks/a.ts"));
    assert!(!config.is_global_ignored("/t/src/mocks/keep.ts"));
    assert!(!config.is_global_ignored("/t/src/real/a.ts"));
}

#[test]
fn group_ignores_exclude_files_from_the_group() {
    let document = ConfigDocument::Structured {
        global_ignores: Vec::new(),
        rules: Vec::new(),
        overrides: vec![group(
            &["./src/widgets/**"],
            &["**/offers/**"],
            &[("fsd/no-segmentless-slices", Severity::Off)],
        )],
    };
    let config = Config::from_document("/t/steiger.toml", document).unwrap();
    assert_eq!(config.severity_for_file("fsd/no-segmentless-slices", "/t/src/widgets/a/x.ts"), Severity::Off);
    assert_eq!(
        config.severity_for_file("fsd/no-segmentless-slices", "/t/src/widgets/offers/x.ts"),
        Severity::Error
    );
}

#[test]
fn unknown_rule_names_are_refused() {
    let document = ConfigDocument::Flat(vec![group(&["./src/**"], &[], &[("fsd/not-a-rule", Severity::Warn)])]);
    let error = Config::from_document("/t/steiger.json", document).unwrap_err();
    assert_eq!(error.kind, ConfigErrorKind::UnknownRule);
    assert_eq!(error.subject, "fsd/not-a-rule");
}

#[test]
fn invalid_globs_are_refused() {
    let document = ConfigDocument::Flat(vec![group(&["./src/{a"], &[], &[("fsd/public-api", Severity::Off)])]);
    let error = Config::from_document("/t/steiger.json", document).unwrap_err();
    assert_eq!(error.kind, ConfigErrorKind::InvalidGlob);
    assert_eq!(error.subject, "./src/{a");
}

#[test]
fn configuration_is_looked_for_upwards() {
    let candidates = config_candidates("/a/b");
    assert_eq!(candidates.len(), 18);
    assert_eq!(candidates[0], "/a/b/steiger.toml");
    assert_eq!(candidates[5], "/a/b/steiger.config.json");
    assert_eq!(candidates[6], "/a/steiger.toml");
    assert_eq!(candidates[12], "/steiger.toml");
}

#[test]
fn folder_severity_is_the_highest_below_it() {
    let document = ConfigDocument::Structured {
        global_ignores: Vec::new(),
        rules: vec![("fsd/public-api".to_owned(), Severity::Warn)],
        overrides: vec![group(&["./src/a/x/**"], &[], &[("fsd/public-api", Severity::Error)])],
    };
    let config = Config::from_document("/t/steiger.json", document).unwrap();
    let files = vec!["/t/src/a/x/one.ts".to_owned(), "/t/src/a/y/two.ts".to_owned()];
    assert_eq!(config.severity_for_location("fsd/public-api", "/t/src/a", &files, false), Severity::Error);
    assert_eq!(config.severity_for_location("fsd/public-api", "/t/src/a/y", &files, false), Severity::Warn);
    assert_eq!(config.severity_for_location("fsd/public-api", "/t/src/a/y/two.ts", &files, false), Severity::Warn);
}
