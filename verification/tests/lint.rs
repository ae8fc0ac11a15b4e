use steiger::config::{Config, ConfigDocument, RawRuleGroup};
use steiger::diagnostic::{Diagnostic, Severity};
use steiger::engine::{apply_severities, collect_diagnostics};
use steiger::fsd::Project;
use steiger::imports::{source_paths, ImportGraph};

type Imports<'a> = &'a [(&'a str, &'a [(&'a str, Option<&'a str>)])];

/// Lints the project whose files, relative to `root`, are `files`, where each
/// file of `imports` imports the given specifiers, resolved as given.
fn lint_files(root: &str, files: &[&str], imports: Imports, config: &Config) -> Vec<Diagnostic> {
    let walked: Vec<String> = files.iter().map(|f| format!("{root}/{f}")).collect();
    let project = Project::scan(root, &walked, config);
    let index = project.source_index();
    let sources = source_paths(&index);
    let resolutions: Vec<(String, Vec<(String, Option<String>)>)> = sources
        .iter()
        .map(|path| {
            let records = imports
                .iter()
                .find(|(file, _)| format!("{root}/{file}") == *path)
                .map(|(_, records)| {
                    records
                        .iter()
                        .map(|(specifier, target)| {
                            (specifier.to_string(), target.map(|t| format!("{root}/{t}")))
                        })
                        .collect()
                })
                .unwrap_or_default();
            (path.clone(), records)
        })
        .collect();
    let graph = ImportGraph::build(&resolutions);
    let raw = collect_diagnostics(&project, &graph, config);
    let is_file: Vec<bool> = raw.iter().map(|d| walked.contains(&d.location.path)).collect();
    apply_severities(config, raw, &project.files, &is_file)
}

fn flat_config(path: &str, files: &str, rule: &str, severity: Severity) -> Config {
    let document = ConfigDocument::Flat(vec![RawRuleGroup {
        files: Some(vec![files.to_owned()]),
        ignores: Vec::new(),
        rules: vec![(rule.to_owned(), severity)],
    }]);
    Config::from_document(path, document).unwrap()
}

fn count(diagnostics: &[Diagnostic], rule: &str) -> usize {
    diagnostics.iter().filter(|d| d.rule_name == rule).count()
}

#[test]
fn an_ignored_import_target_is_removed_from_rule_analysis() {
    let files = ["features/search/ui/search.ts", "features/search/index.ts", "app/index.ts"];
    let imports: Imports = &[("features/search/ui/search.ts", &[("@/app/index", Some("app/index.ts"))])];
    let default_result = lint_files("/w/src", &files, imports, &Config::recommended());
    assert_eq!(count(&default_result, "fsd/forbidden-imports"), 1);

    let config = flat_config("/w/steiger.json", "./src/app/**", "fsd/forbidden-imports", Severity::Off);
    let scoped_result = lint_files("/w/src", &files, imports, &config);
    assert!(scoped_result.iter().all(|d| d.rule_name != "fsd/forbidden-imports"));
}

#[test]
fn scoped_off_files_do_not_contribute_to_structural_counts() {
    let mut owned = Vec::new();
    for index in 0..21 {
        owned.push(format!("features/slice-{index}/ui/view.ts"));
        owned.push(format!("features/slice-{index}/index.ts"));
    }
    let files: Vec<&str> = owned.iter().map(String::as_str).collect();
    let default_result = lint_files("/w/src", &files, &[], &Config::recommended());
    assert_eq!(count(&default_result, "fsd/excessive-slicing"), 1);

    let config = flat_config(
        "/w/steiger.json",
        "./src/features/slice-20/**",
        "fsd/excessive-slicing",
        Severity::Off,
    );
    let scoped_result = lint_files("/w/src", &files, &[], &config);
    assert!(scoped_result.iter().all(|d| d.rule_name != "fsd/excessive-slicing"));
}

#[test]
fn matches_the_upstream_kitchen_sink_diagnostics() {
    let files = [
        "entities/user/api/getUser.ts",
        "entities/user/ui/UserInfo.tsx",
        "entities/user/ui/api/method.ts",
        "entities/user/index.ts",
        "entities/users/api/getUsers.ts",
        "entities/users/ui/UserTable.tsx",
        "entities/users/index.ts",
        "app/ui/App.tsx",
        "app/ui/index.ts",
        "processes/auth/index.ts",
    ];
    let imports: Imports = &[("entities/user/api/getUser.ts", &[("@/app/ui/App", Some("app/ui/App.tsx"))])];
    let result = lint_files("/w/src", &files, imports, &Config::recommended());

    assert_eq!(result.len(), 8);
    assert_eq!(count(&result, "fsd/forbidden-imports"), 1);
    assert_eq!(count(&result, "fsd/inconsistent-naming"), 1);
    assert_eq!(count(&result, "fsd/insignificant-slice"), 2);
    assert_eq!(count(&result, "fsd/no-processes"), 1);
    assert_eq!(count(&result, "fsd/no-public-api-sidestep"), 1);
    assert_eq!(count(&result, "fsd/no-reserved-folder-names"), 1);
    assert_eq!(count(&result, "fsd/no-ui-in-app"), 1);
    assert_eq!(
        result.iter().map(|d| d.rule_name.as_str()).collect::<Vec<_>>(),
        vec![
            "fsd/forbidden-imports",
            "fsd/inconsistent-naming",
            "fsd/insignificant-slice",
            "fsd/insignificant-slice",
            "fsd/no-public-api-sidestep",
            "fsd/no-reserved-folder-names",
            "fsd/no-ui-in-app",
            "fsd/no-processes",
        ]
    );
}

#[test]
fn a_diagnostic_takes_the_severity_configured_for_its_location() {
    let files = ["processes/auth/index.ts"];
    let document = ConfigDocument::Structured {
        global_ignores: Vec::new(),
        rules: vec![("fsd/no-processes".to_owned(), Severity::Warn)],
        overrides: Vec::new(),
    };
    let config = Config::from_document("/w/steiger.toml", document).unwrap();
    let result = lint_files("/w/src", &files, &[], &config);
    let processes: Vec<&Diagnostic> = result.iter().filter(|d| d.rule_name == "fsd/no-processes").collect();
    assert_eq!(processes.len(), 1);
    assert_eq!(processes[0].severity, Severity::Warn);
    assert_eq!(processes[0].location.path, "/w/src/processes");
}

#[test]
fn split_import_rules_are_off_in_the_recommended_preset() {
    let files = ["features/a/ui/A.ts", "features/a/index.ts", "features/b/ui/B.ts", "features/b/index.ts"];
    let imports: Imports = &[("features/a/ui/A.ts", &[("../../b/index", Some("features/b/index.ts"))])];
    let result = lint_files("/w/src", &files, imports, &Config::recommended());
    assert_eq!(count(&result, "fsd/forbidden-imports"), 1);
    assert_eq!(count(&result, "fsd/no-cross-imports"), 0);
    assert_eq!(count(&result, "fsd/import-locality"), 0);
}

#[test]
fn globally_ignored_files_are_not_linted() {
    let files = ["processes/auth/index.ts"];
    let document = ConfigDocument::Structured {
        global_ignores: vec!["**/processes/**".to_owned()],
        rules: Vec::new(),
        overrides: Vec::new(),
    };
    let config = Config::from_document("/w/steiger.toml", document).unwrap();
    let result = lint_files("/w/src", &files, &[], &config);
    assert!(result.is_empty());
}
