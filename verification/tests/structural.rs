use steiger::config::Config;
use steiger::fsd::Project;
use steiger::diagnostic::Fix;
use steiger::rules::structural::{
    form_lookup, inconsistent_naming, inconsistent_naming_with, naming_candidates, no_processes,
    no_ui_in_app, plural_forms, repetitive_naming, run_rule, typo_in_layer_name,
};

fn project(root: &str, files: &[&str]) -> Project {
    let walked: Vec<String> = files.iter().map(|f| format!("{root}/{f}")).collect();
    Project::scan(root, &walked, &Config::recommended())
}

#[test]
fn root_level_inconsistent_naming_location_has_no_trailing_separator() {
    let project = project("/t/src", &["entities/user/ui/User.tsx", "entities/accounts/ui/Account.tsx"]);
    let diagnostics = inconsistent_naming(&project);
    assert_eq!(diagnostics.len(), 1);
    assert_eq!(diagnostics[0].location.path, "/t/src/entities");
}

#[test]
fn typo_in_layer_name_suggests_the_nearest_layer() {
    let project = project("/t/src", &["entites/user/ui/User.tsx", "shared/ui/Button.tsx"]);
    let diagnostics = typo_in_layer_name(&project);
    assert_eq!(diagnostics.len(), 1);
    assert_eq!(
        diagnostics[0].message,
        "Layer \"entites\" potentially contains a typo. Did you mean \"entities\"?"
    );
    assert_eq!(diagnostics[0].location.path, "/t/src/entites");
}

#[test]
fn an_exact_layer_name_claims_its_layer() {
    let project = project("/t/src", &["pages/home/ui/Home.tsx", "pagess/x.ts"]);
    let diagnostics = typo_in_layer_name(&project);
    assert!(diagnostics.is_empty());
}

#[test]
fn processes_layer_is_reported() {
    let project = project("/t/src", &["processes/auth/index.ts"]);
    let diagnostics = no_processes(&project);
    assert_eq!(diagnostics.len(), 1);
    assert_eq!(diagnostics[0].message, "Layer \"processes\" is deprecated, avoid using it");
    assert_eq!(diagnostics[0].location.path, "/t/src/processes");
    assert_eq!(diagnostics[0].rule_name, "fsd/no-processes");
}

#[test]
fn ui_segment_in_app_is_reported() {
    let project = project("/t/src", &["app/ui/App.tsx"]);
    let diagnostics = no_ui_in_app(&project);
    assert_eq!(diagnostics.len(), 1);
    assert_eq!(diagnostics[0].message, "Layer \"app\" should not have \"ui\" segment.");
}

#[test]
fn unknown_structural_rule_reports_nothing() {
    let project = project("/t/src", &["processes/auth/index.ts"]);
    assert!(run_rule("fsd/not-a-rule", &project, &Vec::new()).is_empty());
    assert_eq!(run_rule("fsd/no-processes", &project, &Vec::new()).len(), 1);
}

#[test]
fn a_word_in_every_slice_name_is_repetitive() {
    let project = project(
        "/t/src",
        &[
            "entities/userProfile/ui/A.tsx",
            "entities/userSettings/ui/B.tsx",
            "entities/userAvatar/ui/C.tsx",
        ],
    );
    let diagnostics = repetitive_naming(&project);
    assert_eq!(diagnostics.len(), 1);
    assert_eq!(diagnostics[0].message, "Repetitive word \"user\" in slice names.");
    assert_eq!(diagnostics[0].location.path, "/t/src/entities/");
}

fn forms(entries: &[(&str, &str, &str)]) -> Vec<(String, String, String)> {
    entries.iter().map(|(n, p, s)| (n.to_string(), p.to_string(), s.to_string())).collect()
}

#[test]
fn naming_uses_the_forms_it_is_given() {
    let project = project("/t/src", &["entities/user/ui/User.tsx", "entities/accounts/ui/Account.tsx"]);
    let given = forms(&[
        ("user", "users", "user"),
        ("accounts", "accounts", "account"),
    ]);
    let diagnostics = inconsistent_naming_with(&project, &given);
    assert_eq!(diagnostics.len(), 1);
    assert_eq!(diagnostics[0].message, "Inconsistent pluralization of slice names. Prefer all plural names");
    assert_eq!(
        diagnostics[0].fixes,
        vec![Fix::Rename { path: "/t/src/entities/user".to_owned(), new_name: "users".to_owned() }]
    );
    let all_plural = forms(&[("user", "user", "user"), ("accounts", "accounts", "account")]);
    assert!(inconsistent_naming_with(&project, &all_plural).is_empty());
}

#[test]
fn form_lookup_takes_the_last_entry_and_keeps_unlisted_names() {
    let given = forms(&[("box", "boxs", "box"), ("box", "boxes", "box")]);
    assert_eq!(form_lookup(&given, "box", 2), "boxes");
    assert_eq!(form_lookup(&given, "box", 1), "box");
    assert_eq!(form_lookup(&given, "fox", 2), "fox");
}

#[test]
fn candidates_are_the_entity_folder_names_with_their_forms() {
    let project = project("/t/src", &["entities/user/ui/User.tsx", "shared/ui/Button.tsx"]);
    let names = naming_candidates(&project);
    assert_eq!(names, vec!["entities".to_owned(), "user".to_owned(), "ui".to_owned()]);
    let given = plural_forms(&names);
    assert_eq!(given.len(), 3);
    assert_eq!(given[1].0, "user");
    assert_eq!(given[1].1, "users");
    assert_eq!(given[1].2, "user");
}
