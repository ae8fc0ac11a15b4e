use steiger::rules::{all_rules, is_import_rule, recommended_rules};

#[test]
fn twenty_rules_seventeen_recommended() {
    let all = all_rules();
    let recommended = recommended_rules();
    assert_eq!(all.len(), 20);
    assert_eq!(recommended.len(), 17);
    assert!(recommended.iter().all(|r| all.contains(r)));
    assert!(!recommended.contains(&"fsd/no-cross-imports"));
    assert!(!recommended.contains(&"fsd/no-higher-level-imports"));
    assert!(!recommended.contains(&"fsd/import-locality"));
}

#[test]
fn import_rules_are_the_graph_rules() {
    assert!(is_import_rule("fsd/forbidden-imports"));
    assert!(is_import_rule("fsd/insignificant-slice"));
    assert!(!is_import_rule("fsd/public-api"));
}
