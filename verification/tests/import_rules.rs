use steiger::config::Config;
use steiger::diagnostic::Diagnostic;
use steiger::fsd::Project;
use steiger::imports::{source_paths, ImportGraph};
use steiger::rules::import_rules::{location_key, location_path, ImportAnalysis};
use steiger::rules::run_rule;

fn run(rule: &str, files: &[&str], imports: &[(&str, &str, &str)]) -> Vec<Diagnostic> {
    let root = "/r/src";
    let walked: Vec<String> = files.iter().map(|f| format!("{root}/{f}")).collect();
    let project = Project::scan(root, &walked, &Config::recommended());
    let index = project.source_index();
    let resolutions: Vec<(String, Vec<(String, Option<String>)>)> = source_paths(&index)
        .into_iter()
        .map(|path| {
            let records = imports
                .iter()
                .filter(|(from, _, _)| format!("{root}/{from}") == path)
                .map(|(_, specifier, to)| (specifier.to_string(), Some(format!("{root}/{to}"))))
                .collect();
            (path, records)
        })
        .collect();
    let graph = ImportGraph::build(&resolutions);
    let analysis = ImportAnalysis::new(&graph, &index);
    run_rule(rule, &project, &analysis, &Vec::new())
}

const SLICES: [&str; 6] = [
    "features/a/ui/A.ts",
    "features/a/index.ts",
    "features/b/ui/B.ts",
    "features/b/index.ts",
    "entities/c/ui/C.ts",
    "entities/c/index.ts",
];

#[test]
fn cross_imports_between_slices_are_forbidden() {
    let d = run("fsd/forbidden-imports", &SLICES, &[("features/a/ui/A.ts", "@/features/b", "features/b/index.ts")]);
    assert_eq!(d.len(), 1);
    assert_eq!(d[0].message, "Forbidden cross-import from slice \"b\".");
    assert_eq!(d[0].location.path, "/r/src/features/a/ui/A.ts");
    let n = run("fsd/no-cross-imports", &SLICES, &[("features/a/ui/A.ts", "@/features/b", "features/b/index.ts")]);
    assert_eq!(n.len(), 1);
}

#[test]
fn imports_from_higher_layers_are_forbidden() {
    let d = run("fsd/forbidden-imports", &SLICES, &[("entities/c/ui/C.ts", "@/features/a", "features/a/index.ts")]);
    assert_eq!(d.len(), 1);
    assert_eq!(d[0].message, "Forbidden import from higher layer \"features\".");
    let h = run("fsd/no-higher-level-imports", &SLICES, &[("entities/c/ui/C.ts", "@/features/a", "features/a/index.ts")]);
    assert_eq!(h.len(), 1);
    let down = run("fsd/forbidden-imports", &SLICES, &[("features/a/ui/A.ts", "@/entities/c", "entities/c/index.ts")]);
    assert!(down.is_empty());
}

#[test]
fn relative_imports_must_stay_inside_the_slice() {
    let d = run("fsd/import-locality", &SLICES, &[("features/a/ui/A.ts", "../../b", "features/b/index.ts")]);
    assert_eq!(d.len(), 1);
    assert_eq!(d[0].message, "Import from \"../../b\" should not be relative.");
    let inside = run("fsd/import-locality", &SLICES, &[("features/a/index.ts", "@/features/a/ui/A", "features/a/ui/A.ts")]);
    assert_eq!(inside.len(), 1);
    assert_eq!(inside[0].message, "Import from \"@/features/a/ui/A\" should be relative.");
}

#[test]
fn importing_a_segment_of_another_slice_sidesteps_its_public_api() {
    let d = run("fsd/no-public-api-sidestep", &SLICES, &[("features/a/ui/A.ts", "@/entities/c/ui/C", "entities/c/ui/C.ts")]);
    assert_eq!(d.len(), 1);
    assert_eq!(d[0].message, "Forbidden sidestep of public API when importing from \"@/entities/c/ui/C\".");
    let ok = run("fsd/no-public-api-sidestep", &SLICES, &[("features/a/ui/A.ts", "@/entities/c", "entities/c/index.ts")]);
    assert!(ok.is_empty());
}

#[test]
fn slices_without_references_are_insignificant() {
    let d = run("fsd/insignificant-slice", &SLICES, &[("features/a/ui/A.ts", "@/entities/c", "entities/c/index.ts")]);
    let messages: Vec<(&str, &str)> = d.iter().map(|d| (d.location.path.as_str(), d.message.as_str())).collect();
    assert_eq!(
        messages,
        vec![
            ("/r/src/entities/c", "This slice has only one reference in slice \"features/a\". Consider merging them."),
            ("/r/src/features/a", "This slice has no references. Consider removing it."),
            ("/r/src/features/b", "This slice has no references. Consider removing it."),
        ]
    );
}

#[test]
fn location_keys_name_layer_and_slice() {
    let project = Project::scan("/r/src", &vec!["/r/src/features/a/ui/A.ts".to_owned(), "/r/src/shared/ui/B.ts".to_owned()], &Config::recommended());
    let index = project.source_index();
    let a = &index.iter().find(|(p, _)| p == "/r/src/features/a/ui/A.ts").unwrap().1;
    let b = &index.iter().find(|(p, _)| p == "/r/src/shared/ui/B.ts").unwrap().1;
    assert_eq!(location_key(a), "features/a");
    assert_eq!(location_path(a), "/r/src/features/a");
    assert_eq!(location_key(b), "shared");
    assert_eq!(location_path(b), "/r/src/shared");
}

#[test]
fn an_unknown_rule_name_reports_nothing() {
    let d = run("fsd/not-a-rule", &SLICES, &[("features/a/ui/A.ts", "@/features/b", "features/b/index.ts")]);
    assert!(d.is_empty());
}
