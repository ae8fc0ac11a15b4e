use steiger::config::Config;
use steiger::diagnostic::Fix;
use steiger::fsd::Project;
use steiger::rules::structural::{
    ambiguous_slice_names, excessive_slicing, no_layer_public_api, no_reserved_folder_names,
    no_segmentless_slices, no_segments_on_sliced_layers, public_api, segments_by_purpose,
    shared_lib_grouping,
};

fn project(files: &[&str]) -> Project {
    let walked: Vec<String> = files.iter().map(|f| format!("/t/src/{f}")).collect();
    Project::scan("/t/src", &walked, &Config::recommended())
}

#[test]
fn missing_public_apis_are_reported_with_an_index_fix() {
    let p = project(&[
        "features/auth/ui/Form.tsx",
        "shared/ui/Button/Button.tsx",
        "shared/ui/Input/index.ts",
        "shared/api/client.ts",
    ]);
    let d = public_api(&p);
    let found: Vec<(&str, &str)> = d.iter().map(|d| (d.location.path.as_str(), d.message.as_str())).collect();
    assert_eq!(
        found,
        vec![
            ("/t/src/features/auth", "This slice is missing a public API."),
            ("/t/src/shared/api", "This segment is missing a public API."),
            ("/t/src/shared/ui/Button", "This top-level folder in shared/ui is missing a public API."),
        ]
    );
    assert_eq!(
        d[0].fixes,
        vec![Fix::CreateFile { path: "/t/src/features/auth/index.js".to_owned(), content: String::new() }]
    );
}

#[test]
fn layer_index_files_are_reported_except_in_app() {
    let p = project(&["shared/index.ts", "shared/ui/a.ts", "app/index.ts"]);
    let d = no_layer_public_api(&p);
    assert_eq!(d.len(), 1);
    assert_eq!(d[0].message, "Layer \"shared\" should not have an index file");
    assert_eq!(d[0].location.path, "/t/src/shared/index.ts");
}

#[test]
fn segment_names_should_describe_purpose() {
    let p = project(&["features/auth/utils/a.ts", "features/auth/ui/b.ts", "shared/helpers/c.ts"]);
    let d = segments_by_purpose(&p);
    let paths: Vec<&str> = d.iter().map(|d| d.location.path.as_str()).collect();
    assert_eq!(paths, vec!["/t/src/features/auth/utils", "/t/src/shared/helpers"]);
    assert_eq!(
        d[0].message,
        "This segment's name should describe the purpose of its contents, not what the contents are."
    );
}

#[test]
fn conventional_segments_directly_in_a_sliced_layer() {
    let p = project(&["features/ui/a.ts", "features/auth/ui/b.ts"]);
    let d = no_segments_on_sliced_layers(&p);
    assert_eq!(d.len(), 1);
    assert_eq!(d[0].location.path, "/t/src/features/ui");
    assert!(d[0].message.starts_with("Conventional segment \"ui\" should not be a direct child of a sliced layer."));
}

#[test]
fn reserved_names_inside_segments() {
    let p = project(&["shared/ui/button/lib/a.ts", "shared/ui/@x/b.ts"]);
    let d = no_reserved_folder_names(&p);
    let found: Vec<&str> = d.iter().map(|d| d.location.path.as_str()).collect();
    assert_eq!(found.len(), 2);
    assert!(found.contains(&"/t/src/shared/ui/button/lib"));
    assert!(found.contains(&"/t/src/shared/ui/@x"));
}

#[test]
fn slices_without_segments_are_reported() {
    let p = project(&["features/auth/Form.tsx", "features/cart/ui/Cart.tsx"]);
    let d = no_segmentless_slices(&p);
    assert_eq!(d.len(), 1);
    assert_eq!(d[0].location.path, "/t/src/features/auth");
    assert_eq!(d[0].message, "This slice has no segments. Consider dividing the code inside into segments.");
}

#[test]
fn many_ungrouped_slices_are_excessive() {
    let owned: Vec<String> = (0..21).map(|i| format!("entities/e{i}/ui/a.ts")).collect();
    let files: Vec<&str> = owned.iter().map(String::as_str).collect();
    let d = excessive_slicing(&project(&files));
    assert_eq!(d.len(), 1);
    assert_eq!(d[0].location.path, "/t/src/entities");
    assert!(d[0].message.starts_with("Layer \"entities\" has 21 ungrouped slices, which is above the recommended threshold of 20."));
    let fewer: Vec<&str> = files[..20].to_vec();
    assert!(excessive_slicing(&project(&fewer)).is_empty());
}

#[test]
fn a_large_shared_lib_should_be_grouped() {
    let owned: Vec<String> = (0..16).map(|i| format!("shared/lib/m{i}.ts")).collect();
    let files: Vec<&str> = owned.iter().map(String::as_str).collect();
    let d = shared_lib_grouping(&project(&files));
    assert_eq!(d.len(), 1);
    assert_eq!(
        d[0].message,
        "Shared/lib has 16 modules, which is above the recommended threshold of 15. Consider grouping them."
    );
    assert!(shared_lib_grouping(&project(&files[..15])).is_empty());
}

#[test]
fn slices_named_like_shared_segments_are_ambiguous() {
    let p = project(&["shared/ui/a.ts", "features/ui/model/a.ts", "features/auth/ui/b.ts"]);
    let d = ambiguous_slice_names(&p);
    assert_eq!(d.len(), 1);
    assert_eq!(d[0].message, "Slice \"ui\" could be confused with a segment from Shared with the same name");
    assert_eq!(d[0].location.path, "/t/src/features/ui");
}
