use steiger::config::Config;
use steiger::fsd::{is_ignored_watch_path, Project};

fn project(root: &str, files: &[&str]) -> Project {
    let walked: Vec<String> = files.iter().map(|f| format!("{root}/{f}")).collect();
    Project::scan(root, &walked, &Config::recommended())
}

#[test]
fn recognizes_prefixed_layers_and_grouped_slices() {
    let project = project(
        "/t/src",
        &["2_entities/catalog/product/ui/Card.tsx", "entities/ignored/ui/Card.tsx"],
    );
    let layers = project.layers();
    let entities = layers.iter().find(|(name, _)| name == "entities").unwrap().1.clone();
    assert_eq!(entities, "/t/src/2_entities");
    let slices = project.slices("entities", &entities);
    assert!(slices.iter().any(|(name, _)| name == "catalog/product"));
}

#[test]
fn indexes_neighboring_segment_folders_without_prefix_bleed() {
    let project = project(
        "/t/src",
        &["entities/product/ui/Card.tsx", "entities/product/ui-kit/theme.ts"],
    );
    let index = project.source_index();
    let location = |path: &str| index.iter().find(|(p, _)| p == path).unwrap().1.segment_name.clone();
    assert_eq!(location("/t/src/entities/product/ui/Card.tsx").as_deref(), Some("ui"));
    assert_eq!(location("/t/src/entities/product/ui-kit/theme.ts").as_deref(), Some("ui-kit"));
}

#[test]
fn walks_only_the_requested_directory_subtree() {
    let project = project(
        "/t/src",
        &["entities/product/ui/buttons/icons/Icon.tsx", "entities/product/ui-kit/theme.ts"],
    );
    let descendants = project.descendant_directories("/t/src/entities/product/ui");
    assert!(descendants.contains(&"/t/src/entities/product/ui".to_owned()));
    assert!(descendants.contains(&"/t/src/entities/product/ui/buttons/icons".to_owned()));
    assert!(!descendants.contains(&"/t/src/entities/product/ui-kit".to_owned()));
}

#[test]
fn scan_sorts_files_in_path_order() {
    let project = project("/t/src", &["shared/ui-kit/a.ts", "shared/ui/b.ts", "app/x.ts"]);
    assert_eq!(
        project.files,
        vec![
            "/t/src/app/x.ts".to_owned(),
            "/t/src/shared/ui/b.ts".to_owned(),
            "/t/src/shared/ui-kit/a.ts".to_owned(),
        ]
    );
}

#[test]
fn children_of_a_folder_are_its_folders_and_files() {
    let project = project("/t/src", &["shared/ui/Button.tsx", "shared/index.ts"]);
    let children = project.children("/t/src/shared");
    let paths: Vec<&str> = children.iter().map(|e| e.path.as_str()).collect();
    assert_eq!(paths, vec!["/t/src/shared/index.ts", "/t/src/shared/ui"]);
    assert_eq!(project.child_directories("/t/src"), vec!["/t/src/shared".to_owned()]);
}

#[test]
fn segments_and_public_api_indexes() {
    let project = project("/t/src", &["features/auth/ui/Form.tsx", "features/auth/index.ts"]);
    assert!(Project::is_sliced("features"));
    assert!(!Project::is_sliced("shared"));
    assert!(project.is_slice("/t/src/features/auth"));
    let segments = project.segments("/t/src/features/auth");
    assert_eq!(segments.len(), 1);
    assert_eq!(segments[0].0, "ui");
    assert_eq!(project.indexes("/t/src/features/auth"), vec!["/t/src/features/auth/index.ts".to_owned()]);
}

#[test]
fn watch_ignores_git_node_modules_and_target() {
    assert!(is_ignored_watch_path("/w/.git/index"));
    assert!(is_ignored_watch_path("/w/node_modules/x/index.js"));
    assert!(is_ignored_watch_path("/w/target/debug"));
    assert!(!is_ignored_watch_path("/w/src/targets/x.ts"));
}

#[test]
fn descendants_come_depth_first_with_the_last_child_first() {
    let project = project("/t/src", &["a/b/x.ts", "a/c/d/y.ts", "a/c/e/z.ts"]);
    assert_eq!(
        project.descendant_directories("/t/src/a"),
        vec![
            "/t/src/a".to_owned(),
            "/t/src/a/c".to_owned(),
            "/t/src/a/c/e".to_owned(),
            "/t/src/a/c/d".to_owned(),
            "/t/src/a/b".to_owned(),
        ]
    );
}

#[test]
fn a_slice_inside_a_slice_is_not_another_slice() {
    let project = project(
        "/t/src",
        &["entities/user/ui/User.tsx", "entities/user/lib/avatar/ui/Avatar.tsx", "entities/catalog/book/ui/Book.tsx"],
    );
    let slices = project.slices("entities", "/t/src/entities");
    let names: Vec<&str> = slices.iter().map(|(name, _)| name.as_str()).collect();
    assert_eq!(names, vec!["catalog/book", "user"]);
}

#[test]
fn folders_below_the_file_system_root_are_listed() {
    let project = Project::from_files("/".to_owned(), vec!["/a/b.ts".to_owned()]);
    let children = project.children("/");
    assert_eq!(children.len(), 1);
    assert_eq!(children[0].path, "/a");
    assert_eq!(children[0].kind, steiger::fsd::EntryKind::Folder);
    assert_eq!(project.children("/a")[0].path, "/a/b.ts");
}
