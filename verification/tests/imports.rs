use steiger::imports::{
    dependency_fragments, extract_astro_frontmatter, extract_script_tags, importer_directory,
    is_component, is_source_path, merge_dependencies, ImportGraph,
};

#[test]
fn fragments_are_merged_dynamic_imports_first() {
    let found = vec![(vec!["./z".to_owned()], vec!["./x".to_owned(), "./y".to_owned()])];
    assert_eq!(merge_dependencies(&found), vec!["./z".to_owned(), "./x".to_owned(), "./y".to_owned()]);
}

#[test]
fn vue_script_is_the_parsed_fragment() {
    let source = "<template/><script setup lang=\"ts\">import x from './x'</script>";
    assert_eq!(dependency_fragments("Card.vue", source), vec!["import x from './x'".to_owned()]);
    assert!(is_component("Card.vue"));
}

#[test]
fn script_tags_are_extracted_in_order() {
    let source = "<script>a</script><p/><script lang=\"ts\">b</script><script>c";
    assert_eq!(extract_script_tags(source), vec!["a".to_owned(), "b".to_owned()]);
}

#[test]
fn astro_frontmatter_is_extracted() {
    let source = "\u{feff}\n---\r\nimport A from './A'\n---\n<A/>";
    assert_eq!(extract_astro_frontmatter(source), vec!["import A from './A'".to_owned()]);
    assert!(extract_astro_frontmatter("<div/>").is_empty());
    assert!(extract_astro_frontmatter("---\nunterminated").is_empty());
}

#[test]
fn plain_sources_are_parsed_whole() {
    assert_eq!(dependency_fragments("a.ts", "import a from 'b'"), vec!["import a from 'b'".to_owned()]);
    assert!(!is_component("a.ts"));
}

#[test]
fn source_paths_are_recognised_by_extension() {
    assert!(is_source_path("/p/a.tsx"));
    assert!(is_source_path("/p/a.svelte"));
    assert!(!is_source_path("/p/a.png"));
    assert!(!is_source_path("/p/.ts"));
    assert!(!is_source_path("/p/README"));
}

#[test]
fn does_not_resolve_non_source_dependencies_into_the_fsd_graph() {
    let source = "/t/src/widgets/banner/ui/Banner.tsx".to_owned();
    let resolutions = vec![(
        source.clone(),
        vec![(
            "../../../shared/assets/background.png".to_owned(),
            Some("/t/src/shared/assets/background.png".to_owned()),
        )],
    )];
    let graph = ImportGraph::build(&resolutions);
    let records = &graph.imports.iter().find(|(path, _)| *path == source).unwrap().1;
    assert_eq!(records.len(), 1);
    assert_eq!(records[0].resolved, None);
}

#[test]
fn graph_keeps_source_targets_and_orders_importers() {
    let resolutions = vec![
        ("/t/b.ts".to_owned(), vec![("./a".to_owned(), Some("/t/a.ts".to_owned()))]),
        ("/t/a.ts".to_owned(), vec![("x".to_owned(), None)]),
    ];
    let graph = ImportGraph::build(&resolutions);
    assert_eq!(graph.imports[0].0, "/t/a.ts");
    assert_eq!(graph.imports[1].1[0].resolved.as_deref(), Some("/t/a.ts"));
    assert_eq!(importer_directory("/t/b.ts", "/t"), "/t");
    assert_eq!(importer_directory("", "/root"), "/root");
}
