use steiger::fsd;
use steiger::path_utils;

#[test]
fn normalizes_windows_canonical_paths_for_shared_path_keys() {
    assert_eq!(
        path_utils::normalize_canonical_path(r"\\?\C:\repo\src"),
        r"C:\repo\src".to_owned()
    );
    assert_eq!(
        path_utils::normalize_canonical_path(r"\\?\UNC\server\share\src"),
        r"\\server\share\src".to_owned()
    );
}

#[test]
fn normalizes_windows_canonical_paths_for_resolver_keys() {
    assert_eq!(
        fsd::normalize_canonical_path(r"\\?\C:\repo\src"),
        r"C:\repo\src".to_owned()
    );
    assert_eq!(
        fsd::normalize_canonical_path(r"\\?\UNC\server\share\src"),
        r"\\server\share\src".to_owned()
    );
}
