use enforcer::search::{
    file_selected, is_ignored, normalize_ending, path_components_matches,
};

#[test]
fn test_path_component_matches_with_globs() {
    assert!(path_components_matches("**/a?c/**", "./test/abc/me.cpp"));
}

#[test]
fn test_path_component_matches_multiple_path_elements() {
    assert!(path_components_matches("**/test/abc/**", "./test/abc/me.cpp"));
}

#[test]
fn test_path_component_matches_full_match() {
    assert!(path_components_matches("**/a?c/**", "./test/abc/me.cpp"));
}

#[test]
fn test_path_component_matches_partial_match() {
    assert!(!path_components_matches("**/a?c/**", "./test/aabcd/me.cpp"));
}

#[test]
fn test_path_component_matches_at_begining() {
    assert!(path_components_matches("**/a*/**", "./test/abc/me.cpp"));
}

#[test]
fn test_path_component_matches_at_end() {
    assert!(path_components_matches("**/*bc/**", "./test/abc/me.cpp"));
}

#[test]
fn test_pattern_matches_path_segment() {
    assert!(path_components_matches("build_*", "build_Debug"));
    assert!(!path_components_matches("build_*", "src/build_Debug"));
}

#[test]
fn test_recursive_pattern_matches_at_any_depth() {
    assert!(path_components_matches("**/.git", ".git"));
    assert!(path_components_matches("**/.git", "a/b/.git"));
    assert!(!path_components_matches("**/.git", "a/b/.gitignore"));
}

#[test]
fn test_invalid_pattern_matches_nothing() {
    assert!(!path_components_matches("a[", "a["));
}

#[test]
fn test_is_ignored_any_pattern() {
    let ignores = vec!["**/.git".to_string(), "**/build_*/**".to_string()];
    assert!(is_ignored(&ignores, "./proj/.git"));
    assert!(is_ignored(&ignores, "proj/build_Debug/obj/x.o"));
    assert!(!is_ignored(&ignores, "proj/src/x.cpp"));
}

#[test]
fn test_normalize_ending_strips_legacy_decoration() {
    assert_eq!(normalize_ending("**/*.cpp"), ".cpp");
    assert_eq!(normalize_ending(".h"), ".h");
}

#[test]
fn test_file_selected_by_suffix() {
    let endings = vec!["**/*.cpp".to_string(), ".h".to_string()];
    assert!(file_selected("main.cpp", &endings));
    assert!(file_selected("util.h", &endings));
    assert!(!file_selected("README.md", &endings));
}
