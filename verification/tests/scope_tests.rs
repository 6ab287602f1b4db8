use copytree::determine_root_scope;

#[test]
fn root_scope_returns_dot_for_current_directory() {
    let paths = vec![".".to_string()];
    let (label, root_path) = determine_root_scope(&paths, "/project");
    assert_eq!(label, ".");
    assert!(root_path.is_none());
}

#[test]
fn root_scope_tracks_single_relative_path() {
    let paths = vec!["src".to_string()];
    let (label, root_path) = determine_root_scope(&paths, "/project");
    assert_eq!(label, "src");
    assert_eq!(root_path, Some(vec!["src".to_string()]));
}

#[test]
fn root_scope_uses_common_prefix_for_nested_paths() {
    let paths = vec!["src".to_string(), "src/output.rs".to_string()];
    let (label, root_path) = determine_root_scope(&paths, "/project");
    assert_eq!(label, "src");
    assert_eq!(root_path, Some(vec!["src".to_string()]));
}

#[test]
fn root_scope_falls_back_to_dot_when_no_common_prefix() {
    let paths = vec!["src".to_string(), "docs".to_string()];
    let (label, root_path) = determine_root_scope(&paths, "/project");
    assert_eq!(label, ".");
    assert!(root_path.is_none());
}

#[test]
fn root_scope_empty_request_list_is_dot() {
    let paths: Vec<String> = Vec::new();
    let (label, root_path) = determine_root_scope(&paths, "/project");
    assert_eq!(label, ".");
    assert!(root_path.is_none());
}

#[test]
fn root_scope_blank_entries_are_dropped() {
    let paths = vec!["  ".to_string(), "src".to_string()];
    let (label, root_path) = determine_root_scope(&paths, "/project");
    assert_eq!(label, "src");
    assert_eq!(root_path, Some(vec!["src".to_string()]));
}

#[test]
fn root_scope_same_for_any_current_directory() {
    let paths = vec!["src".to_string(), "src/output.rs".to_string()];
    let first = determine_root_scope(&paths, "/project");
    let second = determine_root_scope(&paths, "/somewhere/else");
    assert_eq!(first, second);
    assert_eq!(first.0, "src");
}

#[test]
fn root_scope_joins_nested_common_prefix() {
    let paths = vec!["a/b/c".to_string(), "a/b/d".to_string()];
    let (label, root_path) = determine_root_scope(&paths, "/project");
    assert_eq!(label, "a/b");
    assert_eq!(root_path, Some(vec!["a".to_string(), "b".to_string()]));
}
