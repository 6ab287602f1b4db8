use copytree::GlobPattern;
use copytree::SinglePattern;
use copytree::build_exclude_set;
use copytree::is_excluded;
use copytree::matches_any;

fn comps(parts: &[&str]) -> Vec<String> {
    parts.iter().map(|p| p.to_string()).collect()
}

#[test]
fn exclude_matches_relative_path() {
    let pattern = vec!["src/*".to_string()];
    let set = build_exclude_set(&pattern);
    assert!(is_excluded("/project/src/main.rs", &set, "/project"));
}

#[test]
fn exclude_matches_with_leading_dot() {
    let pattern = vec!["src/*".to_string()];
    let set = build_exclude_set(&pattern);
    assert!(is_excluded("./src/main.rs", &set, "/project"));
}

#[test]
fn exclude_matches_plain_relative_path() {
    let pattern = vec!["src/*".to_string()];
    let set = build_exclude_set(&pattern);
    assert!(is_excluded("src/main.rs", &set, "/project"));
}

#[test]
fn any_depth_matches_zero_components() {
    let pattern = GlobPattern::new("a/**/b");
    assert!(pattern.matches(&comps(&["a", "b"])));
}

#[test]
fn any_depth_matches_many_components() {
    let pattern = GlobPattern::new("a/**/b");
    assert!(pattern.matches(&comps(&["a", "x", "y", "b"])));
    assert!(!pattern.matches(&comps(&["a", "x", "y"])));
}

#[test]
fn target_pair_excludes_directory_and_contents() {
    let at_end = GlobPattern::new("**/target");
    let beneath = GlobPattern::new("**/target/**");
    assert!(at_end.matches(&comps(&["x", "target"])));
    assert!(beneath.matches(&comps(&["x", "target", "y"])));

    let patterns = vec![at_end, beneath];
    assert!(matches_any(&patterns, &comps(&["x", "target"])));
    assert!(matches_any(&patterns, &comps(&["x", "target", "y"])));
    assert!(matches_any(&patterns, &comps(&["target"])));
    assert!(matches_any(&patterns, &comps(&["a", "b", "target", "c", "d"])));
    assert!(!matches_any(&patterns, &comps(&["x", "targets"])));
}

#[test]
fn matching_is_deterministic() {
    let pattern = GlobPattern::new("src/*.rs");
    let path = comps(&["src", "lib.rs"]);
    let first = pattern.matches(&path);
    let second = pattern.matches(&path);
    assert_eq!(first, second);
    assert!(first);
}

#[test]
fn star_does_not_cross_component_boundary() {
    let pattern = GlobPattern::new("src/*");
    assert!(pattern.matches(&comps(&["src", "main.rs"])));
    assert!(!pattern.matches(&comps(&["src", "a", "b"])));
    assert!(!pattern.matches(&comps(&["src"])));
}

#[test]
fn question_mark_matches_one_character() {
    let single = SinglePattern::new("a?c");
    assert!(single.matches("abc"));
    assert!(single.matches("axc"));
    assert!(!single.matches("ac"));
    assert!(!single.matches("abbc"));
}

#[test]
fn star_matches_any_run_within_component() {
    let single = SinglePattern::new("*.rs");
    assert!(single.matches("lib.rs"));
    assert!(single.matches(".rs"));
    assert!(!single.matches("lib.rson"));
}

#[test]
fn whole_path_must_be_consumed() {
    let pattern = GlobPattern::new("a/b");
    assert!(pattern.matches(&comps(&["a", "b"])));
    assert!(!pattern.matches(&comps(&["a"])));
    assert!(!pattern.matches(&comps(&["a", "b", "c"])));
}

#[test]
fn empty_pattern_set_excludes_nothing() {
    let set = build_exclude_set(&Vec::new());
    assert!(!is_excluded("src/main.rs", &set, "/project"));
}

#[test]
fn matches_any_empty_pattern_slice_is_false() {
    let patterns: Vec<GlobPattern> = Vec::new();
    assert!(!matches_any(&patterns, &comps(&["a"])));
}

#[test]
fn trailing_any_depth_allows_prefix_match() {
    let pattern = GlobPattern::new("target/**");
    assert!(pattern.matches(&comps(&["target", "debug", "app"])));
    assert!(pattern.matches(&comps(&["target"])));
    assert!(!pattern.matches(&comps(&["src", "target"])));
}
