use copytree::join_parts;
use copytree::path_eq;
use copytree::split_components;

fn strings(parts: &[&str]) -> Vec<String> {
    parts.iter().map(|p| p.to_string()).collect()
}

#[test]
fn split_drops_empty_segments() {
    assert_eq!(split_components("a/b/c"), strings(&["a", "b", "c"]));
    assert_eq!(split_components("/a//b/"), strings(&["a", "b"]));
    assert_eq!(split_components(""), Vec::<String>::new());
    assert_eq!(split_components("///"), Vec::<String>::new());
    assert_eq!(split_components("./x"), strings(&[".", "x"]));
}

#[test]
fn join_puts_separator_between_parts() {
    assert_eq!(join_parts(&strings(&["a", "b", "c"]), "/"), "a/b/c");
    assert_eq!(join_parts(&strings(&["a"]), "/"), "a");
    assert_eq!(join_parts(&Vec::new(), "/"), "");
}

#[test]
fn path_eq_compares_component_views() {
    assert!(path_eq(&strings(&["a", "b"]), &strings(&["a", "b"])));
    assert!(!path_eq(&strings(&["a", "b"]), &strings(&["a", "c"])));
    assert!(!path_eq(&strings(&["a"]), &strings(&["a", "b"])));
}
