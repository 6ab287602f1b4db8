use copytree::WalkError;
use copytree::display_name;
use copytree::make_relative_path;
use copytree::normalize_components;
use copytree::render_tree;

fn strings(parts: &[&str]) -> Vec<String> {
    parts.iter().map(|p| p.to_string()).collect()
}

#[test]
fn render_lists_files_sorted_with_connectors() {
    let files = strings(&["README.md", "src/lib.rs", "src/main.rs"]);
    let requested = strings(&["."]);
    let text = render_tree(&files, &requested, "/project");
    assert_eq!(
        text,
        ".\n├─ README.md\n└─ src\n   ├─ lib.rs\n   └─ main.rs\n"
    );
}

#[test]
fn render_is_idempotent() {
    let files = strings(&["README.md", "src/lib.rs", "src/main.rs"]);
    let requested = strings(&["."]);
    let first = render_tree(&files, &requested, "/project");
    let second = render_tree(&files, &requested, "/project");
    assert_eq!(first, second);
}

#[test]
fn render_anchors_at_common_prefix() {
    let files = strings(&["src/lib.rs", "src/main.rs"]);
    let requested = strings(&["src"]);
    let text = render_tree(&files, &requested, "/project");
    assert_eq!(text, "src\n├─ lib.rs\n└─ main.rs\n");
}

#[test]
fn render_empty_file_list_is_just_the_label() {
    let files: Vec<String> = Vec::new();
    let requested = strings(&["."]);
    let text = render_tree(&files, &requested, "/project");
    assert_eq!(text, ".\n");
}

#[test]
fn render_duplicate_files_once() {
    let once = render_tree(&strings(&["a/b"]), &strings(&["."]), "/p");
    let twice = render_tree(&strings(&["a/b", "a/b"]), &strings(&["."]), "/p");
    assert_eq!(once, twice);
    assert_eq!(once, ".\n└─ a\n   └─ b\n");
}

#[test]
fn render_uses_vertical_bar_for_non_last_branches() {
    let files = strings(&["a/x.txt", "a/y.txt", "b.txt"]);
    let text = render_tree(&files, &strings(&["."]), "/p");
    assert_eq!(text, ".\n├─ a\n│  ├─ x.txt\n│  └─ y.txt\n└─ b.txt\n");
}

#[test]
fn render_strips_absolute_paths_under_current_directory() {
    let files = strings(&["/project/src/lib.rs"]);
    let text = render_tree(&files, &strings(&["."]), "/project");
    assert_eq!(text, ".\n└─ src\n   └─ lib.rs\n");
}

#[test]
fn relative_path_strips_current_directory_prefix() {
    assert_eq!(
        make_relative_path("/project/src/main.rs", "/project"),
        strings(&["src", "main.rs"])
    );
    assert_eq!(
        make_relative_path("./src/main.rs", "/project"),
        strings(&["src", "main.rs"])
    );
    assert_eq!(
        make_relative_path("src/main.rs", "/project"),
        strings(&["src", "main.rs"])
    );
}

#[test]
fn relative_path_keeps_foreign_absolute_paths() {
    assert_eq!(
        make_relative_path("/other/file.txt", "/project"),
        strings(&["other", "file.txt"])
    );
}

#[test]
fn normalization_drops_empty_and_dot_segments() {
    assert_eq!(normalize_components("a//b/./c/"), strings(&["a", "b", "c"]));
    assert_eq!(normalize_components("."), Vec::<String>::new());
    assert_eq!(normalize_components("./"), Vec::<String>::new());
}

#[test]
fn display_name_is_final_component_or_full_path() {
    assert_eq!(display_name(&strings(&["src", "lib.rs"])), "lib.rs");
    assert_eq!(display_name(&strings(&["src", ""])), "src/");
    assert_eq!(display_name(&Vec::new()), "");
}

#[test]
fn walk_error_messages() {
    let io = WalkError::Io("permission denied".to_string());
    assert_eq!(io.message(), "permission denied");
    let missing = WalkError::RootNotFound("does/not/exist".to_string());
    assert_eq!(missing.message(), "root path not found: does/not/exist");
}
