use copytree::Args;
use copytree::FileContent;
use copytree::FileSection;
use copytree::assemble_output;
use copytree::exceeds_size_limit;

#[test]
fn output_concatenates_tree_and_sections() {
    let sections = vec![
        FileSection {
            path: "src/lib.rs".to_string(),
            content: FileContent::Text("fn lib() {}".to_string()),
        },
        FileSection {
            path: "src/secret.rs".to_string(),
            content: FileContent::SkippedExcluded,
        },
    ];
    let text = assemble_output("tree", &sections);
    assert_eq!(
        text,
        "tree\n--- src/lib.rs ---\nfn lib() {}\n\n\
         --- src/secret.rs ---\n<skipped: excluded by pattern>\n\n"
    );
}

#[test]
fn output_size_notice_formats_both_numbers() {
    let sections = vec![FileSection {
        path: "big.bin".to_string(),
        content: FileContent::SkippedTooLarge { size: 20000, limit: 16384 },
    }];
    let text = assemble_output("t", &sections);
    assert_eq!(
        text,
        "t\n--- big.bin ---\n<skipped: file size 20000 bytes exceeds --max-file-bytes 16384>\n\n"
    );
}

#[test]
fn output_binary_notice() {
    let sections = vec![FileSection {
        path: "logo.png".to_string(),
        content: FileContent::SkippedBinary,
    }];
    let text = assemble_output("t", &sections);
    assert_eq!(text, "t\n--- logo.png ---\n<skipped: binary file>\n\n");
}

#[test]
fn output_with_no_sections_is_tree_and_blank_line() {
    let sections: Vec<FileSection> = Vec::new();
    assert_eq!(assemble_output(".\n└─ a\n", &sections), ".\n└─ a\n\n");
}

#[test]
fn size_limit_check_honors_disabled_limit() {
    assert!(!exceeds_size_limit(1000000, 0));
    assert!(exceeds_size_limit(16385, 16384));
    assert!(!exceeds_size_limit(16384, 16384));
}

#[test]
fn default_args_match_documented_defaults() {
    let args = Args::default();
    assert_eq!(args.paths, vec![".".to_string()]);
    assert!(args.exclude.is_empty());
    assert_eq!(args.max_file_bytes, 16384);
    assert!(!args.no_gitignore);
    assert!(!args.stdout);
    assert!(args.out.is_none());
}
