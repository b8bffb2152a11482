use quagga::tree::file_paths_to_tree;

#[test]
fn test_file_paths_to_tree() {
    let paths = vec![
        "/dir1/dir2/Cargo.toml".to_string(),
        "/dir1/dir2/CONTRIBUTING.md".to_string(),
        "/dir1/dir2/src/file_reader.rs".to_string(),
        "/dir1/dir2/TODO.md".to_string(),
        "/dir1/dir2/README.md".to_string(),
        "/dir1/dir2/docs/development.md".to_string(),
        "/dir1/dir2/src/binary_detector.rs".to_string(),
        "/dir1/dir2/src/cli.rs".to_string(),
        "/dir1/dir2/src/show_paths.rs".to_string(),
        "/dir1/dir2/src/file_walker.rs".to_string(),
        "/dir1/dir2/src/lib.rs".to_string(),
        "/dir1/dir2/tests/integration_test.rs".to_string(),
        "/dir1/dir2/src/main.rs".to_string(),
        "/dir1/dir2/src/processor.rs".to_string(),
        "/dir1/dir2/src/template/template.rs".to_string(),
        "/dir1/dir2/src/template/tags/mod.rs".to_string(),
        "/dir1/dir2/src/quagga_ignore.rs".to_string(),
        "/dir1/dir2/src/template/concatenate.rs".to_string(),
        "/dir1/dir2/src/template/mod.rs".to_string(),
        "/dir1/dir2/src/template/validator.rs".to_string(),
        "/dir1/dir2/src/template/tags/all_file_paths.rs".to_string(),
        "/dir1/dir2/src/test_utils/mod.rs".to_string(),
        "/dir1/dir2/LICENSE".to_string(),
        "/dir1/dir2/src/test_utils/temp_dir.rs".to_string(),
        "/dir1/dir2/src/walk_overrides.rs".to_string(),
        "/dir1/dir2/templates/default.txt".to_string(),
    ];

    let root = "/dir1/dir2".to_string();

    let result = file_paths_to_tree(paths, Some(root));

    let expected = r#"/dir1/dir2
├── docs
│   └── development.md
├── src
│   ├── template
│   │   ├── tags
│   │   │   ├── all_file_paths.rs
│   │   │   └── mod.rs
│   │   ├── concatenate.rs
│   │   ├── mod.rs
│   │   ├── template.rs
│   │   └── validator.rs
│   ├── test_utils
│   │   ├── mod.rs
│   │   └── temp_dir.rs
│   ├── binary_detector.rs
│   ├── cli.rs
│   ├── file_reader.rs
│   ├── file_walker.rs
│   ├── lib.rs
│   ├── main.rs
│   ├── processor.rs
│   ├── quagga_ignore.rs
│   ├── show_paths.rs
│   └── walk_overrides.rs
├── templates
│   └── default.txt
├── tests
│   └── integration_test.rs
├── Cargo.toml
├── CONTRIBUTING.md
├── LICENSE
├── README.md
└── TODO.md
"#;

    assert_eq!(result, expected);
}

#[test]
fn test_empty_paths() {
    let paths = vec![];
    let root = "/dir1".to_string();
    let result = file_paths_to_tree(paths, Some(root));
    assert_eq!(result, "");
}

#[test]
fn test_root_directory_only() {
    let paths = vec!["/dir1".to_string()];
    let root = "/dir1".to_string();
    let result = file_paths_to_tree(paths, Some(root));
    assert_eq!(result, "/dir1\n");
}

#[test]
fn test_single_file_in_root() {
    let paths = vec!["/dir1/file.txt".to_string()];
    let root = "/dir1".to_string();

    let result = file_paths_to_tree(paths, Some(root));

    let expected = r#"/dir1
└── file.txt
"#;

    assert_eq!(result, expected);
}

#[test]
fn test_deeply_nested_directory() {
    let paths = vec!["/dir1/level1/level2/level3/level4/file.txt".to_string()];
    let root = "/dir1".to_string();

    let result = file_paths_to_tree(paths, Some(root));

    let expected = r#"/dir1
└── level1
    └── level2
        └── level3
            └── level4
                └── file.txt
"#;

    assert_eq!(result, expected);
}

#[test]
fn test_same_file_name_in_different_directories() {
    let paths = vec![
        "/dir1/dirA/file.txt".to_string(),
        "/dir1/dirB/file.txt".to_string(),
    ];
    let root = "/dir1".to_string();

    let result = file_paths_to_tree(paths, Some(root));

    let expected = r#"/dir1
├── dirA
│   └── file.txt
└── dirB
    └── file.txt
"#;

    assert_eq!(result, expected);
}

#[test]
fn test_mixed_case_sensitivity() {
    let paths = vec!["/dir1/File.txt".to_string(), "/dir1/file.txt".to_string()];

    let root = "/dir1".to_string();

    let result = file_paths_to_tree(paths, Some(root));

    let expected = r#"/dir1
├── File.txt
└── file.txt
"#;

    assert_eq!(result, expected);
}

#[test]
fn test_special_characters_in_paths() {
    let paths = vec![
        "/dir1/special@file.txt".to_string(),
        "/dir1/dir with space/file.txt".to_string(),
    ];

    let root = "/dir1".to_string();

    let result = file_paths_to_tree(paths, Some(root));

    let expected = r#"/dir1
├── dir with space
│   └── file.txt
└── special@file.txt
"#;
    assert_eq!(result, expected);
}

#[test]
fn test_start_with_dot_dir() {
    let paths = vec!["./file1.txt".to_string(), "./file2.txt".to_string()];
    let root = ".".to_string();

    let result = file_paths_to_tree(paths, Some(root));

    let expected = r#".
├── file1.txt
└── file2.txt
"#;

    assert_eq!(result, expected);
}

#[test]
fn test_root_directory_mismatch() {
    let paths = vec!["/file1.txt".to_string(), "/file2.txt".to_string()];
    let root = "dir".to_string(); // Root is different from paths

    let result = file_paths_to_tree(paths, Some(root));

    let expected = r#"/
├── file1.txt
└── file2.txt
"#;

    assert_eq!(result, expected);
}

#[test]
fn test_root_directory_mismatch_with_subdirs() {
    let paths = vec![
        "dir1/dir2/file1.txt".to_string(),
        "dir1/dir2/file2.txt".to_string(),
    ];
    let root = "dir".to_string(); // Root is different from paths

    let result = file_paths_to_tree(paths, Some(root));

    let expected = r#"dir1
└── dir2
    ├── file1.txt
    └── file2.txt
"#;

    assert_eq!(result, expected);
}

#[test]
fn test_root_directory_matches_some_of_the_paths() {
    let paths = vec![
        "/dir1/dir2/file1.txt".to_string(),
        "/dir1/dir2/file2.txt".to_string(),
        "/dir3/dir4/file1.txt".to_string(),
        "/dir3/dir4/file2.txt".to_string(),
    ];

    let root = "/dir1/dir2".to_string();

    let result = file_paths_to_tree(paths, Some(root));

    // The root dir holds two of the files, so it stands as one compact node
    // rather than being split into its components.
    let expected = r#"/
└── dir3
    └── dir4
        ├── file1.txt
        └── file2.txt
/dir1/dir2
├── file1.txt
└── file2.txt
"#;

    assert_eq!(result, expected);
}

#[test]
fn test_split_full_path_when_root_arg_is_missing() {
    let paths = vec![
        "/dir1/dirA/file.txt".to_string(),
        "/dir1/dirB/file.txt".to_string(),
    ];

    let result = file_paths_to_tree(paths, None);

    let expected = r#"/
└── dir1
    ├── dirA
    │   └── file.txt
    └── dirB
        └── file.txt
"#;

    assert_eq!(result, expected);
}
