use quagga::cli::Cli;
use quagga::file::file_content::FileContent;
use quagga::template::concatenate::{apply_file_template, concatenate_files};
use quagga::template::read::read_and_parse_template;
use quagga::template::tags::all_file_paths::replace_all_file_paths_tag;
use quagga::template::tags::total_file_size::replace_total_file_size_tag;
use quagga::template::tags::tree::replace_tree_tag;
use quagga::template::template::{PromptTemplate, Template};

#[test]
fn all_file_paths_test_replace_all_file_paths_tag() {
    let template = "\
        Header\n\
        <all-file-paths>\n\
        Footer";

    let file_paths = vec!["file1.txt".to_string(), "file2.txt".to_string()];
    let result = replace_all_file_paths_tag(template, file_paths);

    assert!(result.contains("file1.txt\nfile2.txt"));
    assert!(result.contains("Header"));
    assert!(result.contains("Footer"));
}

#[test]
fn all_file_paths_test_replace_all_file_paths_tag_missing() {
    let template = "\
      Header\n\
      Footer";

    let file_paths = vec!["file1.txt".to_string(), "file2.txt".to_string()];
    let result = replace_all_file_paths_tag(template, file_paths);

    assert_eq!(result, template);
}

#[test]
fn tree_test_replace_all_file_paths_tag() {
    let template = "\
        Header\n\
        {{TREE}}\n\
        Footer";

    let file_paths = vec!["./dir/file1.txt".to_string(), "./file2.txt".to_string()];
    let root = ".".to_string();
    let result = replace_tree_tag(template, file_paths, root);

    let expected = r#"Header
.
├── dir
│   └── file1.txt
└── file2.txt
Footer"#;

    assert_eq!(result, expected);
}

#[test]
fn tree_test_replace_all_file_paths_tag_missing() {
    let template = "\
      Header\n\
      Footer";

    let file_paths = vec!["./file1.txt".to_string(), "./file2.txt".to_string()];
    let root = ".".to_string();
    let result = replace_tree_tag(template, file_paths, root);

    assert_eq!(result, template);
}

#[test]
fn test_replace_total_file_size_tag_not_present() {
    let template = "No size info here.";
    let result = replace_total_file_size_tag(template, Some(0));
    assert_eq!(result, "No size info here.");
}

#[test]
fn test_replace_total_file_size_tag_with_error() {
    let template = "Total size: <total-file-size>";
    let result = replace_total_file_size_tag(template, None);
    assert_eq!(result, template);
}

#[test]
fn test_replace_total_file_size_tag_present() {
    let template = "Total size: <total-file-size>";
    let result = replace_total_file_size_tag(template, Some(3072));
    assert_eq!(result, "Total size: 3 KB");
}

#[test]
fn test_concatenate_files() {
    let template = Template {
        prompt: PromptTemplate {
            header: "Header".to_string(),
            file: "File: <file-path>\nContent:\n<file-content>\n---".to_string(),
            footer: "Footer".to_string(),
        },
        part: Default::default(),
    };

    let file1 = FileContent {
        path: "file1.txt".to_string(),
        content: "Hello".to_string(),
    };

    let file2 = FileContent {
        path: "file2.txt".to_string(),
        content: "World!".to_string(),
    };

    let files = vec![file1, file2];
    let cli = Cli::default();

    let result = concatenate_files(template, files, &cli, None);

    assert_eq!(result.len(), 1);

    let expected_output = "\
Header
File: file1.txt
Content:
Hello
---
File: file2.txt
Content:
World!
---
Footer";

    assert_eq!(result[0], expected_output);
}

#[test]
fn test_concatenate_files_with_all_file_paths_tag() {
    let template = Template {
        prompt: PromptTemplate {
            header: "Header with paths: <all-file-paths>".to_string(),
            file: "File: <file-content>".to_string(),
            footer: "Footer with paths: <all-file-paths>".to_string(),
        },
        part: Default::default(),
    };

    let files = vec![
        FileContent {
            path: "file1.txt".to_string(),
            content: "Content1".to_string(),
        },
        FileContent {
            path: "file2.txt".to_string(),
            content: "Content2".to_string(),
        },
    ];

    let cli = Cli::default();

    let result = concatenate_files(template, files, &cli, None);

    assert_eq!(result.len(), 1);

    let expected = r#"Header with paths: file1.txt
file2.txt
File: Content1
File: Content2
Footer with paths: file1.txt
file2.txt"#;

    assert_eq!(result[0], expected);
}

#[test]
fn test_apply_file_template() {
    let item_template = "File: <file-path>\nContent:\n<file-content>\n---";

    let file1 = FileContent {
        path: "file1.txt".to_string(),
        content: "Hello".to_string(),
    };

    let file2 = FileContent {
        path: "file2.txt".to_string(),
        content: "World!".to_string(),
    };

    let files = vec![file1, file2];

    let result = apply_file_template(item_template, &files);

    assert_eq!(result.len(), 2);

    let expected = "\
File: file1.txt
Content:
Hello
---";

    assert_eq!(result[0], expected);

    let expected = "\
File: file2.txt
Content:
World!
---";

    assert_eq!(result[1], expected);
}

#[test]
fn test_read_and_parse_template_with_default_template() {
    let result = read_and_parse_template(None);
    assert!(result.is_ok());
    let template = result.unwrap();
    assert!(!template.prompt.header.is_empty());
    assert!(!template.prompt.file.is_empty());
    assert!(!template.prompt.footer.is_empty());
    assert!(!template.part.header.is_empty());
    assert!(!template.part.pending.is_empty());
    assert!(!template.part.footer.is_empty());
}

#[test]
fn test_read_and_parse_template_with_custom_template() {
    let template_content = r#"
<template>
  <prompt>
    <header>Header</header>
    <file>File</file>
    <footer>Footer</footer>
  </prompt>

  <part>
    <header>Part start</header>
    <footer>Part end</footer>
    <pending>If part pending</pending>
  </part>
</template>
"#;

    let result = read_and_parse_template(Some(template_content.to_string()));
    assert!(result.is_ok());
    let template = result.unwrap();
    assert_eq!(template.prompt.header, "Header");
    assert_eq!(template.prompt.file, "File");
    assert_eq!(template.prompt.footer, "Footer");
    assert_eq!(template.part.header, "Part start");
    assert_eq!(template.part.footer, "Part end");
    assert_eq!(template.part.pending, "If part pending");
}
