use quagga::cli::Cli;
use quagga::contain::file_contains_text;
use quagga::file::file_content::FileContent;
use quagga::file::file_reader::read_and_concatenate_files;
use quagga::file::size::{check_total_size, human_readable_size};
use quagga::filter::filter::{filter_lines_in_files, filter_lines_in_single_file};
use quagga::filter::remove_comments::remove_comments_from_file;
use quagga::info::file_sizes::{get_formatted_file_sizes, FileWithSize};
use quagga::info::info::info_output;
use quagga::info::size::get_total_size;
use quagga::non_template::non_template_output;
use quagga::template::template::Template;

#[test]
fn show_paths_test_format_file_paths() {
    let path1 = "file1.txt".to_string();
    let path2 = "file2.txt".to_string();
    let path3 = "file3.txt".to_string();

    let files = vec![path3.clone(), path1.clone(), path2.clone()];
    let output = quagga::info::show_paths::format_file_paths(files);

    let expected = format!("{}\n{}\n{}", path1, path2, path3);

    assert_eq!(output, expected);
}

#[test]
fn test_format_file_paths_no_paths() {
    let files: Vec<String> = vec![];
    let output = quagga::info::show_paths::format_file_paths(files);
    assert_eq!(output, "");
}

#[test]
fn dry_run_test_format_file_paths() {
    let path1 = "file1.txt".to_string();
    let path2 = "file2.txt".to_string();
    let path3 = "file3.txt".to_string();

    let files = vec![path3.clone(), path1.clone(), path2.clone()];
    let output = quagga::dry_run::format_file_paths(files);

    let expected = format!("{}\n{}\n{}", path1, path2, path3);

    assert_eq!(output, expected);
}

#[test]
fn test_concatenate_file_paths_sorted() {
    let files = vec![
        "b.txt".to_string(),
        "a.txt".to_string(),
        "c.txt".to_string(),
    ];
    let output = quagga::dry_run::concatenate_file_paths(files);
    assert_eq!(output, "a.txt\nb.txt\nc.txt");
}

#[test]
fn test_human_readable_size() {
    assert_eq!(human_readable_size(500), "500 B");
    assert_eq!(human_readable_size(1024), "1 KB");
    assert_eq!(human_readable_size(1048576), "1 MB");
    assert_eq!(human_readable_size(1634546), "1.56 MB");
    assert_eq!(human_readable_size(1073741824), "1 GB");
    assert_eq!(human_readable_size(1373741824342), "1.25 TB");
}

#[test]
fn test_check_total_size_within_limit() {
    let sizes = vec![5u64, 10u64];
    assert!(check_total_size(sizes, 20).is_ok());
}

#[test]
fn test_check_total_size_equal_to_limit() {
    let sizes = vec![5u64, 5u64];
    assert!(check_total_size(sizes, 10).is_ok());
}

#[test]
fn test_check_total_size_exceeds_limit() {
    let sizes = vec![5u64, 10u64];
    let result = check_total_size(sizes, 10);
    assert!(result.is_err());
    let msg = result.unwrap_err();
    assert!(msg.contains("Total size of files (15 B) exceeds the maximum allowed size (10 B)."));
}

#[test]
fn test_get_total_size() {
    let sizes = vec![5u64, 6u64];
    assert_eq!(get_total_size(sizes), "11 B");
}

#[test]
fn test_get_formatted_file_sizes_empty() {
    let file_paths = vec![];

    let result = get_formatted_file_sizes(file_paths);

    assert_eq!(result, "");
}

#[test]
fn test_get_formatted_file_sizes() {
    let files = vec![
        FileWithSize { path: "file1.txt".to_string(), size: 1000 },
        FileWithSize { path: "file2.txt".to_string(), size: 2000 },
        FileWithSize { path: "file3.txt".to_string(), size: 500 },
    ];
    let result = get_formatted_file_sizes(files);

    let expected = "\
[1.95 KB] file2.txt
[1000 B] file1.txt
[500 B] file3.txt";

    assert_eq!(result, expected);
}

#[test]
fn test_filter_lines_in_files_noop() {
    let input = vec![FileContent {
        path: "foo.rs".to_string(),
        content: String::from("fn main() {}"),
    }];

    let cli = Cli::default();

    let output = filter_lines_in_files(&input, &cli);

    assert_eq!(output.len(), 1);
}

#[test]
fn test_filter_lines_in_single_file_noop() {
    let input = FileContent {
        path: "bar.py".to_string(),
        content: String::from("print('hello world')"),
    };

    let cli = Cli::default();

    let _output = filter_lines_in_single_file(input, &cli);
}

#[test]
fn test_remove_comments_from_file_stub() {
    let file = FileContent {
        path: "example.rs".to_string(),
        content: String::from("// comment\nlet x = 1;"),
    };

    let result = remove_comments_from_file(file);

    assert_eq!(result, "// comment\nlet x = 1;");
}

#[test]
fn test_read_and_concatenate_files_no_files_error() {
    let cli = Cli::default();
    let files: Vec<FileContent> = vec![];

    let result = read_and_concatenate_files(files, Template::default(), &cli, None);

    assert!(result.is_err());
    assert_eq!(result.unwrap_err(), "No files to process");
}

#[test]
fn test_file_contains_text_found() {
    let texts = vec!["test".to_string()];
    assert!(file_contains_text("This is a test file.", &texts));
}

#[test]
fn test_file_contains_text_not_found() {
    let texts = vec!["notfound".to_string()];
    assert!(!file_contains_text("This is a sample file.", &texts));
}

#[test]
fn test_file_contains_text_multiple_texts() {
    let texts = vec!["notfound".to_string(), "test".to_string()];
    assert!(file_contains_text("This is a test file.", &texts));
}

#[test]
fn test_info_output_no_options() {
    let cli = Cli::default();
    let result = info_output(&cli, vec![]);
    assert!(result.is_none());
}

#[test]
fn test_info_output_size_only() {
    let mut cli = Cli::default();
    cli.size = true;
    let files = vec![
        FileWithSize { path: "file1.txt".to_string(), size: 5 },
        FileWithSize { path: "file2.txt".to_string(), size: 5 },
    ];
    let result = info_output(&cli, files);
    assert_eq!(result.unwrap(), "10 B");
}

#[test]
fn test_info_output_paths_and_size() {
    let mut cli = Cli::default();
    cli.paths = true;
    cli.size = true;
    let files = vec![
        FileWithSize { path: "b.txt".to_string(), size: 5 },
        FileWithSize { path: "a.txt".to_string(), size: 5 },
    ];
    let result = info_output(&cli, files).unwrap();
    assert_eq!(result, "a.txt\nb.txt\n\n10 B");
}

#[test]
fn test_non_template_output_none() {
    let cli = Cli::default();
    let result = non_template_output(&cli, vec![]);
    assert!(result.is_none());
}

#[test]
fn test_non_template_output_paths() {
    let mut cli = Cli::default();
    cli.paths = true;
    let files = vec!["b.txt".to_string(), "a.txt".to_string()];
    let result = non_template_output(&cli, files);
    assert_eq!(result.unwrap(), "a.txt\nb.txt");
}

#[test]
fn test_non_template_output_tree() {
    let mut cli = Cli::default();
    cli.tree = true;
    cli.root = ".".to_string();
    let files = vec!["./a.txt".to_string(), "./b.txt".to_string()];
    let result = non_template_output(&cli, files).unwrap();
    assert_eq!(result, ".\n├── a.txt\n└── b.txt\n");
}

#[test]
fn test_cli_default_values() {
    let cli = Cli::default();
    assert_eq!(cli.max_part_size, 100000);
    assert_eq!(cli.max_filesize, 300 * 1024);
    assert_eq!(cli.max_total_size, 500 * 1024);
    assert_eq!(cli.root, ".");
    assert!(!cli.binary);
    assert!(!cli.hidden);
}
