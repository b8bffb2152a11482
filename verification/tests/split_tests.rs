use quagga::template::split::{split_file_by_lines, split_into_parts};
use quagga::template::template::PartTemplate;

#[test]
fn test_split_into_parts_single_part_fit_exactly() {
    let header = "Header".to_string();
    let footer = "Footer".to_string();
    let files = vec!["File1".to_string(), "File2".to_string()];

    let part_template = PartTemplate {
        header: "== Part <part-number> OF <total-parts> ==".to_string(),
        footer: "== Part END <part-number> OF <total-parts> ==".to_string(),
        pending: "This is only a part of the code (<parts-remaining> remaining)".to_string(),
    };

    let max_part_chars = 25; // Exact size of header, files, and footer

    let parts = split_into_parts(
        header.clone(),
        files.clone(),
        footer.clone(),
        part_template,
        max_part_chars,
    );

    assert_eq!(parts.len(), 1);

    let expected = r#"Header
File1
File2
Footer"#;

    assert_eq!(parts[0], expected);
}

#[test]
fn test_split_into_parts() {
    let header = "Header".to_string();
    let footer = "Footer".to_string();
    let files = vec!["File1".to_string(), "File2".to_string()];

    let part_template = PartTemplate {
        header: "== Part <part-number> OF <total-parts> ==".to_string(),
        footer: "== Part END <part-number> OF <total-parts> ==".to_string(),
        pending: "This is only a part of the code (<parts-remaining> remaining)".to_string(),
    };

    let max_part_chars = 24;

    let parts = split_into_parts(
        header.clone(),
        files.clone(),
        footer.clone(),
        part_template,
        max_part_chars,
    );

    assert_eq!(parts.len(), 2);

    let expected = r#"== Part 1 OF 2 ==
Header
File1
== Part END 1 OF 2 ==
This is only a part of the code (1 remaining)"#;

    assert_eq!(parts[0], expected);

    let expected = r#"== Part 2 OF 2 ==
File2
Footer
== Part END 2 OF 2 =="#;

    assert_eq!(parts[1], expected);
}

#[test]
fn test_split_into_parts_accounting_for_long_header() {
    let header = "Header".repeat(10);
    let footer = "Footer".to_string();

    let files = vec![
        "Line1".repeat(10),
        "Line2".repeat(10),
        "Line3".repeat(10),
        "Line4".repeat(10),
        "Line5".repeat(10),
    ];

    let part_template = PartTemplate {
        header: "== Part <part-number> OF <total-parts> ==".to_string(),
        footer: "== Part END <part-number> OF <total-parts> ==".to_string(),
        pending: "This is only a part of the code (<parts-remaining> remaining)".to_string(),
    };

    let max_part_chars = 267;

    let parts = split_into_parts(
        header.clone(),
        files.clone(),
        footer.clone(),
        part_template,
        max_part_chars,
    );

    assert_eq!(parts.len(), 2);

    let expected = r#"== Part 1 OF 2 ==
HeaderHeaderHeaderHeaderHeaderHeaderHeaderHeaderHeaderHeader
Line1Line1Line1Line1Line1Line1Line1Line1Line1Line1
Line2Line2Line2Line2Line2Line2Line2Line2Line2Line2
== Part END 1 OF 2 ==
This is only a part of the code (1 remaining)"#;

    assert_eq!(parts[0], expected);

    let expected = r#"== Part 2 OF 2 ==
Line3Line3Line3Line3Line3Line3Line3Line3Line3Line3
Line4Line4Line4Line4Line4Line4Line4Line4Line4Line4
Line5Line5Line5Line5Line5Line5Line5Line5Line5Line5
Footer
== Part END 2 OF 2 =="#;

    assert_eq!(parts[1], expected);
}

#[test]
fn test_split_into_parts_split_long_between_parts() {
    let header = "Header".to_string();
    let footer = "Footer".to_string();

    let files = vec!["\
Line1Line1Line1Line1Line1Line1Line1Line1Line1Line1
Line2Line2Line2Line2Line2Line2Line2Line2Line2Line2
Line3Line3Line3Line3Line3Line3Line3Line3Line3Line3
Line4Line4Line4Line4Line4Line4Line4Line4Line4Line4
Line5Line5Line5Line5Line5Line5Line5Line5Line5Line5
Line6Line6Line6Line6Line6Line6Line6Line6Line6Line6
Line7Line7Line7Line7Line7Line7Line7Line7Line7Line7
Line8Line8Line8Line8Line8Line8Line8Line8Line8Line8
Line9Line9Line9Line9Line9Line9Line9Line9Line9Line9
Line0Line0Line0Line0Line0Line0Line0Line0Line0Line0"
        .to_string()];

    let part_template = PartTemplate {
        header: "== Part <part-number> OF <total-parts> ==".to_string(),
        footer: "== Part END <part-number> OF <total-parts> ==".to_string(),
        pending: "This is only a part of the code (<parts-remaining> remaining)".to_string(),
    };

    let max_part_chars = 314;

    let parts = split_into_parts(
        header.clone(),
        files.clone(),
        footer.clone(),
        part_template,
        max_part_chars,
    );

    assert_eq!(parts.len(), 3);

    let expected = r#"== Part 1 OF 3 ==
Header
Line1Line1Line1Line1Line1Line1Line1Line1Line1Line1
Line2Line2Line2Line2Line2Line2Line2Line2Line2Line2
Line3Line3Line3Line3Line3Line3Line3Line3Line3Line3
Line4Line4Line4Line4Line4Line4Line4Line4Line4Line4
== Part END 1 OF 3 ==
This is only a part of the code (2 remaining)"#;

    assert_eq!(parts[0], expected);

    let expected = r#"== Part 2 OF 3 ==
Line5Line5Line5Line5Line5Line5Line5Line5Line5Line5
Line6Line6Line6Line6Line6Line6Line6Line6Line6Line6
Line7Line7Line7Line7Line7Line7Line7Line7Line7Line7
Line8Line8Line8Line8Line8Line8Line8Line8Line8Line8
== Part END 2 OF 3 ==
This is only a part of the code (1 remaining)"#;

    assert_eq!(parts[1], expected);

    let expected = r#"== Part 3 OF 3 ==
Line9Line9Line9Line9Line9Line9Line9Line9Line9Line9
Line0Line0Line0Line0Line0Line0Line0Line0Line0Line0
Footer
== Part END 3 OF 3 =="#;

    assert_eq!(parts[2], expected);
}

#[test]
fn test_split_into_parts_long_file_coming_after_small_files() {
    let header = "Header".to_string();
    let footer = "Footer".to_string();

    let files = vec![
        "Small1".to_string(),
        "\
Line1Line1Line1Line1Line1Line1Line1Line1Line1Line1
Line2Line2Line2Line2Line2Line2Line2Line2Line2Line2
Line3Line3Line3Line3Line3Line3Line3Line3Line3Line3
Line4Line4Line4Line4Line4Line4Line4Line4Line4Line4
Line5Line5Line5Line5Line5Line5Line5Line5Line5Line5
Line6Line6Line6Line6Line6Line6Line6Line6Line6Line6
Line7Line7Line7Line7Line7Line7Line7Line7Line7Line7
Line8Line8Line8Line8Line8Line8Line8Line8Line8Line8
Line9Line9Line9Line9Line9Line9Line9Line9Line9Line9
Line0Line0Line0Line0Line0Line0Line0Line0Line0Line0"
            .to_string(),
    ];

    let part_template = PartTemplate {
        header: "== Part <part-number> OF <total-parts> ==".to_string(),
        footer: "== Part END <part-number> OF <total-parts> ==".to_string(),
        pending: "This is only a part of the code (<parts-remaining> remaining)".to_string(),
    };

    let max_part_chars = 500;

    let parts = split_into_parts(
        header.clone(),
        files.clone(),
        footer.clone(),
        part_template,
        max_part_chars,
    );

    assert_eq!(parts.len(), 3);

    let expected = r#"== Part 1 OF 3 ==
Header
Small1
== Part END 1 OF 3 ==
This is only a part of the code (2 remaining)"#;

    // The part contains only the small file,
    // and does NOT contain chunks from the next large file
    assert_eq!(parts[0], expected);

    let expected = r#"== Part 2 OF 3 ==
Line1Line1Line1Line1Line1Line1Line1Line1Line1Line1
Line2Line2Line2Line2Line2Line2Line2Line2Line2Line2
Line3Line3Line3Line3Line3Line3Line3Line3Line3Line3
Line4Line4Line4Line4Line4Line4Line4Line4Line4Line4
Line5Line5Line5Line5Line5Line5Line5Line5Line5Line5
Line6Line6Line6Line6Line6Line6Line6Line6Line6Line6
Line7Line7Line7Line7Line7Line7Line7Line7Line7Line7
== Part END 2 OF 3 ==
This is only a part of the code (1 remaining)"#;

    assert_eq!(parts[1], expected);

    let expected = r#"== Part 3 OF 3 ==
Line8Line8Line8Line8Line8Line8Line8Line8Line8Line8
Line9Line9Line9Line9Line9Line9Line9Line9Line9Line9
Line0Line0Line0Line0Line0Line0Line0Line0Line0Line0
Footer
== Part END 3 OF 3 =="#;

    assert_eq!(parts[2], expected);
}

#[test]
fn test_split_into_parts_long_file_coming_after_long_header_and_footer() {
    let header = "Header".repeat(10);
    let footer = "Footer".repeat(10);

    let files = vec!["\
Line1Line1Line1Line1Line1Line1Line1Line1Line1Line1
Line2Line2Line2Line2Line2Line2Line2Line2Line2Line2
Line3Line3Line3Line3Line3Line3Line3Line3Line3Line3
Line4Line4Line4Line4Line4Line4Line4Line4Line4Line4
Line5Line5Line5Line5Line5Line5Line5Line5Line5Line5
Line6Line6Line6Line6Line6Line6Line6Line6Line6Line6
Line7Line7Line7Line7Line7Line7Line7Line7Line7Line7
Line8Line8Line8Line8Line8Line8Line8Line8Line8Line8
Line9Line9Line9Line9Line9Line9Line9Line9Line9Line9
Line0Line0Line0Line0Line0Line0Line0Line0Line0Line0"
        .to_string()];

    let part_template = PartTemplate {
        header: "== Part <part-number> OF <total-parts> ==".to_string(),
        footer: "== Part END <part-number> OF <total-parts> ==".to_string(),
        pending: "This is only a part of the code (<parts-remaining> remaining)".to_string(),
    };

    let max_part_chars = 575;

    let parts = split_into_parts(
        header.clone(),
        files.clone(),
        footer.clone(),
        part_template,
        max_part_chars,
    );

    assert_eq!(parts.len(), 2);

    let expected = r#"== Part 1 OF 2 ==
HeaderHeaderHeaderHeaderHeaderHeaderHeaderHeaderHeaderHeader
Line1Line1Line1Line1Line1Line1Line1Line1Line1Line1
Line2Line2Line2Line2Line2Line2Line2Line2Line2Line2
Line3Line3Line3Line3Line3Line3Line3Line3Line3Line3
Line4Line4Line4Line4Line4Line4Line4Line4Line4Line4
Line5Line5Line5Line5Line5Line5Line5Line5Line5Line5
Line6Line6Line6Line6Line6Line6Line6Line6Line6Line6
Line7Line7Line7Line7Line7Line7Line7Line7Line7Line7
== Part END 1 OF 2 ==
This is only a part of the code (1 remaining)"#;

    assert_eq!(parts[0], expected);

    let expected = r#"== Part 2 OF 2 ==
Line8Line8Line8Line8Line8Line8Line8Line8Line8Line8
Line9Line9Line9Line9Line9Line9Line9Line9Line9Line9
Line0Line0Line0Line0Line0Line0Line0Line0Line0Line0
FooterFooterFooterFooterFooterFooterFooterFooterFooterFooter
== Part END 2 OF 2 =="#;

    assert_eq!(parts[1], expected);
}

#[test]
fn test_split_into_parts_no_files() {
    let header = "Header".to_string();
    let footer = "Footer".to_string();
    let files: Vec<String> = vec![];

    let part_template = PartTemplate {
        header: "=== PART <part-number> OF <total-parts> ===".to_string(),
        footer: "=== END OF PART <part-number> ===".to_string(),
        pending: "Please wait for the next part...".to_string(),
    };

    let max_part_chars = 50;

    let parts = split_into_parts(
        header.clone(),
        files.clone(),
        footer.clone(),
        part_template,
        max_part_chars,
    );

    // Expecting a single part with header and footer only
    assert_eq!(parts.len(), 1);
    let expected = format!("Header\nFooter");
    assert_eq!(parts[0], expected);
}

#[test]
fn test_split_file_by_lines_empty_content() {
    let file_content = "";
    let max_chunk_size = 10;
    let result = split_file_by_lines(file_content, max_chunk_size);
    assert!(result.is_empty());
}

#[test]
fn test_split_file_by_lines_single_line_fits() {
    let file_content = "1234567890"; // 10 characters
    let max_chunk_size = 10;

    let result = split_file_by_lines(file_content, max_chunk_size);

    let expected = vec!["1234567890".to_string()];
    assert_eq!(result, expected);
}

#[test]
fn test_split_file_by_lines_single_line_exceeds() {
    let file_content = "This line is definitely longer than the maximum chunk size.";
    let max_chunk_size = 10;

    let result = split_file_by_lines(file_content, max_chunk_size);

    let expected = vec!["This line is definitely longer than the maximum chunk size.".to_string()];

    assert_eq!(result, expected);
}

#[test]
fn test_split_file_by_lines_multiple_lines_fit_one_chunk() {
    let file_content = "Line1
Line2
Line3";

    let max_chunk_size = 20;

    let result = split_file_by_lines(file_content, max_chunk_size);

    let expected = vec!["Line1
Line2
Line3"
        .to_string()];

    assert_eq!(result, expected);
}

#[test]
fn test_split_file_by_lines_each_line_separate_chunks() {
    let file_content = "Short
Another Short
Yet Another Short";

    let max_chunk_size = 10; // Each line plus newline exceeds 10

    let result = split_file_by_lines(file_content, max_chunk_size);

    let expected = vec![
        "Short".to_string(),
        "Another Short".to_string(),
        "Yet Another Short".to_string(),
    ];

    assert_eq!(result, expected);
}

#[test]
fn test_split_file_first_two_lines_fit_one_chunk_exactly() {
    let file_content = "12345
67890
absde";

    let max_chunk_size = 12; // first two lines plus newline fit exactly

    let result = split_file_by_lines(file_content, max_chunk_size);

    let expected = vec![
        "12345
67890"
            .to_string(),
        "absde".to_string(),
    ];

    assert_eq!(result, expected);
}

#[test]
fn test_split_file_by_lines_zero_max_chunk_size() {
    let file_content = "Line1\nLine2";
    let max_chunk_size = 0;
    let result = split_file_by_lines(file_content, max_chunk_size);
    let expected = vec!["Line1".to_string(), "Line2".to_string()];
    assert_eq!(result, expected);
}

#[test]
fn test_split_file_by_lines_max_chunk_smaller_than_any_line() {
    let file_content = "Short\nMedium Length\nLonger Line Than Max";
    let max_chunk_size = 5; // All lines plus newline exceed 5

    let result = split_file_by_lines(file_content, max_chunk_size);

    let expected = vec![
        "Short".to_string(),
        "Medium Length".to_string(),
        "Longer Line Than Max".to_string(),
    ];

    assert_eq!(result, expected);
}

#[test]
fn test_split_file_by_lines_multiple_consecutive_newlines() {
    let file_content = "Line1\n\nLine3\n\n\n\n\nLine6";
    let max_chunk_size = 15;
    let result = split_file_by_lines(file_content, max_chunk_size);
    let expected = vec!["Line1\n\nLine3\n\n".to_string(), "\n\nLine6".to_string()];
    assert_eq!(result, expected);
}

/// Test when all lines are empty (only newlines).
#[test]
fn test_split_file_by_lines_all_empty_lines() {
    let file_content = "\n\n\n";
    let max_chunk_size = 2;
    let expected = vec!["\n".to_string(), "".to_string()];
    let result = split_file_by_lines(file_content, max_chunk_size);
    assert_eq!(result, expected);
}

#[test]
fn test_split_file_by_lines_mixed_line_lengths() {
    let file_content = "Short
This line is quite long and exceeds the chunk size.
Mid
Another long line that should be split properly.";

    let max_chunk_size = 30;

    let result = split_file_by_lines(file_content, max_chunk_size);

    let expected = vec![
        "Short".to_string(),
        "This line is quite long and exceeds the chunk size.".to_string(),
        "Mid".to_string(),
        "Another long line that should be split properly.".to_string(),
    ];
    assert_eq!(result, expected);
}

#[test]
fn test_split_file_by_lines_lines_exactly_max_size() {
    let file_content = "1234567890
abcdefghij
ABCDEFGHIJ";

    let max_chunk_size = 11; // Each line + newline is 11 characters

    let result = split_file_by_lines(file_content, max_chunk_size);

    let expected = vec![
        "1234567890".to_string(),
        "abcdefghij".to_string(),
        "ABCDEFGHIJ".to_string(),
    ];

    assert_eq!(result, expected);
}
