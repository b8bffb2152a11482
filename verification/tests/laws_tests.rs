use quagga::template::split::{
    assemble_multiple_parts, calculate_part_overhead, fits_in_single_part, replace_placeholders,
    split_into_parts, PartContent,
};
use quagga::template::template::PartTemplate;

fn sample_template() -> PartTemplate {
    PartTemplate {
        header: "P<part-number>/<total-parts>".to_string(),
        footer: "E".to_string(),
        pending: "W<parts-remaining>".to_string(),
    }
}

#[test]
fn test_empty_blocks_small_budget_single_part() {
    let parts = split_into_parts(
        "H".to_string(),
        vec![],
        "F".to_string(),
        sample_template(),
        3,
    );
    assert_eq!(parts, vec!["H\nF".to_string()]);
}

#[test]
fn test_fifty_short_lines_split_into_whole_line_parts() {
    let line = "A".repeat(10);
    let mut content = String::new();
    for i in 0..50 {
        if i > 0 {
            content.push('\n');
        }
        content.push_str(&line);
    }
    let parts = split_into_parts(
        String::new(),
        vec![content],
        "F".to_string(),
        sample_template(),
        200,
    );

    // The block cannot fit in one part, so several parts come back.
    assert!(parts.len() > 1);

    // Line atomicity: every content line is a whole ten-character line.
    for part in &parts {
        for l in part.lines() {
            if l.starts_with('A') {
                assert_eq!(l, line.as_str());
            }
        }
    }

    // The last part carries the footer and no pending text; every other part
    // carries the pending text.
    let last = parts.last().unwrap();
    assert!(last.contains("F\n"));
    assert!(!last.contains('W'));
    for part in &parts[..parts.len() - 1] {
        assert!(part.contains('W'));
        assert!(!part.contains("F\n"));
    }

    // Every line of the block appears exactly once across all parts.
    let total_a_lines: usize = parts
        .iter()
        .flat_map(|p| p.lines())
        .filter(|l| l.starts_with('A'))
        .count();
    assert_eq!(total_a_lines, 50);
}

#[test]
fn test_assemble_twice_yields_identical_output() {
    let make_parts = || {
        vec![
            PartContent { file_chunks: vec!["one\n".to_string(), "two\n".to_string()] },
            PartContent { file_chunks: vec!["three\n".to_string()] },
        ]
    };
    let t = sample_template();
    let first = assemble_multiple_parts(make_parts(), &t, "H", "F");
    let second = assemble_multiple_parts(make_parts(), &t, "H", "F");
    assert_eq!(first, second);
}

#[test]
fn test_assemble_renders_positions() {
    let plans = vec![
        PartContent { file_chunks: vec!["one\n".to_string()] },
        PartContent { file_chunks: vec!["two\n".to_string()] },
    ];
    let t = sample_template();
    let parts = assemble_multiple_parts(plans, &t, "H", "F");
    assert_eq!(parts.len(), 2);
    assert_eq!(parts[0], "P1/2\nH\none\nE\nW1");
    assert_eq!(parts[1], "P2/2\ntwo\nF\nE");
}

// The layout of a multi-part result, on the two-block example: rendered part
// header first, global header on part one only, the block, global footer on
// the last part only, rendered part footer, and the pending notice last on
// every part but the last.
#[test]
fn test_assemble_two_block_example_layout() {
    let plans = vec![
        PartContent { file_chunks: vec!["File1\n".to_string()] },
        PartContent { file_chunks: vec!["File2\n".to_string()] },
    ];
    let t = PartTemplate {
        header: "==P<part-number>/<total-parts>==".to_string(),
        footer: "==E<part-number>==".to_string(),
        pending: "<parts-remaining> left".to_string(),
    };
    let parts = assemble_multiple_parts(plans, &t, "H", "F");
    assert_eq!(parts.len(), 2);
    assert_eq!(parts[0], "==P1/2==\nH\nFile1\n==E1==\n1 left");
    assert_eq!(parts[1], "==P2/2==\nFile2\nF\n==E2==");
}

// With no blocks and a header and footer too large for the budget, the engine
// still returns exactly one part, holding only the wrappers, the header and
// the footer: it never returns zero parts.
#[test]
fn test_no_blocks_over_budget_still_one_part() {
    let parts = split_into_parts(
        "H".to_string(),
        vec![],
        "F".to_string(),
        sample_template(),
        0,
    );
    assert_eq!(parts.len(), 1);
    assert_eq!(parts[0], "P1/1\nH\nF\nE");
}

// A block that fits on its own never shares a part with a line-level chunk of
// a preceding oversized block.
#[test]
fn test_chunks_never_mixed_with_following_block() {
    let parts = split_into_parts(
        String::new(),
        vec!["aaaaa\nb".to_string(), "c".to_string()],
        String::new(),
        PartTemplate {
            header: "".to_string(),
            footer: "".to_string(),
            pending: "".to_string(),
        },
        6,
    );
    assert_eq!(parts.len(), 3);
    assert_eq!(parts[0], "\naaaaa\n");
    assert_eq!(parts[1], "\nb\n");
    assert_eq!(parts[2], "\nc\n");
}

#[test]
fn test_replace_placeholders_exact() {
    let r = replace_placeholders("X<part-number>/<total-parts> r<parts-remaining>", 2, 5);
    assert_eq!(r, "X2/5 r3");
}

#[test]
fn test_replace_placeholders_saturates_remaining() {
    let r = replace_placeholders("<parts-remaining>", 7, 5);
    assert_eq!(r, "0");
}

#[test]
fn test_calculate_part_overhead_counts_fragments() {
    let t = PartTemplate {
        header: "<part-number>".to_string(),
        footer: "".to_string(),
        pending: "".to_string(),
    };
    // Header renders to three sentinel digits plus a newline; the footer adds
    // only its newline; an empty pending notice adds nothing.
    assert_eq!(calculate_part_overhead(&t), 5);
}

#[test]
fn test_fits_in_single_part_boundary() {
    let files = vec!["File1".to_string(), "File2".to_string()];
    // Twelve characters of blocks and newlines, seven for the header and its
    // newline, six for the footer: twenty-five in all.
    assert!(fits_in_single_part("Header", &files, "Footer", 25));
    assert!(!fits_in_single_part("Header", &files, "Footer", 24));
}

#[test]
fn test_content_preserved_across_parts() {
    let blocks = vec![
        "alpha\nbeta".to_string(),
        "gamma".to_string(),
        "delta\nepsilon\nzeta".to_string(),
    ];
    let parts = split_into_parts(
        String::new(),
        blocks.clone(),
        String::new(),
        sample_template(),
        18,
    );
    assert!(parts.len() > 1);
    // Strip wrapper lines and collect the content lines of every part.
    let mut collected: Vec<String> = Vec::new();
    for part in &parts {
        for l in part.lines() {
            if !(l.starts_with('P') || l.starts_with('E') || l.starts_with('W')) {
                collected.push(l.to_string());
            }
        }
    }
    let mut original: Vec<String> = Vec::new();
    for b in &blocks {
        for l in b.lines() {
            original.push(l.to_string());
        }
    }
    assert_eq!(collected, original);
}

#[test]
fn test_components_of_paths() {
    let c = quagga::tree::components_of("/dir1/dir2/file.txt");
    assert_eq!(c, vec!["/", "dir1", "dir2", "file.txt"]);
    let c = quagga::tree::components_of("./a//b/");
    assert_eq!(c, vec![".", "a", "b"]);
    let c = quagga::tree::components_of("a/./b");
    assert_eq!(c, vec!["a", "b"]);
}
