use quagga::binary_detector::{is_valid_utf8, utf8_text_cleaned};
use quagga::file::size::check_total_size;
use quagga::template::split::split_into_parts;
use quagga::template::template::PartTemplate;

fn wrapper() -> PartTemplate {
    PartTemplate {
        header: "P<part-number>/<total-parts>".to_string(),
        footer: "E".to_string(),
        pending: "W<parts-remaining>".to_string(),
    }
}

// For buffers that do not end in a truncated multibyte character, the
// validator must agree with the standard library's UTF-8 decoder.
#[test]
fn test_utf8_validator_agrees_with_std() {
    let cases: Vec<Vec<u8>> = vec![
        b"plain ascii".to_vec(),
        "こんにちは!".as_bytes().to_vec(),
        "mixed \u{1F600} text!".as_bytes().to_vec(),
        b"ab\xC0\xAFcd".to_vec(),         // overlong two-byte form
        b"ab\xE0\x80\x80cd".to_vec(),     // overlong three-byte form
        b"ab\xED\xA0\x80cd".to_vec(),     // surrogate code point
        b"ab\xF4\x90\x80\x80cd".to_vec(), // above the last code point
        b"ab\x80cd".to_vec(),             // stray continuation byte
        b"ab\xC2\x41cd".to_vec(),         // truncated two-byte form
        b"\xF0\x9F\x98\x80!".to_vec(),    // valid four-byte character
    ];
    for buffer in cases {
        assert_eq!(
            is_valid_utf8(&buffer),
            std::str::from_utf8(&buffer).is_ok(),
            "disagreement on {:?}",
            buffer
        );
    }
}

// Cleaning a byte buffer keeps exactly what lossy decoding keeps once the
// replacement characters are deleted.
#[test]
fn test_utf8_cleaner_agrees_with_lossy_decoding() {
    let cases: Vec<Vec<u8>> = vec![
        b"Valid text \xFF\xFE Invalid bytes \xC0\xC1 End.".to_vec(),
        b"plain".to_vec(),
        "snowman \u{2603} and \u{1F600}!".as_bytes().to_vec(),
        b"ab\xE0\x80\x80cd".to_vec(),
        b"tail cut \xE3\x81".to_vec(),
        b"\x80\x80".to_vec(),
        "already \u{FFFD} here".as_bytes().to_vec(),
    ];
    for buffer in cases {
        let expected = String::from_utf8_lossy(&buffer).replace('\u{FFFD}', "");
        assert_eq!(utf8_text_cleaned(&buffer), expected, "disagreement on {:?}", buffer);
    }
}

#[test]
fn test_utf8_cleaner_exact_value() {
    let bytes = b"Valid text \xFF\xFE Invalid bytes \xC0\xC1 End.";
    assert_eq!(utf8_text_cleaned(bytes), "Valid text  Invalid bytes  End.");
}

#[test]
fn test_utf8_validator_tolerates_truncated_tail() {
    // A four-byte character cut after two bytes is tolerated at the end.
    let mut buffer = "\u{1F600}".as_bytes().to_vec();
    buffer.truncate(2);
    assert!(is_valid_utf8(&buffer));
}

#[test]
fn test_check_total_size_exact_message() {
    let sizes = vec![5u64, 10u64];
    let msg = check_total_size(sizes, 10).unwrap_err();
    assert_eq!(
        msg,
        "Total size of files (15 B) exceeds the maximum allowed size (10 B).\n\
         Use --max-total-size=BYTES option to increase the limit.\n"
    );
}

// A budget too small even for the wrapper text degrades to oversized parts
// rather than losing content.
#[test]
fn test_budget_below_overhead_loses_no_content() {
    let parts = split_into_parts(
        String::new(),
        vec!["ab\ncd".to_string(), "ef".to_string()],
        String::new(),
        wrapper(),
        1,
    );
    assert!(parts.len() >= 2);
    let combined: Vec<String> = parts
        .iter()
        .flat_map(|p| p.lines())
        .filter(|l| !(l.starts_with('P') || l.starts_with('E') || l.starts_with('W')))
        .map(|l| l.to_string())
        .collect();
    assert_eq!(combined, vec!["ab", "cd", "ef"]);
}

#[test]
fn test_partition_is_deterministic() {
    let run = || {
        split_into_parts(
            "H".to_string(),
            vec!["one\ntwo".to_string(), "three".to_string()],
            "F".to_string(),
            wrapper(),
            12,
        )
    };
    assert_eq!(run(), run());
}

#[test]
fn test_single_block_ending_in_newline_kept_exactly_when_chunked() {
    // A chunked block that already ends in a newline is reproduced exactly.
    let parts = split_into_parts(
        String::new(),
        vec!["aa\nbb\n".to_string()],
        String::new(),
        wrapper(),
        6,
    );
    let content: Vec<String> = parts
        .iter()
        .flat_map(|p| p.lines())
        .filter(|l| !(l.starts_with('P') || l.starts_with('E') || l.starts_with('W')))
        .map(|l| l.to_string())
        .collect();
    assert_eq!(content, vec!["aa", "bb"]);
}
