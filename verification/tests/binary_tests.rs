use quagga::binary_detector::{is_valid_text, is_valid_utf8, number_of_null_bytes};

#[test]
fn test_number_of_null_bytes_with_no_nulls() {
    let buffer = vec![1, 2, 3, 4, 5];
    let count = number_of_null_bytes(&buffer);
    assert_eq!(count, 0);
}

#[test]
fn test_number_of_null_bytes_with_nulls() {
    let buffer = vec![0, 1, 0, 2, 0];
    let count = number_of_null_bytes(&buffer);
    assert_eq!(count, 3);
}

#[test]
fn test_number_of_null_bytes_with_all_nulls() {
    let buffer = vec![0; 10];
    let count = number_of_null_bytes(&buffer);
    assert_eq!(count, 10);
}

#[test]
fn test_is_valid_utf8_with_valid_utf8() {
    let buffer = "Hello, world!".as_bytes();
    assert!(is_valid_utf8(&buffer));
}

#[test]
fn test_is_valid_utf8_with_valid_utf8_multibyte() {
    let buffer = "こんにちは".as_bytes(); // "Hello" in Japanese
    assert!(is_valid_utf8(&buffer));
}

#[test]
fn test_is_valid_utf8_with_valid_single_multibyte_character() {
    let buffer = "こ".as_bytes();
    assert!(is_valid_utf8(&buffer));
}

#[test]
fn test_is_valid_utf8_with_incomplete_multibyte_at_end() {
    let mut buffer = "こんにちは".as_bytes().to_vec();
    buffer.pop(); // Remove last byte to simulate incomplete character
    assert!(is_valid_utf8(&buffer));
}

#[test]
fn test_is_valid_utf8_with_invalid_utf8() {
    let buffer = vec![0xFF, 0xFE, 0xFD];
    assert!(!is_valid_utf8(&buffer));
}

#[test]
fn test_is_valid_utf8_with_continuation_bytes_only() {
    let buffer = vec![0x80, 0x80, 0x80]; // Continuation bytes without a start byte
    assert!(!is_valid_utf8(&buffer));
}

#[test]
fn test_is_valid_text_with_utf8_text() {
    let buffer = "fn main() {}".as_bytes();
    assert!(is_valid_text(buffer));
}

#[test]
fn test_is_valid_text_with_binary_data() {
    let buffer = [0x00, 0xFF, 0x00, 0xFF]; // Contains null bytes
    assert!(!is_valid_text(&buffer));
}

#[test]
fn test_is_valid_text_with_non_utf8_text() {
    let buffer = vec![0xC0, 0xC1]; // Invalid UTF-8 sequences
    assert!(!is_valid_text(&buffer));
}

#[test]
fn test_is_valid_text_with_empty_buffer() {
    let buffer: &[u8] = &[];
    assert!(is_valid_text(buffer));
}

#[test]
fn binary_detector_test_number_of_null_bytes_with_no_nulls() {
    let buffer = vec![1, 2, 3, 4, 5];
    let count = number_of_null_bytes(&buffer);
    assert_eq!(count, 0);
}

#[test]
fn binary_detector_test_number_of_null_bytes_with_nulls() {
    let buffer = vec![0, 1, 0, 2, 0];
    let count = number_of_null_bytes(&buffer);
    assert_eq!(count, 3);
}

#[test]
fn binary_detector_test_number_of_null_bytes_with_all_nulls() {
    let buffer = vec![0; 10];
    let count = number_of_null_bytes(&buffer);
    assert_eq!(count, 10);
}

#[test]
fn binary_detector_test_is_valid_utf8_with_valid_utf8() {
    let buffer = "Hello, world!".as_bytes();
    assert!(is_valid_utf8(&buffer));
}

#[test]
fn binary_detector_test_is_valid_utf8_with_valid_utf8_multibyte() {
    let buffer = "こんにちは".as_bytes();
    assert!(is_valid_utf8(&buffer));
}

#[test]
fn binary_detector_test_is_valid_utf8_with_valid_single_multibyte_character() {
    let buffer = "こ".as_bytes();
    assert!(is_valid_utf8(&buffer));
}

#[test]
fn binary_detector_test_is_valid_utf8_with_incomplete_multibyte_at_end() {
    let mut buffer = "こんにちは".as_bytes().to_vec();
    buffer.pop();
    assert!(is_valid_utf8(&buffer));
}

#[test]
fn binary_detector_test_is_valid_utf8_with_invalid_utf8() {
    let buffer = vec![0xFF, 0xFE, 0xFD];
    assert!(!is_valid_utf8(&buffer));
}

#[test]
fn binary_detector_test_is_valid_utf8_with_continuation_bytes_only() {
    let buffer = vec![0x80, 0x80, 0x80];
    assert!(!is_valid_utf8(&buffer));
}

#[test]
fn binary_detector_test_is_valid_text_with_utf8_text() {
    let buffer = "fn main() {}".as_bytes();
    assert!(is_valid_text(buffer));
}

#[test]
fn binary_detector_test_is_valid_text_with_binary_data() {
    let buffer = [0x00, 0xFF, 0x00, 0xFF];
    assert!(!is_valid_text(&buffer));
}

#[test]
fn binary_detector_test_is_valid_text_with_non_utf8_text() {
    let buffer = vec![0xC0, 0xC1];
    assert!(!is_valid_text(&buffer));
}

#[test]
fn binary_detector_test_is_valid_text_with_empty_buffer() {
    let buffer: &[u8] = &[];
    assert!(is_valid_text(buffer));
}
