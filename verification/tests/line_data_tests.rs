use std::sync::Arc;

use diff_core::line_data::{is_whitespace_char, lines_valid, parse_lines, LineData};
use diff_core::source_data::{detect_and_decode, SourceData};

#[test]
fn parse_splits_at_newlines() {
    let lines = parse_lines(Arc::new("ab\ncde\n\nf".to_string()));
    let texts: Vec<&str> = lines.iter().map(|l| l.get_line()).collect();
    assert_eq!(texts, vec!["ab", "cde", "", "f"]);
    let sizes: Vec<usize> = lines.iter().map(|l| l.size()).collect();
    assert_eq!(sizes, vec![2, 3, 0, 1]);
}

#[test]
fn parse_trailing_newline_gives_empty_last_line() {
    let lines = parse_lines(Arc::new("x\n".to_string()));
    assert_eq!(lines.len(), 2);
    assert_eq!(lines[0].get_line(), "x");
    assert_eq!(lines[1].get_line(), "");
}

#[test]
fn parse_empty_text_gives_one_empty_line() {
    let lines = parse_lines(Arc::new(String::new()));
    assert_eq!(lines.len(), 1);
    assert_eq!(lines[0].get_line(), "");
    assert!(lines_valid(&lines));
}

#[test]
fn parse_counts_leading_whitespace() {
    let lines = parse_lines(Arc::new("  \tx\ny\n\u{3000}z".to_string()));
    assert_eq!(lines[0].first_non_white(), 3);
    assert_eq!(lines[1].first_non_white(), 0);
    assert_eq!(lines[2].first_non_white(), 1);
    assert!(!lines[0].is_white_line());
    assert!(lines[1].is_white_line());
    assert!(!lines[0].is_pure_comment());
    assert!(!lines[0].is_skipable());
}

#[test]
fn parse_multibyte_lines() {
    let lines = parse_lines(Arc::new("가나\n다".to_string()));
    assert_eq!(lines[0].get_line(), "가나");
    assert_eq!(lines[0].size(), 6);
    assert_eq!(lines[1].get_line(), "다");
}

#[test]
fn visual_width_with_tabs() {
    let lines = parse_lines(Arc::new("a\tb\n\t\tc\nabcd".to_string()));
    assert_eq!(lines[0].visual_width(4), 5);
    assert_eq!(lines[1].visual_width(4), 9);
    assert_eq!(lines[2].visual_width(4), 4);
    assert_eq!(lines[0].visual_width(8), 9);
}

#[test]
fn visual_width_counts_characters_not_bytes() {
    let lines = parse_lines(Arc::new("한글".to_string()));
    assert_eq!(lines[0].visual_width(4), 2);
}

#[test]
fn line_data_new_keeps_fields() {
    let buf = Arc::new("hello world".to_string());
    let l = LineData::new(Arc::clone(&buf), 6, 5, 0, true, true);
    assert!(l.is_valid());
    assert_eq!(l.get_line(), "world");
    assert_eq!(l.size(), 5);
    assert!(l.is_pure_comment());
    assert!(l.is_skipable());
}

#[test]
fn line_data_out_of_range_is_invalid() {
    let buf = Arc::new("héllo".to_string());
    assert!(!LineData::new(Arc::clone(&buf), 4, 5, 0, false, false).is_valid());
    assert!(!LineData::new(Arc::clone(&buf), 2, 1, 0, false, false).is_valid());
    assert!(!LineData::new(Arc::clone(&buf), usize::MAX, 2, 0, false, false).is_valid());
    assert!(LineData::new(Arc::clone(&buf), 1, 2, 0, false, false).is_valid());
    let bad = vec![LineData::new(buf, 9, 1, 0, false, false)];
    assert!(!lines_valid(&bad));
}

#[test]
fn whitespace_characters() {
    assert!(is_whitespace_char(' '));
    assert!(is_whitespace_char('\t'));
    assert!(is_whitespace_char('\u{00a0}'));
    assert!(is_whitespace_char('\u{3000}'));
    assert!(!is_whitespace_char('x'));
    assert!(!is_whitespace_char('\u{200b}'));
}

#[test]
fn source_from_str() {
    let s = SourceData::from_str("mem", "one\ntwo");
    assert_eq!(s.path, "mem");
    assert_eq!(s.encoding, "UTF-8");
    assert_eq!(s.line_count(), 2);
    assert_eq!(s.lines[1].get_line(), "two");
    assert_eq!(s.content.as_str(), "one\ntwo");
}

#[test]
fn decode_plain_utf8() {
    let (enc, text) = detect_and_decode("héllo".as_bytes());
    assert_eq!(enc, "UTF-8");
    assert_eq!(text, "héllo");
}

#[test]
fn decode_utf8_with_bom() {
    let (enc, text) = detect_and_decode(&[0xEF, 0xBB, 0xBF, b'h', b'i']);
    assert_eq!(enc, "UTF-8");
    assert_eq!(text, "hi");
}

#[test]
fn decode_utf8_bom_with_invalid_rest_is_lossy() {
    let (enc, text) = detect_and_decode(&[0xEF, 0xBB, 0xBF, b'a', 0xFF, b'b']);
    assert_eq!(enc, "UTF-8");
    assert_eq!(text, "a\u{FFFD}b");
}

#[test]
fn decode_utf16le() {
    let (enc, text) = detect_and_decode(&[0xFF, 0xFE, b'h', 0, b'i', 0]);
    assert_eq!(enc, "UTF-16LE");
    assert_eq!(text, "hi");
}

#[test]
fn decode_utf16be() {
    let (enc, text) = detect_and_decode(&[0xFE, 0xFF, 0, b'o', 0, b'k']);
    assert_eq!(enc, "UTF-16BE");
    assert_eq!(text, "ok");
}

#[test]
fn decode_invalid_utf8_as_windows1252() {
    let (enc, text) = detect_and_decode(&[b'c', b'a', b'f', 0xE9, 0x80]);
    assert_eq!(enc, "Windows-1252");
    assert_eq!(text, "café€");
}

#[test]
fn source_from_raw_decodes_and_splits() {
    let s = SourceData::from_raw("f.txt", &[0xFF, 0xFE, b'a', 0, b'\n', 0, b'b', 0]);
    assert_eq!(s.path, "f.txt");
    assert_eq!(s.encoding, "UTF-16LE");
    assert_eq!(s.line_count(), 2);
    assert_eq!(s.lines[0].get_line(), "a");
    assert_eq!(s.lines[1].get_line(), "b");
    assert!(lines_valid(&s.lines));
}

#[test]
fn decode_detection_examples() {
    assert_eq!(detect_and_decode(&[0xEF, 0xBB, 0xBF, b'a']), ("UTF-8", "a".to_string()));
    assert_eq!(detect_and_decode(b"abc"), ("UTF-8", "abc".to_string()));
    assert_eq!(detect_and_decode(&[0x41, 0xE9]), ("Windows-1252", "Aé".to_string()));
    assert_eq!(detect_and_decode(&[0xFF, 0xFE, 0x61, 0x00]), ("UTF-16LE", "a".to_string()));
}

#[test]
fn decode_utf16_beyond_ascii() {
    let (enc, text) = detect_and_decode(&[0xFE, 0xFF, 0xAC, 0x00, 0x00, 0x41]);
    assert_eq!(enc, "UTF-16BE");
    assert_eq!(text, "가A");
    let (enc, text) = detect_and_decode(&[0xFF, 0xFE, 0x00, 0xAC]);
    assert_eq!(enc, "UTF-16LE");
    assert_eq!(text, "가");
}

#[test]
fn lines_rejoin_to_the_text() {
    for text in ["", "a", "a\n", "\n\nx", "가\n나다\n\n라"] {
        let lines = parse_lines(Arc::new(text.to_string()));
        let parts: Vec<&str> = lines.iter().map(|l| l.get_line()).collect();
        assert_eq!(parts.join("\n"), text);
    }
}

#[test]
fn line_count_is_newlines_plus_one() {
    assert_eq!(SourceData::from_str("x", "").line_count(), 1);
    assert_eq!(SourceData::from_str("x", "a\nb\n").line_count(), 3);
    assert_eq!(SourceData::from_str("x", "가\n\n나").line_count(), 3);
    for text in ["", "\n", "one", "a\r\nb", "\n\n\n"] {
        let n = parse_lines(Arc::new(text.to_string())).len();
        assert_eq!(n, text.matches('\n').count() + 1);
    }
}

#[test]
fn decode_windows1252_high_table() {
    let (enc, text) = detect_and_decode(&[0x80, 0x8A, 0x81, 0x9F, 0xFF]);
    assert_eq!(enc, "Windows-1252");
    assert_eq!(text, "€Š\u{81}Ÿÿ");
}
