use mf4_rs::byte_ranges::{fragment_reader, ranges_to_byte_ranges, ByteRange};
use mf4_rs::error::MdfError;
use mf4_rs::fragments::ByteRangeReader;
use mf4_rs::merge::{vlsd_payload_to_value, VlsdValue};
use mf4_rs::text::{latin1_chars, trim_trailing_nuls, utf16_chars, utf8_chars};
use mf4_rs::types::DataType;

fn text(v: VlsdValue) -> String {
    match v {
        VlsdValue::String(s) => s,
        other => panic!("expected text, got {:?}", other),
    }
}

#[test]
fn utf8_payload_is_trimmed() {
    assert_eq!(text(vlsd_payload_to_value(b"h\xC3\xA9llo\0\0", &DataType::StringUtf8)), "h\u{e9}llo");
    assert_eq!(text(vlsd_payload_to_value(&[0xFF, 0xFE], &DataType::StringUtf8)), "<Invalid UTF8>");
}

#[test]
fn latin1_payload() {
    assert_eq!(text(vlsd_payload_to_value(&[0x41, 0xE9, 0x00], &DataType::StringLatin1)), "A\u{e9}");
}

#[test]
fn utf16_payloads() {
    let le: Vec<u8> = "ab\u{1F600}\0".encode_utf16().flat_map(|u| u.to_le_bytes()).collect();
    assert_eq!(text(vlsd_payload_to_value(&le, &DataType::StringUtf16LE)), "ab\u{1F600}");
    let be: Vec<u8> = "xy".encode_utf16().flat_map(|u| u.to_be_bytes()).collect();
    assert_eq!(text(vlsd_payload_to_value(&be, &DataType::StringUtf16BE)), "xy");
    assert_eq!(text(vlsd_payload_to_value(&[0x41], &DataType::StringUtf16LE)), "<Invalid UTF16LE>");
    assert_eq!(text(vlsd_payload_to_value(&[0x00, 0xD8], &DataType::StringUtf16LE)), "<Invalid UTF16LE>");
    assert_eq!(text(vlsd_payload_to_value(&[0xDC, 0x00, 0x00, 0x41], &DataType::StringUtf16BE)), "<Invalid UTF16BE>");
}

#[test]
fn byte_payloads() {
    assert_eq!(vlsd_payload_to_value(&[1, 2], &DataType::MimeSample), VlsdValue::MimeSample(vec![1, 2]));
    assert_eq!(vlsd_payload_to_value(&[3], &DataType::MimeStream), VlsdValue::MimeStream(vec![3]));
    assert_eq!(vlsd_payload_to_value(&[0, 0], &DataType::UnsignedIntegerLE), VlsdValue::ByteArray(vec![0, 0]));
}

#[test]
fn text_helpers() {
    assert_eq!(utf8_chars(b"ok"), Some(vec!['o', 'k']));
    assert_eq!(utf8_chars(&[0xC0]), None);
    assert_eq!(utf16_chars(&[0xD83D, 0xDE00]), Some(vec!['\u{1F600}']));
    assert_eq!(utf16_chars(&[0xDE00]), None);
    assert_eq!(latin1_chars(&[0xFF]), vec!['\u{ff}']);
    let mut c = vec!['a', '\0', 'b', '\0', '\0'];
    trim_trailing_nuls(&mut c);
    assert_eq!(c, vec!['a', '\0', 'b']);
}

#[test]
fn byte_range_conversion_and_fragment_reader() {
    assert_eq!(
        ranges_to_byte_ranges(vec![(1, 2), (5, 0)]),
        vec![ByteRange { offset: 1, length: 2 }, ByteRange { offset: 5, length: 0 }]
    );
    let ranges = vec![ByteRange { offset: 10, length: 3 }, ByteRange { offset: 0, length: 2 }];
    let mut reader = fragment_reader(&ranges, vec![vec![7, 8, 9], vec![1, 2]]).unwrap();
    assert_eq!(reader.read_range(11, 2).unwrap(), vec![8, 9]);
    assert_eq!(reader.read_range(0, 2).unwrap(), vec![1, 2]);
    assert!(matches!(
        fragment_reader(&ranges, vec![vec![1]]),
        Err(MdfError::ParallelListsMismatch { ranges: 2, fragments: 1 })
    ));
}
