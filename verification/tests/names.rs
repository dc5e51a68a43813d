//! Names in packets.

use rodent_logger::names::{
    contains_bytes, find_all_bdo_strings, find_bdo_string_in_range, find_offset, read_bdo_string,
    utf16le_bytes, utf16le_bytes_with_null,
};
use rodent_logger::utf16::{decode_units, encode_units};

fn write_name(payload: &mut [u8], offset: usize, name: &str) {
    let bytes = utf16le_bytes_with_null(name);
    payload[offset..offset + bytes.len()].copy_from_slice(&bytes);
}

#[test]
fn finds_utf16_names_with_spaces_and_unicode() {
    let mut payload = vec![0xAA, 0xBB, 0xCC];
    let expected = "Guild Árvore";
    for code_unit in expected.encode_utf16() {
        payload.extend_from_slice(&code_unit.to_le_bytes());
    }
    payload.extend_from_slice(&[0, 0]);

    assert_eq!(
        find_all_bdo_strings(&payload),
        vec![(expected.to_string(), 3)]
    );
}

#[test]
fn a_written_name_reads_back() {
    for name in ["", "A", "Smith", "Guild Árvore", "dragon 🐉 rider", "0123456789012345678901234567890"] {
        let mut payload = vec![0x41; 100];
        write_name(&mut payload, 7, name);
        assert_eq!(read_bdo_string(&payload, 7), name);
    }
}

#[test]
fn a_field_ends_after_thirty_one_code_units() {
    let long = "abcdefghijklmnopqrstuvwxyzabcdefghijklmnop";
    let mut payload = vec![0xFF; 120];
    write_name(&mut payload, 0, long);
    assert_eq!(read_bdo_string(&payload, 0), &long[..31]);
}

#[test]
fn a_field_past_the_end_is_empty() {
    assert_eq!(read_bdo_string(&[], 0), "");
    assert_eq!(read_bdo_string(&[0x41, 0x00, 0x42], 2), "");
    assert_eq!(read_bdo_string(&[0x41, 0x00, 0x42], 0), "A");
    assert_eq!(read_bdo_string(&[0x41, 0x00], 1000), "");
}

#[test]
fn an_unpaired_surrogate_reads_as_a_replacement() {
    assert_eq!(read_bdo_string(&[0x41, 0x00, 0x00, 0xD8, 0x42, 0x00, 0, 0], 0), "A\u{fffd}B");
}

#[test]
fn names_are_three_to_thirty_code_units() {
    let thirty = "abcdefghijklmnopqrstuvwxyz0123";
    for (name, found) in [("ab", false), ("abc", true), (thirty, true)] {
        let mut payload = vec![0xFF; 120];
        write_name(&mut payload, 10, name);
        let expected = if found { vec![(name.to_string(), 10)] } else { vec![] };
        assert_eq!(find_all_bdo_strings(&payload), expected);
    }
}

#[test]
fn a_name_without_terminator_is_not_found() {
    let mut payload = vec![0xFF; 3];
    payload.extend_from_slice(&utf16le_bytes("Smith"));
    assert_eq!(find_all_bdo_strings(&payload), vec![]);
}

#[test]
fn a_name_with_a_control_code_is_not_found_whole() {
    let mut payload = vec![0xFF; 4];
    payload.extend_from_slice(&utf16le_bytes_with_null("ab\u{7}cde"));
    assert_eq!(find_all_bdo_strings(&payload), vec![("cde".to_string(), 10)]);
}

#[test]
fn names_come_in_the_order_of_their_offsets() {
    let mut payload = vec![0xFF; 300];
    write_name(&mut payload, 200, "Third");
    write_name(&mut payload, 21, "First");
    write_name(&mut payload, 90, "Second");
    assert_eq!(
        find_all_bdo_strings(&payload),
        vec![("First".to_string(), 21), ("Second".to_string(), 90), ("Third".to_string(), 200)]
    );
}

#[test]
fn finds_bytes_at_their_first_place() {
    assert_eq!(find_offset(b"abcabc", b"bc"), Some(1));
    assert_eq!(find_offset(b"abcabc", b"cb"), None);
    assert_eq!(find_offset(b"abc", b"abcd"), None);
    assert_eq!(find_offset(b"abc", b"abc"), Some(0));
    assert!(contains_bytes(b"abcabc", b"ca"));
    assert!(!contains_bytes(b"", b"a"));
}

#[test]
fn names_are_written_low_byte_first() {
    assert_eq!(utf16le_bytes("Aé"), vec![0x41, 0x00, 0xE9, 0x00]);
    assert_eq!(utf16le_bytes_with_null("Aé"), vec![0x41, 0x00, 0xE9, 0x00, 0, 0]);
    assert_eq!(utf16le_bytes("🐉"), vec![0x3D, 0xD8, 0x09, 0xDC]);
}

#[test]
fn utf16_agrees_with_std() {
    for text in ["", "plain", "Ünïcödé", "漢字", "🐉🐲 mixed ✓", "\u{10FFFF}\u{FFFF}\u{10000}"] {
        let units: Vec<u16> = text.encode_utf16().collect();
        assert_eq!(encode_units(text), units);
        assert_eq!(decode_units(&units), text);
    }
    for units in [
        vec![0xD800u16],
        vec![0xDC00],
        vec![0xD800, 0xD800, 0xDC00],
        vec![0x41, 0xDC00, 0xD83D, 0xDC09, 0xD83D],
        vec![0xD83D, 0x41],
    ] {
        assert_eq!(decode_units(&units), String::from_utf16_lossy(&units));
    }
}

#[test]
fn finds_plain_text_in_a_range() {
    let mut payload = vec![0xFF; 120];
    write_name(&mut payload, 11, "Guild-1 ok");
    assert_eq!(find_bdo_string_in_range(&payload, 0, 100), ("Guild-1 ok".to_string(), 11));
    assert_eq!(find_bdo_string_in_range(&payload, 12, 12), (String::new(), 0));
    assert_eq!(find_bdo_string_in_range(&payload, 13, 100), ("uild-1 ok".to_string(), 13));
    assert_eq!(find_bdo_string_in_range(&payload, 50, 10), (String::new(), 0));
}

#[test]
fn plain_text_holds_letters_of_any_script() {
    let mut payload = vec![0xFF; 120];
    write_name(&mut payload, 5, "Árvore\u{a0}漢字");
    assert_eq!(find_bdo_string_in_range(&payload, 0, 60), ("rvore\u{a0}漢字".to_string(), 7));
}

#[test]
fn plain_text_holds_no_symbols() {
    let mut payload = vec![0xFF; 120];
    write_name(&mut payload, 0, "ab→cd efg");
    assert_eq!(find_bdo_string_in_range(&payload, 0, 60), ("cd efg".to_string(), 6));
}
