//! Texts and numbers in them.

use rodent_logger::frame::write_timestamp;
use rodent_logger::rank::comes_before;
use rodent_logger::text::{
    lower, push_decimal, push_hex_byte, push_left_aligned, push_right_aligned, push_signed,
    push_with_sign, push_zero_padded, same_text, trim,
};

#[test]
fn numbers_are_written_as_std_writes_them() {
    for n in [0u64, 7, 10, 99, 100, 12345, u32::MAX as u64, u64::MAX] {
        let mut out = String::from("n=");
        push_decimal(&mut out, n);
        assert_eq!(out, format!("n={}", n));
        let mut out = String::new();
        push_right_aligned(&mut out, n, 4);
        assert_eq!(out, format!("{:>4}", n));
    }
    for n in [0i64, 1, -1, 42, -123456, 999999, 1000000, i64::MAX, i64::MIN] {
        let mut out = String::new();
        push_signed(&mut out, n);
        assert_eq!(out, format!("{}", n));
        let mut out = String::new();
        push_with_sign(&mut out, n);
        assert_eq!(out, format!("{:+}", n));
        let mut out = String::new();
        push_zero_padded(&mut out, n, 6);
        assert_eq!(out, format!("{:06}", n));
    }
}

#[test]
fn texts_are_filled_up_as_std_fills_them() {
    for s in ["", "Smith", "Árvore 🐉", "longer than ten"] {
        let mut out = String::from("|");
        push_left_aligned(&mut out, s, 10);
        assert_eq!(out, format!("|{:<10}", s));
    }
}

#[test]
fn bytes_are_written_in_two_digits() {
    for b in [0u8, 9, 10, 15, 16, 0x9f, 0xff] {
        let mut out = String::new();
        push_hex_byte(&mut out, b);
        assert_eq!(out, format!("{:02x}", b));
    }
}

#[test]
fn white_space_is_taken_off_the_ends() {
    for s in ["", "   ", "a", " a b ", "\t\u{a0}x\u{3000}\r\n", "\u{200b}y"] {
        assert_eq!(trim(s), s.trim());
    }
}

#[test]
fn case_is_lowered_as_std_lowers_it() {
    for s in ["Death", "KILL", "ÀÉ", "ΑΣ", "İ", "\u{212a}ILL", "a1[`{"] {
        assert_eq!(lower(s), s.to_lowercase());
    }
}

#[test]
fn texts_are_the_same_or_not() {
    assert!(same_text("", ""));
    assert!(same_text("Árvore", "Árvore"));
    assert!(!same_text("kill", "Kill"));
    assert!(!same_text("kill", "kills"));
}

#[test]
fn texts_are_ordered_as_std_orders_them() {
    let texts = ["", "A", "AB", "Ab", "a", "b", "É", "漢", "🐉", "\u{ffff}"];
    for a in texts {
        for b in texts {
            assert_eq!(comes_before(a, b), a < b, "{} {}", a, b);
        }
    }
}

#[test]
fn times_have_six_digits_of_microseconds() {
    assert_eq!(write_timestamp(1720456789, 123456), "1720456789.123456");
    assert_eq!(write_timestamp(1720456789, 42), "1720456789.000042");
    assert_eq!(write_timestamp(0, 0), "0.000000");
}
