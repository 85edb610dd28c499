use std::num::IntErrorKind;
use verkle_trie::hex::{hex_to_i64, HexError};

/// What std makes of the same text.
fn by_std(text: &str) -> Result<i64, HexError> {
    match i64::from_str_radix(text.trim_start_matches("0x"), 16) {
        Ok(n) => Ok(n),
        Err(error) => match error.kind() {
            IntErrorKind::Empty => Err(HexError::Empty),
            IntErrorKind::InvalidDigit => Err(HexError::InvalidDigit),
            IntErrorKind::PosOverflow => Err(HexError::PosOverflow),
            IntErrorKind::NegOverflow => Err(HexError::NegOverflow),
            _ => panic!("an error that a radix-16 parse does not give"),
        },
    }
}

#[test]
fn hex_with_prefix() {
    assert_eq!(hex_to_i64("0x0"), Ok(0));
    assert_eq!(hex_to_i64("0x10"), Ok(16));
    assert_eq!(hex_to_i64("0xff"), Ok(255));
    assert_eq!(hex_to_i64("0x1b4"), Ok(436));
    assert_eq!(hex_to_i64("0x5f5e100"), Ok(100_000_000));
}

#[test]
fn hex_without_prefix() {
    assert_eq!(hex_to_i64("0"), Ok(0));
    assert_eq!(hex_to_i64("a"), Ok(10));
    assert_eq!(hex_to_i64("7b"), Ok(123));
    assert_eq!(hex_to_i64("deadbeef"), Ok(3_735_928_559));
}

#[test]
fn hex_in_either_case() {
    assert_eq!(hex_to_i64("0xAbCdEf"), Ok(0xabcdef));
    assert_eq!(hex_to_i64("0xABCDEF"), Ok(0xabcdef));
    assert_eq!(hex_to_i64("F"), Ok(15));
}

#[test]
fn hex_prefix_is_dropped_as_often_as_it_stands() {
    assert_eq!(hex_to_i64("0x0x10"), Ok(16));
    assert_eq!(hex_to_i64("0x0x0x1"), Ok(1));
    assert_eq!(hex_to_i64("0x0"), Ok(0));
    assert_eq!(hex_to_i64("00x1"), Err(HexError::InvalidDigit));
    assert_eq!(hex_to_i64("0X10"), Err(HexError::InvalidDigit));
}

#[test]
fn hex_with_a_sign() {
    assert_eq!(hex_to_i64("+ff"), Ok(255));
    assert_eq!(hex_to_i64("-ff"), Ok(-255));
    assert_eq!(hex_to_i64("0x-1"), Ok(-1));
    assert_eq!(hex_to_i64("0x+1"), Ok(1));
    assert_eq!(hex_to_i64("-0"), Ok(0));
    assert_eq!(hex_to_i64("-0x1"), Err(HexError::InvalidDigit));
    assert_eq!(hex_to_i64("+-1"), Err(HexError::InvalidDigit));
    assert_eq!(hex_to_i64("--1"), Err(HexError::InvalidDigit));
}

#[test]
fn hex_empty_text() {
    assert_eq!(hex_to_i64(""), Err(HexError::Empty));
    assert_eq!(hex_to_i64("0x"), Err(HexError::Empty));
    assert_eq!(hex_to_i64("0x0x"), Err(HexError::Empty));
}

#[test]
fn hex_lone_sign() {
    assert_eq!(hex_to_i64("+"), Err(HexError::InvalidDigit));
    assert_eq!(hex_to_i64("-"), Err(HexError::InvalidDigit));
    assert_eq!(hex_to_i64("0x-"), Err(HexError::InvalidDigit));
}

#[test]
fn hex_invalid_digit() {
    assert_eq!(hex_to_i64("0xg"), Err(HexError::InvalidDigit));
    assert_eq!(hex_to_i64("12 "), Err(HexError::InvalidDigit));
    assert_eq!(hex_to_i64(" 12"), Err(HexError::InvalidDigit));
    assert_eq!(hex_to_i64("0x1_000"), Err(HexError::InvalidDigit));
    assert_eq!(hex_to_i64("x10"), Err(HexError::InvalidDigit));
    assert_eq!(hex_to_i64("0x\u{e9}"), Err(HexError::InvalidDigit));
    assert_eq!(hex_to_i64("\u{ff11}"), Err(HexError::InvalidDigit));
    assert_eq!(hex_to_i64("/"), Err(HexError::InvalidDigit));
    assert_eq!(hex_to_i64(":"), Err(HexError::InvalidDigit));
    assert_eq!(hex_to_i64("@"), Err(HexError::InvalidDigit));
    assert_eq!(hex_to_i64("G"), Err(HexError::InvalidDigit));
    assert_eq!(hex_to_i64("`"), Err(HexError::InvalidDigit));
}

#[test]
fn hex_at_the_ends_of_the_range() {
    assert_eq!(hex_to_i64("0x7fffffffffffffff"), Ok(i64::MAX));
    assert_eq!(hex_to_i64("0x8000000000000000"), Err(HexError::PosOverflow));
    assert_eq!(hex_to_i64("-8000000000000000"), Ok(i64::MIN));
    assert_eq!(hex_to_i64("-8000000000000001"), Err(HexError::NegOverflow));
    assert_eq!(hex_to_i64("0xffffffffffffffff"), Err(HexError::PosOverflow));
    assert_eq!(hex_to_i64("10000000000000000"), Err(HexError::PosOverflow));
    assert_eq!(hex_to_i64("-10000000000000000"), Err(HexError::NegOverflow));
    assert_eq!(hex_to_i64("0x00000000000000000000000000000001"), Ok(1));
    assert_eq!(hex_to_i64("0000000000000007fffffffffffffff"), Ok(0x7fffffffffffffff));
}

#[test]
fn hex_first_fault_from_the_left_decides() {
    assert_eq!(hex_to_i64("8000000000000000g"), Err(HexError::PosOverflow));
    assert_eq!(hex_to_i64("800000000000000g"), Err(HexError::InvalidDigit));
    assert_eq!(hex_to_i64("g8000000000000000"), Err(HexError::InvalidDigit));
    assert_eq!(hex_to_i64("-8000000000000001g"), Err(HexError::NegOverflow));
    assert_eq!(hex_to_i64("7fffffffffffffffg"), Err(HexError::InvalidDigit));
}

#[test]
fn hex_agrees_with_std() {
    let samples = [
        "", "0", "0x", "0x0", "0x0x", "+", "-", "+0", "-0", "1", "f", "F", "g", "G", "0x1f", "0X1f",
        "0x0x7", "00x7", "x", "0", "0x-7f", "-0x7f", "+7f", "++7", "7+", "7-", " 7", "7 ", "7fffffffffffffff",
        "8000000000000000", "-8000000000000000", "-8000000000000001", "ffffffffffffffff",
        "fffffffffffffffff", "-fffffffffffffffff", "00000000000000000000ff", "-00000000000000000000ff",
        "123456789abcdef", "123456789ABCDEF0", "0x123456789abcdef01", "7fffffffffffffffz",
        "80000000000000000z", "z80000000000000000", "\u{e9}", "1\u{e9}", "0x\u{1f600}", "12\n", "0x12ab34",
        "-", "0x+", "0x0x0x0x", "0x0x0x0xa", "0xx", "0x0", "00", "0x00", "a0x",
    ];
    for text in samples.iter() {
        assert_eq!(hex_to_i64(text), by_std(text), "on {:?}", text);
    }
}

#[test]
fn hex_agrees_with_std_on_every_pair_of_bytes() {
    let alphabet = "0123456789abcdefABCDEFgGxX+-/:@` ";
    for first in alphabet.chars() {
        for second in alphabet.chars() {
            for third in alphabet.chars() {
                let text = format!("{}{}{}", first, second, third);
                assert_eq!(hex_to_i64(&text), by_std(&text), "on {:?}", text);
            }
        }
    }
}

#[test]
fn hex_error_values_can_be_told_apart() {
    assert_ne!(HexError::Empty, HexError::InvalidDigit);
    assert_ne!(HexError::PosOverflow, HexError::NegOverflow);
    let copy = HexError::Empty;
    assert_eq!(copy.clone(), HexError::Empty);
    assert_eq!(format!("{:?}", HexError::NegOverflow), "NegOverflow");
}
