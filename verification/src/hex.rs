//! Reading a hexadecimal quantity, as a JSON-RPC node writes block numbers
//! and gas counts.

use vstd::prelude::*;
use vstd::string::StringSliceAdditionalSpecFns;

verus! {

/// Why a text is no hexadecimal number that fits 64 signed bits.
#[derive(Clone, Copy, Debug, PartialEq, Eq, Structural)]
pub enum HexError {
    /// Nothing is left once the prefix is gone.
    Empty,
    /// A byte is no hexadecimal digit, or a sign stands alone.
    InvalidDigit,
    /// The number is above `i64::MAX`.
    PosOverflow,
    /// The number is below `i64::MIN`.
    NegOverflow,
}

/// The text without any `0x` at its start, however often it is repeated.
pub open spec fn without_prefix(text: Seq<u8>) -> Seq<u8>
    decreases text.len(),
{
    if text.len() >= 2 && text[0] == 0x30 && text[1] == 0x78 {
        without_prefix(text.skip(2))
    } else {
        text
    }
}

/// The value of a hexadecimal digit, in either case.
pub open spec fn digit_value(byte: u8) -> Option<int> {
    if 0x30 <= byte <= 0x39 {
        Some(byte - 0x30)
    } else if 0x61 <= byte <= 0x66 {
        Some(byte - 0x61 + 10)
    } else if 0x41 <= byte <= 0x46 {
        Some(byte - 0x41 + 10)
    } else {
        None
    }
}

/// The number that `digits` spell, read from the left and negated if
/// `negative`; the first digit that is none, or at which the number leaves
/// the range of `i64`, decides the error.
pub open spec fn digits_value(digits: Seq<u8>, negative: bool) -> Result<int, HexError>
    decreases digits.len(),
{
    if digits.len() == 0 {
        Ok(0)
    } else {
        match digits_value(digits.drop_last(), negative) {
            Err(error) => Err(error),
            Ok(above) => match digit_value(digits.last()) {
                None => Err(HexError::InvalidDigit),
                Some(digit) => {
                    let value = if negative {
                        above * 16 - digit
                    } else {
                        above * 16 + digit
                    };
                    if value > i64::MAX {
                        Err(HexError::PosOverflow)
                    } else if value < i64::MIN {
                        Err(HexError::NegOverflow)
                    } else {
                        Ok(value)
                    }
                },
            },
        }
    }
}

/// The number that a text without prefix spells: an optional sign, then at
/// least one hexadecimal digit.
pub open spec fn signed_value(text: Seq<u8>) -> Result<int, HexError> {
    if text.len() == 0 {
        Err(HexError::Empty)
    } else if text[0] == 0x2b || text[0] == 0x2d {
        if text.len() == 1 {
            Err(HexError::InvalidDigit)
        } else {
            digits_value(text.skip(1), text[0] == 0x2d)
        }
    } else {
        digits_value(text, false)
    }
}

/// The number that a hexadecimal text spells, with or without `0x` in front.
pub open spec fn hex_value(text: Seq<u8>) -> Result<int, HexError> {
    signed_value(without_prefix(text))
}

/// The value of the digit `byte`, if it is one.
fn digit_of(byte: u8) -> (digit: Option<u8>)
    ensures
        match digit {
            Some(d) => digit_value(byte) == Some(d as int) && d < 16,
            None => digit_value(byte) is None,
        },
{
    if 0x30 <= byte && byte <= 0x39 {
        Some(byte - 0x30)
    } else if 0x61 <= byte && byte <= 0x66 {
        Some(byte - 0x61 + 10)
    } else if 0x41 <= byte && byte <= 0x46 {
        Some(byte - 0x41 + 10)
    } else {
        None
    }
}

/// Reads `hex` as a hexadecimal number: any `0x` at its start is dropped,
/// then an optional sign and at least one digit must follow.
pub fn hex_to_i64(hex: &str) -> (number: Result<i64, HexError>)
    ensures
        match number {
            Ok(n) => hex_value(hex.spec_bytes()) == Ok::<int, HexError>(n as int),
            Err(error) => hex_value(hex.spec_bytes()) == Err::<int, HexError>(error),
        },
{
    let bytes = hex.as_bytes();
    let length = bytes.len();
    let mut start: usize = 0;
    proof {
        assert(bytes@.skip(0) =~= bytes@);
    }
    while length - start >= 2 && bytes[start] == 0x30 && bytes[start + 1] == 0x78
        invariant
            length == bytes@.len(),
            start <= length,
            without_prefix(bytes@) == without_prefix(bytes@.skip(start as int)),
        decreases length - start,
    {
        proof {
            assert(bytes@.skip(start as int).skip(2) =~= bytes@.skip(start as int + 2));
        }
        start += 2;
    }
    let ghost text = bytes@.skip(start as int);
    if start == length {
        return Err(HexError::Empty);
    }
    let negative = bytes[start] == 0x2d;
    let signed = negative || bytes[start] == 0x2b;
    let first = if signed {
        start + 1
    } else {
        start
    };
    if signed && first == length {
        return Err(HexError::InvalidDigit);
    }
    let ghost digits = bytes@.skip(first as int);
    proof {
        if signed {
            assert(text.skip(1) =~= digits);
        }
    }
    let mut value: i64 = 0;
    let mut at = first;
    while at < length
        invariant
            length == bytes@.len(),
            first <= at <= length,
            digits == bytes@.skip(first as int),
            hex_value(hex.spec_bytes()) == digits_value(digits, negative),
            digits_value(digits.take(at - first), negative) == Ok::<int, HexError>(value as int),
        decreases length - at,
    {
        proof {
            assert(digits.take(at - first + 1).drop_last() =~= digits.take(at - first));
        }
        let digit = match digit_of(bytes[at]) {
            Some(d) => d,
            None => {
                proof {
                    lemma_error_stays(digits, at - first + 1, negative);
                }
                return Err(HexError::InvalidDigit);
            },
        };
        let wide: i128 = if negative {
            (value as i128) * 16 - (digit as i128)
        } else {
            (value as i128) * 16 + (digit as i128)
        };
        if wide > i64::MAX as i128 {
            proof {
                lemma_error_stays(digits, at - first + 1, negative);
            }
            return Err(HexError::PosOverflow);
        }
        if wide < i64::MIN as i128 {
            proof {
                lemma_error_stays(digits, at - first + 1, negative);
            }
            return Err(HexError::NegOverflow);
        }
        value = wide as i64;
        at += 1;
    }
    proof {
        assert(digits.take(length - first) =~= digits);
    }
    Ok(value)
}

/// Once a prefix of the digits is in error, the whole is in the same error.
proof fn lemma_error_stays(digits: Seq<u8>, count: int, negative: bool)
    requires
        0 <= count <= digits.len(),
        digits_value(digits.take(count), negative) is Err,
    ensures
        digits_value(digits, negative) == digits_value(digits.take(count), negative),
    decreases digits.len() - count,
{
    if count < digits.len() {
        assert(digits.take(count + 1).drop_last() =~= digits.take(count));
        lemma_error_stays(digits, count + 1, negative);
    } else {
        assert(digits.take(count) =~= digits);
    }
}

} // verus!
