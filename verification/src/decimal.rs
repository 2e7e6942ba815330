//! Unsigned 32-bit numbers in decimal, read and written as the standard
//! library reads and writes them.

use crate::bindings::char_to_string;
use vstd::prelude::*;
use vstd::string::StringExecFns;
use vstd::utf8::encode_utf8;

verus! {

/// Whether `bytes` are decimal digits in ASCII, one at least.
pub open spec fn all_digits(bytes: Seq<u8>) -> bool {
    bytes.len() > 0 && forall|i: int| 0 <= i < bytes.len() ==> 0x30 <= #[trigger] bytes[i] <= 0x39
}

/// The number that the decimal digits `bytes` spell.
pub open spec fn digits_value(bytes: Seq<u8>) -> nat
    decreases bytes.len(),
{
    if bytes.len() == 0 {
        0
    } else {
        digits_value(bytes.drop_last()) * 10 + (bytes.last() - 0x30) as nat
    }
}

/// The number that `bytes` spell: an optional plus sign, then decimal
/// digits, one at least, of a number that fits 32 bits. `None` for
/// anything else.
pub open spec fn decimal_u32(bytes: Seq<u8>) -> Option<u32> {
    let digits = if bytes.len() > 0 && bytes[0] == 0x2b {
        bytes.drop_first()
    } else {
        bytes
    };
    if all_digits(digits) && digits_value(digits) <= u32::MAX {
        Some(digits_value(digits) as u32)
    } else {
        None
    }
}

/// The decimal digits of `number`, without leading zeros.
pub open spec fn decimal_digits(number: nat) -> Seq<char>
    decreases number,
{
    if number < 10 {
        seq![(0x30 + number) as char]
    } else {
        decimal_digits(number / 10).push((0x30 + number % 10) as char)
    }
}

/// Reads a number as `str::parse::<u32>` does.
pub fn parse_u32(text: &str) -> (number: Option<u32>)
    ensures
        number == decimal_u32(encode_utf8(text@)),
{
    let bytes = text.as_bytes();
    let len = bytes.len();
    let start: usize = if len > 0 && bytes[0] == 0x2b {
        1
    } else {
        0
    };
    let ghost digits = bytes@.subrange(start as int, len as int);
    proof {
        if start == 1 {
            assert(digits =~= bytes@.drop_first());
        } else {
            assert(digits =~= bytes@);
        }
    }
    if start == len {
        return None;
    }
    let mut value: u64 = 0;
    let mut overflow = false;
    let mut i: usize = start;
    proof {
        assert(digits.subrange(0, 0) =~= Seq::<u8>::empty());
    }
    while i < len
        invariant
            start <= i <= len,
            len == bytes@.len(),
            digits == bytes@.subrange(start as int, len as int),
            digits.len() > 0,
            decimal_u32(encode_utf8(text@)) == (if all_digits(digits) && digits_value(digits)
                <= u32::MAX {
                Some(digits_value(digits) as u32)
            } else {
                None
            }),
            forall|j: int| 0 <= j < i - start ==> 0x30 <= #[trigger] digits[j] <= 0x39,
            overflow ==> digits_value(digits.subrange(0, i - start)) > u32::MAX,
            !overflow ==> value == digits_value(digits.subrange(0, i - start)) && value
                <= u32::MAX,
        decreases len - i,
    {
        let byte = bytes[i];
        if byte < 0x30 || byte > 0x39 {
            assert(!(0x30 <= digits[i - start] <= 0x39));
            return None;
        }
        proof {
            let next = digits.subrange(0, i - start + 1);
            assert(next.drop_last() =~= digits.subrange(0, i - start));
            assert(next.last() == byte);
        }
        if !overflow {
            value = value * 10 + (byte - 0x30) as u64;
            if value > u32::MAX as u64 {
                overflow = true;
            }
        }
        i = i + 1;
    }
    proof {
        assert(digits.subrange(0, len - start) =~= digits);
    }
    if overflow {
        None
    } else {
        Some(value as u32)
    }
}

/// Writes a number as `u32::to_string` does: in decimal, without leading
/// zeros.
pub fn u32_to_string(number: u32) -> (text: String)
    ensures
        text@ == decimal_digits(number as nat),
    decreases number,
{
    let last = char_to_string((0x30u8 + (number % 10) as u8) as char);
    if number < 10 {
        last
    } else {
        let mut text = u32_to_string(number / 10);
        text.append(last.as_str());
        proof {
            assert(text@ =~= decimal_digits((number / 10) as nat).push(
                (0x30 + number % 10) as char,
            ));
        }
        text
    }
}

} // verus!
