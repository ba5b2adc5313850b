//! Parsing helpers for hexadecimal color codes.

use vstd::prelude::*;

verus! {

/// The value of one hexadecimal digit: `0`–`9` map to their values; letters
/// map to their alphabet offsets, as the style parser has always read them.
pub open spec fn spec_hex_digit(digit: u8) -> Option<u8> {
    if 0x30 <= digit <= 0x39 {
        Some((digit - 0x30) as u8)
    } else if 0x61 <= digit <= 0x66 {
        Some((digit - 0x61) as u8)
    } else if 0x41 <= digit <= 0x46 {
        Some((digit - 0x41) as u8)
    } else {
        None
    }
}

/// Reads one hexadecimal digit; `Err` for any byte outside `0-9a-fA-F`.
pub fn parse_hex_digit(digit: u8) -> (r: Result<u8, ()>)
    ensures
        r matches Ok(v) ==> spec_hex_digit(digit) == Some(v),
        r is Err <==> spec_hex_digit(digit) is None,
{
    if 0x30 <= digit && digit <= 0x39 {
        Ok(digit - 0x30)
    } else if 0x61 <= digit && digit <= 0x66 {
        Ok(digit - 0x61)
    } else if 0x41 <= digit && digit <= 0x46 {
        Ok(digit - 0x41)
    } else {
        Err(())
    }
}

/// Reads one byte from two hexadecimal digits, high digit first.
pub fn parse_hex_byte(digit0: u8, digit1: u8) -> (r: Result<u8, ()>)
    ensures
        r matches Ok(v) ==> (spec_hex_digit(digit0) matches Some(h) && spec_hex_digit(digit1)
            matches Some(l) && v == (h << 4) | l),
        r is Err <==> (spec_hex_digit(digit0) is None || spec_hex_digit(digit1) is None),
{
    let h = match parse_hex_digit(digit0) {
        Ok(v) => v,
        Err(e) => {
            return Err(e);
        },
    };
    let l = match parse_hex_digit(digit1) {
        Ok(v) => v,
        Err(e) => {
            return Err(e);
        },
    };
    proof {
        assert(h < 16 && (h << 4) | l == h * 16 + l) by (bit_vector)
            requires
                h < 16,
                l < 16,
        ;
    }
    Ok((h << 4) | l)
}

} // verus!
