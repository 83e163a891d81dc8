//! The raster's base color.

use vstd::prelude::*;
use crate::PcError;

verus! {

/// An opaque color constant: the red, green and blue channels every pixel
/// of the raster carries.
#[derive(Clone, Copy, Debug, PartialEq, Eq, Structural)]
pub struct RGB {
    pub r: u8,
    pub g: u8,
    pub b: u8,
}

/// The character is a hexadecimal digit.
pub open spec fn is_hex_digit(c: char) -> bool {
    ('0' <= c && c <= '9') || ('a' <= c && c <= 'f') || ('A' <= c && c <= 'F')
}

/// The value of a hexadecimal digit.
pub open spec fn hex_val(c: char) -> int {
    if '0' <= c && c <= '9' {
        c as int - '0' as int
    } else if 'a' <= c && c <= 'f' {
        10 + c as int - 'a' as int
    } else {
        10 + c as int - 'A' as int
    }
}

/// A hex color code: `#` followed by at least six hexadecimal digits, of
/// which the first six are read as the three channels.
pub open spec fn hex_code_ok(s: Seq<char>) -> bool {
    &&& s.len() >= 7
    &&& s[0] == '#'
    &&& forall|i: int| 1 <= i < 7 ==> is_hex_digit(#[trigger] s[i])
}

/// The channel held by the two digits at `i` and `i + 1`.
pub open spec fn hex_pair_val(s: Seq<char>, i: int) -> int {
    16 * hex_val(s[i]) + hex_val(s[i + 1])
}

/// The value of one hexadecimal digit character, or 16 for any other
/// character.
fn hex_digit(c: char) -> (r: u8)
    ensures
        is_hex_digit(c) <==> r < 16,
        is_hex_digit(c) ==> r == hex_val(c),
{
    if '0' <= c && c <= '9' {
        (c as u32 - '0' as u32) as u8
    } else if 'a' <= c && c <= 'f' {
        (10 + c as u32 - 'a' as u32) as u8
    } else if 'A' <= c && c <= 'F' {
        (10 + c as u32 - 'A' as u32) as u8
    } else {
        16
    }
}

impl RGB {
    /// Parses a color code of the form `#rrggbb` (further characters are
    /// ignored) into its three channels; anything else is
    /// `MalformedColor`.
    pub fn from_str(hex_code: &str) -> (r: Result<RGB, PcError>)
        ensures
            hex_code_ok(hex_code@) <==> r matches Ok(_),
            match r {
                Ok(c) => {
                    &&& c.r == hex_pair_val(hex_code@, 1)
                    &&& c.g == hex_pair_val(hex_code@, 3)
                    &&& c.b == hex_pair_val(hex_code@, 5)
                },
                Err(e) => e == PcError::MalformedColor,
            },
    {
        if hex_code.unicode_len() < 7 {
            return Err(PcError::MalformedColor);
        }
        if hex_code.get_char(0) != '#' {
            return Err(PcError::MalformedColor);
        }
        let r1 = hex_digit(hex_code.get_char(1));
        let r2 = hex_digit(hex_code.get_char(2));
        let g1 = hex_digit(hex_code.get_char(3));
        let g2 = hex_digit(hex_code.get_char(4));
        let b1 = hex_digit(hex_code.get_char(5));
        let b2 = hex_digit(hex_code.get_char(6));
        if r1 > 15 || r2 > 15 || g1 > 15 || g2 > 15 || b1 > 15 || b2 > 15 {
            return Err(PcError::MalformedColor);
        }
        Ok(RGB { r: 16 * r1 + r2, g: 16 * g1 + g2, b: 16 * b1 + b2 })
    }
}

} // verus!
