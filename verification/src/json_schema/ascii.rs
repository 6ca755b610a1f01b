//! The bytes that JSON gives a meaning to.

use vstd::prelude::*;

verus! {

pub const TAB: u8 = 0x09;
pub const LF: u8 = 0x0A;
pub const CR: u8 = 0x0D;
pub const SPACE: u8 = 0x20;
pub const QUOTE: u8 = 0x22;
pub const PLUS: u8 = 0x2B;
pub const COMMA: u8 = 0x2C;
pub const MINUS: u8 = 0x2D;
pub const DOT: u8 = 0x2E;
pub const SLASH: u8 = 0x2F;
pub const DIGIT_0: u8 = 0x30;
pub const DIGIT_1: u8 = 0x31;
pub const DIGIT_9: u8 = 0x39;
pub const COLON: u8 = 0x3A;
pub const UPPER_A: u8 = 0x41;
pub const UPPER_E: u8 = 0x45;
pub const UPPER_F: u8 = 0x46;
pub const OPEN_BRACKET: u8 = 0x5B;
pub const BACKSLASH: u8 = 0x5C;
pub const CLOSE_BRACKET: u8 = 0x5D;
pub const LOWER_A: u8 = 0x61;
pub const LOWER_B: u8 = 0x62;
pub const LOWER_E: u8 = 0x65;
pub const LOWER_F: u8 = 0x66;
pub const LOWER_L: u8 = 0x6C;
pub const LOWER_N: u8 = 0x6E;
pub const LOWER_R: u8 = 0x72;
pub const LOWER_S: u8 = 0x73;
pub const LOWER_T: u8 = 0x74;
pub const LOWER_U: u8 = 0x75;
pub const OPEN_BRACE: u8 = 0x7B;
pub const CLOSE_BRACE: u8 = 0x7D;

/// JSON whitespace.
pub open spec fn ws(b: u8) -> bool {
    b == SPACE || b == TAB || b == LF || b == CR
}

pub open spec fn digit(b: u8) -> bool {
    DIGIT_0 <= b <= DIGIT_9
}

/// True for JSON whitespace.
pub fn is_ws(b: u8) -> (r: bool)
    ensures
        r == ws(b),
{
    b == SPACE || b == TAB || b == LF || b == CR
}

pub fn is_digit(b: u8) -> (r: bool)
    ensures
        r == digit(b),
{
    DIGIT_0 <= b && b <= DIGIT_9
}

} // verus!
