//! The bytes that the format is made of, by name.

use vstd::prelude::*;

verus! {

/// a space
pub const SPACE: u8 = 0x20;

/// `"`
pub const QUOTE: u8 = 0x22;

/// `+`
pub const PLUS: u8 = 0x2b;

/// `,`
pub const COMMA: u8 = 0x2c;

/// `-`
pub const MINUS: u8 = 0x2d;

/// `.`
pub const DOT: u8 = 0x2e;

/// `0`
pub const DIGIT_ZERO: u8 = 0x30;

/// `1`
pub const DIGIT_ONE: u8 = 0x31;

/// `9`
pub const DIGIT_NINE: u8 = 0x39;

/// `:`
pub const COLON: u8 = 0x3a;

/// `E`
pub const UPPER_E: u8 = 0x45;

/// `[`
pub const OPEN_BRACKET: u8 = 0x5b;

/// `]`
pub const CLOSE_BRACKET: u8 = 0x5d;

/// `a`
pub const LETTER_A: u8 = 0x61;

/// `e`
pub const LOWER_E: u8 = 0x65;

/// `i`
pub const LETTER_I: u8 = 0x69;

/// `p`
pub const LETTER_P: u8 = 0x70;

/// `r`
pub const LETTER_R: u8 = 0x72;

/// `s`
pub const LETTER_S: u8 = 0x73;

/// `x`
pub const LETTER_X: u8 = 0x78;

/// `y`
pub const LETTER_Y: u8 = 0x79;

/// `{`
pub const OPEN_BRACE: u8 = 0x7b;

/// `}`
pub const CLOSE_BRACE: u8 = 0x7d;

} // verus!
