//! Names of the ASCII bytes that JSON gives a meaning to.

use vstd::prelude::*;

verus! {

/// `{`
pub const OBJ_OPEN: u8 = 0x7b;

/// `}`
pub const OBJ_CLOSE: u8 = 0x7d;

/// `[`
pub const ARR_OPEN: u8 = 0x5b;

/// `]`
pub const ARR_CLOSE: u8 = 0x5d;

/// `"`
pub const QUOTE: u8 = 0x22;

/// `:`
pub const COLON: u8 = 0x3a;

/// `,`
pub const COMMA: u8 = 0x2c;

/// `\`
pub const BACKSLASH: u8 = 0x5c;

/// `/`
pub const SLASH: u8 = 0x2f;

/// `-`
pub const MINUS: u8 = 0x2d;

/// `+`
pub const PLUS: u8 = 0x2b;

/// Space.
pub const SPACE: u8 = 0x20;

/// Horizontal tab.
pub const TAB: u8 = 0x09;

/// Line feed.
pub const LF: u8 = 0x0a;

/// Carriage return.
pub const CR: u8 = 0x0d;

/// Backspace.
pub const BS: u8 = 0x08;

/// Form feed.
pub const FF: u8 = 0x0c;

/// `0`
pub const DIGIT_0: u8 = 0x30;

/// `9`
pub const DIGIT_9: u8 = 0x39;

/// `A`
pub const UPPER_A: u8 = 0x41;

/// `F`
pub const UPPER_F: u8 = 0x46;

/// `a`
pub const LOWER_A: u8 = 0x61;

/// `b`
pub const LOWER_B: u8 = 0x62;

/// `f`
pub const LOWER_F: u8 = 0x66;

/// `n`
pub const LOWER_N: u8 = 0x6e;

/// `r`
pub const LOWER_R: u8 = 0x72;

/// `t`
pub const LOWER_T: u8 = 0x74;

/// `u`
pub const LOWER_U: u8 = 0x75;

} // verus!
