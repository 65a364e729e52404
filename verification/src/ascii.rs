use vstd::prelude::*;

verus! {

/// `'0'`
pub const ZERO: u8 = 0x30;
/// `'9'`
pub const NINE: u8 = 0x39;
/// `'-'`
pub const DASH: u8 = 0x2d;
/// `'+'`
pub const PLUS: u8 = 0x2b;
/// `':'`
pub const COLON: u8 = 0x3a;
/// `'.'`
pub const DOT: u8 = 0x2e;
/// `'T'`
pub const UPPER_T: u8 = 0x54;
/// `'Z'`
pub const UPPER_Z: u8 = 0x5a;
/// `' '`
pub const SPACE: u8 = 0x20;
/// `'\t'`
pub const TAB: u8 = 0x09;
/// `'\n'`
pub const LF: u8 = 0x0a;
/// `'\r'`
pub const CR: u8 = 0x0d;
/// `'"'`
pub const QUOTE: u8 = 0x22;
/// `'\\'`
pub const BACKSLASH: u8 = 0x5c;
/// `'{'`
pub const LBRACE: u8 = 0x7b;
/// `'/'`
pub const SLASH: u8 = 0x2f;
/// `'_'`
pub const UNDERSCORE: u8 = 0x5f;
/// `'F'`
pub const UPPER_F: u8 = 0x46;
/// `'P'`
pub const UPPER_P: u8 = 0x50;
/// `'n'`
pub const LOWER_N: u8 = 0x6e;
/// `'r'`
pub const LOWER_R: u8 = 0x72;

} // verus!
