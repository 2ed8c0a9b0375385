use vstd::prelude::*;

verus! {

pub const TAB: u8 = 9;
pub const LF: u8 = 10;
pub const CR: u8 = 13;
pub const SPACE: u8 = 32;
pub const DOUBLE_QUOTE: u8 = 34;
pub const HASH: u8 = 35;
pub const DOLLAR: u8 = 36;
pub const PERCENT: u8 = 37;
pub const SINGLE_QUOTE: u8 = 39;
pub const LEFT_PAREN: u8 = 40;
pub const RIGHT_PAREN: u8 = 41;
pub const LEFT_BRACKET: u8 = 91;
pub const BACKSLASH: u8 = 92;
pub const RIGHT_BRACKET: u8 = 93;
pub const LOWER_R: u8 = 114;
pub const LEFT_BRACE: u8 = 123;
pub const RIGHT_BRACE: u8 = 125;

} // verus!
