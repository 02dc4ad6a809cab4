//! Style bits of a highlighted token.
use vstd::prelude::*;

verus! {

pub const BOLD: u8 = 0b0000_0001;
pub const ITALIC: u8 = 0b0000_0010;
pub const UNDERLINE: u8 = 0b0000_0100;
pub const STRIKETHROUGH: u8 = 0b0000_1000;
pub const ERROR: u8 = 0b0001_0000;
pub const WARNING: u8 = 0b0010_0000;
pub const FADED: u8 = 0b0100_0000;
pub const BACKGROUND: u8 = 0b1000_0000;

} // verus!
