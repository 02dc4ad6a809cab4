//! Style bits of a semantic token.
use vstd::prelude::*;

verus! {

pub const NONE: u8 = 0;
pub const ITALIC: u8 = 1;
pub const BOLD: u8 = 2;
pub const STRIKETHROUGH: u8 = 4;

} // verus!
