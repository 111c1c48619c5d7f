//! Guard codes (2 bits, slot field bits [31:30]).

use vstd::prelude::*;

verus! {

pub const ALWAYS: u8 = 0b00;

pub const IF_P0: u8 = 0b01;

pub const IF_NP0: u8 = 0b10;

pub const NEVER: u8 = 0b11;

} // verus!
