//! Memory-mapped I/O addresses.

use vstd::prelude::*;

verus! {

pub const STDOUT_CHAR: u16 = 0xFF00;

pub const STDOUT_INT: u16 = 0xFF01;

pub const STDOUT_HEX: u16 = 0xFF02;

pub const STDIN_CHAR: u16 = 0xFF10;

pub const CYCLE_LO: u16 = 0xFF20;

pub const CYCLE_HI: u16 = 0xFF21;

pub const HALT: u16 = 0xFFFE;

pub const REGION_START: u16 = 0xFF00;

/// Whether `addr` lies in the memory-mapped I/O region.
pub fn is_mmio(addr: u16) -> (b: bool)
    ensures
        b == (addr >= REGION_START),
{
    addr >= REGION_START
}

} // verus!
