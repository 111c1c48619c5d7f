//! ISA constants: socket identifiers, guard codes and memory-mapped I/O
//! addresses.

pub mod dst;
pub mod guard;
pub mod mmio;
pub mod src;

use vstd::prelude::*;

verus! {

/// 32 KW of general data RAM (D-mem region 0x0000..0x7FFF).
pub const RAM_SIZE: usize = 0x8000;

} // verus!
