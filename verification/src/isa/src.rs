//! Source sockets (5 bits, slot field bits [29:25]).

use vstd::prelude::*;

verus! {

// GPR_READ_r0..r15 occupy IDs 0..15.
pub const GPR_R0: u8 = 0;

pub const GPR_R1: u8 = 1;

pub const GPR_R2: u8 = 2;

pub const GPR_R3: u8 = 3;

pub const GPR_R4: u8 = 4;

pub const GPR_R5: u8 = 5;

pub const GPR_R6: u8 = 6;

pub const GPR_R7: u8 = 7;

pub const GPR_R8: u8 = 8;

pub const GPR_R9: u8 = 9;

pub const GPR_R10: u8 = 10;

pub const GPR_R11: u8 = 11;

pub const GPR_R12: u8 = 12;

pub const GPR_R13: u8 = 13;

pub const GPR_R14: u8 = 14;

pub const GPR_R15: u8 = 15;

pub const BRF_P0: u8 = 16;

pub const ALU_R: u8 = 17;

pub const ALU_P: u8 = 18;

pub const LSU_R: u8 = 19;

pub const IMMEDIATE: u8 = 20;

pub const MUL_R: u8 = 21;

/// The ISA's name, in small letters, of each named source socket other than
/// the registers (`r0`..`r15` are sockets 0..15, and the immediate, socket
/// 20, is written `#`); empty for any other number.
pub open spec fn isa_name(k: u8) -> Seq<char> {
    match k {
        16 => "p0"@,
        17 => "alu_r"@,
        18 => "alu_p"@,
        19 => "lsu_r"@,
        21 => "mul_r"@,
        _ => Seq::empty(),
    }
}

/// Whether source socket `s` reads a general-purpose register.
pub fn is_gpr(s: u8) -> (b: bool)
    ensures
        b == (s < 16),
{
    s < 16
}

/// The register index read by a GPR source socket.
pub fn gpr_idx(s: u8) -> (i: usize)
    ensures
        i == s,
{
    s as usize
}

} // verus!
