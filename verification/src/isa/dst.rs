//! Destination sockets (6 bits, slot field bits [8:3]).

use vstd::prelude::*;

verus! {

// GPR_WRITE_r0..r15 occupy IDs 0..15.
pub const GPR_R0: u8 = 0;

pub const GPR_R1: u8 = 1;

pub const GPR_R2: u8 = 2;

pub const GPR_R3: u8 = 3;

pub const GPR_R4: u8 = 4;

pub const GPR_R5: u8 = 5;

pub const GPR_R6: u8 = 6;

pub const GPR_R7: u8 = 7;

pub const GPR_R8: u8 = 8;

pub const GPR_R9: u8 = 9;

pub const GPR_R10: u8 = 10;

pub const GPR_R11: u8 = 11;

pub const GPR_R12: u8 = 12;

pub const GPR_R13: u8 = 13;

pub const GPR_R14: u8 = 14;

pub const GPR_R15: u8 = 15;

pub const BRF_P0: u8 = 16;

pub const ALU_A: u8 = 17;

pub const ALU_ADD_T: u8 = 18;

pub const ALU_SUB_T: u8 = 19;

pub const ALU_AND_T: u8 = 20;

pub const ALU_OR_T: u8 = 21;

pub const ALU_XOR_T: u8 = 22;

pub const ALU_SHL_T: u8 = 23;

pub const ALU_SHR_T: u8 = 24;

pub const ALU_SSHR_T: u8 = 25;

pub const ALU_EQ_T: u8 = 26;

pub const ALU_NE_T: u8 = 27;

pub const ALU_LT_T: u8 = 28;

pub const ALU_LE_T: u8 = 29;

pub const ALU_GT_T: u8 = 30;

pub const ALU_GE_T: u8 = 31;

pub const LSU_LD_T: u8 = 32;

pub const LSU_ST_A: u8 = 33;

pub const LSU_ST_T: u8 = 34;

pub const GCU_JMP_T: u8 = 35;

pub const DISCARD: u8 = 36;

pub const MUL_A: u8 = 37;

pub const MUL_T: u8 = 38;

/// The ISA's name, in small letters, of each destination socket other than
/// the registers (`r0`..`r15` are sockets 0..15); empty for any other number.
pub open spec fn isa_name(k: u8) -> Seq<char> {
    match k {
        16 => "p0"@,
        17 => "alu_a"@,
        18 => "alu_add_t"@,
        19 => "alu_sub_t"@,
        20 => "alu_and_t"@,
        21 => "alu_or_t"@,
        22 => "alu_xor_t"@,
        23 => "alu_shl_t"@,
        24 => "alu_shr_t"@,
        25 => "alu_sshr_t"@,
        26 => "alu_eq_t"@,
        27 => "alu_ne_t"@,
        28 => "alu_lt_t"@,
        29 => "alu_le_t"@,
        30 => "alu_gt_t"@,
        31 => "alu_ge_t"@,
        32 => "lsu_ld_t"@,
        33 => "lsu_st_a"@,
        34 => "lsu_st_t"@,
        35 => "gcu_jmp_t"@,
        36 => "discard"@,
        37 => "mul_a"@,
        38 => "mul_t"@,
        _ => Seq::empty(),
    }
}

/// Whether destination socket `d` writes a general-purpose register.
pub fn is_gpr(d: u8) -> (b: bool)
    ensures
        b == (d < 16),
{
    d < 16
}

/// The register index written by a GPR destination socket.
pub fn gpr_idx(d: u8) -> (i: usize)
    ensures
        i == d,
{
    d as usize
}

/// The operand ports (`ALU_A`, `LSU_ST_A`, `MUL_A`): non-triggering latches.
pub open spec fn operand_port(d: u8) -> bool {
    d == ALU_A || d == LSU_ST_A || d == MUL_A
}

/// Whether `d` is an operand port. Operand-port writes apply before
/// triggers within a cycle.
pub fn is_operand_port(d: u8) -> (b: bool)
    ensures
        b == operand_port(d),
{
    d == ALU_A || d == LSU_ST_A || d == MUL_A
}

} // verus!
