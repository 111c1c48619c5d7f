//! Cycle-accurate ToastTTA machine.
//!
//! Every cycle follows the snapshot-then-apply model: all four slots' guards
//! and sources are evaluated against the state at the start of the cycle, then
//! the writes are applied, operand-port writes before all other writes
//! (including triggers), each group in slot order.
//!
//! Writes to the standard-output addresses do not print: they become
//! [`Output`] events returned by [`Machine::step`], for the caller to perform.
//! Reads from the standard-input address take the next byte of the machine's
//! input queue, which the caller fills with [`Machine::feed_input`].

use vstd::prelude::*;

use crate::encoding::{IWord, Slot};
use crate::isa::{self, dst, guard, mmio, src};
use crate::text::{hex4, hex_word_string, signed_decimal, signed_decimal_string};

verus! {

/// A character, integer or hexadecimal word the program wrote to one of the
/// standard-output addresses.
#[derive(Copy, Clone, Debug, PartialEq, Eq, Structural)]
pub enum Output {
    /// Low byte of the value written to `STDOUT_CHAR`, as an ASCII character.
    Char(u8),
    /// Value written to `STDOUT_INT`, as a signed decimal integer.
    Int(i16),
    /// Value written to `STDOUT_HEX`, printed as `0x%04X`.
    Hex(u16),
}

/// The text an output event prints: the character itself for
/// `STDOUT_CHAR`, the signed decimal value for `STDOUT_INT`, and `0x` with
/// four upper-case hexadecimal digits for `STDOUT_HEX`.
pub open spec fn output_text_spec(o: Output) -> Seq<char> {
    match o {
        Output::Char(c) => seq![c as char],
        Output::Int(v) => signed_decimal(v as int),
        Output::Hex(v) => "0x"@ + hex4(v),
    }
}

/// std's `ToString` for `char`: `char`'s `Display` writes the character
/// itself, so the string holds exactly that one character.
#[verifier::external_body]
fn char_string(c: char) -> (s: String)
    ensures
        s@ == seq![c],
{
    c.to_string()
}

/// The text that `o` prints on standard output.
pub fn output_text(o: &Output) -> (s: String)
    ensures
        s@ == output_text_spec(*o),
{
    match o {
        Output::Char(c) => char_string(*c as char),
        Output::Int(v) => signed_decimal_string(*v as i64),
        Output::Hex(v) => hex_word_string(*v),
    }
}

/// Architectural state of a ToastTTA machine plus emulator runtime fields.
pub struct Machine {
    pub pc: u16,
    pub gprs: [u16; 16],
    pub p0: bool,
    // FU operand-port latches (non-triggering destinations)
    pub alu_a: u16,
    pub lsu_st_a: u16,
    pub mul_a: u16,
    // FU output ports
    pub alu_r: u16,
    pub alu_p: bool,
    pub lsu_r: u16,
    pub mul_r: u16,
    // Memories
    pub imem: Vec<IWord>,
    pub dmem: Vec<u16>,
    // Runtime state (not architecturally visible)
    pub cycles: u64,
    pub halted: bool,
    pub exit_code: i32,
    // Bytes that arrived on standard input, and how many of them loads from
    // `STDIN_CHAR` have taken
    pub input: Vec<u8>,
    pub input_pos: usize,
}

/// The mathematical state of a machine: its fields, with the register file
/// and the memories as sequences.
pub ghost struct MachineState {
    pub pc: u16,
    pub gprs: Seq<u16>,
    pub p0: bool,
    pub alu_a: u16,
    pub lsu_st_a: u16,
    pub mul_a: u16,
    pub alu_r: u16,
    pub alu_p: bool,
    pub lsu_r: u16,
    pub mul_r: u16,
    pub imem: Seq<IWord>,
    pub dmem: Seq<u16>,
    pub cycles: u64,
    pub halted: bool,
    pub exit_code: i32,
    pub input: Seq<u8>,
    pub input_pos: nat,
}

impl View for Machine {
    type V = MachineState;

    open spec fn view(&self) -> MachineState {
        MachineState {
            pc: self.pc,
            gprs: self.gprs@,
            p0: self.p0,
            alu_a: self.alu_a,
            lsu_st_a: self.lsu_st_a,
            mul_a: self.mul_a,
            alu_r: self.alu_r,
            alu_p: self.alu_p,
            lsu_r: self.lsu_r,
            mul_r: self.mul_r,
            imem: self.imem@,
            dmem: self.dmem@,
            cycles: self.cycles,
            halted: self.halted,
            exit_code: self.exit_code,
            input: self.input@,
            input_pos: self.input_pos as nat,
        }
    }
}

// ─── Guards, sources and destinations ───────────────────────────────────────

/// Whether a move with guard `g` executes when the predicate is `p0`
/// (`never` and codes beyond 2 never execute).
pub open spec fn guard_passes(g: u8, p0: bool) -> bool {
    g == guard::ALWAYS || (g == guard::IF_P0 && p0) || (g == guard::IF_NP0 && !p0)
}

/// Source socket ids 0..=21 are defined; 22..31 are reserved.
pub open spec fn source_defined(s: u8) -> bool {
    s <= src::MUL_R
}

/// Destination socket ids 0..=38 are defined; 39..63 are reserved.
pub open spec fn destination_defined(d: u8) -> bool {
    d <= dst::MUL_T
}

/// The value obtained by reading the source socket of `s` in state `m`.
pub open spec fn source_value(m: MachineState, s: Slot) -> u16 {
    let k = s.src_sock;
    if k < 16 {
        m.gprs[k as int]
    } else if k == src::BRF_P0 {
        if m.p0 { 1 } else { 0 }
    } else if k == src::ALU_R {
        m.alu_r
    } else if k == src::ALU_P {
        if m.alu_p { 1 } else { 0 }
    } else if k == src::LSU_R {
        m.lsu_r
    } else if k == src::IMMEDIATE {
        s.src_data
    } else {
        m.mul_r
    }
}

/// A byte of standard input is waiting to be read.
pub open spec fn input_available(m: MachineState) -> bool {
    m.input_pos < m.input.len()
}

/// The value a load from `addr` yields: the next byte of standard input
/// (0 when none is waiting), the cycle counter halves, data RAM, and 0 for
/// everything else.
pub open spec fn load_value(m: MachineState, addr: u16) -> u16 {
    if addr == mmio::STDIN_CHAR {
        if input_available(m) {
            m.input[m.input_pos as int] as u16
        } else {
            0
        }
    } else if addr == mmio::CYCLE_LO {
        m.cycles as u16
    } else if addr == mmio::CYCLE_HI {
        (m.cycles >> 16u64) as u16
    } else if (addr as int) < isa::RAM_SIZE {
        m.dmem[addr as int]
    } else {
        0
    }
}

/// The state after a load from `addr`: a read of standard input takes the
/// waiting byte, if any; every other load leaves the state alone.
pub open spec fn load_state(m: MachineState, addr: u16) -> MachineState {
    if addr == mmio::STDIN_CHAR && input_available(m) {
        MachineState { input_pos: m.input_pos + 1, ..m }
    } else {
        m
    }
}

/// The state after storing `val` at `addr`: `HALT` stops the machine with
/// the value, read as signed, as exit code; RAM addresses update data memory;
/// all other addresses (including the output ports) leave the state alone.
pub open spec fn store_state(m: MachineState, addr: u16, val: u16) -> MachineState {
    if addr == mmio::HALT {
        MachineState { halted: true, exit_code: (val as i16) as i32, ..m }
    } else if addr == mmio::STDOUT_CHAR || addr == mmio::STDOUT_INT || addr == mmio::STDOUT_HEX {
        m
    } else if (addr as int) < isa::RAM_SIZE {
        MachineState { dmem: m.dmem.update(addr as int, val), ..m }
    } else {
        m
    }
}

/// The output event produced by storing `val` at `addr`, if any.
pub open spec fn store_output(addr: u16, val: u16) -> Option<Output> {
    if addr == mmio::STDOUT_CHAR {
        Some(Output::Char(val as u8))
    } else if addr == mmio::STDOUT_INT {
        Some(Output::Int(val as i16))
    } else if addr == mmio::STDOUT_HEX {
        Some(Output::Hex(val))
    } else {
        None
    }
}

/// The ALU arithmetic triggers `ALU_ADD_T ..= ALU_SSHR_T`, which set `ALU.R`.
pub open spec fn alu_arith_trigger(d: u8) -> bool {
    dst::ALU_ADD_T <= d <= dst::ALU_SSHR_T
}

/// The ALU compare triggers `ALU_EQ_T ..= ALU_GE_T`, which set `ALU.P`.
pub open spec fn alu_compare_trigger(d: u8) -> bool {
    dst::ALU_EQ_T <= d <= dst::ALU_GE_T
}

/// `ALU.R` after arithmetic trigger `d` fires with operand `a` and trigger
/// value `v`: wrapping add and subtract, bitwise operations, and
/// shifts by the low 4 bits of `v` (logical, or arithmetic for `SSHR`).
pub open spec fn alu_result(d: u8, a: u16, v: u16) -> u16 {
    let sh = (v & 0xF) as u32;
    if d == dst::ALU_ADD_T {
        a.wrapping_add(v)
    } else if d == dst::ALU_SUB_T {
        a.wrapping_sub(v)
    } else if d == dst::ALU_AND_T {
        a & v
    } else if d == dst::ALU_OR_T {
        a | v
    } else if d == dst::ALU_XOR_T {
        a ^ v
    } else if d == dst::ALU_SHL_T {
        a.wrapping_shl(sh)
    } else if d == dst::ALU_SHR_T {
        a.wrapping_shr(sh)
    } else {
        (a as i16).wrapping_shr(sh) as u16
    }
}

/// `ALU.P` after compare trigger `d` fires with operand `a` and trigger
/// value `v`; orderings compare both as signed 16-bit integers.
pub open spec fn alu_compare(d: u8, a: u16, v: u16) -> bool {
    if d == dst::ALU_EQ_T {
        a == v
    } else if d == dst::ALU_NE_T {
        a != v
    } else if d == dst::ALU_LT_T {
        (a as i16) < (v as i16)
    } else if d == dst::ALU_LE_T {
        (a as i16) <= (v as i16)
    } else if d == dst::ALU_GT_T {
        (a as i16) > (v as i16)
    } else {
        (a as i16) >= (v as i16)
    }
}

/// The state after writing `v` to destination socket `d`.
pub open spec fn write_state(m: MachineState, d: u8, v: u16) -> MachineState {
    let a = m.alu_a;
    if d < 16 {
        MachineState { gprs: m.gprs.update(d as int, v), ..m }
    } else if d == dst::BRF_P0 {
        MachineState { p0: v != 0, ..m }
    } else if d == dst::ALU_A {
        MachineState { alu_a: v, ..m }
    } else if alu_arith_trigger(d) {
        MachineState { alu_r: alu_result(d, a, v), ..m }
    } else if alu_compare_trigger(d) {
        MachineState { alu_p: alu_compare(d, a, v), ..m }
    } else if d == dst::LSU_LD_T {
        MachineState { lsu_r: load_value(m, v), ..load_state(m, v) }
    } else if d == dst::LSU_ST_A {
        MachineState { lsu_st_a: v, ..m }
    } else if d == dst::LSU_ST_T {
        store_state(m, m.lsu_st_a, v)
    } else if d == dst::MUL_A {
        MachineState { mul_a: v, ..m }
    } else if d == dst::MUL_T {
        MachineState { mul_r: m.mul_a.wrapping_mul(v), ..m }
    } else {
        // GCU_JMP_T and DISCARD leave the state alone; the jump target is
        // taken by the cycle (see `pc_after`).
        m
    }
}

/// The output event produced by writing `v` to destination `d`.
pub open spec fn write_output(m: MachineState, d: u8, v: u16) -> Option<Output> {
    if d == dst::LSU_ST_T {
        store_output(m.lsu_st_a, v)
    } else {
        None
    }
}

/// A load or store at `addr` stays inside data memory whenever it targets RAM.
pub open spec fn ram_access_fits(m: MachineState, addr: u16) -> bool {
    (addr as int) < isa::RAM_SIZE ==> (addr as int) < m.dmem.len()
}

/// The write of `v` to `d` is one the emulator carries out: the socket is
/// defined and any RAM access lies inside data memory.
pub open spec fn write_defined(m: MachineState, d: u8, v: u16) -> bool {
    &&& destination_defined(d)
    &&& d == dst::LSU_LD_T ==> ram_access_fits(m, v)
    &&& d == dst::LSU_ST_T ==> ram_access_fits(m, m.lsu_st_a)
}

// ─── One cycle ──────────────────────────────────────────────────────────────

/// Slot `i` of `w` executes in snapshot `m`.
pub open spec fn slot_active(m: MachineState, w: IWord, i: int) -> bool {
    guard_passes(w.slots@[i].guard, m.p0)
}

/// The value moved by slot `i` of `w`, read from snapshot `m` (0 when the
/// slot is squashed).
pub open spec fn slot_value(m: MachineState, w: IWord, i: int) -> u16 {
    if slot_active(m, w, i) {
        source_value(m, w.slots@[i])
    } else {
        0
    }
}

/// Slot `i` takes part in the operand phase.
pub open spec fn in_operand_phase(m: MachineState, w: IWord, i: int) -> bool {
    slot_active(m, w, i) && dst::operand_port(w.slots@[i].dst_sock)
}

/// Slot `i` takes part in the trigger phase.
pub open spec fn in_trigger_phase(m: MachineState, w: IWord, i: int) -> bool {
    slot_active(m, w, i) && !dst::operand_port(w.slots@[i].dst_sock)
}

/// The state after the operand-port writes of slots `0..n`.
pub open spec fn operand_writes(m: MachineState, w: IWord, n: nat) -> MachineState
    decreases n,
{
    if n == 0 {
        m
    } else {
        let prev = operand_writes(m, w, (n - 1) as nat);
        if in_operand_phase(m, w, n - 1) {
            write_state(prev, w.slots@[n - 1].dst_sock, slot_value(m, w, n - 1))
        } else {
            prev
        }
    }
}

/// The state after the operand phase and the other writes of slots `0..n`.
pub open spec fn trigger_writes(m: MachineState, w: IWord, n: nat) -> MachineState
    decreases n,
{
    if n == 0 {
        operand_writes(m, w, 4)
    } else {
        let prev = trigger_writes(m, w, (n - 1) as nat);
        if in_trigger_phase(m, w, n - 1) {
            write_state(prev, w.slots@[n - 1].dst_sock, slot_value(m, w, n - 1))
        } else {
            prev
        }
    }
}

/// The output events of the trigger writes of slots `0..n`, in slot order.
pub open spec fn trigger_outputs(m: MachineState, w: IWord, n: nat) -> Seq<Output>
    decreases n,
{
    if n == 0 {
        Seq::empty()
    } else {
        let prev = trigger_outputs(m, w, (n - 1) as nat);
        if in_trigger_phase(m, w, n - 1) {
            match write_output(
                trigger_writes(m, w, (n - 1) as nat),
                w.slots@[n - 1].dst_sock,
                slot_value(m, w, n - 1),
            ) {
                Some(o) => prev.push(o),
                None => prev,
            }
        } else {
            prev
        }
    }
}

/// The next PC after the trigger writes of slots `0..n`: the target of the
/// last jump among them, or PC + 1 (wrapping) when none jumps.
pub open spec fn pc_after(m: MachineState, w: IWord, n: nat) -> u16
    decreases n,
{
    if n == 0 {
        m.pc.wrapping_add(1)
    } else {
        let prev = pc_after(m, w, (n - 1) as nat);
        if in_trigger_phase(m, w, n - 1) && w.slots@[n - 1].dst_sock == dst::GCU_JMP_T {
            slot_value(m, w, n - 1)
        } else {
            prev
        }
    }
}

/// The instruction word at the PC.
pub open spec fn current_word(m: MachineState) -> IWord {
    m.imem[m.pc as int]
}

/// Slot `i` of the current word can be carried out: its guard is a valid
/// code, and if it executes, its source socket is defined and its write is
/// one the emulator carries out.
pub open spec fn slot_defined(m: MachineState, i: int) -> bool {
    let w = current_word(m);
    let s = w.slots@[i];
    &&& s.guard < 4
    &&& slot_active(m, w, i) ==> source_defined(s.src_sock)
    &&& in_operand_phase(m, w, i) ==> write_defined(operand_writes(m, w, i as nat), s.dst_sock, slot_value(m, w, i))
    &&& in_trigger_phase(m, w, i) ==> write_defined(trigger_writes(m, w, i as nat), s.dst_sock, slot_value(m, w, i))
}

/// A step from `m` runs to completion: the machine is halted, or the PC
/// addresses instruction memory and every slot of the current word can be
/// carried out.
pub open spec fn step_defined(m: MachineState) -> bool {
    !m.halted ==> {
        &&& (m.pc as int) < m.imem.len()
        &&& forall|i: int| 0 <= i < 4 ==> #[trigger] slot_defined(m, i)
    }
}

/// The state after one step: unchanged when halted; otherwise the writes
/// of the current word, then the new PC and one more cycle.
pub open spec fn step_state(m: MachineState) -> MachineState {
    if m.halted {
        m
    } else {
        let w = current_word(m);
        MachineState {
            pc: pc_after(m, w, 4),
            cycles: m.cycles.wrapping_add(1),
            ..trigger_writes(m, w, 4)
        }
    }
}

/// The output events of one step, in slot order.
pub open spec fn step_outputs(m: MachineState) -> Seq<Output> {
    if m.halted {
        Seq::empty()
    } else {
        trigger_outputs(m, current_word(m), 4)
    }
}

/// The state after at most `fuel` steps, stopping early once halted.
pub open spec fn run_state(m: MachineState, fuel: nat) -> MachineState
    decreases fuel,
{
    if fuel == 0 || m.halted {
        m
    } else {
        run_state(step_state(m), (fuel - 1) as nat)
    }
}

/// The output events of at most `fuel` steps, stopping early once halted.
pub open spec fn run_outputs(m: MachineState, fuel: nat) -> Seq<Output>
    decreases fuel,
{
    if fuel == 0 || m.halted {
        Seq::empty()
    } else {
        step_outputs(m) + run_outputs(step_state(m), (fuel - 1) as nat)
    }
}

/// Each of the (at most `fuel`) steps taken from `m` runs to completion.
pub open spec fn run_defined(m: MachineState, fuel: nat) -> bool
    decreases fuel,
{
    fuel == 0 || m.halted || (step_defined(m) && run_defined(step_state(m), (fuel - 1) as nat))
}

/// Writes leave the PC, the cycle counter and instruction memory alone.
pub proof fn lemma_write_keeps(m: MachineState, d: u8, v: u16)
    ensures
        write_state(m, d, v).pc == m.pc,
        write_state(m, d, v).cycles == m.cycles,
        write_state(m, d, v).imem == m.imem,
{
}

/// The operand phase leaves the PC, the cycle counter and instruction memory
/// alone.
pub proof fn lemma_operand_phase_keeps(m: MachineState, w: IWord, n: nat)
    ensures
        operand_writes(m, w, n).pc == m.pc,
        operand_writes(m, w, n).cycles == m.cycles,
        operand_writes(m, w, n).imem == m.imem,
    decreases n,
{
    if n > 0 {
        lemma_operand_phase_keeps(m, w, (n - 1) as nat);
        lemma_write_keeps(operand_writes(m, w, (n - 1) as nat), w.slots@[n - 1].dst_sock, slot_value(m, w, n - 1));
    }
}

/// Both phases leave the PC, the cycle counter and instruction memory alone.
pub proof fn lemma_trigger_phase_keeps(m: MachineState, w: IWord, n: nat)
    ensures
        trigger_writes(m, w, n).pc == m.pc,
        trigger_writes(m, w, n).cycles == m.cycles,
        trigger_writes(m, w, n).imem == m.imem,
    decreases n,
{
    if n > 0 {
        lemma_trigger_phase_keeps(m, w, (n - 1) as nat);
        lemma_write_keeps(trigger_writes(m, w, (n - 1) as nat), w.slots@[n - 1].dst_sock, slot_value(m, w, n - 1));
    } else {
        lemma_operand_phase_keeps(m, w, 4);
    }
}

// ─── Laws of the execution model ────────────────────────────────────────────

/// Halt: once halted, a step changes nothing and prints nothing.
pub proof fn lemma_halted_step_is_idle(m: MachineState)
    requires
        m.halted,
    ensures
        step_state(m) == m,
        step_outputs(m) == Seq::<Output>::empty(),
{
}

/// Halt is final for a run: once a run of `f` steps has halted, a run
/// granted any `g >= f` steps ends in the same state with the same output.
pub proof fn lemma_run_past_halt(m: MachineState, f: nat, g: nat)
    requires
        run_state(m, f).halted,
        f <= g,
    ensures
        run_state(m, g) == run_state(m, f),
        run_outputs(m, g) == run_outputs(m, f),
    decreases f,
{
    if !m.halted {
        lemma_run_past_halt(step_state(m), (f - 1) as nat, (g - 1) as nat);
    }
}

/// ALU arithmetic triggers: writing `v` to a trigger sets `ALU.R` to the
/// operand latch `ALU_A` combined with `v`: sum and difference modulo 2^16,
/// bitwise and, or and exclusive or, and shifts by the low four bits of
/// `v` (logical left and right, and arithmetic right on the signed operand).
/// Nothing else changes.
pub proof fn lemma_alu_arith_triggers(m: MachineState, v: u16)
    ensures
        write_state(m, dst::ALU_ADD_T, v) == (MachineState { alu_r: ((m.alu_a + v) % 0x1_0000) as u16, ..m }),
        write_state(m, dst::ALU_SUB_T, v) == (MachineState { alu_r: ((m.alu_a - v + 0x1_0000) % 0x1_0000) as u16, ..m }),
        write_state(m, dst::ALU_AND_T, v) == (MachineState { alu_r: m.alu_a & v, ..m }),
        write_state(m, dst::ALU_OR_T, v) == (MachineState { alu_r: m.alu_a | v, ..m }),
        write_state(m, dst::ALU_XOR_T, v) == (MachineState { alu_r: m.alu_a ^ v, ..m }),
        write_state(m, dst::ALU_SHL_T, v) == (MachineState { alu_r: m.alu_a << (v % 16), ..m }),
        write_state(m, dst::ALU_SHR_T, v) == (MachineState { alu_r: m.alu_a >> (v % 16), ..m }),
        write_state(m, dst::ALU_SSHR_T, v) == (MachineState { alu_r: ((m.alu_a as i16) >> (v % 16)) as u16, ..m }),
{
    let sh = (v & 0xF) as u32;
    assert(sh == v % 16) by (bit_vector)
        requires
            sh == (v & 0xF) as u32,
    ;
}

/// ALU compare triggers: writing `v` sets the predicate `ALU.P` to the
/// comparison of the operand latch `ALU_A` with `v`, equality as words and
/// orderings between both read as signed 16-bit integers. Nothing else
/// changes.
pub proof fn lemma_alu_compare_triggers(m: MachineState, v: u16)
    ensures
        write_state(m, dst::ALU_EQ_T, v) == (MachineState { alu_p: m.alu_a == v, ..m }),
        write_state(m, dst::ALU_NE_T, v) == (MachineState { alu_p: m.alu_a != v, ..m }),
        write_state(m, dst::ALU_LT_T, v) == (MachineState { alu_p: (m.alu_a as i16) < (v as i16), ..m }),
        write_state(m, dst::ALU_LE_T, v) == (MachineState { alu_p: (m.alu_a as i16) <= (v as i16), ..m }),
        write_state(m, dst::ALU_GT_T, v) == (MachineState { alu_p: (m.alu_a as i16) > (v as i16), ..m }),
        write_state(m, dst::ALU_GE_T, v) == (MachineState { alu_p: (m.alu_a as i16) >= (v as i16), ..m }),
{
}

/// Multiplier and operand ports: `ALU_A` and `MUL_A` latch the value, the
/// multiply trigger sets `MUL.R` to the low 16 bits of `MUL_A * v`, and
/// `BRF_P0` stores whether the value is nonzero. Nothing else changes.
pub proof fn lemma_latches_and_multiplier(m: MachineState, v: u16)
    ensures
        write_state(m, dst::ALU_A, v) == (MachineState { alu_a: v, ..m }),
        write_state(m, dst::MUL_A, v) == (MachineState { mul_a: v, ..m }),
        write_state(m, dst::MUL_T, v) == (MachineState { mul_r: ((m.mul_a * v) % 0x1_0000) as u16, ..m }),
        write_state(m, dst::BRF_P0, v) == (MachineState { p0: v != 0, ..m }),
{
}

/// Guards: code 0 always executes, 1 executes when the predicate `P0` is
/// set, 2 when it is clear, and 3 never.
pub proof fn lemma_guard_codes(p0: bool)
    ensures
        guard_passes(0, p0),
        guard_passes(1, p0) == p0,
        guard_passes(2, p0) == !p0,
        !guard_passes(3, p0),
{
}

/// Sources: sockets 0..15 read the registers `r0`..`r15`, 16 reads `P0`
/// as 0 or 1, 17 `ALU.R`, 18 `ALU.P` as 0 or 1, 19 `LSU.R`, 20 the slot's
/// immediate data and 21 `MUL.R`.
pub proof fn lemma_source_sockets(m: MachineState, s: Slot)
    ensures
        s.src_sock < 16 ==> source_value(m, s) == m.gprs[s.src_sock as int],
        s.src_sock == 16 ==> source_value(m, s) == (if m.p0 { 1u16 } else { 0u16 }),
        s.src_sock == 17 ==> source_value(m, s) == m.alu_r,
        s.src_sock == 18 ==> source_value(m, s) == (if m.alu_p { 1u16 } else { 0u16 }),
        s.src_sock == 19 ==> source_value(m, s) == m.lsu_r,
        s.src_sock == 20 ==> source_value(m, s) == s.src_data,
        s.src_sock == 21 ==> source_value(m, s) == m.mul_r,
{
}

/// Register, jump and discard destinations: sockets 0..15 write the
/// registers `r0`..`r15` and nothing else; the jump trigger and `DISCARD`
/// change no state (the jump's target is taken by the cycle).
pub proof fn lemma_register_and_inert_writes(m: MachineState, d: u8, v: u16)
    ensures
        d < 16 ==> write_state(m, d, v) == (MachineState { gprs: m.gprs.update(d as int, v), ..m }),
        write_state(m, dst::GCU_JMP_T, v) == m,
        write_state(m, dst::DISCARD, v) == m,
        d < 16 || d == dst::GCU_JMP_T || d == dst::DISCARD ==> write_output(m, d, v) == None::<Output>,
{
}

/// Memory-mapped reads: `0xFF10` takes the next waiting input byte (0 when
/// none waits), `0xFF20` and `0xFF21` read the low and high 16 bits of the
/// cycle counter, addresses below `0x8000` read data RAM, and every other
/// address reads 0. Only a read of waiting input changes the state, by
/// taking that byte.
pub proof fn lemma_memory_reads(m: MachineState, addr: u16)
    ensures
        addr == 0xFF10 && m.input_pos < m.input.len() ==> load_value(m, addr) == m.input[m.input_pos as int]
            && load_state(m, addr) == (MachineState { input_pos: m.input_pos + 1, ..m }),
        addr == 0xFF10 && m.input_pos >= m.input.len() ==> load_value(m, addr) == 0 && load_state(m, addr) == m,
        addr == 0xFF20 ==> load_value(m, addr) == m.cycles % 0x1_0000,
        addr == 0xFF21 ==> load_value(m, addr) == (m.cycles / 0x1_0000) % 0x1_0000,
        addr < 0x8000 ==> load_value(m, addr) == m.dmem[addr as int],
        !(addr < 0x8000 || addr == 0xFF10 || addr == 0xFF20 || addr == 0xFF21) ==> load_value(m, addr) == 0,
        addr != 0xFF10 ==> load_state(m, addr) == m,
{
    let c = m.cycles;
    assert((c as u16) == c % 0x1_0000 && ((c >> 16u64) as u16) == (c / 0x1_0000) % 0x1_0000) by (bit_vector);
}

/// Memory-mapped writes: `0xFF00` prints the low byte as a character,
/// `0xFF01` the value as a signed decimal, `0xFF02` the value in hex,
/// `0xFFFE` halts with the value read as signed as exit code, addresses
/// below `0x8000` write data RAM, and every other address is ignored. Only
/// the three output addresses produce output.
pub proof fn lemma_memory_writes(m: MachineState, addr: u16, val: u16)
    ensures
        addr == 0xFF00 ==> store_output(addr, val) == Some(Output::Char((val % 256) as u8)) && store_state(m, addr, val) == m,
        addr == 0xFF01 ==> store_output(addr, val) == Some(Output::Int(val as i16)) && store_state(m, addr, val) == m,
        addr == 0xFF02 ==> store_output(addr, val) == Some(Output::Hex(val)) && store_state(m, addr, val) == m,
        addr == 0xFFFE ==> store_output(addr, val) == None::<Output> && store_state(m, addr, val)
            == (MachineState { halted: true, exit_code: (if val < 0x8000 { val as int } else { val - 0x1_0000 }) as i32, ..m }),
        addr < 0x8000 ==> store_output(addr, val) == None::<Output> && store_state(m, addr, val)
            == (MachineState { dmem: m.dmem.update(addr as int, val), ..m }),
        !(addr < 0x8000 || addr == 0xFF00 || addr == 0xFF01 || addr == 0xFF02 || addr == 0xFFFE) ==> store_output(addr, val)
            == None::<Output> && store_state(m, addr, val) == m,
{
    assert((val as u8) == val % 256) by (bit_vector);
    assert(((val as i16) as int) == (if val < 0x8000 { val as int } else { val - 0x1_0000 })) by (bit_vector);
}

/// Load-store unit sockets: a load trigger sets `LSU.R` to the loaded
/// value (a read of `STDIN_CHAR` takes the waiting input byte), the store
/// address port latches its value, and a store trigger stores at the latched
/// address, producing the output event of an output address; only the store
/// trigger produces output.
pub proof fn lemma_lsu_sockets(m: MachineState, v: u16)
    ensures
        write_state(m, dst::LSU_LD_T, v) == (MachineState { lsu_r: load_value(m, v), ..load_state(m, v) }),
        write_state(m, dst::LSU_ST_A, v) == (MachineState { lsu_st_a: v, ..m }),
        write_state(m, dst::LSU_ST_T, v) == store_state(m, m.lsu_st_a, v),
        write_output(m, dst::LSU_LD_T, v) == None::<Output>,
        write_output(m, dst::LSU_ST_A, v) == None::<Output>,
        write_output(m, dst::LSU_ST_T, v) == store_output(m.lsu_st_a, v),
{
}

/// A word whose four slots are all squashed only advances the PC and the
/// cycle counter: a squashed move writes nothing and triggers nothing.
pub proof fn lemma_squashed_word_only_advances(m: MachineState)
    requires
        !m.halted,
        (m.pc as int) < m.imem.len(),
        forall|i: int| 0 <= i < 4 ==> !#[trigger] slot_active(m, current_word(m), i),
    ensures
        step_state(m) == (MachineState { pc: m.pc.wrapping_add(1), cycles: m.cycles.wrapping_add(1), ..m }),
        step_outputs(m) == Seq::<Output>::empty(),
{
    let w = current_word(m);
    assert(!slot_active(m, w, 0) && !slot_active(m, w, 1) && !slot_active(m, w, 2) && !slot_active(m, w, 3));
    reveal_with_fuel(operand_writes, 5);
    reveal_with_fuel(trigger_writes, 5);
    reveal_with_fuel(pc_after, 5);
    reveal_with_fuel(trigger_outputs, 5);
    assert(operand_writes(m, w, 4) == m);
    assert(trigger_writes(m, w, 4) == m);
    assert(pc_after(m, w, 4) == m.pc.wrapping_add(1));
    assert(trigger_outputs(m, w, 4) =~= Seq::<Output>::empty());
}

/// Slot `i` of `w` executes a jump in snapshot `m`.
pub open spec fn slot_jumps(m: MachineState, w: IWord, i: int) -> bool {
    in_trigger_phase(m, w, i) && w.slots@[i].dst_sock == dst::GCU_JMP_T
}

/// PC update: without a jump the PC advances by one (wrapping); with
/// exactly one jump the PC becomes the jump's value.
pub proof fn lemma_pc_update(m: MachineState)
    requires
        !m.halted,
        (m.pc as int) < m.imem.len(),
    ensures
        (forall|i: int| 0 <= i < 4 ==> !#[trigger] slot_jumps(m, current_word(m), i))
            ==> step_state(m).pc == m.pc.wrapping_add(1),
        forall|i: int|
            0 <= i < 4 && #[trigger] slot_jumps(m, current_word(m), i) && (forall|j: int|
                0 <= j < 4 && j != i ==> !slot_jumps(m, current_word(m), j)) ==> step_state(m).pc
                == slot_value(m, current_word(m), i),
{
    let w = current_word(m);
    let p0 = m.pc.wrapping_add(1);
    let p1 = if slot_jumps(m, w, 0) { slot_value(m, w, 0) } else { p0 };
    let p2 = if slot_jumps(m, w, 1) { slot_value(m, w, 1) } else { p1 };
    let p3 = if slot_jumps(m, w, 2) { slot_value(m, w, 2) } else { p2 };
    let p4 = if slot_jumps(m, w, 3) { slot_value(m, w, 3) } else { p3 };
    assert(pc_after(m, w, 0) == p0);
    assert(pc_after(m, w, 1) == p1);
    assert(pc_after(m, w, 2) == p2);
    assert(pc_after(m, w, 3) == p3);
    assert(pc_after(m, w, 4) == p4);
}

/// Writes of the operand and trigger phases keep a 16-entry register file at
/// 16 entries.
pub proof fn lemma_phases_keep_gprs_len(m: MachineState, w: IWord, n: nat)
    requires
        m.gprs.len() == 16,
    ensures
        operand_writes(m, w, n).gprs.len() == 16,
        trigger_writes(m, w, n).gprs.len() == 16,
    decreases n,
{
    if n > 0 {
        lemma_phases_keep_gprs_len(m, w, (n - 1) as nat);
    } else {
        lemma_operand_gprs_len(m, w, 4);
    }
}

proof fn lemma_operand_gprs_len(m: MachineState, w: IWord, n: nat)
    requires
        m.gprs.len() == 16,
    ensures
        operand_writes(m, w, n).gprs == m.gprs,
    decreases n,
{
    if n > 0 {
        lemma_operand_gprs_len(m, w, (n - 1) as nat);
    }
}

/// A register written by slot `i`, and by no later executing slot, holds
/// after the trigger writes of slots `0..n` the value slot `i` read.
proof fn lemma_gpr_last_writer(m: MachineState, w: IWord, n: nat, i: int)
    requires
        m.gprs.len() == 16,
        0 <= i < n <= 4,
        in_trigger_phase(m, w, i),
        w.slots@[i].dst_sock < 16,
        forall|j: int|
            i < j < n ==> !(#[trigger] in_trigger_phase(m, w, j) && w.slots@[j].dst_sock
                == w.slots@[i].dst_sock),
    ensures
        trigger_writes(m, w, n).gprs[w.slots@[i].dst_sock as int] == slot_value(m, w, i),
    decreases n,
{
    lemma_phases_keep_gprs_len(m, w, (n - 1) as nat);
    if n - 1 > i {
        lemma_gpr_last_writer(m, w, (n - 1) as nat, i);
        assert(!(in_trigger_phase(m, w, n - 1) && w.slots@[n - 1].dst_sock == w.slots@[i].dst_sock));
    }
}

/// Snapshot semantics: a register written by an executing slot, and
/// by no later executing slot, ends the cycle holding the value that slot
/// read from the state at the start of the cycle, whatever the other slots
/// wrote in the same cycle.
pub proof fn lemma_gpr_write_uses_snapshot(m: MachineState, i: int)
    requires
        !m.halted,
        (m.pc as int) < m.imem.len(),
        m.gprs.len() == 16,
        0 <= i < 4,
        slot_active(m, current_word(m), i),
        current_word(m).slots@[i].dst_sock < 16,
        forall|j: int|
            i < j < 4 ==> !(#[trigger] slot_active(m, current_word(m), j)
                && current_word(m).slots@[j].dst_sock == current_word(m).slots@[i].dst_sock),
    ensures
        step_state(m).gprs[current_word(m).slots@[i].dst_sock as int] == source_value(
            m,
            current_word(m).slots@[i],
        ),
{
    let w = current_word(m);
    lemma_gpr_last_writer(m, w, 4, i);
}

/// After the operand writes of slots `0..n`, `ALU_A` holds the value of the
/// last executing slot among them that writes `ALU_A`.
proof fn lemma_alu_a_last_writer(m: MachineState, w: IWord, n: nat, i: int)
    requires
        0 <= i < n <= 4,
        slot_active(m, w, i),
        w.slots@[i].dst_sock == dst::ALU_A,
        forall|j: int|
            i < j < n ==> !(#[trigger] slot_active(m, w, j) && w.slots@[j].dst_sock == dst::ALU_A),
    ensures
        operand_writes(m, w, n).alu_a == slot_value(m, w, i),
    decreases n,
{
    if n - 1 > i {
        lemma_alu_a_last_writer(m, w, (n - 1) as nat, i);
        assert(!(slot_active(m, w, n - 1) && w.slots@[n - 1].dst_sock == dst::ALU_A));
    }
}

/// The trigger phase leaves the operand latches alone.
proof fn lemma_trigger_phase_keeps_latches(m: MachineState, w: IWord, n: nat)
    ensures
        trigger_writes(m, w, n).alu_a == operand_writes(m, w, 4).alu_a,
        trigger_writes(m, w, n).lsu_st_a == operand_writes(m, w, 4).lsu_st_a,
        trigger_writes(m, w, n).mul_a == operand_writes(m, w, 4).mul_a,
    decreases n,
{
    if n > 0 {
        lemma_trigger_phase_keeps_latches(m, w, (n - 1) as nat);
    }
}

/// `ALU.R` after the trigger writes of slots `0..n`, when slot `j` is the
/// last executing ALU arithmetic trigger among them.
proof fn lemma_alu_r_last_trigger(m: MachineState, w: IWord, n: nat, j: int)
    requires
        0 <= j < n <= 4,
        slot_active(m, w, j),
        alu_arith_trigger(w.slots@[j].dst_sock),
        forall|k: int|
            j < k < n ==> !(#[trigger] slot_active(m, w, k) && alu_arith_trigger(
                w.slots@[k].dst_sock,
            )),
    ensures
        trigger_writes(m, w, n).alu_r == alu_result(
            w.slots@[j].dst_sock,
            operand_writes(m, w, 4).alu_a,
            slot_value(m, w, j),
        ),
    decreases n,
{
    lemma_trigger_phase_keeps_latches(m, w, (n - 1) as nat);
    if n - 1 > j {
        lemma_alu_r_last_trigger(m, w, (n - 1) as nat, j);
        assert(!(slot_active(m, w, n - 1) && alu_arith_trigger(w.slots@[n - 1].dst_sock)));
    }
}

/// Operand before trigger: when one slot latches `ALU_A` and another
/// fires an ALU arithmetic trigger in the same cycle, the trigger computes
/// with the freshly latched operand, whichever of the two slots comes first.
pub proof fn lemma_operand_latches_before_trigger(m: MachineState, i: int, j: int)
    requires
        !m.halted,
        (m.pc as int) < m.imem.len(),
        0 <= i < 4,
        0 <= j < 4,
        slot_active(m, current_word(m), i),
        current_word(m).slots@[i].dst_sock == dst::ALU_A,
        forall|k: int|
            0 <= k < 4 && k != i ==> !(#[trigger] slot_active(m, current_word(m), k)
                && current_word(m).slots@[k].dst_sock == dst::ALU_A),
        slot_active(m, current_word(m), j),
        alu_arith_trigger(current_word(m).slots@[j].dst_sock),
        forall|k: int|
            0 <= k < 4 && k != j ==> !(#[trigger] slot_active(m, current_word(m), k)
                && alu_arith_trigger(current_word(m).slots@[k].dst_sock)),
    ensures
        step_state(m).alu_r == alu_result(
            current_word(m).slots@[j].dst_sock,
            source_value(m, current_word(m).slots@[i]),
            source_value(m, current_word(m).slots@[j]),
        ),
{
    let w = current_word(m);
    lemma_alu_a_last_writer(m, w, 4, i);
    lemma_alu_r_last_trigger(m, w, 4, j);
}

/// The trigger phase's latest store address and a store's effect: a store
/// to `HALT` halts the machine with the stored value, read as signed, as the
/// exit code.
proof fn lemma_halt_store(m: MachineState, w: IWord, n: nat, j: int)
    requires
        0 <= j < n <= 4,
        in_trigger_phase(m, w, j),
        w.slots@[j].dst_sock == dst::LSU_ST_T,
        operand_writes(m, w, 4).lsu_st_a == mmio::HALT,
        forall|k: int|
            j < k < n ==> !(#[trigger] in_trigger_phase(m, w, k) && w.slots@[k].dst_sock
                == dst::LSU_ST_T),
    ensures
        trigger_writes(m, w, n).halted,
        trigger_writes(m, w, n).exit_code == (slot_value(m, w, j) as i16) as i32,
    decreases n,
{
    lemma_trigger_phase_keeps_latches(m, w, (n - 1) as nat);
    if n - 1 > j {
        lemma_halt_store(m, w, (n - 1) as nat, j);
        assert(!(in_trigger_phase(m, w, n - 1) && w.slots@[n - 1].dst_sock == dst::LSU_ST_T));
    }
}

/// Halt: a cycle whose only store goes to the `HALT` address leaves
/// the machine halted, with the stored value (read as signed) as exit code.
pub proof fn lemma_store_to_halt_halts(m: MachineState, j: int)
    requires
        !m.halted,
        (m.pc as int) < m.imem.len(),
        0 <= j < 4,
        in_trigger_phase(m, current_word(m), j),
        current_word(m).slots@[j].dst_sock == dst::LSU_ST_T,
        operand_writes(m, current_word(m), 4).lsu_st_a == mmio::HALT,
        forall|k: int|
            0 <= k < 4 && k != j ==> !(#[trigger] in_trigger_phase(m, current_word(m), k)
                && current_word(m).slots@[k].dst_sock == dst::LSU_ST_T),
    ensures
        step_state(m).halted,
        step_state(m).exit_code == (source_value(m, current_word(m).slots@[j]) as i16) as i32,
{
    lemma_halt_store(m, current_word(m), 4, j);
}

// ─── Execution ──────────────────────────────────────────────────────────────

impl Machine {
    /// A machine at reset: PC, registers, latches and ports zero, `imem`
    /// loaded, 32 KW of zeroed data RAM, no input waiting, not halted.
    pub fn new(imem: Vec<IWord>) -> (m: Machine)
        ensures
            m@ == (MachineState {
                pc: 0,
                gprs: Seq::new(16, |i: int| 0u16),
                p0: false,
                alu_a: 0,
                lsu_st_a: 0,
                mul_a: 0,
                alu_r: 0,
                alu_p: false,
                lsu_r: 0,
                mul_r: 0,
                imem: imem@,
                dmem: Seq::new(isa::RAM_SIZE as nat, |i: int| 0u16),
                cycles: 0,
                halted: false,
                exit_code: 0,
                input: Seq::empty(),
                input_pos: 0,
            }),
    {
        let m = Machine {
            pc: 0,
            gprs: [0; 16],
            p0: false,
            alu_a: 0,
            lsu_st_a: 0,
            mul_a: 0,
            alu_r: 0,
            alu_p: false,
            lsu_r: 0,
            mul_r: 0,
            imem,
            dmem: vec![0; isa::RAM_SIZE],
            cycles: 0,
            halted: false,
            exit_code: 0,
            input: Vec::new(),
            input_pos: 0,
        };
        assert(m.gprs@ =~= Seq::new(16, |i: int| 0u16));
        assert(m.dmem@ =~= Seq::new(isa::RAM_SIZE as nat, |i: int| 0u16));
        m
    }

    /// Queue a byte that arrived on standard input; loads from
    /// `STDIN_CHAR` take the queued bytes in arrival order.
    pub fn feed_input(&mut self, byte: u8)
        ensures
            final(self)@ == (MachineState { input: old(self)@.input.push(byte), ..old(self)@ }),
    {
        self.input.push(byte);
    }

    // ─── Guard evaluation ──────────────────────────────────────────────

    fn eval_guard(&self, g: u8) -> (b: bool)
        requires
            g < 4,
        ensures
            b == guard_passes(g, self.p0),
    {
        if g == guard::ALWAYS {
            true
        } else if g == guard::IF_P0 {
            self.p0
        } else if g == guard::IF_NP0 {
            !self.p0
        } else {
            false
        }
    }

    // ─── Source read ─────────────────────────────────────────────────

    fn read_source(&self, slot: &Slot) -> (v: u16)
        requires
            source_defined(slot.src_sock),
        ensures
            v == source_value(self@, *slot),
    {
        let s = slot.src_sock;
        if src::is_gpr(s) {
            return self.gprs[src::gpr_idx(s)];
        }
        if s == src::BRF_P0 {
            if self.p0 { 1 } else { 0 }
        } else if s == src::ALU_R {
            self.alu_r
        } else if s == src::ALU_P {
            if self.alu_p { 1 } else { 0 }
        } else if s == src::LSU_R {
            self.lsu_r
        } else if s == src::IMMEDIATE {
            slot.src_data
        } else {
            self.mul_r
        }
    }

    // ─── D-memory load with MMIO dispatch ───────────────────────────────────

    fn dmem_load(&mut self, addr: u16) -> (v: u16)
        requires
            ram_access_fits(old(self)@, addr),
        ensures
            v == load_value(old(self)@, addr),
            final(self)@ == load_state(old(self)@, addr),
    {
        if addr == mmio::STDIN_CHAR {
            if self.input_pos < self.input.len() {
                let b = self.input[self.input_pos];
                self.input_pos = self.input_pos + 1;
                b as u16
            } else {
                // no input waiting
                0
            }
        } else if addr == mmio::CYCLE_LO {
            self.cycles as u16
        } else if addr == mmio::CYCLE_HI {
            (self.cycles >> 16u64) as u16
        } else if (addr as usize) < isa::RAM_SIZE {
            self.dmem[addr as usize]
        } else {
            // unmapped: undefined by the ISA; the emulator returns 0
            0
        }
    }

    // ─── D-memory store with MMIO dispatch ──────────────────────────────────

    fn dmem_store(&mut self, addr: u16, val: u16) -> (out: Option<Output>)
        requires
            ram_access_fits(old(self)@, addr),
        ensures
            final(self)@ == store_state(old(self)@, addr, val),
            out == store_output(addr, val),
    {
        if addr == mmio::STDOUT_CHAR {
            Some(Output::Char(val as u8))
        } else if addr == mmio::STDOUT_INT {
            Some(Output::Int(val as i16))
        } else if addr == mmio::STDOUT_HEX {
            Some(Output::Hex(val))
        } else if addr == mmio::HALT {
            self.halted = true;
            self.exit_code = (val as i16) as i32;
            None
        } else if (addr as usize) < isa::RAM_SIZE {
            self.dmem.set(addr as usize, val);
            None
        } else {
            // unmapped: undefined by the ISA
            None
        }
    }

    // ─── Destination write ───────────────────────────────────────────
    //
    // Returns the jump target if this write was a GCU jump trigger, and the
    // output event if it was a store to an output address.

    fn write_dest(&mut self, d: u8, val: u16) -> (r: (Option<u16>, Option<Output>))
        requires
            write_defined(old(self)@, d, val),
        ensures
            final(self)@ == write_state(old(self)@, d, val),
            r.0 == (if d == dst::GCU_JMP_T { Some(val) } else { None }),
            r.1 == write_output(old(self)@, d, val),
    {
        if dst::is_gpr(d) {
            self.gprs[dst::gpr_idx(d)] = val;
            return (None, None);
        }
        let sh = (val & 0xF) as u32;
        if d == dst::BRF_P0 {
            self.p0 = val != 0;
        } else if d == dst::ALU_A {
            self.alu_a = val;
        } else if d == dst::ALU_ADD_T {
            self.alu_r = self.alu_a.wrapping_add(val);
        } else if d == dst::ALU_SUB_T {
            self.alu_r = self.alu_a.wrapping_sub(val);
        } else if d == dst::ALU_AND_T {
            self.alu_r = self.alu_a & val;
        } else if d == dst::ALU_OR_T {
            self.alu_r = self.alu_a | val;
        } else if d == dst::ALU_XOR_T {
            self.alu_r = self.alu_a ^ val;
        } else if d == dst::ALU_SHL_T {
            self.alu_r = self.alu_a.wrapping_shl(sh);
        } else if d == dst::ALU_SHR_T {
            self.alu_r = self.alu_a.wrapping_shr(sh);
        } else if d == dst::ALU_SSHR_T {
            self.alu_r = (self.alu_a as i16).wrapping_shr(sh) as u16;
        } else if d == dst::ALU_EQ_T {
            self.alu_p = self.alu_a == val;
        } else if d == dst::ALU_NE_T {
            self.alu_p = self.alu_a != val;
        } else if d == dst::ALU_LT_T {
            self.alu_p = (self.alu_a as i16) < (val as i16);
        } else if d == dst::ALU_LE_T {
            self.alu_p = (self.alu_a as i16) <= (val as i16);
        } else if d == dst::ALU_GT_T {
            self.alu_p = (self.alu_a as i16) > (val as i16);
        } else if d == dst::ALU_GE_T {
            self.alu_p = (self.alu_a as i16) >= (val as i16);
        } else if d == dst::LSU_LD_T {
            let v = self.dmem_load(val);
            self.lsu_r = v;
        } else if d == dst::LSU_ST_A {
            self.lsu_st_a = val;
        } else if d == dst::LSU_ST_T {
            let addr = self.lsu_st_a;
            let out = self.dmem_store(addr, val);
            return (None, out);
        } else if d == dst::GCU_JMP_T {
            return (Some(val), None);
        } else if d == dst::DISCARD {
        } else if d == dst::MUL_A {
            self.mul_a = val;
        } else {
            self.mul_r = self.mul_a.wrapping_mul(val);
        }
        (None, None)
    }
}

impl Machine {
    /// Execute one instruction word at PC and return the output events its
    /// stores to the standard-output addresses produced, in slot order. A
    /// halted machine does nothing.
    pub fn step(&mut self) -> (outs: Vec<Output>)
        requires
            step_defined(old(self)@),
        ensures
            final(self)@ == step_state(old(self)@),
            outs@ == step_outputs(old(self)@),
    {
        let mut outs: Vec<Output> = Vec::new();
        if self.halted {
            return outs;
        }
        let ghost m = self@;
        let word = self.imem[self.pc as usize];
        assert(word == current_word(m));
        assert(slot_defined(m, 0) && slot_defined(m, 1) && slot_defined(m, 2) && slot_defined(m, 3));

        // ─── Phase 1: snapshot ──────────────────────────────────────────────
        let mut active = [false; 4];
        let mut srcs = [0u16; 4];
        for i in 0..4
            invariant
                self@ == m,
                word == current_word(m),
                forall|j: int| 0 <= j < 4 ==> #[trigger] slot_defined(m, j),
                forall|j: int| 0 <= j < i ==> active@[j] == #[trigger] slot_active(m, word, j),
                forall|j: int| 0 <= j < i ==> srcs@[j] == #[trigger] slot_value(m, word, j),
        {
            assert(slot_defined(m, i as int));
            active[i] = self.eval_guard(word.slots[i].guard);
            if active[i] {
                srcs[i] = self.read_source(&word.slots[i]);
            } else {
                srcs[i] = 0;
            }
        }

        // ─── Phase 2a: operand-port writes ──────────────────────────────────
        for i in 0..4
            invariant
                self@ == operand_writes(m, word, i as nat),
                word == current_word(m),
                forall|j: int| 0 <= j < 4 ==> #[trigger] slot_defined(m, j),
                forall|j: int| 0 <= j < 4 ==> active@[j] == #[trigger] slot_active(m, word, j),
                forall|j: int| 0 <= j < 4 ==> srcs@[j] == #[trigger] slot_value(m, word, j),
        {
            assert(slot_defined(m, i as int));
            assert(active@[i as int] == slot_active(m, word, i as int));
            assert(srcs@[i as int] == slot_value(m, word, i as int));
            if active[i] {
                let d = word.slots[i].dst_sock;
                if dst::is_operand_port(d) {
                    let _ = self.write_dest(d, srcs[i]);
                }
            }
        }

        // ─── Phase 2b: all other writes (including FU triggers) ─────────────
        proof {
            lemma_operand_phase_keeps(m, word, 4);
            lemma_trigger_phase_keeps(m, word, 4);
        }
        let mut next_pc = self.pc.wrapping_add(1);
        for i in 0..4
            invariant
                self@ == trigger_writes(m, word, i as nat),
                next_pc == pc_after(m, word, i as nat),
                outs@ == trigger_outputs(m, word, i as nat),
                word == current_word(m),
                forall|j: int| 0 <= j < 4 ==> #[trigger] slot_defined(m, j),
                forall|j: int| 0 <= j < 4 ==> active@[j] == #[trigger] slot_active(m, word, j),
                forall|j: int| 0 <= j < 4 ==> srcs@[j] == #[trigger] slot_value(m, word, j),
        {
            assert(slot_defined(m, i as int));
            assert(active@[i as int] == slot_active(m, word, i as int));
            assert(srcs@[i as int] == slot_value(m, word, i as int));
            if active[i] {
                let d = word.slots[i].dst_sock;
                if !dst::is_operand_port(d) {
                    let (jump, out) = self.write_dest(d, srcs[i]);
                    if let Some(target) = jump {
                        next_pc = target;
                    }
                    if let Some(o) = out {
                        outs.push(o);
                    }
                }
            }
        }

        self.pc = next_pc;
        self.cycles = self.cycles.wrapping_add(1);
        outs
    }
}

impl Machine {
    /// Step until the machine halts or `fuel` steps have been taken. Returns
    /// the exit code, once halted, and the output events of all the steps
    /// in order.
    pub fn run(&mut self, fuel: u64) -> (r: (Option<i32>, Vec<Output>))
        requires
            run_defined(old(self)@, fuel as nat),
        ensures
            final(self)@ == run_state(old(self)@, fuel as nat),
            r.1@ == run_outputs(old(self)@, fuel as nat),
            r.0 == (if final(self)@.halted { Some(final(self)@.exit_code) } else { None::<i32> }),
    {
        let ghost m0 = self@;
        let mut outs: Vec<Output> = Vec::new();
        let mut left = fuel;
        while left > 0 && !self.halted
            invariant
                run_defined(self@, left as nat),
                run_state(self@, left as nat) == run_state(m0, fuel as nat),
                outs@ + run_outputs(self@, left as nat) == run_outputs(m0, fuel as nat),
            decreases left,
        {
            let ghost before = self@;
            let step_outs = self.step();
            let mut k: usize = 0;
            let ghost outs0 = outs@;
            while k < step_outs.len()
                invariant
                    k <= step_outs.len(),
                    outs@ == outs0 + step_outs@.subrange(0, k as int),
                decreases step_outs.len() - k,
            {
                outs.push(step_outs[k]);
                k = k + 1;
                assert(outs@ =~= outs0 + step_outs@.subrange(0, k as int));
            }
            assert(step_outs@.subrange(0, k as int) =~= step_outs@);
            assert(outs@ + run_outputs(self@, (left - 1) as nat) =~= outs0 + run_outputs(before, left as nat));
            left = left - 1;
        }
        // Out of fuel or halted: nothing more is run.
        assert(outs@ + run_outputs(self@, left as nat) =~= outs@);
        if self.halted {
            (Some(self.exit_code), outs)
        } else {
            (None, outs)
        }
    }
}

impl Machine {
    /// Whether [`Machine::step`] can run from the current state: the machine
    /// is halted, or the PC addresses instruction memory and every slot of
    /// the current word has a valid guard, and, when it executes, a defined
    /// source and destination and RAM accesses inside data memory.
    pub fn can_step(&self) -> (ok: bool)
        ensures
            ok == step_defined(self@),
    {
        if self.halted {
            return true;
        }
        if (self.pc as usize) >= self.imem.len() {
            return false;
        }
        let ghost m = self@;
        let word = self.imem[self.pc as usize];
        assert(word == current_word(m));

        // Guards and sources, read against the snapshot.
        let mut active = [false; 4];
        let mut srcs = [0u16; 4];
        for i in 0..4
            invariant
                self@ == m,
                word == current_word(m),
                !m.halted,
                (m.pc as int) < m.imem.len(),
                forall|j: int| 0 <= j < i ==> (#[trigger] word.slots@[j]).guard < 4,
                forall|j: int| 0 <= j < i ==> slot_active(m, word, j) ==> source_defined(#[trigger] word.slots@[j].src_sock),
                forall|j: int| 0 <= j < i ==> active@[j] == #[trigger] slot_active(m, word, j),
                forall|j: int| 0 <= j < i ==> srcs@[j] == #[trigger] slot_value(m, word, j),
        {
            let s = word.slots[i];
            if s.guard >= 4 {
                assert(!slot_defined(m, i as int));
                assert(!step_defined(m));
                return false;
            }
            active[i] = self.eval_guard(s.guard);
            if active[i] {
                if s.src_sock > src::MUL_R {
                    assert(!slot_defined(m, i as int));
                    assert(!step_defined(m));
                    return false;
                }
                srcs[i] = self.read_source(&s);
            } else {
                srcs[i] = 0;
            }
        }

        // The store address latched by the operand phase.
        let mut st_a = self.lsu_st_a;
        for i in 0..4
            invariant
                st_a == operand_writes(m, word, i as nat).lsu_st_a,
                operand_writes(m, word, i as nat).dmem.len() == m.dmem.len(),
                forall|j: int| 0 <= j < 4 ==> active@[j] == #[trigger] slot_active(m, word, j),
                forall|j: int| 0 <= j < 4 ==> srcs@[j] == #[trigger] slot_value(m, word, j),
        {
            assert(active@[i as int] == slot_active(m, word, i as int));
            assert(srcs@[i as int] == slot_value(m, word, i as int));
            if active[i] && word.slots[i].dst_sock == dst::LSU_ST_A {
                st_a = srcs[i];
            }
        }

        // The writes of the trigger phase.
        let dmem_len = self.dmem.len();
        for i in 0..4
            invariant
                self@ == m,
                word == current_word(m),
                !m.halted,
                (m.pc as int) < m.imem.len(),
                dmem_len == m.dmem.len(),
                st_a == operand_writes(m, word, 4).lsu_st_a,
                forall|j: int| 0 <= j < 4 ==> (#[trigger] word.slots@[j]).guard < 4,
                forall|j: int| 0 <= j < 4 ==> slot_active(m, word, j) ==> source_defined(#[trigger] word.slots@[j].src_sock),
                forall|j: int| 0 <= j < 4 ==> active@[j] == #[trigger] slot_active(m, word, j),
                forall|j: int| 0 <= j < 4 ==> srcs@[j] == #[trigger] slot_value(m, word, j),
                forall|j: int| 0 <= j < i ==> #[trigger] slot_defined(m, j),
                trigger_writes(m, word, i as nat).dmem.len() == m.dmem.len(),
                trigger_writes(m, word, i as nat).lsu_st_a == st_a,
        {
            assert(active@[i as int] == slot_active(m, word, i as int));
            assert(srcs@[i as int] == slot_value(m, word, i as int));
            assert(word.slots@[i as int].guard < 4);
            let d = word.slots[i].dst_sock;
            let v = srcs[i];
            if active[i] && !dst::is_operand_port(d) {
                if d > dst::MUL_T {
                    assert(!slot_defined(m, i as int));
                    assert(!step_defined(m));
                    return false;
                }
                if d == dst::LSU_LD_T && (v as usize) < isa::RAM_SIZE && (v as usize) >= dmem_len {
                    assert(!slot_defined(m, i as int));
                    assert(!step_defined(m));
                    return false;
                }
                if d == dst::LSU_ST_T && (st_a as usize) < isa::RAM_SIZE && (st_a as usize)
                    >= dmem_len {
                    assert(!slot_defined(m, i as int));
                    assert(!step_defined(m));
                    return false;
                }
            }
            assert(slot_defined(m, i as int));
        }
        assert(forall|j: int| 0 <= j < 4 ==> #[trigger] slot_defined(m, j));
        true
    }
}

} // verus!
