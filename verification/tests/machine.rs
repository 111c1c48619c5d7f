//! Programs run on the machine model, hand-encoded at the word level.

use toasttta::isa::{dst, guard, mmio, src};
use toasttta::machine::{output_text, Output};
use toasttta::{IWord, Machine, Slot};

fn s(g: u8, src_sock: u8, data: u16, dst_sock: u8) -> Slot {
    Slot::new(g, src_sock, data, dst_sock)
}

fn nop() -> Slot {
    Slot::nop()
}

/// More steps than any program here takes.
const FUEL: u64 = 10_000;

#[test]
fn add_then_halt() {
    let imem = vec![
        IWord::new(
            s(guard::ALWAYS, src::IMMEDIATE, 3, dst::ALU_A),
            s(guard::ALWAYS, src::IMMEDIATE, 4, dst::ALU_ADD_T),
            nop(),
            nop(),
        ),
        IWord::new(s(guard::ALWAYS, src::ALU_R, 0, dst::GPR_R0), nop(), nop(), nop()),
        IWord::new(
            s(guard::ALWAYS, src::IMMEDIATE, mmio::HALT, dst::LSU_ST_A),
            s(guard::ALWAYS, src::GPR_R0, 0, dst::LSU_ST_T),
            nop(),
            nop(),
        ),
    ];

    let mut m = Machine::new(imem);
    let exit = m.run(FUEL).0.expect("the program halts");

    assert_eq!(m.gprs[0], 7, "r0 should be 7");
    assert_eq!(exit, 7, "exit code should be 7 (the halt value)");
    assert!(m.halted);
}

#[test]
fn quiz_q7_schedule() {
    let imem = vec![
        IWord::new(
            s(guard::ALWAYS, src::IMMEDIATE, 10, dst::GPR_R0),
            s(guard::ALWAYS, src::IMMEDIATE, 3, dst::GPR_R1),
            s(guard::ALWAYS, src::IMMEDIATE, 20, dst::GPR_R2),
            nop(),
        ),
        IWord::new(
            s(guard::ALWAYS, src::GPR_R0, 0, dst::ALU_A),
            s(guard::ALWAYS, src::GPR_R1, 0, dst::ALU_ADD_T),
            nop(),
            nop(),
        ),
        IWord::new(
            s(guard::ALWAYS, src::ALU_R, 0, dst::GPR_R3),
            s(guard::ALWAYS, src::GPR_R2, 0, dst::ALU_A),
            s(guard::ALWAYS, src::GPR_R0, 0, dst::ALU_SUB_T),
            nop(),
        ),
        IWord::new(
            s(guard::ALWAYS, src::GPR_R3, 0, dst::ALU_A),
            s(guard::ALWAYS, src::ALU_R, 0, dst::ALU_SUB_T),
            nop(),
            nop(),
        ),
        IWord::new(s(guard::ALWAYS, src::ALU_R, 0, dst::GPR_R3), nop(), nop(), nop()),
        IWord::new(
            s(guard::ALWAYS, src::IMMEDIATE, mmio::HALT, dst::LSU_ST_A),
            s(guard::ALWAYS, src::IMMEDIATE, 0, dst::LSU_ST_T),
            nop(),
            nop(),
        ),
    ];

    let mut m = Machine::new(imem);
    m.run(FUEL);

    assert_eq!(m.gprs[3], 3, "r3 should be (10+3) - (20-10) = 3");
    assert!(m.halted);
}

#[test]
fn predicated_assignment() {
    let imem = vec![
        IWord::new(s(guard::ALWAYS, src::IMMEDIATE, 5, dst::GPR_R0), nop(), nop(), nop()),
        IWord::new(
            s(guard::ALWAYS, src::GPR_R0, 0, dst::ALU_A),
            s(guard::ALWAYS, src::IMMEDIATE, 10, dst::ALU_LT_T),
            nop(),
            nop(),
        ),
        IWord::new(s(guard::ALWAYS, src::ALU_P, 0, dst::BRF_P0), nop(), nop(), nop()),
        IWord::new(
            s(guard::IF_P0, src::IMMEDIATE, 99, dst::GPR_R1),
            s(guard::IF_NP0, src::IMMEDIATE, 7, dst::GPR_R1),
            nop(),
            nop(),
        ),
        IWord::new(
            s(guard::ALWAYS, src::IMMEDIATE, mmio::HALT, dst::LSU_ST_A),
            s(guard::ALWAYS, src::IMMEDIATE, 0, dst::LSU_ST_T),
            nop(),
            nop(),
        ),
    ];

    let mut m = Machine::new(imem);
    m.run(FUEL);

    assert_eq!(m.gprs[1], 99, "predicate true → r1 = 99");
}

#[test]
fn halted_machine_does_not_move() {
    let imem = vec![IWord::new(
        s(guard::ALWAYS, src::IMMEDIATE, mmio::HALT, dst::LSU_ST_A),
        s(guard::ALWAYS, src::IMMEDIATE, 0xFFFF, dst::LSU_ST_T),
        nop(),
        nop(),
    )];
    let mut m = Machine::new(imem);
    m.step();
    assert!(m.halted);
    assert_eq!(m.exit_code, -1);
    let (pc, cycles) = (m.pc, m.cycles);
    assert!(m.step().is_empty());
    assert_eq!((m.pc, m.cycles), (pc, cycles));
}

#[test]
fn jump_overrides_increment_and_operands_latch_first() {
    // ALU_A and ALU_ADD_T in one word: the trigger sees the new operand.
    // A jump in the same word moves the PC to its target.
    let imem = vec![
        IWord::new(
            s(guard::ALWAYS, src::IMMEDIATE, 5, dst::ALU_ADD_T),
            s(guard::ALWAYS, src::IMMEDIATE, 2, dst::GCU_JMP_T),
            s(guard::ALWAYS, src::IMMEDIATE, 40, dst::ALU_A),
            nop(),
        ),
        IWord::new(s(guard::ALWAYS, src::IMMEDIATE, 1, dst::GPR_R5), nop(), nop(), nop()),
        IWord::new(
            s(guard::ALWAYS, src::IMMEDIATE, mmio::HALT, dst::LSU_ST_A),
            s(guard::ALWAYS, src::ALU_R, 0, dst::LSU_ST_T),
            nop(),
            nop(),
        ),
    ];
    let mut m = Machine::new(imem);
    m.step();
    assert_eq!(m.pc, 2);
    assert_eq!(m.alu_r, 45);
    let (exit, _) = m.run(FUEL);
    assert_eq!(exit, Some(45));
    assert_eq!(m.gprs[5], 0);
    assert_eq!(m.cycles, 2);
}

#[test]
fn sources_are_read_before_any_write() {
    // r0 <- r1 and r1 <- r0 in one word swap the registers.
    let imem = vec![
        IWord::new(
            s(guard::ALWAYS, src::IMMEDIATE, 1, dst::GPR_R0),
            s(guard::ALWAYS, src::IMMEDIATE, 2, dst::GPR_R1),
            nop(),
            nop(),
        ),
        IWord::new(
            s(guard::ALWAYS, src::GPR_R1, 0, dst::GPR_R0),
            s(guard::ALWAYS, src::GPR_R0, 0, dst::GPR_R1),
            nop(),
            nop(),
        ),
    ];
    let mut m = Machine::new(imem);
    m.step();
    m.step();
    assert_eq!((m.gprs[0], m.gprs[1]), (2, 1));
}

#[test]
fn stores_and_loads_through_memory() {
    let imem = vec![
        IWord::new(
            s(guard::ALWAYS, src::IMMEDIATE, 0x0100, dst::LSU_ST_A),
            s(guard::ALWAYS, src::IMMEDIATE, 0xBEEF, dst::LSU_ST_T),
            nop(),
            nop(),
        ),
        IWord::new(s(guard::ALWAYS, src::IMMEDIATE, 0x0100, dst::LSU_LD_T), nop(), nop(), nop()),
        IWord::new(
            s(guard::ALWAYS, src::IMMEDIATE, mmio::STDOUT_HEX, dst::LSU_ST_A),
            s(guard::ALWAYS, src::LSU_R, 0, dst::LSU_ST_T),
            nop(),
            nop(),
        ),
        IWord::new(
            s(guard::ALWAYS, src::IMMEDIATE, mmio::STDOUT_INT, dst::LSU_ST_A),
            s(guard::ALWAYS, src::IMMEDIATE, 0xFFFE, dst::LSU_ST_T),
            nop(),
            nop(),
        ),
        IWord::new(
            s(guard::ALWAYS, src::IMMEDIATE, mmio::HALT, dst::LSU_ST_A),
            s(guard::ALWAYS, src::IMMEDIATE, 3, dst::LSU_ST_T),
            nop(),
            nop(),
        ),
    ];
    let mut m = Machine::new(imem);
    let (exit, outs) = m.run(FUEL);
    assert_eq!(m.dmem[0x0100], 0xBEEF);
    assert_eq!(m.lsu_r, 0xBEEF);
    assert_eq!(outs, vec![Output::Hex(0xBEEF), Output::Int(-2)]);
    assert_eq!(exit, Some(3));
}

#[test]
fn alu_compare_and_shift_semantics() {
    let imem = vec![
        IWord::new(
            s(guard::ALWAYS, src::IMMEDIATE, 0xFFFF, dst::ALU_A),
            s(guard::ALWAYS, src::IMMEDIATE, 1, dst::ALU_LT_T),
            nop(),
            nop(),
        ),
        IWord::new(
            s(guard::ALWAYS, src::IMMEDIATE, 0x8000, dst::ALU_A),
            s(guard::ALWAYS, src::IMMEDIATE, 0x13, dst::ALU_SSHR_T),
            nop(),
            nop(),
        ),
    ];
    let mut m = Machine::new(imem);
    m.step();
    assert!(m.alu_p, "-1 < 1 signed");
    m.step();
    assert_eq!(m.alu_r, 0xF000, "shift count is taken mod 16");
}

#[test]
fn out_of_range_pc_cannot_step() {
    let mut m = Machine::new(vec![]);
    assert!(!m.can_step());
    m.halted = true;
    assert!(m.can_step());
}

/// Three loads from `STDIN_CHAR` into r0, r1 and r2, then halt.
fn read_three_bytes() -> Vec<IWord> {
    vec![
        IWord::new(s(guard::ALWAYS, src::IMMEDIATE, mmio::STDIN_CHAR, dst::LSU_LD_T), nop(), nop(), nop()),
        IWord::new(
            s(guard::ALWAYS, src::LSU_R, 0, dst::GPR_R0),
            s(guard::ALWAYS, src::IMMEDIATE, mmio::STDIN_CHAR, dst::LSU_LD_T),
            nop(),
            nop(),
        ),
        IWord::new(
            s(guard::ALWAYS, src::LSU_R, 0, dst::GPR_R1),
            s(guard::ALWAYS, src::IMMEDIATE, mmio::STDIN_CHAR, dst::LSU_LD_T),
            nop(),
            nop(),
        ),
        IWord::new(s(guard::ALWAYS, src::LSU_R, 0, dst::GPR_R2), nop(), nop(), nop()),
        IWord::new(
            s(guard::ALWAYS, src::IMMEDIATE, mmio::HALT, dst::LSU_ST_A),
            s(guard::ALWAYS, src::IMMEDIATE, 0, dst::LSU_ST_T),
            nop(),
            nop(),
        ),
    ]
}

#[test]
fn stdin_loads_take_queued_bytes_in_order() {
    let mut m = Machine::new(read_three_bytes());
    m.feed_input(b'h');
    m.feed_input(b'i');
    assert_eq!(m.run(FUEL).0, Some(0));
    assert_eq!((m.gprs[0], m.gprs[1], m.gprs[2]), (0x68, 0x69, 0));
    assert_eq!(m.input_pos, 2);
}

#[test]
fn stdin_load_without_input_reads_zero() {
    let mut m = Machine::new(read_three_bytes());
    m.gprs[0] = 0x55;
    m.step();
    m.step();
    assert_eq!(m.gprs[0], 0);
    assert_eq!(m.input_pos, 0);
    // A byte that arrives later is read by a later load.
    m.feed_input(0xFF);
    m.step();
    assert_eq!(m.gprs[1], 0);
    assert_eq!(m.lsu_r, 0xFF);
    assert_eq!(m.input_pos, 1);
}

#[test]
fn run_stops_when_fuel_runs_out() {
    // An endless loop: jump to 0 forever.
    let imem = vec![IWord::new(s(guard::ALWAYS, src::IMMEDIATE, 0, dst::GCU_JMP_T), nop(), nop(), nop())];
    let mut m = Machine::new(imem);
    let (exit, outs) = m.run(25);
    assert_eq!(exit, None);
    assert!(outs.is_empty());
    assert_eq!(m.cycles, 25);
    assert!(!m.halted);
}

#[test]
fn run_past_halt_changes_nothing() {
    let imem = vec![
        IWord::new(
            s(guard::ALWAYS, src::IMMEDIATE, mmio::STDOUT_CHAR, dst::LSU_ST_A),
            s(guard::ALWAYS, src::IMMEDIATE, 0x41, dst::LSU_ST_T),
            nop(),
            nop(),
        ),
        IWord::new(
            s(guard::ALWAYS, src::IMMEDIATE, mmio::HALT, dst::LSU_ST_A),
            s(guard::ALWAYS, src::IMMEDIATE, 9, dst::LSU_ST_T),
            nop(),
            nop(),
        ),
    ];
    let mut a = Machine::new(imem.clone());
    let mut b = Machine::new(imem);
    let ra = a.run(2);
    let rb = b.run(1000);
    assert_eq!(ra, (Some(9), vec![Output::Char(0x41)]));
    assert_eq!(ra, rb);
    assert_eq!((a.pc, a.cycles), (b.pc, b.cycles));
}

#[test]
fn output_text_formats() {
    assert_eq!(output_text(&Output::Char(0x41)), "A");
    assert_eq!(output_text(&Output::Char(b'\n')), "\n");
    assert_eq!(output_text(&Output::Int(-1)), "-1");
    assert_eq!(output_text(&Output::Int(i16::MIN)), "-32768");
    assert_eq!(output_text(&Output::Int(1234)), "1234");
    assert_eq!(output_text(&Output::Hex(0xAB)), "0x00AB");
    assert_eq!(output_text(&Output::Hex(0xBEEF)), "0xBEEF");
    assert_eq!(output_text(&Output::Hex(0)), "0x0000");
}
