//! Whole-program assembly.

use toasttta::isa::{dst, guard, mmio, src};
use toasttta::machine::output_text;
use toasttta::{assemble, IWord, Machine, Slot};

fn s(g: u8, src_sock: u8, data: u16, dst_sock: u8) -> Slot {
    Slot::new(g, src_sock, data, dst_sock)
}

fn nop() -> Slot {
    Slot::nop()
}

#[test]
fn hello_program_assembles() {
    let src = "
.equ HALT 0xFFFE
main: #3 -> ALU_A; #4 -> ALU_ADD_T
      ALU_R -> r0
      #HALT -> LSU_ST_A; r0 -> LSU_ST_T
";
    let words = assemble(src, "test.tasm").unwrap();
    assert_eq!(words.len(), 3);
}

const SAMPLE_PROG: &str = "\
.equ STDOUT_CHAR 0xFF00
.equ STDOUT_INT  0xFF01
.equ HALT        0xFFFE

main:
  // banner: \"ToastTTA v1.0\\n\" - 14 chars
  #STDOUT_CHAR -> LSU_ST_A; #'T' -> LSU_ST_T
  #STDOUT_CHAR -> LSU_ST_A; #'o' -> LSU_ST_T
  #STDOUT_CHAR -> LSU_ST_A; #'a' -> LSU_ST_T
  #STDOUT_CHAR -> LSU_ST_A; #'s' -> LSU_ST_T
  #STDOUT_CHAR -> LSU_ST_A; #'t' -> LSU_ST_T
  #STDOUT_CHAR -> LSU_ST_A; #'T' -> LSU_ST_T
  #STDOUT_CHAR -> LSU_ST_A; #'T' -> LSU_ST_T
  #STDOUT_CHAR -> LSU_ST_A; #'A' -> LSU_ST_T
  #STDOUT_CHAR -> LSU_ST_A; #' ' -> LSU_ST_T
  #STDOUT_CHAR -> LSU_ST_A; #'v' -> LSU_ST_T
  #STDOUT_CHAR -> LSU_ST_A; #'1' -> LSU_ST_T
  #STDOUT_CHAR -> LSU_ST_A; #'.' -> LSU_ST_T
  #STDOUT_CHAR -> LSU_ST_A; #'0' -> LSU_ST_T
  #STDOUT_CHAR -> LSU_ST_A; #'\\n' -> LSU_ST_T

  // sum = 1+...+10 in a predicated loop
  #0 -> r0; #1 -> r1; #10 -> r2

loop:
  r1 -> ALU_A; r2 -> ALU_LE_T
  ALU_P -> p0
  [!p0] #print -> GCU_JMP_T; r0 -> ALU_A; r1 -> ALU_ADD_T
  ALU_R -> r0; r1 -> ALU_A; #1 -> ALU_ADD_T
  ALU_R -> r1; #loop -> GCU_JMP_T

print:
  #STDOUT_INT  -> LSU_ST_A; r0 -> LSU_ST_T
  #STDOUT_CHAR -> LSU_ST_A; #'\\n' -> LSU_ST_T
  #HALT        -> LSU_ST_A; r0 -> LSU_ST_T
";

fn emit_putc(c: char) -> IWord {
    IWord::new(
        s(guard::ALWAYS, src::IMMEDIATE, mmio::STDOUT_CHAR, dst::LSU_ST_A),
        s(guard::ALWAYS, src::IMMEDIATE, c as u16, dst::LSU_ST_T),
        nop(),
        nop(),
    )
}

/// The sample program built word by word.
fn sample_prog_by_hand() -> Vec<IWord> {
    let mut imem: Vec<IWord> = "ToastTTA v1.0\n".chars().map(emit_putc).collect();
    let loop_label = (imem.len() + 1) as u16;
    let print_label = (imem.len() + 6) as u16;
    imem.push(IWord::new(
        s(guard::ALWAYS, src::IMMEDIATE, 0, dst::GPR_R0),
        s(guard::ALWAYS, src::IMMEDIATE, 1, dst::GPR_R1),
        s(guard::ALWAYS, src::IMMEDIATE, 10, dst::GPR_R2),
        nop(),
    ));
    imem.push(IWord::new(
        s(guard::ALWAYS, src::GPR_R1, 0, dst::ALU_A),
        s(guard::ALWAYS, src::GPR_R2, 0, dst::ALU_LE_T),
        nop(),
        nop(),
    ));
    imem.push(IWord::new(s(guard::ALWAYS, src::ALU_P, 0, dst::BRF_P0), nop(), nop(), nop()));
    imem.push(IWord::new(
        s(guard::IF_NP0, src::IMMEDIATE, print_label, dst::GCU_JMP_T),
        s(guard::ALWAYS, src::GPR_R0, 0, dst::ALU_A),
        s(guard::ALWAYS, src::GPR_R1, 0, dst::ALU_ADD_T),
        nop(),
    ));
    imem.push(IWord::new(
        s(guard::ALWAYS, src::ALU_R, 0, dst::GPR_R0),
        s(guard::ALWAYS, src::GPR_R1, 0, dst::ALU_A),
        s(guard::ALWAYS, src::IMMEDIATE, 1, dst::ALU_ADD_T),
        nop(),
    ));
    imem.push(IWord::new(
        s(guard::ALWAYS, src::ALU_R, 0, dst::GPR_R1),
        s(guard::ALWAYS, src::IMMEDIATE, loop_label, dst::GCU_JMP_T),
        nop(),
        nop(),
    ));
    imem.push(IWord::new(
        s(guard::ALWAYS, src::IMMEDIATE, mmio::STDOUT_INT, dst::LSU_ST_A),
        s(guard::ALWAYS, src::GPR_R0, 0, dst::LSU_ST_T),
        nop(),
        nop(),
    ));
    imem.push(emit_putc('\n'));
    imem.push(IWord::new(
        s(guard::ALWAYS, src::IMMEDIATE, mmio::HALT, dst::LSU_ST_A),
        s(guard::ALWAYS, src::GPR_R0, 0, dst::LSU_ST_T),
        nop(),
        nop(),
    ));
    imem
}

#[test]
fn sample_program_matches_hand_encoding() {
    let words = assemble(SAMPLE_PROG, "sample_prog.tasm").unwrap();
    let reference = sample_prog_by_hand();
    assert_eq!(words.len(), 23);
    assert_eq!(words, reference);
    let bytes: Vec<u8> = words.iter().flat_map(|w| w.encode().to_le_bytes()).collect();
    let expected: Vec<u8> = reference.iter().flat_map(|w| w.encode().to_le_bytes()).collect();
    assert_eq!(bytes, expected);
}

#[test]
fn assembled_sample_program_runs() {
    let mut m = Machine::new(assemble(SAMPLE_PROG, "sample_prog.tasm").unwrap());
    let (code, outs) = m.run(100_000);
    let out: String = outs.iter().map(output_text).collect();
    assert_eq!(out, "ToastTTA v1.0\n55\n");
    assert_eq!(code, Some(55));
    assert_eq!(m.exit_code, 55);
}

#[test]
fn diagnostics_name_the_file() {
    let d = assemble("#nope -> r0\n", "prog.tasm").unwrap_err();
    assert_eq!(d.items.len(), 1);
    assert_eq!(&*d.items[0].span.file, "prog.tasm");
    assert_eq!(d.items[0].span.line, 1);
    assert_eq!(d.items[0].span.col, 1);
}

#[test]
fn first_failing_stage_reports() {
    // A lexing error stops before parsing; a parse error before encoding.
    let lex_err = assemble("@ -> r0\n#nope -> r0\n", "x.tasm").unwrap_err();
    assert_eq!(lex_err.items.len(), 1);
    assert_eq!(lex_err.items[0].message, "unexpected character '@'");
    let parse_err = assemble("r0 -> zz\n#nope -> r0\n", "x.tasm").unwrap_err();
    assert_eq!(parse_err.items.len(), 1);
    assert_eq!(parse_err.items[0].message, "unknown destination zz");
}

#[test]
fn oversized_literal_is_rejected() {
    let d = assemble("#99999999999999999999 -> r0\n", "big.tasm").unwrap_err();
    assert_eq!(d.items.len(), 1);
    assert_eq!(d.items[0].message, "number literal out of range");
}
