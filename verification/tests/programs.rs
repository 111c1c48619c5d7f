//! Whole programs: assembled from source, compared word for word with the
//! same program built by hand, and run on the machine.

use toasttta::isa::{dst, guard, mmio, src};
use toasttta::image::encode_image;
use toasttta::machine::output_text;
use toasttta::{assemble, IWord, Machine, Slot};

fn s(g: u8, src_sock: u8, data: u16, dst_sock: u8) -> Slot {
    Slot::new(g, src_sock, data, dst_sock)
}

/// A word of the given moves, NOP-padded.
fn w(moves: &[Slot]) -> IWord {
    let mut slots = [Slot::nop(); 4];
    for (i, m) in moves.iter().enumerate() {
        slots[i] = *m;
    }
    IWord::new(slots[0], slots[1], slots[2], slots[3])
}

fn always(src_sock: u8, data: u16, dst_sock: u8) -> Slot {
    s(guard::ALWAYS, src_sock, data, dst_sock)
}

fn imm(data: u16, dst_sock: u8) -> Slot {
    always(src::IMMEDIATE, data, dst_sock)
}

fn putc(c: char) -> IWord {
    w(&[imm(mmio::STDOUT_CHAR, dst::LSU_ST_A), imm(c as u16, dst::LSU_ST_T)])
}

/// Run to the halt; return the exit code and the printed text.
fn run(words: Vec<IWord>) -> (i32, String) {
    let mut m = Machine::new(words);
    let (code, outs) = m.run(10_000_000);
    let out: String = outs.iter().map(output_text).collect();
    (code.expect("the program halts"), out)
}

const FIB: &str = "\
.equ STDOUT_CHAR 0xFF00
.equ STDOUT_INT  0xFF01
.equ HALT        0xFFFE

  #STDOUT_CHAR -> LSU_ST_A; #'F' -> LSU_ST_T
  #STDOUT_CHAR -> LSU_ST_A; #'i' -> LSU_ST_T
  #STDOUT_CHAR -> LSU_ST_A; #'b' -> LSU_ST_T
  #STDOUT_CHAR -> LSU_ST_A; #'o' -> LSU_ST_T
  #STDOUT_CHAR -> LSU_ST_A; #'n' -> LSU_ST_T
  #STDOUT_CHAR -> LSU_ST_A; #'a' -> LSU_ST_T
  #STDOUT_CHAR -> LSU_ST_A; #'c' -> LSU_ST_T
  #STDOUT_CHAR -> LSU_ST_A; #'c' -> LSU_ST_T
  #STDOUT_CHAR -> LSU_ST_A; #'i' -> LSU_ST_T
  #STDOUT_CHAR -> LSU_ST_A; #':' -> LSU_ST_T
  #STDOUT_CHAR -> LSU_ST_A; #'\\n' -> LSU_ST_T
  #0 -> r0; #1 -> r1; #10 -> r2          // a, b, counter
loop:
  r2 -> ALU_A; #0 -> ALU_NE_T; #STDOUT_INT -> LSU_ST_A
  ALU_P -> p0
  [!p0] #end -> GCU_JMP_T; [p0] r1 -> LSU_ST_T; r0 -> ALU_A; r1 -> ALU_ADD_T
  #STDOUT_CHAR -> LSU_ST_A; #'\\n' -> LSU_ST_T; ALU_R -> r1; r1 -> r0
  r2 -> ALU_A; #-1 -> ALU_ADD_T
  ALU_R -> r2; #loop -> GCU_JMP_T
end:
  #HALT -> LSU_ST_A; #0 -> LSU_ST_T
";

fn fib_by_hand() -> Vec<IWord> {
    let mut imem: Vec<IWord> = "Fibonacci:\n".chars().map(putc).collect();
    imem.push(w(&[imm(0, dst::GPR_R0), imm(1, dst::GPR_R1), imm(10, dst::GPR_R2)]));
    let loop_label = imem.len() as u16;
    let end_label = loop_label + 6;
    imem.push(w(&[
        always(src::GPR_R2, 0, dst::ALU_A),
        imm(0, dst::ALU_NE_T),
        imm(mmio::STDOUT_INT, dst::LSU_ST_A),
    ]));
    imem.push(w(&[always(src::ALU_P, 0, dst::BRF_P0)]));
    imem.push(w(&[
        s(guard::IF_NP0, src::IMMEDIATE, end_label, dst::GCU_JMP_T),
        s(guard::IF_P0, src::GPR_R1, 0, dst::LSU_ST_T),
        always(src::GPR_R0, 0, dst::ALU_A),
        always(src::GPR_R1, 0, dst::ALU_ADD_T),
    ]));
    imem.push(w(&[
        imm(mmio::STDOUT_CHAR, dst::LSU_ST_A),
        imm('\n' as u16, dst::LSU_ST_T),
        always(src::ALU_R, 0, dst::GPR_R1),
        always(src::GPR_R1, 0, dst::GPR_R0),
    ]));
    imem.push(w(&[always(src::GPR_R2, 0, dst::ALU_A), imm(0xFFFF, dst::ALU_ADD_T)]));
    imem.push(w(&[always(src::ALU_R, 0, dst::GPR_R2), imm(loop_label, dst::GCU_JMP_T)]));
    imem.push(w(&[imm(mmio::HALT, dst::LSU_ST_A), imm(0, dst::LSU_ST_T)]));
    imem
}

#[test]
fn fib_program_matches_hand_encoding() {
    let words = assemble(FIB, "fib.tasm").unwrap();
    assert_eq!(words, fib_by_hand());
}

#[test]
fn fib_byte_identical() {
    let words = assemble(FIB, "fib.tasm").unwrap();
    let assembled: Vec<u8> = words.iter().flat_map(|w| w.encode().to_le_bytes()).collect();
    assert_eq!(
        assembled,
        encode_image(&fib_by_hand()),
        "assembled bytes differ from hand-coded reference"
    );
}

#[test]
fn fib_program_prints_ten_numbers() {
    let (code, out) = run(assemble(FIB, "fib.tasm").unwrap());
    assert_eq!(out, "Fibonacci:\n1\n1\n2\n3\n5\n8\n13\n21\n34\n55\n");
    assert_eq!(code, 0);
}

const MANDELBROT: &str = "\
.equ STDOUT_CHAR 0xFF00
.equ HALT        0xFFFE
.equ MAX_ITER    16
.equ ESCAPE_SHR  6      // (sum >> 6) != 0 -> escape

// Q12.4 fixed-point constants:
.equ CX_INIT  -36       // -2.25
.equ CY_INIT  -16       // -1.0
.equ STEP     2         // 0.125
.equ COLS     32
.equ ROWS     16

init:    #0 -> r8; #CY_INIT -> r1
row:     #0 -> r7; #CX_INIT -> r0
col:     #0 -> r2; #0 -> r3; #0 -> r4
inner:   r4 -> ALU_A; #MAX_ITER -> ALU_GE_T
         ALU_P -> p0
         [p0] #in_set -> GCU_JMP_T
         r2 -> MUL_A; r2 -> MUL_T
         MUL_R -> ALU_A; #4 -> ALU_SSHR_T; r3 -> MUL_A; r3 -> MUL_T
         ALU_R -> r5; MUL_R -> ALU_A; #4 -> ALU_SSHR_T
         ALU_R -> r6
         r5 -> ALU_A; r6 -> ALU_ADD_T
         ALU_R -> ALU_A; #ESCAPE_SHR -> ALU_SHR_T
         ALU_R -> ALU_A; #0 -> ALU_NE_T
         ALU_P -> p0
         [p0] #escaped -> GCU_JMP_T
         r2 -> MUL_A; r3 -> MUL_T
         MUL_R -> ALU_A; #4 -> ALU_SSHR_T
         ALU_R -> r10
         r10 -> ALU_A; #1 -> ALU_SHL_T
         ALU_R -> r10; r5 -> ALU_A; r6 -> ALU_SUB_T
         ALU_R -> ALU_A; r0 -> ALU_ADD_T
         ALU_R -> r2; r10 -> ALU_A; r1 -> ALU_ADD_T
         ALU_R -> r3
         r4 -> ALU_A; #1 -> ALU_ADD_T
         ALU_R -> r4; #inner -> GCU_JMP_T
in_set:  #STDOUT_CHAR -> LSU_ST_A; #'#' -> LSU_ST_T
         #inc_col -> GCU_JMP_T
escaped: #STDOUT_CHAR -> LSU_ST_A; #' ' -> LSU_ST_T
         #inc_col -> GCU_JMP_T
inc_col: r0 -> ALU_A; #STEP -> ALU_ADD_T
         ALU_R -> r0
         r7 -> ALU_A; #1 -> ALU_ADD_T
         ALU_R -> r7
         r7 -> ALU_A; #COLS -> ALU_LT_T
         ALU_P -> p0
         [p0] #col -> GCU_JMP_T
end_row: #STDOUT_CHAR -> LSU_ST_A; #'\\n' -> LSU_ST_T
         r1 -> ALU_A; #STEP -> ALU_ADD_T
         ALU_R -> r1
         r8 -> ALU_A; #1 -> ALU_ADD_T
         ALU_R -> r8
         r8 -> ALU_A; #ROWS -> ALU_LT_T
         ALU_P -> p0
         [p0] #row -> GCU_JMP_T
end:     #STDOUT_CHAR -> LSU_ST_A; #'\\n' -> LSU_ST_T
         #HALT -> LSU_ST_A; #0 -> LSU_ST_T
";

fn mandelbrot_by_hand() -> Vec<IWord> {
    const ROW: u16 = 1;
    const COL: u16 = 2;
    const INNER: u16 = 3;
    const IN_SET: u16 = 25;
    const ESCAPED: u16 = 27;
    const INC_COL: u16 = 29;
    let r = |n: u8| n; // register sockets are their numbers
    let jump_if_p0 = |target: u16| w(&[s(guard::IF_P0, src::IMMEDIATE, target, dst::GCU_JMP_T)]);
    let p0_from_alu = || w(&[always(src::ALU_P, 0, dst::BRF_P0)]);
    vec![
        w(&[imm(0, r(8)), imm(0xFFF0, r(1))]),
        w(&[imm(0, r(7)), imm(0xFFDC, r(0))]),
        w(&[imm(0, r(2)), imm(0, r(3)), imm(0, r(4))]),
        w(&[always(r(4), 0, dst::ALU_A), imm(16, dst::ALU_GE_T)]),
        p0_from_alu(),
        jump_if_p0(IN_SET),
        w(&[always(r(2), 0, dst::MUL_A), always(r(2), 0, dst::MUL_T)]),
        w(&[
            always(src::MUL_R, 0, dst::ALU_A),
            imm(4, dst::ALU_SSHR_T),
            always(r(3), 0, dst::MUL_A),
            always(r(3), 0, dst::MUL_T),
        ]),
        w(&[always(src::ALU_R, 0, r(5)), always(src::MUL_R, 0, dst::ALU_A), imm(4, dst::ALU_SSHR_T)]),
        w(&[always(src::ALU_R, 0, r(6))]),
        w(&[always(r(5), 0, dst::ALU_A), always(r(6), 0, dst::ALU_ADD_T)]),
        w(&[always(src::ALU_R, 0, dst::ALU_A), imm(6, dst::ALU_SHR_T)]),
        w(&[always(src::ALU_R, 0, dst::ALU_A), imm(0, dst::ALU_NE_T)]),
        p0_from_alu(),
        jump_if_p0(ESCAPED),
        w(&[always(r(2), 0, dst::MUL_A), always(r(3), 0, dst::MUL_T)]),
        w(&[always(src::MUL_R, 0, dst::ALU_A), imm(4, dst::ALU_SSHR_T)]),
        w(&[always(src::ALU_R, 0, r(10))]),
        w(&[always(r(10), 0, dst::ALU_A), imm(1, dst::ALU_SHL_T)]),
        w(&[always(src::ALU_R, 0, r(10)), always(r(5), 0, dst::ALU_A), always(r(6), 0, dst::ALU_SUB_T)]),
        w(&[always(src::ALU_R, 0, dst::ALU_A), always(r(0), 0, dst::ALU_ADD_T)]),
        w(&[always(src::ALU_R, 0, r(2)), always(r(10), 0, dst::ALU_A), always(r(1), 0, dst::ALU_ADD_T)]),
        w(&[always(src::ALU_R, 0, r(3))]),
        w(&[always(r(4), 0, dst::ALU_A), imm(1, dst::ALU_ADD_T)]),
        w(&[always(src::ALU_R, 0, r(4)), imm(INNER, dst::GCU_JMP_T)]),
        putc('#'),
        w(&[imm(INC_COL, dst::GCU_JMP_T)]),
        putc(' '),
        w(&[imm(INC_COL, dst::GCU_JMP_T)]),
        w(&[always(r(0), 0, dst::ALU_A), imm(2, dst::ALU_ADD_T)]),
        w(&[always(src::ALU_R, 0, r(0))]),
        w(&[always(r(7), 0, dst::ALU_A), imm(1, dst::ALU_ADD_T)]),
        w(&[always(src::ALU_R, 0, r(7))]),
        w(&[always(r(7), 0, dst::ALU_A), imm(32, dst::ALU_LT_T)]),
        p0_from_alu(),
        jump_if_p0(COL),
        putc('\n'),
        w(&[always(r(1), 0, dst::ALU_A), imm(2, dst::ALU_ADD_T)]),
        w(&[always(src::ALU_R, 0, r(1))]),
        w(&[always(r(8), 0, dst::ALU_A), imm(1, dst::ALU_ADD_T)]),
        w(&[always(src::ALU_R, 0, r(8))]),
        w(&[always(r(8), 0, dst::ALU_A), imm(16, dst::ALU_LT_T)]),
        p0_from_alu(),
        jump_if_p0(ROW),
        putc('\n'),
        w(&[imm(mmio::HALT, dst::LSU_ST_A), imm(0, dst::LSU_ST_T)]),
    ]
}

#[test]
fn mandelbrot_program_matches_hand_encoding() {
    let words = assemble(MANDELBROT, "mandelbrot.tasm").unwrap();
    assert_eq!(words.len(), 46);
    assert_eq!(words, mandelbrot_by_hand());
}

#[test]
fn mandelbrot_byte_identical() {
    let words = assemble(MANDELBROT, "mandelbrot.tasm").unwrap();
    let assembled: Vec<u8> = words.iter().flat_map(|w| w.encode().to_le_bytes()).collect();
    assert_eq!(
        assembled,
        encode_image(&mandelbrot_by_hand()),
        "mandelbrot bytes differ"
    );
}

#[test]
fn mandelbrot_program_draws_the_set() {
    let (code, out) = run(assemble(MANDELBROT, "mandelbrot.tasm").unwrap());
    assert_eq!(code, 0);
    assert_eq!((code, out.clone()), run(mandelbrot_by_hand()));
    let rows: Vec<&str> = out.split('\n').collect();
    // 16 rows of 32 cells, then the closing newline (an empty row) and the end.
    assert_eq!(rows.len(), 18);
    for row in &rows[..16] {
        assert_eq!(row.len(), 32);
        assert!(row.chars().all(|c| c == '#' || c == ' '));
    }
    assert!(rows[16].is_empty() && rows[17].is_empty());
    assert!(out.contains('#'));
}
