//! The encoder, driven through the lexer and parser.

use toasttta::diag::Diagnostics;
use toasttta::encoder::encode;
use toasttta::isa::{dst, guard, src};
use toasttta::lexer::lex;
use toasttta::parser::parse;
use toasttta::{IWord, Slot};

fn pipeline(src: &str) -> Result<Vec<IWord>, Diagnostics> {
    let toks = lex(src, "x.tasm").unwrap();
    let lines = parse(toks).unwrap();
    encode(lines)
}

fn errors(src: &str) -> Vec<String> {
    pipeline(src).unwrap_err().items.into_iter().map(|d| d.message).collect()
}

#[test]
fn empty_program() {
    let words = pipeline("").unwrap();
    assert!(words.is_empty());
}

#[test]
fn equ_recorded() {
    let words = pipeline(".equ FOO 42\n").unwrap();
    assert!(words.is_empty());
}

#[test]
fn duplicate_symbol_errors() {
    let result = pipeline(".equ X 1\n.equ X 2\n");
    assert!(result.is_err());
}

#[test]
fn duplicate_symbol_message_names_it() {
    assert_eq!(errors(".equ X 1\nX: r0 -> r1\n"), vec!["duplicate symbol 'X'"]);
}

#[test]
fn encodes_single_slot_with_nop_padding() {
    let words = pipeline("r0 -> r3\n").unwrap();
    assert_eq!(words.len(), 1);
    let s = words[0].slots[0];
    assert_eq!(s.guard, guard::ALWAYS);
    assert_eq!(s.src_sock, src::GPR_R0);
    assert_eq!(s.dst_sock, dst::GPR_R3);
    for i in 1..4 {
        assert_eq!(words[0].slots[i].guard, guard::NEVER);
    }
}

#[test]
fn encodes_immediate_literal() {
    let words = pipeline("#42 -> r0\n").unwrap();
    let s = words[0].slots[0];
    assert_eq!(s.src_sock, src::IMMEDIATE);
    assert_eq!(s.src_data, 42);
}

#[test]
fn backward_label_resolves() {
    let words = pipeline("loop:\n#loop -> r0\n").unwrap();
    assert_eq!(words.len(), 1);
    assert_eq!(words[0].slots[0].src_data, 0);
}

#[test]
fn forward_label_resolves() {
    let words = pipeline("#end -> r0\nend:\n").unwrap();
    assert_eq!(words.len(), 1);
    assert_eq!(words[0].slots[0].src_data, 1);
}

#[test]
fn forward_and_backward_references_agree() {
    let src = "r0 -> r1\nhere: #here -> r2; #there -> r3\nr0 -> r4\nthere: #here -> r5\n";
    let words = pipeline(src).unwrap();
    assert_eq!(words.len(), 4);
    assert_eq!(words[1].slots[0].src_data, 1);
    assert_eq!(words[1].slots[1].src_data, 3);
    assert_eq!(words[3].slots[0].src_data, 1);
}

#[test]
fn undefined_symbol_errors() {
    assert!(pipeline("#nope -> r0\n").is_err());
    assert_eq!(errors("#nope -> r0\n"), vec!["undefined symbol 'nope'"]);
}

#[test]
fn equ_symbol_resolves() {
    let words = pipeline(".equ ANS 42\n#ANS -> r0\n").unwrap();
    assert_eq!(words[0].slots[0].src_data, 42);
}

#[test]
fn forward_equ_resolves() {
    let words = pipeline("#ANS -> r0\n.equ ANS 7\n").unwrap();
    assert_eq!(words[0].slots[0].src_data, 7);
}

#[test]
fn user_symbols_are_case_sensitive() {
    assert_eq!(errors(".equ ans 1\n#ANS -> r0\n"), vec!["undefined symbol 'ANS'"]);
}

#[test]
fn rejects_duplicate_destination() {
    assert!(pipeline("r0 -> r3; r1 -> r3\n").is_err());
    assert_eq!(
        errors("r0 -> r3; r1 -> r3\n"),
        vec!["multiple writes to the same destination in this cycle"]
    );
}

#[test]
fn rejects_two_alu_triggers() {
    assert!(pipeline("r0 -> ALU_ADD_T; r1 -> ALU_SUB_T\n").is_err());
}

#[test]
fn rejects_two_lsu_triggers() {
    assert!(pipeline("r0 -> LSU_LD_T; r1 -> LSU_ST_T\n").is_err());
}

#[test]
fn rejects_two_mul_and_gcu_triggers() {
    assert_eq!(
        errors("r0 -> MUL_T; r1 -> MUL_T; #0 -> GCU_JMP_T; #1 -> GCU_JMP_T\n"),
        vec![
            "multiple writes to the same destination in this cycle",
            "multiple writes to the same destination in this cycle",
            "more than one MUL trigger in a single cycle",
            "more than one GCU jump in a single cycle",
        ]
    );
}

#[test]
fn allows_one_trigger_each_fu() {
    assert!(pipeline("r0 -> ALU_ADD_T; r1 -> LSU_LD_T; r2 -> MUL_T\n").is_ok());
}

#[test]
fn operand_write_alone_is_accepted() {
    let words = pipeline("r0 -> ALU_A\n").unwrap();
    assert_eq!(words[0].slots[0], Slot::new(guard::ALWAYS, src::GPR_R0, 0, dst::ALU_A));
}

#[test]
fn rejects_more_than_four_slots() {
    assert_eq!(
        errors("r0 -> r1; r0 -> r2; r0 -> r3; r0 -> r4; r0 -> r5\n"),
        vec!["more than 4 slots in a single cycle (5)"]
    );
}

#[test]
fn errors_come_in_pass_order() {
    assert_eq!(
        errors("#later -> r0; r1 -> ALU_ADD_T; r2 -> ALU_OR_T\n.equ K 1\n.equ K 2\n"),
        vec![
            "more than one ALU trigger in a single cycle",
            "duplicate symbol 'K'",
            "undefined symbol 'later'",
        ]
    );
}

#[test]
fn smoke_test_known_cycle() {
    let expected_slot0 = Slot::new(guard::ALWAYS, src::GPR_R0, 0, dst::ALU_A);
    let expected_slot1 = Slot::new(guard::ALWAYS, src::IMMEDIATE, 42, dst::ALU_ADD_T);
    let words = pipeline("r0 -> ALU_A; #42 -> ALU_ADD_T\n").unwrap();
    assert_eq!(words[0].slots[0], expected_slot0);
    assert_eq!(words[0].slots[1], expected_slot1);
    assert_eq!(words[0].slots[2].guard, guard::NEVER);
    assert_eq!(words[0].slots[3].guard, guard::NEVER);
}

#[test]
fn too_many_slots_reported_before_cycle_rules() {
    assert_eq!(
        errors("r0 -> r1; r2 -> r1; r0 -> r2; r0 -> r3; r0 -> r4\n"),
        vec![
            "more than 4 slots in a single cycle (5)",
            "multiple writes to the same destination in this cycle",
        ]
    );
}

#[test]
fn slots_beyond_four_are_not_encoded() {
    // The fifth move's forward reference is never recorded, so only the
    // cycle rule reports.
    assert_eq!(
        errors("r0 -> r1; r0 -> r2; r0 -> r3; r0 -> r4; #nowhere -> r5\n"),
        vec!["more than 4 slots in a single cycle (5)"]
    );
}
