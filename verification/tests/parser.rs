//! The parser and its socket-name tables.

use toasttta::lexer::lex;
use toasttta::parser::{
    destination_from_name, parse, source_from_name, Destination, Guard, ImmExpr, Line, Source,
};

fn lines(src: &str) -> Vec<Line> {
    parse(lex(src, "x.tasm").unwrap()).unwrap()
}

fn errors(src: &str) -> Vec<String> {
    parse(lex(src, "x.tasm").unwrap()).unwrap_err().items.into_iter().map(|d| d.message).collect()
}

fn cycle(l: &Line) -> &toasttta::parser::CycleSpec {
    match l {
        Line::Cycle(c) => c,
        _ => panic!("not a cycle line"),
    }
}

#[test]
fn variants_distinct() {
    assert_ne!(Source::AluR, Source::AluP);
    assert_ne!(Destination::AluA, Destination::AluAddT);
}

#[test]
fn gpr_source() {
    assert_eq!(source_from_name("r0"), Some(Source::Gpr(0)));
    assert_eq!(source_from_name("R15"), Some(Source::Gpr(15)));
    assert_eq!(source_from_name("r16"), None);
}

#[test]
fn fu_sources_case_insensitive() {
    assert_eq!(source_from_name("ALU_R"), Some(Source::AluR));
    assert_eq!(source_from_name("alu_r"), Some(Source::AluR));
    assert_eq!(source_from_name("Mul_R"), Some(Source::MulR));
}

#[test]
fn unknown_returns_none() {
    assert_eq!(source_from_name("garbage"), None);
    assert_eq!(destination_from_name("MUL_HI_T"), None);
}

#[test]
fn destinations_complete() {
    assert_eq!(destination_from_name("ALU_ADD_T"), Some(Destination::AluAddT));
    assert_eq!(destination_from_name("GCU_JMP_T"), Some(Destination::GcuJmpT));
    assert_eq!(destination_from_name("DISCARD"), Some(Destination::Discard));
}

#[test]
fn register_names_follow_integer_parsing() {
    // `r` then what `str::parse::<u8>` accepts: an optional `+`, leading zeros.
    assert_eq!(source_from_name("r007"), Some(Source::Gpr(7)));
    assert_eq!(destination_from_name("R+3"), Some(Destination::Gpr(3)));
    assert_eq!(source_from_name("r"), None);
    assert_eq!(source_from_name("r+"), None);
    assert_eq!(source_from_name("r-1"), None);
    assert_eq!(source_from_name("r256"), None);
    assert_eq!(destination_from_name("p0"), Some(Destination::BrfP0));
    assert_eq!(source_from_name("P0"), Some(Source::BrfP0));
    assert_eq!(source_from_name("ALU_A"), None);
    assert_eq!(destination_from_name("ALU_R"), None);
    assert_eq!(destination_from_name("ålu_a"), None);
}

#[test]
fn empty_input() {
    assert!(lines("").is_empty());
}

#[test]
fn empty_lines() {
    assert_eq!(lines("\n\n\n"), vec![Line::Empty, Line::Empty, Line::Empty]);
}

#[test]
fn parses_equ() {
    let ls = lines(".equ FOO 42\n.equ BAR 0xFF\n");
    assert_eq!(ls.len(), 2);
    assert!(matches!(&ls[0], Line::Equ { name, value: 42, .. } if name == "FOO"));
    assert!(matches!(&ls[1], Line::Equ { name, value: 0xFF, .. } if name == "BAR"));
}

#[test]
fn equ_takes_negative_and_char_values() {
    let ls = lines(".equ M -1\n.equ C 'A'\n");
    assert!(matches!(&ls[0], Line::Equ { value: 0xFFFF, .. }));
    assert!(matches!(&ls[1], Line::Equ { value: 65, .. }));
}

#[test]
fn equ_rejects_out_of_range() {
    assert_eq!(errors(".equ X 100000\n"), vec![".equ value 100000 out of 16-bit range"]);
    assert_eq!(errors(".equ X -40000\n"), vec![".equ value -40000 out of 16-bit range"]);
}

#[test]
fn equ_syntax_errors() {
    assert_eq!(errors(".equ 5\n"), vec!["expected identifier after .equ"]);
    assert_eq!(errors(".equ X Y\n"), vec!["expected literal value after .equ name"]);
    assert_eq!(errors(".equ X 1 2\n"), vec!["expected newline"]);
}

#[test]
fn parses_simple_slot() {
    let ls = lines("r0 -> r3\n");
    let c = cycle(&ls[0]);
    assert_eq!(c.slots.len(), 1);
    assert_eq!(c.slots[0].guard, Guard::Always);
    assert_eq!(c.slots[0].src, Source::Gpr(0));
    assert_eq!(c.slots[0].dst, Destination::Gpr(3));
}

#[test]
fn parses_immediate_literal() {
    let ls = lines("#42 -> r0\n");
    assert_eq!(cycle(&ls[0]).slots[0].src, Source::Imm(ImmExpr::Literal(42)));
}

#[test]
fn parses_guards() {
    let ls = lines("[p0] r0 -> r3\n[!P0] r1 -> r4\n");
    assert_eq!(cycle(&ls[0]).slots[0].guard, Guard::IfP0);
    assert_eq!(cycle(&ls[1]).slots[0].guard, Guard::IfNotP0);
}

#[test]
fn guard_errors() {
    // A failed guard fails the move; the rest of the line is then skipped.
    assert_eq!(errors("[p1] r0 -> r3\n"), vec!["unknown predicate p1", "expected newline"]);
    assert_eq!(errors("[p0 r0 -> r3\n"), vec!["expected ']'", "expected newline"]);
    assert_eq!(
        errors("[] r0 -> r3\n"),
        vec!["expected predicate name in guard", "expected newline"]
    );
}

#[test]
fn parses_immediate_char() {
    let ls = lines("#'A' -> r0\n");
    assert_eq!(cycle(&ls[0]).slots[0].src, Source::Imm(ImmExpr::Literal(b'A' as u16)));
}

#[test]
fn parses_immediate_symbol() {
    let ls = lines("#loop -> r0\n");
    assert_eq!(cycle(&ls[0]).slots[0].src, Source::Imm(ImmExpr::Symbol("loop".into())));
}

#[test]
fn parses_immediate_negative() {
    let ls = lines("#-1 -> r0\n");
    assert_eq!(cycle(&ls[0]).slots[0].src, Source::Imm(ImmExpr::Literal(0xFFFF)));
}

#[test]
fn rejects_oversized_immediate() {
    assert_eq!(errors("#100000 -> r0\n"), vec!["immediate 100000 out of 16-bit range"]);
}

#[test]
fn immediate_range_bounds() {
    let ls = lines("#-32768 -> r0\n#65535 -> r1\n");
    assert_eq!(cycle(&ls[0]).slots[0].src, Source::Imm(ImmExpr::Literal(0x8000)));
    assert_eq!(cycle(&ls[1]).slots[0].src, Source::Imm(ImmExpr::Literal(0xFFFF)));
    assert_eq!(errors("#-32769 -> r0\n"), vec!["immediate -32769 out of 16-bit range"]);
    assert_eq!(errors("#65536 -> r0\n"), vec!["immediate 65536 out of 16-bit range"]);
}

#[test]
fn parses_multi_slot_cycle() {
    let ls = lines("r0 -> r3; r1 -> r4; r2 -> r5\n");
    assert_eq!(cycle(&ls[0]).slots.len(), 3);
}

#[test]
fn allows_trailing_semicolon() {
    let ls = lines("r0 -> r3;\n");
    assert_eq!(cycle(&ls[0]).slots.len(), 1);
}

#[test]
fn parses_standalone_label() {
    let ls = lines("loop:\n");
    assert!(matches!(&ls[0], Line::Label { name, attached: None, .. } if name == "loop"));
}

#[test]
fn parses_label_with_attached_cycle() {
    let ls = lines("loop: r0 -> r3\n");
    match &ls[0] {
        Line::Label { name, attached: Some(c), .. } => {
            assert_eq!(name, "loop");
            assert_eq!(c.slots.len(), 1);
        }
        _ => panic!("expected a label with a cycle"),
    }
}

#[test]
fn recovers_after_bad_line() {
    let result = parse(lex("r0 ->\n#42 -> r0\n", "x.tasm").unwrap());
    assert!(result.is_err());
}

#[test]
fn slot_errors_are_reported_in_order() {
    assert_eq!(
        errors("r0 ->\nfoo -> r1\nr1 -> bar\n-> r2\nr0 r1\n"),
        vec![
            "expected destination identifier",
            "unknown source foo",
            "expected newline",
            "unknown destination bar",
            "expected source identifier or #immediate",
            "expected newline",
            "expected '->'",
            "expected newline",
        ]
    );
}

#[test]
fn slot_spans_start_at_the_guard() {
    let ls = lines("  [p0] r0 -> r3\n");
    let c = cycle(&ls[0]);
    assert_eq!(c.span.col, 3);
    assert_eq!(c.slots[0].span.col, 3);
    assert_eq!(c.slots[0].span.len, 1);
}
