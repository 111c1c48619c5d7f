//! The lexer.

use std::sync::Arc;

use toasttta::diag::Span;
use toasttta::lexer::{lex, TokenKind};

fn kinds(src: &str) -> Vec<TokenKind> {
    lex(src, "x.tasm").unwrap().into_iter().map(|t| t.kind).collect()
}

fn messages(src: &str) -> Vec<String> {
    lex(src, "x.tasm").unwrap_err().items.into_iter().map(|d| d.message).collect()
}

#[test]
fn token_kind_equality() {
    assert_eq!(TokenKind::Hash, TokenKind::Hash);
    assert_ne!(TokenKind::Hash, TokenKind::Bang);
}

#[test]
fn skip_whitespace_emit_newlines() {
    let toks = lex("  \n  \n", "x.tasm").unwrap();
    assert_eq!(toks.len(), 3);
    assert!(matches!(toks[0].kind, TokenKind::Newline));
    assert!(matches!(toks[1].kind, TokenKind::Newline));
    assert!(matches!(toks[2].kind, TokenKind::Eof));
}

#[test]
fn unknown_char_diagnoses_but_continues() {
    let result = lex("@\n", "x.tasm");
    assert!(result.is_err());
}

#[test]
fn unknown_char_message_and_recovery() {
    // Both bad characters are reported: lexing goes on after the first.
    assert_eq!(messages("@ $\n"), vec!["unexpected character '@'", "unexpected character '$'"]);
}

#[test]
fn line_comments_skipped() {
    let toks = lex("// hello world\n  // another\n", "x.tasm").unwrap();
    assert_eq!(toks.len(), 3);
    assert!(matches!(toks[0].kind, TokenKind::Newline));
}

#[test]
fn idents_and_equ() {
    let k = kinds("r0 ALU_R foo_bar .equ FOO\n");
    assert_eq!(k[0], TokenKind::Ident("r0".to_string()));
    assert_eq!(k[1], TokenKind::Ident("ALU_R".to_string()));
    assert_eq!(k[2], TokenKind::Ident("foo_bar".to_string()));
    assert_eq!(k[3], TokenKind::KwEqu);
    assert_eq!(k[4], TokenKind::Ident("FOO".to_string()));
}

#[test]
fn unknown_directive_is_reported() {
    assert_eq!(messages(".org 5\n"), vec!["unknown directive .org"]);
}

#[test]
fn numbers_all_radices() {
    let nums: Vec<i64> = kinds("42 -42 0xFF 0b1010\n")
        .into_iter()
        .filter_map(|k| if let TokenKind::Number(n) = k { Some(n) } else { None })
        .collect();
    assert_eq!(nums, vec![42, -42, 0xFF, 0b1010]);
}

#[test]
fn number_edge_cases() {
    // Upper-case prefixes lex; an empty digit string and a value beyond
    // i64 are errors.
    let nums: Vec<i64> = kinds("0XfF 0B11\n")
        .into_iter()
        .filter_map(|k| if let TokenKind::Number(n) = k { Some(n) } else { None })
        .collect();
    assert_eq!(nums, vec![255, 3]);
    assert_eq!(
        messages("0XfF 0B11 0x 99999999999999999999\n"),
        vec!["number literal has no digits", "number literal out of range"]
    );
}

#[test]
fn char_literals() {
    let chars: Vec<u16> = kinds("'A' '\\n' '\\t' '\\\\'\n")
        .into_iter()
        .filter_map(|k| if let TokenKind::Char(v) = k { Some(v) } else { None })
        .collect();
    assert_eq!(chars, vec![b'A' as u16, b'\n' as u16, b'\t' as u16, b'\\' as u16]);
}

#[test]
fn char_literal_errors() {
    assert_eq!(messages("'\\q'\n"), vec!["unknown escape \\Some(113)"]);
    assert_eq!(messages("'A\n"), vec!["expected closing ' for char literal"]);
    assert_eq!(
        messages("'"),
        vec!["unterminated char literal", "expected closing ' for char literal"]
    );
    assert_eq!(
        messages("'\\"),
        vec!["unknown escape \\None", "expected closing ' for char literal"]
    );
}

#[test]
fn punctuation() {
    let k = kinds("# -> ; : [ ] ! =\n");
    assert_eq!(
        &k[..8],
        &[
            TokenKind::Hash,
            TokenKind::Arrow,
            TokenKind::Semi,
            TokenKind::Colon,
            TokenKind::LBracket,
            TokenKind::RBracket,
            TokenKind::Bang,
            TokenKind::Eq,
        ]
    );
}

#[test]
fn full_cycle_lexes_correctly() {
    let src = "// init\n.equ STDOUT 0xFF01\nmain: r0 -> ALU_A; #4 -> ALU_ADD_T\n";
    assert_eq!(
        kinds(src),
        vec![
            TokenKind::Newline,
            TokenKind::KwEqu,
            TokenKind::Ident("STDOUT".into()),
            TokenKind::Number(0xFF01),
            TokenKind::Newline,
            TokenKind::Ident("main".into()),
            TokenKind::Colon,
            TokenKind::Ident("r0".into()),
            TokenKind::Arrow,
            TokenKind::Ident("ALU_A".into()),
            TokenKind::Semi,
            TokenKind::Hash,
            TokenKind::Number(4),
            TokenKind::Arrow,
            TokenKind::Ident("ALU_ADD_T".into()),
            TokenKind::Newline,
            TokenKind::Eof,
        ]
    );
}

#[test]
fn spans_carry_file_line_and_column() {
    let toks = lex("a\n  bcd -7", "prog.tasm").unwrap();
    let file: Arc<str> = Arc::from("prog.tasm");
    assert_eq!(toks[0].span, Span { file: file.clone(), line: 1, col: 1, len: 1 });
    assert_eq!(toks[1].span, Span { file: file.clone(), line: 1, col: 2, len: 1 });
    assert_eq!(toks[2].span, Span { file: file.clone(), line: 2, col: 3, len: 3 });
    assert_eq!(toks[3].span, Span { file: file.clone(), line: 2, col: 7, len: 2 });
    assert_eq!(toks[4].span, Span { file, line: 2, col: 9, len: 0 });
}

#[test]
fn empty_source_is_just_eof() {
    assert_eq!(kinds(""), vec![TokenKind::Eof]);
}

#[test]
fn identifiers_take_the_longest_run() {
    assert_eq!(
        kinds("_a9Z->r12;x"),
        vec![
            TokenKind::Ident("_a9Z".to_string()),
            TokenKind::Arrow,
            TokenKind::Ident("r12".to_string()),
            TokenKind::Semi,
            TokenKind::Ident("x".to_string()),
            TokenKind::Eof,
        ]
    );
}

#[test]
fn only_the_last_token_is_eof() {
    for src in ["", "\n", "#1 -> r0 // c\n", "loop: [!p0] #'a' -> LSU_ST_T\n.equ X 0x1F"] {
        let k = kinds(src);
        assert!(matches!(k.last(), Some(TokenKind::Eof)));
        assert_eq!(k.iter().filter(|t| matches!(t, TokenKind::Eof)).count(), 1);
    }
}

#[test]
fn number_literal_without_digits_is_an_error() {
    assert_eq!(messages("#0x -> r0\n"), vec!["number literal has no digits"]);
    assert_eq!(messages("#0b\n"), vec!["number literal has no digits"]);
    assert_eq!(messages("- r0\n"), vec!["number literal has no digits"]);
    let d = lex("#0x -> r0\n", "x.tasm").unwrap_err();
    assert_eq!((d.items[0].span.col, d.items[0].span.len), (2, 2));
}

#[test]
fn number_literal_too_large_is_an_error() {
    assert_eq!(messages("#99999999999999999999 -> r0\n"), vec!["number literal out of range"]);
    assert_eq!(messages("-0x8000000000000000\n"), vec!["number literal out of range"]);
    // The largest i64 still lexes; the parser then rejects it as an immediate.
    assert_eq!(
        kinds("9223372036854775807 -9223372036854775807"),
        vec![
            TokenKind::Number(i64::MAX),
            TokenKind::Number(-i64::MAX),
            TokenKind::Eof,
        ]
    );
}
