//! Diagnostics collection.

use std::sync::Arc;

use toasttta::diag::{Diagnostics, Severity, Span};

fn span() -> Span {
    Span { file: Arc::from("test.tasm"), line: 1, col: 1, len: 1 }
}

#[test]
fn collect_and_query() {
    let mut d = Diagnostics::new();
    assert!(!d.has_errors());
    d.warn(span(), "watch out");
    assert!(!d.has_errors());
    d.error(span(), "oh no");
    assert!(d.has_errors());
    assert_eq!(d.items.len(), 2);
}

#[test]
fn diagnostics_keep_order_severity_and_text() {
    let mut d = Diagnostics::new();
    d.error(span(), "first");
    d.warn(span(), "second");
    assert_eq!(d.items[0].severity, Severity::Error);
    assert_eq!(d.items[0].message, "first");
    assert_eq!(d.items[1].severity, Severity::Warning);
    assert_eq!(d.items[1].message, "second");
    assert_eq!(d.items[1].span, span());
}

#[test]
fn warnings_alone_are_not_errors() {
    let mut d = Diagnostics::default();
    d.warn(span(), "a");
    d.warn(span(), "b");
    assert!(!d.has_errors());
}

#[test]
fn span_copy_is_equal() {
    let s = Span { file: Arc::from("f.tasm"), line: 3, col: 7, len: 2 };
    let c = s.copy();
    assert_eq!(c, s);
    assert_eq!(&*c.file, "f.tasm");
}

#[test]
fn renders_caret_under_span() {
    let mut d = Diagnostics::new();
    d.error(Span { file: Arc::from("x.tasm"), line: 1, col: 6, len: 3 }, "oh no");
    let out = d.render("hello world\n");
    assert!(out.contains("oh no"));
    assert!(out.contains("^^^"));
}

#[test]
fn render_layout_is_exact() {
    let mut d = Diagnostics::new();
    d.error(Span { file: Arc::from("x.tasm"), line: 2, col: 3, len: 0 }, "bad");
    d.warn(Span { file: Arc::from("x.tasm"), line: 9, col: 1, len: 2 }, "gone");
    let out = d.render("first\r\n  second\n");
    assert_eq!(
        out,
        "error: bad\n  --> x.tasm:2:3\n   2 |   second\n         ^\n\
         warning: gone\n  --> x.tasm:9:1\n"
    );
}

#[test]
fn render_wide_line_numbers() {
    let mut d = Diagnostics::new();
    d.error(Span { file: Arc::from("f"), line: 12345, col: 2, len: 1 }, "m");
    let source = "x\n".repeat(12344) + "ab\n";
    let out = d.render(&source);
    assert_eq!(out, "error: m\n  --> f:12345:2\n12345 | ab\n         ^\n");
}
