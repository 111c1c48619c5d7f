//! Hand-written ToastTTA assembler lexer.
//!
//! The lexer walks the source bytes once. Spaces, tabs and carriage returns
//! are skipped, `//` comments run to the end of the line, newlines are
//! significant tokens, and the source ends with an `Eof` token. Errors are
//! collected and lexing continues after each.

use std::sync::Arc;

use vstd::prelude::*;
use vstd::string::StringSliceAdditionalSpecFns;

use crate::diag::{all_in_file, is_diag, share_file, Diag, Diagnostics, Severity, Span};
use crate::text::{decimal, decimal_string, digit_char};

verus! {

#[derive(Clone, Debug, PartialEq, Eq)]
pub struct Token {
    pub kind: TokenKind,
    pub span: Span,
}

#[derive(Clone, Debug, PartialEq, Eq)]
pub enum TokenKind {
    Ident(String),
    Number(i64),  // signed wide enough to hold any literal we'll emit
    Char(u16),  // already-resolved code point (low byte = ASCII)
    KwEqu,  // .equ
    Hash,  // #
    Arrow,  // ->
    Semi,  // ;
    Colon,  // :
    LBracket,  // [
    RBracket,  // ]
    Bang,  // !
    Eq,  // =
    Newline,  // significant
    Eof,
}

/// A token kind with identifiers as character sequences.
pub ghost enum Tok {
    Ident(Seq<char>),
    Number(i64),
    Char(u16),
    KwEqu,
    Hash,
    Arrow,
    Semi,
    Colon,
    LBracket,
    RBracket,
    Bang,
    Eq,
    Newline,
    Eof,
}

impl View for TokenKind {
    type V = Tok;

    open spec fn view(&self) -> Tok {
        match self {
            TokenKind::Ident(s) => Tok::Ident(s@),
            TokenKind::Number(n) => Tok::Number(*n),
            TokenKind::Char(c) => Tok::Char(*c),
            TokenKind::KwEqu => Tok::KwEqu,
            TokenKind::Hash => Tok::Hash,
            TokenKind::Arrow => Tok::Arrow,
            TokenKind::Semi => Tok::Semi,
            TokenKind::Colon => Tok::Colon,
            TokenKind::LBracket => Tok::LBracket,
            TokenKind::RBracket => Tok::RBracket,
            TokenKind::Bang => Tok::Bang,
            TokenKind::Eq => Tok::Eq,
            TokenKind::Newline => Tok::Newline,
            TokenKind::Eof => Tok::Eof,
        }
    }
}

// ─── Outside text services ──────────────────────────────────────────────────

/// The shared file name that `Arc::<str>::from` makes of `name`.
pub uninterp spec fn file_arc(name: Seq<char>) -> Arc<str>;

/// The text of `format!("{:?}", c as char)`: the character in single quotes,
/// escaped as Rust's `Debug` for `char` escapes it.
pub uninterp spec fn char_debug(c: u8) -> Seq<char>;

/// The text a shared file name holds.
pub uninterp spec fn arc_text(file: Arc<str>) -> Seq<char>;

/// Trusted: `Arc::<str>::from` copies `name` into a new shared string. The
/// content of an `Arc<str>` has no view here, so the result is named, and
/// what it holds is the text of `name`.
#[verifier::external_body]
fn file_handle(name: &str) -> (r: Arc<str>)
    ensures
        r == file_arc(name@),
        arc_text(r) == name@,
{
    Arc::from(name)
}

/// Trusted: `format!` with the `Debug` formatting of `c as char`.
#[verifier::external_body]
fn debug_char(c: u8) -> (s: String)
    ensures
        s@ == char_debug(c),
{
    format!("{:?}", c as char)
}

/// The characters of ASCII bytes.
pub open spec fn ascii_chars(bytes: Seq<u8>) -> Seq<char> {
    bytes.map_values(|b: u8| b as char)
}

/// Trusted: `std::str::from_utf8` on bytes below 0x80, which are valid
/// UTF-8 and decode to one character per byte, turned into an owned string.
#[verifier::external_body]
fn ascii_string(bytes: &[u8]) -> (s: String)
    requires
        forall|i: int| 0 <= i < bytes@.len() ==> bytes@[i] < 0x80,
    ensures
        s@ == ascii_chars(bytes@),
{
    std::str::from_utf8(bytes).unwrap().to_string()
}

// ─── Character classes ──────────────────────────────────────────────────────

pub open spec fn is_alpha(c: u8) -> bool {
    (0x41 <= c <= 0x5A) || (0x61 <= c <= 0x7A)
}

pub open spec fn is_digit(c: u8) -> bool {
    0x30 <= c <= 0x39
}

pub open spec fn is_hex_digit(c: u8) -> bool {
    is_digit(c) || (0x41 <= c <= 0x46) || (0x61 <= c <= 0x66)
}

/// Identifier bytes: `[A-Za-z0-9_]`.
pub open spec fn is_ident_byte(c: u8) -> bool {
    is_alpha(c) || is_digit(c) || c == 0x5F
}

/// A digit of `radix` (2, 10 or 16).
pub open spec fn is_radix_digit(c: u8, radix: u32) -> bool {
    if radix == 10 {
        is_digit(c)
    } else if radix == 16 {
        is_hex_digit(c)
    } else {
        c == 0x30 || c == 0x31
    }
}

/// The value of a digit byte.
pub open spec fn digit_value(c: u8) -> int {
    if is_digit(c) {
        c - 0x30
    } else if 0x41 <= c <= 0x46 {
        c - 0x41 + 10
    } else {
        c - 0x61 + 10
    }
}

/// The value of a digit string in `radix`.
pub open spec fn digits_value(digits: Seq<u8>, radix: u32) -> int
    decreases digits.len(),
{
    if digits.len() == 0 {
        0
    } else {
        digits_value(digits.drop_last(), radix) * radix + digit_value(digits.last())
    }
}

/// The end of the run of bytes satisfying `p` that starts at `i`.
pub open spec fn run_end(src: Seq<u8>, i: int, p: spec_fn(u8) -> bool) -> int
    decreases src.len() - i,
{
    if 0 <= i < src.len() && p(src[i]) {
        run_end(src, i + 1, p)
    } else {
        i
    }
}

/// The end of the identifier run starting at `i`.
pub open spec fn ident_end(src: Seq<u8>, i: int) -> int {
    run_end(src, i, |b: u8| is_ident_byte(b))
}

/// The position of the newline ending the line that contains `i` (or the
/// end of the source).
pub open spec fn line_end(src: Seq<u8>, i: int) -> int {
    run_end(src, i, |b: u8| b != 0x0A)
}

/// The end of the run of `radix` digits starting at `i`.
pub open spec fn digits_end(src: Seq<u8>, i: int, radix: u32) -> int {
    run_end(src, i, |b: u8| is_radix_digit(b, radix))
}

// ─── The lexer's specification ──────────────────────────────────────────────

/// Where the lexer stands: byte position, current line and the position at
/// which the current line starts.
pub ghost struct LexPos {
    pub pos: usize,
    pub line: u32,
    pub line_start: usize,
}

/// The span of `len` bytes from `start` on the current line. Columns are
/// computed with wrapping arithmetic.
pub open spec fn span_at(file: Arc<str>, lp: LexPos, start: usize, len: u32) -> Span {
    Span {
        file,
        line: lp.line,
        col: (start.wrapping_sub(lp.line_start).wrapping_add(1)) as u32,
        len,
    }
}

/// Moving past byte `c` at `lp.pos`: a newline starts a new line.
pub open spec fn advance(lp: LexPos, c: u8) -> LexPos {
    if c == 0x0A {
        LexPos { pos: (lp.pos + 1) as usize, line: lp.line.wrapping_add(1), line_start: (lp.pos + 1) as usize }
    } else {
        LexPos { pos: (lp.pos + 1) as usize, ..lp }
    }
}

/// What one lexing step produces: tokens and error messages, in order, and
/// the position after it.
pub ghost struct LexStep {
    pub toks: Seq<(Tok, Span)>,
    pub diags: Seq<(Seq<char>, Span)>,
    pub next: LexPos,
}

pub open spec fn token_step(t: Tok, span: Span, next: LexPos) -> LexStep {
    LexStep { toks: seq![(t, span)], diags: Seq::empty(), next }
}

pub open spec fn skip_step(next: LexPos) -> LexStep {
    LexStep { toks: Seq::empty(), diags: Seq::empty(), next }
}

/// A number literal whose first digit (or radix prefix) is at `p` and whose
/// text starts at `start` (at the `-` sign when negative): `0x`/`0X` gives
/// hexadecimal and `0b`/`0B` binary digits. A literal without digits, or
/// whose digits exceed `i64::MAX`, is an error (its token carries 0).
pub open spec fn number_step(src: Seq<u8>, file: Arc<str>, lp: LexPos, start: usize, negative: bool) -> LexStep {
    let p = lp.pos as int;
    let prefixed = p + 1 < src.len() && src[p] == 0x30;
    let radix: u32 = if prefixed && (src[p + 1] == 0x78 || src[p + 1] == 0x58) {
        16
    } else if prefixed && (src[p + 1] == 0x62 || src[p + 1] == 0x42) {
        2
    } else {
        10
    };
    let d0 = if radix == 10 { p } else { p + 2 };
    let e = digits_end(src, d0, radix);
    let v = digits_value(src.subrange(d0, e), radix);
    let magnitude: i64 = if e == d0 || v > i64::MAX { 0 } else { v as i64 };
    let value: i64 = if negative { (-magnitude) as i64 } else { magnitude };
    let span = span_at(file, lp, start, (e - start) as u32);
    LexStep {
        toks: seq![(Tok::Number(value), span)],
        diags: if e == d0 {
            seq![("number literal has no digits"@, span)]
        } else if v > i64::MAX {
            seq![("number literal out of range"@, span)]
        } else {
            Seq::empty()
        },
        next: LexPos { pos: e as usize, ..lp },
    }
}

/// The message for an unknown escape: `{:?}` of the escaped byte as an
/// `Option<u8>`.
pub open spec fn msg_unknown_escape(b: Option<u8>) -> Seq<char> {
    "unknown escape \\"@ + match b {
        Some(c) => "Some("@ + decimal(c as nat) + ")"@,
        None => "None"@,
    }
}

/// A character literal opening at `lp.pos`: one byte or a backslash escape
/// (`\\n \\t \\r \\\\ \\' \\0`), then a closing quote.
pub open spec fn char_step(src: Seq<u8>, file: Arc<str>, lp: LexPos) -> LexStep {
    let start = lp.pos;
    let a = advance(lp, 0x27);
    let p = a.pos as int;
    // The value, the position after it, and the diagnostics it raises.
    let (val, b, d1): (u8, LexPos, Seq<(Seq<char>, Span)>) = if p < src.len() && src[p] == 0x5C {
        let a2 = advance(a, 0x5C);
        let q = a2.pos as int;
        let (esc, a3): (Option<u8>, LexPos) = if q < src.len() {
            (Some(src[q]), advance(a2, src[q]))
        } else {
            (None, a2)
        };
        match esc {
            Some(0x6E) => (0x0Au8, a3, Seq::empty()),
            Some(0x74) => (0x09u8, a3, Seq::empty()),
            Some(0x72) => (0x0Du8, a3, Seq::empty()),
            Some(0x5C) => (0x5Cu8, a3, Seq::empty()),
            Some(0x27) => (0x27u8, a3, Seq::empty()),
            Some(0x30) => (0u8, a3, Seq::empty()),
            _ => (
                0u8,
                a3,
                seq![(msg_unknown_escape(esc), span_at(file, a3, start, (a3.pos - start) as u32))],
            ),
        }
    } else if p < src.len() {
        (src[p], advance(a, src[p]), Seq::empty())
    } else {
        (0u8, a, seq![("unterminated char literal"@, span_at(file, a, start, 1))])
    };
    let q = b.pos as int;
    let (c, d2): (LexPos, Seq<(Seq<char>, Span)>) = if q < src.len() && src[q] == 0x27 {
        (advance(b, 0x27), Seq::empty())
    } else {
        (b, seq![("expected closing ' for char literal"@, span_at(file, b, b.pos, 1))])
    };
    LexStep {
        toks: seq![(Tok::Char(val as u16), span_at(file, c, start, (c.pos - start) as u32))],
        diags: d1 + d2,
        next: c,
    }
}

/// The single-byte punctuation token for `c`, if any.
pub open spec fn punct(c: u8) -> Option<Tok> {
    if c == 0x23 {
        Some(Tok::Hash)
    } else if c == 0x3B {
        Some(Tok::Semi)
    } else if c == 0x3A {
        Some(Tok::Colon)
    } else if c == 0x5B {
        Some(Tok::LBracket)
    } else if c == 0x5D {
        Some(Tok::RBracket)
    } else if c == 0x21 {
        Some(Tok::Bang)
    } else if c == 0x3D {
        Some(Tok::Eq)
    } else {
        None
    }
}

/// One lexing step at `lp.pos < src.len()`.
pub open spec fn lex_step(src: Seq<u8>, file: Arc<str>, lp: LexPos) -> LexStep {
    let p = lp.pos as int;
    let c = src[p];
    let next_is = |b: u8| p + 1 < src.len() && src[p + 1] == b;
    if c == 0x20 || c == 0x09 || c == 0x0D {
        skip_step(advance(lp, c))
    } else if c == 0x0A {
        token_step(Tok::Newline, span_at(file, lp, lp.pos, 1), advance(lp, c))
    } else if c == 0x2F && next_is(0x2F) {
        // `//` comment: up to, not including, the newline
        skip_step(LexPos { pos: line_end(src, p) as usize, ..lp })
    } else if c == 0x2E {
        // `.equ`, or an unknown directive
        let e = ident_end(src, p + 1);
        let span = span_at(file, lp, lp.pos, (e - p) as u32);
        let kw = src.subrange(p + 1, e);
        let next = LexPos { pos: e as usize, ..lp };
        if kw == seq![0x65u8, 0x71u8, 0x75u8] {
            token_step(Tok::KwEqu, span, next)
        } else {
            LexStep {
                toks: Seq::empty(),
                diags: seq![("unknown directive ."@ + ascii_chars(kw), span)],
                next,
            }
        }
    } else if is_alpha(c) || c == 0x5F {
        let e = ident_end(src, p);
        token_step(
            Tok::Ident(ascii_chars(src.subrange(p, e))),
            span_at(file, lp, lp.pos, (e - p) as u32),
            LexPos { pos: e as usize, ..lp },
        )
    } else if is_digit(c) {
        number_step(src, file, lp, lp.pos, false)
    } else if c == 0x2D && next_is(0x3E) {
        token_step(Tok::Arrow, span_at(file, lp, lp.pos, 2), LexPos { pos: (lp.pos + 2) as usize, ..lp })
    } else if c == 0x2D {
        number_step(src, file, advance(lp, c), lp.pos, true)
    } else if c == 0x27 {
        char_step(src, file, lp)
    } else if punct(c) is Some {
        token_step(punct(c)->0, span_at(file, lp, lp.pos, 1), advance(lp, c))
    } else {
        LexStep {
            toks: Seq::empty(),
            diags: seq![("unexpected character "@ + char_debug(c), span_at(file, lp, lp.pos, 1))],
            next: advance(lp, c),
        }
    }
}

/// The tokens and errors of lexing from `lp` to the end, the last token
/// being `Eof`.
pub open spec fn lex_rest(src: Seq<u8>, file: Arc<str>, lp: LexPos) -> (Seq<(Tok, Span)>, Seq<(Seq<char>, Span)>)
    decreases src.len() - lp.pos,
{
    if lp.pos >= src.len() {
        (seq![(Tok::Eof, span_at(file, lp, lp.pos, 0))], Seq::empty())
    } else {
        let s = lex_step(src, file, lp);
        if lp.pos < s.next.pos <= src.len() {
            let r = lex_rest(src, file, s.next);
            (s.toks + r.0, s.diags + r.1)
        } else {
            (s.toks, s.diags)
        }
    }
}

/// The tokens and errors of lexing `src` from its start.
pub open spec fn lex_spec(src: Seq<u8>, file: Arc<str>) -> (Seq<(Tok, Span)>, Seq<(Seq<char>, Span)>) {
    lex_rest(src, file, LexPos { pos: 0, line: 1, line_start: 0 })
}

/// `toks` are exactly `expected`, kinds by their view.
pub open spec fn tokens_match(toks: Seq<Token>, expected: Seq<(Tok, Span)>) -> bool {
    &&& toks.len() == expected.len()
    &&& forall|i: int|
        0 <= i < toks.len() ==> (#[trigger] toks[i]).kind@ == expected[i].0 && toks[i].span
            == expected[i].1
}

// ─── The lexer ──────────────────────────────────────────────────────────────

fn alpha_byte(c: u8) -> (b: bool)
    ensures
        b == is_alpha(c),
{
    (0x41 <= c && c <= 0x5A) || (0x61 <= c && c <= 0x7A)
}

fn digit_byte(c: u8) -> (b: bool)
    ensures
        b == is_digit(c),
{
    0x30 <= c && c <= 0x39
}

fn ident_byte(c: u8) -> (b: bool)
    ensures
        b == is_ident_byte(c),
{
    alpha_byte(c) || digit_byte(c) || c == 0x5F
}

fn radix_digit(c: u8, radix: u32) -> (b: bool)
    ensures
        b == is_radix_digit(c, radix),
{
    if radix == 10 {
        digit_byte(c)
    } else if radix == 16 {
        digit_byte(c) || (0x41 <= c && c <= 0x46) || (0x61 <= c && c <= 0x66)
    } else {
        c == 0x30 || c == 0x31
    }
}

struct Lexer<'src> {
    src: &'src [u8],
    pos: usize,
    line: u32,
    line_start: usize,
    file: Arc<str>,
    tokens: Vec<Token>,
    diags: Diagnostics,
}

impl<'src> Lexer<'src> {
    spec fn lp(&self) -> LexPos {
        LexPos { pos: self.pos, line: self.line, line_start: self.line_start }
    }

    /// Positions stay inside the source.
    spec fn wf(&self) -> bool {
        &&& self.pos <= self.src@.len() <= usize::MAX
        &&& self.line_start <= self.pos
    }

    fn peek(&self) -> (r: Option<u8>)
        ensures
            r == if self.pos < self.src@.len() {
                Some(self.src@[self.pos as int])
            } else {
                None::<u8>
            },
    {
        if self.pos < self.src.len() {
            Some(self.src[self.pos])
        } else {
            None
        }
    }

    fn peek_at(&self, i: usize) -> (r: Option<u8>)
        ensures
            r == if i < self.src@.len() {
                Some(self.src@[i as int])
            } else {
                None::<u8>
            },
    {
        if i < self.src.len() {
            Some(self.src[i])
        } else {
            None
        }
    }

    fn bump(&mut self) -> (r: Option<u8>)
        requires
            old(self).wf(),
        ensures
            final(self).wf(),
            final(self).src == old(self).src,
            final(self).file == old(self).file,
            final(self).tokens == old(self).tokens,
            final(self).diags == old(self).diags,
            old(self).pos < old(self).src@.len() ==> r == Some(old(self).src@[old(self).pos as int])
                && final(self).lp() == advance(old(self).lp(), old(self).src@[old(self).pos as int]),
            old(self).pos >= old(self).src@.len() ==> r == None::<u8> && final(self).lp() == old(self).lp(),
    {
        if self.pos >= self.src.len() {
            return None;
        }
        let c = self.src[self.pos];
        self.pos += 1;
        if c == 0x0A {
            // 32-bit line counter, wrapping as `advance` describes
            self.line = self.line.wrapping_add(1);
            self.line_start = self.pos;
        }
        Some(c)
    }

    fn span(&self, start: usize, len: u32) -> (s: Span)
        ensures
            s == span_at(self.file, self.lp(), start, len),
    {
        Span {
            file: share_file(&self.file),
            line: self.line,
            col: (start.wrapping_sub(self.line_start).wrapping_add(1)) as u32,
            len,
        }
    }

    fn error(&mut self, span: Span, msg: &str, Ghost(expected): Ghost<Seq<(Seq<char>, Span)>>)
        requires
            crate::encoder::errors_match(old(self).diags.items@, expected),
        ensures
            crate::encoder::errors_match(final(self).diags.items@, expected.push((msg@, span))),
            final(self).src == old(self).src,
            final(self).file == old(self).file,
            final(self).lp() == old(self).lp(),
            final(self).tokens == old(self).tokens,
    {
        crate::encoder::error_at(&mut self.diags, &span, msg, Ghost(expected));
    }

    /// The end of the identifier run starting at `from`.
    fn scan_ident(&self, from: usize) -> (e: usize)
        requires
            from <= self.src@.len(),
        ensures
            e == ident_end(self.src@, from as int),
            from <= e <= self.src@.len(),
    {
        let mut i = from;
        while i < self.src.len() && ident_byte(self.src[i])
            invariant
                from <= i <= self.src@.len(),
                ident_end(self.src@, i as int) == ident_end(self.src@, from as int),
            decreases self.src@.len() - i,
        {
            i += 1;
        }
        i
    }
}

proof fn lemma_tokens_push(toks: Seq<Token>, expected: Seq<(Tok, Span)>, t: Token)
    requires
        tokens_match(toks, expected),
    ensures
        tokens_match(toks.push(t), expected.push((t.kind@, t.span))),
{
    assert forall|i: int| 0 <= i < toks.len() + 1 implies (#[trigger] toks.push(t)[i]).kind@
        == expected.push((t.kind@, t.span))[i].0 && toks.push(t)[i].span == expected.push(
        (t.kind@, t.span),
    )[i].1 by {
        if i < toks.len() {
            assert(toks.push(t)[i] == toks[i]);
        }
    }
}

impl<'src> Lexer<'src> {
    /// The lexer has produced tokens `toks` and errors `diags`.
    spec fn produced(&self, toks: Seq<(Tok, Span)>, diags: Seq<(Seq<char>, Span)>) -> bool {
        tokens_match(self.tokens@, toks) && crate::encoder::errors_match(self.diags.items@, diags)
    }

    fn emit(&mut self, kind: TokenKind, span: Span, Ghost(toks): Ghost<Seq<(Tok, Span)>>, Ghost(diags): Ghost<Seq<(Seq<char>, Span)>>)
        requires
            old(self).produced(toks, diags),
        ensures
            final(self).produced(toks.push((kind@, span)), diags),
            final(self).src == old(self).src,
            final(self).file == old(self).file,
            final(self).lp() == old(self).lp(),
    {
        proof {
            lemma_tokens_push(self.tokens@, toks, Token { kind, span });
        }
        self.tokens.push(Token { kind, span });
    }

    /// The position of the newline ending the current line, or the end.
    fn scan_line_end(&self, from: usize) -> (e: usize)
        requires
            from <= self.src@.len(),
        ensures
            e == line_end(self.src@, from as int),
            from <= e <= self.src@.len(),
    {
        let mut i = from;
        while i < self.src.len() && self.src[i] != 0x0A
            invariant
                from <= i <= self.src@.len(),
                line_end(self.src@, i as int) == line_end(self.src@, from as int),
            decreases self.src@.len() - i,
        {
            i += 1;
        }
        i
    }

    /// The end of the run of `radix` digits starting at `from`.
    fn scan_digits(&self, from: usize, radix: u32) -> (e: usize)
        requires
            from <= self.src@.len(),
        ensures
            e == digits_end(self.src@, from as int, radix),
            from <= e <= self.src@.len(),
    {
        let mut i = from;
        while i < self.src.len() && radix_digit(self.src[i], radix)
            invariant
                from <= i <= self.src@.len(),
                digits_end(self.src@, i as int, radix) == digits_end(self.src@, from as int, radix),
            decreases self.src@.len() - i,
        {
            i += 1;
        }
        i
    }

    /// The value of the digits `from..to` in `radix`, or `None` when it
    /// exceeds `i64::MAX`.
    fn digits_to_value(&self, from: usize, to: usize, radix: u32) -> (r: Option<i64>)
        requires
            from <= to <= self.src@.len(),
            radix == 2 || radix == 10 || radix == 16,
            forall|i: int| from <= i < to ==> is_radix_digit(#[trigger] self.src@[i], radix),
        ensures
            r == if digits_value(self.src@.subrange(from as int, to as int), radix) <= i64::MAX {
                Some(digits_value(self.src@.subrange(from as int, to as int), radix) as i64)
            } else {
                None::<i64>
            },
            digits_value(self.src@.subrange(from as int, to as int), radix) >= 0,
    {
        let mut v: i64 = 0;
        let mut overflow = false;
        let mut i = from;
        while i < to
            invariant
                from <= i <= to <= self.src@.len(),
                radix == 2 || radix == 10 || radix == 16,
                forall|k: int| from <= k < to ==> is_radix_digit(#[trigger] self.src@[k], radix),
                digits_value(self.src@.subrange(from as int, i as int), radix) >= 0,
                !overflow ==> v == digits_value(self.src@.subrange(from as int, i as int), radix),
                overflow ==> digits_value(self.src@.subrange(from as int, i as int), radix) > i64::MAX,
            decreases to - i,
        {
            let c = self.src[i];
            assert(is_radix_digit(c, radix));
            let d: i64 = if c <= 0x39 {
                (c - 0x30) as i64
            } else if c <= 0x46 {
                (c - 0x41 + 10) as i64
            } else {
                (c - 0x61 + 10) as i64
            };
            assert(d == digit_value(c));
            let ghost prev = digits_value(self.src@.subrange(from as int, i as int), radix);
            assert(self.src@.subrange(from as int, i + 1).drop_last() =~= self.src@.subrange(
                from as int,
                i as int,
            ));
            assert(digits_value(self.src@.subrange(from as int, i + 1), radix) == prev * radix + d);
            assert(prev * radix >= prev) by (nonlinear_arith)
                requires
                    prev >= 0,
                    radix >= 2,
            ;
            if !overflow {
                match v.checked_mul(radix as i64) {
                    Some(m) => match m.checked_add(d) {
                        Some(n) => {
                            v = n;
                        },
                        None => {
                            overflow = true;
                        },
                    },
                    None => {
                        overflow = true;
                        assert(prev * radix + d > i64::MAX);
                    },
                }
            }
            i += 1;
        }
        if overflow {
            None
        } else {
            Some(v)
        }
    }
}

/// A run ends inside the source, after its start, and covers only bytes
/// satisfying its predicate.
pub proof fn lemma_run_end(src: Seq<u8>, i: int, p: spec_fn(u8) -> bool)
    requires
        0 <= i <= src.len(),
    ensures
        i <= run_end(src, i, p) <= src.len(),
        forall|k: int| i <= k < run_end(src, i, p) ==> p(#[trigger] src[k]),
        run_end(src, i, p) < src.len() ==> !p(src[run_end(src, i, p)]),
    decreases src.len() - i,
{
    if i < src.len() && p(src[i]) {
        lemma_run_end(src, i + 1, p);
    }
}

proof fn lemma_digits_end(src: Seq<u8>, i: int, radix: u32)
    requires
        0 <= i <= src.len(),
    ensures
        i <= digits_end(src, i, radix) <= src.len(),
        forall|k: int| i <= k < digits_end(src, i, radix) ==> is_radix_digit(#[trigger] src[k], radix),
        i < src.len() && is_radix_digit(src[i], radix) ==> digits_end(src, i, radix) > i,
{
    lemma_run_end(src, i, |b: u8| is_radix_digit(b, radix));
    if i < src.len() && is_radix_digit(src[i], radix) {
        lemma_run_end(src, i + 1, |b: u8| is_radix_digit(b, radix));
    }
}

impl<'src> Lexer<'src> {
    /// Lex a number literal whose digits (or radix prefix) start at the
    /// current position and whose text starts at `start`.
    fn lex_number(&mut self, start: usize, negative: bool, Ghost(toks): Ghost<Seq<(Tok, Span)>>, Ghost(diags): Ghost<Seq<(Seq<char>, Span)>>)
        requires
            old(self).wf(),
            old(self).produced(toks, diags),
            start <= old(self).pos,
        ensures
            final(self).wf(),
            final(self).src == old(self).src,
            final(self).file == old(self).file,
            final(self).produced(
                toks + number_step(old(self).src@, old(self).file, old(self).lp(), start, negative).toks,
                diags + number_step(old(self).src@, old(self).file, old(self).lp(), start, negative).diags,
            ),
            final(self).lp() == number_step(old(self).src@, old(self).file, old(self).lp(), start, negative).next,
            final(self).pos >= old(self).pos,
            old(self).pos < old(self).src@.len() && is_digit(old(self).src@[old(self).pos as int])
                ==> final(self).pos > old(self).pos,
    {
        let ghost st = number_step(self.src@, self.file, self.lp(), start, negative);
        let p = self.pos;
        let mut radix: u32 = 10;
        if self.peek() == Some(0x30u8) {
            let n1 = self.peek_at(p + 1);
            if n1 == Some(0x78u8) || n1 == Some(0x58u8) {
                self.bump();
                self.bump();
                radix = 16;
            } else if n1 == Some(0x62u8) || n1 == Some(0x42u8) {
                self.bump();
                self.bump();
                radix = 2;
            }
        }
        let d0 = self.pos;
        let e = self.scan_digits(d0, radix);
        proof {
            lemma_digits_end(self.src@, d0 as int, radix);
        }
        // 0: a value; 1: no digits; 2: too large for i64
        let (magnitude, fault): (i64, u8) = if e == d0 {
            (0, 1)
        } else {
            match self.digits_to_value(d0, e, radix) {
                Some(v) => (v, 0),
                None => (0, 2),
            }
        };
        assert(magnitude >= 0);
        let value = if negative { -magnitude } else { magnitude };
        self.pos = e;
        let span = self.span(start, (e - start) as u32);
        self.emit(TokenKind::Number(value), span.copy(), Ghost(toks), Ghost(diags));
        if fault == 1 {
            self.error(span, "number literal has no digits", Ghost(diags));
            assert(diags.push(("number literal has no digits"@, span)) =~= diags + st.diags);
        } else if fault == 2 {
            self.error(span, "number literal out of range", Ghost(diags));
            assert(diags.push(("number literal out of range"@, span)) =~= diags + st.diags);
        } else {
            assert(diags + st.diags =~= diags);
        }
        assert(toks.push((TokenKind::Number(value)@, span)) =~= toks + st.toks);
    }
}

/// The message for an unknown escape.
fn unknown_escape_message(esc: Option<u8>) -> (s: String)
    ensures
        s@ == msg_unknown_escape(esc),
{
    let mut msg = String::from_str("unknown escape \\");
    let ghost head = msg@;
    match esc {
        Some(b) => {
            msg.append("Some(");
            let digits = decimal_string(b as u64);
            msg.append(digits.as_str());
            msg.append(")");
            assert(msg@ =~= head + ("Some("@ + decimal(b as nat) + ")"@));
        },
        None => {
            msg.append("None");
        },
    }
    msg
}

impl<'src> Lexer<'src> {
    /// Lex a character literal whose opening quote is at the current position.
    fn lex_char(&mut self, Ghost(toks): Ghost<Seq<(Tok, Span)>>, Ghost(diags): Ghost<Seq<(Seq<char>, Span)>>)
        requires
            old(self).wf(),
            old(self).produced(toks, diags),
            old(self).pos < old(self).src@.len(),
            old(self).src@[old(self).pos as int] == 0x27,
        ensures
            final(self).wf(),
            final(self).src == old(self).src,
            final(self).file == old(self).file,
            final(self).produced(
                toks + char_step(old(self).src@, old(self).file, old(self).lp()).toks,
                diags + char_step(old(self).src@, old(self).file, old(self).lp()).diags,
            ),
            final(self).lp() == char_step(old(self).src@, old(self).file, old(self).lp()).next,
            final(self).pos > old(self).pos,
    {
        let ghost cs = char_step(self.src@, self.file, self.lp());
        let start = self.pos;
        self.bump();  // opening '
        let ghost mut d1: Seq<(Seq<char>, Span)> = Seq::empty();
        let val: u8 = if self.peek() == Some(0x5Cu8) {
            self.bump();
            let esc = self.bump();
            if esc == Some(0x6Eu8) {
                0x0A
            } else if esc == Some(0x74u8) {
                0x09
            } else if esc == Some(0x72u8) {
                0x0D
            } else if esc == Some(0x5Cu8) {
                0x5C
            } else if esc == Some(0x27u8) {
                0x27
            } else if esc == Some(0x30u8) {
                0
            } else {
                let msg = unknown_escape_message(esc);
                let span = self.span(start, (self.pos - start) as u32);
                self.error(span, msg.as_str(), Ghost(diags));
                proof {
                    d1 = seq![(msg@, span)];
                }
                0
            }
        } else if let Some(c) = self.peek() {
            self.bump();
            c
        } else {
            let span = self.span(start, 1);
            self.error(span, "unterminated char literal", Ghost(diags));
            proof {
                d1 = seq![("unterminated char literal"@, span)];
            }
            0
        };
        assert(crate::encoder::errors_match(self.diags.items@, diags + d1)) by {
            if d1.len() == 0 {
                assert(diags + d1 =~= diags);
            } else {
                assert(diags.push(d1[0]) =~= diags + d1);
            }
        }
        let ghost mut d2: Seq<(Seq<char>, Span)> = Seq::empty();
        if self.peek() == Some(0x27u8) {
            self.bump();
        } else {
            let span = self.span(self.pos, 1);
            self.error(span, "expected closing ' for char literal", Ghost(diags + d1));
            proof {
                d2 = seq![("expected closing ' for char literal"@, span)];
            }
        }
        assert(crate::encoder::errors_match(self.diags.items@, diags + d1 + d2)) by {
            if d2.len() == 0 {
                assert(diags + d1 + d2 =~= diags + d1);
            } else {
                assert((diags + d1).push(d2[0]) =~= diags + d1 + d2);
            }
        }
        let span = self.span(start, (self.pos - start) as u32);
        self.emit(TokenKind::Char(val as u16), span, Ghost(toks), Ghost(diags + d1 + d2));
        assert(toks.push((TokenKind::Char(val as u16)@, span)) =~= toks + cs.toks);
        assert(diags + d1 + d2 =~= diags + cs.diags);
    }
}

proof fn lemma_ident_end(src: Seq<u8>, i: int)
    requires
        0 <= i <= src.len(),
    ensures
        i <= ident_end(src, i) <= src.len(),
        forall|k: int| i <= k < ident_end(src, i) ==> is_ident_byte(#[trigger] src[k]),
        i < src.len() && is_ident_byte(src[i]) ==> ident_end(src, i) > i,
{
    lemma_run_end(src, i, |b: u8| is_ident_byte(b));
    if i < src.len() && is_ident_byte(src[i]) {
        lemma_run_end(src, i + 1, |b: u8| is_ident_byte(b));
    }
}

proof fn lemma_line_end(src: Seq<u8>, i: int)
    requires
        0 <= i <= src.len(),
    ensures
        i <= line_end(src, i) <= src.len(),
        i < src.len() && src[i] != 0x0A ==> line_end(src, i) > i,
{
    lemma_run_end(src, i, |b: u8| b != 0x0A);
    if i < src.len() && src[i] != 0x0A {
        lemma_run_end(src, i + 1, |b: u8| b != 0x0A);
    }
}

fn punct_kind(c: u8) -> (r: Option<TokenKind>)
    ensures
        r is Some <==> punct(c) is Some,
        r matches Some(k) ==> punct(c) == Some(k@),
{
    if c == 0x23 {
        Some(TokenKind::Hash)
    } else if c == 0x3B {
        Some(TokenKind::Semi)
    } else if c == 0x3A {
        Some(TokenKind::Colon)
    } else if c == 0x5B {
        Some(TokenKind::LBracket)
    } else if c == 0x5D {
        Some(TokenKind::RBracket)
    } else if c == 0x21 {
        Some(TokenKind::Bang)
    } else if c == 0x3D {
        Some(TokenKind::Eq)
    } else {
        None
    }
}

impl<'src> Lexer<'src> {
    /// One lexing step at the current position.
    fn step(&mut self, Ghost(toks): Ghost<Seq<(Tok, Span)>>, Ghost(diags): Ghost<Seq<(Seq<char>, Span)>>)
        requires
            old(self).wf(),
            old(self).produced(toks, diags),
            old(self).pos < old(self).src@.len(),
        ensures
            final(self).wf(),
            final(self).src == old(self).src,
            final(self).file == old(self).file,
            final(self).produced(
                toks + lex_step(old(self).src@, old(self).file, old(self).lp()).toks,
                diags + lex_step(old(self).src@, old(self).file, old(self).lp()).diags,
            ),
            final(self).lp() == lex_step(old(self).src@, old(self).file, old(self).lp()).next,
            final(self).pos > old(self).pos,
    {
        let ghost st = lex_step(self.src@, self.file, self.lp());
        let c = self.src[self.pos];
        let n1 = self.peek_at(self.pos + 1);
        if c == 0x20 || c == 0x09 || c == 0x0D {
            self.bump();
            assert(toks + st.toks =~= toks);
            assert(diags + st.diags =~= diags);
        } else if c == 0x0A {
            let span = self.span(self.pos, 1);
            self.bump();
            self.emit(TokenKind::Newline, span, Ghost(toks), Ghost(diags));
            assert(toks.push((TokenKind::Newline@, span)) =~= toks + st.toks);
            assert(diags + st.diags =~= diags);
        } else if c == 0x2F && n1 == Some(0x2Fu8) {
            // `//` comment: skip to the end of the line
            proof {
                lemma_line_end(self.src@, self.pos as int);
            }
            self.pos = self.scan_line_end(self.pos);
            assert(toks + st.toks =~= toks);
            assert(diags + st.diags =~= diags);
        } else if c == 0x2E {
            // Only legal start of `.equ`; anything else is an error.
            let start = self.pos;
            self.bump();
            let e = self.scan_ident(self.pos);
            proof {
                lemma_ident_end(self.src@, start + 1);
            }
            let kw = vstd::slice::slice_subrange(self.src, start + 1, e);
            self.pos = e;
            let span = self.span(start, (e - start) as u32);
            if kw.len() == 3 && kw[0] == 0x65 && kw[1] == 0x71 && kw[2] == 0x75 {
                assert(kw@ =~= seq![0x65u8, 0x71u8, 0x75u8]);
                self.emit(TokenKind::KwEqu, span, Ghost(toks), Ghost(diags));
                assert(toks.push((TokenKind::KwEqu@, span)) =~= toks + st.toks);
                assert(diags + st.diags =~= diags);
            } else {
                assert(kw@ != seq![0x65u8, 0x71u8, 0x75u8]);
                let word = ascii_string(kw);
                let mut msg = String::from_str("unknown directive .");
                msg.append(word.as_str());
                self.error(span, msg.as_str(), Ghost(diags));
                assert(toks + st.toks =~= toks);
                assert(diags.push((msg@, span)) =~= diags + st.diags);
            }
        } else if alpha_byte(c) || c == 0x5F {
            let start = self.pos;
            let e = self.scan_ident(start);
            proof {
                lemma_ident_end(self.src@, start as int);
            }
            let name = ascii_string(vstd::slice::slice_subrange(self.src, start, e));
            self.pos = e;
            let span = self.span(start, (e - start) as u32);
            self.emit(TokenKind::Ident(name), span, Ghost(toks), Ghost(diags));
            assert(toks.push((Tok::Ident(name@), span)) =~= toks + st.toks);
            assert(diags + st.diags =~= diags);
        } else if digit_byte(c) {
            self.lex_number(self.pos, false, Ghost(toks), Ghost(diags));
        } else if c == 0x2D && n1 == Some(0x3Eu8) {
            let span = self.span(self.pos, 2);
            self.bump();
            self.bump();
            self.emit(TokenKind::Arrow, span, Ghost(toks), Ghost(diags));
            assert(toks.push((TokenKind::Arrow@, span)) =~= toks + st.toks);
            assert(diags + st.diags =~= diags);
        } else if c == 0x2D {
            let start = self.pos;
            self.bump();
            self.lex_number(start, true, Ghost(toks), Ghost(diags));
        } else if c == 0x27 {
            self.lex_char(Ghost(toks), Ghost(diags));
        } else if let Some(kind) = punct_kind(c) {
            let span = self.span(self.pos, 1);
            self.bump();
            let ghost k = kind@;
            self.emit(kind, span, Ghost(toks), Ghost(diags));
            assert(toks.push((k, span)) =~= toks + st.toks);
            assert(diags + st.diags =~= diags);
        } else {
            let span = self.span(self.pos, 1);
            let shown = debug_char(c);
            let mut msg = String::from_str("unexpected character ");
            msg.append(shown.as_str());
            self.error(span, msg.as_str(), Ghost(diags));
            self.bump();  // skip and continue
            assert(toks + st.toks =~= toks);
            assert(diags.push((msg@, span)) =~= diags + st.diags);
        }
    }

    /// Lex from the current position to the end, then add `Eof`.
    #[verifier::spinoff_prover]
    #[verifier::rlimit(40)]
    fn run(&mut self)
        requires
            old(self).wf(),
            old(self).produced(Seq::empty(), Seq::empty()),
        ensures
            final(self).produced(
                lex_rest(old(self).src@, old(self).file, old(self).lp()).0,
                lex_rest(old(self).src@, old(self).file, old(self).lp()).1,
            ),
            final(self).tokens@.len() > 0,
            final(self).tokens@.last().kind is Eof,
    {
        let ghost total = lex_rest(self.src@, self.file, self.lp());
        let ghost mut toks: Seq<(Tok, Span)> = Seq::empty();
        let ghost mut diags: Seq<(Seq<char>, Span)> = Seq::empty();
        while self.pos < self.src.len()
            invariant
                self.wf(),
                self.produced(toks, diags),
                self.src@ == old(self).src@,
                self.file == old(self).file,
                toks + lex_rest(self.src@, self.file, self.lp()).0 == total.0,
                diags + lex_rest(self.src@, self.file, self.lp()).1 == total.1,
            decreases self.src@.len() - self.pos,
        {
            let ghost st = lex_step(self.src@, self.file, self.lp());
            let ghost before = self.lp();
            self.step(Ghost(toks), Ghost(diags));
            proof {
                let r = lex_rest(self.src@, self.file, self.lp());
                assert(lex_rest(self.src@, self.file, before) == (st.toks + r.0, st.diags + r.1));
                assert(toks + st.toks + r.0 =~= toks + (st.toks + r.0));
                assert(diags + st.diags + r.1 =~= diags + (st.diags + r.1));
                toks = toks + st.toks;
                diags = diags + st.diags;
            }
        }
        let span = self.span(self.pos, 0);
        self.emit(TokenKind::Eof, span, Ghost(toks), Ghost(diags));
        assert(toks.push((TokenKind::Eof@, span)) =~= total.0);
        assert(diags =~= total.1);
    }
}

/// Lex `source` into tokens, the last one `Eof`. Succeeds exactly when
/// lexing raises no error; otherwise returns the errors in source order.
/// Spans name the file `filename`.
pub fn lex(source: &str, filename: &str) -> (r: Result<Vec<Token>, crate::diag::Diagnostics>)
    ensures
        arc_text(file_arc(filename@)) == filename@,
        match r {
            Ok(toks) => {
                &&& lex_spec(source.spec_bytes(), file_arc(filename@)).1.len() == 0
                &&& tokens_match(toks@, lex_spec(source.spec_bytes(), file_arc(filename@)).0)
                &&& toks@.len() > 0
                &&& toks@.last().kind is Eof
            },
            Err(d) => {
                &&& lex_spec(source.spec_bytes(), file_arc(filename@)).1.len() > 0
                &&& crate::encoder::errors_match(d.items@, lex_spec(source.spec_bytes(), file_arc(filename@)).1)
            },
        },
{
    let bytes = source.as_bytes();
    // A slice's length is a `usize`: positions inside it never overflow.
    let _len: usize = bytes.len();
    let mut lexer = Lexer {
        src: bytes,
        pos: 0,
        line: 1,
        line_start: 0,
        file: file_handle(filename),
        tokens: Vec::new(),
        diags: Diagnostics::new(),
    };
    assert(lexer.produced(Seq::empty(), Seq::empty()));
    lexer.run();
    if lexer.diags.has_errors() {
        Err(lexer.diags)
    } else {
        proof {
            if lex_spec(source.spec_bytes(), file_arc(filename@)).1.len() > 0 {
                assert(lexer.diags.items@[0].severity == Severity::Error);
            }
        }
        Ok(lexer.tokens)
    }
}

/// A character that may stand in an identifier: `[A-Za-z0-9_]`.
pub open spec fn is_ident_char(c: char) -> bool {
    let k = c as int;
    (0x41 <= k <= 0x5A) || (0x61 <= k <= 0x7A) || (0x30 <= k <= 0x39) || k == 0x5F
}

/// The shape of an identifier: at least one character, not starting with a
/// digit, all of them identifier characters.
pub open spec fn ident_shaped(n: Seq<char>) -> bool {
    &&& n.len() > 0
    &&& !(0x30 <= n[0] as int <= 0x39)
    &&& forall|k: int| 0 <= k < n.len() ==> is_ident_char(#[trigger] n[k])
}

/// Maximal munch: at a letter or underscore the lexer takes the whole run of
/// identifier bytes from there as one identifier token, and the byte after
/// it, if any, is not an identifier byte.
pub proof fn lemma_ident_maximal(src: Seq<u8>, file: Arc<str>, lp: LexPos)
    requires
        lp.pos < src.len(),
        is_alpha(src[lp.pos as int]) || src[lp.pos as int] == 0x5F,
    ensures
        ({
            let p = lp.pos as int;
            let e = ident_end(src, p);
            &&& p < e <= src.len()
            &&& lex_step(src, file, lp) == token_step(
                Tok::Ident(ascii_chars(src.subrange(p, e))),
                span_at(file, lp, lp.pos, (e - p) as u32),
                LexPos { pos: e as usize, ..lp },
            )
            &&& forall|k: int| p <= k < e ==> is_ident_byte(#[trigger] src[k])
            &&& e < src.len() ==> !is_ident_byte(src[e])
        }),
{
    let p = lp.pos as int;
    lemma_run_end(src, p, |b: u8| is_ident_byte(b));
    lemma_run_end(src, p + 1, |b: u8| is_ident_byte(b));
}

/// The identifier tokens of one lexing step have the shape of identifiers.
proof fn lemma_step_idents_shaped(src: Seq<u8>, file: Arc<str>, lp: LexPos)
    requires
        lp.pos < src.len(),
    ensures
        forall|i: int|
            0 <= i < lex_step(src, file, lp).toks.len() && (#[trigger] lex_step(src, file, lp).toks[i]).0 is Ident
                ==> ident_shaped(lex_step(src, file, lp).toks[i].0->Ident_0),
{
    let p = lp.pos as int;
    let c = src[p];
    let s = lex_step(src, file, lp);
    if is_alpha(c) || c == 0x5F {
        lemma_ident_maximal(src, file, lp);
        let e = ident_end(src, p);
        let n = ascii_chars(src.subrange(p, e));
        assert forall|k: int| 0 <= k < n.len() implies is_ident_char(#[trigger] n[k]) by {
            assert(n[k] == src[p + k] as char);
            assert(is_ident_byte(src[p + k]));
        }
        assert(n[0] == c as char);
        assert(ident_shaped(n));
    }
}

/// Character literals: a quote, one byte other than a backslash and a
/// closing quote make one `Char` token holding that byte; a quote, a
/// backslash, one of `n t r \\ ' 0` and a closing quote make one `Char`
/// token holding newline (10), tab (9), carriage return (13), backslash
/// (92), apostrophe (39) or NUL (0). Neither raises an error, and lexing
/// goes on after the closing quote. A backslash before any other byte is an
/// error.
pub proof fn lemma_char_literals(src: Seq<u8>, file: Arc<str>, lp: LexPos)
    requires
        src.len() <= usize::MAX,
        lp.pos + 2 < src.len(),
        src[lp.pos as int] == 0x27,
    ensures
        ({
            let p = lp.pos as int;
            let st = lex_step(src, file, lp);
            &&& src[p + 1] != 0x5C && src[p + 2] == 0x27 ==> {
                &&& st.toks.len() == 1
                &&& st.toks[0].0 == Tok::Char(src[p + 1] as u16)
                &&& st.diags.len() == 0
                &&& st.next.pos == p + 3
            }
            &&& src[p + 1] == 0x5C && p + 3 < src.len() && src[p + 3] == 0x27 ==> {
                let e = src[p + 2];
                &&& st.toks.len() == 1
                &&& e == 0x6E ==> st.toks[0].0 == Tok::Char(10)
                &&& e == 0x74 ==> st.toks[0].0 == Tok::Char(9)
                &&& e == 0x72 ==> st.toks[0].0 == Tok::Char(13)
                &&& e == 0x5C ==> st.toks[0].0 == Tok::Char(92)
                &&& e == 0x27 ==> st.toks[0].0 == Tok::Char(39)
                &&& e == 0x30 ==> st.toks[0].0 == Tok::Char(0)
                &&& (st.diags.len() == 0 <==> (e == 0x6E || e == 0x74 || e == 0x72 || e == 0x5C || e == 0x27 || e == 0x30))
                &&& st.next.pos == p + 4
            }
        }),
{
}

/// The bytes of a character string of ASCII characters.
pub open spec fn bytes_of(t: Seq<char>) -> Seq<u8> {
    t.map_values(|c: char| c as u8)
}

/// The bytes of the decimal numeral of `n` are decimal digits whose value
/// is `n`, and only `0` itself starts with the digit `0`.
proof fn lemma_decimal_bytes(n: nat)
    ensures
        bytes_of(decimal(n)).len() == decimal(n).len() > 0,
        forall|i: int| 0 <= i < decimal(n).len() ==> is_digit(#[trigger] bytes_of(decimal(n))[i]),
        digits_value(bytes_of(decimal(n)), 10) == n,
        n >= 10 ==> bytes_of(decimal(n))[0] != 0x30,
    decreases n,
{
    let d = decimal(n);
    let b = bytes_of(d);
    assert(digit_char(n % 10) as u8 == 48 + n % 10);
    if n < 10 {
        assert(b.drop_last() =~= Seq::<u8>::empty());
        assert(b.last() == 48 + n);
        assert(digit_value(b.last()) == n);
        assert(digits_value(b, 10) == digits_value(b.drop_last(), 10) * 10 + digit_value(b.last()));
    } else {
        lemma_decimal_bytes(n / 10);
        let pb = bytes_of(decimal(n / 10));
        assert(d == decimal(n / 10).push(digit_char(n % 10)));
        assert(b.drop_last() =~= pb);
        assert(b.last() == 48 + n % 10);
        assert(digits_value(b, 10) == digits_value(pb, 10) * 10 + n % 10);
        assert((n / 10) * 10 + n % 10 == n);
        assert forall|i: int| 0 <= i < d.len() implies is_digit(#[trigger] b[i]) by {
            if i < pb.len() {
                assert(b[i] == pb[i]);
            }
        }
        assert(b[0] == pb[0]);
        if n / 10 < 10 {
            assert(n / 10 != 0);
            assert(pb[0] == 48 + n / 10);
        }
    }
}

/// A run of bytes satisfying `p` from `i` to `j`, stopped at `j` by the end
/// of the source or a byte that does not, ends exactly at `j`.
proof fn lemma_run_end_at(src: Seq<u8>, i: int, j: int, p: spec_fn(u8) -> bool)
    requires
        0 <= i <= j <= src.len(),
        forall|k: int| i <= k < j ==> p(#[trigger] src[k]),
        j == src.len() || !p(src[j]),
    ensures
        run_end(src, i, p) == j,
    decreases j - i,
{
    if i < j {
        lemma_run_end_at(src, i + 1, j, p);
    }
}

/// Decimal numbers: the decimal numeral of any `n <= i64::MAX`, standing
/// alone (not followed by an identifier byte), lexes to one `Number(n)`
/// token, with no error, and lexing goes on right after it; a `-` before
/// it gives `Number(-n)`.
pub proof fn lemma_decimal_numbers_lex(src: Seq<u8>, file: Arc<str>, lp: LexPos, n: nat, negative: bool)
    requires
        src.len() <= usize::MAX,
        n <= i64::MAX,
        ({
            let p = lp.pos as int;
            let q = if negative { p + 1 } else { p };
            let k = decimal(n).len() as int;
            &&& negative ==> p < src.len() && src[p] == 0x2D
            &&& q + k <= src.len()
            &&& src.subrange(q, q + k) == bytes_of(decimal(n))
            &&& q + k == src.len() || !is_ident_byte(src[q + k])
        }),
    ensures
        ({
            let p = lp.pos as int;
            let q = if negative { p + 1 } else { p };
            let st = lex_step(src, file, lp);
            &&& st.toks.len() == 1
            &&& st.toks[0].0 == Tok::Number(if negative { -(n as int) } else { n as int } as i64)
            &&& st.diags.len() == 0
            &&& st.next.pos == q + decimal(n).len()
        }),
{
    let p = lp.pos as int;
    let q = if negative { p + 1 } else { p };
    let k = decimal(n).len() as int;
    let b = bytes_of(decimal(n));
    lemma_decimal_bytes(n);
    assert forall|i: int| q <= i < q + k implies is_radix_digit(#[trigger] src[i], 10) by {
        assert(src[i] == src.subrange(q, q + k)[i - q]);
        assert(is_digit(b[i - q]));
    }
    assert(src[q] == b[0]);
    if q + k < src.len() {
        assert(!is_radix_digit(src[q + k], 10));
    }
    lemma_run_end_at(src, q, q + k, |c: u8| is_radix_digit(c, 10));
    if n < 10 {
        assert(k == 1);
    }
    if negative {
        assert(src[p] == 0x2D);
        assert(!(p + 1 < src.len() && src[p + 1] == 0x3E));
    }
}

/// Every lexing step moves forward and stays inside the source, and makes
/// no `Eof` token.
proof fn lemma_step_advances(src: Seq<u8>, file: Arc<str>, lp: LexPos)
    requires
        lp.pos < src.len() <= usize::MAX,
    ensures
        lp.pos < lex_step(src, file, lp).next.pos <= src.len(),
        forall|i: int|
            0 <= i < lex_step(src, file, lp).toks.len() ==> !((#[trigger] lex_step(src, file, lp).toks[i]).0 is Eof),
{
    let p = lp.pos as int;
    let c = src[p];
    lemma_run_end(src, p, |b: u8| b != 0x0A);
    lemma_run_end(src, p, |b: u8| is_ident_byte(b));
    lemma_run_end(src, p + 1, |b: u8| is_ident_byte(b));
    if is_digit(c) || c == 0x2D {
        let q = if is_digit(c) { p } else { p + 1 };
        if q + 2 <= src.len() {
            lemma_digits_end(src, q + 2, 16);
            lemma_digits_end(src, q + 2, 2);
        }
        lemma_digits_end(src, q, 10);
    }
}

/// End of input: lexing ends with exactly one `Eof` token, the last one.
pub proof fn lemma_lex_ends_with_eof(src: Seq<u8>, file: Arc<str>, lp: LexPos)
    requires
        src.len() <= usize::MAX,
    ensures
        lex_rest(src, file, lp).0.len() > 0,
        lex_rest(src, file, lp).0.last().0 is Eof,
        forall|i: int|
            0 <= i < lex_rest(src, file, lp).0.len() - 1 ==> !((#[trigger] lex_rest(src, file, lp).0[i]).0 is Eof),
    decreases src.len() - lp.pos,
{
    if lp.pos < src.len() {
        let s = lex_step(src, file, lp);
        lemma_step_advances(src, file, lp);
        lemma_lex_ends_with_eof(src, file, s.next);
        let r = lex_rest(src, file, s.next);
        assert(lex_rest(src, file, lp).0 == s.toks + r.0);
        assert((s.toks + r.0).last() == r.0.last());
        assert forall|i: int| 0 <= i < (s.toks + r.0).len() - 1 implies !((#[trigger] (s.toks + r.0)[i]).0 is Eof) by {
            if i >= s.toks.len() {
                assert((s.toks + r.0)[i] == r.0[i - s.toks.len()]);
            } else {
                assert((s.toks + r.0)[i] == s.toks[i]);
            }
        }
    }
}

/// Every identifier token of lexing has the shape of an identifier: a
/// letter or underscore, then letters, digits and underscores.
pub proof fn lemma_lex_idents_shaped(src: Seq<u8>, file: Arc<str>, lp: LexPos)
    ensures
        forall|i: int|
            0 <= i < lex_rest(src, file, lp).0.len() && (#[trigger] lex_rest(src, file, lp).0[i]).0 is Ident
                ==> ident_shaped(lex_rest(src, file, lp).0[i].0->Ident_0),
    decreases src.len() - lp.pos,
{
    if lp.pos < src.len() {
        let s = lex_step(src, file, lp);
        lemma_step_idents_shaped(src, file, lp);
        if lp.pos < s.next.pos <= src.len() {
            lemma_lex_idents_shaped(src, file, s.next);
            let r = lex_rest(src, file, s.next);
            assert(lex_rest(src, file, lp).0 == s.toks + r.0);
            assert forall|i: int|
                0 <= i < (s.toks + r.0).len() && (#[trigger] (s.toks + r.0)[i]).0 is Ident implies ident_shaped(
                (s.toks + r.0)[i].0->Ident_0) by {
                if i >= s.toks.len() {
                    assert((s.toks + r.0)[i] == r.0[i - s.toks.len()]);
                } else {
                    assert((s.toks + r.0)[i] == s.toks[i]);
                }
            }
        }
    }
}

/// Every token and every error of lexing points into the lexed file.
pub proof fn lemma_lex_in_file(src: Seq<u8>, file: Arc<str>, lp: LexPos)
    ensures
        all_in_file(lex_rest(src, file, lp).0, file),
        all_in_file(lex_rest(src, file, lp).1, file),
    decreases src.len() - lp.pos,
{
    if lp.pos < src.len() {
        let s = lex_step(src, file, lp);
        assert(all_in_file(s.toks, file) && all_in_file(s.diags, file));
        if lp.pos < s.next.pos <= src.len() {
            lemma_lex_in_file(src, file, s.next);
            let r = lex_rest(src, file, s.next);
            assert(lex_rest(src, file, lp).0 == s.toks + r.0);
            assert(lex_rest(src, file, lp).1 == s.diags + r.1);
            assert forall|i: int| 0 <= i < (s.toks + r.0).len() implies (#[trigger] (s.toks + r.0)[i]).1.file == file by {
                if i >= s.toks.len() {
                    assert((s.toks + r.0)[i] == r.0[i - s.toks.len()]);
                }
            }
            assert forall|i: int| 0 <= i < (s.diags + r.1).len() implies (#[trigger] (s.diags + r.1)[i]).1.file == file by {
                if i >= s.diags.len() {
                    assert((s.diags + r.1)[i] == r.1[i - s.diags.len()]);
                }
            }
        }
    }
}

} // verus!
