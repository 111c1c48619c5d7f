//! Recursive-descent parser for ToastTTA assembly.

use vstd::prelude::*;

use crate::diag::{Diagnostics, Severity, Span};
use crate::encoder::{error_at, errors_match};
use crate::lexer::{Tok, Token, TokenKind};
use crate::text::signed_decimal_string;

pub mod grammar;
pub mod names;

use grammar::{
    advanced, cycle_body_at, cycle_line_at, destination_at, ends_line, eof_ahead, equ_at,
    guard_at, immediate_at, kind_at, label_at, line_at, line_end_at, line_stop, lines_from,
    low16, more_slots_at, opt_seq, parse_spec, skip_line, slot_at, source_at, tok_span, Parsed,
};
use names::lower_is;

pub use names::{destination_from_name, source_from_name};

verus! {

#[derive(Clone, Debug, PartialEq, Eq)]
pub enum Line {
    Empty,
    Label { name: String, span: Span, attached: Option<CycleSpec> },
    Equ { name: String, value: u16, span: Span },
    Cycle(CycleSpec),
}

#[derive(Clone, Debug, PartialEq, Eq)]
pub struct CycleSpec {
    pub slots: Vec<SlotSpec>,
    pub span: Span,
}

#[derive(Clone, Debug, PartialEq, Eq)]
pub struct SlotSpec {
    pub guard: Guard,
    pub src: Source,
    pub dst: Destination,
    pub span: Span,
}

#[derive(Copy, Clone, Debug, PartialEq, Eq, Structural)]
pub enum Guard {
    Always,
    IfP0,
    IfNotP0,
}

#[derive(Clone, Debug, PartialEq, Eq)]
pub enum Source {
    Gpr(u8),  // 0..15
    BrfP0,
    AluR,
    AluP,
    LsuR,
    MulR,
    Imm(ImmExpr),
}

#[derive(Clone, Debug, PartialEq, Eq)]
pub enum ImmExpr {
    Literal(u16),
    Symbol(String),
}

#[derive(Copy, Clone, Debug, PartialEq, Eq, Structural)]
pub enum Destination {
    Gpr(u8),
    BrfP0,
    AluA,
    AluAddT,
    AluSubT,
    AluAndT,
    AluOrT,
    AluXorT,
    AluShlT,
    AluShrT,
    AluSshrT,
    AluEqT,
    AluNeT,
    AluLtT,
    AluLeT,
    AluGtT,
    AluGeT,
    LsuLdT,
    LsuStA,
    LsuStT,
    GcuJmpT,
    Discard,
    MulA,
    MulT,
}

// ─── The mathematical model of the syntax tree ──────────────────────────────

/// An immediate with symbol names as character sequences.
pub ghost enum ImmM {
    Literal(u16),
    Symbol(Seq<char>),
}

/// A source with symbol names as character sequences.
pub ghost enum SourceM {
    Gpr(u8),
    BrfP0,
    AluR,
    AluP,
    LsuR,
    MulR,
    Imm(ImmM),
}

pub ghost struct SlotM {
    pub guard: Guard,
    pub src: SourceM,
    pub dst: Destination,
    pub span: Span,
}

pub ghost struct CycleM {
    pub slots: Seq<SlotM>,
    pub span: Span,
}

pub ghost enum LineM {
    Empty,
    Label { name: Seq<char>, span: Span, attached: Option<CycleM> },
    Equ { name: Seq<char>, value: u16, span: Span },
    Cycle(CycleM),
}

impl View for ImmExpr {
    type V = ImmM;

    open spec fn view(&self) -> ImmM {
        match self {
            ImmExpr::Literal(v) => ImmM::Literal(*v),
            ImmExpr::Symbol(s) => ImmM::Symbol(s@),
        }
    }
}

impl View for Source {
    type V = SourceM;

    open spec fn view(&self) -> SourceM {
        match self {
            Source::Gpr(n) => SourceM::Gpr(*n),
            Source::BrfP0 => SourceM::BrfP0,
            Source::AluR => SourceM::AluR,
            Source::AluP => SourceM::AluP,
            Source::LsuR => SourceM::LsuR,
            Source::MulR => SourceM::MulR,
            Source::Imm(i) => SourceM::Imm(i@),
        }
    }
}

impl View for SlotSpec {
    type V = SlotM;

    open spec fn view(&self) -> SlotM {
        SlotM { guard: self.guard, src: self.src@, dst: self.dst, span: self.span }
    }
}

/// The models of a sequence of moves.
pub open spec fn slots_model(slots: Seq<SlotSpec>) -> Seq<SlotM> {
    slots.map_values(|s: SlotSpec| s@)
}

impl View for CycleSpec {
    type V = CycleM;

    open spec fn view(&self) -> CycleM {
        CycleM { slots: slots_model(self.slots@), span: self.span }
    }
}

impl View for Line {
    type V = LineM;

    open spec fn view(&self) -> LineM {
        match self {
            Line::Empty => LineM::Empty,
            Line::Label { name, span, attached } => LineM::Label {
                name: name@,
                span: *span,
                attached: match attached {
                    Some(c) => Some(c@),
                    None => None,
                },
            },
            Line::Equ { name, value, span } => LineM::Equ { name: name@, value: *value, span: *span },
            Line::Cycle(c) => LineM::Cycle(c@),
        }
    }
}

/// The models of a sequence of lines.
pub open spec fn lines_model(lines: Seq<Line>) -> Seq<LineM> {
    lines.map_values(|l: Line| l@)
}

// ─── The parser ─────────────────────────────────────────────────────────────

/// The model of a token sequence: each kind by its view, with its span.
pub open spec fn token_model(toks: Seq<Token>) -> Seq<(Tok, Span)> {
    toks.map_values(|t: Token| (t.kind@, t.span))
}

/// Tokens that match a sequence of kinds and spans have that sequence as
/// their model.
pub proof fn lemma_token_model(toks: Seq<Token>, expected: Seq<(Tok, Span)>)
    requires
        crate::lexer::tokens_match(toks, expected),
    ensures
        token_model(toks) == expected,
{
    assert(token_model(toks) =~= expected);
}

pub open spec fn source_opt(r: Option<Source>) -> Option<SourceM> {
    match r {
        Some(s) => Some(s@),
        None => None,
    }
}

pub open spec fn slot_opt(r: Option<SlotSpec>) -> Option<SlotM> {
    match r {
        Some(s) => Some(s@),
        None => None,
    }
}

pub open spec fn line_opt(r: Option<Line>) -> Option<LineM> {
    match r {
        Some(l) => Some(l@),
        None => None,
    }
}

/// Parse a token sequence into lines. Succeeds exactly when parsing raises
/// no error; otherwise returns all errors, in order. Parsing stops at the
/// first `Eof` token.
pub fn parse(tokens: Vec<Token>) -> (r: Result<Vec<Line>, Diagnostics>)
    requires
        eof_ahead(token_model(tokens@), 0),
    ensures
        match r {
            Ok(lines) => {
                &&& parse_spec(token_model(tokens@)).1.len() == 0
                &&& lines_model(lines@) == parse_spec(token_model(tokens@)).0
            },
            Err(d) => {
                &&& parse_spec(token_model(tokens@)).1.len() > 0
                &&& errors_match(d.items@, parse_spec(token_model(tokens@)).1)
            },
        },
{
    let mut p = Parser { tokens, pos: 0, lines: Vec::new(), diags: Diagnostics::new() };
    p.parse_program();
    if p.diags.has_errors() {
        Err(p.diags)
    } else {
        proof {
            if parse_spec(token_model(p.tokens@)).1.len() > 0 {
                assert(p.diags.items@[0].severity == Severity::Error);
            }
        }
        Ok(p.lines)
    }
}

proof fn lemma_step_before_eof(ts: Seq<(Tok, Span)>, p: int)
    requires
        0 <= p,
        eof_ahead(ts, p),
        !(kind_at(ts, p) is Eof),
    ensures
        p + 1 < ts.len(),
        advanced(ts, p) == p + 1,
        eof_ahead(ts, p + 1),
{
    let i = choose|i: int| p <= i < ts.len() && (#[trigger] ts[i]).0 is Eof;
    assert(i != p);
    assert(p + 1 <= i < ts.len() && ts[i].0 is Eof);
}

struct Parser {
    tokens: Vec<Token>,
    pos: usize,
    lines: Vec<Line>,
    diags: Diagnostics,
}

impl Parser {
    spec fn ts(&self) -> Seq<(Tok, Span)> {
        token_model(self.tokens@)
    }

    /// The position is a token, and an `Eof` lies at it or ahead.
    spec fn wf(&self) -> bool {
        &&& self.pos < self.tokens@.len()
        &&& eof_ahead(self.ts(), self.pos as int)
    }

    spec fn errs(&self, d: Seq<(Seq<char>, Span)>) -> bool {
        errors_match(self.diags.items@, d)
    }

    /// A rule ran from `before`: the same tokens and lines, not moved back.
    spec fn after(&self, before: Parser) -> bool {
        &&& self.wf()
        &&& self.tokens@ == before.tokens@
        &&& self.lines@ == before.lines@
        &&& self.pos >= before.pos
    }

    fn peek(&self) -> (k: &TokenKind)
        requires
            self.pos < self.tokens@.len(),
        ensures
            k@ == kind_at(self.ts(), self.pos as int),
    {
        &self.tokens[self.pos].kind
    }

    fn peek_span(&self) -> (s: Span)
        requires
            self.pos < self.tokens@.len(),
        ensures
            s == tok_span(self.ts(), self.pos as int),
    {
        self.tokens[self.pos].span.copy()
    }

    fn at_line_end(&self) -> (b: bool)
        requires
            self.pos < self.tokens@.len(),
        ensures
            b == ends_line(kind_at(self.ts(), self.pos as int)),
    {
        match self.peek() {
            TokenKind::Newline | TokenKind::Eof => true,
            _ => false,
        }
    }

    /// Move past the current token, which is not `Eof`.
    fn bump(&mut self)
        requires
            old(self).wf(),
            !(kind_at(old(self).ts(), old(self).pos as int) is Eof),
        ensures
            final(self).after(*old(self)),
            final(self).diags == old(self).diags,
            final(self).pos == old(self).pos + 1,
            final(self).pos == advanced(old(self).ts(), old(self).pos as int),
    {
        proof {
            lemma_step_before_eof(self.ts(), self.pos as int);
        }
        if self.pos < self.tokens.len() - 1 {
            self.pos += 1;
        }
    }

    fn error(&mut self, span: Span, msg: &str, Ghost(d): Ghost<Seq<(Seq<char>, Span)>>)
        requires
            old(self).wf(),
            old(self).errs(d),
        ensures
            final(self).after(*old(self)),
            final(self).pos == old(self).pos,
            final(self).errs(d.push((msg@, span))),
    {
        error_at(&mut self.diags, &span, msg, Ghost(d));
    }

    /// Skip to the end of the line, its newline included.
    fn skip_to_newline(&mut self)
        requires
            old(self).wf(),
        ensures
            final(self).after(*old(self)),
            final(self).diags == old(self).diags,
            final(self).pos == skip_line(old(self).ts(), old(self).pos as int),
            !ends_line(kind_at(old(self).ts(), old(self).pos as int)) ==> final(self).pos > old(self).pos,
    {
        let ghost start = self.pos as int;
        while !self.at_line_end()
            invariant
                self.after(*old(self)),
                self.diags == old(self).diags,
                start == old(self).pos,
                line_stop(self.ts(), self.pos as int) == line_stop(self.ts(), start),
            decreases self.tokens@.len() - self.pos,
        {
            proof {
                lemma_step_before_eof(self.ts(), self.pos as int);
            }
            self.bump();
        }
        let newline = match self.peek() {
            TokenKind::Newline => true,
            _ => false,
        };
        if newline {
            self.bump();
        }
    }

    /// The line must end here; otherwise report it and skip the line.
    fn expect_newline_or_eof(&mut self, Ghost(d): Ghost<Seq<(Seq<char>, Span)>>)
        requires
            old(self).wf(),
            old(self).errs(d),
        ensures
            final(self).after(*old(self)),
            final(self).pos == line_end_at(old(self).ts(), old(self).pos as int).0,
            final(self).errs(d + line_end_at(old(self).ts(), old(self).pos as int).1),
            !(kind_at(old(self).ts(), old(self).pos as int) is Eof) ==> final(self).pos > old(self).pos,
    {
        let ghost e = line_end_at(self.ts(), self.pos as int);
        let k: u8 = match self.peek() {
            TokenKind::Newline => 0,
            TokenKind::Eof => 1,
            _ => 2,
        };
        if k == 0 {
            self.bump();
            assert(d + e.1 =~= d);
        } else if k == 1 {
            assert(d + e.1 =~= d);
        } else {
            let span = self.peek_span();
            self.error(span, "expected newline", Ghost(d));
            self.skip_to_newline();
            assert(d.push(("expected newline"@, span)) =~= d + e.1);
        }
    }
}

fn low16_of(v: i64) -> (r: u16)
    ensures
        r == low16(v),
{
    (v & 0xFFFF) as u16
}

impl Parser {
    /// An optional guard `[p0]` or `[!p0]`.
    fn parse_guard(&mut self, Ghost(d): Ghost<Seq<(Seq<char>, Span)>>) -> (r: Option<Guard>)
        requires
            old(self).wf(),
            old(self).errs(d),
        ensures
            final(self).after(*old(self)),
            r == guard_at(old(self).ts(), old(self).pos as int).value,
            final(self).pos == guard_at(old(self).ts(), old(self).pos as int).pos,
            final(self).errs(d + guard_at(old(self).ts(), old(self).pos as int).diags),
    {
        reveal(guard_at);
        let ghost g = guard_at(self.ts(), self.pos as int);
        let open = match self.peek() {
            TokenKind::LBracket => true,
            _ => false,
        };
        if !open {
            assert(d + g.diags =~= d);
            return Some(Guard::Always);
        }
        self.bump();
        let inverted = match self.peek() {
            TokenKind::Bang => true,
            _ => false,
        };
        if inverted {
            self.bump();
        }
        let pname = match self.peek() {
            TokenKind::Ident(s) => Some(s.clone()),
            _ => None,
        };
        match pname {
            None => {
                let span = self.peek_span();
                self.error(span, "expected predicate name in guard", Ghost(d));
                assert(d.push(("expected predicate name in guard"@, span)) =~= d + g.diags);
                None
            },
            Some(pname) => {
                self.bump();
                if !lower_is(pname.as_str(), "p0") {
                    let mut msg = String::from_str("unknown predicate ");
                    msg.append(pname.as_str());
                    let span = self.peek_span();
                    self.error(span, msg.as_str(), Ghost(d));
                    assert(d.push((msg@, span)) =~= d + g.diags);
                    None
                } else {
                    let close = match self.peek() {
                        TokenKind::RBracket => true,
                        _ => false,
                    };
                    if close {
                        self.bump();
                        assert(d + g.diags =~= d);
                        Some(
                            if inverted {
                                Guard::IfNotP0
                            } else {
                                Guard::IfP0
                            },
                        )
                    } else {
                        let span = self.peek_span();
                        self.error(span, "expected ']'", Ghost(d));
                        assert(d.push(("expected ']'"@, span)) =~= d + g.diags);
                        None
                    }
                }
            },
        }
    }

    /// The immediate after `#`.
    fn parse_immediate(&mut self, Ghost(d): Ghost<Seq<(Seq<char>, Span)>>) -> (r: Option<Source>)
        requires
            old(self).wf(),
            old(self).errs(d),
        ensures
            final(self).after(*old(self)),
            source_opt(r) == immediate_at(old(self).ts(), old(self).pos as int).value,
            final(self).pos == immediate_at(old(self).ts(), old(self).pos as int).pos,
            final(self).errs(d + immediate_at(old(self).ts(), old(self).pos as int).diags),
    {
        reveal(immediate_at);
        let ghost im = immediate_at(self.ts(), self.pos as int);
        let number: Option<i64> = match self.peek() {
            TokenKind::Number(n) => Some(*n),
            _ => None,
        };
        if let Some(n) = number {
            if !(n >= -32768 && n <= 65535) {
                let mut msg = String::from_str("immediate ");
                let digits = signed_decimal_string(n);
                msg.append(digits.as_str());
                msg.append(" out of 16-bit range");
                let span = self.peek_span();
                self.error(span, msg.as_str(), Ghost(d));
                assert(d.push((msg@, span)) =~= d + im.diags);
            } else {
                assert(d + im.diags =~= d);
            }
            self.bump();
            return Some(Source::Imm(ImmExpr::Literal(low16_of(n))));
        }
        let ch: Option<u16> = match self.peek() {
            TokenKind::Char(c) => Some(*c),
            _ => None,
        };
        if let Some(c) = ch {
            self.bump();
            assert(d + im.diags =~= d);
            return Some(Source::Imm(ImmExpr::Literal(c)));
        }
        let sym = match self.peek() {
            TokenKind::Ident(s) => Some(s.clone()),
            _ => None,
        };
        match sym {
            Some(s) => {
                self.bump();
                assert(d + im.diags =~= d);
                Some(Source::Imm(ImmExpr::Symbol(s)))
            },
            None => {
                let span = self.peek_span();
                self.error(span, "expected literal or identifier after #", Ghost(d));
                assert(d.push(("expected literal or identifier after #"@, span)) =~= d + im.diags);
                None
            },
        }
    }

    /// A source: `#immediate` or a source name.
    fn parse_source(&mut self, Ghost(d): Ghost<Seq<(Seq<char>, Span)>>) -> (r: Option<Source>)
        requires
            old(self).wf(),
            old(self).errs(d),
        ensures
            final(self).after(*old(self)),
            source_opt(r) == source_at(old(self).ts(), old(self).pos as int).value,
            final(self).pos == source_at(old(self).ts(), old(self).pos as int).pos,
            final(self).errs(d + source_at(old(self).ts(), old(self).pos as int).diags),
    {
        reveal(source_at);
        let ghost sa = source_at(self.ts(), self.pos as int);
        let hash = match self.peek() {
            TokenKind::Hash => true,
            _ => false,
        };
        if hash {
            self.bump();
            return self.parse_immediate(Ghost(d));
        }
        let name = match self.peek() {
            TokenKind::Ident(s) => Some(s.clone()),
            _ => None,
        };
        match name {
            None => {
                let span = self.peek_span();
                self.error(span, "expected source identifier or #immediate", Ghost(d));
                assert(d.push(("expected source identifier or #immediate"@, span)) =~= d + sa.diags);
                None
            },
            Some(name) => {
                self.bump();
                match source_from_name(name.as_str()) {
                    Some(s) => {
                        assert(d + sa.diags =~= d);
                        Some(s)
                    },
                    None => {
                        let mut msg = String::from_str("unknown source ");
                        msg.append(name.as_str());
                        let span = self.peek_span();
                        self.error(span, msg.as_str(), Ghost(d));
                        assert(d.push((msg@, span)) =~= d + sa.diags);
                        None
                    },
                }
            },
        }
    }

    /// A destination name.
    fn parse_destination(&mut self, Ghost(d): Ghost<Seq<(Seq<char>, Span)>>) -> (r: Option<Destination>)
        requires
            old(self).wf(),
            old(self).errs(d),
        ensures
            final(self).after(*old(self)),
            r == destination_at(old(self).ts(), old(self).pos as int).value,
            final(self).pos == destination_at(old(self).ts(), old(self).pos as int).pos,
            final(self).errs(d + destination_at(old(self).ts(), old(self).pos as int).diags),
    {
        reveal(destination_at);
        let ghost da = destination_at(self.ts(), self.pos as int);
        let name = match self.peek() {
            TokenKind::Ident(s) => Some(s.clone()),
            _ => None,
        };
        match name {
            None => {
                let span = self.peek_span();
                self.error(span, "expected destination identifier", Ghost(d));
                assert(d.push(("expected destination identifier"@, span)) =~= d + da.diags);
                None
            },
            Some(name) => {
                self.bump();
                match destination_from_name(name.as_str()) {
                    Some(x) => {
                        assert(d + da.diags =~= d);
                        Some(x)
                    },
                    None => {
                        let mut msg = String::from_str("unknown destination ");
                        msg.append(name.as_str());
                        let span = self.peek_span();
                        self.error(span, msg.as_str(), Ghost(d));
                        assert(d.push((msg@, span)) =~= d + da.diags);
                        None
                    },
                }
            },
        }
    }

    /// One move: `[guard] source -> destination`.
    fn parse_slot(&mut self, Ghost(d): Ghost<Seq<(Seq<char>, Span)>>) -> (r: Option<SlotSpec>)
        requires
            old(self).wf(),
            old(self).errs(d),
        ensures
            final(self).after(*old(self)),
            slot_opt(r) == slot_at(old(self).ts(), old(self).pos as int).value,
            final(self).pos == slot_at(old(self).ts(), old(self).pos as int).pos,
            final(self).errs(d + slot_at(old(self).ts(), old(self).pos as int).diags),
    {
        reveal(slot_at);
        let ghost ts = self.ts();
        let ghost p = self.pos as int;
        let ghost sa = slot_at(ts, p);
        let ghost g = guard_at(ts, p);
        let start_span = self.peek_span();
        let guard = match self.parse_guard(Ghost(d)) {
            Some(x) => x,
            None => {
                return None;
            },
        };
        let ghost s = source_at(ts, self.pos as int);
        let src = match self.parse_source(Ghost(d + g.diags)) {
            Some(x) => x,
            None => {
                assert(d + g.diags + s.diags =~= d + sa.diags);
                return None;
            },
        };
        let arrow = match self.peek() {
            TokenKind::Arrow => true,
            _ => false,
        };
        if !arrow {
            let span = self.peek_span();
            self.error(span, "expected '->'", Ghost(d + g.diags + s.diags));
            assert((d + g.diags + s.diags).push(("expected '->'"@, span)) =~= d + sa.diags);
            return None;
        }
        self.bump();
        let ghost da = destination_at(ts, self.pos as int);
        let dst = self.parse_destination(Ghost(d + g.diags + s.diags));
        assert(d + g.diags + s.diags + da.diags =~= d + sa.diags);
        match dst {
            Some(dst) => Some(SlotSpec { guard, src, dst, span: start_span }),
            None => None,
        }
    }

    /// The moves of a cycle, separated by `;`.
    fn parse_slots(&mut self, Ghost(d): Ghost<Seq<(Seq<char>, Span)>>) -> (r: Vec<SlotSpec>)
        requires
            old(self).wf(),
            old(self).errs(d),
        ensures
            final(self).after(*old(self)),
            slots_model(r@) == cycle_body_at(old(self).ts(), old(self).pos as int).value,
            final(self).pos == cycle_body_at(old(self).ts(), old(self).pos as int).pos,
            final(self).errs(d + cycle_body_at(old(self).ts(), old(self).pos as int).diags),
    {
        reveal(cycle_body_at);
        let ghost ts = self.ts();
        let ghost total = cycle_body_at(ts, self.pos as int);
        let ghost first = slot_at(ts, self.pos as int);
        let mut slots: Vec<SlotSpec> = Vec::new();
        if let Some(s) = self.parse_slot(Ghost(d)) {
            slots.push(s);
        }
        let ghost mut acc = d + first.diags;
        assert(slots_model(slots@) =~= opt_seq(first.value));
        loop
            invariant_except_break
                self.after(*old(self)),
                self.ts() == ts,
                self.errs(acc),
                slots_model(slots@) + more_slots_at(ts, self.pos as int).value == total.value,
                acc + more_slots_at(ts, self.pos as int).diags == d + total.diags,
                more_slots_at(ts, self.pos as int).pos == total.pos,
            ensures
                self.after(*old(self)),
                self.errs(d + total.diags),
                slots_model(slots@) == total.value,
                self.pos == total.pos,
            decreases self.tokens@.len() - self.pos,
        {
            let ghost m = more_slots_at(ts, self.pos as int);
            let semi = match self.peek() {
                TokenKind::Semi => true,
                _ => false,
            };
            if !semi {
                assert(slots_model(slots@) + m.value =~= slots_model(slots@));
                assert(acc + m.diags =~= acc);
                break;
            }
            self.bump();
            if self.at_line_end() {
                assert(slots_model(slots@) + m.value =~= slots_model(slots@));
                assert(acc + m.diags =~= acc);
                break;
            }
            let ghost r = slot_at(ts, self.pos as int);
            let s = self.parse_slot(Ghost(acc));
            proof {
                let rest = more_slots_at(ts, self.pos as int);
                assert(m == Parsed { value: opt_seq(r.value) + rest.value, pos: rest.pos, diags: r.diags + rest.diags });
            }
            let ghost before = slots_model(slots@);
            if let Some(s) = s {
                slots.push(s);
            }
            proof {
                let rest = more_slots_at(ts, self.pos as int);
                assert(slots_model(slots@) =~= before + opt_seq(r.value));
                assert(slots_model(slots@) + rest.value =~= before + m.value);
                assert(acc + r.diags + rest.diags =~= acc + m.diags);
                acc = acc + r.diags;
            }
        }
        slots
    }
}

impl Parser {
    /// A cycle line; `None` when all its moves failed.
    fn parse_cycle_line(&mut self, Ghost(d): Ghost<Seq<(Seq<char>, Span)>>) -> (r: Option<Line>)
        requires
            old(self).wf(),
            old(self).errs(d),
        ensures
            final(self).after(*old(self)),
            line_opt(r) == cycle_line_at(old(self).ts(), old(self).pos as int).value,
            final(self).pos == cycle_line_at(old(self).ts(), old(self).pos as int).pos,
            final(self).errs(d + cycle_line_at(old(self).ts(), old(self).pos as int).diags),
            !(kind_at(old(self).ts(), old(self).pos as int) is Eof) ==> final(self).pos > old(self).pos,
    {
        reveal(cycle_line_at);
        let ghost ts = self.ts();
        let ghost p = self.pos as int;
        let ghost b = cycle_body_at(ts, p);
        let start = self.peek_span();
        let slots = self.parse_slots(Ghost(d));
        let ghost e = line_end_at(ts, self.pos as int);
        self.expect_newline_or_eof(Ghost(d + b.diags));
        assert(d + b.diags + e.1 =~= d + cycle_line_at(ts, p).diags);
        if slots.len() > 0 {
            Some(Line::Cycle(CycleSpec { slots, span: start }))
        } else {
            None
        }
    }

    /// A label `name:` at the current position, with its cycle if any.
    fn parse_label(&mut self, name: String, Ghost(d): Ghost<Seq<(Seq<char>, Span)>>) -> (r: Line)
        requires
            old(self).wf(),
            old(self).errs(d),
            kind_at(old(self).ts(), old(self).pos as int) == Tok::Ident(name@),
            old(self).pos + 1 < old(self).tokens@.len(),
            kind_at(old(self).ts(), old(self).pos + 1) is Colon,
        ensures
            final(self).after(*old(self)),
            Some(r@) == label_at(old(self).ts(), old(self).pos as int, name@).value,
            final(self).pos == label_at(old(self).ts(), old(self).pos as int, name@).pos,
            final(self).errs(d + label_at(old(self).ts(), old(self).pos as int, name@).diags),
            final(self).pos > old(self).pos,
    {
        reveal(label_at);
        let ghost ts = self.ts();
        let ghost p = self.pos as int;
        let ghost la = label_at(ts, p, name@);
        let span = self.peek_span();
        self.bump();
        self.bump();
        if self.at_line_end() {
            self.expect_newline_or_eof(Ghost(d));
            Line::Label { name, span, attached: None }
        } else {
            let ghost b = cycle_body_at(ts, self.pos as int);
            let start = self.peek_span();
            let slots = self.parse_slots(Ghost(d));
            let ghost e = line_end_at(ts, self.pos as int);
            self.expect_newline_or_eof(Ghost(d + b.diags));
            assert(d + b.diags + e.1 =~= d + la.diags);
            Line::Label { name, span, attached: Some(CycleSpec { slots, span: start }) }
        }
    }

    /// `.equ NAME value`.
    fn parse_equ(&mut self, Ghost(d): Ghost<Seq<(Seq<char>, Span)>>) -> (r: Option<Line>)
        requires
            old(self).wf(),
            old(self).errs(d),
            kind_at(old(self).ts(), old(self).pos as int) is KwEqu,
        ensures
            final(self).after(*old(self)),
            line_opt(r) == equ_at(old(self).ts(), old(self).pos as int).value,
            final(self).pos == equ_at(old(self).ts(), old(self).pos as int).pos,
            final(self).errs(d + equ_at(old(self).ts(), old(self).pos as int).diags),
            final(self).pos > old(self).pos,
    {
        reveal(equ_at);
        let ghost ts = self.ts();
        let ghost p = self.pos as int;
        let ghost ea = equ_at(ts, p);
        let kw_span = self.peek_span();
        self.bump();
        let name = match self.peek() {
            TokenKind::Ident(s) => Some(s.clone()),
            _ => None,
        };
        let name = match name {
            Some(n) => n,
            None => {
                let span = self.peek_span();
                self.error(span, "expected identifier after .equ", Ghost(d));
                self.skip_to_newline();
                assert(d.push(("expected identifier after .equ"@, span)) =~= d + ea.diags);
                return None;
            },
        };
        self.bump();
        let value: Option<i64> = match self.peek() {
            TokenKind::Number(n) => Some(*n),
            TokenKind::Char(c) => Some(*c as i64),
            _ => None,
        };
        let value = match value {
            Some(v) => v,
            None => {
                let span = self.peek_span();
                self.error(span, "expected literal value after .equ name", Ghost(d));
                self.skip_to_newline();
                assert(d.push(("expected literal value after .equ name"@, span)) =~= d + ea.diags);
                return None;
            },
        };
        self.bump();
        let ghost mut d1: Seq<(Seq<char>, Span)> = Seq::empty();
        if !(value >= -32768 && value <= 65535) {
            let mut msg = String::from_str(".equ value ");
            let digits = signed_decimal_string(value);
            msg.append(digits.as_str());
            msg.append(" out of 16-bit range");
            let span = self.peek_span();
            self.error(span, msg.as_str(), Ghost(d));
            proof {
                d1 = seq![(msg@, span)];
                assert(d.push((msg@, span)) =~= d + d1);
            }
        } else {
            assert(d + d1 =~= d);
        }
        let ghost e = line_end_at(ts, self.pos as int);
        self.expect_newline_or_eof(Ghost(d + d1));
        assert(d + d1 + e.1 =~= d + ea.diags);
        Some(Line::Equ { name, value: low16_of(value), span: kw_span })
    }

    /// One line at the current position, which is not `Eof`.
    fn parse_line(&mut self, Ghost(d): Ghost<Seq<(Seq<char>, Span)>>) -> (r: Option<Line>)
        requires
            old(self).wf(),
            old(self).errs(d),
            !(kind_at(old(self).ts(), old(self).pos as int) is Eof),
        ensures
            final(self).after(*old(self)),
            line_opt(r) == line_at(old(self).ts(), old(self).pos as int).value,
            final(self).pos == line_at(old(self).ts(), old(self).pos as int).pos,
            final(self).errs(d + line_at(old(self).ts(), old(self).pos as int).diags),
            final(self).pos > old(self).pos,
    {
        reveal(line_at);
        let ghost l = line_at(self.ts(), self.pos as int);
        let k: u8 = match self.peek() {
            TokenKind::Newline => 0,
            TokenKind::KwEqu => 1,
            TokenKind::Ident(_) => 2,
            _ => 3,
        };
        let labelled = k == 2 && self.pos < self.tokens.len() - 1 && match self.tokens[self.pos + 1].kind {
            TokenKind::Colon => true,
            _ => false,
        };
        if k == 0 {
            self.bump();
            assert(d + l.diags =~= d);
            Some(Line::Empty)
        } else if k == 1 {
            self.parse_equ(Ghost(d))
        } else if labelled {
            let name = match self.peek() {
                TokenKind::Ident(s) => s.clone(),
                _ => String::new(),
            };
            Some(self.parse_label(name, Ghost(d)))
        } else {
            self.parse_cycle_line(Ghost(d))
        }
    }

    /// Parse lines up to the first `Eof`.
    fn parse_program(&mut self)
        requires
            old(self).wf(),
            old(self).errs(Seq::empty()),
            old(self).lines@ == Seq::<Line>::empty(),
        ensures
            lines_model(final(self).lines@) == lines_from(old(self).ts(), old(self).pos as int).0,
            final(self).errs(lines_from(old(self).ts(), old(self).pos as int).1),
            final(self).tokens@ == old(self).tokens@,
    {
        let ghost ts = self.ts();
        let ghost total = lines_from(ts, self.pos as int);
        let ghost mut acc: Seq<(Seq<char>, Span)> = Seq::empty();
        assert(lines_model(self.lines@) =~= Seq::<LineM>::empty());
        assert(total.0 =~= Seq::<LineM>::empty() + total.0);
        assert(total.1 =~= acc + total.1);
        loop
            invariant_except_break
                self.wf(),
                self.ts() == ts,
                self.tokens@ == old(self).tokens@,
                self.errs(acc),
                lines_model(self.lines@) + lines_from(ts, self.pos as int).0 == total.0,
                acc + lines_from(ts, self.pos as int).1 == total.1,
            ensures
                self.tokens@ == old(self).tokens@,
                lines_model(self.lines@) == total.0,
                self.errs(total.1),
            decreases self.tokens@.len() - self.pos,
        {
            let ghost p = self.pos as int;
            let ghost l = line_at(ts, p);
            let ghost before = lines_model(self.lines@);
            let at_eof = match self.peek() {
                TokenKind::Eof => true,
                _ => false,
            };
            if at_eof {
                assert(lines_model(self.lines@) + lines_from(ts, p).0 =~= lines_model(self.lines@));
                assert(acc + lines_from(ts, p).1 =~= acc);
                break;
            }
            let line = self.parse_line(Ghost(acc));
            if let Some(line) = line {
                self.lines.push(line);
            }
            assert(lines_model(self.lines@) =~= before + opt_seq(l.value));
            proof {
                lemma_lines_step(ts, p, before, lines_model(self.lines@), acc, self.pos as int);
                acc = acc + l.diags;
            }
        }
    }
}

/// Accounting for one parsed line: what is left to parse from the next
/// position completes what was parsed so far.
proof fn lemma_lines_step(
    ts: Seq<(Tok, Span)>,
    p: int,
    before: Seq<LineM>,
    after: Seq<LineM>,
    acc: Seq<(Seq<char>, Span)>,
    q: int,
)
    requires
        0 <= p < q < ts.len(),
        !(kind_at(ts, p) is Eof),
        q == line_at(ts, p).pos,
        after == before + opt_seq(line_at(ts, p).value),
    ensures
        after + lines_from(ts, q).0 == before + lines_from(ts, p).0,
        acc + line_at(ts, p).diags + lines_from(ts, q).1 == acc + lines_from(ts, p).1,
{
    let l = line_at(ts, p);
    let rest = lines_from(ts, q);
    assert(lines_from(ts, p) == (opt_seq(l.value) + rest.0, l.diags + rest.1));
    assert(after + rest.0 =~= before + lines_from(ts, p).0);
    assert(acc + l.diags + rest.1 =~= acc + lines_from(ts, p).1);
}

} // verus!
