//! What the parser makes of a token sequence, stated over the model of the
//! syntax tree.
//!
//! Tokens are `(kind, span)` pairs, an `Eof` among them. Each rule reads
//! from a position and gives what it parsed (`None` on failure), the
//! position after it and the errors it raised, in order. A failed line is
//! skipped up to and including its newline, and parsing goes on.

use std::sync::Arc;

use vstd::prelude::*;

use crate::diag::{all_in_file, lemma_all_in_file_concat, Span};
use crate::lexer::Tok;
use crate::text::signed_decimal;

use super::names::{ascii_lower, destination_named, source_named};
use super::{CycleM, Guard, ImmM, LineM, SlotM, SourceM};

verus! {

/// What a rule parsed, where it stopped and the errors it raised.
pub ghost struct Parsed<T> {
    pub value: T,
    pub pos: int,
    pub diags: Seq<(Seq<char>, Span)>,
}

/// Some token at `p` or after it is `Eof`: parsing from `p` ends there.
pub open spec fn eof_ahead(ts: Seq<(Tok, Span)>, p: int) -> bool {
    exists|i: int| p <= i < ts.len() && (#[trigger] ts[i]).0 is Eof
}

pub open spec fn kind_at(ts: Seq<(Tok, Span)>, p: int) -> Tok {
    ts[p].0
}

pub open spec fn tok_span(ts: Seq<(Tok, Span)>, p: int) -> Span {
    ts[p].1
}

/// The position after the token at `p`; the last token is never left.
pub open spec fn advanced(ts: Seq<(Tok, Span)>, p: int) -> int {
    if p + 1 < ts.len() {
        p + 1
    } else {
        p
    }
}

pub open spec fn ends_line(t: Tok) -> bool {
    t is Newline || t is Eof
}

/// The first position from `p` on holding a newline or `Eof`.
pub open spec fn line_stop(ts: Seq<(Tok, Span)>, p: int) -> int
    decreases ts.len() - p,
{
    if 0 <= p && p + 1 < ts.len() && !ends_line(kind_at(ts, p)) {
        line_stop(ts, p + 1)
    } else {
        p
    }
}

/// Skip the rest of the line, its newline included.
pub open spec fn skip_line(ts: Seq<(Tok, Span)>, p: int) -> int {
    let q = line_stop(ts, p);
    if kind_at(ts, q) is Newline {
        advanced(ts, q)
    } else {
        q
    }
}

/// A line must end here: a newline is consumed, `Eof` is left, anything
/// else is an error and the rest of the line is skipped.
pub open spec fn line_end_at(ts: Seq<(Tok, Span)>, p: int) -> (int, Seq<(Seq<char>, Span)>) {
    match kind_at(ts, p) {
        Tok::Newline => (advanced(ts, p), Seq::empty()),
        Tok::Eof => (p, Seq::empty()),
        _ => (skip_line(ts, p), seq![("expected newline"@, tok_span(ts, p))]),
    }
}

/// A failed rule: nothing parsed, one error.
pub open spec fn failed<T>(pos: int, msg: Seq<char>, span: Span) -> Parsed<Option<T>> {
    Parsed { value: None, pos, diags: seq![(msg, span)] }
}

/// A rule that parsed `v` up to `pos` without error.
pub open spec fn parsed<T>(v: T, pos: int) -> Parsed<Option<T>> {
    Parsed { value: Some(v), pos, diags: Seq::empty() }
}

/// An optional guard: `[p0]` or `[!p0]`, the predicate name in any case.
#[verifier::opaque]
pub open spec fn guard_at(ts: Seq<(Tok, Span)>, p: int) -> Parsed<Option<Guard>> {
    if !(kind_at(ts, p) is LBracket) {
        parsed(Guard::Always, p)
    } else {
        let p1 = advanced(ts, p);
        let inverted = kind_at(ts, p1) is Bang;
        let p2 = if inverted {
            advanced(ts, p1)
        } else {
            p1
        };
        match kind_at(ts, p2) {
            Tok::Ident(name) => {
                let p3 = advanced(ts, p2);
                if ascii_lower(name) != "p0"@ {
                    failed(p3, "unknown predicate "@ + name, tok_span(ts, p3))
                } else if kind_at(ts, p3) is RBracket {
                    parsed(
                        if inverted {
                            Guard::IfNotP0
                        } else {
                            Guard::IfP0
                        },
                        advanced(ts, p3),
                    )
                } else {
                    failed(p3, "expected ']'"@, tok_span(ts, p3))
                }
            },
            _ => failed(p2, "expected predicate name in guard"@, tok_span(ts, p2)),
        }
    }
}

/// A value fits in 16 bits, signed or unsigned.
pub open spec fn fits_16(v: int) -> bool {
    -32768 <= v <= 65535
}

/// The low 16 bits of `v` in two's complement.
pub open spec fn low16(v: i64) -> u16 {
    (v & 0xFFFF) as u16
}

/// The immediate after `#`: a number (kept modulo 2^16; out of the 16-bit
/// range is an error), a character or a symbol.
#[verifier::opaque]
pub open spec fn immediate_at(ts: Seq<(Tok, Span)>, p: int) -> Parsed<Option<SourceM>> {
    match kind_at(ts, p) {
        Tok::Number(n) => Parsed {
            value: Some(SourceM::Imm(ImmM::Literal(low16(n)))),
            pos: advanced(ts, p),
            diags: if fits_16(n as int) {
                Seq::empty()
            } else {
                seq![
                    ("immediate "@ + signed_decimal(n as int) + " out of 16-bit range"@, tok_span(ts, p)),
                ]
            },
        },
        Tok::Char(c) => parsed(SourceM::Imm(ImmM::Literal(c)), advanced(ts, p)),
        Tok::Ident(name) => parsed(SourceM::Imm(ImmM::Symbol(name)), advanced(ts, p)),
        _ => failed(p, "expected literal or identifier after #"@, tok_span(ts, p)),
    }
}

/// A source: `#immediate` or a source name.
#[verifier::opaque]
pub open spec fn source_at(ts: Seq<(Tok, Span)>, p: int) -> Parsed<Option<SourceM>> {
    match kind_at(ts, p) {
        Tok::Hash => immediate_at(ts, advanced(ts, p)),
        Tok::Ident(name) => {
            let p1 = advanced(ts, p);
            match source_named(name) {
                Some(s) => parsed(s, p1),
                None => failed(p1, "unknown source "@ + name, tok_span(ts, p1)),
            }
        },
        _ => failed(p, "expected source identifier or #immediate"@, tok_span(ts, p)),
    }
}

/// A destination name.
#[verifier::opaque]
pub open spec fn destination_at(ts: Seq<(Tok, Span)>, p: int) -> Parsed<Option<super::Destination>> {
    match kind_at(ts, p) {
        Tok::Ident(name) => {
            let p1 = advanced(ts, p);
            match destination_named(name) {
                Some(d) => parsed(d, p1),
                None => failed(p1, "unknown destination "@ + name, tok_span(ts, p1)),
            }
        },
        _ => failed(p, "expected destination identifier"@, tok_span(ts, p)),
    }
}

/// One move: `[guard] source -> destination`, spanning from its first token.
#[verifier::opaque]
pub open spec fn slot_at(ts: Seq<(Tok, Span)>, p: int) -> Parsed<Option<SlotM>> {
    let start = tok_span(ts, p);
    let g = guard_at(ts, p);
    match g.value {
        None => Parsed { value: None, pos: g.pos, diags: g.diags },
        Some(guard) => {
            let s = source_at(ts, g.pos);
            let d0 = g.diags + s.diags;
            match s.value {
                None => Parsed { value: None, pos: s.pos, diags: d0 },
                Some(src) => if kind_at(ts, s.pos) is Arrow {
                    let d = destination_at(ts, advanced(ts, s.pos));
                    Parsed {
                        value: match d.value {
                            Some(dst) => Some(SlotM { guard, src, dst, span: start }),
                            None => None,
                        },
                        pos: d.pos,
                        diags: d0 + d.diags,
                    }
                } else {
                    Parsed {
                        value: None,
                        pos: s.pos,
                        diags: d0.push(("expected '->'"@, tok_span(ts, s.pos))),
                    }
                },
            }
        },
    }
}

/// The items of an optional value.
pub open spec fn opt_seq<T>(o: Option<T>) -> Seq<T> {
    match o {
        Some(x) => seq![x],
        None => Seq::empty(),
    }
}

/// The moves after the first one of a cycle: each follows a `;`, and a `;`
/// at the end of the line ends the cycle. Failed moves are left out.
pub open spec fn more_slots_at(ts: Seq<(Tok, Span)>, p: int) -> Parsed<Seq<SlotM>>
    decreases ts.len() - p,
{
    if 0 <= p && p + 1 < ts.len() && kind_at(ts, p) is Semi {
        let q = p + 1;
        if ends_line(kind_at(ts, q)) {
            Parsed { value: Seq::empty(), pos: q, diags: Seq::empty() }
        } else {
            let r = slot_at(ts, q);
            if q <= r.pos < ts.len() {
                let rest = more_slots_at(ts, r.pos);
                Parsed { value: opt_seq(r.value) + rest.value, pos: rest.pos, diags: r.diags + rest.diags }
            } else {
                Parsed { value: opt_seq(r.value), pos: r.pos, diags: r.diags }
            }
        }
    } else {
        Parsed { value: Seq::empty(), pos: p, diags: Seq::empty() }
    }
}

/// The moves of a cycle, separated by `;`.
#[verifier::opaque]
pub open spec fn cycle_body_at(ts: Seq<(Tok, Span)>, p: int) -> Parsed<Seq<SlotM>> {
    let r = slot_at(ts, p);
    let rest = more_slots_at(ts, r.pos);
    Parsed { value: opt_seq(r.value) + rest.value, pos: rest.pos, diags: r.diags + rest.diags }
}

/// A cycle line; one whose moves all failed gives no line.
#[verifier::opaque]
pub open spec fn cycle_line_at(ts: Seq<(Tok, Span)>, p: int) -> Parsed<Option<LineM>> {
    let b = cycle_body_at(ts, p);
    let e = line_end_at(ts, b.pos);
    Parsed {
        value: if b.value.len() > 0 {
            Some(LineM::Cycle(CycleM { slots: b.value, span: tok_span(ts, p) }))
        } else {
            None
        },
        pos: e.0,
        diags: b.diags + e.1,
    }
}

/// A label `name:` at `p`, alone on its line or followed by a cycle.
#[verifier::opaque]
pub open spec fn label_at(ts: Seq<(Tok, Span)>, p: int, name: Seq<char>) -> Parsed<Option<LineM>> {
    let p1 = advanced(ts, advanced(ts, p));
    if ends_line(kind_at(ts, p1)) {
        let e = line_end_at(ts, p1);
        Parsed {
            value: Some(LineM::Label { name, span: tok_span(ts, p), attached: None }),
            pos: e.0,
            diags: e.1,
        }
    } else {
        let b = cycle_body_at(ts, p1);
        let e = line_end_at(ts, b.pos);
        Parsed {
            value: Some(
                LineM::Label {
                    name,
                    span: tok_span(ts, p),
                    attached: Some(CycleM { slots: b.value, span: tok_span(ts, p1) }),
                },
            ),
            pos: e.0,
            diags: b.diags + e.1,
        }
    }
}

/// `.equ NAME value` with a number or character value. A value outside
/// the 16-bit range is an error and is kept modulo 2^16.
#[verifier::opaque]
pub open spec fn equ_at(ts: Seq<(Tok, Span)>, p: int) -> Parsed<Option<LineM>> {
    let p1 = advanced(ts, p);
    match kind_at(ts, p1) {
        Tok::Ident(name) => {
            let p2 = advanced(ts, p1);
            let v: Option<i64> = match kind_at(ts, p2) {
                Tok::Number(n) => Some(n),
                Tok::Char(c) => Some(c as i64),
                _ => None,
            };
            match v {
                Some(value) => {
                    let p3 = advanced(ts, p2);
                    let d1 = if fits_16(value as int) {
                        Seq::empty()
                    } else {
                        seq![
                            (".equ value "@ + signed_decimal(value as int) + " out of 16-bit range"@, tok_span(ts, p3)),
                        ]
                    };
                    let e = line_end_at(ts, p3);
                    Parsed {
                        value: Some(LineM::Equ { name, value: low16(value), span: tok_span(ts, p) }),
                        pos: e.0,
                        diags: d1 + e.1,
                    }
                },
                None => Parsed {
                    value: None,
                    pos: skip_line(ts, p2),
                    diags: seq![("expected literal value after .equ name"@, tok_span(ts, p2))],
                },
            }
        },
        _ => Parsed {
            value: None,
            pos: skip_line(ts, p1),
            diags: seq![("expected identifier after .equ"@, tok_span(ts, p1))],
        },
    }
}

/// One line at `p`: empty, `.equ`, a label, or a cycle.
#[verifier::opaque]
pub open spec fn line_at(ts: Seq<(Tok, Span)>, p: int) -> Parsed<Option<LineM>> {
    match kind_at(ts, p) {
        Tok::Newline => parsed(LineM::Empty, advanced(ts, p)),
        Tok::KwEqu => equ_at(ts, p),
        Tok::Ident(name) => if p + 1 < ts.len() && kind_at(ts, p + 1) is Colon {
            label_at(ts, p, name)
        } else {
            cycle_line_at(ts, p)
        },
        _ => cycle_line_at(ts, p),
    }
}

/// The lines from `p` up to `Eof`, and the errors raised on the way.
pub open spec fn lines_from(ts: Seq<(Tok, Span)>, p: int) -> (Seq<LineM>, Seq<(Seq<char>, Span)>)
    decreases ts.len() - p,
{
    if 0 <= p < ts.len() && !(kind_at(ts, p) is Eof) {
        let l = line_at(ts, p);
        if p < l.pos < ts.len() {
            let rest = lines_from(ts, l.pos);
            (opt_seq(l.value) + rest.0, l.diags + rest.1)
        } else {
            (opt_seq(l.value), l.diags)
        }
    } else {
        (Seq::empty(), Seq::empty())
    }
}

/// The lines and errors of parsing a whole token sequence.
pub open spec fn parse_spec(ts: Seq<(Tok, Span)>) -> (Seq<LineM>, Seq<(Seq<char>, Span)>) {
    lines_from(ts, 0)
}

// ─── Lines are parsed one at a time ─────────────────────────────────────────

/// `q` is a token of the same line as `p`, at or after it.
pub open spec fn same_line(ts: Seq<(Tok, Span)>, p: int, q: int) -> bool {
    &&& p <= q < ts.len()
    &&& line_stop(ts, q) == line_stop(ts, p)
    &&& eof_ahead(ts, q)
}

/// Moving past a token that does not end the line stays on the line.
proof fn lemma_step_in_line(ts: Seq<(Tok, Span)>, p: int)
    requires
        0 <= p < ts.len(),
        eof_ahead(ts, p),
        !ends_line(kind_at(ts, p)),
    ensures
        advanced(ts, p) == p + 1,
        same_line(ts, p, p + 1),
{
    let i = choose|i: int| p <= i < ts.len() && (#[trigger] ts[i]).0 is Eof;
    assert(i != p);
    assert(p + 1 <= i < ts.len() && ts[i].0 is Eof);
}

/// Wherever a line ends from a token of it, the next line begins at the
/// same place.
proof fn lemma_line_end_in_line(ts: Seq<(Tok, Span)>, p: int, q: int)
    requires
        0 <= p,
        same_line(ts, p, q),
    ensures
        line_end_at(ts, q).0 == skip_line(ts, p),
{
}

proof fn lemma_guard_in_line(ts: Seq<(Tok, Span)>, p: int)
    requires
        0 <= p < ts.len(),
        eof_ahead(ts, p),
    ensures
        same_line(ts, p, guard_at(ts, p).pos),
{
    reveal(guard_at);
    if kind_at(ts, p) is LBracket {
        lemma_step_in_line(ts, p);
        let p1 = p + 1;
        if kind_at(ts, p1) is Bang {
            lemma_step_in_line(ts, p1);
        }
        let p2 = if kind_at(ts, p1) is Bang {
            p1 + 1
        } else {
            p1
        };
        if kind_at(ts, p2) is Ident {
            lemma_step_in_line(ts, p2);
            let p3 = p2 + 1;
            if kind_at(ts, p3) is RBracket {
                lemma_step_in_line(ts, p3);
            }
        }
    }
}

proof fn lemma_immediate_in_line(ts: Seq<(Tok, Span)>, p: int)
    requires
        0 <= p < ts.len(),
        eof_ahead(ts, p),
    ensures
        same_line(ts, p, immediate_at(ts, p).pos),
{
    reveal(immediate_at);
    if kind_at(ts, p) is Number || kind_at(ts, p) is Char || kind_at(ts, p) is Ident {
        lemma_step_in_line(ts, p);
    }
}

proof fn lemma_source_in_line(ts: Seq<(Tok, Span)>, p: int)
    requires
        0 <= p < ts.len(),
        eof_ahead(ts, p),
    ensures
        same_line(ts, p, source_at(ts, p).pos),
{
    reveal(source_at);
    if kind_at(ts, p) is Hash {
        lemma_step_in_line(ts, p);
        lemma_immediate_in_line(ts, p + 1);
    } else if kind_at(ts, p) is Ident {
        lemma_step_in_line(ts, p);
    }
}

proof fn lemma_destination_in_line(ts: Seq<(Tok, Span)>, p: int)
    requires
        0 <= p < ts.len(),
        eof_ahead(ts, p),
    ensures
        same_line(ts, p, destination_at(ts, p).pos),
{
    reveal(destination_at);
    if kind_at(ts, p) is Ident {
        lemma_step_in_line(ts, p);
    }
}

proof fn lemma_slot_in_line(ts: Seq<(Tok, Span)>, p: int)
    requires
        0 <= p < ts.len(),
        eof_ahead(ts, p),
    ensures
        same_line(ts, p, slot_at(ts, p).pos),
{
    reveal(slot_at);
    lemma_guard_in_line(ts, p);
    let g = guard_at(ts, p);
    if g.value is Some {
        lemma_source_in_line(ts, g.pos);
        let s = source_at(ts, g.pos);
        if s.value is Some && kind_at(ts, s.pos) is Arrow {
            lemma_step_in_line(ts, s.pos);
            lemma_destination_in_line(ts, s.pos + 1);
        }
    }
}

proof fn lemma_more_slots_in_line(ts: Seq<(Tok, Span)>, p: int)
    requires
        0 <= p < ts.len(),
        eof_ahead(ts, p),
    ensures
        same_line(ts, p, more_slots_at(ts, p).pos),
    decreases ts.len() - p,
{
    if p + 1 < ts.len() && kind_at(ts, p) is Semi {
        lemma_step_in_line(ts, p);
        let q = p + 1;
        if !ends_line(kind_at(ts, q)) {
            lemma_slot_in_line(ts, q);
            let r = slot_at(ts, q);
            lemma_more_slots_in_line(ts, r.pos);
        }
    }
}

proof fn lemma_cycle_body_in_line(ts: Seq<(Tok, Span)>, p: int)
    requires
        0 <= p < ts.len(),
        eof_ahead(ts, p),
    ensures
        same_line(ts, p, cycle_body_at(ts, p).pos),
{
    reveal(cycle_body_at);
    lemma_slot_in_line(ts, p);
    lemma_more_slots_in_line(ts, slot_at(ts, p).pos);
}

/// Each line is parsed on its own: whether it parses or fails, parsing
/// goes on exactly at the start of the next line (after the line's
/// newline), or stops at `Eof`.
pub proof fn lemma_line_ends_at_next_line(ts: Seq<(Tok, Span)>, p: int)
    requires
        0 <= p < ts.len(),
        eof_ahead(ts, p),
    ensures
        line_at(ts, p).pos == skip_line(ts, p),
{
    reveal(line_at);
    reveal(cycle_line_at);
    reveal(label_at);
    reveal(equ_at);
    match kind_at(ts, p) {
        Tok::Newline => {},
        Tok::Eof => {
            lemma_cycle_body_in_line(ts, p);
            lemma_line_end_in_line(ts, p, cycle_body_at(ts, p).pos);
        },
        Tok::KwEqu => {
            lemma_step_in_line(ts, p);
            let p1 = p + 1;
            if kind_at(ts, p1) is Ident {
                lemma_step_in_line(ts, p1);
                let p2 = p1 + 1;
                if kind_at(ts, p2) is Number || kind_at(ts, p2) is Char {
                    lemma_step_in_line(ts, p2);
                    lemma_line_end_in_line(ts, p, p2 + 1);
                }
            }
        },
        Tok::Ident(name) => {
            if p + 1 < ts.len() && kind_at(ts, p + 1) is Colon {
                lemma_step_in_line(ts, p);
                lemma_step_in_line(ts, p + 1);
                let p1 = p + 2;
                if ends_line(kind_at(ts, p1)) {
                    lemma_line_end_in_line(ts, p, p1);
                } else {
                    lemma_cycle_body_in_line(ts, p1);
                    lemma_line_end_in_line(ts, p, cycle_body_at(ts, p1).pos);
                }
            } else {
                lemma_cycle_body_in_line(ts, p);
                lemma_line_end_in_line(ts, p, cycle_body_at(ts, p).pos);
            }
        },
        _ => {
            lemma_cycle_body_in_line(ts, p);
            lemma_line_end_in_line(ts, p, cycle_body_at(ts, p).pos);
        },
    }
}

// ─── Spans stay in the file ─────────────────────────────────────────────────

/// A cycle and its moves have spans in `file`.
pub open spec fn cycle_in_file(c: CycleM, file: Arc<str>) -> bool {
    &&& c.span.file == file
    &&& forall|j: int| 0 <= j < c.slots.len() ==> (#[trigger] c.slots[j]).span.file == file
}

/// A line, and its cycle if any, have spans in `file`.
pub open spec fn line_in_file(l: LineM, file: Arc<str>) -> bool {
    match l {
        LineM::Empty => true,
        LineM::Label { span, attached, .. } => span.file == file && match attached {
            Some(c) => cycle_in_file(c, file),
            None => true,
        },
        LineM::Equ { span, .. } => span.file == file,
        LineM::Cycle(c) => cycle_in_file(c, file),
    }
}

proof fn lemma_line_stop_bound(ts: Seq<(Tok, Span)>, p: int)
    requires
        0 <= p < ts.len(),
    ensures
        p <= line_stop(ts, p) < ts.len(),
    decreases ts.len() - p,
{
    if p + 1 < ts.len() && !ends_line(kind_at(ts, p)) {
        lemma_line_stop_bound(ts, p + 1);
    }
}

proof fn lemma_guard_in_file(ts: Seq<(Tok, Span)>, p: int, file: Arc<str>)
    requires
        0 <= p < ts.len(),
        all_in_file(ts, file),
    ensures
        0 <= guard_at(ts, p).pos < ts.len(),
        all_in_file(guard_at(ts, p).diags, file),
{
    reveal(guard_at);
}

proof fn lemma_source_in_file(ts: Seq<(Tok, Span)>, p: int, file: Arc<str>)
    requires
        0 <= p < ts.len(),
        all_in_file(ts, file),
    ensures
        0 <= source_at(ts, p).pos < ts.len(),
        all_in_file(source_at(ts, p).diags, file),
{
    reveal(source_at);
    reveal(immediate_at);
}

proof fn lemma_destination_in_file(ts: Seq<(Tok, Span)>, p: int, file: Arc<str>)
    requires
        0 <= p < ts.len(),
        all_in_file(ts, file),
    ensures
        0 <= destination_at(ts, p).pos < ts.len(),
        all_in_file(destination_at(ts, p).diags, file),
{
    reveal(destination_at);
}

proof fn lemma_slot_in_file(ts: Seq<(Tok, Span)>, p: int, file: Arc<str>)
    requires
        0 <= p < ts.len(),
        all_in_file(ts, file),
    ensures
        0 <= slot_at(ts, p).pos < ts.len(),
        all_in_file(slot_at(ts, p).diags, file),
        slot_at(ts, p).value matches Some(m) ==> m.span.file == file,
{
    reveal(slot_at);
    lemma_guard_in_file(ts, p, file);
    let g = guard_at(ts, p);
    if g.value is Some {
        lemma_source_in_file(ts, g.pos, file);
        let s = source_at(ts, g.pos);
        lemma_all_in_file_concat(g.diags, s.diags, file);
        if s.value is Some {
            if kind_at(ts, s.pos) is Arrow {
                lemma_destination_in_file(ts, advanced(ts, s.pos), file);
                lemma_all_in_file_concat(g.diags + s.diags, destination_at(ts, advanced(ts, s.pos)).diags, file);
            } else {
                lemma_all_in_file_concat(g.diags + s.diags, seq![("expected '->'"@, tok_span(ts, s.pos))], file);
                assert((g.diags + s.diags).push(("expected '->'"@, tok_span(ts, s.pos))) == (g.diags + s.diags)
                    + seq![("expected '->'"@, tok_span(ts, s.pos))]);
            }
        }
    }
}

proof fn lemma_more_slots_in_file(ts: Seq<(Tok, Span)>, p: int, file: Arc<str>)
    requires
        0 <= p < ts.len(),
        all_in_file(ts, file),
    ensures
        0 <= more_slots_at(ts, p).pos < ts.len(),
        all_in_file(more_slots_at(ts, p).diags, file),
        forall|j: int|
            0 <= j < more_slots_at(ts, p).value.len() ==> (#[trigger] more_slots_at(ts, p).value[j]).span.file == file,
    decreases ts.len() - p,
{
    if p + 1 < ts.len() && kind_at(ts, p) is Semi {
        let q = p + 1;
        if !ends_line(kind_at(ts, q)) {
            lemma_slot_in_file(ts, q, file);
            let r = slot_at(ts, q);
            if q <= r.pos < ts.len() {
                lemma_more_slots_in_file(ts, r.pos, file);
                let rest = more_slots_at(ts, r.pos);
                lemma_all_in_file_concat(r.diags, rest.diags, file);
                let v = opt_seq(r.value) + rest.value;
                assert forall|j: int| 0 <= j < v.len() implies (#[trigger] v[j]).span.file == file by {
                    if j >= opt_seq(r.value).len() {
                        assert(v[j] == rest.value[j - opt_seq(r.value).len()]);
                    }
                }
            }
        }
    }
}

proof fn lemma_cycle_body_in_file(ts: Seq<(Tok, Span)>, p: int, file: Arc<str>)
    requires
        0 <= p < ts.len(),
        all_in_file(ts, file),
    ensures
        0 <= cycle_body_at(ts, p).pos < ts.len(),
        all_in_file(cycle_body_at(ts, p).diags, file),
        forall|j: int|
            0 <= j < cycle_body_at(ts, p).value.len() ==> (#[trigger] cycle_body_at(ts, p).value[j]).span.file == file,
{
    reveal(cycle_body_at);
    lemma_slot_in_file(ts, p, file);
    let r = slot_at(ts, p);
    lemma_more_slots_in_file(ts, r.pos, file);
    let rest = more_slots_at(ts, r.pos);
    lemma_all_in_file_concat(r.diags, rest.diags, file);
    let v = opt_seq(r.value) + rest.value;
    assert forall|j: int| 0 <= j < v.len() implies (#[trigger] v[j]).span.file == file by {
        if j >= opt_seq(r.value).len() {
            assert(v[j] == rest.value[j - opt_seq(r.value).len()]);
        }
    }
}

proof fn lemma_line_end_in_file(ts: Seq<(Tok, Span)>, p: int, file: Arc<str>)
    requires
        0 <= p < ts.len(),
        all_in_file(ts, file),
    ensures
        0 <= line_end_at(ts, p).0 < ts.len(),
        all_in_file(line_end_at(ts, p).1, file),
{
    lemma_line_stop_bound(ts, p);
}

proof fn lemma_line_in_file(ts: Seq<(Tok, Span)>, p: int, file: Arc<str>)
    requires
        0 <= p < ts.len(),
        all_in_file(ts, file),
    ensures
        0 <= line_at(ts, p).pos < ts.len(),
        all_in_file(line_at(ts, p).diags, file),
        line_at(ts, p).value matches Some(l) ==> line_in_file(l, file),
{
    reveal(line_at);
    reveal(cycle_line_at);
    reveal(label_at);
    reveal(equ_at);
    lemma_cycle_body_in_file(ts, p, file);
    let b = cycle_body_at(ts, p);
    lemma_line_end_in_file(ts, b.pos, file);
    lemma_all_in_file_concat(b.diags, line_end_at(ts, b.pos).1, file);
    let p1 = advanced(ts, advanced(ts, p));
    lemma_cycle_body_in_file(ts, p1, file);
    lemma_line_end_in_file(ts, p1, file);
    let b1 = cycle_body_at(ts, p1);
    lemma_line_end_in_file(ts, b1.pos, file);
    lemma_all_in_file_concat(b1.diags, line_end_at(ts, b1.pos).1, file);
    let q1 = advanced(ts, p);
    let q2 = advanced(ts, q1);
    let q3 = advanced(ts, q2);
    lemma_line_stop_bound(ts, q1);
    lemma_line_stop_bound(ts, q2);
    lemma_line_end_in_file(ts, q3, file);
    lemma_all_in_file_concat(Seq::<(Seq<char>, Span)>::empty(), line_end_at(ts, q3).1, file);
    if kind_at(ts, p) is KwEqu && kind_at(ts, q1) is Ident && (kind_at(ts, q2) is Number || kind_at(ts, q2) is Char) {
        let v: i64 = match kind_at(ts, q2) {
            Tok::Number(n) => n,
            Tok::Char(c) => c as i64,
            _ => 0,
        };
        let m = ".equ value "@ + crate::text::signed_decimal(v as int) + " out of 16-bit range"@;
        lemma_all_in_file_concat(seq![(m, tok_span(ts, q3))], line_end_at(ts, q3).1, file);
    }
}

/// Every line the parser makes, and every error it raises, has its spans
/// in the file its tokens come from.
pub proof fn lemma_lines_in_file(ts: Seq<(Tok, Span)>, p: int, file: Arc<str>)
    requires
        0 <= p,
        all_in_file(ts, file),
    ensures
        forall|i: int| 0 <= i < lines_from(ts, p).0.len() ==> line_in_file(#[trigger] lines_from(ts, p).0[i], file),
        all_in_file(lines_from(ts, p).1, file),
    decreases ts.len() - p,
{
    if 0 <= p < ts.len() && !(kind_at(ts, p) is Eof) {
        let l = line_at(ts, p);
        lemma_line_in_file(ts, p, file);
        if p < l.pos < ts.len() {
            lemma_lines_in_file(ts, l.pos, file);
            let rest = lines_from(ts, l.pos);
            lemma_all_in_file_concat(l.diags, rest.1, file);
            let ls = opt_seq(l.value) + rest.0;
            assert forall|i: int| 0 <= i < ls.len() implies line_in_file(#[trigger] ls[i], file) by {
                if i >= opt_seq(l.value).len() {
                    assert(ls[i] == rest.0[i - opt_seq(l.value).len()]);
                }
            }
        }
    }
}

} // verus!
