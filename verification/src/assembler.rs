//! The assembler: lexing, parsing and encoding, one after the other.

use std::sync::Arc;

use vstd::prelude::*;
use vstd::string::StringSliceAdditionalSpecFns;

use crate::diag::{all_in_file, Diagnostics, Span};
use crate::encoding::{IWord, Slot};
use crate::{encoder, lexer, parser};
use crate::encoder::laws::{
    lemma_encoding_resolves_symbols, line_cycles, move_fits, program_cycles, program_fits,
    program_symbols,
};
use crate::encoder::{encode_diags, encoded_words, errors_match, word_for};
use crate::lexer::{arc_text, file_arc, lex_spec, Tok};
use crate::parser::grammar::{
    cycle_body_at, cycle_line_at, destination_at, eof_ahead, equ_at, guard_at, immediate_at,
    label_at, line_at, lines_from, more_slots_at, opt_seq, parse_spec, slot_at, source_at,
};
use crate::parser::{token_model, CycleM, LineM};

verus! {

/// What assembling `src` gives: the slots of each instruction word, or the
/// diagnostics of the first stage (lexing, parsing, encoding) that raised
/// any.
pub open spec fn assembly(src: Seq<u8>, file: Arc<str>) -> Result<Seq<Seq<Slot>>, Seq<(Seq<char>, Span)>> {
    let lexed = lex_spec(src, file);
    if lexed.1.len() > 0 {
        Err(lexed.1)
    } else {
        let parsed = parse_spec(lexed.0);
        if parsed.1.len() > 0 {
            Err(parsed.1)
        } else if encode_diags(parsed.0).len() > 0 {
            Err(encode_diags(parsed.0))
        } else {
            Ok(encoded_words(parsed.0))
        }
    }
}

/// Assemble `source` into instruction words; diagnostics name `filename`.
pub fn assemble(source: &str, filename: &str) -> (r: Result<Vec<IWord>, Diagnostics>)
    ensures
        arc_text(file_arc(filename@)) == filename@,
        match r {
            Ok(words) => match assembly(source.spec_bytes(), file_arc(filename@)) {
                Ok(slots) => {
                    &&& words@.len() == slots.len()
                    &&& forall|k: int| 0 <= k < words@.len() ==> #[trigger] words@[k].slots@ == slots[k]
                },
                Err(_) => false,
            },
            Err(d) => match assembly(source.spec_bytes(), file_arc(filename@)) {
                Ok(_) => false,
                Err(e) => errors_match(d.items@, e),
            },
        },
{
    let tokens = match lexer::lex(source, filename) {
        Ok(t) => t,
        Err(d) => {
            return Err(d);
        },
    };
    proof {
        let lexed = lex_spec(source.spec_bytes(), file_arc(filename@));
        parser::lemma_token_model(tokens@, lexed.0);
        let last = tokens@.len() - 1;
        assert(token_model(tokens@)[last].0 is Eof);
        assert(eof_ahead(token_model(tokens@), 0));
    }
    let lines = match parser::parse(tokens) {
        Ok(l) => l,
        Err(d) => {
            return Err(d);
        },
    };
    encoder::encode(lines)
}

// ─── What an assembled program is ───────────────────────────────────────────

/// The lines the parser makes of `src`'s tokens.
pub open spec fn source_lines(src: Seq<u8>, file: Arc<str>) -> Seq<LineM> {
    parse_spec(lex_spec(src, file).0).0
}

/// Every move of a cycle fits the slot encoding.
pub open spec fn cycle_fits(c: CycleM) -> bool {
    forall|j: int| 0 <= j < c.slots.len() ==> move_fits(#[trigger] c.slots[j])
}

/// The cycle of a line, if any, fits the slot encoding.
pub open spec fn line_fits(l: LineM) -> bool {
    forall|k: int| 0 <= k < line_cycles(l).len() ==> cycle_fits(#[trigger] line_cycles(l)[k])
}

proof fn lemma_program_fits(lines: Seq<LineM>)
    requires
        forall|i: int| 0 <= i < lines.len() ==> line_fits(#[trigger] lines[i]),
    ensures
        program_fits(lines),
    decreases lines.len(),
{
    if lines.len() > 0 {
        let prev = lines.drop_last();
        assert forall|i: int| 0 <= i < prev.len() implies line_fits(#[trigger] prev[i]) by {
            assert(prev[i] == lines[i]);
        }
        lemma_program_fits(prev);
        let cs = program_cycles(lines);
        assert(cs == program_cycles(prev) + line_cycles(lines.last()));
        assert(line_fits(lines[lines.len() - 1]));
        assert forall|k: int, j: int|
            0 <= k < cs.len() && 0 <= j < cs[k].slots.len() implies move_fits(#[trigger] cs[k].slots[j]) by {
            if k < program_cycles(prev).len() {
                assert(cs[k] == program_cycles(prev)[k]);
            } else {
                assert(cs[k] == line_cycles(lines.last())[k - program_cycles(prev).len()]);
                assert(cycle_fits(line_cycles(lines.last())[k - program_cycles(prev).len()]));
            }
        }
    }
}

/// A parsed move names sockets that fit the slot encoding.
proof fn lemma_slot_fits(ts: Seq<(Tok, Span)>, p: int)
    ensures
        slot_at(ts, p).value matches Some(m) ==> move_fits(m),
{
    reveal(slot_at);
    reveal(guard_at);
    reveal(source_at);
    reveal(immediate_at);
    reveal(destination_at);
}

proof fn lemma_more_slots_fit(ts: Seq<(Tok, Span)>, p: int)
    ensures
        forall|j: int|
            0 <= j < more_slots_at(ts, p).value.len() ==> move_fits(#[trigger] more_slots_at(ts, p).value[j]),
    decreases ts.len() - p,
{
    if 0 <= p && p + 1 < ts.len() && more_slots_at(ts, p).value.len() > 0 {
        let q = p + 1;
        let r = slot_at(ts, q);
        lemma_slot_fits(ts, q);
        if q <= r.pos < ts.len() {
            lemma_more_slots_fit(ts, r.pos);
            let rest = more_slots_at(ts, r.pos);
            assert forall|j: int| 0 <= j < more_slots_at(ts, p).value.len() implies move_fits(
                #[trigger] more_slots_at(ts, p).value[j],
            ) by {
                if j < opt_seq(r.value).len() {
                } else {
                    assert(more_slots_at(ts, p).value[j] == rest.value[j - opt_seq(r.value).len()]);
                }
            }
        }
    }
}

proof fn lemma_body_fits(ts: Seq<(Tok, Span)>, p: int, span: Span)
    ensures
        cycle_fits(CycleM { slots: cycle_body_at(ts, p).value, span }),
{
    reveal(cycle_body_at);
    let r = slot_at(ts, p);
    lemma_slot_fits(ts, p);
    lemma_more_slots_fit(ts, r.pos);
    let body = cycle_body_at(ts, p).value;
    assert forall|j: int| 0 <= j < body.len() implies move_fits(#[trigger] body[j]) by {
        if j >= opt_seq(r.value).len() {
            assert(body[j] == more_slots_at(ts, r.pos).value[j - opt_seq(r.value).len()]);
        }
    }
}

proof fn lemma_line_fits(ts: Seq<(Tok, Span)>, p: int)
    ensures
        line_at(ts, p).value matches Some(l) ==> line_fits(l),
{
    reveal(line_at);
    reveal(cycle_line_at);
    reveal(label_at);
    reveal(equ_at);
    let p1 = crate::parser::grammar::advanced(ts, crate::parser::grammar::advanced(ts, p));
    lemma_body_fits(ts, p, crate::parser::grammar::tok_span(ts, p));
    lemma_body_fits(ts, p1, crate::parser::grammar::tok_span(ts, p1));
}

proof fn lemma_lines_fit(ts: Seq<(Tok, Span)>, p: int)
    ensures
        forall|i: int| 0 <= i < lines_from(ts, p).0.len() ==> line_fits(#[trigger] lines_from(ts, p).0[i]),
    decreases ts.len() - p,
{
    if 0 <= p < ts.len() && !(crate::parser::grammar::kind_at(ts, p) is Eof) {
        let l = line_at(ts, p);
        lemma_line_fits(ts, p);
        if p < l.pos < ts.len() {
            lemma_lines_fit(ts, l.pos);
            let rest = lines_from(ts, l.pos);
            assert forall|i: int| 0 <= i < lines_from(ts, p).0.len() implies line_fits(
                #[trigger] lines_from(ts, p).0[i],
            ) by {
                if i >= opt_seq(l.value).len() {
                    assert(lines_from(ts, p).0[i] == rest.0[i - opt_seq(l.value).len()]);
                }
            }
        }
    }
}

/// An assembled program's `k`-th word is its `k`-th cycle encoded under
/// the program's final symbol table, whether its symbols are defined before
/// or after their use. (Programs of at most 65536 words.)
pub proof fn lemma_assembly_resolves_symbols(src: Seq<u8>, file: Arc<str>)
    requires
        assembly(src, file) is Ok,
        program_cycles(source_lines(src, file)).len() <= 0x10000,
    ensures
        match assembly(src, file) {
            Ok(words) => {
                let lines = source_lines(src, file);
                &&& words.len() == program_cycles(lines).len()
                &&& forall|k: int|
                    0 <= k < words.len() ==> #[trigger] words[k] == word_for(
                        program_symbols(lines),
                        program_cycles(lines)[k].slots,
                    )
            },
            Err(_) => false,
        },
{
    let lines = source_lines(src, file);
    lemma_lines_fit(lex_spec(src, file).0, 0);
    lemma_program_fits(lines);
    lemma_encoding_resolves_symbols(lines);
}

/// Every diagnostic assembling reports points into the assembled file.
pub proof fn lemma_diagnostics_in_file(src: Seq<u8>, file: Arc<str>)
    ensures
        assembly(src, file) matches Err(d) ==> all_in_file(d, file),
{
    crate::lexer::lemma_lex_in_file(src, file, crate::lexer::LexPos { pos: 0, line: 1, line_start: 0 });
    let ts = lex_spec(src, file).0;
    crate::parser::grammar::lemma_lines_in_file(ts, 0, file);
    crate::encoder::laws::lemma_encode_diags_in_file(source_lines(src, file), file);
}

} // verus!
