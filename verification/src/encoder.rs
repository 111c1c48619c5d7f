//! Encoder: turns parsed lines into instruction words, resolving symbols.
//!
//! Pass 1 walks the lines once: labels and `.equ` constants enter the symbol
//! table, each cycle is validated and encoded (auto-NOP padded to four
//! slots), backward symbol references resolve at once and forward references
//! are recorded as patches. Pass 2 resolves the patches against the final
//! symbol table.

use vstd::prelude::*;

use crate::diag::{is_diag, Diag, Diagnostics, Severity, Span};
use crate::encoding::{bits_of_slot, slot_of_bits, IWord, Slot};
use crate::isa::{dst, guard, src};
use crate::parser::{
    lines_model, slots_model, CycleM, CycleSpec, Destination, Guard, ImmExpr, ImmM, Line, LineM,
    SlotM, SlotSpec, Source, SourceM,
};
use crate::text::{decimal, decimal_string};

pub mod laws;

verus! {

// ─── Encoding of the parts of a move ────────────────────────────────────────

/// The guard code of a parsed guard.
pub open spec fn guard_code(g: Guard) -> u8 {
    match g {
        Guard::Always => guard::ALWAYS,
        Guard::IfP0 => guard::IF_P0,
        Guard::IfNotP0 => guard::IF_NP0,
    }
}

/// The source socket of a parsed source.
pub open spec fn source_socket(s: SourceM) -> u8 {
    match s {
        SourceM::Gpr(n) => n,
        SourceM::BrfP0 => src::BRF_P0,
        SourceM::AluR => src::ALU_R,
        SourceM::AluP => src::ALU_P,
        SourceM::LsuR => src::LSU_R,
        SourceM::MulR => src::MUL_R,
        SourceM::Imm(_) => src::IMMEDIATE,
    }
}

/// The destination socket of a parsed destination.
pub open spec fn dest_socket(d: Destination) -> u8 {
    match d {
        Destination::Gpr(n) => n,
        Destination::BrfP0 => dst::BRF_P0,
        Destination::AluA => dst::ALU_A,
        Destination::AluAddT => dst::ALU_ADD_T,
        Destination::AluSubT => dst::ALU_SUB_T,
        Destination::AluAndT => dst::ALU_AND_T,
        Destination::AluOrT => dst::ALU_OR_T,
        Destination::AluXorT => dst::ALU_XOR_T,
        Destination::AluShlT => dst::ALU_SHL_T,
        Destination::AluShrT => dst::ALU_SHR_T,
        Destination::AluSshrT => dst::ALU_SSHR_T,
        Destination::AluEqT => dst::ALU_EQ_T,
        Destination::AluNeT => dst::ALU_NE_T,
        Destination::AluLtT => dst::ALU_LT_T,
        Destination::AluLeT => dst::ALU_LE_T,
        Destination::AluGtT => dst::ALU_GT_T,
        Destination::AluGeT => dst::ALU_GE_T,
        Destination::LsuLdT => dst::LSU_LD_T,
        Destination::LsuStA => dst::LSU_ST_A,
        Destination::LsuStT => dst::LSU_ST_T,
        Destination::GcuJmpT => dst::GCU_JMP_T,
        Destination::Discard => dst::DISCARD,
        Destination::MulA => dst::MUL_A,
        Destination::MulT => dst::MUL_T,
    }
}

/// The immediate data of a source under symbol table `table`: a literal's
/// value, a known symbol's value, and 0 for an unknown symbol or a
/// non-immediate source.
pub open spec fn resolved_data(table: Map<Seq<char>, u16>, s: SourceM) -> u16 {
    match s {
        SourceM::Imm(ImmM::Literal(v)) => v,
        SourceM::Imm(ImmM::Symbol(n)) => if table.contains_key(n) {
            table[n]
        } else {
            0
        },
        _ => 0,
    }
}

/// The slot a parsed move encodes to under symbol table `table`.
pub open spec fn slot_for(table: Map<Seq<char>, u16>, s: SlotM) -> Slot {
    Slot {
        guard: guard_code(s.guard),
        src_sock: source_socket(s.src),
        src_data: resolved_data(table, s.src),
        dst_sock: dest_socket(s.dst),
    }
}

/// The NOP slot (guard `never`).
pub open spec fn nop_slot() -> Slot {
    Slot { guard: guard::NEVER, src_sock: 0, src_data: 0, dst_sock: 0 }
}

/// The four slots of the word a cycle encodes to: its first four moves in
/// source order, NOP-padded.
pub open spec fn word_for(table: Map<Seq<char>, u16>, moves: Seq<SlotM>) -> Seq<Slot> {
    Seq::new(4, |i: int| if i < moves.len() { slot_for(table, moves[i]) } else { nop_slot() })
}

/// The move's source names a symbol that `table` does not hold yet.
pub open spec fn unresolved(table: Map<Seq<char>, u16>, s: SlotM) -> bool {
    s.src matches SourceM::Imm(ImmM::Symbol(n)) && !table.contains_key(n)
}

/// The symbol named by a move's source (empty for other sources).
pub open spec fn symbol_name(s: SlotM) -> Seq<char> {
    match s.src {
        SourceM::Imm(ImmM::Symbol(n)) => n,
        _ => Seq::empty(),
    }
}

/// A forward reference to resolve in pass 2: slot `slot` of the word at
/// `addr` takes the value of symbol `name`.
pub ghost struct PatchModel {
    pub addr: u16,
    pub slot: int,
    pub name: Seq<char>,
    pub span: Span,
}

/// The forward references among the first `n` moves of a cycle encoded at
/// `addr`, in slot order.
pub open spec fn cycle_patches(table: Map<Seq<char>, u16>, addr: u16, moves: Seq<SlotM>, n: nat) -> Seq<PatchModel>
    decreases n,
{
    if n == 0 {
        Seq::empty()
    } else {
        let prev = cycle_patches(table, addr, moves, (n - 1) as nat);
        let s = moves[n - 1];
        if unresolved(table, s) {
            prev.push(PatchModel { addr, slot: n - 1, name: symbol_name(s), span: s.span })
        } else {
            prev
        }
    }
}

// ─── Validation ─────────────────────────────────────────────────────────────

pub open spec fn msg_duplicate_destination() -> Seq<char> {
    "multiple writes to the same destination in this cycle"@
}

pub open spec fn msg_two_alu() -> Seq<char> {
    "more than one ALU trigger in a single cycle"@
}

pub open spec fn msg_two_lsu() -> Seq<char> {
    "more than one LSU trigger in a single cycle"@
}

pub open spec fn msg_two_mul() -> Seq<char> {
    "more than one MUL trigger in a single cycle"@
}

pub open spec fn msg_two_gcu() -> Seq<char> {
    "more than one GCU jump in a single cycle"@
}

pub open spec fn msg_too_many_slots(n: nat) -> Seq<char> {
    "more than 4 slots in a single cycle ("@ + decimal(n) + ")"@
}

pub open spec fn msg_duplicate_symbol(name: Seq<char>) -> Seq<char> {
    "duplicate symbol '"@ + name + "'"@
}

pub open spec fn msg_undefined_symbol(name: Seq<char>) -> Seq<char> {
    "undefined symbol '"@ + name + "'"@
}

/// Move `i` writes a destination that an earlier move of the cycle writes.
pub open spec fn writes_earlier_destination(moves: Seq<SlotM>, i: int) -> bool {
    exists|j: int| 0 <= j < i && moves[j].dst == moves[i].dst
}

/// V1: one diagnostic for each move among the first `n` that writes a
/// destination already written earlier in the cycle.
pub open spec fn duplicate_destination_diags(moves: Seq<SlotM>, n: nat) -> Seq<(Seq<char>, Span)>
    decreases n,
{
    if n == 0 {
        Seq::empty()
    } else {
        let prev = duplicate_destination_diags(moves, (n - 1) as nat);
        if writes_earlier_destination(moves, n - 1) {
            prev.push((msg_duplicate_destination(), moves[n - 1].span))
        } else {
            prev
        }
    }
}

/// The functional unit a destination triggers: 1 ALU, 2 LSU, 3 MUL, 4 GCU,
/// 0 none.
pub open spec fn trigger_unit(d: Destination) -> nat {
    match d {
        Destination::AluAddT | Destination::AluSubT | Destination::AluAndT | Destination::AluOrT
        | Destination::AluXorT | Destination::AluShlT | Destination::AluShrT
        | Destination::AluSshrT | Destination::AluEqT | Destination::AluNeT
        | Destination::AluLtT | Destination::AluLeT | Destination::AluGtT
        | Destination::AluGeT => 1,
        Destination::LsuLdT | Destination::LsuStT => 2,
        Destination::MulT => 3,
        Destination::GcuJmpT => 4,
        _ => 0,
    }
}

/// How many of the first `n` moves trigger unit `u`.
pub open spec fn trigger_count(moves: Seq<SlotM>, n: nat, u: nat) -> nat
    decreases n,
{
    if n == 0 {
        0
    } else {
        trigger_count(moves, (n - 1) as nat, u) + if trigger_unit(moves[n - 1].dst) == u {
            1nat
        } else {
            0nat
        }
    }
}

/// The diagnostic for a cycle that triggers unit `u` more than once.
pub open spec fn excess_trigger_diag(c: CycleM, u: nat, msg: Seq<char>) -> Seq<(Seq<char>, Span)> {
    if trigger_count(c.slots, c.slots.len(), u) > 1 {
        seq![(msg, c.span)]
    } else {
        Seq::empty()
    }
}

/// The validation diagnostics of a cycle, in order: V1 per offending move,
/// then V2..V5 for the ALU, LSU, MUL and GCU.
pub open spec fn validation_diags(c: CycleM) -> Seq<(Seq<char>, Span)> {
    duplicate_destination_diags(c.slots, c.slots.len()) + excess_trigger_diag(c, 1, msg_two_alu())
        + excess_trigger_diag(c, 2, msg_two_lsu()) + excess_trigger_diag(c, 3, msg_two_mul())
        + excess_trigger_diag(c, 4, msg_two_gcu())
}

/// All diagnostics of a cycle: V6 for more than four moves, then validation.
pub open spec fn cycle_diags(c: CycleM) -> Seq<(Seq<char>, Span)> {
    too_many_slots_diag(c) + validation_diags(c)
}

/// V6: the diagnostic for a cycle of more than four moves.
pub open spec fn too_many_slots_diag(c: CycleM) -> Seq<(Seq<char>, Span)> {
    if c.slots.len() > 4 {
        seq![(msg_too_many_slots(c.slots.len()), c.span)]
    } else {
        Seq::empty()
    }
}

// ─── The two passes ─────────────────────────────────────────────────────────

/// The state of pass 1: encoded words (as their slot sequences), the symbol
/// table, pending forward references and the diagnostics so far.
pub ghost struct Pass1 {
    pub words: Seq<Seq<Slot>>,
    pub table: Map<Seq<char>, u16>,
    pub pending: Seq<PatchModel>,
    pub diags: Seq<(Seq<char>, Span)>,
}

/// Define symbol `name` as `value`; a name already defined is an error (V10)
/// and takes the new value.
pub open spec fn define_symbol(st: Pass1, name: Seq<char>, value: u16, span: Span) -> Pass1 {
    Pass1 {
        table: st.table.insert(name, value),
        diags: if st.table.contains_key(name) {
            st.diags.push((msg_duplicate_symbol(name), span))
        } else {
            st.diags
        },
        ..st
    }
}

/// Validate and encode one cycle at the next address.
pub open spec fn encode_cycle_step(st: Pass1, c: CycleM) -> Pass1 {
    let addr = st.words.len() as u16;
    let n: nat = if c.slots.len() < 4 { c.slots.len() } else { 4 };
    Pass1 {
        words: st.words.push(word_for(st.table, c.slots)),
        pending: st.pending + cycle_patches(st.table, addr, c.slots, n),
        diags: st.diags + cycle_diags(c),
        table: st.table,
    }
}

/// Pass 1 on one line: a label names the address of the next word, then
/// encodes its attached cycle if any.
pub open spec fn line_step(st: Pass1, l: LineM) -> Pass1 {
    match l {
        LineM::Empty => st,
        LineM::Equ { name, value, span } => define_symbol(st, name, value, span),
        LineM::Label { name, span, attached } => {
            let st1 = define_symbol(st, name, st.words.len() as u16, span);
            match attached {
                Some(c) => encode_cycle_step(st1, c),
                None => st1,
            }
        },
        LineM::Cycle(c) => encode_cycle_step(st, c),
    }
}

/// The state after pass 1 over `lines`.
pub open spec fn pass1(lines: Seq<LineM>) -> Pass1
    decreases lines.len(),
{
    if lines.len() == 0 {
        Pass1 { words: Seq::empty(), table: Map::empty(), pending: Seq::empty(), diags: Seq::empty() }
    } else {
        line_step(pass1(lines.drop_last()), lines.last())
    }
}

/// The words after resolving the first `n` pending references: the
/// referencing slot is re-decoded from its encoding and takes the symbol's
/// value; an undefined symbol leaves the word alone.
pub open spec fn resolve_patches(words: Seq<Seq<Slot>>, table: Map<Seq<char>, u16>, pending: Seq<PatchModel>, n: nat) -> Seq<Seq<Slot>>
    decreases n,
{
    if n == 0 {
        words
    } else {
        let prev = resolve_patches(words, table, pending, (n - 1) as nat);
        let p = pending[n - 1];
        if table.contains_key(p.name) {
            let w = prev[p.addr as int];
            let s = Slot { src_data: table[p.name], ..slot_of_bits(bits_of_slot(w[p.slot])) };
            prev.update(p.addr as int, w.update(p.slot, s))
        } else {
            prev
        }
    }
}

/// The diagnostics for the first `n` pending references whose symbol is
/// undefined (V9).
pub open spec fn undefined_diags(table: Map<Seq<char>, u16>, pending: Seq<PatchModel>, n: nat) -> Seq<(Seq<char>, Span)>
    decreases n,
{
    if n == 0 {
        Seq::empty()
    } else {
        let prev = undefined_diags(table, pending, (n - 1) as nat);
        let p = pending[n - 1];
        if table.contains_key(p.name) {
            prev
        } else {
            prev.push((msg_undefined_symbol(p.name), p.span))
        }
    }
}

/// The words the encoder produces for `lines`.
pub open spec fn encoded_words(lines: Seq<LineM>) -> Seq<Seq<Slot>> {
    let p = pass1(lines);
    resolve_patches(p.words, p.table, p.pending, p.pending.len())
}

/// The diagnostics the encoder reports for `lines`, in order.
pub open spec fn encode_diags(lines: Seq<LineM>) -> Seq<(Seq<char>, Span)> {
    let p = pass1(lines);
    p.diags + undefined_diags(p.table, p.pending, p.pending.len())
}

/// `items` are exactly the errors `expected`, in order.
pub open spec fn errors_match(items: Seq<Diag>, expected: Seq<(Seq<char>, Span)>) -> bool {
    &&& items.len() == expected.len()
    &&& forall|i: int|
        0 <= i < items.len() ==> is_diag(
            #[trigger] items[i],
            Severity::Error,
            expected[i].0,
            expected[i].1,
        )
}

// ─── Execution ──────────────────────────────────────────────────────────────

/// Encode parsed lines into instruction words. Succeeds exactly when no
/// diagnostic arises; otherwise returns the diagnostics, all errors, in the
/// order pass 1 and pass 2 found them.
pub fn encode(lines: Vec<Line>) -> (r: Result<Vec<IWord>, Diagnostics>)
    ensures
        match r {
            Ok(words) => {
                &&& encode_diags(lines_model(lines@)).len() == 0
                &&& words@.len() == encoded_words(lines_model(lines@)).len()
                &&& forall|k: int|
                    0 <= k < words@.len() ==> #[trigger] words@[k].slots@ == encoded_words(lines_model(lines@))[k]
            },
            Err(d) => {
                &&& encode_diags(lines_model(lines@)).len() > 0
                &&& errors_match(d.items@, encode_diags(lines_model(lines@)))
            },
        },
{
    let mut e = Encoder::new();
    e.run(&lines);
    if e.diags.has_errors() {
        Err(e.diags)
    } else {
        proof {
            if encode_diags(lines_model(lines@)).len() > 0 {
                assert(e.diags.items@[0].severity == Severity::Error);
            }
        }
        Ok(e.iwords)
    }
}

/// A symbol-table entry. Later entries for the same name shadow earlier ones.
struct Symbol {
    name: String,
    value: u16,
}

/// The symbol table that a list of entries stands for: the last entry for
/// a name gives its value.
spec fn table_of(entries: Seq<Symbol>) -> Map<Seq<char>, u16>
    decreases entries.len(),
{
    if entries.len() == 0 {
        Map::empty()
    } else {
        table_of(entries.drop_last()).insert(entries.last().name@, entries.last().value)
    }
}

proof fn lemma_table_last_entry(entries: Seq<Symbol>, k: Seq<char>, j: int)
    requires
        0 <= j < entries.len(),
        entries[j].name@ == k,
        forall|t: int| j < t < entries.len() ==> #[trigger] entries[t].name@ != k,
    ensures
        table_of(entries).contains_key(k),
        table_of(entries)[k] == entries[j].value,
    decreases entries.len(),
{
    if j < entries.len() - 1 {
        lemma_table_last_entry(entries.drop_last(), k, j);
        assert(entries.last().name@ != k);
    }
}

proof fn lemma_table_no_entry(entries: Seq<Symbol>, k: Seq<char>)
    requires
        forall|t: int| 0 <= t < entries.len() ==> #[trigger] entries[t].name@ != k,
    ensures
        !table_of(entries).contains_key(k),
    decreases entries.len(),
{
    if entries.len() > 0 {
        lemma_table_no_entry(entries.drop_last(), k);
        assert(entries.last().name@ != k);
    }
}

/// The value of `k` in `table`, if any.
pub open spec fn table_get(table: Map<Seq<char>, u16>, k: Seq<char>) -> Option<u16> {
    if table.contains_key(k) {
        Some(table[k])
    } else {
        None
    }
}

struct Patch {
    addr: u16,
    slot_idx: usize,
    name: String,
    span: Span,
}

spec fn patch_model(p: Patch) -> PatchModel {
    PatchModel { addr: p.addr, slot: p.slot_idx as int, name: p.name@, span: p.span }
}

struct Encoder {
    iwords: Vec<IWord>,
    symbols: Vec<Symbol>,
    pending: Vec<Patch>,
    diags: Diagnostics,
}

impl Encoder {
    spec fn words(&self) -> Seq<Seq<Slot>> {
        self.iwords@.map_values(|w: IWord| w.slots@)
    }

    /// The encoder holds pass-1 state `st`.
    spec fn holds(&self, st: Pass1) -> bool {
        &&& self.words() == st.words
        &&& table_of(self.symbols@) == st.table
        &&& self.pending@.map_values(|p: Patch| patch_model(p)) == st.pending
        &&& errors_match(self.diags.items@, st.diags)
    }

    fn new() -> (e: Encoder)
        ensures
            e.holds(pass1(Seq::empty())),
    {
        let e = Encoder { iwords: Vec::new(), symbols: Vec::new(), pending: Vec::new(), diags: Diagnostics::new() };
        assert(e.words() =~= Seq::empty());
        assert(table_of(e.symbols@) =~= Map::empty());
        assert(e.pending@.map_values(|p: Patch| patch_model(p)) =~= Seq::empty());
        e
    }

    fn lookup(&self, name: &String) -> (r: Option<u16>)
        ensures
            r == table_get(table_of(self.symbols@), name@),
    {
        let mut i = self.symbols.len();
        while i > 0
            invariant
                i <= self.symbols@.len(),
                forall|t: int| i <= t < self.symbols@.len() ==> #[trigger] self.symbols@[t].name@ != name@,
            decreases i,
        {
            i -= 1;
            if self.symbols[i].name == *name {
                proof {
                    lemma_table_last_entry(self.symbols@, name@, i as int);
                }
                return Some(self.symbols[i].value);
            }
        }
        proof {
            lemma_table_no_entry(self.symbols@, name@);
        }
        None
    }
}

/// Appending one error to items that match `expected` matches `expected`
/// extended by that error.
proof fn lemma_errors_push(old_items: Seq<Diag>, new_items: Seq<Diag>, expected: Seq<(Seq<char>, Span)>, msg: Seq<char>, span: Span)
    requires
        errors_match(old_items, expected),
        new_items.len() == old_items.len() + 1,
        new_items.take(old_items.len() as int) == old_items,
        is_diag(new_items.last(), Severity::Error, msg, span),
    ensures
        errors_match(new_items, expected.push((msg, span))),
{
    assert forall|i: int| 0 <= i < new_items.len() implies is_diag(
        #[trigger] new_items[i],
        Severity::Error,
        expected.push((msg, span))[i].0,
        expected.push((msg, span))[i].1,
    ) by {
        if i < old_items.len() {
            assert(new_items[i] == new_items.take(old_items.len() as int)[i]);
        }
    }
}

/// Labels and pending references stay inside the words encoded so far.
spec fn pending_in_range(st: Pass1) -> bool {
    &&& forall|k: int| 0 <= k < st.words.len() ==> (#[trigger] st.words[k]).len() == 4
    &&& forall|i: int|
        0 <= i < st.pending.len() ==> (#[trigger] st.pending[i]).addr < st.words.len() && 0
            <= st.pending[i].slot < 4
}

pub(crate) fn error_at(diags: &mut Diagnostics, span: &Span, msg: &str, Ghost(expected): Ghost<Seq<(Seq<char>, Span)>>)
    requires
        errors_match(old(diags).items@, expected),
    ensures
        errors_match(final(diags).items@, expected.push((msg@, *span))),
{
    let ghost before = diags.items@;
    diags.error(span.copy(), msg);
    proof {
        lemma_errors_push(before, diags.items@, expected, msg@, *span);
    }
}

fn guard_code_of(g: &Guard) -> (c: u8)
    ensures
        c == guard_code(*g),
{
    match g {
        Guard::Always => guard::ALWAYS,
        Guard::IfP0 => guard::IF_P0,
        Guard::IfNotP0 => guard::IF_NP0,
    }
}

fn encode_destination(d: &Destination) -> (c: u8)
    ensures
        c == dest_socket(*d),
{
    match d {
        Destination::Gpr(n) => *n,
        Destination::BrfP0 => dst::BRF_P0,
        Destination::AluA => dst::ALU_A,
        Destination::AluAddT => dst::ALU_ADD_T,
        Destination::AluSubT => dst::ALU_SUB_T,
        Destination::AluAndT => dst::ALU_AND_T,
        Destination::AluOrT => dst::ALU_OR_T,
        Destination::AluXorT => dst::ALU_XOR_T,
        Destination::AluShlT => dst::ALU_SHL_T,
        Destination::AluShrT => dst::ALU_SHR_T,
        Destination::AluSshrT => dst::ALU_SSHR_T,
        Destination::AluEqT => dst::ALU_EQ_T,
        Destination::AluNeT => dst::ALU_NE_T,
        Destination::AluLtT => dst::ALU_LT_T,
        Destination::AluLeT => dst::ALU_LE_T,
        Destination::AluGtT => dst::ALU_GT_T,
        Destination::AluGeT => dst::ALU_GE_T,
        Destination::LsuLdT => dst::LSU_LD_T,
        Destination::LsuStA => dst::LSU_ST_A,
        Destination::LsuStT => dst::LSU_ST_T,
        Destination::GcuJmpT => dst::GCU_JMP_T,
        Destination::Discard => dst::DISCARD,
        Destination::MulA => dst::MUL_A,
        Destination::MulT => dst::MUL_T,
    }
}

fn trigger_unit_of(d: &Destination) -> (u: u8)
    ensures
        u == trigger_unit(*d),
{
    match d {
        Destination::AluAddT | Destination::AluSubT | Destination::AluAndT | Destination::AluOrT
        | Destination::AluXorT | Destination::AluShlT | Destination::AluShrT
        | Destination::AluSshrT | Destination::AluEqT | Destination::AluNeT
        | Destination::AluLtT | Destination::AluLeT | Destination::AluGtT
        | Destination::AluGeT => 1,
        Destination::LsuLdT | Destination::LsuStT => 2,
        Destination::MulT => 3,
        Destination::GcuJmpT => 4,
        _ => 0,
    }
}

impl Encoder {
    /// Define `name` as `value`, reporting a duplicate definition.
    fn define(&mut self, name: &String, value: u16, span: &Span, Ghost(st): Ghost<Pass1>)
        requires
            old(self).holds(st),
        ensures
            final(self).holds(define_symbol(st, name@, value, *span)),
            final(self).iwords == old(self).iwords,
            final(self).pending == old(self).pending,
    {
        let present = self.lookup(name).is_some();
        self.symbols.push(Symbol { name: name.clone(), value });
        assert(self.symbols@.drop_last() =~= old(self).symbols@);
        if present {
            let mut msg = String::from_str("duplicate symbol '");
            msg.append(name.as_str());
            msg.append("'");
            error_at(&mut self.diags, span, msg.as_str(), Ghost(st.diags));
        }
    }

    /// Encode the source of a move at slot `idx` of the word at `addr`,
    /// recording a forward reference.
    fn encode_source(&mut self, addr: u16, idx: usize, spec: &SlotSpec) -> (r: (u8, u16))
        ensures
            r.0 == source_socket(spec.src@),
            r.1 == resolved_data(table_of(old(self).symbols@), spec.src@),
            final(self).iwords == old(self).iwords,
            final(self).symbols == old(self).symbols,
            final(self).diags == old(self).diags,
            final(self).pending@.map_values(|p: Patch| patch_model(p)) == if unresolved(
                table_of(old(self).symbols@),
                spec@,
            ) {
                old(self).pending@.map_values(|p: Patch| patch_model(p)).push(
                    PatchModel { addr, slot: idx as int, name: symbol_name(spec@), span: spec.span },
                )
            } else {
                old(self).pending@.map_values(|p: Patch| patch_model(p))
            },
    {
        match &spec.src {
            Source::Gpr(n) => (*n, 0),
            Source::BrfP0 => (src::BRF_P0, 0),
            Source::AluR => (src::ALU_R, 0),
            Source::AluP => (src::ALU_P, 0),
            Source::LsuR => (src::LSU_R, 0),
            Source::MulR => (src::MUL_R, 0),
            Source::Imm(ImmExpr::Literal(v)) => (src::IMMEDIATE, *v),
            Source::Imm(ImmExpr::Symbol(name)) => {
                if let Some(v) = self.lookup(name) {
                    (src::IMMEDIATE, v)
                } else {
                    self.pending.push(
                        Patch { addr, slot_idx: idx, name: name.clone(), span: spec.span.copy() },
                    );
                    assert(self.pending@.map_values(|p: Patch| patch_model(p)) =~= old(
                        self,
                    ).pending@.map_values(|p: Patch| patch_model(p)).push(
                        PatchModel { addr, slot: idx as int, name: symbol_name(spec@), span: spec.span },
                    ));
                    (src::IMMEDIATE, 0)
                }
            },
        }
    }
}

impl Encoder {
    /// Encode one move at slot `idx` of the word at `addr`.
    fn encode_slot(&mut self, addr: u16, idx: usize, spec: &SlotSpec) -> (s: Slot)
        ensures
            s == slot_for(table_of(old(self).symbols@), spec@),
            final(self).iwords == old(self).iwords,
            final(self).symbols == old(self).symbols,
            final(self).diags == old(self).diags,
            final(self).pending@.map_values(|p: Patch| patch_model(p)) == if unresolved(
                table_of(old(self).symbols@),
                spec@,
            ) {
                old(self).pending@.map_values(|p: Patch| patch_model(p)).push(
                    PatchModel { addr, slot: idx as int, name: symbol_name(spec@), span: spec.span },
                )
            } else {
                old(self).pending@.map_values(|p: Patch| patch_model(p))
            },
    {
        let g = guard_code_of(&spec.guard);
        let (src_sock, src_data) = self.encode_source(addr, idx, spec);
        let dst_sock = encode_destination(&spec.dst);
        Slot::new(g, src_sock, src_data, dst_sock)
    }

    /// V1..V5 for one cycle.
    fn validate_cycle(&mut self, cycle: &CycleSpec, Ghost(expected): Ghost<Seq<(Seq<char>, Span)>>)
        requires
            errors_match(old(self).diags.items@, expected),
        ensures
            errors_match(final(self).diags.items@, expected + validation_diags(cycle@)),
            final(self).iwords == old(self).iwords,
            final(self).symbols == old(self).symbols,
            final(self).pending == old(self).pending,
    {
        let moves = &cycle.slots;
        let ghost ms = slots_model(moves@);
        let n = moves.len();
        // V1: multiple writes to the same destination.
        for i in 0..n
            invariant
                n == moves@.len(),
                ms == slots_model(moves@),
                errors_match(self.diags.items@, expected + duplicate_destination_diags(ms, i as nat)),
                self.iwords == old(self).iwords,
                self.symbols == old(self).symbols,
                self.pending == old(self).pending,
        {
            let mut seen = false;
            for j in 0..i
                invariant
                    i < n == moves@.len(),
                    ms == slots_model(moves@),
                    seen == exists|k: int| 0 <= k < j && #[trigger] ms[k].dst == ms[i as int].dst,
            {
                assert(ms[j as int].dst == moves@[j as int].dst && ms[i as int].dst == moves@[i as int].dst);
                if moves[j].dst == moves[i].dst {
                    seen = true;
                }
            }
            proof {
                reveal_with_fuel(duplicate_destination_diags, 2);
            }
            if seen {
                assert((expected + duplicate_destination_diags(ms, i as nat)).push(
                    (msg_duplicate_destination(), ms[i as int].span),
                ) =~= expected + duplicate_destination_diags(ms, (i + 1) as nat));
                error_at(
                    &mut self.diags,
                    &moves[i].span,
                    "multiple writes to the same destination in this cycle",
                    Ghost(expected + duplicate_destination_diags(ms, i as nat)),
                );
            } else {
                assert(expected + duplicate_destination_diags(ms, i as nat) =~= expected
                    + duplicate_destination_diags(ms, (i + 1) as nat));
            }
        }
        // V2..V5: more than one trigger of one functional unit.
        let mut alu_triggers: usize = 0;
        let mut lsu_triggers: usize = 0;
        let mut mul_triggers: usize = 0;
        let mut gcu_triggers: usize = 0;
        for i in 0..n
            invariant
                n == moves@.len(),
                ms == slots_model(moves@),
                alu_triggers == trigger_count(ms, i as nat, 1),
                lsu_triggers == trigger_count(ms, i as nat, 2),
                mul_triggers == trigger_count(ms, i as nat, 3),
                gcu_triggers == trigger_count(ms, i as nat, 4),
                alu_triggers <= i && lsu_triggers <= i && mul_triggers <= i && gcu_triggers <= i,
        {
            assert(ms[i as int].dst == moves@[i as int].dst);
            let u = trigger_unit_of(&moves[i].dst);
            if u == 1 {
                alu_triggers += 1;
            } else if u == 2 {
                lsu_triggers += 1;
            } else if u == 3 {
                mul_triggers += 1;
            } else if u == 4 {
                gcu_triggers += 1;
            }
        }
        let ghost e0 = expected + duplicate_destination_diags(ms, n as nat);
        let ghost e1 = e0 + excess_trigger_diag(cycle@, 1, msg_two_alu());
        let ghost e2 = e1 + excess_trigger_diag(cycle@, 2, msg_two_lsu());
        let ghost e3 = e2 + excess_trigger_diag(cycle@, 3, msg_two_mul());
        let ghost e4 = e3 + excess_trigger_diag(cycle@, 4, msg_two_gcu());
        if alu_triggers > 1 {
            assert(e0.push((msg_two_alu(), cycle.span)) =~= e1);
            error_at(&mut self.diags, &cycle.span, "more than one ALU trigger in a single cycle", Ghost(e0));
        } else {
            assert(e0 =~= e1);
        }
        if lsu_triggers > 1 {
            assert(e1.push((msg_two_lsu(), cycle.span)) =~= e2);
            error_at(&mut self.diags, &cycle.span, "more than one LSU trigger in a single cycle", Ghost(e1));
        } else {
            assert(e1 =~= e2);
        }
        if mul_triggers > 1 {
            assert(e2.push((msg_two_mul(), cycle.span)) =~= e3);
            error_at(&mut self.diags, &cycle.span, "more than one MUL trigger in a single cycle", Ghost(e2));
        } else {
            assert(e2 =~= e3);
        }
        if gcu_triggers > 1 {
            assert(e3.push((msg_two_gcu(), cycle.span)) =~= e4);
            error_at(&mut self.diags, &cycle.span, "more than one GCU jump in a single cycle", Ghost(e3));
        } else {
            assert(e3 =~= e4);
        }
        assert(e4 =~= expected + validation_diags(cycle@));
    }

    /// Validate and encode one cycle as the next word.
    fn encode_cycle(&mut self, cycle: &CycleSpec, Ghost(st): Ghost<Pass1>)
        requires
            old(self).holds(st),
            pending_in_range(st),
        ensures
            final(self).holds(encode_cycle_step(st, cycle@)),
            pending_in_range(encode_cycle_step(st, cycle@)),
    {
        let addr = #[verifier::truncate] (self.iwords.len() as u16);
        let n = cycle.slots.len();
        let ghost v6 = too_many_slots_diag(cycle@);
        if n > 4 {
            let mut msg = String::from_str("more than 4 slots in a single cycle (");
            let count = decimal_string(n as u64);
            msg.append(count.as_str());
            msg.append(")");
            error_at(&mut self.diags, &cycle.span, msg.as_str(), Ghost(st.diags));
            assert(st.diags.push((msg_too_many_slots(n as nat), cycle.span)) =~= st.diags + v6);
        } else {
            assert(st.diags =~= st.diags + v6);
        }
        self.validate_cycle(cycle, Ghost(st.diags + v6));
        assert(st.diags + v6 + validation_diags(cycle@) =~= st.diags + cycle_diags(cycle@));
        let ghost table = st.table;
        let ghost moves = slots_model(cycle.slots@);
        let mut slots = [Slot::nop(); 4];
        let mut i: usize = 0;
        while i < n && i < 4
            invariant
                n == moves.len(),
                moves == slots_model(cycle.slots@),
                i <= 4,
                i <= n,
                table_of(self.symbols@) == table,
                forall|j: int| 0 <= j < i ==> slots@[j] == #[trigger] slot_for(table, moves[j]),
                forall|j: int| i <= j < 4 ==> slots@[j] == #[trigger] nop_slot(),
                self.pending@.map_values(|p: Patch| patch_model(p)) == st.pending + cycle_patches(table, addr, moves, i as nat),
                self.iwords == old(self).iwords,
                self.symbols == old(self).symbols,
                errors_match(self.diags.items@, st.diags + cycle_diags(cycle@)),
            decreases 4 - i,
        {
            assert(moves[i as int] == cycle.slots@[i as int]@);
            let s = self.encode_slot(addr, i, &cycle.slots[i]);
            slots[i] = s;
            assert(self.pending@.map_values(|p: Patch| patch_model(p)) =~= st.pending + cycle_patches(table, addr, moves, (i + 1) as nat));
            i += 1;
        }
        assert(slots@ =~= word_for(table, moves));
        assert(seq![slots[0], slots[1], slots[2], slots[3]] =~= slots@);
        self.iwords.push(IWord::new(slots[0], slots[1], slots[2], slots[3]));
        assert(self.words() =~= st.words.push(word_for(table, moves)));
        proof {
            let st2 = encode_cycle_step(st, cycle@);
            assert(i as nat == if moves.len() < 4 { moves.len() } else { 4 });
            lemma_truncate_le(st.words.len());
            assert forall|k: int| 0 <= k < st2.pending.len() implies (#[trigger] st2.pending[k]).addr < st2.words.len() && 0 <= st2.pending[k].slot < 4 by {
                if k >= st.pending.len() {
                    lemma_cycle_patches_range(table, addr, moves, i as nat, k - st.pending.len());
                }
            }
        }
    }
}

/// Truncation to 16 bits never grows a count.
proof fn lemma_truncate_le(n: nat)
    ensures
        (n as u16) as int <= n,
{
    if n >= 0x10000 {
        assert((n as u16) as int <= 0xFFFF);
    } else {
        assert((n as u16) as int == n);
    }
}

proof fn lemma_cycle_patches_range(table: Map<Seq<char>, u16>, addr: u16, moves: Seq<SlotM>, n: nat, k: int)
    requires
        n <= 4,
        0 <= k < cycle_patches(table, addr, moves, n).len(),
    ensures
        cycle_patches(table, addr, moves, n)[k].addr == addr,
        0 <= cycle_patches(table, addr, moves, n)[k].slot < n,
    decreases n,
{
    if n > 0 {
        if k < cycle_patches(table, addr, moves, (n - 1) as nat).len() {
            lemma_cycle_patches_range(table, addr, moves, (n - 1) as nat, k);
        }
    }
}

impl Encoder {
    /// Pass 1 on one line.
    fn handle_line(&mut self, line: &Line, Ghost(st): Ghost<Pass1>)
        requires
            old(self).holds(st),
            pending_in_range(st),
        ensures
            final(self).holds(line_step(st, line@)),
            pending_in_range(line_step(st, line@)),
    {
        match line {
            Line::Empty => {},
            Line::Equ { name, value, span } => {
                self.define(name, *value, span, Ghost(st));
            },
            Line::Label { name, span, attached } => {
                let addr = #[verifier::truncate] (self.iwords.len() as u16);
                self.define(name, addr, span, Ghost(st));
                if let Some(cycle) = attached {
                    self.encode_cycle(cycle, Ghost(define_symbol(st, name@, addr, *span)));
                }
            },
            Line::Cycle(cycle) => self.encode_cycle(cycle, Ghost(st)),
        }
    }

    /// Both passes over `lines`.
    fn run(&mut self, lines: &Vec<Line>)
        requires
            old(self).holds(pass1(Seq::empty())),
        ensures
            final(self).words() == encoded_words(lines_model(lines@)),
            errors_match(final(self).diags.items@, encode_diags(lines_model(lines@))),
            final(self).pending@.len() == 0,
    {
        let ghost lm = lines_model(lines@);
        // Pass 1
        let n = lines.len();
        for i in 0..n
            invariant
                n == lines@.len(),
                lm == lines_model(lines@),
                self.holds(pass1(lm.take(i as int))),
                pending_in_range(pass1(lm.take(i as int))),
        {
            assert(lm.take(i + 1).drop_last() =~= lm.take(i as int));
            assert(lm.take(i + 1).last() == lines@[i as int]@);
            self.handle_line(&lines[i], Ghost(pass1(lm.take(i as int))));
        }
        assert(lm.take(n as int) =~= lm);
        let ghost p = pass1(lm);
        // Pass 2: backpatch forward references
        let np = self.pending.len();
        for k in 0..np
            invariant
                np == p.pending.len(),
                pending_in_range(p),
                self.words() == resolve_patches(p.words, p.table, p.pending, k as nat),
                self.iwords@.len() == p.words.len(),
                errors_match(self.diags.items@, p.diags + undefined_diags(p.table, p.pending, k as nat)),
                table_of(self.symbols@) == p.table,
                self.pending@.map_values(|q: Patch| patch_model(q)) == p.pending,
        {
            let patch = &self.pending[k];
            assert(patch_model(*patch) == p.pending[k as int]);
            match self.lookup(&patch.name) {
                Some(v) => {
                    let a = patch.addr as usize;
                    let idx = patch.slot_idx;
                    let mut w = self.iwords[a];
                    let raw = w.slots[idx].encode();
                    let mut decoded = Slot::decode(raw);
                    decoded.src_data = v;
                    w.slots[idx] = decoded;
                    self.iwords.set(a, w);
                    assert(self.words() =~= resolve_patches(p.words, p.table, p.pending, (k + 1) as nat));
                    assert(p.diags + undefined_diags(p.table, p.pending, k as nat) =~= p.diags
                        + undefined_diags(p.table, p.pending, (k + 1) as nat));
                },
                None => {
                    let mut msg = String::from_str("undefined symbol '");
                    msg.append(patch.name.as_str());
                    msg.append("'");
                    error_at(
                        &mut self.diags,
                        &patch.span,
                        msg.as_str(),
                        Ghost(p.diags + undefined_diags(p.table, p.pending, k as nat)),
                    );
                    assert((p.diags + undefined_diags(p.table, p.pending, k as nat)).push(
                        (msg_undefined_symbol(p.pending[k as int].name), p.pending[k as int].span),
                    ) =~= p.diags + undefined_diags(p.table, p.pending, (k + 1) as nat));
                },
            }
        }
        // Every forward reference is resolved or reported: none stays pending.
        self.pending.clear();
    }
}

} // verus!
