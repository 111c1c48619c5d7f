//! What the encoder's output is, stated over the program as a whole.
//!
//! A program's cycles become its instruction words in order; its labels and
//! `.equ` constants make one symbol table. When encoding raises no error,
//! every word is its cycle encoded under that final table: references to
//! symbols defined later resolve exactly as those defined earlier.

use std::sync::Arc;

use vstd::prelude::*;

use crate::diag::{all_in_file, lemma_all_in_file_concat, Span};
use crate::encoding::{bits_of_slot, lemma_slot_round_trip, slot_of_bits, Slot};
use crate::parser::grammar::{cycle_in_file, line_in_file};
use crate::isa::{dst, src};
use crate::machine::{alu_arith_trigger, alu_compare_trigger, guard_passes};
use crate::parser::names::{
    all_decimal, ascii_lower, decimal_value, destination_named, gpr_number, source_named,
};
use crate::text::{decimal, digit_char};
use crate::parser::{CycleM, Destination, Guard, ImmM, LineM, SlotM, SourceM};

use super::{
    cycle_diags, cycle_patches, define_symbol, guard_code, dest_socket, duplicate_destination_diags,
    encode_cycle_step, encode_diags, encoded_words, excess_trigger_diag, line_step, pass1,
    resolve_patches, slot_for, source_socket, too_many_slots_diag, trigger_count, trigger_unit, undefined_diags,
    unresolved, validation_diags, word_for, writes_earlier_destination, Pass1, PatchModel,
};

verus! {

/// The cycle a line contributes, if any: its own, or a label's attached one.
pub open spec fn line_cycles(l: LineM) -> Seq<CycleM> {
    match l {
        LineM::Cycle(c) => seq![c],
        LineM::Label { attached: Some(c), .. } => seq![c],
        _ => Seq::empty(),
    }
}

/// The cycles of a program in order, one instruction word each.
pub open spec fn program_cycles(lines: Seq<LineM>) -> Seq<CycleM>
    decreases lines.len(),
{
    if lines.len() == 0 {
        Seq::empty()
    } else {
        program_cycles(lines.drop_last()) + line_cycles(lines.last())
    }
}

/// The symbols a program defines: an `.equ` its value, a label the number
/// of words before it (cut to 16 bits). A later definition of a name
/// replaces an earlier one.
pub open spec fn program_symbols(lines: Seq<LineM>) -> Map<Seq<char>, u16>
    decreases lines.len(),
{
    if lines.len() == 0 {
        Map::empty()
    } else {
        let before = program_symbols(lines.drop_last());
        match lines.last() {
            LineM::Equ { name, value, .. } => before.insert(name, value),
            LineM::Label { name, .. } => before.insert(
                name,
                program_cycles(lines.drop_last()).len() as u16,
            ),
            _ => before,
        }
    }
}

/// Pass 1 makes one word per cycle and collects the symbols of the program.
pub proof fn lemma_pass1_words_and_symbols(lines: Seq<LineM>)
    ensures
        pass1(lines).words.len() == program_cycles(lines).len(),
        pass1(lines).table == program_symbols(lines),
    decreases lines.len(),
{
    if lines.len() > 0 {
        lemma_pass1_words_and_symbols(lines.drop_last());
    }
}

// ─── Pass 2 ─────────────────────────────────────────────────────────────────

/// Some of the first `n` pending references patches slot `j` of word `a`.
pub open spec fn hit(pending: Seq<PatchModel>, n: int, a: int, j: int) -> bool {
    exists|i: int| 0 <= i < n && (#[trigger] pending[i]).addr == a && pending[i].slot == j
}

/// No two pending references patch the same slot.
pub open spec fn unique_positions(pending: Seq<PatchModel>) -> bool {
    forall|i: int, i2: int|
        #![trigger pending[i], pending[i2]]
        0 <= i < i2 < pending.len() ==> !(pending[i].addr == pending[i2].addr && pending[i].slot
            == pending[i2].slot)
}

/// Slot `s` re-decoded from its encoding, with immediate data `v`.
pub open spec fn repatched(s: Slot, v: u16) -> Slot {
    Slot { src_data: v, ..slot_of_bits(bits_of_slot(s)) }
}

/// Resolving the first `n` references patches exactly their slots, each
/// re-decoded and given its symbol's value, and leaves every other slot.
proof fn lemma_resolve(words: Seq<Seq<Slot>>, table: Map<Seq<char>, u16>, pending: Seq<PatchModel>, n: nat)
    requires
        n <= pending.len(),
        unique_positions(pending),
        forall|k: int| 0 <= k < words.len() ==> (#[trigger] words[k]).len() == 4,
        forall|i: int|
            0 <= i < pending.len() ==> (#[trigger] pending[i]).addr < words.len() && 0 <= pending[i].slot
                < 4 && table.contains_key(pending[i].name),
    ensures
        resolve_patches(words, table, pending, n).len() == words.len(),
        forall|k: int| 0 <= k < words.len() ==> (#[trigger] resolve_patches(words, table, pending, n)[k]).len() == 4,
        forall|i: int|
            0 <= i < n ==> resolve_patches(words, table, pending, n)[(#[trigger] pending[i]).addr as int][pending[i].slot]
                == repatched(words[pending[i].addr as int][pending[i].slot], table[pending[i].name]),
        forall|a: int, j: int|
            0 <= a < words.len() && 0 <= j < 4 && !hit(pending, n as int, a, j) ==> #[trigger] resolve_patches(
                words,
                table,
                pending,
                n,
            )[a][j] == words[a][j],
    decreases n,
{
    if n > 0 {
        let m = (n - 1) as nat;
        lemma_resolve(words, table, pending, m);
        let prev = resolve_patches(words, table, pending, m);
        let now = resolve_patches(words, table, pending, n);
        let p = pending[m as int];
        let a = p.addr as int;
        assert(!hit(pending, m as int, a, p.slot)) by {
            if hit(pending, m as int, a, p.slot) {
                let i = choose|i: int| 0 <= i < m && (#[trigger] pending[i]).addr == a && pending[i].slot == p.slot;
                assert(pending[i].addr == pending[m as int].addr && pending[i].slot == pending[m as int].slot);
            }
        }
        assert(prev[a][p.slot] == words[a][p.slot]);
        assert forall|k: int| 0 <= k < words.len() implies (#[trigger] now[k]).len() == 4 by {
            if k == a {
            } else {
                assert(now[k] == prev[k]);
            }
        }
        assert forall|i: int| 0 <= i < n implies now[(#[trigger] pending[i]).addr as int][pending[i].slot]
            == repatched(words[pending[i].addr as int][pending[i].slot], table[pending[i].name]) by {
            if i < m {
                assert(!(pending[i].addr == pending[m as int].addr && pending[i].slot == pending[m as int].slot));
                if pending[i].addr as int == a {
                    assert(now[a] == prev[a].update(p.slot, now[a][p.slot]));
                }
            }
        }
        assert forall|b: int, j: int| 0 <= b < words.len() && 0 <= j < 4 && !hit(pending, n as int, b, j) implies #[trigger] now[b][j]
            == words[b][j] by {
            assert(!hit(pending, m as int, b, j)) by {
                if hit(pending, m as int, b, j) {
                    let i = choose|i: int| 0 <= i < m && (#[trigger] pending[i]).addr == b && pending[i].slot == j;
                    assert(hit(pending, n as int, b, j));
                }
            }
            assert(!(p.addr == b && p.slot == j)) by {
                if p.addr == b && p.slot == j {
                    assert(hit(pending, n as int, b, j));
                }
            }
        }
    }
}

/// Every pending reference is to a defined symbol when none is reported
/// undefined.
proof fn lemma_no_undefined(table: Map<Seq<char>, u16>, pending: Seq<PatchModel>, n: nat)
    requires
        n <= pending.len(),
        undefined_diags(table, pending, n).len() == 0,
    ensures
        forall|i: int| 0 <= i < n ==> table.contains_key((#[trigger] pending[i]).name),
    decreases n,
{
    if n > 0 {
        let m = (n - 1) as nat;
        assert(undefined_diags(table, pending, m).len() <= undefined_diags(table, pending, n).len());
        lemma_no_undefined(table, pending, m);
    }
}

// ─── Pass 1 ─────────────────────────────────────────────────────────────────

/// The forward references recorded for the first `n` moves of a cycle at
/// `addr`: one per move whose symbol `table` lacks, in slot order.
proof fn lemma_cycle_patches(table: Map<Seq<char>, u16>, addr: u16, moves: Seq<SlotM>, n: nat)
    requires
        n <= moves.len(),
    ensures
        forall|i: int|
            0 <= i < cycle_patches(table, addr, moves, n).len() ==> {
                let p = #[trigger] cycle_patches(table, addr, moves, n)[i];
                &&& p.addr == addr
                &&& 0 <= p.slot < n
                &&& unresolved(table, moves[p.slot])
                &&& moves[p.slot].src == SourceM::Imm(ImmM::Symbol(p.name))
            },
        forall|i: int, i2: int|
            0 <= i < i2 < cycle_patches(table, addr, moves, n).len() ==> (#[trigger] cycle_patches(
                table,
                addr,
                moves,
                n,
            )[i]).slot < (#[trigger] cycle_patches(table, addr, moves, n)[i2]).slot,
        forall|j: int|
            0 <= j < n && unresolved(table, #[trigger] moves[j]) ==> exists|i: int|
                0 <= i < cycle_patches(table, addr, moves, n).len() && (#[trigger] cycle_patches(
                    table,
                    addr,
                    moves,
                    n,
                )[i]).slot == j,
    decreases n,
{
    if n > 0 {
        let m = (n - 1) as nat;
        lemma_cycle_patches(table, addr, moves, m);
        let prev = cycle_patches(table, addr, moves, m);
        let now = cycle_patches(table, addr, moves, n);
        if unresolved(table, moves[m as int]) {
            assert(now == prev.push(
                PatchModel { addr, slot: m as int, name: super::symbol_name(moves[m as int]), span: moves[m as int].span },
            ));
            assert(now[prev.len() as int].slot == m);
        } else {
            assert(now == prev);
        }
        assert forall|j: int| 0 <= j < n && unresolved(table, #[trigger] moves[j]) implies exists|i: int|
            0 <= i < now.len() && (#[trigger] now[i]).slot == j by {
            if j < m {
                let i = choose|i: int| 0 <= i < prev.len() && (#[trigger] prev[i]).slot == j;
                assert(now[i] == prev[i]);
            } else {
                assert(now[prev.len() as int].slot == j);
            }
        }
    }
}

/// `small`'s symbols all have the same value in `big`.
pub open spec fn agrees(small: Map<Seq<char>, u16>, big: Map<Seq<char>, u16>) -> bool {
    forall|n: Seq<char>| #[trigger] small.contains_key(n) ==> big.contains_key(n) && big[n] == small[n]
}

/// A pending reference of pass-1 state `st` points at a symbol move of
/// cycle `cs[addr]`, whose word holds that move with data 0 for now.
pub open spec fn patch_ok(st: Pass1, cs: Seq<CycleM>, table: Map<Seq<char>, u16>, p: PatchModel) -> bool {
    &&& 0 <= p.addr < cs.len()
    &&& 0 <= p.slot < 4
    &&& p.slot < cs[p.addr as int].slots.len()
    &&& cs[p.addr as int].slots[p.slot].src == SourceM::Imm(ImmM::Symbol(p.name))
    &&& st.words[p.addr as int][p.slot] == repatched_data(word_for(table, cs[p.addr as int].slots)[p.slot], 0)
}

/// Slot `s` with immediate data `v`.
pub open spec fn repatched_data(s: Slot, v: u16) -> Slot {
    Slot { src_data: v, ..s }
}

/// Pass-1 state `st` for cycles `cs`: each slot is its move encoded under
/// `table`, except the slots awaiting a forward reference, which hold data
/// 0; pending references are distinct.
pub open spec fn consistent(st: Pass1, cs: Seq<CycleM>, table: Map<Seq<char>, u16>) -> bool {
    &&& st.words.len() == cs.len()
    &&& forall|k: int| 0 <= k < cs.len() ==> (#[trigger] st.words[k]).len() == 4
    &&& forall|i: int| 0 <= i < st.pending.len() ==> patch_ok(st, cs, table, #[trigger] st.pending[i])
    &&& unique_positions(st.pending)
    &&& forall|k: int, j: int|
        0 <= k < cs.len() && 0 <= j < 4 && !hit(st.pending, st.pending.len() as int, k, j)
            ==> #[trigger] st.words[k][j] == word_for(table, cs[k].slots)[j]
}

/// Encoding one more cycle keeps pass-1 state consistent, when the table
/// at that point agrees with `table`.
proof fn lemma_cycle_step(st: Pass1, cs: Seq<CycleM>, table: Map<Seq<char>, u16>, c: CycleM)
    requires
        consistent(st, cs, table),
        agrees(st.table, table),
        cs.len() < 0x10000,
    ensures
        consistent(super::encode_cycle_step(st, c), cs.push(c), table),
{
    let st2 = super::encode_cycle_step(st, c);
    let cs2 = cs.push(c);
    let a = cs.len() as int;
    let addr = st.words.len() as u16;
    assert(addr as int == a);
    let n: nat = if c.slots.len() < 4 { c.slots.len() } else { 4 };
    let cp = cycle_patches(st.table, addr, c.slots, n);
    lemma_cycle_patches(st.table, addr, c.slots, n);
    let w = word_for(st.table, c.slots);
    let e = word_for(table, c.slots);
    assert(st2.pending == st.pending + cp);
    assert(st2.words == st.words.push(w));
    // Old references.
    assert forall|i: int| 0 <= i < st2.pending.len() implies patch_ok(st2, cs2, table, #[trigger] st2.pending[i]) by {
        if i < st.pending.len() {
            assert(st2.pending[i] == st.pending[i]);
            assert(patch_ok(st, cs, table, st.pending[i]));
            assert(cs2[st.pending[i].addr as int] == cs[st.pending[i].addr as int]);
        } else {
            let p = cp[i - st.pending.len()];
            assert(st2.pending[i] == p);
            assert(cs2[a] == c);
            assert(st2.words[a] == w);
            let m = c.slots[p.slot];
            assert(unresolved(st.table, m));
            assert(w[p.slot] == slot_for(st.table, m));
            assert(e[p.slot] == slot_for(table, m));
        }
    }
    assert(unique_positions(st2.pending)) by {
        assert forall|i: int, i2: int|
            #![trigger st2.pending[i], st2.pending[i2]]
            0 <= i < i2 < st2.pending.len() implies !(st2.pending[i].addr == st2.pending[i2].addr
            && st2.pending[i].slot == st2.pending[i2].slot) by {
            if i2 < st.pending.len() {
                assert(st2.pending[i] == st.pending[i] && st2.pending[i2] == st.pending[i2]);
            } else if i < st.pending.len() {
                assert(st2.pending[i] == st.pending[i]);
                assert(patch_ok(st, cs, table, st.pending[i]));
                assert(st2.pending[i2] == cp[i2 - st.pending.len()]);
            } else {
                assert(st2.pending[i] == cp[i - st.pending.len()]);
                assert(st2.pending[i2] == cp[i2 - st.pending.len()]);
            }
        }
    }
    assert forall|k: int| 0 <= k < cs2.len() implies (#[trigger] st2.words[k]).len() == 4 by {
        if k < a {
            assert(st2.words[k] == st.words[k]);
        }
    }
    assert forall|k: int, j: int|
        0 <= k < cs2.len() && 0 <= j < 4 && !hit(st2.pending, st2.pending.len() as int, k, j) implies #[trigger] st2.words[k][j]
        == word_for(table, cs2[k].slots)[j] by {
        if k < a {
            assert(st2.words[k] == st.words[k]);
            assert(cs2[k] == cs[k]);
            assert(!hit(st.pending, st.pending.len() as int, k, j)) by {
                if hit(st.pending, st.pending.len() as int, k, j) {
                    let i = choose|i: int| 0 <= i < st.pending.len() && (#[trigger] st.pending[i]).addr == k && st.pending[i].slot == j;
                    assert(st2.pending[i] == st.pending[i]);
                    assert(hit(st2.pending, st2.pending.len() as int, k, j));
                }
            }
        } else {
            assert(k == a);
            assert(cs2[k] == c);
            assert(st2.words[k] == w);
            if j < c.slots.len() {
                let m = c.slots[j];
                assert(w[j] == slot_for(st.table, m));
                assert(e[j] == slot_for(table, m));
                if unresolved(st.table, m) {
                    assert(j < n);
                    let i = choose|i: int| 0 <= i < cp.len() && (#[trigger] cp[i]).slot == j;
                    assert(st2.pending[st.pending.len() + i] == cp[i]);
                    assert(hit(st2.pending, st2.pending.len() as int, k, j));
                }
            }
        }
    }
}

/// Pass-1 diagnostics only grow.
proof fn lemma_line_step_diags(st: Pass1, l: LineM)
    ensures
        st.diags.len() <= line_step(st, l).diags.len(),
        line_step(st, l).diags.len() == 0 ==> agrees(st.table, line_step(st, l).table),
{
    match l {
        LineM::Label { name, span, attached } => {
            let st1 = super::define_symbol(st, name, st.words.len() as u16, span);
            assert(st1.diags.len() <= line_step(st, l).diags.len());
            assert(st1.table == line_step(st, l).table);
        },
        _ => {},
    }
}

/// Over an error-free pass 1, the state is consistent with the final table.
proof fn lemma_pass1_consistent(lines: Seq<LineM>, table: Map<Seq<char>, u16>)
    requires
        pass1(lines).diags.len() == 0,
        agrees(pass1(lines).table, table),
        program_cycles(lines).len() <= 0x10000,
    ensures
        consistent(pass1(lines), program_cycles(lines), table),
    decreases lines.len(),
{
    if lines.len() > 0 {
        let prev_lines = lines.drop_last();
        let prev = pass1(prev_lines);
        let l = lines.last();
        lemma_line_step_diags(prev, l);
        assert(pass1(lines) == line_step(prev, l));
        assert(program_cycles(lines) == program_cycles(prev_lines) + line_cycles(l));
        lemma_pass1_consistent(prev_lines, table);
        match l {
            LineM::Cycle(c) => {
                lemma_cycle_step(prev, program_cycles(prev_lines), table, c);
                assert(program_cycles(lines) =~= program_cycles(prev_lines).push(c));
            },
            LineM::Label { name, span, attached } => {
                let st1 = super::define_symbol(prev, name, prev.words.len() as u16, span);
                match attached {
                    Some(c) => {
                        assert(st1.table == pass1(lines).table);
                        lemma_cycle_step(st1, program_cycles(prev_lines), table, c);
                        assert(program_cycles(lines) =~= program_cycles(prev_lines).push(c));
                    },
                    None => {
                        assert(program_cycles(lines) =~= program_cycles(prev_lines));
                    },
                }
            },
            _ => {
                assert(program_cycles(lines) =~= program_cycles(prev_lines));
            },
        }
    }
}

// ─── Socket names ───────────────────────────────────────────────────────────

/// Source names: a move's source written by name encodes to the socket
/// that the ISA gives that name (a register `rN` to socket `N`).
pub proof fn lemma_source_name_encodes(s: Seq<char>)
    ensures
        match source_named(s) {
            Some(SourceM::Gpr(n)) => source_socket(SourceM::Gpr(n)) == n && n < 16,
            Some(x) => src::isa_name(source_socket(x)) == ascii_lower(s),
            None => true,
        },
{
}

/// Every named source socket of the ISA can be written by its name, and
/// that name encodes to it.
pub proof fn lemma_isa_source_names_parse(k: u8)
    requires
        src::isa_name(k).len() > 0,
    ensures
        source_named(src::isa_name(k)) matches Some(x) && source_socket(x) == k,
{
    reveal_strlit("p0");
    reveal_strlit("alu_r");
    reveal_strlit("alu_p");
    reveal_strlit("lsu_r");
    reveal_strlit("mul_r");
    let t = src::isa_name(k);
    assert(ascii_lower(t) =~= t);
}

/// A name in small letters is its own small-letter form.
proof fn lemma_lower_name(t: Seq<char>)
    requires
        forall|i: int| 0 <= i < t.len() ==> !('A' <= #[trigger] t[i] <= 'Z'),
    ensures
        ascii_lower(t) == t,
{
    assert(ascii_lower(t) =~= t);
}

/// The decimal numeral of `n` is a non-empty string of decimal digits, not
/// starting with `+`, whose value is `n`.
proof fn lemma_decimal_numeral(n: nat)
    ensures
        decimal(n).len() > 0,
        all_decimal(decimal(n)),
        decimal(n)[0] != '+',
        decimal_value(decimal(n)) == n,
        forall|i: int| 0 <= i < decimal(n).len() ==> !('A' <= #[trigger] decimal(n)[i] <= 'Z'),
    decreases n,
{
    assert(digit_char(n % 10) as int == 48 + n % 10);
    if n < 10 {
        assert(decimal(n).drop_last() =~= Seq::<char>::empty());
        assert(decimal_value(decimal(n)) == decimal_value(Seq::<char>::empty()) * 10 + (n % 10));
    } else {
        lemma_decimal_numeral(n / 10);
        let d = decimal(n);
        let p = decimal(n / 10);
        assert(d == p.push(digit_char(n % 10)));
        assert(d.drop_last() =~= p);
        assert(d.last() == digit_char(n % 10));
        assert(decimal_value(d) == decimal_value(p) * 10 + (n % 10));
        assert((n / 10) * 10 + n % 10 == n);
        assert(d[0] == p[0]);
        assert forall|i: int| 0 <= i < d.len() implies '0' <= #[trigger] d[i] <= '9' by {
            if i < p.len() {
                assert(d[i] == p[i]);
            }
        }
    }
}

/// Register names: `r` followed by the decimal numeral of `n < 16` (in
/// either case, by `lemma_names_ignore_case`) names register `n` as a
/// source and as a destination, and encodes to socket `n`.
pub proof fn lemma_register_names(n: u8)
    requires
        n < 16,
    ensures
        source_named(seq!['r'] + decimal(n as nat)) == Some(SourceM::Gpr(n)),
        destination_named(seq!['r'] + decimal(n as nat)) == Some(Destination::Gpr(n)),
        source_socket(SourceM::Gpr(n)) == n,
        dest_socket(Destination::Gpr(n)) == n,
{
    lemma_decimal_numeral(n as nat);
    let d = decimal(n as nat);
    let t = seq!['r'] + d;
    assert(ascii_lower(t) =~= t) by {
        assert forall|i: int| 0 <= i < t.len() implies ascii_lower(t)[i] == t[i] by {
            if i > 0 {
                assert(t[i] == d[i - 1]);
            }
        }
    }
    assert(t.drop_first() =~= d);
    assert(gpr_number(t) == Some(n));
}

/// Destination names: a move's destination written by name encodes to the
/// socket that the ISA gives that name (a register `rN` to socket `N`).
pub proof fn lemma_destination_name_encodes(s: Seq<char>)
    ensures
        match destination_named(s) {
            Some(Destination::Gpr(n)) => dest_socket(Destination::Gpr(n)) == n && n < 16,
            Some(d) => dst::isa_name(dest_socket(d)) == ascii_lower(s),
            None => true,
        },
{
}

/// Every destination socket of the ISA other than the registers can be
/// written by its name, and that name encodes to it.
pub proof fn lemma_isa_destination_names_parse(k: u8)
    requires
        dst::isa_name(k).len() > 0,
    ensures
        destination_named(dst::isa_name(k)) matches Some(d) && dest_socket(d) == k,
{
    reveal_strlit("p0");
    reveal_strlit("alu_a");
    reveal_strlit("alu_add_t");
    reveal_strlit("alu_sub_t");
    reveal_strlit("alu_and_t");
    reveal_strlit("alu_or_t");
    reveal_strlit("alu_xor_t");
    reveal_strlit("alu_shl_t");
    reveal_strlit("alu_shr_t");
    reveal_strlit("alu_sshr_t");
    reveal_strlit("alu_eq_t");
    reveal_strlit("alu_ne_t");
    reveal_strlit("alu_lt_t");
    reveal_strlit("alu_le_t");
    reveal_strlit("alu_gt_t");
    reveal_strlit("alu_ge_t");
    reveal_strlit("lsu_ld_t");
    reveal_strlit("lsu_st_a");
    reveal_strlit("lsu_st_t");
    reveal_strlit("gcu_jmp_t");
    reveal_strlit("discard");
    reveal_strlit("mul_a");
    reveal_strlit("mul_t");
    if k == 16 {
        lemma_lower_name("p0"@);
        assert(destination_named("p0"@) == Some(Destination::BrfP0));
    } else if k == 17 {
        lemma_lower_name("alu_a"@);
        assert(destination_named("alu_a"@) == Some(Destination::AluA));
    } else if k == 18 {
        lemma_lower_name("alu_add_t"@);
        assert(destination_named("alu_add_t"@) == Some(Destination::AluAddT));
    } else if k == 19 {
        lemma_lower_name("alu_sub_t"@);
        assert("alu_sub_t"@[4] != "alu_add_t"@[4]);
        assert(destination_named("alu_sub_t"@) == Some(Destination::AluSubT));
    } else if k == 20 {
        lemma_lower_name("alu_and_t"@);
        assert("alu_and_t"@[5] != "alu_add_t"@[5]);
        assert("alu_and_t"@[4] != "alu_sub_t"@[4]);
        assert(destination_named("alu_and_t"@) == Some(Destination::AluAndT));
    } else if k == 21 {
        lemma_lower_name("alu_or_t"@);
        assert(destination_named("alu_or_t"@) == Some(Destination::AluOrT));
    } else if k == 22 {
        lemma_lower_name("alu_xor_t"@);
        assert("alu_xor_t"@[4] != "alu_add_t"@[4]);
        assert("alu_xor_t"@[4] != "alu_sub_t"@[4]);
        assert("alu_xor_t"@[4] != "alu_and_t"@[4]);
        assert(destination_named("alu_xor_t"@) == Some(Destination::AluXorT));
    } else if k == 23 {
        lemma_lower_name("alu_shl_t"@);
        assert("alu_shl_t"@[4] != "alu_add_t"@[4]);
        assert("alu_shl_t"@[5] != "alu_sub_t"@[5]);
        assert("alu_shl_t"@[4] != "alu_and_t"@[4]);
        assert("alu_shl_t"@[4] != "alu_xor_t"@[4]);
        assert(destination_named("alu_shl_t"@) == Some(Destination::AluShlT));
    } else if k == 24 {
        lemma_lower_name("alu_shr_t"@);
        assert("alu_shr_t"@[4] != "alu_add_t"@[4]);
        assert("alu_shr_t"@[5] != "alu_sub_t"@[5]);
        assert("alu_shr_t"@[4] != "alu_and_t"@[4]);
        assert("alu_shr_t"@[4] != "alu_xor_t"@[4]);
        assert("alu_shr_t"@[6] != "alu_shl_t"@[6]);
        assert(destination_named("alu_shr_t"@) == Some(Destination::AluShrT));
    } else if k == 25 {
        lemma_lower_name("alu_sshr_t"@);
        assert(destination_named("alu_sshr_t"@) == Some(Destination::AluSshrT));
    } else if k == 26 {
        lemma_lower_name("alu_eq_t"@);
        assert("alu_eq_t"@[4] != "alu_or_t"@[4]);
        assert(destination_named("alu_eq_t"@) == Some(Destination::AluEqT));
    } else if k == 27 {
        lemma_lower_name("alu_ne_t"@);
        assert("alu_ne_t"@[4] != "alu_or_t"@[4]);
        assert("alu_ne_t"@[4] != "alu_eq_t"@[4]);
        assert(destination_named("alu_ne_t"@) == Some(Destination::AluNeT));
    } else if k == 28 {
        lemma_lower_name("alu_lt_t"@);
        assert("alu_lt_t"@[4] != "alu_or_t"@[4]);
        assert("alu_lt_t"@[4] != "alu_eq_t"@[4]);
        assert("alu_lt_t"@[4] != "alu_ne_t"@[4]);
        assert(destination_named("alu_lt_t"@) == Some(Destination::AluLtT));
    } else if k == 29 {
        lemma_lower_name("alu_le_t"@);
        assert("alu_le_t"@[4] != "alu_or_t"@[4]);
        assert("alu_le_t"@[4] != "alu_eq_t"@[4]);
        assert("alu_le_t"@[4] != "alu_ne_t"@[4]);
        assert("alu_le_t"@[5] != "alu_lt_t"@[5]);
        assert(destination_named("alu_le_t"@) == Some(Destination::AluLeT));
    } else if k == 30 {
        lemma_lower_name("alu_gt_t"@);
        assert("alu_gt_t"@[4] != "alu_or_t"@[4]);
        assert("alu_gt_t"@[4] != "alu_eq_t"@[4]);
        assert("alu_gt_t"@[4] != "alu_ne_t"@[4]);
        assert("alu_gt_t"@[4] != "alu_lt_t"@[4]);
        assert("alu_gt_t"@[4] != "alu_le_t"@[4]);
        assert(destination_named("alu_gt_t"@) == Some(Destination::AluGtT));
    } else if k == 31 {
        lemma_lower_name("alu_ge_t"@);
        assert("alu_ge_t"@[4] != "alu_or_t"@[4]);
        assert("alu_ge_t"@[4] != "alu_eq_t"@[4]);
        assert("alu_ge_t"@[4] != "alu_ne_t"@[4]);
        assert("alu_ge_t"@[4] != "alu_lt_t"@[4]);
        assert("alu_ge_t"@[4] != "alu_le_t"@[4]);
        assert("alu_ge_t"@[5] != "alu_gt_t"@[5]);
        assert(destination_named("alu_ge_t"@) == Some(Destination::AluGeT));
    } else if k == 32 {
        lemma_lower_name("lsu_ld_t"@);
        assert("lsu_ld_t"@[0] != "alu_or_t"@[0]);
        assert("lsu_ld_t"@[0] != "alu_eq_t"@[0]);
        assert("lsu_ld_t"@[0] != "alu_ne_t"@[0]);
        assert("lsu_ld_t"@[0] != "alu_lt_t"@[0]);
        assert("lsu_ld_t"@[0] != "alu_le_t"@[0]);
        assert("lsu_ld_t"@[0] != "alu_gt_t"@[0]);
        assert("lsu_ld_t"@[0] != "alu_ge_t"@[0]);
        assert(destination_named("lsu_ld_t"@) == Some(Destination::LsuLdT));
    } else if k == 33 {
        lemma_lower_name("lsu_st_a"@);
        assert("lsu_st_a"@[0] != "alu_or_t"@[0]);
        assert("lsu_st_a"@[0] != "alu_eq_t"@[0]);
        assert("lsu_st_a"@[0] != "alu_ne_t"@[0]);
        assert("lsu_st_a"@[0] != "alu_lt_t"@[0]);
        assert("lsu_st_a"@[0] != "alu_le_t"@[0]);
        assert("lsu_st_a"@[0] != "alu_gt_t"@[0]);
        assert("lsu_st_a"@[0] != "alu_ge_t"@[0]);
        assert("lsu_st_a"@[4] != "lsu_ld_t"@[4]);
        assert(destination_named("lsu_st_a"@) == Some(Destination::LsuStA));
    } else if k == 34 {
        lemma_lower_name("lsu_st_t"@);
        assert("lsu_st_t"@[0] != "alu_or_t"@[0]);
        assert("lsu_st_t"@[0] != "alu_eq_t"@[0]);
        assert("lsu_st_t"@[0] != "alu_ne_t"@[0]);
        assert("lsu_st_t"@[0] != "alu_lt_t"@[0]);
        assert("lsu_st_t"@[0] != "alu_le_t"@[0]);
        assert("lsu_st_t"@[0] != "alu_gt_t"@[0]);
        assert("lsu_st_t"@[0] != "alu_ge_t"@[0]);
        assert("lsu_st_t"@[4] != "lsu_ld_t"@[4]);
        assert("lsu_st_t"@[7] != "lsu_st_a"@[7]);
        assert(destination_named("lsu_st_t"@) == Some(Destination::LsuStT));
    } else if k == 35 {
        lemma_lower_name("gcu_jmp_t"@);
        assert("gcu_jmp_t"@[0] != "alu_add_t"@[0]);
        assert("gcu_jmp_t"@[0] != "alu_sub_t"@[0]);
        assert("gcu_jmp_t"@[0] != "alu_and_t"@[0]);
        assert("gcu_jmp_t"@[0] != "alu_xor_t"@[0]);
        assert("gcu_jmp_t"@[0] != "alu_shl_t"@[0]);
        assert("gcu_jmp_t"@[0] != "alu_shr_t"@[0]);
        assert(destination_named("gcu_jmp_t"@) == Some(Destination::GcuJmpT));
    } else if k == 36 {
        lemma_lower_name("discard"@);
        assert(destination_named("discard"@) == Some(Destination::Discard));
    } else if k == 37 {
        lemma_lower_name("mul_a"@);
        assert("mul_a"@[0] != "alu_a"@[0]);
        assert(destination_named("mul_a"@) == Some(Destination::MulA));
    } else if k == 38 {
        lemma_lower_name("mul_t"@);
        assert("mul_t"@[0] != "alu_a"@[0]);
        assert("mul_t"@[4] != "mul_a"@[4]);
        assert(destination_named("mul_t"@) == Some(Destination::MulT));
    }
}

/// A destination that a program can name is a register `r0`..`r15` or one
/// of the ISA's other destinations.
pub open spec fn destination_valid(d: Destination) -> bool {
    d matches Destination::Gpr(n) ==> n < 16
}

/// Distinct destinations encode to distinct sockets.
pub proof fn lemma_dest_socket_injective(d1: Destination, d2: Destination)
    requires
        destination_valid(d1),
        destination_valid(d2),
        d1 != d2,
    ensures
        dest_socket(d1) != dest_socket(d2),
{
}

/// The functional unit a move's destination triggers, as the machine runs
/// it: unit 1 for every ALU arithmetic or compare trigger (`ALU_*_T`), unit 2
/// for the load and store triggers, unit 3 for the multiply trigger, unit 4
/// for the jump, and none (0) for registers, `P0`, operand ports and
/// `DISCARD`. The one-trigger-per-unit rules (V2–V5) count these.
pub proof fn lemma_trigger_units(d: Destination)
    requires
        destination_valid(d),
    ensures
        (trigger_unit(d) == 1) == (alu_arith_trigger(dest_socket(d)) || alu_compare_trigger(dest_socket(d))),
        (trigger_unit(d) == 2) == (dest_socket(d) == dst::LSU_LD_T || dest_socket(d) == dst::LSU_ST_T),
        (trigger_unit(d) == 3) == (dest_socket(d) == dst::MUL_T),
        (trigger_unit(d) == 4) == (dest_socket(d) == dst::GCU_JMP_T),
        trigger_unit(d) <= 4,
{
}

// ─── Word count ─────────────────────────────────────────────────────────────

/// The forward references of one cycle all point at its own word, at one of
/// the first `n` slots.
proof fn lemma_cycle_patches_at(table: Map<Seq<char>, u16>, addr: u16, moves: Seq<SlotM>, n: nat)
    ensures
        forall|i: int|
            0 <= i < cycle_patches(table, addr, moves, n).len() ==> (#[trigger] cycle_patches(table, addr, moves, n)[i]).addr
                == addr && 0 <= cycle_patches(table, addr, moves, n)[i].slot < n,
    decreases n,
{
    if n > 0 {
        let prev = cycle_patches(table, addr, moves, (n - 1) as nat);
        lemma_cycle_patches_at(table, addr, moves, (n - 1) as nat);
        let cp = cycle_patches(table, addr, moves, n);
        assert forall|i: int| 0 <= i < cp.len() implies (#[trigger] cp[i]).addr == addr && 0 <= cp[i].slot < n by {
            if i < prev.len() {
                assert(cp[i] == prev[i]);
            }
        }
    }
}

/// Pass 1's forward references point inside the words it made.
proof fn lemma_pass1_patches_in_range(lines: Seq<LineM>)
    ensures
        forall|i: int|
            0 <= i < pass1(lines).pending.len() ==> (#[trigger] pass1(lines).pending[i]).addr
                < pass1(lines).words.len(),
    decreases lines.len(),
{
    if lines.len() > 0 {
        let prev = pass1(lines.drop_last());
        lemma_pass1_patches_in_range(lines.drop_last());
        let l = lines.last();
        let st1 = match l {
            LineM::Label { name, span, .. } => define_symbol(prev, name, prev.words.len() as u16, span),
            LineM::Equ { name, value, span } => define_symbol(prev, name, value, span),
            _ => prev,
        };
        let c_opt: Option<CycleM> = match l {
            LineM::Label { attached, .. } => attached,
            LineM::Cycle(c) => Some(c),
            _ => None,
        };
        if let Some(c) = c_opt {
            let addr = st1.words.len() as u16;
            let n: nat = if c.slots.len() < 4 { c.slots.len() } else { 4 };
            lemma_cycle_patches_at(st1.table, addr, c.slots, n);
            assert(addr <= st1.words.len()) by {
                if st1.words.len() < 0x10000 {
                    assert(addr == st1.words.len());
                }
            }
            let cp = cycle_patches(st1.table, addr, c.slots, n);
            let st2 = encode_cycle_step(st1, c);
            assert(pass1(lines) == st2);
            assert forall|i: int| 0 <= i < st2.pending.len() implies (#[trigger] st2.pending[i]).addr
                < st2.words.len() by {
                if i >= st1.pending.len() {
                    assert(st2.pending[i] == cp[i - st1.pending.len()]);
                } else {
                    assert(st2.pending[i] == st1.pending[i]);
                }
            }
        } else {
            assert(pass1(lines) == st1);
        }
    }
}

/// Resolving references that point inside the words keeps the word count.
proof fn lemma_resolve_keeps_len(words: Seq<Seq<Slot>>, table: Map<Seq<char>, u16>, pending: Seq<PatchModel>, n: nat)
    requires
        n <= pending.len(),
        forall|i: int| 0 <= i < pending.len() ==> (#[trigger] pending[i]).addr < words.len(),
    ensures
        resolve_patches(words, table, pending, n).len() == words.len(),
    decreases n,
{
    if n > 0 {
        lemma_resolve_keeps_len(words, table, pending, (n - 1) as nat);
        assert(pending[n - 1].addr < words.len());
    }
}

/// Word count: encoding makes exactly one word for each cycle of the
/// program, whatever the program and whatever errors it has.
pub proof fn lemma_word_count(lines: Seq<LineM>)
    ensures
        encoded_words(lines).len() == program_cycles(lines).len(),
{
    let p = pass1(lines);
    lemma_pass1_words_and_symbols(lines);
    lemma_pass1_patches_in_range(lines);
    lemma_resolve_keeps_len(p.words, p.table, p.pending, p.pending.len());
}

// ─── The law ────────────────────────────────────────────────────────────────

/// A move's sockets fit their fields in the slot encoding.
pub open spec fn move_fits(m: SlotM) -> bool {
    source_socket(m.src) < 32 && dest_socket(m.dst) < 64
}

/// Every move of every cycle of the program fits the slot encoding.
pub open spec fn program_fits(lines: Seq<LineM>) -> bool {
    forall|k: int, j: int|
        0 <= k < program_cycles(lines).len() && 0 <= j < program_cycles(lines)[k].slots.len() ==> move_fits(
            #[trigger] program_cycles(lines)[k].slots[j],
        )
}

/// When encoding raises no error, the program's `k`-th cycle becomes the
/// `k`-th word, encoded under the program's final symbol table: a symbol
/// defined after its use resolves exactly as one defined before it, and
/// unused slots hold NOPs. (Programs of at most 65536 words, whose moves
/// fit the slot encoding.)
pub proof fn lemma_encoding_resolves_symbols(lines: Seq<LineM>)
    requires
        encode_diags(lines).len() == 0,
        program_cycles(lines).len() <= 0x10000,
        program_fits(lines),
    ensures
        encoded_words(lines).len() == program_cycles(lines).len(),
        forall|k: int|
            0 <= k < encoded_words(lines).len() ==> #[trigger] encoded_words(lines)[k] == word_for(
                program_symbols(lines),
                program_cycles(lines)[k].slots,
            ),
{
    let p = pass1(lines);
    let cs = program_cycles(lines);
    lemma_pass1_words_and_symbols(lines);
    let table = p.table;
    assert(p.diags.len() == 0 && undefined_diags(table, p.pending, p.pending.len()).len() == 0) by {
        assert(encode_diags(lines) == p.diags + undefined_diags(table, p.pending, p.pending.len()));
    }
    lemma_pass1_consistent(lines, table);
    lemma_no_undefined(table, p.pending, p.pending.len());
    assert forall|i: int| 0 <= i < p.pending.len() implies (#[trigger] p.pending[i]).addr < p.words.len()
        && 0 <= p.pending[i].slot < 4 && table.contains_key(p.pending[i].name) by {
        assert(patch_ok(p, cs, table, p.pending[i]));
    }
    lemma_resolve(p.words, table, p.pending, p.pending.len());
    let r = encoded_words(lines);
    assert forall|k: int| 0 <= k < r.len() implies #[trigger] r[k] == word_for(table, cs[k].slots) by {
        let e = word_for(table, cs[k].slots);
        assert forall|j: int| 0 <= j < 4 implies r[k][j] == e[j] by {
            if hit(p.pending, p.pending.len() as int, k, j) {
                let i = choose|i: int| 0 <= i < p.pending.len() && (#[trigger] p.pending[i]).addr == k && p.pending[i].slot == j;
                let q = p.pending[i];
                assert(patch_ok(p, cs, table, q));
                let m = cs[k].slots[j];
                assert(move_fits(m));
                assert(e[j] == slot_for(table, m));
                let held = repatched_data(e[j], 0);
                assert(held.fits());
                lemma_slot_round_trip(held);
                assert(r[k][j] == repatched(p.words[k][j], table[q.name]));
            }
        }
        assert(r[k] =~= e);
    }
}

// ─── Symbols ────────────────────────────────────────────────────────────────

/// Line `l` defines symbol `name` (as a label or an `.equ`).
pub open spec fn defines(l: LineM, name: Seq<char>) -> bool {
    match l {
        LineM::Equ { name: n, .. } => n == name,
        LineM::Label { name: n, .. } => n == name,
        _ => false,
    }
}

/// The value line `i` gives its symbol: an `.equ`'s value, or for a label
/// the address of the next word, the number of words before it.
pub open spec fn definition_value(lines: Seq<LineM>, i: int) -> u16 {
    match lines[i] {
        LineM::Equ { value, .. } => value,
        _ => program_cycles(lines.take(i)).len() as u16,
    }
}

/// A symbol defined once has the value its definition gives: a label
/// stands for the address of the word that follows it.
pub proof fn lemma_definition_value(lines: Seq<LineM>, i: int, name: Seq<char>)
    requires
        0 <= i < lines.len(),
        defines(lines[i], name),
        forall|j: int| 0 <= j < lines.len() && j != i ==> !defines(#[trigger] lines[j], name),
    ensures
        program_symbols(lines).contains_key(name),
        program_symbols(lines)[name] == definition_value(lines, i),
    decreases lines.len(),
{
    let prev = lines.drop_last();
    if lines.len() == i + 1 {
        assert(prev =~= lines.take(i));
    } else {
        assert(!defines(lines[lines.len() - 1], name));
        assert forall|j: int| 0 <= j < prev.len() && j != i implies !defines(#[trigger] prev[j], name) by {
            assert(prev[j] == lines[j]);
        }
        lemma_definition_value(prev, i, name);
        assert(prev.take(i) =~= lines.take(i));
    }
}

/// A symbol defined by some line is in the program's table.
proof fn lemma_defined_in_table(lines: Seq<LineM>, i: int, name: Seq<char>)
    requires
        0 <= i < lines.len(),
        defines(lines[i], name),
    ensures
        program_symbols(lines).contains_key(name),
    decreases lines.len(),
{
    if i < lines.len() - 1 {
        lemma_defined_in_table(lines.drop_last(), i, name);
    }
}

// ─── Rejection ──────────────────────────────────────────────────────────────

/// Pass-1 diagnostics of a prefix are no more than those of the program.
proof fn lemma_prefix_diags(lines: Seq<LineM>, m: int)
    requires
        0 <= m <= lines.len(),
    ensures
        pass1(lines.take(m)).diags.len() <= pass1(lines).diags.len(),
    decreases lines.len() - m,
{
    if m < lines.len() {
        lemma_prefix_diags(lines, m + 1);
        assert(lines.take(m + 1).drop_last() =~= lines.take(m));
        lemma_line_step_diags(pass1(lines.take(m)), lines[m]);
    } else {
        assert(lines.take(m) =~= lines);
    }
}

/// V10: a name defined twice makes encoding fail.
pub proof fn lemma_duplicate_definition_rejected(lines: Seq<LineM>, i: int, j: int, name: Seq<char>)
    requires
        0 <= i < j < lines.len(),
        defines(lines[i], name),
        defines(lines[j], name),
    ensures
        encode_diags(lines).len() > 0,
{
    let pre = lines.take(j);
    assert(pre[i] == lines[i]);
    lemma_defined_in_table(pre, i, name);
    lemma_pass1_words_and_symbols(pre);
    let st = pass1(pre);
    assert(lines.take(j + 1).drop_last() =~= pre);
    assert(pass1(lines.take(j + 1)) == line_step(st, lines[j]));
    match lines[j] {
        LineM::Label { name: n, span, attached } => {
            let st1 = super::define_symbol(st, n, st.words.len() as u16, span);
            assert(st1.diags.len() > 0);
            lemma_line_step_diags(st, lines[j]);
            assert(line_step(st, lines[j]).diags.len() > 0) by {
                match attached {
                    Some(c) => {
                        assert(line_step(st, lines[j]).diags == st1.diags + cycle_diags(c));
                    },
                    None => {},
                }
            }
        },
        _ => {},
    }
    lemma_prefix_diags(lines, j + 1);
}

/// The cycle `line` contributes makes the pass-1 diagnostics include its
/// own.
proof fn lemma_cycle_diags_reported(st: Pass1, l: LineM, c: CycleM)
    requires
        line_cycles(l) == seq![c],
    ensures
        line_step(st, l).diags.len() >= cycle_diags(c).len(),
{
    match l {
        LineM::Cycle(c2) => {
            assert(seq![c2][0] == c);
        },
        LineM::Label { name, span, attached } => {
            match attached {
                Some(c2) => {
                    assert(seq![c2][0] == c);
                },
                None => {
                    assert(Seq::<CycleM>::empty().len() == 0);
                },
            }
        },
        _ => {
            assert(Seq::<CycleM>::empty().len() == 0);
        },
    }
}

/// A cycle with a diagnostic of its own makes pass 1 report an error.
proof fn lemma_invalid_cycle_in_pass1(lines: Seq<LineM>, k: int)
    requires
        0 <= k < program_cycles(lines).len(),
        cycle_diags(program_cycles(lines)[k]).len() > 0,
    ensures
        pass1(lines).diags.len() > 0,
    decreases lines.len(),
{
    let prev = lines.drop_last();
    let l = lines.last();
    assert(program_cycles(lines) == program_cycles(prev) + line_cycles(l));
    lemma_line_step_diags(pass1(prev), l);
    if k < program_cycles(prev).len() {
        lemma_invalid_cycle_in_pass1(prev, k);
    } else {
        let c = program_cycles(lines)[k];
        assert(line_cycles(l).len() == 1 && line_cycles(l)[0] == c);
        assert(line_cycles(l) =~= seq![c]);
        lemma_cycle_diags_reported(pass1(prev), l, c);
    }
}

/// V1..V6: a cycle with a diagnostic of its own makes encoding fail.
pub proof fn lemma_invalid_cycle_rejected(lines: Seq<LineM>, k: int)
    requires
        0 <= k < program_cycles(lines).len(),
        cycle_diags(program_cycles(lines)[k]).len() > 0,
    ensures
        encode_diags(lines).len() > 0,
{
    lemma_invalid_cycle_in_pass1(lines, k);
}

/// The table only gains names as lines are added.
proof fn lemma_symbols_grow(lines: Seq<LineM>, name: Seq<char>)
    requires
        lines.len() > 0,
        program_symbols(lines.drop_last()).contains_key(name),
    ensures
        program_symbols(lines).contains_key(name),
{
}

/// A symbol move among the first four of a cycle, to a symbol the program
/// never defines, leaves a pending reference to it.
proof fn lemma_reference_pending(lines: Seq<LineM>, k: int, j: int, name: Seq<char>)
    requires
        0 <= k < program_cycles(lines).len(),
        0 <= j < program_cycles(lines)[k].slots.len(),
        j < 4,
        program_cycles(lines)[k].slots[j].src == SourceM::Imm(ImmM::Symbol(name)),
        !program_symbols(lines).contains_key(name),
    ensures
        exists|i: int| 0 <= i < pass1(lines).pending.len() && (#[trigger] pass1(lines).pending[i]).name == name,
    decreases lines.len(),
{
    let prev = lines.drop_last();
    let l = lines.last();
    let st = pass1(prev);
    assert(program_cycles(lines) == program_cycles(prev) + line_cycles(l));
    assert(!program_symbols(prev).contains_key(name)) by {
        if program_symbols(prev).contains_key(name) {
            lemma_symbols_grow(lines, name);
        }
    }
    lemma_pass1_words_and_symbols(prev);
    lemma_pass1_words_and_symbols(lines);
    // The pending references of `prev` stay, in place.
    let grown = pass1(lines).pending;
    let (st_enc, c_opt): (Pass1, Option<CycleM>) = match l {
        LineM::Cycle(c) => (st, Some(c)),
        LineM::Label { name: n, span, attached } => (super::define_symbol(st, n, st.words.len() as u16, span), attached),
        LineM::Equ { name: n, value, span } => (super::define_symbol(st, n, value, span), None),
        LineM::Empty => (st, None),
    };
    match c_opt {
        Some(c) => {
            assert(pass1(lines) == super::encode_cycle_step(st_enc, c));
            assert(st_enc.pending == st.pending);
            assert(line_cycles(l) =~= seq![c]);
            let n: nat = if c.slots.len() < 4 { c.slots.len() } else { 4 };
            let addr = st_enc.words.len() as u16;
            let cp = cycle_patches(st_enc.table, addr, c.slots, n);
            assert(grown == st.pending + cp);
            if k < program_cycles(prev).len() {
                lemma_reference_pending(prev, k, j, name);
                let i = choose|i: int| 0 <= i < st.pending.len() && (#[trigger] st.pending[i]).name == name;
                assert(grown[i] == st.pending[i]);
            } else {
                assert(program_cycles(lines)[k] == c);
                assert(st_enc.table == program_symbols(lines) || st_enc.table == program_symbols(prev));
                assert(unresolved(st_enc.table, c.slots[j]));
                lemma_cycle_patches(st_enc.table, addr, c.slots, n);
                let i = choose|i: int| 0 <= i < cp.len() && (#[trigger] cp[i]).slot == j;
                assert(grown[st.pending.len() + i] == cp[i]);
                assert(grown[st.pending.len() + i].name == name);
            }
        },
        None => {
            assert(line_cycles(l) =~= Seq::<CycleM>::empty());
            assert(grown == st.pending);
            lemma_reference_pending(prev, k, j, name);
        },
    }
}

/// V9: a reference to a symbol the program never defines makes encoding
/// fail.
pub proof fn lemma_undefined_reference_rejected(lines: Seq<LineM>, k: int, j: int, name: Seq<char>)
    requires
        0 <= k < program_cycles(lines).len(),
        0 <= j < program_cycles(lines)[k].slots.len(),
        program_cycles(lines)[k].slots[j].src == SourceM::Imm(ImmM::Symbol(name)),
        !program_symbols(lines).contains_key(name),
    ensures
        encode_diags(lines).len() > 0,
{
    let c = program_cycles(lines)[k];
    if c.slots.len() > 4 {
        assert(cycle_diags(c).len() > 0);
        lemma_invalid_cycle_rejected(lines, k);
    } else {
        lemma_reference_pending(lines, k, j, name);
        lemma_pass1_words_and_symbols(lines);
        let p = pass1(lines);
        if undefined_diags(p.table, p.pending, p.pending.len()).len() == 0 {
            lemma_no_undefined(p.table, p.pending, p.pending.len());
            let i = choose|i: int| 0 <= i < p.pending.len() && (#[trigger] p.pending[i]).name == name;
            assert(p.table.contains_key(p.pending[i].name));
        }
    }
}

// ─── The rules of one cycle ─────────────────────────────────────────────────

/// A cycle breaks a rule: more than four moves (V6), two writes to one
/// destination (V1), or two triggers of one functional unit (V2..V5).
pub open spec fn cycle_violates(c: CycleM) -> bool {
    ||| c.slots.len() > 4
    ||| exists|j: int| 0 <= j < c.slots.len() && #[trigger] writes_earlier_destination(c.slots, j)
    ||| exists|u: nat| 1 <= u <= 4 && #[trigger] trigger_count(c.slots, c.slots.len(), u) > 1
}

proof fn lemma_duplicate_destination_diags(moves: Seq<SlotM>, n: nat)
    requires
        n <= moves.len(),
    ensures
        duplicate_destination_diags(moves, n).len() > 0 <==> exists|j: int|
            0 <= j < n && #[trigger] writes_earlier_destination(moves, j),
    decreases n,
{
    if n > 0 {
        lemma_duplicate_destination_diags(moves, (n - 1) as nat);
        if duplicate_destination_diags(moves, n).len() > 0 && !writes_earlier_destination(moves, n - 1) {
            let j = choose|j: int| 0 <= j < n - 1 && #[trigger] writes_earlier_destination(moves, j);
            assert(0 <= j < n);
        }
    }
}

/// A cycle has diagnostics of its own exactly when it breaks a rule.
pub proof fn lemma_cycle_diags_iff(c: CycleM)
    ensures
        cycle_diags(c).len() > 0 <==> cycle_violates(c),
{
    let n = c.slots.len();
    lemma_duplicate_destination_diags(c.slots, n);
    if cycle_violates(c) && !(n > 4) && !(exists|j: int| 0 <= j < n && #[trigger] writes_earlier_destination(c.slots, j)) {
        let u = choose|u: nat| 1 <= u <= 4 && #[trigger] trigger_count(c.slots, n, u) > 1;
        assert(u == 1 || u == 2 || u == 3 || u == 4);
    }
    if !cycle_violates(c) {
        assert(trigger_count(c.slots, n, 1) <= 1);
        assert(trigger_count(c.slots, n, 2) <= 1);
        assert(trigger_count(c.slots, n, 3) <= 1);
        assert(trigger_count(c.slots, n, 4) <= 1);
    }
}

proof fn lemma_trigger_count_one(moves: Seq<SlotM>, n: nat, u: nat, i: int)
    requires
        0 <= i < n <= moves.len(),
        trigger_unit(moves[i].dst) == u,
    ensures
        trigger_count(moves, n, u) >= 1,
    decreases n,
{
    if i < n - 1 {
        lemma_trigger_count_one(moves, (n - 1) as nat, u, i);
    }
}

proof fn lemma_trigger_count_two(moves: Seq<SlotM>, n: nat, u: nat, i: int, j: int)
    requires
        0 <= i < j < n <= moves.len(),
        trigger_unit(moves[i].dst) == u,
        trigger_unit(moves[j].dst) == u,
    ensures
        trigger_count(moves, n, u) >= 2,
    decreases n,
{
    if j == n - 1 {
        lemma_trigger_count_one(moves, (n - 1) as nat, u, i);
    } else {
        lemma_trigger_count_two(moves, (n - 1) as nat, u, i, j);
    }
}

/// One ALU trigger per cycle (V2): a cycle in which two moves write ALU
/// arithmetic or compare triggers (any two `ALU_*_T` sockets, equal or not)
/// is rejected with the ALU message.
pub proof fn lemma_two_alu_triggers_rejected(c: CycleM, i: int, j: int)
    requires
        0 <= i < j < c.slots.len(),
        destination_valid(c.slots[i].dst),
        destination_valid(c.slots[j].dst),
        alu_arith_trigger(dest_socket(c.slots[i].dst)) || alu_compare_trigger(dest_socket(c.slots[i].dst)),
        alu_arith_trigger(dest_socket(c.slots[j].dst)) || alu_compare_trigger(dest_socket(c.slots[j].dst)),
    ensures
        excess_trigger_diag(c, 1, super::msg_two_alu()) == seq![(super::msg_two_alu(), c.span)],
        cycle_diags(c).len() > 0,
{
    lemma_trigger_units(c.slots[i].dst);
    lemma_trigger_units(c.slots[j].dst);
    lemma_trigger_count_two(c.slots, c.slots.len(), 1, i, j);
    lemma_cycle_diags_iff(c);
    assert(1 <= 1nat <= 4 && trigger_count(c.slots, c.slots.len(), 1nat) > 1);
}

/// A cycle with two moves that trigger the same functional unit is rejected
/// (V2–V5), with that unit's message.
pub proof fn lemma_two_triggers_of_one_unit_rejected(c: CycleM, i: int, j: int, u: nat, msg: Seq<char>)
    requires
        0 <= i < j < c.slots.len(),
        1 <= u <= 4,
        trigger_unit(c.slots[i].dst) == u,
        trigger_unit(c.slots[j].dst) == u,
    ensures
        excess_trigger_diag(c, u, msg) == seq![(msg, c.span)],
        cycle_diags(c).len() > 0,
{
    lemma_trigger_count_two(c.slots, c.slots.len(), u, i, j);
    lemma_cycle_diags_iff(c);
}

/// Two writes to one destination in a cycle are rejected (V1).
pub proof fn lemma_same_destination_rejected(c: CycleM, i: int, j: int)
    requires
        0 <= i < j < c.slots.len(),
        c.slots[i].dst == c.slots[j].dst,
    ensures
        cycle_diags(c).len() > 0,
{
    assert(writes_earlier_destination(c.slots, j));
    lemma_cycle_diags_iff(c);
}

/// More than four moves in a cycle are rejected (V6).
pub proof fn lemma_too_many_moves_rejected(c: CycleM)
    requires
        c.slots.len() > 4,
    ensures
        cycle_diags(c).len() > 0,
{
    lemma_cycle_diags_iff(c);
}

proof fn lemma_trigger_count_witness(moves: Seq<SlotM>, n: nat, u: nat)
    requires
        n <= moves.len(),
        trigger_count(moves, n, u) >= 2,
    ensures
        exists|i: int, j: int|
            0 <= i < j < n && #[trigger] trigger_unit(moves[i].dst) == u && #[trigger] trigger_unit(moves[j].dst) == u,
    decreases n,
{
    if trigger_count(moves, (n - 1) as nat, u) >= 2 {
        lemma_trigger_count_witness(moves, (n - 1) as nat, u);
        let (i, j) = choose|i: int, j: int|
            0 <= i < j < n - 1 && #[trigger] trigger_unit(moves[i].dst) == u && #[trigger] trigger_unit(moves[j].dst) == u;
        assert(0 <= i < j < n);
    } else {
        assert(trigger_unit(moves[n - 1].dst) == u);
        assert(trigger_count(moves, (n - 1) as nat, u) >= 1);
        lemma_trigger_count_index(moves, (n - 1) as nat, u);
        let i = choose|i: int| 0 <= i < n - 1 && #[trigger] trigger_unit(moves[i].dst) == u;
        assert(trigger_unit(moves[i].dst) == u && trigger_unit(moves[n - 1].dst) == u);
    }
}

proof fn lemma_trigger_count_index(moves: Seq<SlotM>, n: nat, u: nat)
    requires
        n <= moves.len(),
        trigger_count(moves, n, u) >= 1,
    ensures
        exists|i: int| 0 <= i < n && #[trigger] trigger_unit(moves[i].dst) == u,
    decreases n,
{
    if trigger_unit(moves[n - 1].dst) != u {
        lemma_trigger_count_index(moves, (n - 1) as nat, u);
        let i = choose|i: int| 0 <= i < n - 1 && #[trigger] trigger_unit(moves[i].dst) == u;
        assert(0 <= i < n);
    }
}

/// Whether two destination sockets trigger one functional unit: both ALU
/// triggers, both load/store triggers, both the multiply trigger, or both
/// the jump.
pub open spec fn same_unit_triggers(a: u8, b: u8) -> bool {
    ||| (18 <= a <= 31 && 18 <= b <= 31)
    ||| ((a == 32 || a == 34) && (b == 32 || b == 34))
    ||| (a == 38 && b == 38)
    ||| (a == 35 && b == 35)
}

/// The cycle rules are all there is: a cycle of at most four moves, no two
/// writing one destination and no two triggering one functional unit,
/// raises no diagnostic of its own.
pub proof fn lemma_valid_cycle_accepted(c: CycleM)
    requires
        c.slots.len() <= 4,
        forall|i: int| 0 <= i < c.slots.len() ==> destination_valid(#[trigger] c.slots[i].dst),
        forall|i: int, j: int|
            0 <= i < j < c.slots.len() ==> #[trigger] c.slots[i].dst != #[trigger] c.slots[j].dst,
        forall|i: int, j: int|
            0 <= i < j < c.slots.len() ==> !same_unit_triggers(
                dest_socket(#[trigger] c.slots[i].dst),
                dest_socket(#[trigger] c.slots[j].dst),
            ),
    ensures
        cycle_diags(c).len() == 0,
{
    let n = c.slots.len();
    lemma_cycle_diags_iff(c);
    if exists|j: int| 0 <= j < n && #[trigger] writes_earlier_destination(c.slots, j) {
        let j = choose|j: int| 0 <= j < n && #[trigger] writes_earlier_destination(c.slots, j);
        let i = choose|i: int| 0 <= i < j && c.slots[i].dst == c.slots[j].dst;
        assert(c.slots[i].dst != c.slots[j].dst);
    }
    if exists|u: nat| 1 <= u <= 4 && #[trigger] trigger_count(c.slots, n, u) > 1 {
        let u = choose|u: nat| 1 <= u <= 4 && #[trigger] trigger_count(c.slots, n, u) > 1;
        lemma_trigger_count_witness(c.slots, n, u);
        let (i, j) = choose|i: int, j: int|
            0 <= i < j < n && #[trigger] trigger_unit(c.slots[i].dst) == u && #[trigger] trigger_unit(c.slots[j].dst) == u;
        lemma_trigger_units(c.slots[i].dst);
        lemma_trigger_units(c.slots[j].dst);
        assert(!same_unit_triggers(dest_socket(c.slots[i].dst), dest_socket(c.slots[j].dst)));
    }
}

/// Guards encode to the codes the machine reads: always, when `P0` is set,
/// and when `P0` is clear.
pub proof fn lemma_guard_encodes(g: Guard, p0: bool)
    ensures
        guard_passes(guard_code(g), p0) == match g {
            Guard::Always => true,
            Guard::IfP0 => p0,
            Guard::IfNotP0 => !p0,
        },
{
}

/// An immediate source encodes to socket 20, the one source socket without
/// a name.
pub proof fn lemma_immediate_socket(i: ImmM)
    ensures
        source_socket(SourceM::Imm(i)) == 20,
        src::isa_name(20).len() == 0,
{
}

// ─── Diagnostics stay in the file ───────────────────────────────────────────

/// Every pending reference points into `file`.
pub open spec fn patches_in_file(pending: Seq<PatchModel>, file: Arc<str>) -> bool {
    forall|i: int| 0 <= i < pending.len() ==> (#[trigger] pending[i]).span.file == file
}

proof fn lemma_duplicate_diags_in_file(moves: Seq<SlotM>, n: nat, file: Arc<str>)
    requires
        n <= moves.len(),
        forall|j: int| 0 <= j < moves.len() ==> (#[trigger] moves[j]).span.file == file,
    ensures
        all_in_file(duplicate_destination_diags(moves, n), file),
    decreases n,
{
    if n > 0 {
        lemma_duplicate_diags_in_file(moves, (n - 1) as nat, file);
        let prev = duplicate_destination_diags(moves, (n - 1) as nat);
        let x = (super::msg_duplicate_destination(), moves[n - 1].span);
        assert(prev.push(x) == prev + seq![x]);
        lemma_all_in_file_concat(prev, seq![x], file);
    }
}

proof fn lemma_cycle_diags_in_file(c: CycleM, file: Arc<str>)
    requires
        cycle_in_file(c, file),
    ensures
        all_in_file(cycle_diags(c), file),
{
    let n = c.slots.len();
    lemma_duplicate_diags_in_file(c.slots, n, file);
    let d = duplicate_destination_diags(c.slots, n);
    let e1 = excess_trigger_diag(c, 1, super::msg_two_alu());
    let e2 = excess_trigger_diag(c, 2, super::msg_two_lsu());
    let e3 = excess_trigger_diag(c, 3, super::msg_two_mul());
    let e4 = excess_trigger_diag(c, 4, super::msg_two_gcu());
    lemma_all_in_file_concat(d, e1, file);
    lemma_all_in_file_concat(d + e1, e2, file);
    lemma_all_in_file_concat(d + e1 + e2, e3, file);
    lemma_all_in_file_concat(d + e1 + e2 + e3, e4, file);
    lemma_all_in_file_concat(too_many_slots_diag(c), validation_diags(c), file);
}

proof fn lemma_cycle_patches_in_file(table: Map<Seq<char>, u16>, addr: u16, moves: Seq<SlotM>, n: nat, file: Arc<str>)
    requires
        n <= moves.len(),
        forall|j: int| 0 <= j < moves.len() ==> (#[trigger] moves[j]).span.file == file,
    ensures
        patches_in_file(cycle_patches(table, addr, moves, n), file),
    decreases n,
{
    if n > 0 {
        lemma_cycle_patches_in_file(table, addr, moves, (n - 1) as nat, file);
    }
}

proof fn lemma_pass1_in_file(lines: Seq<LineM>, file: Arc<str>)
    requires
        forall|i: int| 0 <= i < lines.len() ==> line_in_file(#[trigger] lines[i], file),
    ensures
        all_in_file(pass1(lines).diags, file),
        patches_in_file(pass1(lines).pending, file),
    decreases lines.len(),
{
    if lines.len() > 0 {
        let prev = lines.drop_last();
        assert forall|i: int| 0 <= i < prev.len() implies line_in_file(#[trigger] prev[i], file) by {
            assert(prev[i] == lines[i]);
        }
        lemma_pass1_in_file(prev, file);
        let st = pass1(prev);
        let l = lines.last();
        assert(line_in_file(lines[lines.len() - 1], file));
        let (st1, c): (Pass1, Option<CycleM>) = match l {
            LineM::Equ { name, value, span } => (define_symbol(st, name, value, span), None),
            LineM::Label { name, span, attached } => (define_symbol(st, name, st.words.len() as u16, span), attached),
            LineM::Cycle(c) => (st, Some(c)),
            LineM::Empty => (st, None),
        };
        match l {
            LineM::Equ { name, value, span } => {
                lemma_all_in_file_concat(st.diags, seq![(super::msg_duplicate_symbol(name), span)], file);
                assert(st.diags.push((super::msg_duplicate_symbol(name), span)) == st.diags + seq![(super::msg_duplicate_symbol(name), span)]);
            },
            LineM::Label { name, span, .. } => {
                lemma_all_in_file_concat(st.diags, seq![(super::msg_duplicate_symbol(name), span)], file);
                assert(st.diags.push((super::msg_duplicate_symbol(name), span)) == st.diags + seq![(super::msg_duplicate_symbol(name), span)]);
            },
            _ => {},
        }
        assert(all_in_file(st1.diags, file));
        assert(patches_in_file(st1.pending, file));
        match c {
            Some(cy) => {
                assert(pass1(lines) == encode_cycle_step(st1, cy));
                assert(cycle_in_file(cy, file));
                lemma_cycle_diags_in_file(cy, file);
                lemma_all_in_file_concat(st1.diags, cycle_diags(cy), file);
                let n: nat = if cy.slots.len() < 4 { cy.slots.len() } else { 4 };
                let cp = cycle_patches(st1.table, st1.words.len() as u16, cy.slots, n);
                lemma_cycle_patches_in_file(st1.table, st1.words.len() as u16, cy.slots, n, file);
                assert forall|i: int| 0 <= i < (st1.pending + cp).len() implies (#[trigger] (st1.pending + cp)[i]).span.file == file by {
                    if i >= st1.pending.len() {
                        assert((st1.pending + cp)[i] == cp[i - st1.pending.len()]);
                    }
                }
            },
            None => {
                assert(pass1(lines) == st1);
            },
        }
    }
}

proof fn lemma_undefined_in_file(table: Map<Seq<char>, u16>, pending: Seq<PatchModel>, n: nat, file: Arc<str>)
    requires
        n <= pending.len(),
        patches_in_file(pending, file),
    ensures
        all_in_file(undefined_diags(table, pending, n), file),
    decreases n,
{
    if n > 0 {
        lemma_undefined_in_file(table, pending, (n - 1) as nat, file);
        let prev = undefined_diags(table, pending, (n - 1) as nat);
        let p = pending[n - 1];
        let x = (super::msg_undefined_symbol(p.name), p.span);
        assert(prev.push(x) == prev + seq![x]);
        lemma_all_in_file_concat(prev, seq![x], file);
    }
}

/// Every diagnostic of the encoder points into the file its lines come
/// from.
pub proof fn lemma_encode_diags_in_file(lines: Seq<LineM>, file: Arc<str>)
    requires
        forall|i: int| 0 <= i < lines.len() ==> line_in_file(#[trigger] lines[i], file),
    ensures
        all_in_file(encode_diags(lines), file),
{
    lemma_pass1_in_file(lines, file);
    let p = pass1(lines);
    lemma_undefined_in_file(p.table, p.pending, p.pending.len(), file);
    lemma_all_in_file_concat(p.diags, undefined_diags(p.table, p.pending, p.pending.len()), file);
}

} // verus!
