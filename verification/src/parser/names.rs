//! Socket names, looked up without regard to ASCII case.

use vstd::prelude::*;
use vstd::string::StrSliceExecFns;

use super::{Destination, Source, SourceM};

verus! {

/// `c` with an ASCII capital letter turned into its small letter.
pub open spec fn lower_char(c: char) -> char {
    if 'A' <= c <= 'Z' {
        ((c as u32) + 32) as char
    } else {
        c
    }
}

/// `s` with its ASCII capital letters made small (`to_ascii_lowercase`).
pub open spec fn ascii_lower(s: Seq<char>) -> Seq<char> {
    s.map_values(|c: char| lower_char(c))
}

pub open spec fn is_decimal_char(c: char) -> bool {
    '0' <= c <= '9'
}

/// The value of a string of decimal digits.
pub open spec fn decimal_value(d: Seq<char>) -> int
    decreases d.len(),
{
    if d.len() == 0 {
        0
    } else {
        decimal_value(d.drop_last()) * 10 + (d.last() as int - 48)
    }
}

/// The characters of `t` after an optional leading `+`.
pub open spec fn unsigned_digits(t: Seq<char>) -> Seq<char> {
    if t.len() > 0 && t[0] == '+' {
        t.drop_first()
    } else {
        t
    }
}

pub open spec fn all_decimal(d: Seq<char>) -> bool {
    forall|i: int| 0 <= i < d.len() ==> is_decimal_char(#[trigger] d[i])
}

/// What `str::parse::<u8>` gives for `t`: an optional `+`, then one or more
/// decimal digits whose value fits in a byte.
pub open spec fn parsed_u8(t: Seq<char>) -> Option<u8> {
    let d = unsigned_digits(t);
    if d.len() > 0 && all_decimal(d) && decimal_value(d) <= 255 {
        Some(decimal_value(d) as u8)
    } else {
        None
    }
}

/// The register number of a name `r<n>` (any case) with `n < 16`.
pub open spec fn gpr_number(s: Seq<char>) -> Option<u8> {
    let l = ascii_lower(s);
    if l.len() > 0 && l[0] == 'r' {
        match parsed_u8(l.drop_first()) {
            Some(n) => if n < 16 {
                Some(n)
            } else {
                None
            },
            None => None,
        }
    } else {
        None
    }
}

/// The source a name denotes, if any.
pub open spec fn source_named(s: Seq<char>) -> Option<SourceM> {
    let l = ascii_lower(s);
    match gpr_number(s) {
        Some(n) => Some(SourceM::Gpr(n)),
        None => if l == "p0"@ {
            Some(SourceM::BrfP0)
        } else if l == "alu_r"@ {
            Some(SourceM::AluR)
        } else if l == "alu_p"@ {
            Some(SourceM::AluP)
        } else if l == "lsu_r"@ {
            Some(SourceM::LsuR)
        } else if l == "mul_r"@ {
            Some(SourceM::MulR)
        } else {
            None
        },
    }
}

/// The destination a name denotes, if any.
pub open spec fn destination_named(s: Seq<char>) -> Option<Destination> {
    let l = ascii_lower(s);
    match gpr_number(s) {
        Some(n) => Some(Destination::Gpr(n)),
        None => if l == "p0"@ {
            Some(Destination::BrfP0)
        } else if l == "alu_a"@ {
            Some(Destination::AluA)
        } else if l == "alu_add_t"@ {
            Some(Destination::AluAddT)
        } else if l == "alu_sub_t"@ {
            Some(Destination::AluSubT)
        } else if l == "alu_and_t"@ {
            Some(Destination::AluAndT)
        } else if l == "alu_or_t"@ {
            Some(Destination::AluOrT)
        } else if l == "alu_xor_t"@ {
            Some(Destination::AluXorT)
        } else if l == "alu_shl_t"@ {
            Some(Destination::AluShlT)
        } else if l == "alu_shr_t"@ {
            Some(Destination::AluShrT)
        } else if l == "alu_sshr_t"@ {
            Some(Destination::AluSshrT)
        } else if l == "alu_eq_t"@ {
            Some(Destination::AluEqT)
        } else if l == "alu_ne_t"@ {
            Some(Destination::AluNeT)
        } else if l == "alu_lt_t"@ {
            Some(Destination::AluLtT)
        } else if l == "alu_le_t"@ {
            Some(Destination::AluLeT)
        } else if l == "alu_gt_t"@ {
            Some(Destination::AluGtT)
        } else if l == "alu_ge_t"@ {
            Some(Destination::AluGeT)
        } else if l == "lsu_ld_t"@ {
            Some(Destination::LsuLdT)
        } else if l == "lsu_st_a"@ {
            Some(Destination::LsuStA)
        } else if l == "lsu_st_t"@ {
            Some(Destination::LsuStT)
        } else if l == "gcu_jmp_t"@ {
            Some(Destination::GcuJmpT)
        } else if l == "discard"@ {
            Some(Destination::Discard)
        } else if l == "mul_a"@ {
            Some(Destination::MulA)
        } else if l == "mul_t"@ {
            Some(Destination::MulT)
        } else {
            None
        },
    }
}

/// Whether `c`, made small, is `p`.
fn lower_eq(c: char, p: char) -> (b: bool)
    ensures
        b == (lower_char(c) == p),
{
    if 'A' <= c && c <= 'Z' {
        (c as u32) + 32 == (p as u32)
    } else {
        c == p
    }
}

/// Whether `s`, with ASCII letters made small, is `pat`.
pub fn lower_is(s: &str, pat: &str) -> (b: bool)
    ensures
        b == (ascii_lower(s@) == pat@),
{
    let n = s.unicode_len();
    if n != pat.unicode_len() {
        return false;
    }
    let mut i: usize = 0;
    while i < n
        invariant
            n == s@.len(),
            n == pat@.len(),
            i <= n,
            forall|k: int| 0 <= k < i ==> lower_char(#[trigger] s@[k]) == pat@[k],
        decreases n - i,
    {
        if !lower_eq(s.get_char(i), pat.get_char(i)) {
            assert(ascii_lower(s@)[i as int] != pat@[i as int]);
            return false;
        }
        i += 1;
    }
    assert(ascii_lower(s@) =~= pat@);
    true
}

/// The register number of `name` when it is `r<n>` (any case), `n < 16`.
fn gpr_of(name: &str) -> (r: Option<u8>)
    ensures
        r == gpr_number(name@),
{
    let ghost l = ascii_lower(name@);
    let n = name.unicode_len();
    if n == 0 || !lower_eq(name.get_char(0), 'r') {
        return None;
    }
    let ghost t = l.drop_first();
    assert(l[0] == 'r');
    let mut i: usize = 1;
    if n > 1 && name.get_char(1) == '+' {
        i = 2;
    }
    let ghost d = unsigned_digits(t);
    assert(d =~= l.subrange(i as int, n as int));
    if i >= n {
        return None;
    }
    // The value of the digits so far, or 256 once it exceeds a byte.
    let mut value: u32 = 0;
    let start = i;
    while i < n
        invariant
            n == name@.len(),
            l == ascii_lower(name@),
            1 <= start <= i <= n,
            t == l.drop_first(),
            d == unsigned_digits(t),
            d == l.subrange(start as int, n as int),
            forall|k: int| start <= k < i ==> is_decimal_char(#[trigger] l[k]),
            value == if decimal_value(l.subrange(start as int, i as int)) < 256 {
                decimal_value(l.subrange(start as int, i as int))
            } else {
                256
            },
        decreases n - i,
    {
        let c = name.get_char(i);
        assert(l[i as int] == lower_char(c));
        if !('0' <= c && c <= '9') {
            assert(!is_decimal_char(lower_char(c)));
            assert(d[i - start] == l[i as int]);
            let ghost k = i - start;
            assert(0 <= k < d.len());
            assert(!is_decimal_char(d[k]));
            assert(!all_decimal(d));
            assert(parsed_u8(t) is None);
            return None;
        }
        assert(l.subrange(start as int, i + 1).drop_last() =~= l.subrange(start as int, i as int));
        let digit = (c as u32) - 48;
        let next = value * 10 + digit;
        value = if next > 256 { 256 } else { next };
        i += 1;
    }
    assert(l.subrange(start as int, n as int) =~= d);
    if value < 16 {
        Some(value as u8)
    } else {
        None
    }
}

/// Look up an identifier as a source, without regard to ASCII case:
/// `r0`..`r15`, `p0`, `alu_r`, `alu_p`, `lsu_r`, `mul_r`.
pub fn source_from_name(name: &str) -> (r: Option<Source>)
    ensures
        match r {
            Some(s) => source_named(name@) == Some(s@),
            None => source_named(name@) is None,
        },
{
    if let Some(n) = gpr_of(name) {
        return Some(Source::Gpr(n));
    }
    if lower_is(name, "p0") {
        Some(Source::BrfP0)
    } else if lower_is(name, "alu_r") {
        Some(Source::AluR)
    } else if lower_is(name, "alu_p") {
        Some(Source::AluP)
    } else if lower_is(name, "lsu_r") {
        Some(Source::LsuR)
    } else if lower_is(name, "mul_r") {
        Some(Source::MulR)
    } else {
        None
    }
}

/// Look up an identifier as a destination, without regard to ASCII case:
/// `r0`..`r15`, `p0`, and the functional-unit ports.
pub fn destination_from_name(name: &str) -> (r: Option<Destination>)
    ensures
        r == destination_named(name@),
{
    if let Some(n) = gpr_of(name) {
        return Some(Destination::Gpr(n));
    }
    if lower_is(name, "p0") {
        Some(Destination::BrfP0)
    } else if lower_is(name, "alu_a") {
        Some(Destination::AluA)
    } else if lower_is(name, "alu_add_t") {
        Some(Destination::AluAddT)
    } else if lower_is(name, "alu_sub_t") {
        Some(Destination::AluSubT)
    } else if lower_is(name, "alu_and_t") {
        Some(Destination::AluAndT)
    } else if lower_is(name, "alu_or_t") {
        Some(Destination::AluOrT)
    } else if lower_is(name, "alu_xor_t") {
        Some(Destination::AluXorT)
    } else if lower_is(name, "alu_shl_t") {
        Some(Destination::AluShlT)
    } else if lower_is(name, "alu_shr_t") {
        Some(Destination::AluShrT)
    } else if lower_is(name, "alu_sshr_t") {
        Some(Destination::AluSshrT)
    } else if lower_is(name, "alu_eq_t") {
        Some(Destination::AluEqT)
    } else if lower_is(name, "alu_ne_t") {
        Some(Destination::AluNeT)
    } else if lower_is(name, "alu_lt_t") {
        Some(Destination::AluLtT)
    } else if lower_is(name, "alu_le_t") {
        Some(Destination::AluLeT)
    } else if lower_is(name, "alu_gt_t") {
        Some(Destination::AluGtT)
    } else if lower_is(name, "alu_ge_t") {
        Some(Destination::AluGeT)
    } else if lower_is(name, "lsu_ld_t") {
        Some(Destination::LsuLdT)
    } else if lower_is(name, "lsu_st_a") {
        Some(Destination::LsuStA)
    } else if lower_is(name, "lsu_st_t") {
        Some(Destination::LsuStT)
    } else if lower_is(name, "gcu_jmp_t") {
        Some(Destination::GcuJmpT)
    } else if lower_is(name, "discard") {
        Some(Destination::Discard)
    } else if lower_is(name, "mul_a") {
        Some(Destination::MulA)
    } else if lower_is(name, "mul_t") {
        Some(Destination::MulT)
    } else {
        None
    }
}

/// Built-in register and socket names are case-insensitive: two spellings
/// that differ only in ASCII case name the same source and destination.
pub proof fn lemma_names_ignore_case(s: Seq<char>, t: Seq<char>)
    requires
        ascii_lower(s) == ascii_lower(t),
    ensures
        source_named(s) == source_named(t),
        destination_named(s) == destination_named(t),
{
}

} // verus!
