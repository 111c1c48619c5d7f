//! Slot and instruction-word encoding and decoding.
//!
//! Slot layout (bit 31 is the most significant):
//! ```text
//!   [31:30] guard      (2 bits)
//!   [29:25] src.sock   (5 bits)
//!   [24:9]  src.data   (16 bits)
//!   [8:3]   dst.sock   (6 bits)
//!   [2:0]   reserved   (3 bits, zero)
//! ```

use vstd::prelude::*;

verus! {

/// A decoded 32-bit move slot.
#[derive(Copy, Clone, Debug, PartialEq, Eq, Structural)]
pub struct Slot {
    pub guard: u8,
    pub src_sock: u8,
    pub src_data: u16,
    pub dst_sock: u8,
}

/// The slot whose fields are the bit fields of `raw`.
pub open spec fn slot_of_bits(raw: u32) -> Slot {
    Slot {
        guard: ((raw >> 30u32) & 0x3) as u8,
        src_sock: ((raw >> 25u32) & 0x1F) as u8,
        src_data: ((raw >> 9u32) & 0xFFFF) as u16,
        dst_sock: ((raw >> 3u32) & 0x3F) as u8,
    }
}

/// The 32-bit word holding the fields of `s`, each cut to its width; the
/// reserved bits are zero.
pub open spec fn bits_of_slot(s: Slot) -> u32 {
    (((s.guard as u32) & 0x3) << 30u32) | (((s.src_sock as u32) & 0x1F) << 25u32)
        | (((s.src_data as u32) & 0xFFFF) << 9u32) | (((s.dst_sock as u32) & 0x3F) << 3u32)
}

impl Slot {
    /// Every field fits its width in the encoding.
    pub open spec fn fits(self) -> bool {
        self.guard < 4 && self.src_sock < 32 && self.dst_sock < 64
    }

    /// Decode a raw 32-bit slot.
    pub fn decode(raw: u32) -> (s: Slot)
        ensures
            s == slot_of_bits(raw),
    {
        Slot {
            guard: ((raw >> 30u32) & 0x3) as u8,
            src_sock: ((raw >> 25u32) & 0x1F) as u8,
            src_data: ((raw >> 9u32) & 0xFFFF) as u16,
            dst_sock: ((raw >> 3u32) & 0x3F) as u8,
        }
    }

    /// Encode this slot as a raw 32-bit value. The reserved field is always zero.
    pub fn encode(&self) -> (raw: u32)
        ensures
            raw == bits_of_slot(*self),
    {
        (((self.guard as u32) & 0x3) << 30u32) | (((self.src_sock as u32) & 0x1F) << 25u32)
            | (((self.src_data as u32) & 0xFFFF) << 9u32) | (((self.dst_sock as u32) & 0x3F)
            << 3u32)
    }

    /// A slot whose guard is `never`, equivalent to a NOP.
    pub fn nop() -> (s: Slot)
        ensures
            s == (Slot { guard: 3, src_sock: 0, src_data: 0, dst_sock: 0 }),
    {
        Slot { guard: 0b11, src_sock: 0, src_data: 0, dst_sock: 0 }
    }

    /// Build a slot from its four fields.
    pub fn new(guard: u8, src_sock: u8, src_data: u16, dst_sock: u8) -> (s: Slot)
        ensures
            s == (Slot { guard, src_sock, src_data, dst_sock }),
    {
        Slot { guard, src_sock, src_data, dst_sock }
    }
}

/// Decoding an encoded slot whose fields fit gives the slot back.
pub proof fn lemma_slot_round_trip(s: Slot)
    requires
        s.fits(),
    ensures
        slot_of_bits(bits_of_slot(s)) == s,
{
    let g = s.guard;
    let a = s.src_sock;
    let d = s.src_data;
    let t = s.dst_sock;
    let raw = bits_of_slot(s);
    assert(((raw >> 30u32) & 0x3) as u8 == g) by (bit_vector)
        requires
            raw == (((g as u32) & 0x3) << 30u32) | (((a as u32) & 0x1F) << 25u32) | (((d as u32)
                & 0xFFFF) << 9u32) | (((t as u32) & 0x3F) << 3u32),
            g < 4,
    ;
    assert(((raw >> 25u32) & 0x1F) as u8 == a) by (bit_vector)
        requires
            raw == (((g as u32) & 0x3) << 30u32) | (((a as u32) & 0x1F) << 25u32) | (((d as u32)
                & 0xFFFF) << 9u32) | (((t as u32) & 0x3F) << 3u32),
            a < 32,
    ;
    assert(((raw >> 9u32) & 0xFFFF) as u16 == d) by (bit_vector)
        requires
            raw == (((g as u32) & 0x3) << 30u32) | (((a as u32) & 0x1F) << 25u32) | (((d as u32)
                & 0xFFFF) << 9u32) | (((t as u32) & 0x3F) << 3u32),
    ;
    assert(((raw >> 3u32) & 0x3F) as u8 == t) by (bit_vector)
        requires
            raw == (((g as u32) & 0x3) << 30u32) | (((a as u32) & 0x1F) << 25u32) | (((d as u32)
                & 0xFFFF) << 9u32) | (((t as u32) & 0x3F) << 3u32),
            t < 64,
    ;
}

/// Encoding a decoded word gives the word back with its reserved bits cleared.
pub proof fn lemma_slot_bits_round_trip(raw: u32)
    ensures
        bits_of_slot(slot_of_bits(raw)) == raw & 0xFFFF_FFF8,
{
    let s = slot_of_bits(raw);
    let g = s.guard;
    let a = s.src_sock;
    let d = s.src_data;
    let t = s.dst_sock;
    assert((((g as u32) & 0x3) << 30u32) | (((a as u32) & 0x1F) << 25u32) | (((d as u32) & 0xFFFF)
        << 9u32) | (((t as u32) & 0x3F) << 3u32) == raw & 0xFFFF_FFF8) by (bit_vector)
        requires
            g == ((raw >> 30u32) & 0x3) as u8,
            a == ((raw >> 25u32) & 0x1F) as u8,
            d == ((raw >> 9u32) & 0xFFFF) as u16,
            t == ((raw >> 3u32) & 0x3F) as u8,
    ;
}

/// A decoded 128-bit instruction word: four slots in slot order (slot 0 is
/// the least significant 32 bits, slot 3 the most significant).
#[derive(Copy, Clone, Debug, PartialEq, Eq)]
pub struct IWord {
    pub slots: [Slot; 4],
}

/// The word whose slots are the decoded 32-bit pieces of `raw`.
pub open spec fn word_of_bits(raw: u128) -> Seq<Slot> {
    seq![
        slot_of_bits(raw as u32),
        slot_of_bits((raw >> 32u128) as u32),
        slot_of_bits((raw >> 64u128) as u32),
        slot_of_bits((raw >> 96u128) as u32),
    ]
}

/// The 128-bit value whose 32-bit pieces are the encoded slots, slot 0 lowest.
pub open spec fn bits_of_word(slots: Seq<Slot>) -> u128 {
    (bits_of_slot(slots[0]) as u128) | ((bits_of_slot(slots[1]) as u128) << 32u128) | ((
    bits_of_slot(slots[2]) as u128) << 64u128) | ((bits_of_slot(slots[3]) as u128) << 96u128)
}

impl IWord {
    /// Every slot of the word fits its encoding.
    pub open spec fn fits(self) -> bool {
        forall|i: int| 0 <= i < 4 ==> #[trigger] self.slots@[i].fits()
    }

    /// Decode a raw 128-bit instruction word.
    pub fn decode(raw: u128) -> (w: IWord)
        ensures
            w.slots@ == word_of_bits(raw),
    {
        let w = IWord {
            slots: [
                Slot::decode(raw as u32),
                Slot::decode((raw >> 32u128) as u32),
                Slot::decode((raw >> 64u128) as u32),
                Slot::decode((raw >> 96u128) as u32),
            ],
        };
        assert(w.slots@ =~= word_of_bits(raw));
        w
    }

    /// Encode this word as a raw 128-bit value.
    pub fn encode(&self) -> (raw: u128)
        ensures
            raw == bits_of_word(self.slots@),
    {
        (self.slots[0].encode() as u128) | ((self.slots[1].encode() as u128) << 32u128) | ((
        self.slots[2].encode() as u128) << 64u128) | ((self.slots[3].encode() as u128) << 96u128)
    }

    /// Build a word from four explicit slots.
    pub fn new(s0: Slot, s1: Slot, s2: Slot, s3: Slot) -> (w: IWord)
        ensures
            w.slots@ == seq![s0, s1, s2, s3],
    {
        let w = IWord { slots: [s0, s1, s2, s3] };
        assert(w.slots@ =~= seq![s0, s1, s2, s3]);
        w
    }
}

/// Splitting the encoding of four 32-bit values gives the values back.
proof fn lemma_split_u128(a: u32, b: u32, c: u32, d: u32)
    ensures
        ({
            let r = (a as u128) | ((b as u128) << 32u128) | ((c as u128) << 64u128) | ((d as u128)
                << 96u128);
            &&& r as u32 == a
            &&& (r >> 32u128) as u32 == b
            &&& (r >> 64u128) as u32 == c
            &&& (r >> 96u128) as u32 == d
        }),
{
    assert({
        let r = (a as u128) | ((b as u128) << 32u128) | ((c as u128) << 64u128) | ((d as u128)
            << 96u128);
        &&& r as u32 == a
        &&& (r >> 32u128) as u32 == b
        &&& (r >> 64u128) as u32 == c
        &&& (r >> 96u128) as u32 == d
    }) by (bit_vector);
}

/// Decoding an encoded word whose slots fit gives the word back.
pub proof fn lemma_word_round_trip(w: IWord)
    requires
        w.fits(),
    ensures
        word_of_bits(bits_of_word(w.slots@)) == w.slots@,
{
    let s = w.slots@;
    assert(s[0].fits() && s[1].fits() && s[2].fits() && s[3].fits());
    lemma_split_u128(bits_of_slot(s[0]), bits_of_slot(s[1]), bits_of_slot(s[2]), bits_of_slot(s[3]));
    lemma_slot_round_trip(s[0]);
    lemma_slot_round_trip(s[1]);
    lemma_slot_round_trip(s[2]);
    lemma_slot_round_trip(s[3]);
    assert(word_of_bits(bits_of_word(s)) =~= s);
}

/// Encoding a decoded word gives the raw value back with the reserved bits
/// of each slot cleared.
pub proof fn lemma_word_bits_round_trip(raw: u128)
    ensures
        bits_of_word(word_of_bits(raw)) == raw & 0xFFFF_FFF8_FFFF_FFF8_FFFF_FFF8_FFFF_FFF8,
{
    let s = word_of_bits(raw);
    lemma_slot_bits_round_trip(raw as u32);
    lemma_slot_bits_round_trip((raw >> 32u128) as u32);
    lemma_slot_bits_round_trip((raw >> 64u128) as u32);
    lemma_slot_bits_round_trip((raw >> 96u128) as u32);
    let a = bits_of_slot(s[0]);
    let b = bits_of_slot(s[1]);
    let c = bits_of_slot(s[2]);
    let d = bits_of_slot(s[3]);
    assert((a as u128) | ((b as u128) << 32u128) | ((c as u128) << 64u128) | ((d as u128)
        << 96u128) == raw & 0xFFFF_FFF8_FFFF_FFF8_FFFF_FFF8_FFFF_FFF8) by (bit_vector)
        requires
            a == (raw as u32) & 0xFFFF_FFF8,
            b == ((raw >> 32u128) as u32) & 0xFFFF_FFF8,
            c == ((raw >> 64u128) as u32) & 0xFFFF_FFF8,
            d == ((raw >> 96u128) as u32) & 0xFFFF_FFF8,
    ;
}

} // verus!
