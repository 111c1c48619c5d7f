//! Slot and instruction-word encoding.

use toasttta::isa::{dst, guard, src};
use toasttta::{IWord, Slot};

#[test]
fn slot_round_trip() {
    let s = Slot::new(0b01, 20, 0xDEAD, 17);
    assert_eq!(Slot::decode(s.encode()), s);
}

#[test]
fn iword_round_trip() {
    let w = IWord::new(
        Slot::new(0b00, 0, 0, 17),
        Slot::new(0b01, 20, 0x1234, 18),
        Slot::nop(),
        Slot::new(0b10, 17, 0, 5),
    );
    assert_eq!(IWord::decode(w.encode()), w);
}

#[test]
fn nop_has_never_guard() {
    assert_eq!(Slot::nop().guard, 0b11);
}

#[test]
fn slot_bit_layout() {
    // guard[31:30] src_sock[29:25] src_data[24:9] dst_sock[8:3], reserved[2:0] = 0
    let s = Slot::new(guard::IF_NP0, src::IMMEDIATE, 0xBEEF, dst::GCU_JMP_T);
    let expected: u32 = (0b10 << 30) | (20 << 25) | (0xBEEF << 9) | (35 << 3);
    assert_eq!(s.encode(), expected);
    assert_eq!(Slot::nop().encode(), 0b11 << 30);
}

#[test]
fn slot_decode_ignores_reserved_bits() {
    let raw: u32 = (0b01 << 30) | (3 << 25) | (7 << 9) | (9 << 3) | 0b101;
    let s = Slot::decode(raw);
    assert_eq!(s, Slot::new(0b01, 3, 7, 9));
    assert_eq!(s.encode(), raw & 0xFFFF_FFF8);
}

#[test]
fn iword_slot_zero_is_low_bits() {
    let w = IWord::new(Slot::new(0, 1, 2, 3), Slot::nop(), Slot::nop(), Slot::nop());
    let raw = w.encode();
    assert_eq!(raw as u32, Slot::new(0, 1, 2, 3).encode());
    assert_eq!((raw >> 96) as u32, Slot::nop().encode());
}
