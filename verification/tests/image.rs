//! Program images.

use toasttta::image::{decode_image, encode_image};
use toasttta::{IWord, Slot};

#[test]
fn image_round_trip() {
    let words = vec![
        IWord::new(Slot::new(0, 20, 0xFF01, 33), Slot::new(0, 0, 0, 34), Slot::nop(), Slot::nop()),
        IWord::new(Slot::nop(), Slot::nop(), Slot::nop(), Slot::new(2, 17, 9, 35)),
    ];
    let bytes = encode_image(&words);
    assert_eq!(bytes.len(), 32);
    assert_eq!(decode_image(&bytes), Some(words));
}

#[test]
fn image_is_little_endian_words() {
    let w = IWord::new(Slot::new(1, 2, 3, 4), Slot::nop(), Slot::new(2, 5, 6, 7), Slot::nop());
    let bytes = encode_image(&[w]);
    assert_eq!(bytes, w.encode().to_le_bytes().to_vec());
}

#[test]
fn image_length_must_be_whole_words() {
    assert_eq!(decode_image(&[0u8; 15]), None);
    assert_eq!(decode_image(&[0u8; 33]), None);
    assert_eq!(decode_image(&[]), Some(vec![]));
}

#[test]
fn image_decodes_raw_bytes() {
    let mut bytes = vec![0u8; 16];
    bytes[0] = 0xFF; // low byte of slot 0: reserved bits and dst_sock bits
    bytes[15] = 0xC0; // top bits of slot 3: guard = never
    let words = decode_image(&bytes).unwrap();
    assert_eq!(words.len(), 1);
    assert_eq!(words[0].slots[0], Slot::new(0, 0, 0, 0x1F));
    assert_eq!(words[0].slots[3], Slot::nop());
}
