//! Program images: each instruction word as its 128-bit encoding in 16
//! little-endian bytes, one after the other, without a header.

use vstd::prelude::*;

use crate::encoding::{bits_of_word, lemma_word_round_trip, word_of_bits, IWord, Slot};

verus! {

pub open spec fn pow256(n: nat) -> nat
    decreases n,
{
    if n == 0 {
        1
    } else {
        pow256((n - 1) as nat) * 256
    }
}

/// The number whose little-endian bytes are `bs`.
pub open spec fn le_value(bs: Seq<u8>) -> nat
    decreases bs.len(),
{
    if bs.len() == 0 {
        0
    } else {
        le_value(bs.drop_last()) + bs.last() as nat * pow256((bs.len() - 1) as nat)
    }
}

/// The `n` low bytes of `v`, least significant first.
pub open spec fn le_bytes(v: nat, n: nat) -> Seq<u8>
    decreases n,
{
    if n == 0 {
        Seq::empty()
    } else {
        le_bytes(v, (n - 1) as nat).push(((v / pow256((n - 1) as nat)) % 256) as u8)
    }
}

/// The image of a sequence of words.
pub open spec fn image_of(words: Seq<IWord>) -> Seq<u8>
    decreases words.len(),
{
    if words.len() == 0 {
        Seq::empty()
    } else {
        image_of(words.drop_last()) + le_bytes(bits_of_word(words.last().slots@) as nat, 16)
    }
}

/// The slots of the `k`-th word of an image: bytes `16k .. 16k + 16`.
pub open spec fn image_word(bytes: Seq<u8>, k: int) -> Seq<Slot> {
    word_of_bits(le_value(bytes.subrange(16 * k, 16 * k + 16)) as u128)
}

proof fn lemma_pow256_positive(n: nat)
    ensures
        pow256(n) > 0,
    decreases n,
{
    if n > 0 {
        lemma_pow256_positive((n - 1) as nat);
    }
}

proof fn lemma_pow256_mono(m: nat, n: nat)
    requires
        m <= n,
    ensures
        pow256(m) <= pow256(n),
    decreases n - m,
{
    if m < n {
        lemma_pow256_mono(m, (n - 1) as nat);
        lemma_pow256_positive((n - 1) as nat);
    }
}

proof fn lemma_pow256_16()
    ensures
        pow256(16) == 0x1_0000_0000_0000_0000_0000_0000_0000_0000,
{
    reveal_with_fuel(pow256, 17);
}

/// Reading back the `n` low bytes of `v` gives `v` modulo `256^n`.
proof fn lemma_le_bytes_value(v: nat, n: nat)
    ensures
        le_bytes(v, n).len() == n,
        le_value(le_bytes(v, n)) == v % pow256(n),
    decreases n,
{
    if n == 0 {
        assert(le_value(le_bytes(v, n)) == 0);
    } else {
        let m = (n - 1) as nat;
        lemma_le_bytes_value(v, m);
        let p = pow256(m);
        lemma_pow256_positive(m);
        let s = le_bytes(v, n);
        assert(s.drop_last() =~= le_bytes(v, m));
        assert(0 <= (v / p) % 256 < 256) by {
            vstd::arithmetic::div_mod::lemma_mod_bound((v / p) as int, 256);
        }
        assert(s.last() as nat == (v / p) % 256);
        vstd::arithmetic::div_mod::lemma_mod_breakdown(v as int, p as int, 256);
        assert(v % (p * 256) == p * ((v / p) % 256) + v % p);
        assert(le_value(s) == v % p + ((v / p) % 256) * p);
        assert(((v / p) % 256) * p == p * ((v / p) % 256)) by (nonlinear_arith);
    }
}

/// A value read from bytes is below `256^len`.
proof fn lemma_le_value_bound(bs: Seq<u8>)
    ensures
        le_value(bs) < pow256(bs.len()),
    decreases bs.len(),
{
    if bs.len() > 0 {
        let m = (bs.len() - 1) as nat;
        lemma_le_value_bound(bs.drop_last());
        let p = pow256(m);
        let a = le_value(bs.drop_last());
        let b = bs.last() as nat;
        assert(a + b * p < p * 256) by (nonlinear_arith)
            requires
                a < p,
                b < 256,
        ;
    }
}

/// Decode a program image into instruction words; `None` when its length
/// is not a multiple of 16 bytes.
pub fn decode_image(bytes: &[u8]) -> (r: Option<Vec<IWord>>)
    ensures
        match r {
            None => bytes@.len() % 16 != 0,
            Some(words) => {
                &&& bytes@.len() % 16 == 0
                &&& words@.len() == bytes@.len() / 16
                &&& forall|k: int| 0 <= k < words@.len() ==> #[trigger] words@[k].slots@ == image_word(bytes@, k)
            },
        },
{
    if bytes.len() % 16 != 0 {
        return None;
    }
    let len = bytes.len();
    let n = len / 16;
    let mut words: Vec<IWord> = Vec::new();
    let mut k: usize = 0;
    proof {
        lemma_pow256_16();
    }
    while k < n
        invariant
            n == bytes@.len() / 16,
            bytes@.len() % 16 == 0,
            bytes@.len() == len,
            k <= n,
            words@.len() == k,
            pow256(16) == 0x1_0000_0000_0000_0000_0000_0000_0000_0000,
            forall|j: int| 0 <= j < k ==> #[trigger] words@[j].slots@ == image_word(bytes@, j),
        decreases n - k,
    {
        assert(16 * k + 16 <= bytes@.len()) by (nonlinear_arith)
            requires
                k < n,
                n == bytes@.len() / 16,
        ;
        let base = 16 * k;
        let ghost chunk = bytes@.subrange(base as int, base + 16);
        let mut v: u128 = 0;
        let mut scale: u128 = 1;
        let mut i: usize = 0;
        while i < 16
            invariant
                base == 16 * k,
                k < n,
                n == bytes@.len() / 16,
                bytes@.len() % 16 == 0,
                chunk == bytes@.subrange(base as int, base + 16),
                i <= 16,
                pow256(16) == 0x1_0000_0000_0000_0000_0000_0000_0000_0000,
                v == le_value(chunk.subrange(0, i as int)),
                v < pow256(i as nat),
                i < 16 ==> scale == pow256(i as nat),
            decreases 16 - i,
        {
            let b = bytes[base + i];
            proof {
                lemma_pow256_mono((i + 1) as nat, 16);
                let p = pow256(i as nat);
                assert(v + b * p < p * 256) by (nonlinear_arith)
                    requires
                        v < p,
                        b < 256,
                ;
                assert(chunk.subrange(0, i + 1).drop_last() =~= chunk.subrange(0, i as int));
                assert(chunk.subrange(0, i + 1).last() == b);
            }
            v = v + (b as u128) * scale;
            if i < 15 {
                proof {
                    lemma_pow256_mono((i + 1) as nat, 15);
                    lemma_pow256_16();
                }
                scale = scale * 256;
            }
            i += 1;
        }
        assert(chunk.subrange(0, 16) =~= chunk);
        words.push(IWord::decode(v));
        k += 1;
    }
    Some(words)
}

/// The image of a program: each word's encoding in 16 little-endian bytes.
pub fn encode_image(words: &[IWord]) -> (bytes: Vec<u8>)
    ensures
        bytes@ == image_of(words@),
{
    let mut bytes: Vec<u8> = Vec::new();
    let mut k: usize = 0;
    while k < words.len()
        invariant
            k <= words@.len(),
            bytes@ == image_of(words@.take(k as int)),
        decreases words@.len() - k,
    {
        let v = words[k].encode();
        let mut x = v;
        let ghost start = bytes@;
        let mut i: usize = 0;
        while i < 16
            invariant
                i <= 16,
                x as nat == (v as nat) / pow256(i as nat),
                bytes@ == start + le_bytes(v as nat, i as nat),
            decreases 16 - i,
        {
            proof {
                lemma_pow256_positive(i as nat);
                vstd::arithmetic::div_mod::lemma_div_denominator(v as int, pow256(i as nat) as int, 256);
            }
            bytes.push((x % 256) as u8);
            x = x / 256;
            i += 1;
        }
        assert(words@.take(k + 1).drop_last() =~= words@.take(k as int));
        assert(words@.take(k + 1).last() == words@[k as int]);
        k += 1;
    }
    assert(words@.take(words@.len() as int) =~= words@);
    bytes
}

proof fn lemma_image_chunks(words: Seq<IWord>, k: int)
    requires
        0 <= k < words.len(),
    ensures
        image_of(words).len() == 16 * words.len(),
        image_of(words).subrange(16 * k, 16 * k + 16) == le_bytes(bits_of_word(words[k].slots@) as nat, 16),
    decreases words.len(),
{
    let prev = words.drop_last();
    lemma_le_bytes_value(bits_of_word(words.last().slots@) as nat, 16);
    if prev.len() > 0 {
        lemma_image_chunks(prev, if k < prev.len() { k } else { 0 });
    } else {
        assert(image_of(prev).len() == 0);
    }
    if k < prev.len() {
        assert(image_of(words).subrange(16 * k, 16 * k + 16) =~= image_of(prev).subrange(16 * k, 16 * k + 16));
        assert(prev[k] == words[k]);
    } else {
        assert(image_of(words).subrange(16 * k, 16 * k + 16) =~= le_bytes(bits_of_word(words.last().slots@) as nat, 16));
    }
}

/// Decoding the image of words whose fields fit their encoding gives the
/// same words back: the image is the format the machine's loader reads.
pub proof fn lemma_image_round_trip(words: Seq<IWord>)
    requires
        forall|k: int| 0 <= k < words.len() ==> (#[trigger] words[k]).fits(),
    ensures
        image_of(words).len() == 16 * words.len(),
        forall|k: int| 0 <= k < words.len() ==> #[trigger] image_word(image_of(words), k) == words[k].slots@,
{
    if words.len() == 0 {
        assert(image_of(words).len() == 0);
    } else {
        lemma_image_chunks(words, 0);
    }
    assert forall|k: int| 0 <= k < words.len() implies #[trigger] image_word(image_of(words), k)
        == words[k].slots@ by {
        lemma_image_chunks(words, k);
        let raw = bits_of_word(words[k].slots@);
        lemma_le_bytes_value(raw as nat, 16);
        lemma_pow256_16();
        assert((raw as nat) % pow256(16) == raw as nat);
        lemma_word_round_trip(words[k]);
    }
}

} // verus!
