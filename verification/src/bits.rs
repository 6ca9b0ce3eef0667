//! Bit-level helpers: expanding an integer into its most significant bits
//! first, packing bits back into a byte, and big-endian 32-bit words.

use vstd::prelude::*;

verus! {

/// Bit `k` (counted from the least significant bit) of `value`.
pub open spec fn bit_at(value: u64, k: nat) -> u8 {
    ((value >> k) & 1) as u8
}

/// The lowest `n` bits of `value`, most significant bit first.
pub open spec fn spec_msb_bits(value: u64, n: nat) -> Seq<u8> {
    Seq::new(n, |i: int| bit_at(value, (n - 1 - i) as nat))
}

/// The number whose binary digits, most significant first, are `bits`.
pub open spec fn bits_value(bits: Seq<u8>) -> nat
    decreases bits.len(),
{
    if bits.len() == 0 {
        0
    } else {
        2 * bits_value(bits.drop_last()) + bits.last() as nat
    }
}

/// Every element of `s` is a binary digit.
pub open spec fn all_binary(s: Seq<u8>) -> bool {
    forall|i: int| 0 <= i < s.len() ==> #[trigger] s[i] <= 1
}

/// Big-endian value of four bytes.
pub open spec fn be_u32(b0: u8, b1: u8, b2: u8, b3: u8) -> int {
    b0 * 0x100_0000 + b1 * 0x1_0000 + b2 * 0x100 + b3
}

/// Big-endian bytes of a 32-bit value.
pub open spec fn be_bytes(v: u32) -> Seq<u8> {
    seq![
        (v / 0x100_0000) as u8,
        (v / 0x1_0000 % 0x100) as u8,
        (v / 0x100 % 0x100) as u8,
        (v % 0x100) as u8,
    ]
}

/// `2^n` as a natural number.
spec fn pow2_nat(n: nat) -> nat
    decreases n,
{
    if n == 0 {
        1
    } else {
        2 * pow2_nat((n - 1) as nat)
    }
}

/// Expands the lowest `count` bits of `value` into a vector of 0/1 bytes,
/// most significant bit first. Used to build the preamble pattern.
pub fn msb_bits(value: u64, count: usize) -> (bits: Vec<u8>)
    requires
        count <= 64,
    ensures
        bits@ == spec_msb_bits(value, count as nat),
        all_binary(bits@),
{
    let mut bits: Vec<u8> = Vec::with_capacity(count);
    let mut k: usize = count;
    while k > 0
        invariant
            k <= count <= 64,
            bits@.len() == count - k,
            forall|j: int|
                0 <= j < bits@.len() ==> #[trigger] bits@[j] == bit_at(value, (count - 1 - j) as nat),
            all_binary(bits@),
        decreases k,
    {
        k = k - 1;
        let b = ((value >> k) & 1) as u8;
        assert(((value >> k) & 1) <= 1) by (bit_vector);
        bits.push(b);
    }
    assert(bits@ =~= spec_msb_bits(value, count as nat));
    bits
}

/// Packs up to eight binary digits, most significant first, into a byte.
pub fn pack_bits(bits: &[u8]) -> (byte: u8)
    requires
        bits@.len() <= 8,
        all_binary(bits@),
    ensures
        byte as nat == bits_value(bits@),
{
    let mut acc: u8 = 0;
    let mut i: usize = 0;
    while i < bits.len()
        invariant
            i <= bits@.len() <= 8,
            all_binary(bits@),
            acc as nat == bits_value(bits@.take(i as int)),
            bits_value(bits@.take(i as int)) < pow2_nat(i as nat),
        decreases bits@.len() - i,
    {
        let b = bits[i];
        assert(bits@.take(i + 1).drop_last() =~= bits@.take(i as int));
        assert(b <= 1);
        assert(pow2_nat(i as nat) <= 128) by {
            reveal_with_fuel(pow2_nat, 8);
        }
        assert((acc << 1u8) | b == 2 * acc + b) by (bit_vector)
            requires acc < 128, b <= 1;
        acc = (acc << 1u8) | b;
        i = i + 1;
    }
    assert(bits@.take(i as int) =~= bits@);
    acc
}

/// Reads a big-endian 32-bit word from four bytes.
pub fn read_be_u32(b0: u8, b1: u8, b2: u8, b3: u8) -> (v: u32)
    ensures
        v == be_u32(b0, b1, b2, b3),
{
    let v = ((b0 as u32) << 24u32) | ((b1 as u32) << 16u32) | ((b2 as u32) << 8u32) | (b3 as u32);
    assert(v == b0 as u32 * 0x100_0000 + b1 as u32 * 0x1_0000 + b2 as u32 * 0x100 + b3 as u32)
        by (bit_vector)
        requires
            v == ((b0 as u32) << 24u32) | ((b1 as u32) << 16u32) | ((b2 as u32) << 8u32) | (b3 as u32),
    ;
    v
}

/// Splits a 32-bit word into its bytes, most significant first.
pub fn write_be_u32(v: u32) -> (b: [u8; 4])
    ensures
        b@ == be_bytes(v),
{
    let b = [(v >> 24u32) as u8, (v >> 16u32) as u8, (v >> 8u32) as u8, v as u8];
    assert((v >> 24u32) as u8 == (v / 0x100_0000) as u8 && (v >> 16u32) as u8 == (v / 0x1_0000 % 0x100) as u8
        && (v >> 8u32) as u8 == (v / 0x100 % 0x100) as u8 && v as u8 == (v % 0x100) as u8)
        by (bit_vector);
    assert(b@ =~= be_bytes(v));
    b
}

/// Law: packing the eight bits of a byte, most significant first, gives the
/// byte back.
pub proof fn lemma_byte_bits_roundtrip(b: u8)
    ensures
        bits_value(spec_msb_bits(b as u64, 8)) == b as nat,
{
    let s = spec_msb_bits(b as u64, 8);
    let v = b as u64;
    reveal_with_fuel(bits_value, 9);
    assert(s.drop_last().drop_last().drop_last().drop_last().drop_last().drop_last().drop_last().drop_last() =~= Seq::<u8>::empty());
    assert(v < 256 ==> 128 * ((v >> 7) & 1) + 64 * ((v >> 6) & 1) + 32 * ((v >> 5) & 1) + 16 * ((v >> 4) & 1)
        + 8 * ((v >> 3) & 1) + 4 * ((v >> 2) & 1) + 2 * ((v >> 1) & 1) + ((v >> 0) & 1) == v) by (bit_vector);
}

/// Law: reading back the big-endian bytes of a word gives the word.
pub proof fn lemma_be_roundtrip(v: u32)
    ensures
        ({
            let s = be_bytes(v);
            be_u32(s[0], s[1], s[2], s[3]) == v
        }),
{
}

/// Law: bits are packed most significant first: of eight binary digits,
/// the first decides whether the byte is at least 128 and the last whether
/// it is odd.
pub proof fn lemma_pack_msb_first(bits: Seq<u8>)
    requires
        bits.len() == 8,
        all_binary(bits),
    ensures
        bits_value(bits) < 256,
        (bits_value(bits) >= 128) == (bits[0] == 1),
        (bits_value(bits) % 2 == 1) == (bits[7] == 1),
{
    reveal_with_fuel(bits_value, 9);
    let s1 = bits.drop_last();
    let s2 = s1.drop_last();
    let s3 = s2.drop_last();
    let s4 = s3.drop_last();
    let s5 = s4.drop_last();
    let s6 = s5.drop_last();
    let s7 = s6.drop_last();
    let s8 = s7.drop_last();
    assert(s8.len() == 0);
    assert(s7.last() == bits[0] && s6.last() == bits[1] && s5.last() == bits[2]
        && s4.last() == bits[3] && s3.last() == bits[4] && s2.last() == bits[5]
        && s1.last() == bits[6] && bits.last() == bits[7]);
    assert(bits[0] <= 1 && bits[1] <= 1 && bits[2] <= 1 && bits[3] <= 1);
    assert(bits[4] <= 1 && bits[5] <= 1 && bits[6] <= 1 && bits[7] <= 1);
}

} // verus!
