//! Bit sequences: the binary digits of numbers and bytes, least significant
//! first or most significant first, and the lowest bit of a channel sample.

use vstd::arithmetic::div_mod::lemma_div_denominator;
use vstd::arithmetic::power2::{lemma2_to64, lemma_pow2_pos, lemma_pow2_unfold, pow2};
use vstd::prelude::*;

verus! {

/// Bit `k` of `n`, bit 0 being the least significant.
pub open spec fn bit_of(n: nat, k: nat) -> bool {
    (n / pow2(k)) % 2 == 1
}

/// A bit as a number: 1 for a set bit, 0 for a clear one.
pub open spec fn bit_value(b: bool) -> nat {
    if b {
        1
    } else {
        0
    }
}

/// The lowest `width` bits of `n`, least significant first.
pub open spec fn le_bits(n: nat, width: nat) -> Seq<bool> {
    Seq::new(width, |k: int| bit_of(n, k as nat))
}

/// The number whose binary digits are `bits`, least significant first.
pub open spec fn le_value(bits: Seq<bool>) -> nat
    decreases bits.len(),
{
    if bits.len() == 0 {
        0
    } else {
        bit_value(bits[0]) + 2 * le_value(bits.drop_first())
    }
}

/// The number whose binary digits are `bits`, most significant first.
pub open spec fn be_value(bits: Seq<bool>) -> nat
    decreases bits.len(),
{
    if bits.len() == 0 {
        0
    } else {
        2 * be_value(bits.drop_last()) + bit_value(bits.last())
    }
}

/// The lowest bit of a channel sample.
pub open spec fn lsb(sample: u8) -> bool {
    sample % 2 == 1
}

/// The sample with its lowest bit replaced by `b` and its seven upper bits
/// kept.
pub open spec fn with_lsb(sample: u8, b: bool) -> u8 {
    (sample - sample % 2 + bit_value(b)) as u8
}

/// The lowest bit of each sample, in order.
pub open spec fn lsbs(samples: Seq<u8>) -> Seq<bool> {
    Seq::new(samples.len(), |i: int| lsb(samples[i]))
}

/// The bits of a byte sequence: eight per byte, each byte least significant
/// bit first.
pub open spec fn unpacked_bits(bytes: Seq<u8>) -> Seq<bool> {
    Seq::new(8 * bytes.len(), |i: int| bit_of(bytes[i / 8] as nat, (i % 8) as nat))
}

/// The bytes that a bit sequence spells: each full group of eight bits is one
/// byte, least significant bit first; an incomplete last group is dropped.
pub open spec fn packed_bytes(bits: Seq<bool>) -> Seq<u8> {
    Seq::new(bits.len() / 8, |j: int| le_value(bits.subrange(8 * j, 8 * j + 8)) as u8)
}

/// Halving a number shifts its bits down by one place.
pub proof fn lemma_bit_of_half(n: nat, k: nat)
    ensures
        bit_of(n, 0) == (n % 2 == 1),
        bit_of(n, k + 1) == bit_of(n / 2, k),
{
    lemma2_to64();
    lemma_pow2_unfold(k + 1);
    lemma_pow2_pos(k);
    lemma_div_denominator(n as int, 2, pow2(k) as int);
}

/// The bits of `n` are its parity followed by the bits of `n / 2`.
pub proof fn lemma_le_bits_unfold(n: nat, width: nat)
    requires
        width > 0,
    ensures
        le_bits(n, width) == seq![n % 2 == 1] + le_bits(n / 2, (width - 1) as nat),
{
    let rest = le_bits(n / 2, (width - 1) as nat);
    assert forall|k: int| 0 <= k < width implies le_bits(n, width)[k] == (seq![n % 2 == 1]
        + rest)[k] by {
        if k == 0 {
            lemma_bit_of_half(n, 0);
        } else {
            lemma_bit_of_half(n, (k - 1) as nat);
        }
    }
}

/// A number below `2^width` is the value of its `width` lowest bits.
pub proof fn lemma_le_value_of_le_bits(n: nat, width: nat)
    requires
        n < pow2(width),
    ensures
        le_value(le_bits(n, width)) == n,
    decreases width,
{
    lemma2_to64();
    if width == 0 {
    } else {
        lemma_pow2_unfold(width);
        lemma_le_bits_unfold(n, width);
        let rest = le_bits(n / 2, (width - 1) as nat);
        let bits = le_bits(n, width);
        assert(bits.drop_first() =~= rest);
        lemma_le_value_of_le_bits(n / 2, (width - 1) as nat);
    }
}

/// A bit sequence spells a number below two to its length, whichever end
/// comes first.
pub proof fn lemma_value_bound(bits: Seq<bool>)
    ensures
        le_value(bits) < pow2(bits.len()),
        be_value(bits) < pow2(bits.len()),
    decreases bits.len(),
{
    lemma2_to64();
    if bits.len() > 0 {
        lemma_pow2_unfold(bits.len());
        lemma_value_bound(bits.drop_first());
        lemma_value_bound(bits.drop_last());
    }
}

/// Reading a sequence most significant bit first is reading its reversal
/// least significant bit first.
pub proof fn lemma_be_value_is_reversed_le_value(bits: Seq<bool>)
    ensures
        be_value(bits) == le_value(bits.reverse()),
    decreases bits.len(),
{
    if bits.len() > 0 {
        let rev = bits.reverse();
        assert(rev.drop_first() =~= bits.drop_last().reverse());
        lemma_be_value_is_reversed_le_value(bits.drop_last());
    } else {
    }
}

/// Eight bits of a byte, put together again, give the byte.
pub proof fn lemma_pack_unpack(bytes: Seq<u8>)
    ensures
        packed_bytes(unpacked_bits(bytes)) == bytes,
{
    lemma2_to64();
    let bits = unpacked_bits(bytes);
    assert forall|j: int| 0 <= j < bytes.len() implies packed_bytes(bits)[j] == bytes[j] by {
        let group = bits.subrange(8 * j, 8 * j + 8);
        assert(group =~= le_bits(bytes[j] as nat, 8)) by {
            assert forall|k: int| 0 <= k < 8 implies group[k] == le_bits(bytes[j] as nat, 8)[k] by {
                assert((8 * j + k) / 8 == j);
                assert((8 * j + k) % 8 == k);
            }
        }
        lemma_le_value_of_le_bits(bytes[j] as nat, 8);
    }
}

/// The lowest bit of a sample.
pub fn read_lsb(sample: u8) -> (b: bool)
    ensures
        b == lsb(sample),
{
    assert(sample & 1 == sample % 2) by (bit_vector);
    (sample & 1) == 1
}

/// Replaces the lowest bit of a sample and keeps the other seven.
pub fn write_lsb(sample: u8, b: bool) -> (out: u8)
    ensures
        out == with_lsb(sample, b),
{
    let low: u8 = if b {
        1
    } else {
        0
    };
    assert((sample & 0xFE) | low == sample - sample % 2 + low) by (bit_vector)
        requires
            low <= 1,
    ;
    (sample & 0xFE) | low
}

/// Flattens bytes into bits, each byte least significant bit first.
pub fn bytes_to_bits(bytes: &[u8]) -> (bits: Vec<bool>)
    requires
        8 * bytes@.len() <= isize::MAX,
    ensures
        bits@ == unpacked_bits(bytes@),
{
    let mut bits: Vec<bool> = Vec::new();
    let mut j: usize = 0;
    while j < bytes.len()
        invariant
            j <= bytes@.len(),
            bits@ == unpacked_bits(bytes@.take(j as int)),
        decreases bytes@.len() - j,
    {
        let byte: u8 = bytes[j];
        let ghost before = bits@;
        let mut k: u8 = 0;
        while k < 8
            invariant
                k <= 8,
                j < bytes@.len(),
                byte == bytes@[j as int],
                bits@ == before + le_bits(byte as nat, k as nat),
            decreases 8 - k,
        {
            let set: bool = ((byte >> k) & 1) == 1;
            proof {
                vstd::bits::lemma_u8_shr_is_div(byte, k);
                let shifted: u8 = byte >> k;
                assert(shifted & 1 == shifted % 2) by (bit_vector);
            }
            bits.push(set);
            k += 1;
        }
        j += 1;
    }
    bits
}

/// Groups bits into bytes, each group of eight least significant bit first;
/// bits beyond the last full group are dropped.
pub fn bits_to_bytes(bits: &[bool]) -> (bytes: Vec<u8>)
    ensures
        bytes@ == packed_bytes(bits@),
{
    let count: usize = bits.len() / 8;
    let mut bytes: Vec<u8> = Vec::new();
    let mut j: usize = 0;
    while j < count
        invariant
            j <= count,
            count == bits@.len() / 8,
            bits@.len() <= usize::MAX,
            bytes@ == packed_bytes(bits@).take(j as int),
        decreases count - j,
    {
        let ghost group = bits@.subrange(8 * j, 8 * j + 8);
        let mut byte: u8 = 0;
        let mut k: usize = 8;
        while k > 0
            invariant
                k <= 8,
                8 * j + 8 <= bits@.len() <= usize::MAX,
                group == bits@.subrange(8 * j, 8 * j + 8),
                byte == le_value(group.subrange(k as int, 8)),
            decreases k,
        {
            k -= 1;
            let set: bool = bits[8 * j + k];
            let low: u8 = if set {
                1
            } else {
                0
            };
            proof {
                let tail = group.subrange(k as int, 8);
                assert(tail.drop_first() =~= group.subrange(k + 1, 8));
                lemma_value_bound(tail);
                lemma2_to64();
                assert((byte << 1) | low == 2 * byte + low) by (bit_vector)
                    requires
                        byte < 128,
                        low <= 1,
                ;
            }
            byte = (byte << 1) | low;
        }
        assert(group.subrange(0, 8) =~= group);
        bytes.push(byte);
        j += 1;
    }
    bytes
}

} // verus!
