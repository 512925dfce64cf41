//! The header codec: the message's byte length, written into the lowest bits
//! of the first samples of an image and recovered from them.
//!
//! The length is written least significant bit first. The reader
//! accumulates the bits most significant first, takes the binary numeral of
//! the accumulated number, reverses it and appends one zero for each clear
//! bit that came before the first set bit, in whichever header pixel that
//! bit lies. `lemma_recovered_length` shows that this yields the number that
//! was written, for every header. Appending fewer zeros would not: a single
//! zero recovers 2 where 4 was written.

use crate::bits::{be_value, bit_of, le_value, lemma_be_value_is_reversed_le_value};
use crate::error::StegoError;
use vstd::prelude::*;

verus! {

/// The number of clear bits before the first set bit; the length of the
/// sequence if no bit is set.
pub open spec fn leading_zeros(bits: Seq<bool>) -> nat
    decreases bits.len(),
{
    if bits.len() == 0 || bits[0] {
        0
    } else {
        1 + leading_zeros(bits.drop_first())
    }
}

/// The number of zeros that the reader appends to the reversed numeral: the
/// clear bits before the first set bit, and none if no bit is set.
pub open spec fn zero_correction(bits: Seq<bool>) -> nat {
    if leading_zeros(bits) < bits.len() {
        leading_zeros(bits)
    } else {
        0
    }
}

/// The binary numeral of `n`, most significant digit first and without
/// leading zeros; the single digit 0 for zero.
pub open spec fn binary_digits(n: nat) -> Seq<bool>
    decreases n,
{
    if n < 2 {
        seq![n == 1]
    } else {
        binary_digits(n / 2).push(n % 2 == 1)
    }
}

/// The numeral that the reader parses: the binary numeral of the accumulated
/// number in reversed order, followed by `zero_bits` zeros.
pub open spec fn recovered_numeral(acc: nat, zero_bits: nat) -> Seq<bool> {
    binary_digits(acc).reverse() + Seq::new(zero_bits, |i: int| false)
}

/// The number that the reader recovers from the accumulated number and the
/// count of zeros to append.
pub open spec fn recovered_length(acc: nat, zero_bits: nat) -> nat {
    be_value(recovered_numeral(acc, zero_bits))
}

/// Bit `k` of a message length, bit 0 being the least significant.
pub fn length_bit(len: usize, k: u32) -> (b: bool)
    requires
        k < 32,
    ensures
        b == bit_of(len as nat, k as nat),
{
    let shift: usize = k as usize;
    let shifted: usize = len >> shift;
    proof {
        vstd::bits::lemma_usize_shr_is_div(len, shift);
        assert(shifted & 1 == shifted % 2) by (bit_vector);
    }
    (shifted & 1) == 1
}

/// The binary numeral of `n` in reversed order: its digits from the least
/// significant to the most significant one.
pub fn reversed_binary_digits(n: u32) -> (digits: Vec<bool>)
    ensures
        digits@ == binary_digits(n as nat).reverse(),
{
    let mut digits: Vec<bool> = Vec::new();
    let mut rest: u32 = n;
    while rest >= 2
        invariant
            digits@ + binary_digits(rest as nat).reverse() == binary_digits(n as nat).reverse(),
        decreases rest,
    {
        let odd: bool = rest % 2 == 1;
        digits.push(odd);
        rest = rest / 2;
    }
    digits.push(rest == 1);
    digits
}

/// Reads a binary numeral, most significant digit first. There is no result
/// for the empty numeral, nor for a number that does not fit in 32 bits.
pub fn parse_binary(digits: &[bool]) -> (parsed: Option<u32>)
    ensures
        parsed is Some <==> digits@.len() > 0 && be_value(digits@) <= u32::MAX,
        parsed matches Some(v) ==> v == be_value(digits@),
{
    if digits.len() == 0 {
        return None;
    }
    let mut value: u32 = 0;
    let mut i: usize = 0;
    while i < digits.len()
        invariant
            i <= digits@.len(),
            value == be_value(digits@.take(i as int)),
        decreases digits@.len() - i,
    {
        let digit: u32 = if digits[i] {
            1
        } else {
            0
        };
        proof {
            let grown = digits@.take(i + 1);
            assert(grown.drop_last() =~= digits@.take(i as int));
            lemma_be_value_prefix(digits@, i + 1);
        }
        if value > (u32::MAX - digit) / 2 {
            return None;
        }
        value = 2 * value + digit;
        i += 1;
    }
    assert(digits@.take(i as int) =~= digits@);
    Some(value)
}

/// Recovers the message length from the number accumulated over the header
/// bits, most significant bit first, and the number of zeros to append to its
/// reversed numeral. Fails if the corrected numeral spells a number that does
/// not fit in 32 bits.
pub fn recover_length(acc: u32, zero_bits: u8) -> (recovered: Result<u32, StegoError>)
    ensures
        match recovered {
            Ok(len) => len == recovered_length(acc as nat, zero_bits as nat),
            Err(e) => e == StegoError::MalformedHeader && recovered_length(
                acc as nat,
                zero_bits as nat,
            ) > u32::MAX,
        },
{
    let mut numeral = reversed_binary_digits(acc);
    let ghost reversed = numeral@;
    let mut appended: u8 = 0;
    while appended < zero_bits
        invariant
            appended <= zero_bits,
            numeral@ == reversed + Seq::new(appended as nat, |i: int| false),
        decreases zero_bits - appended,
    {
        numeral.push(false);
        appended += 1;
    }
    match parse_binary(numeral.as_slice()) {
        Some(len) => Ok(len),
        None => Err(StegoError::MalformedHeader),
    }
}

/// The first `i` digits of a numeral spell no more than the whole numeral.
pub proof fn lemma_be_value_prefix(bits: Seq<bool>, i: int)
    requires
        0 <= i <= bits.len(),
    ensures
        be_value(bits.take(i)) <= be_value(bits),
    decreases bits.len() - i,
{
    if i < bits.len() {
        lemma_be_value_prefix(bits, i + 1);
        let grown = bits.take(i + 1);
        assert(grown.drop_last() =~= bits.take(i));
    } else {
        assert(bits.take(i) =~= bits);
    }
}

/// Zeros in front of a numeral do not change the number it spells.
pub proof fn lemma_be_value_leading_zeros(zeros: nat, bits: Seq<bool>)
    ensures
        be_value(Seq::new(zeros, |i: int| false) + bits) == be_value(bits),
    decreases bits.len(), zeros,
{
    let pad = Seq::new(zeros, |i: int| false);
    if bits.len() > 0 {
        assert((pad + bits).drop_last() =~= pad + bits.drop_last());
        lemma_be_value_leading_zeros(zeros, bits.drop_last());
    } else if zeros > 0 {
        let shorter = Seq::new((zeros - 1) as nat, |i: int| false);
        assert((pad + bits).drop_last() =~= shorter + bits);
        lemma_be_value_leading_zeros((zeros - 1) as nat, bits);
    } else {
    }
}

/// A numeral that starts with a set digit is the binary numeral of the
/// number it spells, and that number is not zero.
pub proof fn lemma_binary_digits_of_be_value(bits: Seq<bool>)
    requires
        bits.len() > 0,
        bits[0],
    ensures
        be_value(bits) >= 1,
        binary_digits(be_value(bits)) == bits,
    decreases bits.len(),
{
    if bits.len() == 1 {
        assert(be_value(bits.drop_last()) == 0);
    } else {
        let upper = bits.drop_last();
        lemma_binary_digits_of_be_value(upper);
    }
}

/// Where a set bit exists, the sequence is its leading zeros followed by a
/// part that starts with a set bit.
pub proof fn lemma_leading_zeros_split(bits: Seq<bool>)
    requires
        leading_zeros(bits) < bits.len(),
    ensures
        bits[leading_zeros(bits) as int],
        bits == Seq::new(leading_zeros(bits), |i: int| false) + bits.skip(
            leading_zeros(bits) as int,
        ),
    decreases bits.len(),
{
    let z = leading_zeros(bits);
    if bits[0] {
    } else {
        let tail = bits.drop_first();
        lemma_leading_zeros_split(tail);
        let zt = leading_zeros(tail);
        assert(bits =~= Seq::new(z, |i: int| false) + bits.skip(z as int)) by {
            assert forall|i: int| 0 <= i < bits.len() implies bits[i] == (Seq::new(
                z,
                |i: int| false,
            ) + bits.skip(z as int))[i] by {
                if 0 < i < z {
                    assert(tail[i - 1] == (Seq::new(zt, |i: int| false) + tail.skip(zt as int))[i
                        - 1]);
                }
            }
        }
    }
}

/// Where no bit is set, every bit is clear.
pub proof fn lemma_leading_zeros_all(bits: Seq<bool>)
    requires
        leading_zeros(bits) >= bits.len(),
    ensures
        bits == Seq::new(bits.len(), |i: int| false),
    decreases bits.len(),
{
    if bits.len() > 0 {
        let tail = bits.drop_first();
        lemma_leading_zeros_all(tail);
        assert forall|i: int| 0 <= i < bits.len() implies !bits[i] by {
            if i > 0 {
                assert(bits[i] == tail[i - 1]);
                assert(tail[i - 1] == Seq::new(tail.len(), |i: int| false)[i - 1]);
            }
        }
    }
}

/// The leading zeros of a concatenation: those of the first part if it holds
/// a set bit, else all of the first part and the leading zeros of the second.
pub proof fn lemma_leading_zeros_concat(a: Seq<bool>, b: Seq<bool>)
    ensures
        leading_zeros(a) <= a.len(),
        leading_zeros(a + b) == if leading_zeros(a) < a.len() {
            leading_zeros(a)
        } else {
            a.len() + leading_zeros(b)
        },
    decreases a.len(),
{
    if a.len() == 0 {
    } else {
        assert((a + b).drop_first() =~= a.drop_first() + b);
        lemma_leading_zeros_concat(a.drop_first(), b);
    }
}

/// The reading is exact: accumulating the header bits most significant
/// first, reversing the binary numeral of the result and appending the zeros
/// that came before the first set bit recovers the number whose bits, least
/// significant first, are the header bits.
pub proof fn lemma_recovered_length(bits: Seq<bool>)
    ensures
        recovered_length(be_value(bits), zero_correction(bits)) == le_value(bits),
{
    let z = leading_zeros(bits);
    if z < bits.len() {
        let pad = Seq::new(z, |i: int| false);
        let body = bits.skip(z as int);
        lemma_leading_zeros_split(bits);
        lemma_be_value_leading_zeros(z, body);
        lemma_binary_digits_of_be_value(body);
        assert(recovered_numeral(be_value(bits), z) =~= bits.reverse()) by {
            assert(body.reverse() + pad =~= (pad + body).reverse());
        }
        lemma_be_value_is_reversed_le_value(bits.reverse());
        assert(bits.reverse().reverse() =~= bits);
    } else {
        let pad = Seq::new(bits.len(), |i: int| false);
        lemma_leading_zeros_all(bits);
        lemma_be_value_leading_zeros(bits.len(), Seq::<bool>::empty());
        assert(recovered_numeral(0, 0) =~= seq![false]);
        assert(be_value(seq![false].drop_last()) == 0);
        assert(pad.reverse() =~= pad);
        lemma_be_value_is_reversed_le_value(bits);
    }
}

} // verus!
