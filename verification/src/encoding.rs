//! Byte encodings of integers that do not depend on the host.

use vstd::prelude::*;

verus! {

/// The `width` lowest base-256 digits of `value`, least significant first:
/// the little-endian encoding of `value` in `width` bytes.
pub open spec fn le_bytes(value: nat, width: nat) -> Seq<u8>
    decreases width,
{
    if width == 0 {
        Seq::empty()
    } else {
        seq![(value % 256) as u8] + le_bytes(value / 256, (width - 1) as nat)
    }
}

/// The number whose base-256 digits are `bytes`, least significant first.
pub open spec fn le_value(bytes: Seq<u8>) -> nat
    decreases bytes.len(),
{
    if bytes.len() == 0 {
        0
    } else {
        bytes[0] as nat + 256 * le_value(bytes.drop_first())
    }
}

/// 256 to the power `width`.
pub open spec fn radix_pow(width: nat) -> nat
    decreases width,
{
    if width == 0 {
        1
    } else {
        256 * radix_pow((width - 1) as nat)
    }
}

/// An encoding has as many bytes as were asked for.
pub proof fn lemma_le_bytes_len(value: nat, width: nat)
    ensures
        le_bytes(value, width).len() == width,
    decreases width,
{
    if width > 0 {
        lemma_le_bytes_len(value / 256, (width - 1) as nat);
    }
}

/// Decoding an encoding gives back the value, cut to the digits that were
/// kept.
pub proof fn lemma_le_round_trip(value: nat, width: nat)
    ensures
        radix_pow(width) > 0,
        le_value(le_bytes(value, width)) == value % radix_pow(width),
    decreases width,
{
    if width > 0 {
        let rest = (width - 1) as nat;
        let high = value / 256;
        let low = value % 256;
        lemma_le_round_trip(high, rest);
        lemma_le_bytes_len(high, rest);
        let tail = le_bytes(high, rest);
        let whole = le_bytes(value, width);
        assert(whole.drop_first() =~= tail);
        assert(whole[0] == low);
        let p = radix_pow(rest);
        assert(value == 256 * high + low) by (nonlinear_arith)
            requires
                high == value / 256,
                low == value % 256,
        ;
        assert(low + 256 * (high % p) == value % (256 * p)) by (nonlinear_arith)
            requires
                value == 256 * high + low,
                0 <= low < 256,
                p > 0,
        ;
    }
}

/// Two values below `256^width` with the same encoding are the same value.
pub proof fn lemma_le_bytes_injective(first: nat, second: nat, width: nat)
    requires
        first < radix_pow(width),
        second < radix_pow(width),
        le_bytes(first, width) == le_bytes(second, width),
    ensures
        first == second,
{
    lemma_le_round_trip(first, width);
    lemma_le_round_trip(second, width);
    assert(first % radix_pow(width) == first) by (nonlinear_arith)
        requires
            first < radix_pow(width),
    ;
    assert(second % radix_pow(width) == second) by (nonlinear_arith)
        requires
            second < radix_pow(width),
    ;
}

/// Every `u64` lies below `256^8`.
pub proof fn lemma_u64_below_radix_pow(value: u64)
    ensures
        (value as nat) < radix_pow(8),
{
    reveal_with_fuel(radix_pow, 9);
}

/// The low byte of `word` and what is left above it, as arithmetic.
proof fn lemma_split_low_byte(word: u64)
    ensures
        (word & 0xff) == word % 256,
        (word >> 8) == word / 256,
{
    assert((word & 0xff) == word % 256) by (bit_vector);
    assert((word >> 8) == word / 256) by (bit_vector);
}

/// The little-endian encoding of a `u64`, whatever the byte order of the host.
pub fn u64_le(value: u64) -> (bytes: [u8; 8])
    ensures
        bytes@ == le_bytes(value as nat, 8),
{
    let w0: u64 = value;
    let w1: u64 = w0 >> 8;
    let w2: u64 = w1 >> 8;
    let w3: u64 = w2 >> 8;
    let w4: u64 = w3 >> 8;
    let w5: u64 = w4 >> 8;
    let w6: u64 = w5 >> 8;
    let w7: u64 = w6 >> 8;
    proof {
        lemma_split_low_byte(w0);
        lemma_split_low_byte(w1);
        lemma_split_low_byte(w2);
        lemma_split_low_byte(w3);
        lemma_split_low_byte(w4);
        lemma_split_low_byte(w5);
        lemma_split_low_byte(w6);
        lemma_split_low_byte(w7);
    }
    let bytes: [u8; 8] = [
        (w0 & 0xff) as u8,
        (w1 & 0xff) as u8,
        (w2 & 0xff) as u8,
        (w3 & 0xff) as u8,
        (w4 & 0xff) as u8,
        (w5 & 0xff) as u8,
        (w6 & 0xff) as u8,
        (w7 & 0xff) as u8,
    ];
    proof {
        reveal_with_fuel(le_bytes, 9);
        assert(bytes@ =~= le_bytes(value as nat, 8));
    }
    bytes
}

} // verus!
