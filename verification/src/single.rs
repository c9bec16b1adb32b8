//! Integer keys for IEEE 754 single-precision numbers given by their 32 bits.
//!
//! A score or a distance is handed to this crate as the bit pattern of the
//! number. Its key is a signed integer that grows with the number: ranking by
//! key is ranking by value, the two zeros rank alike, and a NaN ranks above
//! every number.

use vstd::prelude::*;
use vstd::arithmetic::power2::{
    lemma_pow2_pos, lemma_pow2_strictly_increases, lemma_pow2_unfold, pow2,
};

verus! {

/// The bit pattern of positive infinity; a greater magnitude is a NaN.
pub const INFINITY_BITS: u32 = 0x7F80_0000;

/// The bit pattern of the number one.
pub const ONE_BITS: u32 = 0x3F80_0000;

/// The lowest bit pattern with the sign bit set.
pub const SIGN_BIT: u32 = 0x8000_0000;

/// The pattern without its sign bit.
pub open spec fn magnitude(bits: u32) -> int {
    if bits >= SIGN_BIT {
        bits - SIGN_BIT
    } else {
        bits as int
    }
}

/// The sign bit is set.
pub open spec fn is_negative(bits: u32) -> bool {
    bits >= SIGN_BIT
}

/// The pattern encodes no number.
pub open spec fn is_nan(bits: u32) -> bool {
    magnitude(bits) > INFINITY_BITS
}

/// The key of a pattern: the magnitude with the sign of the number, and the
/// greatest key for a NaN.
pub open spec fn key_of(bits: u32) -> int {
    if is_nan(bits) {
        i32::MAX as int
    } else if is_negative(bits) {
        -magnitude(bits)
    } else {
        magnitude(bits)
    }
}

/// Computes the key of a bit pattern.
pub fn ordered_key(bits: u32) -> (key: i32)
    ensures
        key == key_of(bits),
{
    let negative: bool = bits >= SIGN_BIT;
    let mag: u32 = if negative {
        bits - SIGN_BIT
    } else {
        bits
    };
    if mag > INFINITY_BITS {
        i32::MAX
    } else if negative {
        -(mag as i32)
    } else {
        mag as i32
    }
}

/// The pattern encodes a number greater than zero, infinity included.
pub open spec fn above_zero(bits: u32) -> bool {
    !is_nan(bits) && key_of(bits) > 0
}

/// The pattern encodes a number from zero to one, both included.
pub open spec fn within_unit(bits: u32) -> bool {
    !is_nan(bits) && 0 <= key_of(bits) <= ONE_BITS
}

/// Decides `above_zero`.
pub fn is_above_zero(bits: u32) -> (yes: bool)
    ensures
        yes == above_zero(bits),
{
    0 < bits && bits <= INFINITY_BITS
}

/// Decides `within_unit`.
pub fn is_within_unit(bits: u32) -> (yes: bool)
    ensures
        yes == within_unit(bits),
{
    bits <= ONE_BITS || bits == SIGN_BIT
}

/// The keys of a list of bit patterns, in the same order.
pub fn ordered_keys(bits: &Vec<u32>) -> (keys: Vec<i32>)
    ensures
        keys.len() == bits.len(),
        forall|i: int| 0 <= i < bits.len() ==> keys[i] == key_of(#[trigger] bits[i]),
{
    let mut keys: Vec<i32> = Vec::new();
    let mut i: usize = 0;
    while i < bits.len()
        invariant
            i <= bits.len(),
            keys.len() == i,
            forall|j: int| 0 <= j < i ==> keys[j] == key_of(#[trigger] bits[j]),
        decreases bits.len() - i,
    {
        keys.push(ordered_key(bits[i]));
        i = i + 1;
    }
    keys
}

/// The pattern encodes a finite number.
pub open spec fn is_finite(bits: u32) -> bool {
    magnitude(bits) < INFINITY_BITS
}

/// The size of the number that a magnitude encodes, counted in units of
/// 2^-149: the 23 fraction bits alone where the 8 exponent bits are zero,
/// and else the fraction with a leading one, doubled once for each exponent
/// step above one.
pub open spec fn amount(magnitude: int) -> int {
    let exponent = magnitude / 0x80_0000;
    let fraction = magnitude % 0x80_0000;
    if exponent == 0 {
        fraction
    } else {
        (0x80_0000 + fraction) * pow2((exponent - 1) as nat)
    }
}

/// The finite number that a pattern encodes, counted in units of 2^-149.
pub open spec fn scaled_value(bits: u32) -> int {
    if is_negative(bits) {
        -amount(magnitude(bits))
    } else {
        amount(magnitude(bits))
    }
}

/// A greater magnitude encodes a greater size.
proof fn lemma_amount_grows(low: int, high: int)
    requires
        0 <= low < high,
    ensures
        0 <= amount(low) < amount(high),
{
    let e1 = low / 0x80_0000;
    let f1 = low % 0x80_0000;
    let e2 = high / 0x80_0000;
    let f2 = high % 0x80_0000;
    assert(low == e1 * 0x80_0000 + f1 && high == e2 * 0x80_0000 + f2);
    assert(e1 <= e2);
    if e1 > 0 {
        lemma_pow2_pos((e1 - 1) as nat);
    }
    lemma_pow2_pos((e2 - 1) as nat);
    let scale_high = pow2((e2 - 1) as nat) as int;
    if e1 == e2 {
        assert(f1 < f2);
        if e1 > 0 {
            assert((0x80_0000 + f1) * scale_high < (0x80_0000 + f2) * scale_high) by (nonlinear_arith)
                requires
                    f1 < f2,
                    scale_high > 0,
            ;
        }
    } else if e1 == 0 {
        assert((0x80_0000 + f2) * scale_high >= 0x80_0000 + f2) by (nonlinear_arith)
            requires
                f2 >= 0,
                scale_high >= 1,
        ;
    } else {
        let scale_low = pow2((e1 - 1) as nat) as int;
        lemma_pow2_unfold(e1 as nat);
        if e1 < e2 - 1 {
            lemma_pow2_strictly_increases(e1 as nat, (e2 - 1) as nat);
        }
        assert(2 * scale_low <= scale_high);
        assert((0x80_0000 + f1) * scale_low < 0x80_0000 * (2 * scale_low)) by (nonlinear_arith)
            requires
                0 <= f1 < 0x80_0000,
                scale_low > 0,
        ;
        assert(0x80_0000 * (2 * scale_low) <= (0x80_0000 + f2) * scale_high) by (nonlinear_arith)
            requires
                f2 >= 0,
                2 * scale_low <= scale_high,
                scale_low > 0,
        ;
    }
    if e1 > 0 {
        let scale_low = pow2((e1 - 1) as nat) as int;
        assert((0x80_0000 + f1) * scale_low >= 0) by (nonlinear_arith)
            requires
                f1 >= 0,
                scale_low > 0,
        ;
    }
}

/// Keys order finite numbers as their values do: the key of one pattern is
/// below the key of another exactly where the number it encodes is the
/// smaller one, and two patterns share a key exactly where they encode the
/// same number.
pub proof fn keys_order_by_value(a: u32, b: u32)
    requires
        is_finite(a),
        is_finite(b),
    ensures
        key_of(a) < key_of(b) <==> scaled_value(a) < scaled_value(b),
        key_of(a) == key_of(b) <==> scaled_value(a) == scaled_value(b),
{
    let ma = magnitude(a);
    let mb = magnitude(b);
    assert(amount(0) == 0);
    if ma < mb {
        lemma_amount_grows(ma, mb);
    } else if mb < ma {
        lemma_amount_grows(mb, ma);
    }
    if 0 < ma {
        lemma_amount_grows(0, ma);
    }
    if 0 < mb {
        lemma_amount_grows(0, mb);
    }
}

/// Infinity has a key above, and minus infinity a key below, the key of
/// every finite number; the key of a NaN is the greatest of all.
pub proof fn keys_have_limits(bits: u32)
    ensures
        key_of(bits) <= i32::MAX,
        is_finite(bits) ==> -(INFINITY_BITS as int) < key_of(bits) < INFINITY_BITS,
        is_nan(bits) ==> key_of(bits) == i32::MAX,
{
}

} // verus!
