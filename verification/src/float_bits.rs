//! The order of single-precision numbers, on their bit patterns.

use vstd::prelude::*;

verus! {

/// The bit pattern of positive infinity.
pub const INFINITY_BITS: u32 = 0x7f80_0000;

/// Whether a bit pattern is not that of a number.
pub open spec fn is_nan_bits(bits: u32) -> bool {
    (bits & 0x7fff_ffffu32) > INFINITY_BITS
}

/// A key by which bit patterns are ordered as the numbers are that they stand for.
pub open spec fn order_key(bits: u32) -> u32 {
    if bits & 0x8000_0000u32 == 0 {
        bits | 0x8000_0000u32
    } else {
        !bits
    }
}

/// Whether a bit pattern is not that of a number.
pub fn is_nan(bits: u32) -> (nan: bool)
    ensures
        nan == is_nan_bits(bits),
{
    (bits & 0x7fff_ffffu32) > INFINITY_BITS
}

/// A key by which bit patterns are ordered as the numbers are that they stand for.
pub fn key_of(bits: u32) -> (key: u32)
    ensures
        key == order_key(bits),
{
    if bits & 0x8000_0000u32 == 0 {
        bits | 0x8000_0000u32
    } else {
        !bits
    }
}

/// Whether a bit pattern is that of zero, of either sign.
pub open spec fn is_zero_bits(bits: u32) -> bool {
    bits & 0x7fff_ffffu32 == 0
}

/// Whether a number lies above another. The two zeros are the same, and what is not a number lies
/// above and below nothing.
pub open spec fn is_above(a: u32, b: u32) -> bool {
    &&& !is_nan_bits(a)
    &&& !is_nan_bits(b)
    &&& !(is_zero_bits(a) && is_zero_bits(b))
    &&& order_key(a) > order_key(b)
}

/// The larger one of two numbers. What is not a number gives way to a number.
pub open spec fn larger_of(a: u32, b: u32) -> u32 {
    if is_nan_bits(b) || is_above(a, b) {
        a
    } else {
        b
    }
}

/// Whether a number lies above another.
pub fn exceeds(a: u32, b: u32) -> (above: bool)
    ensures
        above == is_above(a, b),
{
    !is_nan(a) && !is_nan(b) && !(a & 0x7fff_ffffu32 == 0 && b & 0x7fff_ffffu32 == 0) && key_of(a)
        > key_of(b)
}

/// The larger one of two numbers. What is not a number gives way to a number.
pub fn larger(a: u32, b: u32) -> (larger: u32)
    ensures
        larger == larger_of(a, b),
{
    if is_nan(b) || exceeds(a, b) {
        a
    } else {
        b
    }
}

/// Of two numbers, the larger one is neither below the one nor below the other, whichever way they
/// are given.
pub proof fn larger_is_not_below(a: u32, b: u32)
    ensures
        !is_above(a, larger_of(a, b)),
        !is_above(b, larger_of(a, b)),
        larger_of(a, b) == a || larger_of(a, b) == b,
        !is_nan_bits(a) || !is_nan_bits(b) ==> !is_nan_bits(larger_of(a, b)),
{
}

/// A number is positive exactly if its key lies above that of zero.
pub proof fn positive_is_above_zero(bits: u32)
    ensures
        is_above(bits, 0) <==> !is_nan_bits(bits) && order_key(bits) > order_key(0),
        is_zero_bits(0),
        is_above(bits, 0) ==> !is_zero_bits(bits),
{
    assert(0u32 & 0x7fff_ffffu32 == 0 && 0u32 & 0x8000_0000u32 == 0 && 0u32 | 0x8000_0000u32
        == 0x8000_0000u32) by (bit_vector);
    assert(bits & 0x7fff_ffffu32 == 0 ==> (if bits & 0x8000_0000u32 == 0 {
        bits | 0x8000_0000u32
    } else {
        !bits
    }) <= 0x8000_0000u32) by (bit_vector);
}

/// Two bit patterns are the same if their keys are.
pub proof fn order_key_injective(a: u32, b: u32)
    requires
        order_key(a) == order_key(b),
    ensures
        a == b,
{
    assert((if a & 0x8000_0000u32 == 0 {
        a | 0x8000_0000u32
    } else {
        !a
    }) == (if b & 0x8000_0000u32 == 0 {
        b | 0x8000_0000u32
    } else {
        !b
    }) ==> a == b) by (bit_vector);
}

/// The numbers that are not negative are ordered as their bit patterns are, and lie above all that
/// are negative. Those are ordered the other way round.
pub proof fn order_key_orders(a: u32, b: u32)
    ensures
        a < 0x8000_0000 && b < 0x8000_0000 ==> (order_key(a) < order_key(b) <==> a < b),
        a >= 0x8000_0000 && b < 0x8000_0000 ==> order_key(a) < order_key(b),
        a >= 0x8000_0000 && b >= 0x8000_0000 ==> (order_key(a) < order_key(b) <==> b < a),
{
    assert(a < 0x8000_0000u32 ==> a & 0x8000_0000u32 == 0 && a | 0x8000_0000u32 == a + 0x8000_0000u32)
        by (bit_vector);
    assert(b < 0x8000_0000u32 ==> b & 0x8000_0000u32 == 0 && b | 0x8000_0000u32 == b + 0x8000_0000u32)
        by (bit_vector);
    assert(a >= 0x8000_0000u32 ==> a & 0x8000_0000u32 != 0 && !a == 0xffff_ffffu32 - a)
        by (bit_vector);
    assert(b >= 0x8000_0000u32 ==> b & 0x8000_0000u32 != 0 && !b == 0xffff_ffffu32 - b)
        by (bit_vector);
}

/// What is not a number has a bit pattern beyond that of infinity, of either sign.
pub proof fn numbers_end_at_infinity(bits: u32)
    ensures
        is_nan_bits(bits) <==> 0x7f80_0000 < bits < 0x8000_0000 || bits > 0xff80_0000,
        is_zero_bits(bits) <==> bits == 0 || bits == 0x8000_0000,
{
    assert((bits & 0x7fff_ffffu32) > 0x7f80_0000u32 <==> (0x7f80_0000u32 < bits && bits
        < 0x8000_0000u32) || bits > 0xff80_0000u32) by (bit_vector);
    assert(bits & 0x7fff_ffffu32 == 0 <==> bits == 0 || bits == 0x8000_0000u32) by (bit_vector);
}

/// Of numbers that are not negative, the one with the larger bit pattern lies above the other one. A
/// number that is not negative lies above all that are, but for the two zeros. Of numbers that are
/// negative, the one with the smaller bit pattern lies above the other one. Nothing lies above itself,
/// and what is not a number lies above and below nothing.
pub proof fn above_follows_the_bit_patterns(a: u32, b: u32)
    ensures
        a <= 0x7f80_0000 && b <= 0x7f80_0000 ==> (is_above(a, b) <==> a > b),
        a <= 0x7f80_0000 && 0x8000_0000 <= b <= 0xff80_0000 ==> (is_above(a, b) <==> a > 0 || b
            > 0x8000_0000),
        0x8000_0000 <= a <= 0xff80_0000 && b <= 0x7f80_0000 ==> !is_above(a, b),
        0x8000_0000 <= a <= 0xff80_0000 && 0x8000_0000 <= b <= 0xff80_0000 ==> (is_above(a, b)
            <==> a < b),
        0x7f80_0000 < a < 0x8000_0000 || a > 0xff80_0000 ==> !is_above(a, b) && !is_above(b, a),
{
    numbers_end_at_infinity(a);
    numbers_end_at_infinity(b);
    order_key_orders(a, b);
    order_key_orders(b, a);
}

/// The larger one of two numbers is the one that lies above the other one. What is not a number is
/// passed over for one that is.
pub proof fn larger_lies_above(a: u32, b: u32)
    ensures
        is_above(a, b) ==> larger_of(a, b) == a,
        is_above(b, a) ==> larger_of(a, b) == b,
        a <= 0x7f80_0000 && b <= 0x7f80_0000 ==> larger_of(a, b) == if a > b {
            a
        } else {
            b
        },
        (0x7f80_0000 < a < 0x8000_0000 || a > 0xff80_0000) && !(0x7f80_0000 < b < 0x8000_0000 || b
            > 0xff80_0000) ==> larger_of(a, b) == b,
        (0x7f80_0000 < b < 0x8000_0000 || b > 0xff80_0000) ==> larger_of(a, b) == a,
{
    above_follows_the_bit_patterns(a, b);
    above_follows_the_bit_patterns(b, a);
    numbers_end_at_infinity(a);
    numbers_end_at_infinity(b);
}

} // verus!
