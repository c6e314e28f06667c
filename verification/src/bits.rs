//! IEEE-754 ordering, equality, minimum and maximum, computed directly on the
//! 32-bit patterns of the values. The codec never needs float arithmetic for
//! these: NaN detection and the value order are pure functions of the bits.

use vstd::prelude::*;

verus! {

/// Sign bit of a 32-bit pattern.
pub const SIGN_MASK: u32 = 0x8000_0000;

/// All bits but the sign.
pub const ABS_MASK: u32 = 0x7FFF_FFFF;

/// Exponent field, all ones (the pattern of positive infinity).
pub const EXP_MASK: u32 = 0x7F80_0000;

/// A quiet NaN, used as the "unset" marker for the running minimum/maximum.
pub const NAN_BITS: u32 = 0x7FC0_0000;

/// The pattern of 0.0.
pub const ZERO_BITS: u32 = 0;

/// The pattern of 1.0.
pub const ONE_BITS: u32 = 0x3F80_0000;

/// A pattern denotes NaN when its exponent field is all ones and its mantissa
/// is nonzero, i.e. when the pattern without its sign bit exceeds the pattern
/// of infinity.
pub open spec fn spec_is_nan(b: u32) -> bool {
    b & ABS_MASK > EXP_MASK
}

pub fn is_nan_bits(b: u32) -> (r: bool)
    ensures
        r == spec_is_nan(b),
{
    b & ABS_MASK > EXP_MASK
}

/// Maps a pattern to a key whose integer order is the IEEE order of the
/// values: negative patterns in reverse, both zero patterns to the same key.
/// Only meaningful for non-NaN patterns.
pub open spec fn spec_order_key(b: u32) -> int {
    if b >= SIGN_MASK {
        -((b - SIGN_MASK) as int)
    } else {
        b as int
    }
}

/// The IEEE `<` on two patterns: false whenever either side is NaN.
pub open spec fn spec_float_lt(a: u32, b: u32) -> bool {
    &&& !spec_is_nan(a)
    &&& !spec_is_nan(b)
    &&& spec_order_key(a) < spec_order_key(b)
}

/// The IEEE `==` on two patterns: false whenever either side is NaN, and true
/// for the two zero patterns.
pub open spec fn spec_float_eq(a: u32, b: u32) -> bool {
    &&& !spec_is_nan(a)
    &&& !spec_is_nan(b)
    &&& spec_order_key(a) == spec_order_key(b)
}

/// A pattern of either zero (0.0 or -0.0).
pub open spec fn spec_is_float_zero(b: u32) -> bool {
    b & ABS_MASK == 0
}

pub fn is_float_zero_bits(b: u32) -> (r: bool)
    ensures
        r == spec_is_float_zero(b),
{
    b & ABS_MASK == 0
}

proof fn lemma_abs_mask(a: u32)
    ensures
        (a & ABS_MASK == 0) <==> (a == 0 || a == SIGN_MASK),
        a & ABS_MASK == if a >= SIGN_MASK { (a - SIGN_MASK) as u32 } else { a },
{
    assert((a & 0x7FFF_FFFFu32 == 0) <==> (a == 0 || a == 0x8000_0000u32)) by (bit_vector);
    assert(a & 0x7FFF_FFFFu32 == if a >= 0x8000_0000u32 {
        (a - 0x8000_0000u32) as u32
    } else {
        a
    }) by (bit_vector);
}

pub fn float_lt_bits(a: u32, b: u32) -> (r: bool)
    ensures
        r == spec_float_lt(a, b),
{
    proof {
        lemma_abs_mask(a);
        lemma_abs_mask(b);
    }
    if is_nan_bits(a) || is_nan_bits(b) {
        false
    } else if a >= SIGN_MASK {
        if b >= SIGN_MASK {
            a > b
        } else {
            a > SIGN_MASK || b > 0
        }
    } else {
        b < SIGN_MASK && a < b
    }
}

pub fn float_eq_bits(a: u32, b: u32) -> (r: bool)
    ensures
        r == spec_float_eq(a, b),
{
    proof {
        lemma_abs_mask(a);
        lemma_abs_mask(b);
    }
    if is_nan_bits(a) || is_nan_bits(b) {
        false
    } else if a == b {
        true
    } else {
        (a & ABS_MASK == 0) && (b & ABS_MASK == 0)
    }
}

/// The zero patterns are exactly 0 and the sign bit alone; they are not NaN,
/// they sit at order key zero, and the pattern of 1.0 is neither NaN nor a
/// zero. A pattern is IEEE-equal to 0.0 exactly when it is a zero pattern,
/// and IEEE-equal to 1.0 exactly when it is the pattern of 1.0.
pub proof fn lemma_zero_patterns(a: u32)
    ensures
        spec_is_float_zero(a) <==> (a == 0 || a == SIGN_MASK),
        spec_is_float_zero(a) ==> !spec_is_nan(a) && spec_order_key(a) == 0,
        !spec_is_nan(ZERO_BITS),
        !spec_is_nan(ONE_BITS),
        !spec_is_float_zero(ONE_BITS),
        spec_float_eq(a, ZERO_BITS) <==> spec_is_float_zero(a),
        spec_float_eq(a, ONE_BITS) <==> a == ONE_BITS,
{
    lemma_abs_mask(a);
    lemma_abs_mask(ZERO_BITS);
    lemma_abs_mask(ONE_BITS);
}

/// The IEEE-style minimum of two patterns: a NaN operand yields the other
/// operand; on a tie the first operand is kept.
pub open spec fn spec_min_bits(a: u32, b: u32) -> u32 {
    if spec_is_nan(a) {
        b
    } else if spec_is_nan(b) {
        a
    } else if spec_order_key(b) < spec_order_key(a) {
        b
    } else {
        a
    }
}

/// The IEEE-style maximum of two patterns: a NaN operand yields the other
/// operand; on a tie the first operand is kept.
pub open spec fn spec_max_bits(a: u32, b: u32) -> u32 {
    if spec_is_nan(a) {
        b
    } else if spec_is_nan(b) {
        a
    } else if spec_order_key(a) < spec_order_key(b) {
        b
    } else {
        a
    }
}

pub fn min_bits(a: u32, b: u32) -> (r: u32)
    ensures
        r == spec_min_bits(a, b),
{
    if is_nan_bits(a) {
        b
    } else if is_nan_bits(b) {
        a
    } else if float_lt_bits(b, a) {
        b
    } else {
        a
    }
}

pub fn max_bits(a: u32, b: u32) -> (r: u32)
    ensures
        r == spec_max_bits(a, b),
{
    if is_nan_bits(a) {
        b
    } else if is_nan_bits(b) {
        a
    } else if float_lt_bits(a, b) {
        b
    } else {
        a
    }
}

/// Folding `spec_min_bits` over a sequence, left to right, from `init`.
pub open spec fn spec_fold_min(init: u32, s: Seq<u32>) -> u32
    decreases s.len(),
{
    if s.len() == 0 {
        init
    } else {
        spec_min_bits(spec_fold_min(init, s.drop_last()), s.last())
    }
}

/// Folding `spec_max_bits` over a sequence, left to right, from `init`.
pub open spec fn spec_fold_max(init: u32, s: Seq<u32>) -> u32
    decreases s.len(),
{
    if s.len() == 0 {
        init
    } else {
        spec_max_bits(spec_fold_max(init, s.drop_last()), s.last())
    }
}

} // verus!
