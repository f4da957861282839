//! Bit-level encoding of doubles and of boxed references.
use vstd::prelude::*;

verus! {

/// The low bits of a boxed pattern that carry the side-table key.
pub const KEY_MASK: u64 = 0xffff_ffff;

/// Exponent field of a double: all ones for infinities and NaNs.
pub const EXP_MASK: u64 = 0x7ff0_0000_0000_0000;

/// Fraction (mantissa) field of a double.
pub const FRAC_MASK: u64 = 0x000f_ffff_ffff_ffff;

/// The part of the fraction field that lies above the key bits.
pub const HIGH_FRAC_MASK: u64 = 0x000f_ffff_0000_0000;

/// The quiet bit of a NaN, the top bit of the fraction field.
pub const QUIET_BIT: u64 = 0x0008_0000_0000_0000;

/// The bit pattern of the standard quiet NaN (`f64::NAN`).
pub const CANONICAL_NAN: u64 = 0x7ff8_0000_0000_0000;

/// A double is NaN when its exponent is all ones and its fraction is not zero.
pub open spec fn is_nan_bits(b: u64) -> bool {
    &&& b & EXP_MASK == EXP_MASK
    &&& b & FRAC_MASK != 0
}

/// The side-table key that a boxed pattern carries in its low bits.
pub open spec fn key_of(b: u64) -> u64 {
    b & KEY_MASK
}

/// The high bits kept from a NaN when it is turned into a boxed pattern.
/// Where the NaN's fraction lies wholly in the key bits, the quiet bit is
/// set as well, so that the pattern stays a NaN whatever the key.
pub open spec fn carrier_of(b: u64) -> u64 {
    if b & HIGH_FRAC_MASK != 0 {
        b & !KEY_MASK
    } else {
        (b & !KEY_MASK) | QUIET_BIT
    }
}

/// The boxed pattern that carries `key` on the high bits of the NaN `src`.
pub open spec fn encode(src: u64, key: u64) -> u64 {
    carrier_of(src) | key
}

/// Whether the double with bit pattern `b` is NaN.
pub fn is_nan(b: u64) -> (r: bool)
    ensures
        r == is_nan_bits(b),
{
    b & EXP_MASK == EXP_MASK && b & FRAC_MASK != 0
}

/// The side-table key carried by the pattern `b`.
pub fn key_from_bits(b: u64) -> (r: u64)
    ensures
        r == key_of(b),
        r <= KEY_MASK,
{
    proof {
        assert(b & 0xffff_ffffu64 <= 0xffff_ffffu64) by (bit_vector);
    }
    b & KEY_MASK
}

/// The boxed pattern for `key` on the high bits of the NaN `src`.
pub fn encode_key(src: u64, key: u64) -> (r: u64)
    requires
        is_nan_bits(src),
        key <= KEY_MASK,
    ensures
        r == encode(src, key),
        is_nan_bits(r),
        key_of(r) == key,
{
    proof {
        lemma_encode(src, key);
    }
    if src & HIGH_FRAC_MASK != 0 {
        (src & !KEY_MASK) | key
    } else {
        (src & !KEY_MASK) | QUIET_BIT | key
    }
}

/// A boxed pattern is a NaN and gives back the key it was made with.
pub proof fn lemma_encode(src: u64, key: u64)
    requires
        is_nan_bits(src),
        key <= KEY_MASK,
    ensures
        is_nan_bits(encode(src, key)),
        key_of(encode(src, key)) == key,
{
    assert(src & 0x7ff0_0000_0000_0000u64 == 0x7ff0_0000_0000_0000u64 && key <= 0xffff_ffffu64
        ==> {
        let h = src & !0xffff_ffffu64;
        let q = h | 0x0008_0000_0000_0000u64;
        &&& (h | key) & 0x7ff0_0000_0000_0000u64 == 0x7ff0_0000_0000_0000u64
        &&& (q | key) & 0x7ff0_0000_0000_0000u64 == 0x7ff0_0000_0000_0000u64
        &&& (q | key) & 0x000f_ffff_ffff_ffffu64 != 0
        &&& (h | key) & 0xffff_ffffu64 == key
        &&& (q | key) & 0xffff_ffffu64 == key
        &&& (src & 0x000f_ffff_0000_0000u64 != 0 ==> (h | key) & 0x000f_ffff_ffff_ffffu64 != 0)
    }) by (bit_vector);
}

/// The pattern of the standard quiet NaN is a NaN.
pub proof fn lemma_canonical_nan()
    ensures
        is_nan_bits(CANONICAL_NAN),
{
    assert(0x7ff8_0000_0000_0000u64 & 0x7ff0_0000_0000_0000u64 == 0x7ff0_0000_0000_0000u64)
        by (bit_vector);
    assert(0x7ff8_0000_0000_0000u64 & 0x000f_ffff_ffff_ffffu64 != 0) by (bit_vector);
}

} // verus!
