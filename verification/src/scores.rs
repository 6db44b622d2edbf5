//! Integer ranking keys for floating-point scores.
//!
//! A finite `f64` is encoded (IEEE 754) as a sign bit and a magnitude whose
//! bit pattern, read as an integer, grows with the value's magnitude. So the
//! order of the values is the sign-magnitude order of their bit patterns,
//! with `+0.0` and `-0.0` equal. `score_key` maps a bit pattern to a `u64`
//! whose plain integer order is that sign-magnitude order, which lets the
//! verified orderings rank scores by integers.
use vstd::prelude::*;

verus! {

/// The sign bit of an `f64` bit pattern.
pub const SIGN_BIT: u64 = 0x8000_0000_0000_0000;

/// The bit pattern of `-0.0`.
pub const NEGATIVE_ZERO: u64 = 0x8000_0000_0000_0000;

/// The value encoded by `a` is smaller than the value encoded by `b`, in
/// sign-magnitude order (zeros of either sign being equal).
pub open spec fn sign_magnitude_less(a: u64, b: u64) -> bool {
    let ma = a & 0x7fff_ffff_ffff_ffff;
    let mb = b & 0x7fff_ffff_ffff_ffff;
    let na = a & 0x8000_0000_0000_0000 != 0;
    let nb = b & 0x8000_0000_0000_0000 != 0;
    if na && nb {
        mb < ma
    } else if na && !nb {
        ma != 0 || mb != 0
    } else if !na && nb {
        false
    } else {
        ma < mb
    }
}

/// The ranking key of the bit pattern `bits`.
pub open spec fn ordered_bits_key(bits: u64) -> u64 {
    if bits == 0x8000_0000_0000_0000 {
        0x8000_0000_0000_0000
    } else if bits & 0x8000_0000_0000_0000 != 0 {
        !bits
    } else {
        bits | 0x8000_0000_0000_0000
    }
}

/// The ranking key of a score given by its bit pattern (`f64::to_bits`).
pub fn score_key(bits: u64) -> (res: u64)
    ensures
        res == ordered_bits_key(bits),
{
    if bits == NEGATIVE_ZERO {
        SIGN_BIT
    } else if bits & SIGN_BIT != 0 {
        !bits
    } else {
        bits | SIGN_BIT
    }
}

/// Keys order bit patterns as the values they encode: a key is smaller
/// exactly when the value is smaller in sign-magnitude order.
pub proof fn lemma_score_key_order(a: u64, b: u64)
    ensures
        ordered_bits_key(a) < ordered_bits_key(b) <==> sign_magnitude_less(a, b),
{
    assert((if a == 0x8000_0000_0000_0000u64 {
        0x8000_0000_0000_0000u64
    } else if a & 0x8000_0000_0000_0000u64 != 0 {
        !a
    } else {
        a | 0x8000_0000_0000_0000u64
    }) < (if b == 0x8000_0000_0000_0000u64 {
        0x8000_0000_0000_0000u64
    } else if b & 0x8000_0000_0000_0000u64 != 0 {
        !b
    } else {
        b | 0x8000_0000_0000_0000u64
    }) <==> (if (a & 0x8000_0000_0000_0000u64 != 0) && (b & 0x8000_0000_0000_0000u64 != 0) {
        (b & 0x7fff_ffff_ffff_ffffu64) < (a & 0x7fff_ffff_ffff_ffffu64)
    } else if (a & 0x8000_0000_0000_0000u64 != 0) && !(b & 0x8000_0000_0000_0000u64 != 0) {
        (a & 0x7fff_ffff_ffff_ffffu64) != 0 || (b & 0x7fff_ffff_ffff_ffffu64) != 0
    } else if !(a & 0x8000_0000_0000_0000u64 != 0) && (b & 0x8000_0000_0000_0000u64 != 0) {
        false
    } else {
        (a & 0x7fff_ffff_ffff_ffffu64) < (b & 0x7fff_ffff_ffff_ffffu64)
    })) by (bit_vector);
}

} // verus!
