//! The distance metrics, and the order key that ranks a measured distance.
//!
//! Distances are measured by the caller in floating point; the graph compares them by the
//! key [`distance_key`] gives to their bit patterns, which ranks them in IEEE total order.
use vstd::prelude::*;

verus! {

/// Squared Euclidean distance.
pub struct Euclidean;

/// Cosine distance, measured on vectors normalised to unit length.
pub struct Cosine;

/// Negated dot product.
pub struct DotProduct;

impl Euclidean {
    /// Euclidean distance works on the vectors as they are.
    pub fn needs_normalize(&self) -> (r: bool)
        ensures
            !r,
    {
        false
    }
}

impl Cosine {
    /// Cosine distance works on vectors normalised to unit length.
    pub fn needs_normalize(&self) -> (r: bool)
        ensures
            r,
    {
        true
    }
}

impl DotProduct {
    /// The dot product works on the vectors as they are.
    pub fn needs_normalize(&self) -> (r: bool)
        ensures
            !r,
    {
        false
    }
}

/// The rank of the single-precision bit pattern `bits` in IEEE total order: positive
/// patterns rank by their magnitude from 0 up, negative ones below them, the larger the
/// magnitude the lower (negative zero ranks -1).
pub open spec fn total_rank(bits: u32) -> int {
    if bits < 0x8000_0000 {
        bits as int
    } else {
        0x7fff_ffff - bits as int
    }
}

/// The order key of the bit pattern `bits`: its total-order rank, shifted to be unsigned.
pub open spec fn key_of(bits: u32) -> u32 {
    (total_rank(bits) + 0x8000_0000) as u32
}

/// The magnitude bits of `bits`: the pattern without its sign.
pub open spec fn magnitude(bits: u32) -> int {
    if bits >= 0x8000_0000 {
        bits - 0x8000_0000
    } else {
        bits as int
    }
}

/// `bits` is a NaN: every exponent bit set and a non-zero fraction.
pub open spec fn is_nan(bits: u32) -> bool {
    magnitude(bits) > 0x7f80_0000
}

/// IEEE `<` on single-precision bit patterns: false when either side is a NaN, false
/// between the two zeros, and total order otherwise.
pub open spec fn ieee_lt(a: u32, b: u32) -> bool {
    &&& !is_nan(a)
    &&& !is_nan(b)
    &&& !(magnitude(a) == 0 && magnitude(b) == 0)
    &&& total_rank(a) < total_rank(b)
}

/// The order key of a distance given by its bit pattern: keys compare as the distances do
/// in IEEE total order.
pub fn distance_key(bits: u32) -> (key: u32)
    ensures
        key == total_rank(bits) + 0x8000_0000,
        key == key_of(bits),
{
    if bits >= 0x8000_0000 {
        assert(!bits == 0xffff_ffff - bits) by (bit_vector);
        !bits
    } else {
        assert(bits | 0x8000_0000 == bits + 0x8000_0000) by (bit_vector)
            requires
                bits < 0x8000_0000,
        ;
        bits | 0x8000_0000
    }
}

/// IEEE `<` between the distances whose bit patterns are `a` and `b`.
pub fn float_lt(a: u32, b: u32) -> (r: bool)
    ensures
        r == ieee_lt(a, b),
{
    let ma = if a >= 0x8000_0000 {
        a - 0x8000_0000
    } else {
        a
    };
    let mb = if b >= 0x8000_0000 {
        b - 0x8000_0000
    } else {
        b
    };
    if ma > 0x7f80_0000 || mb > 0x7f80_0000 {
        false
    } else if ma == 0 && mb == 0 {
        false
    } else {
        distance_key(a) < distance_key(b)
    }
}

/// Total order ranks non-negative patterns by their bits, negative ones by their bits
/// reversed, and every negative pattern below every non-negative one; no two patterns
/// share a rank.
pub proof fn lemma_total_rank_order(a: u32, b: u32)
    ensures
        a < 0x8000_0000 && b < 0x8000_0000 ==> (total_rank(a) < total_rank(b) <==> a < b),
        a >= 0x8000_0000 && b >= 0x8000_0000 ==> (total_rank(a) < total_rank(b) <==> a > b),
        a >= 0x8000_0000 && b < 0x8000_0000 ==> total_rank(a) < total_rank(b),
        total_rank(a) == total_rank(b) <==> a == b,
{
}

} // verus!
