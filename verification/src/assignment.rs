//! Choosing the nearest centroid for a point from its distances to every
//! centroid, each given as the bit pattern of an IEEE 754 double
//! (`f64::to_bits`).

use vstd::prelude::*;
use crate::laws::law_key_orders_like_doubles;

verus! {

/// The sign bit of a double.
pub const SIGN_BIT: u64 = 0x8000_0000_0000_0000;

/// The bits of `-0.0`.
pub const NEG_ZERO_BITS: u64 = 0x8000_0000_0000_0000;

/// The bits of `f64::MAX`, the starting bound of the search.
pub const MAX_FINITE_BITS: u64 = 0x7FEF_FFFF_FFFF_FFFF;

/// The exponent field of a double.
pub const EXPONENT_MASK: u64 = 0x7FF0_0000_0000_0000;

/// The magnitude of a double: every bit but the sign bit.
pub const MAGNITUDE_MASK: u64 = 0x7FFF_FFFF_FFFF_FFFF;

/// The mantissa field of a double.
pub const MANTISSA_MASK: u64 = 0x000F_FFFF_FFFF_FFFF;

/// `bits` is the pattern of a NaN: all exponent bits set, mantissa nonzero.
pub open spec fn is_nan_bits(bits: u64) -> bool {
    (bits & EXPONENT_MASK) == EXPONENT_MASK && (bits & MANTISSA_MASK) != 0
}

/// The value of the sign-magnitude integer that the pattern `bits` encodes:
/// its magnitude field, negated when the sign bit is set. IEEE 754 lays out
/// exponent above mantissa so that, on non-NaN doubles, the magnitude field
/// read as an integer grows with the absolute value; so a non-NaN double is
/// below another exactly when its signed magnitude is, and `-0.0` and `+0.0`
/// both have signed magnitude `0`.
pub open spec fn signed_magnitude(bits: u64) -> int {
    let mag = (bits & MAGNITUDE_MASK) as int;
    if bits & SIGN_BIT != 0 {
        -mag
    } else {
        mag
    }
}

/// The double with pattern `a` is below the double with pattern `b`: both
/// are non-NaN and the signed magnitude of `a` is the smaller.
pub open spec fn double_less(a: u64, b: u64) -> bool {
    !is_nan_bits(a) && !is_nan_bits(b) && signed_magnitude(a) < signed_magnitude(b)
}

/// The key of a pattern, as an integer, in terms of its signed magnitude:
/// the sign bit's value plus the signed magnitude, less one for a negative
/// nonzero magnitude.
pub proof fn lemma_key_value(bits: u64)
    ensures
        order_key(bits) as int == SIGN_BIT as int + signed_magnitude(bits) - (if bits & SIGN_BIT != 0
            && bits & MAGNITUDE_MASK != 0 {
            1int
        } else {
            0int
        }),
{
    assert(bits & 0x8000_0000_0000_0000u64 == 0 ==> (bits | 0x8000_0000_0000_0000u64) == (bits
        & 0x7FFF_FFFF_FFFF_FFFFu64) + 0x8000_0000_0000_0000u64) by (bit_vector);
    assert(bits & 0x8000_0000_0000_0000u64 != 0 ==> !bits == 0x7FFF_FFFF_FFFF_FFFFu64 - (bits
        & 0x7FFF_FFFF_FFFF_FFFFu64)) by (bit_vector);
    assert((bits == 0x8000_0000_0000_0000u64) == (bits & 0x8000_0000_0000_0000u64 != 0 && bits
        & 0x7FFF_FFFF_FFFF_FFFFu64 == 0)) by (bit_vector);
    assert((0u64 & 0x8000_0000_0000_0000u64) == 0u64 && (0u64 | 0x8000_0000_0000_0000u64)
        == 0x8000_0000_0000_0000u64) by (bit_vector);
}

/// An unsigned key for the double with pattern `bits` that orders non-NaN
/// doubles as `<` on doubles does: `-0.0` is first taken to be `+0.0`; a
/// negative pattern is complemented, a positive one gets its sign bit set.
pub open spec fn order_key(bits: u64) -> u64 {
    let b = if bits == NEG_ZERO_BITS { 0u64 } else { bits };
    if b & SIGN_BIT != 0 {
        !b
    } else {
        b | SIGN_BIT
    }
}

/// Whether the double with pattern `bits` is NaN.
pub fn is_nan(bits: u64) -> (r: bool)
    ensures
        r == is_nan_bits(bits),
{
    (bits & EXPONENT_MASK) == EXPONENT_MASK && (bits & MANTISSA_MASK) != 0
}

/// The order key of the double with pattern `bits`.
pub fn key_of(bits: u64) -> (k: u64)
    ensures
        k == order_key(bits),
{
    let b = if bits == NEG_ZERO_BITS { 0u64 } else { bits };
    if b & SIGN_BIT != 0 {
        !b
    } else {
        b | SIGN_BIT
    }
}

/// `r` is the first index whose key is the least of all keys in `keys`, and
/// that key is below `bound`.
pub open spec fn is_first_min_below(keys: Seq<u64>, bound: u64, r: int) -> bool {
    &&& 0 <= r < keys.len()
    &&& keys[r] < bound
    &&& forall|j: int| 0 <= j < keys.len() ==> keys[r] <= #[trigger] keys[j]
    &&& forall|j: int| 0 <= j < r ==> keys[r] < #[trigger] keys[j]
}

/// Some key in `keys` is below `bound`.
pub open spec fn some_below(keys: Seq<u64>, bound: u64) -> bool {
    exists|j: int| 0 <= j < keys.len() && #[trigger] keys[j] < bound
}

/// The order keys of the doubles with patterns `dist_bits`.
pub open spec fn keys_of(dist_bits: Seq<u64>) -> Seq<u64> {
    dist_bits.map_values(|b: u64| order_key(b))
}

/// Some distance in `d` is below `f64::MAX` as a double.
pub open spec fn some_distance_below_max(d: Seq<u64>) -> bool {
    exists|j: int| 0 <= j < d.len() && signed_magnitude(#[trigger] d[j]) < signed_magnitude(MAX_FINITE_BITS)
}

/// `d[r]` is, as a double, below `f64::MAX`, no greater than any distance in
/// `d`, and strictly less than every distance before it.
pub open spec fn is_nearest(d: Seq<u64>, r: int) -> bool {
    &&& 0 <= r < d.len()
    &&& signed_magnitude(d[r]) < signed_magnitude(MAX_FINITE_BITS)
    &&& forall|j: int| 0 <= j < d.len() ==> signed_magnitude(d[r]) <= signed_magnitude(#[trigger] d[j])
    &&& forall|j: int| 0 <= j < r ==> signed_magnitude(d[r]) < signed_magnitude(#[trigger] d[j])
}

/// The choice by keys is the choice by doubles: some key is below the key of
/// `f64::MAX` exactly when some distance is below `f64::MAX`, and an index
/// holds the first least key exactly when it holds a distance no greater
/// than any other and strictly less than every earlier one.
pub proof fn law_nearest_is_least_distance(d: Seq<u64>, r: int)
    ensures
        some_below(keys_of(d), order_key(MAX_FINITE_BITS)) == some_distance_below_max(d),
        is_first_min_below(keys_of(d), order_key(MAX_FINITE_BITS), r) == is_nearest(d, r),
{
    let keys = keys_of(d);
    let bound = order_key(MAX_FINITE_BITS);
    assert forall|j: int| 0 <= j < d.len() implies (#[trigger] keys[j] < bound) == (signed_magnitude(d[j])
        < signed_magnitude(MAX_FINITE_BITS)) by {
        law_key_orders_like_doubles(d[j], MAX_FINITE_BITS);
    }
    if 0 <= r < d.len() {
        assert forall|j: int| 0 <= j < d.len() implies ((keys[r] <= #[trigger] keys[j]) == (signed_magnitude(d[r])
            <= signed_magnitude(d[j]))) && ((keys[r] < keys[j]) == (signed_magnitude(d[r]) < signed_magnitude(
            d[j]))) by {
            law_key_orders_like_doubles(d[r], d[j]);
            law_key_orders_like_doubles(d[j], d[r]);
        }
        law_key_orders_like_doubles(d[r], MAX_FINITE_BITS);
        if is_first_min_below(keys, bound, r) {
            assert forall|j: int| 0 <= j < d.len() implies signed_magnitude(d[r]) <= signed_magnitude(#[trigger] d[j]) by {
                assert(keys[r] <= keys[j]);
            }
            assert forall|j: int| 0 <= j < r implies signed_magnitude(d[r]) < signed_magnitude(#[trigger] d[j]) by {
                assert(keys[r] < keys[j]);
            }
        }
        if is_nearest(d, r) {
            assert forall|j: int| 0 <= j < keys.len() implies keys[r] <= #[trigger] keys[j] by {
                assert(signed_magnitude(d[r]) <= signed_magnitude(d[j]));
            }
            assert forall|j: int| 0 <= j < r implies keys[r] < #[trigger] keys[j] by {
                assert(signed_magnitude(d[r]) < signed_magnitude(d[j]));
            }
        }
    }
    if some_below(keys, bound) {
        let j = choose|j: int| 0 <= j < keys.len() && #[trigger] keys[j] < bound;
        assert(signed_magnitude(d[j]) < signed_magnitude(MAX_FINITE_BITS));
    }
    if some_distance_below_max(d) {
        let j = choose|j: int| 0 <= j < d.len() && signed_magnitude(#[trigger] d[j]) < signed_magnitude(MAX_FINITE_BITS);
        assert(keys[j] < bound);
    }
}

/// The index of the centroid nearest to a point, given the point's distance
/// to each centroid as a bit pattern: the first index of a strictly least
/// distance below `f64::MAX`, or `0` when no distance is below `f64::MAX`.
pub fn nearest_centroid(dist_bits: &Vec<u64>) -> (r: usize)
    requires
        forall|i: int| 0 <= i < dist_bits.len() ==> !is_nan_bits(#[trigger] dist_bits@[i]),
    ensures
        some_below(keys_of(dist_bits@), order_key(MAX_FINITE_BITS)) ==> is_first_min_below(
            keys_of(dist_bits@),
            order_key(MAX_FINITE_BITS),
            r as int,
        ),
        !some_below(keys_of(dist_bits@), order_key(MAX_FINITE_BITS)) ==> r == 0,
        some_distance_below_max(dist_bits@) ==> is_nearest(dist_bits@, r as int),
        !some_distance_below_max(dist_bits@) ==> r == 0,
{
    let ghost keys = keys_of(dist_bits@);
    let bound = key_of(MAX_FINITE_BITS);
    let mut min = bound;
    let mut minarg: usize = 0;
    let mut i: usize = 0;
    while i < dist_bits.len()
        invariant
            i <= dist_bits.len(),
            keys == keys_of(dist_bits@),
            bound == order_key(MAX_FINITE_BITS),
            min <= bound,
            forall|j: int| 0 <= j < i ==> min <= #[trigger] keys[j],
            min == bound ==> minarg == 0 && !some_below(keys.take(i as int), bound),
            min < bound ==> is_first_min_below(keys.take(i as int), bound, minarg as int)
                && keys[minarg as int] == min,
        decreases dist_bits.len() - i,
    {
        let k = key_of(dist_bits[i]);
        assert(k == keys[i as int]);
        if k < min {
            min = k;
            minarg = i;
        }
        i = i + 1;
        assert forall|j: int| 0 <= j < i implies #[trigger] keys.take(i as int)[j] == keys[j] by {}
    }
    assert(keys.take(dist_bits.len() as int) == keys);
    proof {
        law_nearest_is_least_distance(dist_bits@, minarg as int);
    }
    minarg
}

} // verus!
