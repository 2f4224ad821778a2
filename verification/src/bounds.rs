//! The bounding box of a set of points, whose coordinates are given as the
//! bit patterns of IEEE 754 doubles (`f64::to_bits`).

use vstd::prelude::*;
use crate::assignment::{is_nan, is_nan_bits, key_of, order_key, signed_magnitude, MAX_FINITE_BITS};
use crate::laws::law_key_orders_like_doubles;

verus! {

/// The bits of `f64::MIN`, the starting value of a running maximum.
pub const MIN_FINITE_BITS: u64 = 0xFFEF_FFFF_FFFF_FFFF;

/// A point whose coordinates are bit patterns of doubles.
#[derive(Clone, Copy, Debug, PartialEq, Eq, Structural)]
pub struct Point {
    pub x: u64,
    pub y: u64,
}

/// The least and greatest coordinates of a set of points, as bit patterns
/// of doubles.
#[derive(Clone, Copy, Debug, PartialEq, Eq, Structural)]
pub struct MinMax {
    pub xmin: u64,
    pub xmax: u64,
    pub ymin: u64,
    pub ymax: u64,
}

impl MinMax {
    /// The range of the x coordinates, `(xmin, xmax)`.
    pub fn x(&self) -> (r: (u64, u64))
        ensures
            r == (self.xmin, self.xmax),
    {
        (self.xmin, self.xmax)
    }

    /// The range of the y coordinates, `(ymin, ymax)`.
    pub fn y(&self) -> (r: (u64, u64))
        ensures
            r == (self.ymin, self.ymax),
    {
        (self.ymin, self.ymax)
    }
}

/// `v[r]` is the first non-NaN value whose key is the least among the
/// non-NaN values of `v`, and that key is below the key of `start`.
pub open spec fn is_first_least(v: Seq<u64>, start: u64, r: int) -> bool {
    &&& 0 <= r < v.len()
    &&& !is_nan_bits(v[r])
    &&& order_key(v[r]) < order_key(start)
    &&& forall|j: int|
        0 <= j < v.len() && !is_nan_bits(#[trigger] v[j]) ==> order_key(v[r]) <= order_key(v[j])
    &&& forall|j: int|
        0 <= j < r && !is_nan_bits(#[trigger] v[j]) ==> order_key(v[r]) < order_key(v[j])
}

/// `v[r]` is the first non-NaN value whose key is the greatest among the
/// non-NaN values of `v`, and that key is above the key of `start`.
pub open spec fn is_first_greatest(v: Seq<u64>, start: u64, r: int) -> bool {
    &&& 0 <= r < v.len()
    &&& !is_nan_bits(v[r])
    &&& order_key(v[r]) > order_key(start)
    &&& forall|j: int|
        0 <= j < v.len() && !is_nan_bits(#[trigger] v[j]) ==> order_key(v[r]) >= order_key(v[j])
    &&& forall|j: int|
        0 <= j < r && !is_nan_bits(#[trigger] v[j]) ==> order_key(v[r]) > order_key(v[j])
}

/// The running minimum of `v` started at `start`, NaNs skipped: the first
/// least non-NaN value when it is below `start`, else `start`.
pub open spec fn least_from(v: Seq<u64>, start: u64, m: u64) -> bool {
    ||| exists|r: int| is_first_least(v, start, r) && m == v[r]
    ||| (!exists|r: int| is_first_least(v, start, r)) && m == start
}

/// The running maximum of `v` started at `start`, NaNs skipped: the first
/// greatest non-NaN value when it is above `start`, else `start`.
pub open spec fn greatest_from(v: Seq<u64>, start: u64, m: u64) -> bool {
    ||| exists|r: int| is_first_greatest(v, start, r) && m == v[r]
    ||| (!exists|r: int| is_first_greatest(v, start, r)) && m == start
}

/// `v[r]` is the first non-NaN value that, as a double, is no greater than
/// any non-NaN value of `v`, and it is below `start`.
pub open spec fn is_first_least_double(v: Seq<u64>, start: u64, r: int) -> bool {
    &&& 0 <= r < v.len()
    &&& !is_nan_bits(v[r])
    &&& signed_magnitude(v[r]) < signed_magnitude(start)
    &&& forall|j: int|
        0 <= j < v.len() && !is_nan_bits(#[trigger] v[j]) ==> signed_magnitude(v[r]) <= signed_magnitude(v[j])
    &&& forall|j: int|
        0 <= j < r && !is_nan_bits(#[trigger] v[j]) ==> signed_magnitude(v[r]) < signed_magnitude(v[j])
}

/// `v[r]` is the first non-NaN value that, as a double, is no less than any
/// non-NaN value of `v`, and it is above `start`.
pub open spec fn is_first_greatest_double(v: Seq<u64>, start: u64, r: int) -> bool {
    &&& 0 <= r < v.len()
    &&& !is_nan_bits(v[r])
    &&& signed_magnitude(v[r]) > signed_magnitude(start)
    &&& forall|j: int|
        0 <= j < v.len() && !is_nan_bits(#[trigger] v[j]) ==> signed_magnitude(v[r]) >= signed_magnitude(v[j])
    &&& forall|j: int|
        0 <= j < r && !is_nan_bits(#[trigger] v[j]) ==> signed_magnitude(v[r]) > signed_magnitude(v[j])
}

/// The running minimum of `v` from `start`, on doubles: the first least
/// non-NaN value when it is below `start`, else `start`.
pub open spec fn least_double_from(v: Seq<u64>, start: u64, m: u64) -> bool {
    ||| exists|r: int| is_first_least_double(v, start, r) && m == v[r]
    ||| (!exists|r: int| is_first_least_double(v, start, r)) && m == start
}

/// The running maximum of `v` from `start`, on doubles: the first greatest
/// non-NaN value when it is above `start`, else `start`.
pub open spec fn greatest_double_from(v: Seq<u64>, start: u64, m: u64) -> bool {
    ||| exists|r: int| is_first_greatest_double(v, start, r) && m == v[r]
    ||| (!exists|r: int| is_first_greatest_double(v, start, r)) && m == start
}

/// The running minimum and maximum chosen by keys are the ones chosen by
/// comparing the doubles themselves.
pub proof fn law_bounds_by_keys_are_bounds_by_doubles(v: Seq<u64>, start: u64, m: u64)
    ensures
        least_from(v, start, m) == least_double_from(v, start, m),
        greatest_from(v, start, m) == greatest_double_from(v, start, m),
{
    assert forall|r: int|
        #![trigger is_first_least(v, start, r)]
        #![trigger is_first_least_double(v, start, r)]
        #![trigger is_first_greatest(v, start, r)]
        #![trigger is_first_greatest_double(v, start, r)]
        is_first_least(v, start, r) == is_first_least_double(v, start, r)
        && is_first_greatest(v, start, r) == is_first_greatest_double(v, start, r) by {
        if 0 <= r < v.len() {
            law_key_orders_like_doubles(v[r], start);
            law_key_orders_like_doubles(start, v[r]);
            assert forall|j: int| 0 <= j < v.len() implies ((order_key(v[r]) <= order_key(#[trigger] v[j]))
                == (signed_magnitude(v[r]) <= signed_magnitude(v[j]))) && ((order_key(v[r]) < order_key(v[j]))
                == (signed_magnitude(v[r]) < signed_magnitude(v[j]))) && ((order_key(v[r]) >= order_key(v[j]))
                == (signed_magnitude(v[r]) >= signed_magnitude(v[j]))) && ((order_key(v[r]) > order_key(v[j]))
                == (signed_magnitude(v[r]) > signed_magnitude(v[j]))) by {
                law_key_orders_like_doubles(v[r], v[j]);
                law_key_orders_like_doubles(v[j], v[r]);
            }
        }
    }
}

/// The x coordinates of `points`.
pub open spec fn xs(points: Seq<Point>) -> Seq<u64> {
    points.map_values(|p: Point| p.x)
}

/// The y coordinates of `points`.
pub open spec fn ys(points: Seq<Point>) -> Seq<u64> {
    points.map_values(|p: Point| p.y)
}

/// The running minimum of `v` from `start`, skipping NaNs.
fn least(v: &Vec<u64>, start: u64) -> (m: u64)
    ensures
        least_from(v@, start, m),
{
    let mut m = start;
    let mut arg: usize = 0;
    let mut found = false;
    let mut i: usize = 0;
    while i < v.len()
        invariant
            i <= v.len(),
            !found ==> m == start,
            found ==> arg < i && m == v@[arg as int] && is_first_least(v@.take(i as int), start, arg as int),
            forall|j: int| 0 <= j < i && !is_nan_bits(#[trigger] v@[j]) ==> order_key(m) <= order_key(v@[j]),
            !found ==> forall|j: int| 0 <= j < i ==> is_nan_bits(#[trigger] v@[j]) || order_key(v@[j]) >= order_key(start),
        decreases v.len() - i,
    {
        let b = v[i];
        if !is_nan(b) && key_of(b) < key_of(m) {
            m = b;
            arg = i;
            found = true;
        }
        i = i + 1;
        assert forall|j: int| 0 <= j < i implies #[trigger] v@.take(i as int)[j] == v@[j] by {}
    }
    assert(v@.take(v.len() as int) == v@);
    if !found {
        assert forall|r: int| !is_first_least(v@, start, r) by {
            if 0 <= r < v@.len() {
                assert(is_nan_bits(v@[r]) || order_key(v@[r]) >= order_key(start));
            }
        }
    }
    m
}

/// The running maximum of `v` from `start`, skipping NaNs.
fn greatest(v: &Vec<u64>, start: u64) -> (m: u64)
    ensures
        greatest_from(v@, start, m),
{
    let mut m = start;
    let mut arg: usize = 0;
    let mut found = false;
    let mut i: usize = 0;
    while i < v.len()
        invariant
            i <= v.len(),
            !found ==> m == start,
            found ==> arg < i && m == v@[arg as int] && is_first_greatest(v@.take(i as int), start, arg as int),
            forall|j: int| 0 <= j < i && !is_nan_bits(#[trigger] v@[j]) ==> order_key(m) >= order_key(v@[j]),
            !found ==> forall|j: int| 0 <= j < i ==> is_nan_bits(#[trigger] v@[j]) || order_key(v@[j]) <= order_key(start),
        decreases v.len() - i,
    {
        let b = v[i];
        if !is_nan(b) && key_of(b) > key_of(m) {
            m = b;
            arg = i;
            found = true;
        }
        i = i + 1;
        assert forall|j: int| 0 <= j < i implies #[trigger] v@.take(i as int)[j] == v@[j] by {}
    }
    assert(v@.take(v.len() as int) == v@);
    if !found {
        assert forall|r: int| !is_first_greatest(v@, start, r) by {
            if 0 <= r < v@.len() {
                assert(is_nan_bits(v@[r]) || order_key(v@[r]) <= order_key(start));
            }
        }
    }
    m
}

/// The bounding box of `points`: each minimum starts at `f64::MAX` and each
/// maximum at `f64::MIN`, and moves to a coordinate that is strictly below
/// (above) it; NaN coordinates are passed over.
pub fn get_min_max(points: &Vec<Point>) -> (mm: MinMax)
    ensures
        least_from(xs(points@), MAX_FINITE_BITS, mm.xmin),
        greatest_from(xs(points@), MIN_FINITE_BITS, mm.xmax),
        least_from(ys(points@), MAX_FINITE_BITS, mm.ymin),
        greatest_from(ys(points@), MIN_FINITE_BITS, mm.ymax),
        least_double_from(xs(points@), MAX_FINITE_BITS, mm.xmin),
        greatest_double_from(xs(points@), MIN_FINITE_BITS, mm.xmax),
        least_double_from(ys(points@), MAX_FINITE_BITS, mm.ymin),
        greatest_double_from(ys(points@), MIN_FINITE_BITS, mm.ymax),
{
    let mut xv: Vec<u64> = Vec::new();
    let mut yv: Vec<u64> = Vec::new();
    let mut i: usize = 0;
    while i < points.len()
        invariant
            i <= points.len(),
            xv@ == xs(points@).take(i as int),
            yv@ == ys(points@).take(i as int),
        decreases points.len() - i,
    {
        xv.push(points[i].x);
        yv.push(points[i].y);
        i = i + 1;
        assert(xv@ == xs(points@).take(i as int));
        assert(yv@ == ys(points@).take(i as int));
    }
    assert(xs(points@).take(points.len() as int) == xs(points@));
    assert(ys(points@).take(points.len() as int) == ys(points@));
    let mm = MinMax {
        xmin: least(&xv, MAX_FINITE_BITS),
        xmax: greatest(&xv, MIN_FINITE_BITS),
        ymin: least(&yv, MAX_FINITE_BITS),
        ymax: greatest(&yv, MIN_FINITE_BITS),
    };
    proof {
        law_bounds_by_keys_are_bounds_by_doubles(xs(points@), MAX_FINITE_BITS, mm.xmin);
        law_bounds_by_keys_are_bounds_by_doubles(xs(points@), MIN_FINITE_BITS, mm.xmax);
        law_bounds_by_keys_are_bounds_by_doubles(ys(points@), MAX_FINITE_BITS, mm.ymin);
        law_bounds_by_keys_are_bounds_by_doubles(ys(points@), MIN_FINITE_BITS, mm.ymax);
    }
    mm
}

} // verus!
