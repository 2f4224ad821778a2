//! Properties that hold across the functions of the library.

use vstd::prelude::*;
use crate::membership::{is_first_one, members_upto, one_hot_row, zero_row};
use crate::quality::{count_upto, row_terms, terms_before};
use crate::assignment::{is_nan_bits, lemma_key_value, order_key, signed_magnitude};
use crate::bounds::{greatest_from, is_first_greatest, is_first_least, least_from};

verus! {

/// The sum of a sequence of counts.
pub open spec fn seq_sum(s: Seq<usize>) -> int
    decreases s.len(),
{
    if s.len() == 0 {
        0
    } else {
        seq_sum(s.drop_last()) + s.last()
    }
}

/// A row that marks only group `c` reports group `c`, and no other: reading
/// back the groups of a matrix built by marking each point's nearest
/// centroid on a zero matrix gives those centroids.
pub proof fn law_marked_rows_read_back(k: nat, nearest: Seq<usize>, groups: Seq<usize>)
    requires
        forall|i: int| 0 <= i < nearest.len() ==> #[trigger] nearest[i] < k,
        groups.len() == nearest.len(),
        forall|i: int|
            0 <= i < nearest.len() ==> is_first_one(
                zero_row(k).update(nearest[i] as int, 1),
                #[trigger] groups[i] as int,
            ),
    ensures
        groups == nearest,
{
    assert forall|i: int| 0 <= i < nearest.len() implies #[trigger] groups[i] == nearest[i] by {
        let row = zero_row(k).update(nearest[i] as int, 1);
        let g = groups[i] as int;
        if g < nearest[i] {
            assert(row[g] == 0);
        } else if g > nearest[i] {
            assert(row[nearest[i] as int] == 1);
        }
    }
    assert(groups =~= nearest);
}

/// Keys order bit patterns as the doubles they encode are ordered: one key
/// is below another exactly when the signed magnitude is, and two keys are
/// equal exactly when the signed magnitudes are (so `-0.0` and `+0.0` share
/// a key, and no two other doubles do).
pub proof fn law_key_orders_like_doubles(a: u64, b: u64)
    ensures
        (order_key(a) < order_key(b)) == (signed_magnitude(a) < signed_magnitude(b)),
        (order_key(a) == order_key(b)) == (signed_magnitude(a) == signed_magnitude(b)),
{
    lemma_key_value(a);
    lemma_key_value(b);
    assert(a & 0x8000_0000_0000_0000u64 != 0 && a & 0x7FFF_FFFF_FFFF_FFFFu64 != 0 || signed_magnitude(a) >= 0);
    assert(b & 0x8000_0000_0000_0000u64 != 0 && b & 0x7FFF_FFFF_FFFF_FFFFu64 != 0 || signed_magnitude(b) >= 0);
    assert(a & 0x8000_0000_0000_0000u64 != 0 && a & 0x7FFF_FFFF_FFFF_FFFFu64 != 0 ==> signed_magnitude(a) < 0);
    assert(b & 0x8000_0000_0000_0000u64 != 0 && b & 0x7FFF_FFFF_FFFF_FFFFu64 != 0 ==> signed_magnitude(b) < 0);
}

/// The members of centroid `c` among the first `n` rows are exactly the
/// rows that are nonzero in column `c`: each listed index is below `n` and
/// its row is nonzero in column `c`, the indices strictly increase (so none
/// is listed twice), and every such row is listed.
pub proof fn law_members_are_the_nonzero_rows(p: Seq<Vec<i32>>, c: int, n: int)
    requires
        0 <= n <= p.len(),
        p.len() <= usize::MAX,
    ensures
        forall|m: int|
            0 <= m < members_upto(p, c, n).len() ==> #[trigger] members_upto(p, c, n)[m] < n
                && p[members_upto(p, c, n)[m] as int]@[c] != 0,
        forall|m1: int, m2: int|
            0 <= m1 < m2 < members_upto(p, c, n).len() ==> #[trigger] members_upto(p, c, n)[m1]
                < #[trigger] members_upto(p, c, n)[m2],
        forall|i: int| 0 <= i < n && #[trigger] p[i]@[c] != 0 ==> members_upto(p, c, n).contains(i as usize),
    decreases n,
{
    if n > 0 {
        law_members_are_the_nonzero_rows(p, c, n - 1);
        let prev = members_upto(p, c, n - 1);
        let cur = members_upto(p, c, n);
        if p[n - 1]@[c] != 0 {
            assert(cur == prev.push((n - 1) as usize));
            assert forall|m: int| 0 <= m < cur.len() implies #[trigger] cur[m] < n && p[cur[m] as int]@[c] != 0 by {
                if m < prev.len() {
                    assert(cur[m] == prev[m]);
                }
            }
            assert forall|m1: int, m2: int| 0 <= m1 < m2 < cur.len() implies #[trigger] cur[m1] < #[trigger] cur[m2] by {
                assert(cur[m1] == prev[m1]);
                assert(prev[m1] < n - 1);
                if m2 < prev.len() {
                    assert(cur[m2] == prev[m2]);
                }
            }
            assert forall|i: int| 0 <= i < n && #[trigger] p[i]@[c] != 0 implies cur.contains(i as usize) by {
                if i < n - 1 {
                    assert(prev.contains(i as usize));
                    let m = choose|m: int| 0 <= m < prev.len() && prev[m] == i as usize;
                    assert(cur[m] == prev[m]);
                } else {
                    assert(cur[prev.len() as int] == i as usize);
                }
            }
        } else {
            assert(cur == prev);
        }
    }
}

/// Sum over the groups `c < k` of the number of the first `n` points in `c`.
pub open spec fn sum_counts(groups: Seq<usize>, k: int, n: int) -> int
    decreases k,
{
    if k <= 0 {
        0
    } else {
        sum_counts(groups, k - 1, n) + count_upto(groups, k - 1, n)
    }
}

proof fn lemma_sum_counts_step(groups: Seq<usize>, k: int, n: int)
    requires
        0 <= n < groups.len(),
        k >= 0,
    ensures
        sum_counts(groups, k, n + 1) == sum_counts(groups, k, n) + (if groups[n] < k { 1int } else { 0int }),
    decreases k,
{
    if k > 0 {
        lemma_sum_counts_step(groups, k - 1, n);
    }
}

proof fn lemma_sum_counts_total(groups: Seq<usize>, k: int, n: int)
    requires
        0 <= n <= groups.len(),
        k >= 0,
        forall|i: int| 0 <= i < groups.len() ==> #[trigger] groups[i] < k,
    ensures
        sum_counts(groups, k, n) == n,
    decreases n,
{
    if n == 0 {
        assert(sum_counts(groups, k, 0) == 0) by {
            lemma_sum_counts_zero(groups, k);
        }
    } else {
        lemma_sum_counts_total(groups, k, n - 1);
        lemma_sum_counts_step(groups, k, n - 1);
    }
}

proof fn lemma_sum_counts_zero(groups: Seq<usize>, k: int)
    requires
        k >= 0,
    ensures
        sum_counts(groups, k, 0) == 0,
    decreases k,
{
    if k > 0 {
        lemma_sum_counts_zero(groups, k - 1);
    }
}

proof fn lemma_seq_sum_is_sum_counts(sizes: Seq<usize>, groups: Seq<usize>, j: int)
    requires
        0 <= j <= sizes.len(),
        forall|c: int| 0 <= c < sizes.len() ==> #[trigger] sizes[c] == count_upto(groups, c, groups.len() as int),
    ensures
        seq_sum(sizes.take(j)) == sum_counts(groups, j, groups.len() as int),
    decreases j,
{
    if j > 0 {
        lemma_seq_sum_is_sum_counts(sizes, groups, j - 1);
        assert(sizes.take(j).drop_last() == sizes.take(j - 1));
    }
}

/// Every point lies in exactly one group: when each group index is below
/// `k`, the group sizes add up to the number of points.
pub proof fn law_group_sizes_partition(groups: Seq<usize>, k: nat, sizes: Seq<usize>)
    requires
        forall|i: int| 0 <= i < groups.len() ==> #[trigger] groups[i] < k,
        sizes.len() == k,
        forall|c: int| 0 <= c < k ==> #[trigger] sizes[c] == count_upto(groups, c, groups.len() as int),
    ensures
        seq_sum(sizes) == groups.len(),
{
    lemma_seq_sum_is_sum_counts(sizes, groups, k as int);
    assert(sizes.take(k as int) == sizes);
    lemma_sum_counts_total(groups, k as int, groups.len() as int);
}

/// In a matrix whose row `i` marks only group `groups[i]`, the members of
/// centroid `c` are as many as the points of group `c`, and each of them is
/// a point of group `c`.
pub proof fn law_members_match_groups(p: Seq<Vec<i32>>, groups: Seq<usize>, k: nat, c: int, n: int)
    requires
        p.len() == groups.len(),
        p.len() <= usize::MAX,
        0 <= n <= p.len(),
        0 <= c < k,
        forall|i: int| 0 <= i < groups.len() ==> #[trigger] groups[i] < k,
        forall|i: int| 0 <= i < p.len() ==> #[trigger] p[i]@ == one_hot_row(k, groups[i] as int),
    ensures
        members_upto(p, c, n).len() == count_upto(groups, c, n),
        forall|m: int|
            0 <= m < members_upto(p, c, n).len() ==> #[trigger] members_upto(p, c, n)[m] < n
                && groups[members_upto(p, c, n)[m] as int] == c,
    decreases n,
{
    if n > 0 {
        law_members_match_groups(p, groups, k, c, n - 1);
        let row = p[n - 1]@;
        assert(row == one_hot_row(k, groups[n - 1] as int));
        assert((row[c] != 0) == (groups[n - 1] == c));
        let prev = members_upto(p, c, n - 1);
        let cur = members_upto(p, c, n);
        assert forall|m: int| 0 <= m < cur.len() implies #[trigger] cur[m] < n && groups[cur[m] as int] == c by {
            if row[c] != 0 {
                assert(cur == prev.push((n - 1) as usize));
                if m < prev.len() {
                    assert(cur[m] == prev[m]);
                    assert(prev[m] < n - 1);
                } else {
                    assert(cur[m] == n - 1);
                }
            } else {
                assert(cur == prev);
                assert(prev[m] < n - 1);
            }
        }
    }
}

/// The term of the pair `a < b`, weighted by the size of group `a`, is
/// among `terms`.
pub open spec fn pair_listed(terms: Seq<(usize, usize, usize)>, sizes: Seq<usize>, a: int, b: int) -> bool {
    terms.contains((a as usize, b as usize, sizes[a]))
}

/// Each numerator term pairs a centroid with a later one and carries the
/// size of the first one's group, and every such pair has its term.
pub proof fn law_terms_pair_later_centroids(sizes: Seq<usize>, ci: int)
    requires
        0 <= ci <= sizes.len(),
        sizes.len() <= usize::MAX,
    ensures
        forall|t: int|
            0 <= t < terms_before(sizes, ci).len() ==> {
                let (a, b, w) = #[trigger] terms_before(sizes, ci)[t];
                &&& a < b < sizes.len()
                &&& a < ci
                &&& w == sizes[a as int]
            },
        forall|a: int, b: int|
            0 <= a < ci && a < b < sizes.len() ==> #[trigger] pair_listed(terms_before(sizes, ci), sizes, a, b),
    decreases ci,
{
    if ci > 0 {
        law_terms_pair_later_centroids(sizes, ci - 1);
        let prev = terms_before(sizes, ci - 1);
        let row = row_terms(sizes, ci - 1);
        assert forall|t: int| 0 <= t < terms_before(sizes, ci).len() implies {
            let (a, b, w) = #[trigger] terms_before(sizes, ci)[t];
            &&& a < b < sizes.len()
            &&& a < ci
            &&& w == sizes[a as int]
        } by {
            if t >= prev.len() {
                assert(terms_before(sizes, ci)[t] == row[t - prev.len()]);
            } else {
                assert(terms_before(sizes, ci)[t] == prev[t]);
            }
        }
        assert forall|a: int, b: int| 0 <= a < ci && a < b < sizes.len() implies #[trigger] pair_listed(
            terms_before(sizes, ci),
            sizes,
            a,
            b,
        ) by {
            let cur = terms_before(sizes, ci);
            if a < ci - 1 {
                assert(pair_listed(prev, sizes, a, b));
                let t = choose|t: int| 0 <= t < prev.len() && prev[t] == (a as usize, b as usize, sizes[a]);
                assert(cur[t] == prev[t]);
            } else {
                let t = prev.len() + (b - a - 1);
                assert(cur[t] == row[b - a - 1]);
            }
        }
    }
}

/// `x` comes before `y` when their pairs are ordered lexicographically.
pub open spec fn pair_before(x: (usize, usize, usize), y: (usize, usize, usize)) -> bool {
    x.0 < y.0 || (x.0 == y.0 && x.1 < y.1)
}

/// The numerator terms list the pairs in strictly increasing lexicographic
/// order, so no pair is listed twice, and there are `ci * (2k - ci - 1) / 2`
/// of them before centroid `ci` of `k`: `k * (k - 1) / 2` in all.
pub proof fn law_terms_list_each_pair_once(sizes: Seq<usize>, ci: int)
    requires
        0 <= ci <= sizes.len(),
        sizes.len() <= usize::MAX,
    ensures
        forall|t1: int, t2: int|
            0 <= t1 < t2 < terms_before(sizes, ci).len() ==> pair_before(
                #[trigger] terms_before(sizes, ci)[t1],
                #[trigger] terms_before(sizes, ci)[t2],
            ),
        forall|t1: int, t2: int|
            0 <= t1 < terms_before(sizes, ci).len() && 0 <= t2 < terms_before(sizes, ci).len() && t1 != t2
                ==> (#[trigger] terms_before(sizes, ci)[t1]).0 != (#[trigger] terms_before(sizes, ci)[t2]).0
                || terms_before(sizes, ci)[t1].1 != terms_before(sizes, ci)[t2].1,
        2 * terms_before(sizes, ci).len() == ci * (2 * sizes.len() - ci - 1),
    decreases ci,
{
    let k = sizes.len() as int;
    if ci > 0 {
        law_terms_list_each_pair_once(sizes, ci - 1);
        law_terms_pair_later_centroids(sizes, ci - 1);
        let prev = terms_before(sizes, ci - 1);
        let row = row_terms(sizes, ci - 1);
        let cur = terms_before(sizes, ci);
        assert(cur == prev + row);
        assert forall|t1: int, t2: int| 0 <= t1 < t2 < cur.len() implies pair_before(
            #[trigger] cur[t1],
            #[trigger] cur[t2],
        ) by {
            if t2 < prev.len() {
                assert(cur[t1] == prev[t1] && cur[t2] == prev[t2]);
            } else if t1 < prev.len() {
                assert(cur[t1] == prev[t1]);
                assert(cur[t2] == row[t2 - prev.len()]);
            } else {
                assert(cur[t1] == row[t1 - prev.len()]);
                assert(cur[t2] == row[t2 - prev.len()]);
            }
        }
        assert forall|t1: int, t2: int|
            0 <= t1 < cur.len() && 0 <= t2 < cur.len() && t1 != t2 implies (#[trigger] cur[t1]).0 != (
            #[trigger] cur[t2]).0 || cur[t1].1 != cur[t2].1 by {
            if t1 < t2 {
                assert(pair_before(cur[t1], cur[t2]));
            } else {
                assert(pair_before(cur[t2], cur[t1]));
            }
        }
        let lp = prev.len() as int;
        assert(row.len() == k - ci);
        assert(2 * lp == (ci - 1) * (2 * k - (ci - 1) - 1));
        assert(2 * (lp + (k - ci)) == ci * (2 * k - ci - 1)) by (nonlinear_arith)
            requires
                2 * lp == (ci - 1) * (2 * k - (ci - 1) - 1),
        ;
        assert(cur.len() == lp + (k - ci));
    } else {
        assert(ci * (2 * k - ci - 1) == 0) by (nonlinear_arith)
            requires
                ci == 0,
        ;
    }
}

/// The bounds enclose the values: every non-NaN value lies, in the order of
/// doubles, between the running minimum and the running maximum, whatever
/// their start values (a value beyond a start value is never left out).
pub proof fn law_bounds_enclose_values(v: Seq<u64>, lo_start: u64, hi_start: u64, lo: u64, hi: u64, j: int)
    requires
        least_from(v, lo_start, lo),
        greatest_from(v, hi_start, hi),
        0 <= j < v.len(),
        !is_nan_bits(v[j]),
    ensures
        order_key(lo) <= order_key(v[j]),
        order_key(v[j]) <= order_key(hi),
        signed_magnitude(lo) <= signed_magnitude(v[j]),
        signed_magnitude(v[j]) <= signed_magnitude(hi),
{
    law_key_orders_like_doubles(v[j], lo);
    law_key_orders_like_doubles(hi, v[j]);
    if exists|r: int| is_first_least(v, lo_start, r) && lo == v[r] {
        let r = choose|r: int| is_first_least(v, lo_start, r) && lo == v[r];
        assert(order_key(v[r]) <= order_key(v[j]));
    } else {
        if order_key(v[j]) < order_key(lo_start) {
            assert(exists|r: int| is_first_least(v, lo_start, r)) by {
                lemma_some_least(v, lo_start, j);
            }
        }
    }
    if exists|r: int| is_first_greatest(v, hi_start, r) && hi == v[r] {
        let r = choose|r: int| is_first_greatest(v, hi_start, r) && hi == v[r];
        assert(order_key(v[r]) >= order_key(v[j]));
    } else {
        if order_key(v[j]) > order_key(hi_start) {
            assert(exists|r: int| is_first_greatest(v, hi_start, r)) by {
                lemma_some_greatest(v, hi_start, j);
            }
        }
    }
}

/// When some non-NaN value is below `start`, a first least value exists.
proof fn lemma_some_least(v: Seq<u64>, start: u64, j: int)
    requires
        0 <= j < v.len(),
        !is_nan_bits(v[j]),
        order_key(v[j]) < order_key(start),
    ensures
        exists|r: int| is_first_least(v, start, r),
    decreases v.len(),
{
    let n = v.len() - 1;
    let u = v.take(n);
    if j < n {
        lemma_some_least(u, start, j);
        let r = choose|r: int| is_first_least(u, start, r);
        assert(u[r] == v[r]);
        if !is_nan_bits(v[n]) && order_key(v[n]) < order_key(v[r]) {
            assert(is_first_least(v, start, n)) by {
                assert forall|t: int| 0 <= t < n && !is_nan_bits(#[trigger] v[t]) implies order_key(v[n]) < order_key(v[t]) by {
                    assert(u[t] == v[t]);
                }
            }
        } else {
            assert(is_first_least(v, start, r)) by {
                assert forall|t: int| 0 <= t < v.len() && !is_nan_bits(#[trigger] v[t]) implies order_key(v[r]) <= order_key(v[t]) by {
                    if t < n {
                        assert(u[t] == v[t]);
                    }
                }
                assert forall|t: int| 0 <= t < r && !is_nan_bits(#[trigger] v[t]) implies order_key(v[r]) < order_key(v[t]) by {
                    assert(u[t] == v[t]);
                }
            }
        }
    } else {
        if exists|r: int| is_first_least(u, start, r) {
            let r = choose|r: int| is_first_least(u, start, r);
            assert(u[r] == v[r]);
            if order_key(v[n]) < order_key(v[r]) {
                assert(is_first_least(v, start, n)) by {
                    assert forall|t: int| 0 <= t < n && !is_nan_bits(#[trigger] v[t]) implies order_key(v[n]) < order_key(v[t]) by {
                        assert(u[t] == v[t]);
                    }
                }
            } else {
                assert(is_first_least(v, start, r)) by {
                    assert forall|t: int| 0 <= t < v.len() && !is_nan_bits(#[trigger] v[t]) implies order_key(v[r]) <= order_key(v[t]) by {
                        if t < n {
                            assert(u[t] == v[t]);
                        }
                    }
                    assert forall|t: int| 0 <= t < r && !is_nan_bits(#[trigger] v[t]) implies order_key(v[r]) < order_key(v[t]) by {
                        assert(u[t] == v[t]);
                    }
                }
            }
        } else {
            assert(is_first_least(v, start, n)) by {
                assert forall|t: int| 0 <= t < n && !is_nan_bits(#[trigger] v[t]) implies order_key(v[n]) < order_key(v[t]) by {
                    assert(u[t] == v[t]);
                    if order_key(v[t]) <= order_key(v[n]) {
                        lemma_some_least(u, start, t);
                    }
                }
            }
        }
    }
}

/// When some non-NaN value is above `start`, a first greatest value exists.
proof fn lemma_some_greatest(v: Seq<u64>, start: u64, j: int)
    requires
        0 <= j < v.len(),
        !is_nan_bits(v[j]),
        order_key(v[j]) > order_key(start),
    ensures
        exists|r: int| is_first_greatest(v, start, r),
    decreases v.len(),
{
    let n = v.len() - 1;
    let u = v.take(n);
    if j < n {
        lemma_some_greatest(u, start, j);
        let r = choose|r: int| is_first_greatest(u, start, r);
        assert(u[r] == v[r]);
        if !is_nan_bits(v[n]) && order_key(v[n]) > order_key(v[r]) {
            assert(is_first_greatest(v, start, n)) by {
                assert forall|t: int| 0 <= t < n && !is_nan_bits(#[trigger] v[t]) implies order_key(v[n]) > order_key(v[t]) by {
                    assert(u[t] == v[t]);
                }
            }
        } else {
            assert(is_first_greatest(v, start, r)) by {
                assert forall|t: int| 0 <= t < v.len() && !is_nan_bits(#[trigger] v[t]) implies order_key(v[r]) >= order_key(v[t]) by {
                    if t < n {
                        assert(u[t] == v[t]);
                    }
                }
                assert forall|t: int| 0 <= t < r && !is_nan_bits(#[trigger] v[t]) implies order_key(v[r]) > order_key(v[t]) by {
                    assert(u[t] == v[t]);
                }
            }
        }
    } else {
        if exists|r: int| is_first_greatest(u, start, r) {
            let r = choose|r: int| is_first_greatest(u, start, r);
            assert(u[r] == v[r]);
            if order_key(v[n]) > order_key(v[r]) {
                assert(is_first_greatest(v, start, n)) by {
                    assert forall|t: int| 0 <= t < n && !is_nan_bits(#[trigger] v[t]) implies order_key(v[n]) > order_key(v[t]) by {
                        assert(u[t] == v[t]);
                    }
                }
            } else {
                assert(is_first_greatest(v, start, r)) by {
                    assert forall|t: int| 0 <= t < v.len() && !is_nan_bits(#[trigger] v[t]) implies order_key(v[r]) >= order_key(v[t]) by {
                        if t < n {
                            assert(u[t] == v[t]);
                        }
                    }
                    assert forall|t: int| 0 <= t < r && !is_nan_bits(#[trigger] v[t]) implies order_key(v[r]) > order_key(v[t]) by {
                        assert(u[t] == v[t]);
                    }
                }
            }
        } else {
            assert(is_first_greatest(v, start, n)) by {
                assert forall|t: int| 0 <= t < n && !is_nan_bits(#[trigger] v[t]) implies order_key(v[n]) > order_key(v[t]) by {
                    assert(u[t] == v[t]);
                    if order_key(v[t]) >= order_key(v[n]) {
                        lemma_some_greatest(u, start, t);
                    }
                }
            }
        }
    }
}

} // verus!
