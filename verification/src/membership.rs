//! Membership matrices: one row per point, one column per centroid, with a `1`
//! in the column of the centroid the point belongs to.

use vstd::prelude::*;
use crate::laws::law_members_are_the_nonzero_rows;

verus! {

/// `j` is the position of the first `1` in `row`.
pub open spec fn is_first_one(row: Seq<i32>, j: int) -> bool {
    &&& 0 <= j < row.len()
    &&& row[j] == 1
    &&& forall|t: int| 0 <= t < j ==> row[t] != 1
}

/// `row` holds a `1` somewhere.
pub open spec fn has_one(row: Seq<i32>) -> bool {
    exists|j: int| 0 <= j < row.len() && row[j] == 1
}

/// Position of the first `1` in `row`.
fn first_one(row: &Vec<i32>) -> (j: usize)
    requires
        has_one(row@),
    ensures
        is_first_one(row@, j as int),
{
    let mut j: usize = 0;
    while j < row.len()
        invariant
            j <= row.len(),
            has_one(row@),
            forall|t: int| 0 <= t < j ==> row@[t] != 1,
        decreases row.len() - j,
    {
        if row[j] == 1 {
            return j;
        }
        j = j + 1;
    }
    proof {
        let w = choose|w: int| 0 <= w < row@.len() && row@[w] == 1;
        assert(row@[w] != 1);
    }
    0
}

/// For each row of `p`, the index of the first `1` in it: the group that
/// each point was assigned to.
pub fn get_dem_groups(p: &Vec<Vec<i32>>) -> (groups: Vec<usize>)
    requires
        forall|i: int| 0 <= i < p.len() ==> has_one(#[trigger] p@[i]@),
    ensures
        groups.len() == p.len(),
        forall|i: int| 0 <= i < p.len() ==> is_first_one(p@[i]@, #[trigger] groups@[i] as int),
{
    let mut groups: Vec<usize> = Vec::new();
    let mut i: usize = 0;
    while i < p.len()
        invariant
            i <= p.len(),
            groups.len() == i,
            forall|t: int| 0 <= t < p.len() ==> has_one(#[trigger] p@[t]@),
            forall|t: int| 0 <= t < i ==> is_first_one(p@[t]@, #[trigger] groups@[t] as int),
        decreases p.len() - i,
    {
        let g = first_one(&p[i]);
        groups.push(g);
        i = i + 1;
    }
    groups
}

/// A row of `k` zeros: a point not yet assigned to any centroid.
pub open spec fn zero_row(k: nat) -> Seq<i32> {
    Seq::new(k, |j: int| 0i32)
}

/// A row of `k` entries that is `1` in column `c` and `0` elsewhere.
pub open spec fn one_hot_row(k: nat, c: int) -> Seq<i32> {
    zero_row(k).update(c, 1)
}

/// The indices `i < n` whose row in `p` is nonzero in column `c`, in
/// increasing order.
pub open spec fn members_upto(p: Seq<Vec<i32>>, c: int, n: int) -> Seq<usize>
    decreases n,
{
    if n <= 0 {
        seq![]
    } else if p[n - 1]@[c] != 0 {
        members_upto(p, c, n - 1).push((n - 1) as usize)
    } else {
        members_upto(p, c, n - 1)
    }
}

/// A membership matrix of `n` rows of `k` zeros.
pub fn zero_membership(n: usize, k: usize) -> (p: Vec<Vec<i32>>)
    ensures
        p.len() == n,
        forall|i: int| 0 <= i < n ==> #[trigger] p@[i]@ == zero_row(k as nat),
{
    let mut p: Vec<Vec<i32>> = Vec::new();
    let mut i: usize = 0;
    while i < n
        invariant
            i <= n,
            p.len() == i,
            forall|t: int| 0 <= t < i ==> #[trigger] p@[t]@ == zero_row(k as nat),
        decreases n - i,
    {
        let mut row: Vec<i32> = Vec::new();
        let mut j: usize = 0;
        while j < k
            invariant
                j <= k,
                row@ == Seq::new(j as nat, |t: int| 0i32),
            decreases k - j,
        {
            row.push(0);
            j = j + 1;
        }
        assert(row@ == zero_row(k as nat));
        p.push(row);
        i = i + 1;
    }
    p
}

/// A copy of `row`.
fn copy_row(row: &Vec<i32>) -> (r: Vec<i32>)
    ensures
        r@ == row@,
{
    let mut r: Vec<i32> = Vec::new();
    let mut j: usize = 0;
    while j < row.len()
        invariant
            j <= row.len(),
            r@ == row@.take(j as int),
        decreases row.len() - j,
    {
        r.push(row[j]);
        j = j + 1;
        assert(r@ == row@.take(j as int));
    }
    assert(row@.take(row.len() as int) == row@);
    r
}

/// A copy of `base` in which row `i` is marked with a `1` in column
/// `nearest[i]`, for each `i < nearest.len()`; the other rows are copied
/// unchanged.
pub fn assign_memberships(base: &Vec<Vec<i32>>, nearest: &Vec<usize>) -> (p: Vec<Vec<i32>>)
    requires
        nearest.len() <= base.len(),
        forall|i: int| 0 <= i < nearest.len() ==> #[trigger] nearest@[i] < base@[i].len(),
    ensures
        p.len() == base.len(),
        forall|i: int|
            0 <= i < nearest.len() ==> #[trigger] p@[i]@ == base@[i]@.update(
                nearest@[i] as int,
                1,
            ),
        forall|i: int| nearest.len() <= i < base.len() ==> #[trigger] p@[i]@ == base@[i]@,
{
    let mut p: Vec<Vec<i32>> = Vec::new();
    let mut i: usize = 0;
    while i < base.len()
        invariant
            i <= base.len(),
            p.len() == i,
            nearest.len() <= base.len(),
            forall|t: int| 0 <= t < nearest.len() ==> #[trigger] nearest@[t] < base@[t].len(),
            forall|t: int|
                0 <= t < i && t < nearest.len() ==> #[trigger] p@[t]@ == base@[t]@.update(
                    nearest@[t] as int,
                    1,
                ),
            forall|t: int| nearest.len() <= t < i ==> #[trigger] p@[t]@ == base@[t]@,
        decreases base.len() - i,
    {
        let mut row = copy_row(&base[i]);
        if i < nearest.len() {
            row.set(nearest[i], 1);
        }
        p.push(row);
        i = i + 1;
    }
    p
}

/// `num::Zero::is_zero` on an `i32`: the crate's source compares the value
/// with `0`, and this wrapper states exactly that.
#[verifier::external_body]
fn is_zero(x: &i32) -> (z: bool)
    ensures
        z == (*x == 0),
{
    num::Zero::is_zero(x)
}

/// The points that belong to centroid `c` (the rows of `p` that are nonzero
/// in column `c`, in increasing order), and the divisor for their mean: one
/// more than their number, so that it is never zero.
pub fn cluster_members(p: &Vec<Vec<i32>>, c: usize) -> (res: (Vec<usize>, usize))
    requires
        p.len() < usize::MAX,
        forall|i: int| 0 <= i < p.len() ==> c < #[trigger] p@[i].len(),
    ensures
        res.0@ == members_upto(p@, c as int, p.len() as int),
        res.1 == res.0.len() + 1,
        res.1 >= 1,
        forall|m: int|
            0 <= m < res.0.len() ==> #[trigger] res.0@[m] < p.len() && p@[res.0@[m] as int]@[c as int] != 0,
        forall|m1: int, m2: int| 0 <= m1 < m2 < res.0.len() ==> #[trigger] res.0@[m1] < #[trigger] res.0@[m2],
        forall|i: int| 0 <= i < p.len() && #[trigger] p@[i]@[c as int] != 0 ==> res.0@.contains(i as usize),
{
    let mut members: Vec<usize> = Vec::new();
    let mut i: usize = 0;
    while i < p.len()
        invariant
            i <= p.len(),
            p.len() < usize::MAX,
            forall|t: int| 0 <= t < p.len() ==> c < #[trigger] p@[t].len(),
            members@ == members_upto(p@, c as int, i as int),
            members.len() <= i,
        decreases p.len() - i,
    {
        let row = &p[i];
        assert(c < row.len());
        if !is_zero(&row[c]) {
            members.push(i);
        }
        i = i + 1;
    }
    proof {
        law_members_are_the_nonzero_rows(p@, c as int, p.len() as int);
    }
    let divisor = members.len() + 1;
    (members, divisor)
}

} // verus!
