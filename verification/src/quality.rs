//! The integer parts of the cluster-quality ratio: how many points each
//! group holds, and which centroid pairs, with which weight, make up the
//! numerator.

use vstd::prelude::*;
use crate::laws::{law_terms_list_each_pair_once, law_terms_pair_later_centroids, pair_before, pair_listed};

verus! {

/// How many of the first `n` entries of `groups` equal `c`.
pub open spec fn count_upto(groups: Seq<usize>, c: int, n: int) -> nat
    decreases n,
{
    if n <= 0 {
        0
    } else if groups[n - 1] == c {
        count_upto(groups, c, n - 1) + 1
    } else {
        count_upto(groups, c, n - 1)
    }
}

/// A count over the first `n` entries is at most `n`.
pub proof fn lemma_count_upto_bounded(groups: Seq<usize>, c: int, n: int)
    requires
        n >= 0,
    ensures
        count_upto(groups, c, n) <= n,
    decreases n,
{
    if n > 0 {
        lemma_count_upto_bounded(groups, c, n - 1);
    }
}

/// The number of points in each of the `k` groups, where `groups[i]` is the
/// group of point `i`.
pub fn group_sizes(groups: &Vec<usize>, k: usize) -> (sizes: Vec<usize>)
    requires
        forall|i: int| 0 <= i < groups.len() ==> #[trigger] groups@[i] < k,
    ensures
        sizes.len() == k,
        forall|c: int| 0 <= c < k ==> #[trigger] sizes@[c] == count_upto(groups@, c, groups.len() as int),
{
    let mut sizes: Vec<usize> = Vec::new();
    let mut c: usize = 0;
    while c < k
        invariant
            c <= k,
            sizes@ == Seq::new(c as nat, |t: int| 0usize),
        decreases k - c,
    {
        sizes.push(0);
        c = c + 1;
    }
    let mut i: usize = 0;
    while i < groups.len()
        invariant
            i <= groups.len(),
            sizes.len() == k,
            forall|t: int| 0 <= t < groups.len() ==> #[trigger] groups@[t] < k,
            forall|c: int| 0 <= c < k ==> #[trigger] sizes@[c] == count_upto(groups@, c, i as int),
        decreases groups.len() - i,
    {
        let g = groups[i];
        proof {
            lemma_count_upto_bounded(groups@, g as int, i as int);
        }
        let old_size = sizes[g];
        sizes.set(g, old_size + 1);
        i = i + 1;
        assert forall|c: int| 0 <= c < k implies #[trigger] sizes@[c] == count_upto(
            groups@,
            c,
            i as int,
        ) by {}
    }
    sizes
}

/// The numerator terms contributed by centroid `ci`: one for each later
/// centroid `cb`, weighted by the size of group `ci`.
pub open spec fn row_terms(sizes: Seq<usize>, ci: int) -> Seq<(usize, usize, usize)> {
    Seq::new(
        (sizes.len() - ci - 1) as nat,
        |t: int| (ci as usize, (ci + 1 + t) as usize, sizes[ci]),
    )
}

/// The numerator terms of the centroids before `ci`, in order.
pub open spec fn terms_before(sizes: Seq<usize>, ci: int) -> Seq<(usize, usize, usize)>
    decreases ci,
{
    if ci <= 0 {
        seq![]
    } else {
        terms_before(sizes, ci - 1) + row_terms(sizes, ci - 1)
    }
}

/// The terms of the cluster-quality numerator, in the order they are summed:
/// for each pair of centroids `a < b`, the triple `(a, b, sizes[a])`, whose
/// distance is counted once for each point of group `a`.
pub fn numerator_terms(sizes: &Vec<usize>) -> (terms: Vec<(usize, usize, usize)>)
    ensures
        terms@ == terms_before(sizes@, sizes.len() as int),
        forall|t: int|
            0 <= t < terms.len() ==> (#[trigger] terms@[t]).0 < terms@[t].1 < sizes.len() && terms@[t].2
                == sizes@[terms@[t].0 as int],
        forall|a: int, b: int| 0 <= a < b < sizes.len() ==> #[trigger] pair_listed(terms@, sizes@, a, b),
        forall|t1: int, t2: int|
            0 <= t1 < t2 < terms.len() ==> pair_before(#[trigger] terms@[t1], #[trigger] terms@[t2]),
        2 * terms.len() == sizes.len() * (2 * sizes.len() - sizes.len() - 1),
{
    let k = sizes.len();
    let mut terms: Vec<(usize, usize, usize)> = Vec::new();
    let mut ci: usize = 0;
    while ci < k
        invariant
            k == sizes.len(),
            ci <= k,
            terms@ == terms_before(sizes@, ci as int),
        decreases k - ci,
    {
        let mut cb: usize = ci + 1;
        let ghost row = row_terms(sizes@, ci as int);
        while cb < k
            invariant
                k == sizes.len(),
                ci < k,
                ci + 1 <= cb <= k,
                row == row_terms(sizes@, ci as int),
                terms@ == terms_before(sizes@, ci as int) + row.take(cb - ci - 1),
            decreases k - cb,
        {
            terms.push((ci, cb, sizes[ci]));
            assert(row.take(cb - ci) == row.take(cb - ci - 1).push(row[cb - ci - 1]));
            cb = cb + 1;
        }
        assert(row.take(k - ci - 1) == row);
        ci = ci + 1;
    }
    proof {
        law_terms_pair_later_centroids(sizes@, k as int);
        law_terms_list_each_pair_once(sizes@, k as int);
    }
    terms
}

} // verus!
