//! The state carried from one k-means round to the next: the membership
//! matrix that the run reports, how many rounds have finished, and whether
//! the centroids have settled.

use vstd::prelude::*;
use crate::membership::{assign_memberships, zero_membership, zero_row};

verus! {

/// Every centroid of the round was flagged as settled, and there is at
/// least one centroid.
pub open spec fn all_settled(close: Seq<bool>) -> bool {
    close.len() > 0 && forall|c: int| 0 <= c < close.len() ==> #[trigger] close[c]
}

/// A round settles the run exactly when its flags are all set and there is
/// at least one: one unset flag, wherever it stands, leaves the run as it
/// was, and a nonempty list of set flags settles it.
pub proof fn law_settles_only_when_every_centroid_settled(close: Seq<bool>)
    ensures
        forall|c: int| 0 <= c < close.len() && !#[trigger] close[c] ==> !all_settled(close),
        close.len() > 0 && (forall|c: int| 0 <= c < close.len() ==> #[trigger] close[c]) ==> all_settled(close),
        close.len() == 0 ==> !all_settled(close),
{
}

/// The rows of a membership matrix, each as a sequence.
pub open spec fn rows_of(p: Seq<Vec<i32>>) -> Seq<Seq<i32>> {
    p.map_values(|r: Vec<i32>| r@)
}

/// Progress of a k-means run between rounds.
pub struct KmeansState {
    membership: Vec<Vec<i32>>,
    counter: i32,
    converged: bool,
}

impl KmeansState {
    /// The membership matrix the run reports: all zeros until the round in
    /// which the centroids settle, that round's matrix from then on.
    pub closed spec fn rows(&self) -> Seq<Seq<i32>> {
        rows_of(self.membership@)
    }

    /// The number of finished rounds.
    pub closed spec fn round_count(&self) -> int {
        self.counter as int
    }

    /// Whether the centroids have settled.
    pub closed spec fn settled(&self) -> bool {
        self.converged
    }

    /// The state before the first round of a run over `n` points and `k`
    /// centroids.
    pub fn new(n: usize, k: usize) -> (s: Self)
        ensures
            s.rows() == Seq::new(n as nat, |i: int| zero_row(k as nat)),
            s.round_count() == 0,
            !s.settled(),
    {
        let membership = zero_membership(n, k);
        let s = KmeansState { membership, counter: 0, converged: false };
        assert(s.rows() == Seq::new(n as nat, |i: int| zero_row(k as nat)));
        s
    }

    /// Whether the run is to stop: the centroids settled in the last round.
    pub fn is_converged(&self) -> (b: bool)
        ensures
            b == self.settled(),
    {
        self.converged
    }

    /// The number of finished rounds.
    pub fn rounds(&self) -> (r: i32)
        ensures
            r == self.round_count(),
    {
        self.counter
    }

    /// The membership matrix the run reports.
    pub fn membership(&self) -> (p: &Vec<Vec<i32>>)
        ensures
            rows_of(p@) == self.rows(),
    {
        &self.membership
    }

    /// The membership matrix of a round: a copy of the reported matrix with
    /// point `i` marked as belonging to centroid `nearest[i]`.
    pub fn assign(&self, nearest: &Vec<usize>) -> (p: Vec<Vec<i32>>)
        requires
            nearest.len() <= self.rows().len(),
            forall|i: int| 0 <= i < nearest.len() ==> #[trigger] nearest@[i] < self.rows()[i].len(),
        ensures
            p.len() == self.rows().len(),
            forall|i: int|
                0 <= i < nearest.len() ==> #[trigger] p@[i]@ == self.rows()[i].update(
                    nearest@[i] as int,
                    1,
                ),
            forall|i: int| nearest.len() <= i < self.rows().len() ==> #[trigger] p@[i]@ == self.rows()[i],
    {
        assert forall|i: int| 0 <= i < nearest.len() implies #[trigger] nearest@[i] < self.membership@[i].len() by {
            assert(self.rows()[i] == self.membership@[i]@);
        }
        let p = assign_memberships(&self.membership, nearest);
        assert forall|i: int|
            0 <= i < nearest.len() implies #[trigger] p@[i]@ == self.rows()[i].update(nearest@[i] as int, 1) by {
            assert(self.rows()[i] == self.membership@[i]@);
        }
        assert forall|i: int| nearest.len() <= i < self.rows().len() implies #[trigger] p@[i]@ == self.rows()[i] by {
            assert(self.rows()[i] == self.membership@[i]@);
        }
        p
    }

    /// Ends a round whose membership matrix was `round`, given for each
    /// centroid whether it settled (moved by no more than the tolerance in
    /// some coordinate). The run has converged once every centroid settled
    /// in one round; the matrix of that round becomes the reported one.
    pub fn finish_round(&mut self, round: Vec<Vec<i32>>, close: &Vec<bool>)
        requires
            old(self).round_count() < i32::MAX,
        ensures
            final(self).round_count() == old(self).round_count() + 1,
            final(self).settled() == (old(self).settled() || all_settled(close@)),
            all_settled(close@) ==> final(self).rows() == rows_of(round@),
            !all_settled(close@) ==> final(self).rows() == old(self).rows(),
            forall|c: int|
                0 <= c < close.len() && !#[trigger] close@[c] ==> final(self).settled() == old(
                    self,
                ).settled() && final(self).rows() == old(self).rows(),
            close.len() > 0 && (forall|c: int| 0 <= c < close.len() ==> #[trigger] close@[c])
                ==> final(self).settled() && final(self).rows() == rows_of(round@),
    {
        proof {
            law_settles_only_when_every_centroid_settled(close@);
        }
        let mut count: usize = 0;
        let mut hit = false;
        let mut i: usize = 0;
        while i < close.len()
            invariant
                i <= close.len(),
                count <= i,
                (count == i) <==> (forall|t: int| 0 <= t < i ==> #[trigger] close@[t]),
                hit <==> (count == close.len() && close.len() > 0),
            decreases close.len() - i,
        {
            if close[i] {
                count = count + 1;
                if count == close.len() {
                    hit = true;
                }
            }
            i = i + 1;
        }
        if hit {
            self.membership = round;
            self.converged = true;
        }
        self.counter = self.counter + 1;
    }
}

} // verus!
