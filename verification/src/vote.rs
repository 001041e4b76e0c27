//! Majority voting among the nearest neighbours (the kNN prediction step).
use vstd::prelude::*;

use crate::error::{KernelError, KernelResult};
use crate::laws::prediction_is_majority_of_nearest;
use crate::ranking::{all_ok, first_error_at, is_top_k, rank_lowest, values_of};

verus! {

/// How many of `votes` are `label`.
pub open spec fn count_of(votes: Seq<u32>, label: u32) -> nat
    decreases votes.len(),
{
    if votes.len() == 0 {
        0
    } else {
        count_of(votes.drop_last(), label) + if votes.last() == label {
            1nat
        } else {
            0nat
        }
    }
}

/// `label` wins the vote: no label has more votes, and among the labels with
/// that many votes it is the one cast first.
pub open spec fn wins_vote(votes: Seq<u32>, label: u32) -> bool {
    exists|p: int|
        0 <= p < votes.len() && votes[p] == label && (forall|j: int|
            0 <= j < votes.len() ==> count_of(votes, #[trigger] votes[j]) <= count_of(votes, label))
            && (forall|j: int| 0 <= j < p ==> count_of(votes, #[trigger] votes[j]) < count_of(votes, label))
}

/// The labels of the ranked candidates, in ranking order.
pub open spec fn votes_of(labels: Seq<u32>, ranked: Seq<(usize, u32)>) -> Seq<u32> {
    Seq::new(ranked.len(), |i: int| labels[ranked[i].0 as int])
}

/// Counts the votes for `label`.
fn count_votes(votes: &[u32], label: u32) -> (count: usize)
    ensures
        count == count_of(votes@, label),
{
    let mut count: usize = 0;
    for i in 0..votes.len()
        invariant
            count == count_of(votes@.take(i as int), label),
            count <= i,
    {
        assert(votes@.take(i + 1).drop_last() == votes@.take(i as int));
        if votes[i] == label {
            count = count + 1;
        }
    }
    assert(votes@.take(votes.len() as int) == votes@);
    count
}

/// The label that wins the vote among the nonempty `votes`.
pub fn majority_vote(votes: &[u32]) -> (label: u32)
    requires
        votes@.len() > 0,
    ensures
        wins_vote(votes@, label),
{
    let mut best: usize = 0;
    let mut best_count = count_votes(votes, votes[0]);
    for i in 1..votes.len()
        invariant
            best < i <= votes@.len(),
            best_count == count_of(votes@, votes@[best as int]),
            forall|j: int| 0 <= j < i ==> count_of(votes@, #[trigger] votes@[j]) <= best_count,
            forall|j: int| 0 <= j < best ==> count_of(votes@, #[trigger] votes@[j]) < best_count,
    {
        let count = count_votes(votes, votes[i]);
        if count > best_count {
            best = i;
            best_count = count;
        }
    }
    assert(votes@[best as int] == votes[best as int]);
    votes[best]
}

/// The kNN prediction from the distances of all samples to the query: the
/// label that wins the vote among the `k` nearest samples (`rank_lowest`).
/// Fails with `LengthMismatch { left: samples, right: labels }` when the
/// number of labels differs from the number of samples, and otherwise as
/// `rank_lowest` fails.
pub fn predict_by_vote(scores: &[KernelResult<u32>], labels: &[u32], k: usize) -> (res: KernelResult<u32>)
    ensures
        labels@.len() != scores@.len() ==> res == Err::<u32, KernelError>(
            KernelError::LengthMismatch { left: scores@.len() as usize, right: labels@.len() as usize },
        ),
        labels@.len() == scores@.len() && scores@.len() == 0 ==> res == Err::<u32, KernelError>(
            KernelError::EmptyCandidates,
        ),
        labels@.len() == scores@.len() && scores@.len() > 0 && (k == 0 || k > scores@.len()) ==> res
            == Err::<u32, KernelError>(KernelError::InvalidK { k, len: scores@.len() as usize }),
        forall|j: int|
            labels@.len() == scores@.len() && 0 < k <= scores@.len() && first_error_at(scores@, j)
                ==> res == Err::<u32, KernelError>(scores@[j]->Err_0),
        labels@.len() == scores@.len() && 0 < k <= scores@.len() && all_ok(scores@) ==> (res matches Ok(
            label,
        ) && exists|ranked: Seq<(usize, u32)>|
            is_top_k(ranked, values_of(scores@), k as nat) && wins_vote(votes_of(labels@, ranked), label)),
        res matches Ok(label) ==> exists|ranked: Seq<(usize, u32)>|
            #![trigger is_top_k(ranked, values_of(scores@), k as nat)]
            is_top_k(ranked, values_of(scores@), k as nat) && ({
                let nearest_labels = Seq::new(k as nat, |i: int| labels@[ranked[i].0 as int]);
                exists|p: int|
                    0 <= p < k && labels@[ranked[p].0 as int] == label && (forall|j: int|
                        0 <= j < k ==> nearest_labels.to_multiset().count(
                            labels@[ranked[j].0 as int],
                        ) <= nearest_labels.to_multiset().count(label)) && (forall|j: int|
                        0 <= j < p ==> nearest_labels.to_multiset().count(
                            labels@[ranked[j].0 as int],
                        ) < nearest_labels.to_multiset().count(label))
            }),
{
    if labels.len() != scores.len() {
        return Err(KernelError::LengthMismatch { left: scores.len(), right: labels.len() });
    }
    let ranked = rank_lowest(scores, k)?;
    let mut votes: Vec<u32> = Vec::new();
    for i in 0..ranked.len()
        invariant
            ranked@.len() == k,
            0 < k <= labels@.len() == scores@.len(),
            forall|p: int| 0 <= p < ranked@.len() ==> ranked@[p].0 < labels@.len(),
            votes@ == votes_of(labels@, ranked@).take(i as int),
    {
        votes.push(labels[ranked[i].0]);
        assert(votes@ == votes_of(labels@, ranked@).take(i + 1));
    }
    assert(votes@ == votes_of(labels@, ranked@));
    let label = majority_vote(&votes);
    proof {
        prediction_is_majority_of_nearest(ranked@, values_of(scores@), labels@, k as nat, label);
    }
    Ok(label)
}

} // verus!
