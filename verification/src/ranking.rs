//! Choosing among scored candidates: collecting per-candidate scores,
//! picking the best one, and ranking the `k` nearest.
use vstd::prelude::*;

use crate::error::{KernelError, KernelResult};
use crate::score::{
    is_nan, lemma_score_le_total_preorder, score_le, score_less_or_equal, total_key, total_order_key,
};

verus! {

/// Entry `j` is the first failed entry of `scores`.
pub open spec fn first_error_at(scores: Seq<KernelResult<u32>>, j: int) -> bool {
    &&& 0 <= j < scores.len()
    &&& scores[j] is Err
    &&& forall|i: int| 0 <= i < j ==> scores[i] is Ok
}

/// Every entry of `scores` holds a score.
pub open spec fn all_ok(scores: Seq<KernelResult<u32>>) -> bool {
    forall|i: int| 0 <= i < scores.len() ==> scores[i] is Ok
}

/// The scores held by `scores`, position by position.
pub open spec fn values_of(scores: Seq<KernelResult<u32>>) -> Seq<u32> {
    Seq::new(scores.len(), |i: int| scores[i]->Ok_0)
}

/// A failed entry implies a first failed entry.
pub proof fn lemma_first_error_exists(scores: Seq<KernelResult<u32>>, j: int)
    requires
        0 <= j < scores.len(),
        scores[j] is Err,
    ensures
        exists|f: int| first_error_at(scores, f),
    decreases j,
{
    if forall|i: int| 0 <= i < j ==> scores[i] is Ok {
        assert(first_error_at(scores, j));
    } else {
        let i = choose|i: int| 0 <= i < j && !(scores[i] is Ok);
        lemma_first_error_exists(scores, i);
    }
}

/// Collects the score of every candidate: fails with `EmptyCandidates` when
/// there is none, else with the error of the first failed candidate.
pub fn collect_scores(scores: &[KernelResult<u32>]) -> (res: KernelResult<Vec<u32>>)
    ensures
        scores@.len() == 0 ==> res == Err::<Vec<u32>, KernelError>(KernelError::EmptyCandidates),
        scores@.len() > 0 && all_ok(scores@) ==> (res matches Ok(v) && v@ == values_of(scores@)),
        forall|j: int|
            scores@.len() > 0 && first_error_at(scores@, j) ==> res == Err::<Vec<u32>, KernelError>(
                scores@[j]->Err_0,
            ),
{
    if scores.len() == 0 {
        return Err(KernelError::EmptyCandidates);
    }
    let mut values: Vec<u32> = Vec::new();
    for i in 0..scores.len()
        invariant
            values@ == values_of(scores@.take(i as int)),
            forall|j: int| 0 <= j < i ==> scores@[j] is Ok,
    {
        match &scores[i] {
            Ok(v) => {
                values.push(*v);
                assert(values@ =~= values_of(scores@.take(i + 1)));
            },
            Err(e) => {
                let err = *e;
                assert(first_error_at(scores@, i as int));
                assert forall|j: int| first_error_at(scores@, j) implies j == i by {
                    if j < i {
                    } else if j > i {
                        assert(scores@[i as int] is Ok);
                    }
                }
                return Err(err);
            },
        }
    }
    assert(scores@.take(scores.len() as int) =~= scores@);
    Ok(values)
}

/// Whether a search that holds `best` keeps it when it meets `next`: the
/// lowest-score search keeps it when `best <= next`, the highest-score search
/// when `best >= next` (IEEE comparisons).
pub open spec fn keeps_best(best: u32, next: u32, highest: bool) -> bool {
    if highest {
        score_le(next, best)
    } else {
        score_le(best, next)
    }
}

/// The position and score a left-to-right search over the nonempty `values`
/// ends with: each score replaces the one held unless the held one is kept.
pub open spec fn search(values: Seq<u32>, highest: bool) -> (usize, u32)
    recommends
        values.len() > 0,
    decreases values.len(),
{
    if values.len() <= 1 {
        (0, values[0])
    } else {
        let held = search(values.drop_last(), highest);
        if keeps_best(held.1, values.last(), highest) {
            held
        } else {
            ((values.len() - 1) as usize, values.last())
        }
    }
}

/// No score in `values` is NaN.
pub open spec fn no_nan(values: Seq<u32>) -> bool {
    forall|i: int| 0 <= i < values.len() ==> !is_nan(values[i])
}

/// Over scores without NaN, the search ends on the first best score.
pub proof fn lemma_search_finds_first_best(values: Seq<u32>, highest: bool)
    requires
        0 < values.len() <= usize::MAX,
        no_nan(values),
    ensures
        search(values, highest).0 < values.len(),
        search(values, highest).1 == values[search(values, highest).0 as int],
        forall|j: int|
            0 <= j < values.len() ==> keeps_best(search(values, highest).1, values[j], highest),
        forall|j: int|
            0 <= j < search(values, highest).0 ==> !keeps_best(
                values[j],
                search(values, highest).1,
                highest,
            ),
    decreases values.len(),
{
    if values.len() > 1 {
        let prefix = values.drop_last();
        lemma_search_finds_first_best(prefix, highest);
        let pi = search(prefix, highest).0;
        let pv = search(prefix, highest).1;
        let last = values.last();
        assert(!is_nan(last));
        assert forall|j: int| 0 <= j < values.len() - 1 implies !is_nan(#[trigger] prefix[j]) by {
            assert(prefix[j] == values[j]);
        }
        lemma_score_le_total_preorder(pv, last, pv);
        if keeps_best(pv, last, highest) {
            assert(prefix[pi as int] == values[pi as int]);
            assert forall|j: int| 0 <= j < values.len() implies keeps_best(
                pv,
                values[j],
                highest,
            ) by {
                if j < values.len() - 1 {
                    assert(prefix[j] == values[j]);
                } else {
                    lemma_score_le_total_preorder(pv, pv, pv);
                }
            }
            assert forall|j: int| 0 <= j < pi implies !keeps_best(values[j], pv, highest) by {
                assert(prefix[j] == values[j]);
            }
        } else {
            assert forall|j: int| 0 <= j < values.len() implies keeps_best(
                last,
                values[j],
                highest,
            ) by {
                if j < values.len() - 1 {
                    assert(prefix[j] == values[j]);
                    assert(keeps_best(pv, values[j], highest));
                    lemma_score_le_total_preorder(pv, last, values[j]);
                    lemma_score_le_total_preorder(values[j], pv, last);
                    lemma_score_le_total_preorder(last, pv, values[j]);
                    lemma_score_le_total_preorder(values[j], last, pv);
                } else {
                    lemma_score_le_total_preorder(last, last, last);
                }
            }
            assert forall|j: int| 0 <= j < values.len() - 1 implies !keeps_best(
                values[j],
                last,
                highest,
            ) by {
                assert(prefix[j] == values[j]);
                assert(keeps_best(pv, values[j], highest));
                lemma_score_le_total_preorder(pv, values[j], last);
                lemma_score_le_total_preorder(last, values[j], pv);
            }
        }
    } else {
        lemma_score_le_total_preorder(values[0], values[0], values[0]);
    }
}

/// The search shared by `select_lowest` (`highest == false`) and
/// `select_highest` (`highest == true`).
fn best_score(scores: &[KernelResult<u32>], highest: bool) -> (res: KernelResult<(usize, u32)>)
    ensures
        scores@.len() == 0 ==> res == Err::<(usize, u32), KernelError>(KernelError::EmptyCandidates),
        scores@.len() > 0 && all_ok(scores@) ==> res == Ok::<(usize, u32), KernelError>(
            search(values_of(scores@), highest),
        ),
        forall|j: int|
            first_error_at(scores@, j) ==> res == Err::<(usize, u32), KernelError>(
                scores@[j]->Err_0,
            ),
{
    let mut best: Option<(usize, u32)> = None;
    for i in 0..scores.len()
        invariant
            forall|j: int| 0 <= j < i ==> scores@[j] is Ok,
            i == 0 ==> best is None,
            i > 0 ==> best == Some(search(values_of(scores@.take(i as int)), highest)),
    {
        match &scores[i] {
            Ok(score) => {
                let ghost prefix = values_of(scores@.take(i + 1));
                assert(prefix.drop_last() =~= values_of(scores@.take(i as int)));
                assert(prefix.last() == *score);
                let keep = match best {
                    Some((_, held)) => if highest {
                        score_less_or_equal(*score, held)
                    } else {
                        score_less_or_equal(held, *score)
                    },
                    None => false,
                };
                if !keep {
                    best = Some((i, *score));
                }
            },
            Err(e) => {
                let err = *e;
                assert(first_error_at(scores@, i as int));
                assert forall|j: int| first_error_at(scores@, j) implies j == i by {
                    if j > i {
                        assert(scores@[i as int] is Ok);
                    }
                }
                return Err(err);
            },
        }
    }
    assert(scores@.take(scores.len() as int) =~= scores@);
    match best {
        Some(found) => Ok(found),
        None => Err(KernelError::EmptyCandidates),
    }
}

/// The candidate with the lowest score (the nearest by distance): fails with
/// `EmptyCandidates` when there is none, else with the error of the first
/// failed candidate; otherwise the position and score a left-to-right search
/// ends on, a candidate being replaced unless it is `<=` the next one.
pub fn select_lowest(scores: &[KernelResult<u32>]) -> (res: KernelResult<(usize, u32)>)
    ensures
        scores@.len() == 0 ==> res == Err::<(usize, u32), KernelError>(KernelError::EmptyCandidates),
        forall|j: int|
            first_error_at(scores@, j) ==> res == Err::<(usize, u32), KernelError>(
                scores@[j]->Err_0,
            ),
        scores@.len() > 0 && all_ok(scores@) ==> res == Ok::<(usize, u32), KernelError>(
            search(values_of(scores@), false),
        ),
        scores@.len() > 0 && all_ok(scores@) && no_nan(values_of(scores@)) ==> (res matches Ok(
            found,
        ) && {
            let values = values_of(scores@);
            &&& found.0 < values.len()
            &&& found.1 == values[found.0 as int]
            &&& forall|j: int| 0 <= j < values.len() ==> score_le(found.1, values[j])
            &&& forall|j: int| 0 <= j < found.0 ==> !score_le(values[j], found.1)
        }),
{
    let res = best_score(scores, false);
    let count = scores.len();
    proof {
        assert(values_of(scores@).len() == count);
        if scores@.len() > 0 && all_ok(scores@) && no_nan(values_of(scores@)) {
            lemma_search_finds_first_best(values_of(scores@), false);
        }
    }
    res
}

/// The candidate with the highest score (the most similar): fails with
/// `EmptyCandidates` when there is none, else with the error of the first
/// failed candidate; otherwise the position and score a left-to-right search
/// ends on, a candidate being replaced unless it is `>=` the next one.
pub fn select_highest(scores: &[KernelResult<u32>]) -> (res: KernelResult<(usize, u32)>)
    ensures
        scores@.len() == 0 ==> res == Err::<(usize, u32), KernelError>(KernelError::EmptyCandidates),
        forall|j: int|
            first_error_at(scores@, j) ==> res == Err::<(usize, u32), KernelError>(
                scores@[j]->Err_0,
            ),
        scores@.len() > 0 && all_ok(scores@) ==> res == Ok::<(usize, u32), KernelError>(
            search(values_of(scores@), true),
        ),
        scores@.len() > 0 && all_ok(scores@) && no_nan(values_of(scores@)) ==> (res matches Ok(
            found,
        ) && {
            let values = values_of(scores@);
            &&& found.0 < values.len()
            &&& found.1 == values[found.0 as int]
            &&& forall|j: int| 0 <= j < values.len() ==> score_le(values[j], found.1)
            &&& forall|j: int| 0 <= j < found.0 ==> !score_le(found.1, values[j])
        }),
{
    let res = best_score(scores, true);
    let count = scores.len();
    proof {
        assert(values_of(scores@).len() == count);
        if scores@.len() > 0 && all_ok(scores@) && no_nan(values_of(scores@)) {
            lemma_search_finds_first_best(values_of(scores@), true);
        }
    }
    res
}

/// `a` comes before `b` in the ranking: a smaller total-order key
/// (`f32::total_cmp`), or the same key and a smaller position.
pub open spec fn ranks_before(a: (usize, u32), b: (usize, u32)) -> bool {
    total_key(a.1) < total_key(b.1) || (total_key(a.1) == total_key(b.1) && a.0 < b.0)
}

/// `ranked` holds, in increasing ranking order, the first `k` of the
/// candidates `(i, values[i])`.
pub open spec fn is_top_k(ranked: Seq<(usize, u32)>, values: Seq<u32>, k: nat) -> bool {
    &&& ranked.len() == k
    &&& forall|i: int|
        0 <= i < ranked.len() ==> ranked[i].0 < values.len() && ranked[i].1 == values[ranked[i].0 as int]
    &&& forall|i: int, j: int| 0 <= i < j < ranked.len() ==> ranks_before(ranked[i], ranked[j])
    &&& forall|x: usize, i: int|
        #![trigger omits(ranked, x), ranked[i]]
        x < values.len() && omits(ranked, x) && 0 <= i < ranked.len() ==> ranks_before(
            ranked[i],
            (x, values[x as int]),
        )
}

/// Some entry of `ranked` is at position `x`.
pub open spec fn holds(ranked: Seq<(usize, u32)>, x: usize) -> bool {
    exists|p: int| 0 <= p < ranked.len() && #[trigger] ranked[p].0 == x
}

/// No entry of `ranked` is at position `x`.
pub open spec fn omits(ranked: Seq<(usize, u32)>, x: usize) -> bool {
    forall|i: int| 0 <= i < ranked.len() ==> ranked[i].0 != x
}

/// Computes `ranks_before(a, b)`.
fn ranks_before_exec(a: (usize, u32), b: (usize, u32)) -> (before: bool)
    ensures
        before == ranks_before(a, b),
{
    let ka = total_order_key(a.1);
    let kb = total_order_key(b.1);
    ka < kb || (ka == kb && a.0 < b.0)
}

/// All candidates `(i, values[i])`, sorted in increasing ranking order.
fn rank_all(values: &Vec<u32>) -> (sorted: Vec<(usize, u32)>)
    ensures
        is_top_k(sorted@, values@, values@.len()),
        forall|x: usize| x < values@.len() ==> #[trigger] holds(sorted@, x),
{
    let mut sorted: Vec<(usize, u32)> = Vec::new();
    for i in 0..values.len()
        invariant
            sorted@.len() == i,
            forall|p: int|
                0 <= p < sorted@.len() ==> sorted@[p].0 < i && sorted@[p].1 == values@[sorted@[p].0 as int],
            forall|p: int, q: int| 0 <= p < q < sorted@.len() ==> ranks_before(sorted@[p], sorted@[q]),
            forall|x: usize| x < i ==> #[trigger] holds(sorted@, x),
    {
        let entry = (i, values[i]);
        let mut pos: usize = 0;
        while pos < sorted.len() && !ranks_before_exec(entry, sorted[pos])
            invariant
                pos <= sorted@.len(),
                forall|p: int| 0 <= p < pos ==> !ranks_before(entry, sorted@[p]),
            decreases sorted@.len() - pos,
        {
            pos = pos + 1;
        }
        let ghost old_sorted = sorted@;
        sorted.insert(pos, entry);
        proof {
            old_sorted.insert_ensures(pos as int, entry);
            assert forall|p: int, q: int| 0 <= p < q < sorted@.len() implies ranks_before(
                sorted@[p],
                sorted@[q],
            ) by {
                if q < pos {
                } else if q == pos {
                    assert(!ranks_before(entry, old_sorted[p]));
                    assert(old_sorted[p].0 < i);
                } else if p < pos {
                    assert(!ranks_before(entry, old_sorted[p]));
                    assert(old_sorted[p].0 < i);
                    if pos < old_sorted.len() {
                        assert(ranks_before(entry, old_sorted[pos as int]));
                    }
                    assert(sorted@[q] == old_sorted[q - 1]);
                    if (q - 1) > pos {
                        assert(ranks_before(old_sorted[pos as int], old_sorted[q - 1]));
                    }
                } else if p == pos {
                    assert(ranks_before(entry, old_sorted[pos as int]));
                    assert(sorted@[q] == old_sorted[q - 1]);
                    if (q - 1) > pos {
                        assert(ranks_before(old_sorted[pos as int], old_sorted[q - 1]));
                    }
                } else {
                    assert(sorted@[p] == old_sorted[p - 1]);
                    assert(sorted@[q] == old_sorted[q - 1]);
                }
            }
            assert forall|x: usize| x < i + 1 implies #[trigger] holds(sorted@, x) by {
                if x == i {
                    assert(sorted@[pos as int].0 == x);
                } else {
                    assert(holds(old_sorted, x));
                    let p = choose|p: int| 0 <= p < old_sorted.len() && #[trigger] old_sorted[p].0 == x;
                    if p < pos {
                        assert(sorted@[p].0 == x);
                    } else {
                        assert(sorted@[p + 1].0 == x);
                    }
                }
            }
        }
    }
    proof {
        assert forall|x: usize, i: int|
            x < values@.len() && omits(sorted@, x) && 0 <= i < sorted@.len() implies ranks_before(
            sorted@[i],
            (x, values@[x as int]),
        ) by {
            assert(holds(sorted@, x));
            let p = choose|p: int| 0 <= p < sorted@.len() && #[trigger] sorted@[p].0 == x;
        }
    }
    sorted
}

/// The `k` candidates with the lowest scores, in increasing order of
/// `f32::total_cmp` and, among equal scores, of position (what
/// `nearest_k_l2_sq_f32` returns). Fails with `EmptyCandidates` when there is
/// no candidate, with `InvalidK` when `k` is outside `1..=len`, and else with
/// the error of the first failed candidate.
pub fn rank_lowest(scores: &[KernelResult<u32>], k: usize) -> (res: KernelResult<Vec<(usize, u32)>>)
    ensures
        scores@.len() == 0 ==> res == Err::<Vec<(usize, u32)>, KernelError>(
            KernelError::EmptyCandidates,
        ),
        scores@.len() > 0 && (k == 0 || k > scores@.len()) ==> res == Err::<
            Vec<(usize, u32)>,
            KernelError,
        >(KernelError::InvalidK { k, len: scores@.len() as usize }),
        forall|j: int|
            0 < k <= scores@.len() && first_error_at(scores@, j) ==> res == Err::<
                Vec<(usize, u32)>,
                KernelError,
            >(scores@[j]->Err_0),
        0 < k <= scores@.len() && all_ok(scores@) ==> res is Ok,
        res matches Ok(ranked) ==> 0 < k <= scores@.len() && all_ok(scores@) && is_top_k(
            ranked@,
            values_of(scores@),
            k as nat,
        ),
{
    if scores.len() == 0 {
        return Err(KernelError::EmptyCandidates);
    }
    if k == 0 || k > scores.len() {
        return Err(KernelError::InvalidK { k, len: scores.len() });
    }
    let values = collect_scores(scores)?;
    proof {
        if !all_ok(scores@) {
            let j = choose|j: int| 0 <= j < scores@.len() && !(scores@[j] is Ok);
            lemma_first_error_exists(scores@, j);
        }
    }
    let mut ranked = rank_all(&values);
    let ghost all = ranked@;
    ranked.truncate(k);
    proof {
        assert forall|x: usize, i: int|
            x < values@.len() && omits(ranked@, x) && 0 <= i < ranked@.len() implies ranks_before(
            ranked@[i],
            (x, values@[x as int]),
        ) by {
            assert(holds(all, x));
            let p = choose|p: int| 0 <= p < all.len() && #[trigger] all[p].0 == x;
            if p < k {
                assert(ranked@[p].0 == x);
            }
            assert(ranked@[i] == all[i]);
            assert(ranks_before(all[i], all[p]));
        }
    }
    Ok(ranked)
}

} // verus!
