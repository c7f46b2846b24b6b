//! Regrets as values of actions.

use vstd::prelude::*;

verus! {

/// What an action would have gained over the best one.
pub struct Regret {}

impl Regret {
    /// The best of `score`, and the lowest score where there is none.
    pub open spec fn best(score: Seq<i64>) -> i64
        decreases score.len(),
    {
        if score.len() == 0 {
            i64::MIN
        } else if score.last() > Self::best(score.drop_last()) {
            score.last()
        } else {
            Self::best(score.drop_last())
        }
    }

    /// How far each action is behind the best one.
    pub open spec fn shortfalls(score: Seq<i64>) -> Seq<int> {
        Seq::new(score.len(), |i: int| Self::best(score) - score[i])
    }

    /// No score is above the best.
    pub proof fn lemma_best(score: Seq<i64>)
        ensures
            forall|i: int| 0 <= i < score.len() ==> score[i] <= Self::best(score),
        decreases score.len(),
    {
        if score.len() > 0 {
            Self::lemma_best(score.drop_last());
            assert forall|i: int| 0 <= i < score.len() implies score[i] <= Self::best(score) by {
                if i < score.len() - 1 {
                    assert(score.drop_last()[i] == score[i]);
                }
            }
        }
    }

    /// How far each action is behind the best one: never less than 0.
    pub fn q_values(score: &Vec<i64>) -> (res: Vec<i128>)
        ensures
            res@.len() == score@.len(),
            forall|i: int| 0 <= i < res@.len() ==> res@[i] == Self::shortfalls(score@)[i],
            forall|i: int| 0 <= i < res@.len() ==> res@[i] >= 0,
    {
        let mut max_score: i64 = i64::MIN;
        let mut k: usize = 0;
        while k < score.len()
            invariant
                k <= score@.len(),
                max_score == Self::best(score@.take(k as int)),
            decreases score@.len() - k,
        {
            proof {
                assert(score@.take(k + 1).drop_last() =~= score@.take(k as int));
                assert(score@.take(k + 1).last() == score@[k as int]);
            }
            if score[k] > max_score {
                max_score = score[k];
            }
            k += 1;
        }
        proof {
            assert(score@.take(score@.len() as int) =~= score@);
            Self::lemma_best(score@);
        }
        let mut regret: Vec<i128> = Vec::with_capacity(score.len());
        let mut i: usize = 0;
        while i < score.len()
            invariant
                i <= score@.len(),
                max_score == Self::best(score@),
                forall|j: int| 0 <= j < score@.len() ==> score@[j] <= max_score,
                regret@.len() == i,
                forall|j: int| 0 <= j < i ==> regret@[j] == max_score - score@[j],
            decreases score@.len() - i,
        {
            regret.push(max_score as i128 - score[i] as i128);
            i += 1;
        }
        regret
    }
}

} // verus!
