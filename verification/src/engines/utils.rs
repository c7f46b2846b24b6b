//! Arithmetic on strategies: probability vectors in score units.

use crate::bindings::random::draw_below;
use crate::engines::algorithms::score_node::{lemma_mean_range, mean};
use crate::engines::constants::SCORE_UNIT;
use rand::rngs::StdRng;
use vstd::prelude::*;

verus! {

/// The entries of `v` before place `upto`, added up.
pub open spec fn prefix_sum(v: Seq<i64>, upto: int) -> int
    decreases upto,
{
    if upto <= 0 {
        0
    } else {
        prefix_sum(v, upto - 1) + v[upto - 1]
    }
}

/// All entries of `v` added up.
pub open spec fn sum(v: Seq<i64>) -> int {
    prefix_sum(v, v.len() as int)
}

/// Whether no entry of `v` is negative.
pub open spec fn non_negative(v: Seq<i64>) -> bool {
    forall|i: int| 0 <= i < v.len() ==> #[trigger] v[i] >= 0
}

/// Whether `v` gives each place a weight that is not below zero, all
/// together no more than one whole.
pub open spec fn bounded_weights(v: Seq<i64>) -> bool {
    &&& non_negative(v)
    &&& sum(v) <= SCORE_UNIT
}

/// Whether `v` gives each place a probability: no weight below zero, and
/// all together one whole, less at most one unit for each place, which
/// rounding may take.
pub open spec fn is_strategy(v: Seq<i64>) -> bool {
    &&& bounded_weights(v)
    &&& sum(v) > SCORE_UNIT - v.len()
}

/// The place that `sample` falls on when the entries of `v` are laid end
/// to end, looking from place `from` on: the first place where what is
/// laid down exceeds `sample`; the last place of all where none does.
pub open spec fn pick_from(v: Seq<i64>, sample: int, from: int) -> int
    decreases v.len() - from,
{
    if from >= v.len() - 1 {
        v.len() - 1
    } else if sample < prefix_sum(v, from + 1) {
        from
    } else {
        pick_from(v, sample, from + 1)
    }
}

/// The place that `sample` falls on.
pub open spec fn pick(v: Seq<i64>, sample: int) -> int {
    pick_from(v, sample, 0)
}

/// The payoffs of the first `upto` places, each times its probability,
/// added up.
pub open spec fn dot(strategy: Seq<i64>, score: Seq<i64>, upto: int) -> int
    decreases upto,
{
    if upto <= 0 {
        0
    } else {
        dot(strategy, score, upto - 1) + strategy[upto - 1] * score[upto - 1]
    }
}

/// The payoff of playing `strategy` where place `i` pays `score[i]`,
/// rounded towards zero.
pub open spec fn mixed(strategy: Seq<i64>, score: Seq<i64>) -> int {
    mean(dot(strategy, score, strategy.len() as int), SCORE_UNIT as int)
}

/// The part of one whole that the regret at place `i` is of all regret,
/// rounded down.
pub open spec fn portion(regret: Seq<i64>, i: int) -> int {
    regret[i] * SCORE_UNIT / sum(regret)
}

/// The strategy that plays each place in proportion to its regret; every
/// place alike where there is no regret.
pub open spec fn matched(regret: Seq<i64>) -> Seq<i64> {
    Seq::new(
        regret.len(),
        |i: int|
            if sum(regret) > 0 {
                portion(regret, i) as i64
            } else {
                (SCORE_UNIT as int / regret.len() as int) as i64
            },
    )
}

/// The running mean of `count` values after `latest` has come in as the
/// last of them, rounded towards zero. Places that `latest` does not have
/// stay as they are.
pub open spec fn averaged(stored: Seq<i64>, latest: Seq<i64>, count: int) -> Seq<i64> {
    Seq::new(
        stored.len(),
        |i: int|
            if i < latest.len() {
                mean(stored[i] * (count - 1) + latest[i], count) as i64
            } else {
                stored[i]
            },
    )
}

/// A sum of entries lies within what so many entries can add up to, and is
/// not negative where no entry is.
pub proof fn lemma_prefix_sum_bounds(v: Seq<i64>, upto: int)
    requires
        0 <= upto <= v.len(),
    ensures
        -upto * 0x8000_0000_0000_0000 <= prefix_sum(v, upto) <= upto * 0x7fff_ffff_ffff_ffff,
        non_negative(v) ==> 0 <= prefix_sum(v, upto),
    decreases upto,
{
    if upto > 0 {
        lemma_prefix_sum_bounds(v, upto - 1);
    }
}

/// Where no entry is negative, a sum over more entries is no smaller.
pub proof fn lemma_prefix_sum_grows(v: Seq<i64>, a: int, b: int)
    requires
        non_negative(v),
        0 <= a <= b <= v.len(),
    ensures
        prefix_sum(v, a) <= prefix_sum(v, b),
    decreases b - a,
{
    if a < b {
        lemma_prefix_sum_grows(v, a, b - 1);
    }
}

/// The place that a sample falls on is a place of the vector.
pub proof fn lemma_pick_in_range(v: Seq<i64>, sample: int, from: int)
    requires
        v.len() > 0,
        0 <= from < v.len(),
    ensures
        from <= pick_from(v, sample, from) < v.len(),
    decreases v.len() - from,
{
    if from < v.len() - 1 && !(sample < prefix_sum(v, from + 1)) {
        lemma_pick_in_range(v, sample, from + 1);
    }
}

proof fn lemma_dot_bounds(strategy: Seq<i64>, score: Seq<i64>, upto: int)
    requires
        non_negative(strategy),
        0 <= upto <= strategy.len(),
        upto <= score.len(),
    ensures
        -prefix_sum(strategy, upto) * 0x8000_0000_0000_0000 <= dot(strategy, score, upto)
            <= prefix_sum(strategy, upto) * 0x7fff_ffff_ffff_ffff,
    decreases upto,
{
    if upto > 0 {
        lemma_dot_bounds(strategy, score, upto - 1);
        let s = strategy[upto - 1] as int;
        let c = score[upto - 1] as int;
        let before = prefix_sum(strategy, upto - 1);
        assert(-s * 0x8000_0000_0000_0000 <= s * c <= s * 0x7fff_ffff_ffff_ffff)
            by (nonlinear_arith)
            requires
                s >= 0,
                -0x8000_0000_0000_0000 <= c <= 0x7fff_ffff_ffff_ffff,
        ;
        assert((before + s) * 0x8000_0000_0000_0000 == before * 0x8000_0000_0000_0000 + s
            * 0x8000_0000_0000_0000) by (nonlinear_arith);
        assert((before + s) * 0x7fff_ffff_ffff_ffff == before * 0x7fff_ffff_ffff_ffff + s
            * 0x7fff_ffff_ffff_ffff) by (nonlinear_arith);
    }
}

proof fn lemma_matched_sum(regret: Seq<i64>, upto: int)
    requires
        non_negative(regret),
        0 <= upto <= regret.len(),
        sum(regret) > 0,
    ensures
        non_negative(matched(regret)),
        SCORE_UNIT * prefix_sum(regret, upto) - upto * sum(regret) < sum(regret) * prefix_sum(
            matched(regret),
            upto,
        ) <= SCORE_UNIT * prefix_sum(regret, upto) || upto == 0,
        upto == 0 ==> prefix_sum(matched(regret), upto) == 0,
        forall|i: int| 0 <= i < regret.len() ==> 0 <= #[trigger] portion(regret, i) <= SCORE_UNIT,
    decreases upto,
{
    let total = sum(regret);
    let u = SCORE_UNIT as int;
    let m = matched(regret);
    assert forall|i: int| 0 <= i < regret.len() implies 0 <= #[trigger] portion(regret, i)
        <= SCORE_UNIT by {
        let r = regret[i] as int;
        assert(r >= 0);
        lemma_prefix_sum_grows(regret, i + 1, regret.len() as int);
        lemma_prefix_sum_bounds(regret, i);
        assert(r <= total);
        assert(0 <= r * u <= total * u) by (nonlinear_arith)
            requires
                0 <= r <= total,
                u >= 0,
        ;
        vstd::arithmetic::div_mod::lemma_div_is_ordered(r * u, total * u, total);
        assert(total * u / total == u) by (nonlinear_arith)
            requires
                total > 0,
        ;
        assert(r * u / total >= 0) by (nonlinear_arith)
            requires
                r * u >= 0,
                total > 0,
        ;
    }
    assert forall|i: int| 0 <= i < m.len() implies #[trigger] m[i] >= 0 by {
        assert(0 <= portion(regret, i) <= SCORE_UNIT);
    }
    if upto > 0 {
        lemma_matched_sum(regret, upto - 1);
        let r = regret[upto - 1] as int;
        let part = r * u / total;
        assert(0 <= portion(regret, upto - 1) <= SCORE_UNIT);
        assert(m[upto - 1] == part);
        vstd::arithmetic::div_mod::lemma_fundamental_div_mod(r * u, total);
        assert(0 <= (r * u) % total < total) by (nonlinear_arith)
            requires
                total > 0,
        ;
        let before = prefix_sum(m, upto - 1);
        let held = prefix_sum(regret, upto - 1);
        assert(total * (before + part) == total * before + total * part) by (nonlinear_arith);
        assert(u * (held + r) == u * held + r * u) by (nonlinear_arith);
        assert(upto * total == (upto - 1) * total + total) by (nonlinear_arith);
    }
}

proof fn lemma_constant_sum(v: Seq<i64>, c: int, upto: int)
    requires
        0 <= upto <= v.len(),
        forall|i: int| 0 <= i < v.len() ==> v[i] == c,
    ensures
        prefix_sum(v, upto) == upto * c,
    decreases upto,
{
    if upto > 0 {
        lemma_constant_sum(v, c, upto - 1);
        assert(upto * c == (upto - 1) * c + c) by (nonlinear_arith);
    } else {
        assert(upto * c == 0) by (nonlinear_arith)
            requires
                upto == 0,
        ;
    }
}

/// Matching regrets gives a strategy: no place has a negative probability,
/// and all together they come to one whole, less at most one unit for each
/// place, which is lost to rounding.
pub proof fn law_matched_is_strategy(regret: Seq<i64>)
    requires
        non_negative(regret),
        regret.len() > 0,
    ensures
        is_strategy(matched(regret)),
{
    let m = matched(regret);
    let total = sum(regret);
    let u = SCORE_UNIT as int;
    let n = regret.len() as int;
    lemma_prefix_sum_bounds(regret, n);
    if total > 0 {
        lemma_matched_sum(regret, n);
        let s = sum(m);
        assert(s <= u) by (nonlinear_arith)
            requires
                total * s <= u * total,
                total > 0,
        ;
        assert(s > u - n) by (nonlinear_arith)
            requires
                u * total - n * total < total * s,
                total > 0,
        ;
    } else {
        let c = u / n;
        assert forall|i: int| 0 <= i < m.len() implies m[i] == c by {}
        lemma_constant_sum(m, c, n);
        vstd::arithmetic::div_mod::lemma_fundamental_div_mod(u, n);
        assert(0 <= u % n < n) by (nonlinear_arith)
            requires
                n > 0,
        ;
        assert(n * c == n * (u / n)) by (nonlinear_arith)
            requires
                c == u / n,
        ;
        assert(c >= 0) by (nonlinear_arith)
            requires
                c == u / n,
                u >= 0,
                n > 0,
        ;
    }
}

/// The place that `sample` falls on in `vec`.
pub fn pick_index(vec: &Vec<i64>, sample: i64) -> (res: usize)
    requires
        vec@.len() > 0,
    ensures
        res == pick(vec@, sample as int),
        res < vec@.len(),
{
    let mut total: i128 = 0;
    let mut i: usize = 0;
    proof {
        lemma_pick_in_range(vec@, sample as int, 0);
    }
    while i < vec.len() - 1
        invariant
            vec@.len() > 0,
            i <= vec@.len() - 1,
            total == prefix_sum(vec@, i as int),
            pick_from(vec@, sample as int, i as int) == pick(vec@, sample as int),
        decreases vec@.len() - i,
    {
        proof {
            lemma_prefix_sum_bounds(vec@, i as int);
            lemma_prefix_sum_bounds(vec@, i + 1);
        }
        total = total + vec[i] as i128;
        if (sample as i128) < total {
            return i;
        }
        i += 1;
    }
    i
}

/// A place of `vec`, drawn with the probabilities that `vec` gives; the
/// last place where the draw falls beyond them all.
pub fn sample_strategy(vec: &Vec<i64>, rng: &mut StdRng) -> (res: usize)
    requires
        vec@.len() > 0,
    ensures
        res < vec@.len(),
        exists|sample: int| 0 <= sample < SCORE_UNIT && res == #[trigger] pick(vec@, sample),
{
    let sample: u64 = draw_below(SCORE_UNIT as u64, rng);
    pick_index(vec, sample as i64)
}

/// The payoff of playing `strategy` where place `i` pays `score[i]`.
pub fn mixed_strategy_score(strategy: &Vec<i64>, score: &Vec<i64>) -> (res: i64)
    requires
        strategy@.len() == score@.len(),
        bounded_weights(strategy@),
    ensures
        res == mixed(strategy@, score@),
{
    let mut weighted_average: i128 = 0;
    let mut i: usize = 0;
    while i < strategy.len()
        invariant
            strategy@.len() == score@.len(),
            bounded_weights(strategy@),
            i <= strategy@.len(),
            weighted_average == dot(strategy@, score@, i as int),
        decreases strategy@.len() - i,
    {
        proof {
            lemma_dot_bounds(strategy@, score@, i as int);
            lemma_dot_bounds(strategy@, score@, i + 1);
            lemma_prefix_sum_grows(strategy@, i as int, strategy@.len() as int);
            lemma_prefix_sum_grows(strategy@, i + 1, strategy@.len() as int);
            lemma_prefix_sum_bounds(strategy@, i as int);
            lemma_prefix_sum_bounds(strategy@, i + 1);
            let s = strategy@[i as int] as int;
            let c = score@[i as int] as int;
            assert(0 <= s <= SCORE_UNIT);
            assert(-s * 0x8000_0000_0000_0000 <= s * c <= s * 0x7fff_ffff_ffff_ffff)
                by (nonlinear_arith)
                requires
                    s >= 0,
                    -0x8000_0000_0000_0000 <= c <= 0x7fff_ffff_ffff_ffff,
            ;
        }
        weighted_average = weighted_average + (strategy[i] as i128) * (score[i] as i128);
        i += 1;
    }
    proof {
        lemma_dot_bounds(strategy@, score@, strategy@.len() as int);
        lemma_prefix_sum_bounds(strategy@, strategy@.len() as int);
        lemma_mean_range(weighted_average as int, SCORE_UNIT as int);
    }
    let unit: i128 = SCORE_UNIT as i128;
    let res: i128 = if weighted_average >= 0 {
        weighted_average / unit
    } else {
        -((-weighted_average) / unit)
    };
    res as i64
}

/// Sets `strategy` to play each place in proportion to its regret, and
/// every place alike where there is no regret at all.
pub fn normalize(strategy: &mut Vec<i64>, regret_vec: &Vec<i64>)
    requires
        old(strategy)@.len() == regret_vec@.len(),
        non_negative(regret_vec@),
    ensures
        final(strategy)@ == matched(regret_vec@),
        bounded_weights(final(strategy)@),
        regret_vec@.len() > 0 ==> sum(final(strategy)@) > SCORE_UNIT - regret_vec@.len(),
{
    let n: usize = regret_vec.len();
    let mut total: i128 = 0;
    let mut k: usize = 0;
    while k < n
        invariant
            n == regret_vec@.len(),
            k <= n,
            total == prefix_sum(regret_vec@, k as int),
        decreases n - k,
    {
        proof {
            lemma_prefix_sum_bounds(regret_vec@, k as int);
            lemma_prefix_sum_bounds(regret_vec@, k + 1);
        }
        total = total + regret_vec[k] as i128;
        k += 1;
    }
    proof {
        lemma_prefix_sum_bounds(regret_vec@, n as int);
        if n > 0 {
            law_matched_is_strategy(regret_vec@);
        }
        if total > 0 {
            lemma_matched_sum(regret_vec@, 0);
        }
    }
    let unit: i128 = SCORE_UNIT as i128;
    let mut i: usize = 0;
    while i < n
        invariant
            n == regret_vec@.len(),
            strategy@.len() == n,
            non_negative(regret_vec@),
            i <= n,
            unit == SCORE_UNIT,
            total == sum(regret_vec@),
            total >= 0,
            total > 0 ==> forall|j: int|
                0 <= j < n ==> 0 <= #[trigger] portion(regret_vec@, j) <= SCORE_UNIT,
            forall|j: int| 0 <= j < i ==> strategy@[j] == matched(regret_vec@)[j],
        decreases n - i,
    {
        let part: i128 = if total > 0 {
            proof {
                let r = regret_vec@[i as int] as int;
                assert(0 <= r);
                assert(0 <= portion(regret_vec@, i as int) <= SCORE_UNIT);
                assert(0 <= r * 1_000_000 <= 0x7fff_ffff_ffff_ffff * 1_000_000) by (nonlinear_arith)
                    requires
                        0 <= r <= 0x7fff_ffff_ffff_ffff,
                ;
            }
            (regret_vec[i] as i128) * unit / total
        } else {
            unit / (n as i128)
        };
        proof {
            if total <= 0 {
                assert(0 <= 1_000_000int / (n as int) <= 1_000_000) by (nonlinear_arith)
                    requires
                        n >= 1,
                ;
            }
        }
        strategy.set(i, part as i64);
        i += 1;
    }
    proof {
        assert(strategy@ =~= matched(regret_vec@));
    }
}

/// Takes `latest_value` into the running mean of `latest_value_no` values.
pub fn update_average(
    stored_average: &mut Vec<i64>,
    latest_value: &Vec<i64>,
    latest_value_no: usize,
)
    requires
        latest_value_no >= 1,
    ensures
        final(stored_average)@ == averaged(
            old(stored_average)@,
            latest_value@,
            latest_value_no as int,
        ),
{
    let n: i128 = latest_value_no as i128;
    let mut i: usize = 0;
    while i < stored_average.len() && i < latest_value.len()
        invariant
            n == latest_value_no,
            n >= 1,
            stored_average@.len() == old(stored_average)@.len(),
            i <= stored_average@.len(),
            i <= latest_value@.len(),
            forall|j: int|
                0 <= j < i ==> stored_average@[j] == averaged(
                    old(stored_average)@,
                    latest_value@,
                    n as int,
                )[j],
            forall|j: int|
                i <= j < stored_average@.len() ==> stored_average@[j] == old(stored_average)@[j],
        decreases stored_average@.len() - i,
    {
        let stored: i128 = stored_average[i] as i128;
        proof {
            assert(-0x8000_0000_0000_0000 * (n - 1) <= stored * (n - 1) <= 0x7fff_ffff_ffff_ffff
                * (n - 1)) by (nonlinear_arith)
                requires
                    -0x8000_0000_0000_0000 <= stored <= 0x7fff_ffff_ffff_ffff,
                    n >= 1,
            ;
            lemma_mean_range(stored * (n - 1) + latest_value@[i as int], n as int);
        }
        let x: i128 = stored * (n - 1) + latest_value[i] as i128;
        let part: i128 = if x >= 0 {
            x / n
        } else {
            -((-x) / n)
        };
        stored_average.set(i, part as i64);
        i += 1;
    }
    proof {
        assert(stored_average@ =~= averaged(
            old(stored_average)@,
            latest_value@,
            latest_value_no as int,
        ));
    }
}

} // verus!
