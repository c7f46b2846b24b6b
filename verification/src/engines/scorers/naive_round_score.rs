//! The heuristic that values a state at the end of a round.

use crate::engines::constants::{SCORE_UNIT, VALUE_PER_PROPERTY};
use crate::models::cards::{lemma_total_bound, total, total_of};
use crate::models::enums::GamePhase;
use crate::models::game_state::GameState;
use crate::models::state_view::GameStateView;
use vstd::prelude::*;

verus! {

/// `part` as a fraction of `whole`, in score units, rounded down; 0 where
/// `whole` is 0.
pub open spec fn share(part: int, whole: int) -> int {
    if whole <= 0 {
        0
    } else {
        part * SCORE_UNIT as int / whole
    }
}

/// The larger of two numbers.
pub open spec fn larger(a: int, b: int) -> int {
    if a > b {
        a
    } else {
        b
    }
}

/// The face value of all properties that the first `upto` players hold.
pub open spec fn properties_held(s: GameStateView, upto: int) -> int
    decreases upto,
{
    if upto <= 0 {
        0
    } else {
        properties_held(s, upto - 1) + total(s.properties[upto - 1])
    }
}

/// What a coin is taken to be worth while properties are bought: the face
/// value of the checks still to come per coin in play, at the worth of a
/// property's point, and never less than one whole.
pub open spec fn coin_value(s: GameStateView) -> int {
    larger(
        VALUE_PER_PROPERTY as int * share(total(s.remaining_checks) as int, total(s.coins) as int)
            / SCORE_UNIT as int,
        SCORE_UNIT as int,
    )
}

/// What a point of a property is taken to be worth while properties are
/// sold: the face value of the checks still to come per point of property
/// held.
pub open spec fn property_value(s: GameStateView) -> int {
    share(total(s.remaining_checks) as int, properties_held(s, s.n()))
}

/// What player `p` holds, valued in score units.
pub open spec fn worth(s: GameStateView, p: int) -> int {
    if s.sell_phase_end() {
        s.final_score(p) as int
    } else {
        match s.game_phase {
            GamePhase::Bid => VALUE_PER_PROPERTY as int * total(s.properties[p]) + coin_value(s)
                * s.coins[p],
            GamePhase::Sell => total(s.checks[p]) * SCORE_UNIT as int + property_value(s) * total(
                s.properties[p],
            ) + s.coins[p] * SCORE_UNIT as int,
        }
    }
}

/// The worth of the first `upto` players together.
pub open spec fn worth_sum(s: GameStateView, upto: int) -> int
    decreases upto,
{
    if upto <= 0 {
        0
    } else {
        worth_sum(s, upto - 1) + worth(s, upto - 1)
    }
}

/// The highest worth among the first `upto` players, or 0.
pub open spec fn worth_max(s: GameStateView, upto: int) -> int
    decreases upto,
{
    if upto <= 0 {
        0
    } else {
        larger(worth_max(s, upto - 1), worth(s, upto - 1))
    }
}

/// How far player `p` is behind the leader, as a fraction of all worth: 0
/// for a leader, negative for everyone else.
pub open spec fn behind(s: GameStateView, p: int) -> int {
    -share(worth_max(s, s.n()) - worth(s, p), worth_sum(s, s.n()))
}

/// How far the first `upto` players are behind the leader, together.
pub open spec fn behind_sum(s: GameStateView, upto: int) -> int
    decreases upto,
{
    if upto <= 0 {
        0
    } else {
        behind_sum(s, upto - 1) + behind(s, upto - 1)
    }
}

/// The score of player `p` at the end of a round. Once the game is over:
/// the player's share of all that was earned. Before: a leader scores what
/// all others are behind, everyone else what they are behind themselves.
pub open spec fn round_score(s: GameStateView, p: int) -> int {
    if s.sell_phase_end() {
        share(worth(s, p), worth_sum(s, s.n()))
    } else if behind(s, p) == 0 {
        -behind_sum(s, s.n())
    } else {
        behind(s, p)
    }
}

/// The scores of all players at the end of a round.
pub open spec fn round_scores(s: GameStateView) -> Seq<i64> {
    Seq::new(s.no_players as nat, |p: int| round_score(s, p) as i64)
}

/// The most that a hand's face value can come to.
pub open spec fn hand_limit() -> int {
    4_703_919_738_795_935_661_825
}

/// The most that a player's worth can come to.
pub open spec fn worth_limit() -> int {
    2_000_000_000_000_000_000_000_000_000_000
}

proof fn lemma_mul_le(a: int, b: int, c: int, d: int)
    requires
        0 <= a <= c,
        0 <= b <= d,
    ensures
        0 <= a * b <= c * d,
{
    assert(0 <= a * b <= c * d) by (nonlinear_arith)
        requires
            0 <= a <= c,
            0 <= b <= d,
    ;
}

proof fn lemma_div_le(a: int, b: int)
    requires
        0 <= a,
        1 <= b,
    ensures
        0 <= a / b <= a,
{
    assert(0 <= a / b <= a) by (nonlinear_arith)
        requires
            0 <= a,
            1 <= b,
    ;
}

proof fn lemma_div_mono(a: int, c: int, b: int)
    requires
        0 <= a <= c,
        1 <= b,
    ensures
        a / b <= c / b,
{
    vstd::arithmetic::div_mod::lemma_div_is_ordered(a, c, b);
}

proof fn lemma_div_mul_le(a: int, b: int, c: int)
    requires
        0 <= a,
        1 <= b,
        0 <= c <= b,
    ensures
        0 <= (a / b) * c <= a,
{
    lemma_div_le(a, b);
    lemma_mul_le(a / b, c, a / b, b);
    vstd::arithmetic::div_mod::lemma_fundamental_div_mod(a, b);
    assert((a / b) * b == b * (a / b)) by (nonlinear_arith);
    assert(a % b >= 0) by (nonlinear_arith)
        requires
            b >= 1,
    ;
}

proof fn lemma_share(part: int, whole: int)
    requires
        0 <= part,
        0 <= whole,
    ensures
        0 <= share(part, whole) <= part * SCORE_UNIT as int,
        part <= whole ==> share(part, whole) <= SCORE_UNIT as int,
{
    if whole > 0 {
        let u = SCORE_UNIT as int;
        lemma_mul_le(part, u, part, u);
        lemma_div_le(part * u, whole);
        if part <= whole {
            lemma_mul_le(part, u, whole, u);
            lemma_div_mono(part * u, whole * u, whole);
            assert(whole * u / whole == u) by (nonlinear_arith)
                requires
                    whole > 0,
            ;
        }
    }
}

proof fn lemma_properties_held(s: GameStateView, upto: int, p: int)
    requires
        0 <= p < upto <= s.n(),
    ensures
        0 <= total(s.properties[p]) <= properties_held(s, upto),
        0 <= properties_held(s, upto),
    decreases upto,
{
    if p < upto - 1 {
        lemma_properties_held(s, upto - 1, p);
    } else {
        lemma_properties_nonneg(s, upto - 1);
    }
}

proof fn lemma_properties_nonneg(s: GameStateView, upto: int)
    ensures
        0 <= properties_held(s, upto),
    decreases upto,
{
    if upto > 0 {
        lemma_properties_nonneg(s, upto - 1);
    }
}

proof fn lemma_coin_value(s: GameStateView)
    requires
        total(s.remaining_checks) <= hand_limit(),
    ensures
        SCORE_UNIT <= coin_value(s) <= hand_limit() * SCORE_UNIT,
        0 <= share(total(s.remaining_checks) as int, total(s.coins) as int) <= hand_limit()
            * SCORE_UNIT,
{
    let u = SCORE_UNIT as int;
    let v = VALUE_PER_PROPERTY as int;
    let per_coin = share(total(s.remaining_checks) as int, total(s.coins) as int);
    lemma_share(total(s.remaining_checks) as int, total(s.coins) as int);
    lemma_mul_le(total(s.remaining_checks) as int, u, hand_limit(), u);
    lemma_mul_le(v, per_coin, u, per_coin);
    lemma_div_mono(v * per_coin, u * per_coin, u);
    assert(u * per_coin / u == per_coin) by (nonlinear_arith)
        requires
            u > 0,
    ;
    lemma_div_le(v * per_coin, u);
}

proof fn lemma_worth_bound(s: GameStateView, p: int)
    requires
        s.wf(),
        0 <= p < s.n(),
        total(s.remaining_checks) <= hand_limit(),
        forall|q: int| 0 <= q < s.n() ==> total(#[trigger] s.properties[q]) <= hand_limit(),
        forall|q: int| 0 <= q < s.n() ==> total(#[trigger] s.checks[q]) <= hand_limit(),
    ensures
        0 <= worth(s, p) <= worth_limit(),
{
    let u = SCORE_UNIT as int;
    let v = VALUE_PER_PROPERTY as int;
    let held = total(s.properties[p]) as int;
    let earned = total(s.checks[p]) as int;
    let coins = s.coins[p] as int;
    assert(total(s.properties[p]) <= hand_limit());
    assert(total(s.checks[p]) <= hand_limit());
    if s.sell_phase_end() {
    } else if s.game_phase == GamePhase::Bid {
        lemma_coin_value(s);
        lemma_mul_le(v, held, v, hand_limit());
        lemma_mul_le(coin_value(s), coins, hand_limit() * u, 255);
    } else {
        lemma_properties_held(s, s.n(), p);
        let all = properties_held(s, s.n());
        let left = total(s.remaining_checks) as int;
        lemma_mul_le(earned, u, hand_limit(), u);
        lemma_mul_le(coins, u, 255, u);
        lemma_mul_le(left, u, hand_limit(), u);
        if all > 0 {
            lemma_div_mul_le(left * u, all, held);
        } else {
            assert(property_value(s) * held == 0) by (nonlinear_arith)
                requires
                    property_value(s) == 0,
            ;
        }
    }
}

proof fn lemma_worth_sum(s: GameStateView, upto: int, p: int)
    requires
        s.wf(),
        0 <= upto <= s.n(),
        total(s.remaining_checks) <= hand_limit(),
        forall|q: int| 0 <= q < s.n() ==> total(#[trigger] s.properties[q]) <= hand_limit(),
        forall|q: int| 0 <= q < s.n() ==> total(#[trigger] s.checks[q]) <= hand_limit(),
    ensures
        0 <= worth_sum(s, upto) <= upto * worth_limit(),
        0 <= worth_max(s, upto) <= worth_limit(),
        worth_max(s, upto) <= worth_sum(s, upto),
        0 <= p < upto ==> worth(s, p) <= worth_max(s, upto),
    decreases upto,
{
    if upto > 0 {
        lemma_worth_sum(s, upto - 1, p);
        lemma_worth_bound(s, upto - 1);
    }
}

proof fn lemma_behind(s: GameStateView, p: int)
    requires
        s.wf(),
        0 <= p < s.n(),
        total(s.remaining_checks) <= hand_limit(),
        forall|q: int| 0 <= q < s.n() ==> total(#[trigger] s.properties[q]) <= hand_limit(),
        forall|q: int| 0 <= q < s.n() ==> total(#[trigger] s.checks[q]) <= hand_limit(),
    ensures
        -SCORE_UNIT <= behind(s, p) <= 0,
{
    lemma_worth_sum(s, s.n(), p);
    lemma_worth_bound(s, p);
    lemma_share(worth_max(s, s.n()) - worth(s, p), worth_sum(s, s.n()));
}

proof fn lemma_behind_sum(s: GameStateView, upto: int)
    requires
        s.wf(),
        0 <= upto <= s.n(),
        total(s.remaining_checks) <= hand_limit(),
        forall|q: int| 0 <= q < s.n() ==> total(#[trigger] s.properties[q]) <= hand_limit(),
        forall|q: int| 0 <= q < s.n() ==> total(#[trigger] s.checks[q]) <= hand_limit(),
    ensures
        -upto * SCORE_UNIT <= behind_sum(s, upto) <= 0,
    decreases upto,
{
    if upto > 0 {
        lemma_behind_sum(s, upto - 1);
        lemma_behind(s, upto - 1);
    }
}

/// Every score lies between one whole below zero and one whole for each
/// player above.
pub proof fn lemma_round_score_range(s: GameStateView, p: int)
    requires
        s.wf(),
        0 <= p < s.n(),
        total(s.remaining_checks) <= hand_limit(),
        forall|q: int| 0 <= q < s.n() ==> total(#[trigger] s.properties[q]) <= hand_limit(),
        forall|q: int| 0 <= q < s.n() ==> total(#[trigger] s.checks[q]) <= hand_limit(),
    ensures
        -SCORE_UNIT <= round_score(s, p) <= 6 * SCORE_UNIT,
{
    lemma_behind(s, p);
    lemma_behind_sum(s, s.n());
    lemma_worth_sum(s, s.n(), p);
    lemma_worth_bound(s, p);
    lemma_share(worth(s, p), worth_sum(s, s.n()));
}

/// The scorer of a finished round.
pub struct NaiveRoundScore {}

impl NaiveRoundScore {
    /// What every player holds, valued in score units.
    fn worths(game_state: &GameState) -> (res: Vec<u128>)
        requires
            game_state.wf(),
        ensures
            res@.len() == game_state@.n(),
            forall|p: int| 0 <= p < res@.len() ==> res@[p] == worth(game_state@, p),
            game_state@.wf(),
            total(game_state@.remaining_checks) <= hand_limit(),
            forall|q: int|
                0 <= q < game_state@.n() ==> total(#[trigger] game_state@.properties[q])
                    <= hand_limit(),
            forall|q: int|
                0 <= q < game_state@.n() ==> total(#[trigger] game_state@.checks[q])
                    <= hand_limit(),
    {
        proof {
            game_state.lemma_wf();
        }
        let ghost s = game_state@;
        let n: u8 = game_state.no_players();
        let unit: u128 = SCORE_UNIT as u128;
        let point: u128 = VALUE_PER_PROPERTY as u128;
        let coins = game_state.get_coins();
        let deck = game_state.get_remaining_checks();
        let left: u128 = total_of(deck);
        proof {
            lemma_total_bound(s.remaining_checks);
            lemma_total_bound(s.coins);
            assert(deck.len() <= usize::MAX);
            assert(coins.len() <= usize::MAX);
        }
        let game_over: bool = game_state.sell_phase_end();
        let phase: GamePhase = game_state.game_phase();
        // The face value of what each player holds, and of all properties held.
        let mut held: Vec<u128> = Vec::new();
        let mut earned: Vec<u128> = Vec::new();
        let mut all_held: u128 = 0;
        let mut p: u8 = 0;
        while p < n
            invariant
                game_state.wf(),
                s == game_state@,
                s.wf(),
                n == s.no_players,
                p <= n,
                held@.len() == p,
                earned@.len() == p,
                forall|q: int| 0 <= q < p ==> held@[q] == total(s.properties[q]),
                forall|q: int| 0 <= q < p ==> earned@[q] == total(s.checks[q]),
                forall|q: int| 0 <= q < p ==> total(#[trigger] s.properties[q]) <= hand_limit(),
                forall|q: int| 0 <= q < p ==> total(#[trigger] s.checks[q]) <= hand_limit(),
                all_held == properties_held(s, p as int),
                all_held <= p * hand_limit(),
            decreases n - p,
        {
            let properties = game_state.get_player_properties(p);
            let checks = game_state.get_player_checks(p);
            proof {
                lemma_total_bound(properties@);
                lemma_total_bound(checks@);
                assert(properties.len() <= usize::MAX);
                assert(checks.len() <= usize::MAX);
            }
            let h: u128 = total_of(properties);
            held.push(h);
            earned.push(total_of(checks));
            all_held = all_held + h;
            p += 1;
        }
        let total_coins: u128 = total_of(coins);
        proof {
            lemma_coin_value(s);
            lemma_share(left as int, total_coins as int);
            lemma_share(left as int, all_held as int);
            lemma_mul_le(left as int, unit as int, hand_limit(), unit as int);
        }
        let per_coin: u128 = if total_coins == 0 {
            0
        } else {
            left * unit / total_coins
        };
        proof {
            lemma_mul_le(point as int, per_coin as int, point as int, hand_limit() * unit);
        }
        let scaled: u128 = point * per_coin / unit;
        let value_per_coin: u128 = if scaled > unit {
            scaled
        } else {
            unit
        };
        let per_property: u128 = if all_held == 0 {
            0
        } else {
            left * unit / all_held
        };
        assert(value_per_coin == coin_value(s));
        assert(per_property == property_value(s));
        let mut out: Vec<u128> = Vec::new();
        let mut i: u8 = 0;
        while i < n
            invariant
                game_state.wf(),
                s == game_state@,
                s.wf(),
                n == s.no_players,
                i <= n,
                coins@ == s.coins,
                held@.len() == n,
                earned@.len() == n,
                forall|q: int| 0 <= q < n ==> held@[q] == total(s.properties[q]),
                forall|q: int| 0 <= q < n ==> earned@[q] == total(s.checks[q]),
                forall|q: int| 0 <= q < n ==> total(#[trigger] s.properties[q]) <= hand_limit(),
                forall|q: int| 0 <= q < n ==> total(#[trigger] s.checks[q]) <= hand_limit(),
                total(s.remaining_checks) <= hand_limit(),
                all_held == properties_held(s, n as int),
                left == total(s.remaining_checks),
                value_per_coin == coin_value(s),
                per_property == property_value(s),
                game_over == s.sell_phase_end(),
                phase == s.game_phase,
                unit == SCORE_UNIT,
                point == VALUE_PER_PROPERTY,
                out@.len() == i,
                forall|q: int| 0 <= q < i ==> out@[q] == worth(s, q),
            decreases n - i,
        {
            let h: u128 = held[i as usize];
            let e: u128 = earned[i as usize];
            let c: u128 = coins[i as usize] as u128;
            proof {
                lemma_worth_bound(s, i as int);
                lemma_coin_value(s);
                assert(total(s.properties[i as int]) <= hand_limit());
                assert(total(s.checks[i as int]) <= hand_limit());
                lemma_mul_le(point as int, h as int, point as int, hand_limit());
                lemma_mul_le(value_per_coin as int, c as int, hand_limit() * unit, 255);
                lemma_mul_le(e as int, unit as int, hand_limit(), unit as int);
                lemma_mul_le(c as int, unit as int, 255, unit as int);
                if all_held > 0 {
                    lemma_properties_held(s, n as int, i as int);
                    lemma_mul_le(left as int, unit as int, hand_limit(), unit as int);
                    lemma_div_mul_le(left * unit, all_held as int, h as int);
                } else {
                    assert(per_property * h == 0) by (nonlinear_arith)
                        requires
                            per_property == 0,
                    ;
                }
            }
            let w: u128 = if game_over {
                e + c
            } else {
                match phase {
                    GamePhase::Bid => point * h + value_per_coin * c,
                    GamePhase::Sell => e * unit + per_property * h + c * unit,
                }
            };
            out.push(w);
            i += 1;
        }
        out
    }

    /// The scores of all players at the end of a round, in score units.
    pub fn round_score_function(game_state: &GameState) -> (res: Vec<i64>)
        requires
            game_state.wf(),
            game_state@.auction_end(),
        ensures
            res@ == round_scores(game_state@),
    {
        let ghost s = game_state@;
        let n: usize = game_state.no_players() as usize;
        let unit: u128 = SCORE_UNIT as u128;
        let worths: Vec<u128> = Self::worths(game_state);
        let mut sum: u128 = 0;
        let mut top: u128 = 0;
        let mut i: usize = 0;
        while i < n
            invariant
                s.wf(),
                n == s.n(),
                i <= n,
                worths@.len() == n,
                forall|p: int| 0 <= p < n ==> worths@[p] == worth(s, p),
                total(s.remaining_checks) <= hand_limit(),
                forall|q: int| 0 <= q < s.n() ==> total(#[trigger] s.properties[q]) <= hand_limit(),
                forall|q: int| 0 <= q < s.n() ==> total(#[trigger] s.checks[q]) <= hand_limit(),
                sum == worth_sum(s, i as int),
                top == worth_max(s, i as int),
            decreases n - i,
        {
            proof {
                lemma_worth_sum(s, i as int, 0);
                lemma_worth_sum(s, i + 1, 0);
            }
            sum = sum + worths[i];
            if worths[i] > top {
                top = worths[i];
            }
            i += 1;
        }
        let mut scores: Vec<i64> = Vec::new();
        if game_state.sell_phase_end() {
            let mut k: usize = 0;
            while k < n
                invariant
                    s.wf(),
                    n == s.n(),
                    k <= n,
                    unit == SCORE_UNIT,
                    worths@.len() == n,
                    forall|p: int| 0 <= p < n ==> worths@[p] == worth(s, p),
                    total(s.remaining_checks) <= hand_limit(),
                    forall|q: int|
                        0 <= q < s.n() ==> total(#[trigger] s.properties[q]) <= hand_limit(),
                    forall|q: int| 0 <= q < s.n() ==> total(#[trigger] s.checks[q]) <= hand_limit(),
                    sum == worth_sum(s, n as int),
                    s.sell_phase_end(),
                    scores@.len() == k,
                    forall|p: int| 0 <= p < k ==> scores@[p] == round_score(s, p),
                decreases n - k,
            {
                proof {
                    lemma_worth_bound(s, k as int);
                    lemma_worth_sum(s, n as int, k as int);
                    lemma_share(worths@[k as int] as int, sum as int);
                    lemma_mul_le(worths@[k as int] as int, unit as int, worth_limit(), unit as int);
                }
                let part: u128 = if sum == 0 {
                    0
                } else {
                    worths[k] * unit / sum
                };
                scores.push(part as i64);
                k += 1;
            }
            assert(scores@ =~= round_scores(s));
            return scores;
        }
        let mut gaps: Vec<i64> = Vec::new();
        let mut gap_sum: i64 = 0;
        let mut k: usize = 0;
        while k < n
            invariant
                s.wf(),
                n == s.n(),
                k <= n,
                unit == SCORE_UNIT,
                worths@.len() == n,
                forall|p: int| 0 <= p < n ==> worths@[p] == worth(s, p),
                total(s.remaining_checks) <= hand_limit(),
                forall|q: int| 0 <= q < s.n() ==> total(#[trigger] s.properties[q]) <= hand_limit(),
                forall|q: int| 0 <= q < s.n() ==> total(#[trigger] s.checks[q]) <= hand_limit(),
                sum == worth_sum(s, n as int),
                top == worth_max(s, n as int),
                gaps@.len() == k,
                forall|p: int| 0 <= p < k ==> gaps@[p] == behind(s, p),
                gap_sum == behind_sum(s, k as int),
            decreases n - k,
        {
            proof {
                lemma_worth_bound(s, k as int);
                lemma_worth_sum(s, n as int, k as int);
                lemma_behind(s, k as int);
                lemma_behind_sum(s, k as int);
                lemma_mul_le(top - worths@[k as int], unit as int, worth_limit(), unit as int);
            }
            let lag: u128 = if sum == 0 {
                0
            } else {
                (top - worths[k]) * unit / sum
            };
            let gap: i64 = -(lag as i64);
            gaps.push(gap);
            gap_sum = gap_sum + gap;
            k += 1;
        }
        proof {
            lemma_behind_sum(s, n as int);
        }
        let advantage: i64 = -gap_sum;
        let mut j: usize = 0;
        while j < n
            invariant
                s.wf(),
                n == s.n(),
                j <= n,
                !s.sell_phase_end(),
                gaps@.len() == n,
                forall|p: int| 0 <= p < n ==> gaps@[p] == behind(s, p),
                advantage == -behind_sum(s, n as int),
                scores@.len() == j,
                forall|p: int| 0 <= p < j ==> scores@[p] == round_score(s, p),
            decreases n - j,
        {
            if gaps[j] == 0 {
                scores.push(advantage);
            } else {
                scores.push(gaps[j]);
            }
            j += 1;
        }
        assert(scores@ =~= round_scores(s)) by {
            assert forall|p: int| 0 <= p < n implies scores@[p] == round_scores(s)[p] by {
                lemma_round_score_range(s, p);
            }
        }
        scores
    }
}

} // verus!
