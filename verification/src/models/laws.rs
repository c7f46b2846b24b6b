//! What holds of every transition of the game.

use crate::models::cards::{
    highest, insert_ascending, lemma_highest, lemma_sort_descending, lemma_without_each, total,
};
use crate::models::enums::GamePhase;
use crate::models::encoding::{lemma_parent_of_action, lemma_parent_of_batch, parent_of};
use crate::models::state_view::{
    lemma_seek_active, next_active, next_seat, seek_active, GameStateView,
};
use vstd::prelude::*;

verus! {

/// What the players hold and have committed: all coins and all bids.
pub open spec fn stake(s: GameStateView) -> nat {
    total(s.coins) + total(s.active_bids)
}

/// Changing one card changes the total by the difference.
pub proof fn lemma_total_update(s: Seq<u8>, i: int, v: u8)
    requires
        0 <= i < s.len(),
    ensures
        total(s.update(i, v)) == total(s) - s[i] + v,
    decreases s.len(),
{
    if i == s.len() - 1 {
        assert(s.update(i, v).drop_last() =~= s.drop_last());
    } else {
        assert(s.update(i, v).drop_last() =~= s.drop_last().update(i, v));
        lemma_total_update(s.drop_last(), i, v);
    }
}

/// The key of a state reached by a bid, stripped of its last segment, is
/// the key of the state in which the bid was made.
pub proof fn law_parent_after_bid(s: GameStateView, player: u8, action: u8)
    ensures
        parent_of(s.next_bid(player, action).path_encoding) == s.path_encoding,
{
    lemma_parent_of_action(s.path_encoding, player, action);
}

/// The key of a state reached by a reveal, stripped of its last segment, is
/// the key of the state before the reveal.
pub proof fn law_parent_after_reveal(s: GameStateView, values: Seq<u8>)
    ensures
        parent_of(s.revealed().path_encoding) == s.path_encoding,
        parent_of(s.revealed_with(values).path_encoding) == s.path_encoding,
{
    lemma_parent_of_batch(s.path_encoding, true, s.revealed().auction_pool);
    lemma_parent_of_batch(s.path_encoding, true, s.revealed_with(values).auction_pool);
}

/// The key of a state reached by a sale, stripped of its last segment, is
/// the key of the state before the sale.
pub proof fn law_parent_after_sale(s: GameStateView, choices: Seq<u8>)
    ensures
        parent_of(s.next_sell(choices).path_encoding) == s.path_encoding,
{
    lemma_parent_of_batch(s.path_encoding, false, choices);
}

/// A raise by the player to move, of an amount that is open to the player,
/// moves that amount from the player's coins into the player's bid and
/// touches nobody else: what the players hold and have committed stays the
/// same.
pub proof fn law_raise_conserves_stake(s: GameStateView, player: u8, action: u8)
    requires
        s.wf(),
        s.game_phase == GamePhase::Bid,
        s.current_decision_player == Some(player),
        s.legal_moves_bid(player).contains(action),
        action > 0,
        s.coins[player as int] + s.active_bids[player as int] <= u8::MAX,
    ensures
        stake(s.next_bid(player, action)) == stake(s),
        s.next_bid(player, action).coins[player as int] == s.coins[player as int] - action,
        s.next_bid(player, action).active_bids[player as int] == s.active_bids[player as int]
            + action,
        forall|q: int|
            0 <= q < s.n() && q != player ==> (#[trigger] s.next_bid(player, action).coins[q])
                == s.coins[q] && s.next_bid(player, action).active_bids[q] == s.active_bids[q],
{
    let p = player as int;
    let moves = s.legal_moves_bid(player);
    let k = choose|k: int| 0 <= k < moves.len() && moves[k] == action;
    lemma_highest(s.active_bids);
    assert(s.active_bids[p] <= highest(s.active_bids));
    if k > 0 {
        assert(moves[k] == (highest(s.active_bids) + 1 - s.active_bids[p] + (k - 1)) as u8);
    }
    lemma_total_update(s.coins, p, (s.coins[p] - action) as u8);
    lemma_total_update(s.active_bids, p, (s.active_bids[p] + action) as u8);
}

/// A fold by the player to move, while more than two cards are on offer,
/// gives the player half of the bid back, rounded down, clears the bid
/// and touches nobody else: what the players hold and have committed falls
/// by the other half.
pub proof fn law_fold_refunds_half(s: GameStateView, player: u8)
    requires
        s.wf(),
        s.game_phase == GamePhase::Bid,
        s.current_decision_player == Some(player),
        s.auction_pool.len() > 2,
        s.coins[player as int] + s.active_bids[player as int] / 2 <= u8::MAX,
    ensures
        stake(s.next_bid(player, 0)) == stake(s) - s.active_bids[player as int]
            + s.active_bids[player as int] / 2,
        s.next_bid(player, 0).coins[player as int] == s.coins[player as int]
            + s.active_bids[player as int] / 2,
        s.next_bid(player, 0).active_bids[player as int] == 0,
        forall|q: int|
            0 <= q < s.n() && q != player ==> (#[trigger] s.next_bid(player, 0).coins[q])
                == s.coins[q] && s.next_bid(player, 0).active_bids[q] == s.active_bids[q],
{
    let p = player as int;
    let bid = s.active_bids[p];
    lemma_total_update(s.coins, p, (s.coins[p] + bid / 2) as u8);
    lemma_total_update(s.active_bids, p, 0u8);
}

/// Going round the table from seat `i`, the first active seat is not seat
/// `p` where an active seat `k` comes before `p`.
pub proof fn lemma_seek_meets_first(active: Seq<bool>, i: int, fuel: nat, k: int, p: int)
    requires
        0 <= i < active.len(),
        0 <= k < active.len(),
        0 <= p < active.len(),
        active[k],
        seats_to(active.len() as int, i, k) <= fuel,
        seats_to(active.len() as int, i, k) < seats_to(active.len() as int, i, p),
    ensures
        seek_active(active, i, fuel) != p,
    decreases fuel,
{
    let j = next_seat(active.len() as int, i);
    if !active[j] {
        lemma_seek_meets_first(active, j, (fuel - 1) as nat, k, p);
    }
}

/// How many seats on seat `x` is from seat `i`, going round a table of `n`.
pub open spec fn seats_to(n: int, i: int, x: int) -> int {
    if i < x {
        x - i
    } else {
        x + n - i
    }
}

/// The fold that leaves one bidder ends the round in the same step: with
/// two cards on offer, the player who folds takes the lower card and half
/// of the bid, rounded down, and the bidder who is left takes the higher
/// card for the bid that stands. Then nothing is on offer, no bid stands,
/// every player is back in, and the winner is to move; turn and round are
/// one on.
pub proof fn law_last_fold_ends_round(s: GameStateView, player: u8, winner: u8)
    requires
        s.wf(),
        s.game_phase == GamePhase::Bid,
        s.current_decision_player == Some(player),
        s.auction_pool.len() == 2,
        winner < s.no_players,
        winner != player,
        s.active_players[winner as int],
        forall|q: int|
            0 <= q < s.n() && q != player && q != winner ==> !(#[trigger] s.active_players[q]),
        s.coins[player as int] + s.active_bids[player as int] / 2 <= u8::MAX,
        s.turn_no < u32::MAX,
        s.round_no < u8::MAX,
    ensures
        s.next_bid(player, 0).auction_end(),
        s.next_bid(player, 0).properties[player as int] == insert_ascending(
            s.properties[player as int],
            s.auction_pool[1],
        ),
        s.next_bid(player, 0).properties[winner as int] == insert_ascending(
            s.properties[winner as int],
            s.auction_pool[0],
        ),
        forall|q: int|
            0 <= q < s.n() ==> (#[trigger] s.next_bid(player, 0).active_bids[q]) == 0 && s.next_bid(
                player,
                0,
            ).active_players[q],
        s.next_bid(player, 0).current_decision_player == Some(winner),
        s.next_bid(player, 0).coins[winner as int] == s.coins[winner as int],
        s.next_bid(player, 0).coins[player as int] == s.coins[player as int]
            + s.active_bids[player as int] / 2,
        s.next_bid(player, 0).round_no == s.round_no + 1,
        s.next_bid(player, 0).turn_no == s.turn_no + 1,
{
    let p = player as int;
    let w = winner as int;
    let active = s.active_players;
    lemma_seek_active(active, p, active.len(), w);
    let met = next_active(active, p);
    lemma_seek_meets_first(active, p, active.len(), w, p);
    assert(active[met] && met != p);
    assert(met == w);
    assert(s.next_player_bid() == winner);
    let folded = s.bid_folded(player);
    assert(folded.auction_pool =~= seq![s.auction_pool[0]]);
    assert(folded.auction_pool.len() == 1);
    let won = folded.bid_won(winner);
    assert(won.auction_pool.len() == 0);
}

/// A reveal starts from an empty pool and leaves one card per player on
/// offer.
pub proof fn law_reveal_fills_pool(s: GameStateView, values: Seq<u8>)
    requires
        s.wf(),
        s.can_reveal(),
        values.len() == s.n(),
    ensures
        s.auction_pool.len() == 0,
        s.revealed().auction_pool.len() == s.n(),
        s.revealed_with(values).auction_pool.len() == s.n(),
{
    let cut = s.deck().len() - s.n();
    lemma_sort_descending(s.deck().skip(cut));
    lemma_sort_descending(values);
}

/// A reveal of a batch taken from the deck loses no card and invents none:
/// the deck is shorter by one card per player, and the pool and the deck
/// together hold the cards of the deck before, each as often as before.
pub proof fn law_reveal_keeps_cards(s: GameStateView, values: Seq<u8>)
    requires
        s.is_batch(values),
    ensures
        s.revealed_with(values).deck().len() == s.deck().len() - s.n(),
        s.revealed_with(values).deck().to_multiset().add(
            s.revealed_with(values).auction_pool.to_multiset(),
        ) == s.deck().to_multiset(),
        s.revealed_with(values).coins == s.coins,
        s.revealed_with(values).properties == s.properties,
        s.revealed_with(values).checks == s.checks,
        s.revealed_with(values).active_bids == s.active_bids,
        s.revealed_with(values).turn_no == s.turn_no,
        s.revealed_with(values).round_no == s.round_no,
{
    lemma_without_each(s.deck(), values);
    lemma_sort_descending(values);
}

} // verus!
