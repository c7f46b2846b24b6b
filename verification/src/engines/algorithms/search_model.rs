//! The states that a search meets, and why a search comes to an end: every
//! move and every reveal leads to a state that is closer to the end of the
//! bidding than the one before.

use crate::models::cards::{
    lemma_insert_ascending, lemma_sort_descending, lemma_without_each,
};
use crate::models::enums::GamePhase;
use crate::models::state_view::{count_active, lemma_next_active, GameStateView};
use vstd::prelude::*;

verus! {

/// The coins of the first `upto` players that are still bidding, and one
/// more for each of them.
pub open spec fn live_coins(s: GameStateView, upto: int) -> int
    decreases upto,
{
    if upto <= 0 {
        0
    } else {
        live_coins(s, upto - 1) + if s.active_players[upto - 1] {
            s.coins[upto - 1] + 1
        } else {
            0
        }
    }
}

/// A bound on the bids that can still be made from `s` on: it falls with
/// every bid and with every reveal.
pub open spec fn depth_left(s: GameStateView) -> int {
    4096 * s.remaining_properties.len() + if s.auction_pool.len() == 0 {
        0
    } else {
        1 + live_coins(s, s.n())
    }
}

/// A state in which an auction is under way and a player is to bid: one
/// card on offer for every player still bidding, at least two of them, the
/// player to move among them, and nobody committed beyond their means.
pub open spec fn bidding(s: GameStateView) -> bool {
    &&& s.wf()
    &&& s.game_phase == GamePhase::Bid
    &&& s.auction_pool.len() >= 2
    &&& s.auction_pool.len() == count_active(s.active_players)
    &&& s.current_decision_player is Some
    &&& s.active_players[s.current_decision_player->0 as int]
    &&& forall|p: int| 0 <= p < s.n() ==> s.coins[p] + #[trigger] s.active_bids[p] <= u8::MAX
}

/// A state between two auctions: nothing on offer, no bid standing, every
/// player back in.
pub open spec fn round_over(s: GameStateView) -> bool {
    &&& s.wf()
    &&& s.auction_pool.len() == 0
    &&& s.current_decision_player is Some
    &&& forall|p: int| 0 <= p < s.n() ==> #[trigger] s.active_players[p]
    &&& forall|p: int| 0 <= p < s.n() ==> #[trigger] s.active_bids[p] == 0
}

/// Whether the counters of `s` leave room for all that can still follow.
pub open spec fn within(s: GameStateView, turn_limit: int, round_limit: int) -> bool {
    &&& s.turn_no + depth_left(s) <= turn_limit
    &&& s.round_no + s.remaining_properties.len() + (if s.auction_pool.len() == 0 {
        0int
    } else {
        1int
    }) <= round_limit
    &&& turn_limit <= u32::MAX
    &&& round_limit <= u8::MAX
}

/// The most turns that a state reached from `s` can count.
pub open spec fn turn_limit(s: GameStateView) -> int {
    s.turn_no + depth_left(s)
}

/// The most rounds that a state reached from `s` can count.
pub open spec fn round_limit(s: GameStateView) -> int {
    s.round_no + s.remaining_properties.len() + 1
}

/// Whether the counters of turns and rounds leave room for all that can
/// follow `s`.
pub open spec fn roomy(s: GameStateView) -> bool {
    turn_limit(s) <= u32::MAX && round_limit(s) <= u8::MAX
}

/// A state that a search may hold in its frontier.
pub open spec fn searchable(s: GameStateView, turn_limit: int, round_limit: int) -> bool {
    &&& bidding(s) || round_over(s)
    &&& within(s, turn_limit, round_limit)
}

/// Every player adds at most 256 to the live coins.
pub proof fn lemma_live_coins_bound(s: GameStateView, upto: int)
    requires
        0 <= upto <= s.coins.len(),
    ensures
        0 <= live_coins(s, upto) <= 256 * upto,
    decreases upto,
{
    if upto > 0 {
        lemma_live_coins_bound(s, upto - 1);
    }
}

/// Where two states differ in the coins and the standing of one player
/// only, their live coins differ by that player's part.
pub proof fn lemma_live_coins_change(a: GameStateView, b: GameStateView, c: int, upto: int)
    requires
        0 <= upto <= a.coins.len(),
        a.coins.len() == b.coins.len(),
        a.active_players.len() == b.active_players.len(),
        a.coins.len() == a.active_players.len(),
        forall|p: int| 0 <= p < a.coins.len() && p != c ==> a.coins[p] == b.coins[p],
        forall|p: int|
            0 <= p < a.coins.len() && p != c ==> a.active_players[p] == b.active_players[p],
    ensures
        live_coins(b, upto) - live_coins(a, upto) == (if 0 <= c < upto {
            (if b.active_players[c] {
                b.coins[c] + 1
            } else {
                0
            }) - (if a.active_players[c] {
                a.coins[c] + 1
            } else {
                0
            })
        } else {
            0
        }),
    decreases upto,
{
    if upto > 0 {
        lemma_live_coins_change(a, b, c, upto - 1);
    }
}

/// Where every seat is active, as many are active as there are seats.
pub proof fn lemma_count_all(active: Seq<bool>)
    requires
        forall|i: int| 0 <= i < active.len() ==> active[i],
    ensures
        count_active(active) == active.len(),
    decreases active.len(),
{
    if active.len() > 0 {
        assert forall|i: int| 0 <= i < active.drop_last().len() implies active.drop_last()[i] by {
            assert(active.drop_last()[i] == active[i]);
        }
        lemma_count_all(active.drop_last());
    }
}

/// Taking an active seat out leaves one fewer active.
pub proof fn lemma_count_drop(active: Seq<bool>, c: int)
    requires
        0 <= c < active.len(),
        active[c],
    ensures
        count_active(active.update(c, false)) == count_active(active) - 1,
    decreases active.len(),
{
    if c == active.len() - 1 {
        assert(active.update(c, false).drop_last() =~= active.drop_last());
    } else {
        assert(active.update(c, false).drop_last() =~= active.drop_last().update(c, false));
        lemma_count_drop(active.drop_last(), c);
    }
}

/// Where a seat is counted as active, some seat is active.
pub proof fn lemma_count_witness(active: Seq<bool>)
    requires
        count_active(active) >= 1,
    ensures
        exists|k: int| 0 <= k < active.len() && #[trigger] active[k],
    decreases active.len(),
{
    if active.len() > 0 {
        if active.last() {
            assert(active[active.len() - 1]);
        } else {
            lemma_count_witness(active.drop_last());
            let k = choose|k: int| 0 <= k < active.drop_last().len() && #[trigger] active.drop_last()[k];
            assert(active[k]);
        }
    }
}

/// Among two or more bidders there is one besides any given player.
pub proof fn lemma_count_other(active: Seq<bool>, c: int)
    requires
        0 <= c < active.len(),
        active[c],
        count_active(active) >= 2,
    ensures
        exists|k: int| 0 <= k < active.len() && k != c && #[trigger] active[k],
{
    lemma_count_drop(active, c);
    lemma_count_witness(active.update(c, false));
    let k = choose|k: int|
        0 <= k < active.update(c, false).len() && #[trigger] active.update(c, false)[k];
    assert(active[k] && k != c);
}

/// Whether `action` is a bid open to the player to move in `s`.
pub open spec fn is_legal_bid(s: GameStateView, action: u8) -> bool {
    s.legal_moves_bid(s.current_decision_player->0).contains(action)
}

/// A legal bid is a fold, or a raise that the player can pay.
pub proof fn lemma_legal_bid(s: GameStateView, action: u8)
    requires
        bidding(s),
        is_legal_bid(s, action),
    ensures
        action <= s.coins[s.current_decision_player->0 as int],
{
    let mover = s.current_decision_player->0;
    let moves = s.legal_moves_bid(mover);
    let k = choose|k: int| 0 <= k < moves.len() && moves[k] == action;
    crate::models::cards::lemma_highest(s.active_bids);
    assert(s.active_bids[mover as int] <= crate::models::cards::highest(s.active_bids));
    assert(s.coins[mover as int] + s.active_bids[mover as int] <= u8::MAX);
    if k > 0 {
        assert(moves[k] == (crate::models::cards::highest(s.active_bids) + 1
            - s.active_bids[mover as int] + (k - 1)) as u8);
    }
}

/// Every legal bid of the player to move can be made while the counters of
/// turns and rounds have room for one more.
pub proof fn lemma_can_bid(s: GameStateView, action: u8)
    requires
        bidding(s),
        is_legal_bid(s, action),
        s.turn_no < u32::MAX,
        s.round_no < u8::MAX,
    ensures
        s.can_bid(s.current_decision_player->0, action),
{
    let m = s.current_decision_player->0 as int;
    lemma_legal_bid(s, action);
    assert(s.coins[m] + s.active_bids[m] <= u8::MAX);
    if action == 0 {
        lemma_count_other(s.active_players, m);
    }
}

/// A raise by the player to move can be made, leaves the auction running,
/// and leaves less to come than before.
pub proof fn lemma_raise(s: GameStateView, action: u8, turn_limit: int, round_limit: int)
    requires
        bidding(s),
        within(s, turn_limit, round_limit),
        is_legal_bid(s, action),
        0 < action <= s.coins[s.current_decision_player->0 as int],
    ensures
        s.can_bid(s.current_decision_player->0, action),
        bidding(s.next_bid(s.current_decision_player->0, action)),
        within(s.next_bid(s.current_decision_player->0, action), turn_limit, round_limit),
        depth_left(s.next_bid(s.current_decision_player->0, action)) < depth_left(s),
        s.next_bid(s.current_decision_player->0, action).no_players == s.no_players,
{
    let mover = s.current_decision_player->0;
    let m = mover as int;
    let raised = s.bid_raised(mover, action);
    let t = s.next_bid(mover, action);
    crate::models::encoding::lemma_parent_of_action(s.path_encoding, mover, action);
    lemma_live_coins_bound(s, s.n());
    assert(s.coins[m] + s.active_bids[m] <= u8::MAX);
    assert(raised.active_players[m]);
    lemma_next_active(raised.active_players, m);
    assert(t.active_players =~= s.active_players);
    assert(t.auction_pool == s.auction_pool);
    assert forall|p: int| 0 <= p < t.n() implies t.coins[p] + #[trigger] t.active_bids[p]
        <= u8::MAX by {
        assert(s.coins[p] + s.active_bids[p] <= u8::MAX);
    }
    lemma_live_coins_change(s, t, m, s.n());
}

/// A fold by the player to move, while more than two are bidding, can be
/// made, leaves the auction running, and leaves less to come than before.
pub proof fn lemma_fold_on(s: GameStateView, turn_limit: int, round_limit: int)
    requires
        bidding(s),
        within(s, turn_limit, round_limit),
        s.auction_pool.len() > 2,
    ensures
        s.can_bid(s.current_decision_player->0, 0),
        bidding(s.next_bid(s.current_decision_player->0, 0)),
        within(s.next_bid(s.current_decision_player->0, 0), turn_limit, round_limit),
        depth_left(s.next_bid(s.current_decision_player->0, 0)) < depth_left(s),
        s.next_bid(s.current_decision_player->0, 0).no_players == s.no_players,
{
    assert(s.legal_moves_bid(s.current_decision_player->0)[0] == 0);
    let mover = s.current_decision_player->0;
    let m = mover as int;
    let folded = s.bid_folded(mover);
    let t = s.next_bid(mover, 0);
    crate::models::encoding::lemma_parent_of_action(s.path_encoding, mover, 0);
    lemma_live_coins_bound(s, s.n());
    assert(s.coins[m] + s.active_bids[m] <= u8::MAX);
    lemma_count_other(s.active_players, m);
    lemma_count_drop(s.active_players, m);
    assert(folded.active_players =~= s.active_players.update(m, false));
    lemma_count_witness(folded.active_players);
    lemma_next_active(folded.active_players, m);
    lemma_insert_ascending(s.properties[m], s.auction_pool.last());
    assert(t.active_players =~= folded.active_players);
    assert(t.auction_pool =~= s.auction_pool.drop_last());
    assert forall|p: int| 0 <= p < t.n() implies t.coins[p] + #[trigger] t.active_bids[p]
        <= u8::MAX by {
        assert(s.coins[p] + s.active_bids[p] <= u8::MAX);
    }
    assert forall|p: int| 0 <= p < t.n() implies crate::models::cards::ascending(
        #[trigger] t.properties[p],
    ) by {
        assert(crate::models::cards::ascending(s.properties[p]));
    }
    assert(t.wf());
    lemma_live_coins_change(s, t, m, s.n());
}

/// A fold by the player to move, while two are bidding, can be made, ends
/// the round, and leaves less to come than before.
pub proof fn lemma_fold_out(s: GameStateView, turn_limit: int, round_limit: int)
    requires
        bidding(s),
        within(s, turn_limit, round_limit),
        s.auction_pool.len() == 2,
    ensures
        s.can_bid(s.current_decision_player->0, 0),
        round_over(s.next_bid(s.current_decision_player->0, 0)),
        within(s.next_bid(s.current_decision_player->0, 0), turn_limit, round_limit),
        depth_left(s.next_bid(s.current_decision_player->0, 0)) < depth_left(s),
        s.next_bid(s.current_decision_player->0, 0).no_players == s.no_players,
{
    assert(s.legal_moves_bid(s.current_decision_player->0)[0] == 0);
    let mover = s.current_decision_player->0;
    let m = mover as int;
    let folded = s.bid_folded(mover);
    let t = s.next_bid(mover, 0);
    crate::models::encoding::lemma_parent_of_action(s.path_encoding, mover, 0);
    lemma_live_coins_bound(s, s.n());
    assert(s.coins[m] + s.active_bids[m] <= u8::MAX);
    lemma_count_other(s.active_players, m);
    lemma_next_active(s.active_players, m);
    let winner = s.next_player_bid();
    let w = winner as int;
    assert(0 <= w < s.n());
    lemma_insert_ascending(s.properties[m], s.auction_pool.last());
    lemma_insert_ascending(folded.properties[w], folded.auction_pool.last());
    assert(folded.auction_pool.len() == 1);
    assert(t.auction_pool =~= Seq::<u8>::empty());
    assert forall|p: int| 0 <= p < t.n() implies crate::models::cards::ascending(
        #[trigger] t.properties[p],
    ) by {
        assert(crate::models::cards::ascending(s.properties[p]));
        assert(crate::models::cards::ascending(folded.properties[p]));
    }
    assert(t.wf());
}

/// Every legal bid of the player to move can be made, leads to a state
/// that a search may hold, and leaves less to come than before.
pub proof fn lemma_bid_child(s: GameStateView, action: u8, turn_limit: int, round_limit: int)
    requires
        bidding(s),
        within(s, turn_limit, round_limit),
        is_legal_bid(s, action),
    ensures
        s.can_bid(s.current_decision_player->0, action),
        searchable(s.next_bid(s.current_decision_player->0, action), turn_limit, round_limit),
        depth_left(s.next_bid(s.current_decision_player->0, action)) < depth_left(s),
        s.next_bid(s.current_decision_player->0, action).no_players == s.no_players,
{
    lemma_legal_bid(s, action);
    if action > 0 {
        lemma_raise(s, action, turn_limit, round_limit);
    } else if s.auction_pool.len() > 2 {
        lemma_fold_on(s, turn_limit, round_limit);
    } else {
        lemma_fold_out(s, turn_limit, round_limit);
    }
}

/// Between two rounds of the first phase, every batch taken from the deck
/// can be revealed, starts an auction, and leaves less to come than before.
pub proof fn lemma_reveal_child(
    s: GameStateView,
    values: Seq<u8>,
    turn_limit: int,
    round_limit: int,
)
    requires
        round_over(s),
        s.game_phase == GamePhase::Bid,
        s.can_reveal(),
        s.is_batch(values),
        within(s, turn_limit, round_limit),
    ensures
        bidding(s.revealed_with(values)),
        within(s.revealed_with(values), turn_limit, round_limit),
        depth_left(s.revealed_with(values)) < depth_left(s),
        s.revealed_with(values).no_players == s.no_players,
{
    broadcast use vstd::seq_lib::group_to_multiset_ensures;

    let t = s.revealed_with(values);
    let deck = s.remaining_properties;
    lemma_sort_descending(values);
    lemma_without_each(deck, values);
    assert(t.active_players =~= s.active_players);
    lemma_count_all(t.active_players);
    lemma_live_coins_bound(t, t.n());
    assert forall|p: int| 0 <= p < t.n() implies t.coins[p] + #[trigger] t.active_bids[p]
        <= u8::MAX by {
        assert(s.active_bids[p] == 0);
    }
    assert(t.active_players[t.current_decision_player->0 as int]);
    crate::models::encoding::lemma_parent_of_batch(s.path_encoding, true, t.auction_pool);
}

/// Between two rounds of the first phase, dealing the top batch of the
/// deck starts an auction and leaves less to come than before.
pub proof fn lemma_reveal_top(s: GameStateView, turn_limit: int, round_limit: int)
    requires
        round_over(s),
        s.game_phase == GamePhase::Bid,
        s.can_reveal(),
        within(s, turn_limit, round_limit),
    ensures
        bidding(s.revealed()),
        within(s.revealed(), turn_limit, round_limit),
        depth_left(s.revealed()) < depth_left(s),
        s.revealed().no_players == s.no_players,
        s.revealed().round_no == s.round_no,
        s.revealed().remaining_properties.len() == s.remaining_properties.len() - s.n(),
{
    let t = s.revealed();
    let cut = s.remaining_properties.len() - s.n();
    lemma_sort_descending(s.remaining_properties.skip(cut));
    assert(t.active_players =~= s.active_players);
    lemma_count_all(t.active_players);
    lemma_live_coins_bound(t, t.n());
    assert forall|p: int| 0 <= p < t.n() implies t.coins[p] + #[trigger] t.active_bids[p]
        <= u8::MAX by {
        assert(s.active_bids[p] == 0);
    }
    assert(t.active_players[t.current_decision_player->0 as int]);
    crate::models::encoding::lemma_parent_of_batch(s.path_encoding, true, t.auction_pool);
}

/// A bid leaves the round as it is while the auction runs on, and starts
/// the next one where it ends the auction.
pub proof fn lemma_bid_round(s: GameStateView, action: u8)
    requires
        bidding(s),
        roomy(s),
        is_legal_bid(s, action),
    ensures
        s.next_bid(s.current_decision_player->0, action).round_no == s.round_no + (if s.next_bid(
            s.current_decision_player->0,
            action,
        ).auction_end() {
            1int
        } else {
            0int
        }),
        s.next_bid(s.current_decision_player->0, action).turn_no == s.turn_no + 1,
        bidding(s.next_bid(s.current_decision_player->0, action)) ==> roomy(
            s.next_bid(s.current_decision_player->0, action),
        ),
        bidding(s.next_bid(s.current_decision_player->0, action)) || round_over(
            s.next_bid(s.current_decision_player->0, action),
        ),
{
    lemma_live_coins_bound(s, s.n());
    lemma_bid_child(s, action, turn_limit(s), round_limit(s));
    lemma_legal_bid(s, action);
    let t = s.next_bid(s.current_decision_player->0, action);
    if action > 0 {
        lemma_raise(s, action, turn_limit(s), round_limit(s));
    } else if s.auction_pool.len() > 2 {
        lemma_fold_on(s, turn_limit(s), round_limit(s));
    } else {
        lemma_fold_out(s, turn_limit(s), round_limit(s));
    }
}

/// A bid leaves the deck as it is, and the game in its first phase unless
/// the deck is empty.
pub proof fn lemma_bid_deck(s: GameStateView, action: u8)
    requires
        bidding(s),
        is_legal_bid(s, action),
    ensures
        s.next_bid(s.current_decision_player->0, action).remaining_properties
            == s.remaining_properties,
        s.next_bid(s.current_decision_player->0, action).game_phase == GamePhase::Bid
            || s.remaining_properties.len() == 0,
{
}

/// The bids open to a player are all different.
pub proof fn lemma_legal_bids_differ(s: GameStateView, i: int, j: int)
    requires
        bidding(s),
        0 <= i < j < s.legal_moves_bid(s.current_decision_player->0).len(),
    ensures
        s.legal_moves_bid(s.current_decision_player->0)[i] != s.legal_moves_bid(
            s.current_decision_player->0,
        )[j],
{
    let mover = s.current_decision_player->0;
    crate::models::cards::lemma_highest(s.active_bids);
    assert(s.active_bids[mover as int] <= crate::models::cards::highest(s.active_bids));
    assert(s.coins[mover as int] + s.active_bids[mover as int] <= u8::MAX);
}

} // verus!
