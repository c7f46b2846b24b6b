//! What a state is worth to each player when all play on, each for
//! themselves, as far as a search looks: the entry that a search over every
//! branch leaves in its table for the state.

use crate::bindings::subsets::subsets_of;
use crate::engines::algorithms::score_node::ScoreView;
use crate::engines::algorithms::search_model::{
    bidding, depth_left, lemma_bid_child, lemma_bid_round, lemma_legal_bids_differ,
    lemma_live_coins_bound, lemma_reveal_child, round_limit, round_over, searchable, turn_limit,
    };
use crate::engines::scorers::naive_round_score::round_scores;
use crate::models::encoding::{
    lemma_action_keys_differ, lemma_parent_of_action, lemma_parent_of_batch, parent_of,
};
use crate::models::enums::GamePhase;
use crate::models::laws::law_parent_after_reveal;
use crate::models::state_view::GameStateView;
use vstd::prelude::*;

verus! {

/// How far a search looks, and how far its counters can go.
pub struct Horizon {
    /// The round in which the search starts.
    pub first: int,
    /// The round at whose end the search stops.
    pub terminal: int,
    /// The most turns that a state of the search can count.
    pub turn_limit: int,
    /// The most rounds that a state of the search can count.
    pub round_limit: int,
}

/// The horizon of a search that looks `rounds` rounds ahead from `root`.
pub open spec fn horizon(root: GameStateView, rounds: u8) -> Horizon {
    Horizon {
        first: root.round_no as int,
        terminal: root.round_no + rounds,
        turn_limit: turn_limit(root),
        round_limit: round_limit(root),
    }
}

/// The state after the `k`-th legal bid of the player to move.
pub open spec fn bid_child(s: GameStateView, k: int) -> GameStateView {
    let mover = s.current_decision_player->0;
    s.next_bid(mover, s.legal_moves_bid(mover)[k])
}

/// How many bids the player to move can choose from.
pub open spec fn bid_count(s: GameStateView) -> int {
    s.legal_moves_bid(s.current_decision_player->0).len() as int
}

/// The states after each legal bid of the player to move, in the order of
/// the bids.
pub open spec fn bid_children(s: GameStateView) -> Seq<GameStateView> {
    Seq::new(bid_count(s) as nat, |i: int| bid_child(s, i))
}

/// How many batches can be revealed: every selection of one card per
/// player from the deck, and none where the deck is too short for one.
pub open spec fn reveal_count(s: GameStateView) -> int {
    if s.deck().len() >= s.n() {
        subsets_of(s.deck(), s.no_players as nat).len() as int
    } else {
        0
    }
}

/// The state after the `k`-th batch has been revealed.
pub open spec fn reveal_child(s: GameStateView, k: int) -> GameStateView {
    s.revealed_with(subsets_of(s.deck(), s.no_players as nat)[k])
}

/// Whether a search stops at the state: the round is over, and the
/// horizon is reached, or the second phase has begun, or no batch can be
/// revealed.
pub open spec fn is_leaf(s: GameStateView, h: Horizon) -> bool {
    s.auction_end() && (s.round_no == h.terminal || s.game_phase == GamePhase::Sell
        || reveal_count(s) == 0)
}

/// How many children the state has in the tree: bids while an auction is
/// under way, batches between two auctions.
pub open spec fn child_count(s: GameStateView) -> int {
    if s.auction_end() {
        reveal_count(s)
    } else {
        bid_count(s)
    }
}

/// The `k`-th child of the state in the tree.
pub open spec fn child(s: GameStateView, k: int) -> GameStateView {
    if s.auction_end() {
        reveal_child(s, k)
    } else {
        bid_child(s, k)
    }
}

/// The children of the state in the tree, in their order.
pub open spec fn children(s: GameStateView) -> Seq<GameStateView> {
    Seq::new(child_count(s) as nat, |i: int| child(s, i))
}

/// Whether the `k`-th child is one: a batch is one card per player, each
/// taken from the deck. A bid is always one.
pub open spec fn child_ok(s: GameStateView, k: int) -> bool {
    s.auction_end() ==> s.is_batch(subsets_of(s.deck(), s.no_players as nat)[k])
}

/// The entry that a search over every branch holds for a state once the
/// children from the `k`-th on have reported. A state at which the search
/// stops is scored as it stands. Any other starts without a score and
/// takes in what its children come to, the last child first: where a
/// player is to bid, it keeps what is best for that player, and of two
/// that are equally good the one that it took in first; between two
/// auctions, it keeps the mean over the batches, and passes over a
/// selection that is no batch.
pub open spec fn entry_at(s: GameStateView, k: int, h: Horizon) -> ScoreView
    decreases depth_left(s), child_count(s) - k,
    when searchable(s, h.turn_limit, h.round_limit) && k >= 0
    via entry_at_decreases
{
    if is_leaf(s, h) {
        ScoreView::scored(s, round_scores(s))
    } else if k >= child_count(s) {
        ScoreView::fresh(s, child_count(s) as nat, 0)
    } else if !child_ok(s, k) {
        entry_at(s, k + 1, h)
    } else {
        entry_at(s, k + 1, h).absorbed(entry_at(child(s, k), 0, h).score)
    }
}

#[via_fn]
proof fn entry_at_decreases(s: GameStateView, k: int, h: Horizon) {
    if !is_leaf(s, h) && k < child_count(s) && child_ok(s, k) {
        lemma_child(s, k, h);
    }
}

/// What the state comes to for each player.
pub open spec fn worth(s: GameStateView, h: Horizon) -> Seq<i64> {
    entry_at(s, 0, h).score
}

/// The best of the first `upto` bids of the player to move, with its
/// score: the bid whose outcome is worth most to that player, and of bids
/// that are worth the same, the first.
pub open spec fn choice(root: GameStateView, upto: int, h: Horizon) -> (u8, i64)
    decreases upto,
{
    if upto <= 0 {
        (0u8, i64::MIN)
    } else {
        let before = choice(root, upto - 1, h);
        let mover = root.current_decision_player->0;
        let gain = worth(bid_child(root, upto - 1), h)[mover as int];
        if before.1 < gain {
            (root.legal_moves_bid(mover)[upto - 1], gain)
        } else {
            before
        }
    }
}

/// The bid that is best for the player to move when all play on for
/// `rounds` rounds, with every batch that may be revealed weighed alike.
pub open spec fn best_move(root: GameStateView, rounds: u8) -> u8 {
    choice(root, bid_count(root), horizon(root, rounds)).0
}

/// The bid that is best for the player to move when the round is played
/// out.
pub open spec fn best_bid(root: GameStateView) -> u8 {
    best_move(root, 1)
}

/// A child of a state that a search may hold is such a state itself, with
/// less to come, and its key is the key of the state and one segment more.
pub proof fn lemma_child(s: GameStateView, k: int, h: Horizon)
    requires
        searchable(s, h.turn_limit, h.round_limit),
        !is_leaf(s, h),
        0 <= k < child_count(s),
        child_ok(s, k),
    ensures
        searchable(child(s, k), h.turn_limit, h.round_limit),
        0 <= depth_left(child(s, k)) < depth_left(s),
        child(s, k).n() == s.n(),
        parent_of(child(s, k).path_encoding) == s.path_encoding,
        s.path_encoding.len() < child(s, k).path_encoding.len(),
        !s.auction_end() ==> child(s, k).turn_no == s.turn_no + 1,
{
    if s.auction_end() {
        let values = subsets_of(s.deck(), s.no_players as nat)[k];
        lemma_reveal_child(s, values, h.turn_limit, h.round_limit);
        law_parent_after_reveal(s, values);
        lemma_parent_of_batch(
            s.path_encoding,
            true,
            s.revealed_with(values).auction_pool,
        );
    } else {
        let mover = s.current_decision_player->0;
        let action = s.legal_moves_bid(mover)[k];
        assert(s.legal_moves_bid(mover)[k] == action);
        lemma_bid_child(s, action, h.turn_limit, h.round_limit);
        lemma_parent_of_action(s.path_encoding, mover, action);
        lemma_live_coins_bound(s, s.n());
    }
    lemma_live_coins_bound(child(s, k), child(s, k).n());
}

/// A state at which the search stops holds its scores as it stands.
pub proof fn lemma_entry_leaf(s: GameStateView, k: int, h: Horizon)
    requires
        searchable(s, h.turn_limit, h.round_limit),
        k >= 0,
        is_leaf(s, h),
    ensures
        entry_at(s, k, h) == ScoreView::scored(s, round_scores(s)),
{
}

/// A state whose children have yet to report holds no score.
pub proof fn lemma_entry_start(s: GameStateView, h: Horizon)
    requires
        searchable(s, h.turn_limit, h.round_limit),
        !is_leaf(s, h),
        child_count(s) >= 0,
    ensures
        entry_at(s, child_count(s), h) == ScoreView::fresh(s, child_count(s) as nat, 0),
{
}

/// A state takes in what its `k`-th child comes to after the children
/// behind it.
pub proof fn lemma_entry_step(s: GameStateView, k: int, h: Horizon)
    requires
        searchable(s, h.turn_limit, h.round_limit),
        !is_leaf(s, h),
        0 <= k < child_count(s),
        child_ok(s, k),
    ensures
        entry_at(s, k, h) == entry_at(s, k + 1, h).absorbed(worth(child(s, k), h)),
{
    lemma_child(s, k, h);
    lemma_live_coins_bound(s, s.n());
}

/// No bid is worth more to the player to move than the best bid, and the
/// best bid is the first that is worth as much as it is.
pub proof fn law_best_move_is_maximal(root: GameStateView, upto: int, h: Horizon, i: int)
    requires
        0 <= i < upto <= bid_count(root),
    ensures
        worth(bid_child(root, i), h)[root.current_decision_player->0 as int] <= choice(
            root,
            upto,
            h,
        ).1,
        choice(root, upto, h).1 > i64::MIN ==> exists|j: int|
            0 <= j < upto && root.legal_moves_bid(root.current_decision_player->0)[j] == choice(
                root,
                upto,
                h,
            ).0 && #[trigger] worth(bid_child(root, j), h)[root.current_decision_player->0 as int]
                == choice(root, upto, h).1 && choice(root, j, h).1 < choice(root, upto, h).1,
    decreases upto,
{
    let mover = root.current_decision_player->0 as int;
    let before = choice(root, upto - 1, h);
    let gain = worth(bid_child(root, upto - 1), h)[mover];
    if i < upto - 1 {
        law_best_move_is_maximal(root, upto - 1, h, i);
    }
    if before.1 < gain {
        assert(worth(bid_child(root, upto - 1), h)[mover] == choice(root, upto, h).1);
    } else if upto - 1 > 0 {
        law_best_move_is_maximal(root, upto - 1, h, 0);
        if before.1 > i64::MIN {
            let j = choose|j: int|
                0 <= j < upto - 1 && root.legal_moves_bid(root.current_decision_player->0)[j]
                    == before.0 && #[trigger] worth(bid_child(root, j), h)[mover] == before.1
                    && choice(root, j, h).1 < before.1;
            assert(worth(bid_child(root, j), h)[mover] == choice(root, upto, h).1);
        }
    }
}

/// The state after a legal bid counts one turn more, and the same round
/// unless the bid has ended the auction.
pub proof fn lemma_bid_child_state(s: GameStateView, k: int)
    requires
        bidding(s),
        turn_limit(s) <= u32::MAX,
        round_limit(s) <= u8::MAX,
        0 <= k < bid_count(s),
    ensures
        bidding(bid_child(s, k)) || round_over(bid_child(s, k)),
        bid_child(s, k).round_no == s.round_no + (if bid_child(s, k).auction_end() {
            1int
        } else {
            0int
        }),
        bid_child(s, k).turn_no == s.turn_no + 1,
        bid_child(s, k).n() == s.n(),
{
    let action = s.legal_moves_bid(s.current_decision_player->0)[k];
    assert(s.legal_moves_bid(s.current_decision_player->0)[k] == action);
    lemma_live_coins_bound(s, s.n());
    lemma_bid_round(s, action);
    lemma_bid_child(s, action, turn_limit(s), round_limit(s));
}

/// Different bids lead to states with different keys.
pub proof fn lemma_bid_children_differ(s: GameStateView, i: int, j: int)
    requires
        bidding(s),
        0 <= i < bid_count(s),
        0 <= j < bid_count(s),
        i != j,
    ensures
        bid_child(s, i).path_encoding != bid_child(s, j).path_encoding,
{
    let mover = s.current_decision_player->0;
    if i < j {
        lemma_legal_bids_differ(s, i, j);
    } else {
        lemma_legal_bids_differ(s, j, i);
    }
    lemma_action_keys_differ(
        s.path_encoding,
        mover,
        s.legal_moves_bid(mover)[i],
        s.legal_moves_bid(mover)[j],
    );
}

} // verus!
