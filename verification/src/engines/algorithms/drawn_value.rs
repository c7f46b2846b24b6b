//! What a state is worth in a search that may draw its batches: the tree
//! of what was drawn, and the entry that the search leaves for a state
//! whose chance nodes have just the children that were drawn.

use crate::bindings::subsets::subsets_of;
use crate::engines::algorithms::game_value::{bid_child, bid_children, Horizon};
use crate::engines::algorithms::score_node::ScoreView;
use crate::engines::scorers::naive_round_score::round_scores;
use crate::models::enums::GamePhase;
use crate::models::state_view::GameStateView;
use vstd::prelude::*;

verus! {

/// What a search has drawn below a state: the batches revealed at the
/// state, where it is a chance node, and for each child of the state what
/// was drawn below the child.
pub struct Drawn {
    pub batches: Seq<Seq<u8>>,
    pub below: Seq<Drawn>,
}

/// How a search gets the batches of a chance node: every selection from
/// the deck, or `count` batches drawn at random.
pub struct Sampling {
    pub random: bool,
    pub count: nat,
}

/// Nothing drawn.
pub open spec fn no_draws() -> Drawn {
    Drawn { batches: Seq::empty(), below: Seq::empty() }
}

/// The batches with, for each child, nothing drawn yet below it.
pub open spec fn draws_of(batches: Seq<Seq<u8>>, children: nat) -> Drawn {
    Drawn { batches, below: Seq::new(children, |i: int| no_draws()) }
}

/// The states after each of the batches has been revealed.
pub open spec fn reveal_children(s: GameStateView, batches: Seq<Seq<u8>>) -> Seq<GameStateView> {
    Seq::new(batches.len(), |i: int| s.revealed_with(batches[i]))
}

/// The children of the state in the tree that was searched: the bids while
/// an auction is under way, the batches drawn between two auctions.
pub open spec fn kids(s: GameStateView, p: Drawn) -> Seq<GameStateView> {
    if s.auction_end() {
        reveal_children(s, p.batches)
    } else {
        bid_children(s)
    }
}

/// Whether the search stops at the state: the round is over, and the
/// horizon is reached, or the second phase has begun, or no batch was
/// drawn.
pub open spec fn stops(s: GameStateView, p: Drawn, h: Horizon) -> bool {
    s.auction_end() && (s.round_no == h.terminal || s.game_phase == GamePhase::Sell
        || p.batches.len() == 0)
}

/// Whether the batches are what a search gets at the chance node: each is
/// one card per player, taken from the deck; there are none where the deck
/// is too short for one; else they are every selection from the deck, or
/// as many as are drawn at random.
pub open spec fn batches_ok(s: GameStateView, batches: Seq<Seq<u8>>, mode: Sampling) -> bool {
    &&& forall|i: int| 0 <= i < batches.len() ==> s.is_batch(#[trigger] batches[i])
    &&& s.deck().len() < s.n() ==> batches.len() == 0
    &&& s.deck().len() >= s.n() ==> if mode.random {
        batches.len() == mode.count
    } else {
        batches == subsets_of(s.deck(), s.no_players as nat)
    }
}

/// Whether `p` is what a search may have drawn below the state: at every
/// chance node short of the horizon the batches are what the search gets
/// there, and below each child stands what was drawn below that child.
pub open spec fn drawn_ok(s: GameStateView, p: Drawn, h: Horizon, mode: Sampling) -> bool
    decreases p,
{
    if s.auction_end() && (s.round_no == h.terminal || s.game_phase == GamePhase::Sell) {
        true
    } else {
        &&& s.auction_end() ==> batches_ok(s, p.batches, mode)
        &&& p.below.len() == kids(s, p).len()
        &&& forall|i: int|
            0 <= i < p.below.len() ==> drawn_ok(kids(s, p)[i], #[trigger] p.below[i], h, mode)
    }
}

/// The entry that a search holds for a state once the children from the
/// `k`-th on have reported, where `p` is what was drawn below the state. A
/// state at which the search stops is scored as it stands. Any other
/// starts without a score and takes in what its children come to, the last
/// child first: where a player is to bid, it keeps what is best for that
/// player, and of two that are equally good the one that it took in first;
/// between two auctions, it keeps the mean over the batches drawn.
pub open spec fn entry_with(s: GameStateView, p: Drawn, k: int, h: Horizon) -> ScoreView
    decreases p, kids(s, p).len() - k,
{
    if stops(s, p, h) {
        ScoreView::scored(s, round_scores(s))
    } else if k < 0 || k >= kids(s, p).len() || k >= p.below.len() {
        ScoreView::fresh(s, kids(s, p).len(), 0)
    } else {
        entry_with(s, p, k + 1, h).absorbed(entry_with(kids(s, p)[k], p.below[k], 0, h).score)
    }
}

/// What the state comes to for each player.
pub open spec fn worth_with(s: GameStateView, p: Drawn, h: Horizon) -> Seq<i64> {
    entry_with(s, p, 0, h).score
}

/// The best of the first `upto` bids of the player to move, with its
/// score, where `p` is what was drawn below the root: the bid whose
/// outcome is worth most to that player, and of bids that are worth the
/// same, the first.
pub open spec fn choice_with(root: GameStateView, p: Drawn, upto: int, h: Horizon) -> (u8, i64)
    decreases upto,
{
    if upto <= 0 {
        (0u8, i64::MIN)
    } else {
        let before = choice_with(root, p, upto - 1, h);
        let mover = root.current_decision_player->0;
        let gain = worth_with(bid_child(root, upto - 1), p.below[upto - 1], h)[mover as int];
        if before.1 < gain {
            (root.legal_moves_bid(mover)[upto - 1], gain)
        } else {
            before
        }
    }
}

/// In the tree that was drawn, no bid is worth more to the player to move
/// than the best bid, and the best bid is the first that is worth as much
/// as it is.
pub proof fn law_drawn_choice_is_maximal(
    root: GameStateView,
    p: Drawn,
    upto: int,
    h: Horizon,
    i: int,
)
    requires
        0 <= i < upto,
    ensures
        worth_with(bid_child(root, i), p.below[i], h)[root.current_decision_player->0 as int]
            <= choice_with(root, p, upto, h).1,
        choice_with(root, p, upto, h).1 > i64::MIN ==> exists|j: int|
            0 <= j < upto && root.legal_moves_bid(root.current_decision_player->0)[j]
                == choice_with(root, p, upto, h).0 && #[trigger] worth_with(
                bid_child(root, j),
                p.below[j],
                h,
            )[root.current_decision_player->0 as int] == choice_with(root, p, upto, h).1
                && choice_with(root, p, j, h).1 < choice_with(root, p, upto, h).1,
    decreases upto,
{
    let mover = root.current_decision_player->0 as int;
    let before = choice_with(root, p, upto - 1, h);
    let gain = worth_with(bid_child(root, upto - 1), p.below[upto - 1], h)[mover];
    if i < upto - 1 {
        law_drawn_choice_is_maximal(root, p, upto - 1, h, i);
    }
    if before.1 < gain {
        assert(worth_with(bid_child(root, upto - 1), p.below[upto - 1], h)[mover] == choice_with(
            root,
            p,
            upto,
            h,
        ).1);
    } else if upto - 1 > 0 {
        law_drawn_choice_is_maximal(root, p, upto - 1, h, 0);
        if before.1 > i64::MIN {
            let j = choose|j: int|
                0 <= j < upto - 1 && root.legal_moves_bid(root.current_decision_player->0)[j]
                    == before.0 && #[trigger] worth_with(bid_child(root, j), p.below[j], h)[mover]
                    == before.1 && choice_with(root, p, j, h).1 < before.1;
            assert(worth_with(bid_child(root, j), p.below[j], h)[mover] == choice_with(
                root,
                p,
                upto,
                h,
            ).1);
        }
    }
}

/// The entry of a state depends on what was drawn at the state and below
/// the children that have reported, and on nothing else.
pub proof fn lemma_entry_frame(s: GameStateView, p: Drawn, q: Drawn, k: int, h: Horizon)
    requires
        p.batches == q.batches,
        p.below.len() == q.below.len(),
        forall|i: int| k <= i < p.below.len() ==> p.below[i] == q.below[i],
        k >= 0,
    ensures
        entry_with(s, p, k, h) == entry_with(s, q, k, h),
    decreases kids(s, p).len() - k,
{
    assert(kids(s, p) == kids(s, q));
    if !stops(s, p, h) && k < kids(s, p).len() && k < p.below.len() {
        lemma_entry_frame(s, p, q, k + 1, h);
    }
}

/// A state takes in what its `k`-th child comes to after the children
/// behind it.
pub proof fn lemma_entry_takes(s: GameStateView, p: Drawn, k: int, h: Horizon)
    requires
        !stops(s, p, h),
        0 <= k < kids(s, p).len(),
        p.below.len() == kids(s, p).len(),
    ensures
        entry_with(s, p, k, h) == entry_with(s, p, k + 1, h).absorbed(
            worth_with(kids(s, p)[k], p.below[k], h),
        ),
        entry_with(s, p, kids(s, p).len() as int, h) == ScoreView::fresh(s, kids(s, p).len(), 0),
{
}

} // verus!
