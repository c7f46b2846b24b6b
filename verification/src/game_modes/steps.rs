//! What a game does next: the decisions of the loop that runs a game, one
//! step at a time.

use crate::models::game_state::GameState;
use crate::models::state_view::GameStateView;
use vstd::prelude::*;

verus! {

/// The next step while properties are bought.
#[derive(Copy, Clone, Debug, PartialEq, Eq, Structural)]
pub enum BidStep {
    /// A round is over: deal the next batch of properties.
    Reveal,
    /// The player is to bid.
    Decide { player: u8 },
    /// Every property is sold.
    Finished,
}

/// The next step while properties are sold.
#[derive(Copy, Clone, Debug, PartialEq, Eq, Structural)]
pub enum SellStep {
    /// No checks are on offer: deal the next batch.
    Reveal,
    /// Every player is to offer a property.
    Sale,
    /// Nothing is left to sell.
    Finished,
}

/// The next step of the first phase for a state and the last round that
/// was dealt.
pub open spec fn bid_step(s: GameStateView, last_round: u8) -> BidStep {
    if s.bid_phase_end() {
        BidStep::Finished
    } else if s.round_no > last_round {
        BidStep::Reveal
    } else {
        BidStep::Decide { player: s.current_decision_player->0 }
    }
}

/// The next step of the second phase for a state.
pub open spec fn sell_step(s: GameStateView) -> SellStep {
    if s.sell_phase_end() {
        SellStep::Finished
    } else if s.auction_end() {
        SellStep::Reveal
    } else {
        SellStep::Sale
    }
}

/// What to do next while properties are bought.
pub fn next_bid_step(game_state: &GameState, last_round: u8) -> (res: BidStep)
    requires
        game_state@.current_decision_player is Some,
    ensures
        res == bid_step(game_state@, last_round),
{
    if game_state.bid_phase_end() {
        BidStep::Finished
    } else if game_state.round_no() > last_round {
        BidStep::Reveal
    } else {
        BidStep::Decide { player: game_state.current_player() }
    }
}

/// What to do next while properties are sold.
pub fn next_sell_step(game_state: &GameState) -> (res: SellStep)
    ensures
        res == sell_step(game_state@),
{
    if game_state.sell_phase_end() {
        SellStep::Finished
    } else if game_state.auction_end() {
        SellStep::Reveal
    } else {
        SellStep::Sale
    }
}

/// The seat that starts a game: the first one, or the one drawn where the
/// start is random.
pub fn starting_seat(random: bool, drawn: u8) -> (res: u8)
    ensures
        res == (if random {
            drawn
        } else {
            0
        }),
{
    if random {
        drawn
    } else {
        0
    }
}

} // verus!
