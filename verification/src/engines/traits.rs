//! What automated players offer.

use crate::models::game_state::GameState;
use crate::models::state_view::GameStateView;
use vstd::prelude::*;

verus! {

/// A player that decides by itself.
pub trait PlayerController {
    /// Whether the player can decide on a single action in the state.
    spec fn can_decide(&self, game_state: GameStateView) -> bool;

    /// The seat that a single decision in the state is made for.
    spec fn decides_for(&self, game_state: GameStateView) -> u8;

    /// The name of the player.
    fn nickname(&self) -> String;

    /// One legal action for the seat that the player decides for.
    fn decision(&mut self, game_state: &GameState) -> (res: u8)
        requires
            game_state.wf(),
            old(self).can_decide(game_state@),
        ensures
            game_state@.legal_moves(old(self).decides_for(game_state@)).contains(res),
            forall|s: GameStateView| final(self).can_decide(s) == old(self).can_decide(s),
            forall|s: GameStateView| final(self).decides_for(s) == old(self).decides_for(s),
    ;
}

/// A player that can decide for every seat at once, as the sale asks.
pub trait BatchController: PlayerController {
    /// Whether the player can decide for all players at once in the state.
    spec fn can_batch_decide(&self, game_state: GameStateView) -> bool;

    /// One legal action for every seat.
    fn batch_decision(&mut self, game_state: &GameState) -> (res: Vec<u8>)
        requires
            game_state.wf(),
            old(self).can_batch_decide(game_state@),
        ensures
            res@.len() == game_state@.n(),
            forall|p: int|
                0 <= p < game_state@.n() ==> game_state@.legal_moves(p as u8).contains(
                    #[trigger] res@[p],
                ),
    ;
}

} // verus!
