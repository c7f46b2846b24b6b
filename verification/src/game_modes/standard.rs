//! A game between any automated players.

use crate::engines::traits::PlayerController;
use crate::models::game_state::GameState;
use log::LevelFilter;
use vstd::prelude::*;

verus! {

/// A game between the given players.
pub struct StandardGame<C: PlayerController> {
    pub game_id: String,
    level_filter: LevelFilter,
    controllers: Vec<C>,
    bool_random_starting_player: bool,
}

impl<C: PlayerController> StandardGame<C> {
    /// The name that the game was made with.
    pub closed spec fn label(&self) -> String {
        self.game_id
    }

    /// Whether the seat that starts is drawn at random.
    pub closed spec fn random_start(&self) -> bool {
        self.bool_random_starting_player
    }

    /// The logging threshold that the game was made with.
    pub closed spec fn threshold(&self) -> LevelFilter {
        self.level_filter
    }

    /// The players, by seat.
    pub closed spec fn players(&self) -> Seq<C> {
        self.controllers@
    }

    /// A game with the given name and players.
    pub fn new(
        game_id: String,
        level_filter: LevelFilter,
        controllers: Vec<C>,
        bool_random_starting_player: bool,
    ) -> (res: Self)
        ensures
            res.label() == game_id,
            res.threshold() == level_filter,
            res.players() == controllers@,
            res.random_start() == bool_random_starting_player,
    {
        StandardGame { game_id, level_filter, controllers, bool_random_starting_player }
    }

    /// The logging threshold of the game.
    pub fn level_filter(&self) -> (res: LevelFilter)
        ensures
            res == self.threshold(),
    {
        self.level_filter
    }

    /// Whether the seat that starts is drawn at random.
    pub fn bool_random_starting_player(&self) -> (res: bool)
        ensures
            res == self.random_start(),
    {
        self.bool_random_starting_player
    }

    /// The action that the player at `seat` decides on.
    pub fn decision_of(&mut self, seat: u8, game_state: &GameState) -> (res: u8)
        requires
            game_state.wf(),
            seat < old(self).players().len(),
            old(self).players()[seat as int].can_decide(game_state@),
        ensures
            game_state@.legal_moves(
                old(self).players()[seat as int].decides_for(game_state@),
            ).contains(res),
            final(self).players().len() == old(self).players().len(),
            final(self).label() == old(self).label(),
            final(self).random_start() == old(self).random_start(),
    {
        let controller: &mut C = &mut self.controllers[seat as usize];
        controller.decision(game_state)
    }

    /// How many players sit at the table.
    pub fn no_players(&self) -> (res: usize)
        ensures
            res == self.players().len(),
    {
        self.controllers.len()
    }
}

} // verus!
