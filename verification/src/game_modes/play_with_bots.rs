//! A game of one player at the terminal against automated players.

use log::LevelFilter;
use vstd::prelude::*;

verus! {

/// A game of one player at the terminal against automated players.
pub struct Play {
    pub game_id: String,
    level_filter: LevelFilter,
    bool_random_starting_player: bool,
}

impl Play {
    /// The name that the game was made with.
    pub closed spec fn label(&self) -> String {
        self.game_id
    }

    /// Whether the seat that starts is drawn at random.
    pub closed spec fn random_start(&self) -> bool {
        self.bool_random_starting_player
    }

    /// The logging threshold that the game was made with.
    pub closed spec fn threshold(&self) -> LevelFilter {
        self.level_filter
    }

    /// A game with the given name.
    pub fn new(game_id: String, level_filter: LevelFilter, bool_random_starting_player: bool) -> (res:
        Self)
        ensures
            res.label() == game_id,
            res.threshold() == level_filter,
            res.random_start() == bool_random_starting_player,
    {
        Play { game_id, level_filter, bool_random_starting_player }
    }

    /// The logging threshold of the game.
    pub fn level_filter(&self) -> (res: LevelFilter)
        ensures
            res == self.threshold(),
    {
        self.level_filter
    }

    /// Whether the seat that starts is drawn at random.
    pub fn bool_random_starting_player(&self) -> (res: bool)
        ensures
            res == self.random_start(),
    {
        self.bool_random_starting_player
    }
}

} // verus!
