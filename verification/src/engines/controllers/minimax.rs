//! A stand-in for a two-player search: it picks any legal action.

use crate::bindings::random::{choose_move};
use crate::helper::generation::fresh_rng;
use crate::engines::traits::{BatchController, PlayerController};
use crate::models::game_state::GameState;
use crate::models::state_view::GameStateView;
use rand::rngs::StdRng;
use vstd::prelude::*;

verus! {

/// A player that picks any legal action.
pub struct MinimaxPlayer {
    id: u8,
    nickname: String,
    rng: StdRng,
}

impl MinimaxPlayer {
    /// The seat of the player.
    pub closed spec fn seat(&self) -> u8 {
        self.id
    }

    /// The name of the player.
    pub closed spec fn name(&self) -> String {
        self.nickname
    }

    /// A player for seat `id` that draws from the system's entropy, or
    /// from a fixed seed where the system gives none.
    pub fn new(id: u8, nickname: String) -> (res: Self)
        ensures
            res.seat() == id,
            res.name() == nickname,
    {
        MinimaxPlayer { id, nickname, rng: fresh_rng() }
    }
}

impl PlayerController for MinimaxPlayer {
    /// The player can decide where its seat is at the table and has a legal
    /// action.
    open spec fn can_decide(&self, game_state: GameStateView) -> bool {
        &&& self.seat() < game_state.no_players
        &&& game_state.legal_moves(self.seat()).len() > 0
    }

    /// The player decides for its own seat.
    open spec fn decides_for(&self, game_state: GameStateView) -> u8 {
        self.seat()
    }

    /// The name of the player.
    fn nickname(&self) -> (res: String)
        ensures
            res@ == self.name()@,
    {
        self.nickname.clone()
    }

    /// Any legal action of the player's seat.
    fn decision(&mut self, game_state: &GameState) -> (res: u8) {
        let legal_moves: Vec<u8> = game_state.legal_moves(self.id);
        choose_move(&legal_moves, &mut self.rng).unwrap()
    }
}

impl BatchController for MinimaxPlayer {
    /// The player can decide for all where every seat has a legal action.
    open spec fn can_batch_decide(&self, game_state: GameStateView) -> bool {
        forall|p: u8| p < game_state.no_players ==> (#[trigger] game_state.legal_moves(p)).len() > 0
    }

    /// Any legal action for every seat.
    fn batch_decision(&mut self, game_state: &GameState) -> (res: Vec<u8>) {
        let no_players: u8 = game_state.no_players();
        let mut choices: Vec<u8> = Vec::with_capacity(no_players as usize);
        let mut player: u8 = 0;
        while player < no_players
            invariant
                game_state.wf(),
                no_players == game_state@.no_players,
                player <= no_players,
                forall|p: u8|
                    p < no_players ==> (#[trigger] game_state@.legal_moves(p)).len() > 0,
                choices@.len() == player,
                forall|p: int|
                    0 <= p < player ==> game_state@.legal_moves(p as u8).contains(
                        #[trigger] choices@[p],
                    ),
            decreases no_players - player,
        {
            let legal_moves: Vec<u8> = game_state.legal_moves(player);
            assert(game_state@.legal_moves(player).len() > 0);
            let choice: u8 = choose_move(&legal_moves, &mut self.rng).unwrap();
            choices.push(choice);
            player += 1;
        }
        choices
    }
}

} // verus!
