//! A game that searching players play among themselves.

use crate::bindings::random::{draw_below, seeded_rng};
use crate::engines::algorithms::maxn_player::MaxNPlayer;
use crate::engines::algorithms::search_model::{
    bidding, depth_left, lemma_bid_child, lemma_bid_deck, lemma_bid_round,
    lemma_live_coins_bound, lemma_reveal_top, round_over, within,
};
use crate::models::encoding::append_decimal;
use crate::helper::generation::string_to_seed;
use crate::models::enums::GamePhase;
use crate::models::game_state::GameState;
use crate::models::state_view::fresh_properties;
use log::LevelFilter;
use vstd::prelude::*;

verus! {

/// A game of six searching players.
pub struct SelfPlay {
    pub game_id: String,
    level_filter: LevelFilter,
    bool_random_starting_player: bool,
}

/// How many rounds a player looks ahead in the given round of the game.
pub open spec fn rounds_ahead(round_no: u8) -> u8 {
    if round_no == 3 {
        2
    } else {
        1
    }
}

impl SelfPlay {
    /// The name that the game was made with.
    pub closed spec fn label(&self) -> String {
        self.game_id
    }

    /// Whether the seat that starts is drawn at random.
    pub closed spec fn random_start(&self) -> bool {
        self.bool_random_starting_player
    }

    /// The logging threshold that the game was made with.
    pub closed spec fn threshold(&self) -> LevelFilter {
        self.level_filter
    }

    /// A game with the given name.
    pub fn new(game_id: String, level_filter: LevelFilter, bool_random_starting_player: bool) -> (res:
        Self)
        ensures
            res.label() == game_id,
            res.threshold() == level_filter,
            res.random_start() == bool_random_starting_player,
    {
        SelfPlay { game_id, level_filter, bool_random_starting_player }
    }

    /// The logging threshold of the game.
    pub fn level_filter(&self) -> (res: LevelFilter)
        ensures
            res == self.threshold(),
    {
        self.level_filter
    }

    /// Whether the seat that starts is drawn at random.
    pub fn bool_random_starting_player(&self) -> (res: bool)
        ensures
            res == self.random_start(),
    {
        self.bool_random_starting_player
    }

    /// Plays the first phase of a game of six searching players, from a
    /// deck and a first seat that the name of the game decides, and hands
    /// back the state in which every property is sold.
    pub fn game_run(&mut self) -> (res: GameState)
        ensures
            res.wf(),
            res@.bid_phase_end(),
            res@.no_players == 6,
            final(self).label() == old(self).label(),
            final(self).random_start() == old(self).random_start(),
    {
        let seed: u64 = string_to_seed(self.game_id.as_str());
        let mut rng = seeded_rng(seed);
        let no_players: u8 = 6;
        let current_player: u8 = if self.bool_random_starting_player {
            draw_below(6, &mut rng) as u8
        } else {
            0
        };
        let mut controllers: Vec<MaxNPlayer> = Vec::with_capacity(no_players as usize);
        let mut i: u8 = 0;
        while i < no_players
            invariant
                i <= no_players,
                no_players == 6,
                controllers@.len() == i,
            decreases no_players - i,
        {
            let mut nickname: String = String::from_str("P");
            append_decimal(&mut nickname, i);
            controllers.push(MaxNPlayer::seeded(i, nickname, false, true, seed));
            i += 1;
        }
        let mut game_state = GameState::starting_seeded(no_players, current_player, &mut rng);
        let ghost tl: int = 122881;
        let ghost rl: int = 31int;
        proof {
            broadcast use vstd::seq_lib::group_to_multiset_ensures;

            game_state.lemma_wf();
            let deck = game_state@.remaining_properties;
            assert(deck.len() == deck.to_multiset().len());
            assert(fresh_properties().len() == fresh_properties().to_multiset().len());
            lemma_live_coins_bound(game_state@, 6);
            lemma_reveal_top(game_state@, tl, rl);
        }
        game_state.reveal_auction();
        let mut last_round: u8 = game_state.round_no();
        loop
            invariant
                game_state.wf(),
                game_state@.no_players == 6,
                controllers@.len() == 6,
                tl == 122881,
                rl == 31,
                within(game_state@, tl, rl),
                game_state@.remaining_properties.len() % 6 == 0,
                bidding(game_state@) || (round_over(game_state@) && (game_state@.game_phase
                    == GamePhase::Bid || game_state@.remaining_properties.len() == 0)),
                bidding(game_state@) ==> game_state@.round_no == last_round,
                round_over(game_state@) ==> game_state@.round_no > last_round,
                self.game_id == old(self).game_id,
                self.bool_random_starting_player == old(self).bool_random_starting_player,
            ensures
                game_state.wf(),
                game_state@.bid_phase_end(),
                game_state@.no_players == 6,
                self.game_id == old(self).game_id,
                self.bool_random_starting_player == old(self).bool_random_starting_player,
            decreases depth_left(game_state@),
        {
            proof {
                game_state.lemma_wf();
                lemma_live_coins_bound(game_state@, 6);
            }
            if game_state.bid_phase_end() {
                break ;
            }
            if game_state.round_no() > last_round {
                last_round = game_state.round_no();
                proof {
                    lemma_reveal_top(game_state@, tl, rl);
                }
                game_state.reveal_auction();
                proof {
                    game_state.lemma_wf();
                    lemma_live_coins_bound(game_state@, 6);
                }
                continue ;
            }
            let mover: u8 = game_state.current_player();
            let rounds_param: u8 = Self::rounds_param(game_state.round_no());
            let best_move: u8 = controllers[mover as usize].maximax_round(
                &game_state,
                rounds_param,
                false,
                0,
            );
            proof {
                lemma_bid_child(game_state@, best_move, tl, rl);
                lemma_bid_round(game_state@, best_move);
                lemma_bid_deck(game_state@, best_move);
            }
            game_state = game_state.generate_next_state_bid(mover, best_move);
            proof {
                game_state.lemma_wf();
                lemma_live_coins_bound(game_state@, 6);
            }
        }
        game_state
    }

    /// How many rounds a player looks ahead in the given round of the game.
    pub fn rounds_param(round_no: u8) -> (res: u8)
        ensures
            res == rounds_ahead(round_no),
    {
        if round_no == 3 {
            2
        } else {
            1
        }
    }
}

} // verus!
