//! A player that searches while properties are bought and solves the sale
//! while they are sold.

use crate::engines::algorithms::counterfactual_regret::{sale_ready, Unbounded, CFR};
use crate::engines::algorithms::game_value::best_bid;
use crate::engines::algorithms::maxn_player::{search_root, MaxNPlayer};
use crate::engines::traits::{BatchController, PlayerController};
use crate::models::game_state::GameState;
use crate::models::state_view::GameStateView;
use vstd::prelude::*;

verus! {

/// A player that searches for its bids and solves the sale.
pub struct GreedyBaby {
    id: u8,
    nickname: String,
    maxn_controller: MaxNPlayer,
    cfr_controller: CFR<Unbounded>,
}

impl GreedyBaby {
    /// The seat of the player.
    pub closed spec fn seat(&self) -> u8 {
        self.id
    }

    /// The name of the player.
    pub closed spec fn name(&self) -> String {
        self.nickname
    }

    /// Whether the node that the solver keeps for the state, if it keeps
    /// one, is a node for that state.
    pub closed spec fn solver_fits(&self, game_state: GameStateView) -> bool {
        self.cfr_controller.table().contains_key(game_state.path_encoding)
            ==> self.cfr_controller.table()[game_state.path_encoding].ok(game_state)
    }

    /// A player for seat `id`.
    pub fn new(id: u8, nickname: String) -> (res: Self)
        ensures
            res.seat() == id,
            res.name()@ == nickname@,
            forall|s: GameStateView| res.solver_fits(s),
    {
        let maxn_controller = MaxNPlayer::new(id, nickname.clone(), false, false);
        let cfr_controller = CFR::new(Unbounded {  }, false);
        GreedyBaby { id, nickname, maxn_controller, cfr_controller }
    }
}

impl PlayerController for GreedyBaby {
    /// The player can decide where a search over one round can start.
    open spec fn can_decide(&self, game_state: GameStateView) -> bool {
        search_root(game_state, 1)
    }

    /// The player decides for whoever is to move.
    open spec fn decides_for(&self, game_state: GameStateView) -> u8 {
        game_state.current_decision_player->0
    }

    /// The name of the player.
    fn nickname(&self) -> (res: String)
        ensures
            res@ == self.name()@,
    {
        self.nickname.clone()
    }

    /// The bid that is best for the player to move when the round is
    /// played out.
    fn decision(&mut self, game_state: &GameState) -> (res: u8)
        ensures
            res == best_bid(game_state@),
    {
        self.maxn_controller.maximax_round(game_state, 1, false, 0)
    }
}

impl BatchController for GreedyBaby {
    /// The player can decide for all where every player can offer a
    /// property.
    open spec fn can_batch_decide(&self, game_state: GameStateView) -> bool {
        sale_ready(game_state) && self.solver_fits(game_state)
    }

    /// One property for every seat, drawn from the strategies that the solver
    /// finds for the sale.
    fn batch_decision(&mut self, game_state: &GameState) -> (res: Vec<u8>) {
        self.cfr_controller.find_nash(game_state, 20000);
        let no_players: u8 = game_state.no_players();
        let mut aggregate_actions: Vec<u8> = Vec::with_capacity(no_players as usize);
        let mut player: u8 = 0;
        while player < no_players
            invariant
                game_state.wf(),
                sale_ready(game_state@),
                no_players == game_state@.no_players,
                player <= no_players,
                self.cfr_controller.table().contains_key(game_state@.path_encoding),
                self.cfr_controller.table()[game_state@.path_encoding].ok(game_state@),
                aggregate_actions@.len() == player,
                forall|p: int|
                    0 <= p < player ==> game_state@.legal_moves(p as u8).contains(
                        #[trigger] aggregate_actions@[p],
                    ),
            decreases no_players - player,
        {
            let action: u8 = self.cfr_controller.get_mixed_strategy(game_state, player);
            aggregate_actions.push(action);
            player += 1;
        }
        aggregate_actions
    }
}

} // verus!
