pub mod counterfactual_regret;
pub mod drawn_steps;
pub mod drawn_value;
pub mod frontier;
pub mod game_value;
pub mod maxn_player;
pub mod maxn_player_multi;
pub mod propagation;
pub mod score_node;
pub mod search_model;
pub mod search_steps;
