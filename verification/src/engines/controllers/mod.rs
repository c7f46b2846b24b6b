pub mod greedy_baby;
pub mod minimax;
pub mod random_player;
pub mod terminal_player;
