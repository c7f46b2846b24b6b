pub mod play_with_bots;
pub mod self_play;
pub mod standard;
pub mod steps;
