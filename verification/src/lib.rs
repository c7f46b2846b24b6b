//! A multiplayer auction game: the state model with its transitions, a
//! heuristic scorer, a depth-bounded maxN search over decision and chance
//! nodes, and a regret-matching solver for the simultaneous sale stage.

pub mod bindings;
pub mod engines;
pub mod game_modes;
pub mod helper;
pub mod models;
