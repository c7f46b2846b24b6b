pub mod cards;
pub mod encoding;
pub mod enums;
pub mod game_state;
pub mod laws;
pub mod state_view;
