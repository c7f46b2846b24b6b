//! The type of a logging threshold, `log::LevelFilter`, which the game
//! modes carry for whoever sets up logging.

use vstd::prelude::*;

verus! {

/// `log::LevelFilter`: carried along, never looked into.
#[verifier::external_type_specification]
#[verifier::external_body]
pub struct ExLevelFilter(log::LevelFilter);

} // verus!
