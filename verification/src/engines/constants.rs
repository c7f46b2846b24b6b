//! The units and tuning constants of the engines.

use vstd::prelude::*;

verus! {

/// Scores and probabilities are fixed-point numbers: this many units make
/// one whole.
pub const SCORE_UNIT: i64 = 1_000_000;

/// What one point of a property's face value is taken to be worth, in
/// score units.
pub const VALUE_PER_PROPERTY: i64 = 500_000;

} // verus!
