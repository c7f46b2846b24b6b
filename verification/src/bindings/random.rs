//! The random source, `rand::rngs::StdRng`, and the draws that the library
//! makes from it. Nothing here is proved. A draw depends on the state of the
//! generator, so each contract states only what holds of every outcome.

use rand::rngs::StdRng;
use rand::seq::{IndexedRandom, SliceRandom};
use rand::{Rng, SeedableRng};
use vstd::prelude::*;

verus! {

/// `rand::rngs::StdRng`, the generator that the library draws from: the
/// library hands it on and never looks inside.
#[verifier::external_type_specification]
#[verifier::external_body]
pub struct ExStdRng(StdRng);

/// `SeedableRng::seed_from_u64`: a generator whose draws are fixed by
/// `seed`. Nothing is claimed of the generator.
#[verifier::external_body]
pub(crate) fn seeded_rng(seed: u64) -> StdRng {
    StdRng::seed_from_u64(seed)
}

/// `SeedableRng::try_from_os_rng`: a generator seeded from the system's
/// entropy, or nothing where the system gives none. Nothing is claimed of
/// the result.
#[verifier::external_body]
pub(crate) fn entropy_rng() -> Option<StdRng> {
    StdRng::try_from_os_rng().ok()
}

/// `SliceRandom::shuffle`: the same cards, each as often as before, in some
/// order.
#[verifier::external_body]
pub(crate) fn shuffle_cards(cards: &mut Vec<u8>, rng: &mut StdRng)
    ensures
        final(cards)@.to_multiset() == old(cards)@.to_multiset(),
{
    cards.shuffle(rng);
}

/// `IndexedRandom::choose_multiple`: `amount` cards taken from distinct
/// positions of `cards` (all of them where there are fewer), in some order.
#[verifier::external_body]
pub(crate) fn choose_cards(cards: &Vec<u8>, amount: usize, rng: &mut StdRng) -> (res: Vec<u8>)
    ensures
        res@.len() == if amount <= cards@.len() { amount as nat } else { cards@.len() },
        res@.to_multiset().subset_of(cards@.to_multiset()),
{
    cards.choose_multiple(rng, amount).cloned().collect()
}

/// `IndexedRandom::choose`: one of `moves`, or nothing where there is none.
#[verifier::external_body]
pub(crate) fn choose_move(moves: &Vec<u8>, rng: &mut StdRng) -> (res: Option<u8>)
    ensures
        res.is_none() == (moves@.len() == 0),
        res.is_some() ==> moves@.contains(res.unwrap()),
{
    moves.choose(rng).copied()
}

/// `Rng::random_range` on `0..bound`: a number below `bound`.
#[verifier::external_body]
pub(crate) fn draw_below(bound: u64, rng: &mut StdRng) -> (res: u64)
    requires
        bound > 0,
    ensures
        res < bound,
{
    rng.random_range(0..bound)
}

} // verus!
