//! `bimap::BiHashMap` as the library uses it: a one-to-one table between
//! the places of a player's actions and the actions. Nothing here is
//! proved; each contract says what the bimap's own source shows.

use bimap::BiHashMap;
use vstd::prelude::*;

verus! {

/// `bimap::BiHashMap`, a table of pairs in which no left and no right
/// value occurs twice.
#[verifier::external_type_specification]
#[verifier::external_body]
#[verifier::reject_recursive_types(L)]
#[verifier::reject_recursive_types(R)]
#[verifier::reject_recursive_types(LS)]
#[verifier::reject_recursive_types(RS)]
pub struct ExBiHashMap<L, R, LS, RS>(BiHashMap<L, R, LS, RS>);

/// The pairs of a table of moves: for each place, the action at that place.
pub uninterp spec fn move_pairs(m: BiHashMap<usize, u8>) -> Map<usize, u8>;

/// `BiHashMap::with_capacity`: a new table, which holds no pair.
#[verifier::external_body]
pub(crate) fn moves_with_capacity(capacity: usize) -> (res: BiHashMap<usize, u8>)
    ensures
        (move_pairs(res) == Map::<usize, u8>::empty()),
{
    BiHashMap::with_capacity(capacity)
}

/// `BiHashMap::insert`: afterwards the table pairs `index` with `action`;
/// any other pair with that action is gone, and every pair with another
/// place and another action is as before.
#[verifier::external_body]
pub(crate) fn moves_insert(m: &mut BiHashMap<usize, u8>, index: usize, action: u8)
    ensures
        move_pairs(*final(m)).contains_key(index),
        move_pairs(*final(m))[index] == action,
        forall|k: usize|
            k != index ==> (#[trigger] move_pairs(*final(m)).contains_key(k) == (move_pairs(
                *old(m),
            ).contains_key(k) && move_pairs(*old(m))[k] != action)),
        forall|k: usize|
            k != index && #[trigger] move_pairs(*final(m)).contains_key(k) ==> move_pairs(
                *final(m),
            )[k] == move_pairs(*old(m))[k],
{
    m.insert(index, action);
}

/// `BiHashMap::get_by_left`: the action paired with `index`, if there is
/// one.
#[verifier::external_body]
pub(crate) fn moves_get_by_left(m: &BiHashMap<usize, u8>, index: usize) -> (res: Option<u8>)
    ensures
        res.is_some() == move_pairs(*m).contains_key(index),
        res.is_some() ==> res.unwrap() == move_pairs(*m)[index],
{
    m.get_by_left(&index).copied()
}

} // verus!
