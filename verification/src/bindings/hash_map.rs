//! `ahash::AHashMap` as the library uses it: the type, a name for what each
//! kind of map holds, and the calls that the library makes on it. Nothing
//! here is proved; each contract says what the hash map's own source shows.

use crate::engines::algorithms::counterfactual_regret::SolverNode;
use crate::engines::algorithms::score_node::ScoreMaxN;
use ahash::{AHashMap, RandomState};
use vstd::prelude::*;

verus! {

/// `ahash::AHashMap`, the hash map that the library keeps holdings and
/// tables in. What a map holds is named below, one name for each kind of
/// map.
#[verifier::external_type_specification]
#[verifier::external_body]
#[verifier::reject_recursive_types(K)]
#[verifier::reject_recursive_types(V)]
#[verifier::reject_recursive_types(S)]
pub struct ExAHashMap<K, V, S>(AHashMap<K, V, S>);

/// `ahash::RandomState`, the hasher of an `AHashMap`: it stands in the
/// map's type and nowhere else.
#[verifier::external_type_specification]
#[verifier::external_body]
pub struct ExRandomState(RandomState);

/// The cards that a map of holdings keeps for each player.
pub uninterp spec fn holdings(m: AHashMap<u8, Vec<u8>>) -> Map<u8, Seq<u8>>;

/// `AHashMap::with_capacity`: a new map, which holds nothing.
#[verifier::external_body]
pub(crate) fn holdings_with_capacity(capacity: usize) -> (res: AHashMap<u8, Vec<u8>>)
    ensures
        (holdings(res) == Map::<u8, Seq<u8>>::empty()),
{
    AHashMap::with_capacity(capacity)
}

/// `AHashMap::insert`: afterwards the map holds `cards` under `player`, and
/// under every other key what it held before.
#[verifier::external_body]
pub(crate) fn holdings_insert(m: &mut AHashMap<u8, Vec<u8>>, player: u8, cards: Vec<u8>)
    ensures
        holdings(*final(m)) == holdings(*old(m)).insert(player, cards@),
{
    m.insert(player, cards);
}

/// `AHashMap::get`: the cards kept under `player`, if the map has that key.
#[verifier::external_body]
pub(crate) fn holdings_get(m: &AHashMap<u8, Vec<u8>>, player: u8) -> (res: Option<&Vec<u8>>)
    ensures
        res.is_some() == holdings(*m).contains_key(player),
        res.is_some() ==> res.unwrap()@ == holdings(*m)[player],
{
    m.get(&player)
}

/// `AHashMap::clone`: a map that holds the same cards under the same keys.
#[verifier::external_body]
pub(crate) fn holdings_clone(m: &AHashMap<u8, Vec<u8>>) -> (res: AHashMap<u8, Vec<u8>>)
    ensures
        holdings(res) == holdings(*m),
{
    m.clone()
}

/// The entries that a score table keeps, by key.
pub uninterp spec fn score_entries(m: AHashMap<String, ScoreMaxN>) -> Map<Seq<char>, ScoreMaxN>;

/// `AHashMap::with_capacity`: a new table, which holds nothing.
#[verifier::external_body]
pub(crate) fn scores_with_capacity(capacity: usize) -> (res: AHashMap<String, ScoreMaxN>)
    ensures
        (score_entries(res) == Map::<Seq<char>, ScoreMaxN>::empty()),
{
    AHashMap::with_capacity(capacity)
}

/// `AHashMap::insert`: afterwards the table holds `node` under `key`, and
/// under every other key what it held before.
#[verifier::external_body]
pub(crate) fn scores_insert(m: &mut AHashMap<String, ScoreMaxN>, key: String, node: ScoreMaxN)
    ensures
        score_entries(*final(m)) == score_entries(*old(m)).insert(key@, node),
{
    m.insert(key, node);
}

/// `AHashMap::get`: the entry kept under `key`, if the table has that key.
#[verifier::external_body]
pub(crate) fn scores_get<'a>(m: &'a AHashMap<String, ScoreMaxN>, key: &String) -> (res: Option<
    &'a ScoreMaxN,
>)
    ensures
        res.is_some() == score_entries(*m).contains_key(key@),
        res.is_some() ==> *res.unwrap() == score_entries(*m)[key@],
{
    m.get(key)
}

/// `AHashMap::remove`: takes the entry kept under `key` out of the table
/// and hands it over, if the table has that key.
#[verifier::external_body]
pub(crate) fn scores_remove(m: &mut AHashMap<String, ScoreMaxN>, key: &String) -> (res: Option<
    ScoreMaxN,
>)
    ensures
        score_entries(*final(m)) == score_entries(*old(m)).remove(key@),
        res.is_some() == score_entries(*old(m)).contains_key(key@),
        res.is_some() ==> res.unwrap() == score_entries(*old(m))[key@],
{
    m.remove(key)
}

/// The nodes that a solver's table keeps, by key.
pub uninterp spec fn solver_entries(m: AHashMap<String, SolverNode>) -> Map<Seq<char>, SolverNode>;

/// `AHashMap::with_capacity`: a new table, which holds nothing.
#[verifier::external_body]
pub(crate) fn solver_with_capacity(capacity: usize) -> (res: AHashMap<String, SolverNode>)
    ensures
        (solver_entries(res) == Map::<Seq<char>, SolverNode>::empty()),
{
    AHashMap::with_capacity(capacity)
}

/// `AHashMap::insert`: afterwards the table holds `node` under `key`, and
/// under every other key what it held before.
#[verifier::external_body]
pub(crate) fn solver_insert(m: &mut AHashMap<String, SolverNode>, key: String, node: SolverNode)
    ensures
        solver_entries(*final(m)) == solver_entries(*old(m)).insert(key@, node),
{
    m.insert(key, node);
}

/// `AHashMap::get`: the node kept under `key`, if the table has that key.
#[verifier::external_body]
pub(crate) fn solver_get<'a>(m: &'a AHashMap<String, SolverNode>, key: &String) -> (res: Option<
    &'a SolverNode,
>)
    ensures
        res.is_some() == solver_entries(*m).contains_key(key@),
        res.is_some() ==> *res.unwrap() == solver_entries(*m)[key@],
{
    m.get(key)
}

/// `AHashMap::remove`: takes the node kept under `key` out of the table
/// and hands it over, if the table has that key.
#[verifier::external_body]
pub(crate) fn solver_remove(m: &mut AHashMap<String, SolverNode>, key: &String) -> (res: Option<
    SolverNode,
>)
    ensures
        solver_entries(*final(m)) == solver_entries(*old(m)).remove(key@),
        res.is_some() == solver_entries(*old(m)).contains_key(key@),
        res.is_some() ==> res.unwrap() == solver_entries(*old(m))[key@],
{
    m.remove(key)
}

} // verus!
