//! Seeds for the random source.

use crate::bindings::random::{entropy_rng, seeded_rng};
use rand::rngs::StdRng;
use std::collections::hash_map::DefaultHasher;
use std::hash::Hasher;
use vstd::prelude::*;
use vstd::std_specs::hash::DefaultHasherAdditionalSpecFns;
use vstd::string::StringSliceAdditionalSpecFns;

verus! {

/// The seed of a generator that is made while the system has no entropy
/// to give.
pub const FALLBACK_SEED: u64 = 0x5eed_5eed_5eed_5eed;

/// A generator seeded from the system's entropy; where the system gives
/// none, the generator of `FALLBACK_SEED`.
pub(crate) fn fresh_rng() -> StdRng {
    match entropy_rng() {
        Some(rng) => rng,
        None => seeded_rng(FALLBACK_SEED),
    }
}

/// What a text feeds into the hasher: its bytes, and one byte that marks
/// its end.
pub open spec fn seed_input(s: Seq<char>) -> Seq<Seq<u8>> {
    seq![vstd::utf8::encode_utf8(s), seq![0xffu8]]
}

/// The seed that a text stands for: what the default hasher makes of it.
pub fn string_to_seed(s: &str) -> (res: u64)
    ensures
        res == DefaultHasher::spec_finish(seed_input(s@)),
{
    let mut hasher = DefaultHasher::new();
    let bytes: &[u8] = s.as_bytes();
    hasher.write(bytes);
    let end: [u8; 1] = [0xff];
    let mark: &[u8] = end.as_slice();
    hasher.write(mark);
    proof {
        assert(bytes@ == vstd::utf8::encode_utf8(s@));
        assert(mark@ =~= seq![0xffu8]);
        assert(hasher@ =~= seed_input(s@));
    }
    hasher.finish()
}

} // verus!
