//! The calls this library makes into outside crates.

use vstd::prelude::*;
use smol_str::SmolStr;
use rand::rngs::StdRng;
use rand::SeedableRng;
use rand::prelude::IndexedRandom;

verus! {

#[verifier::external_type_specification]
#[verifier::external_body]
pub struct ExSmolStr(SmolStr);

/// Relies on `SmolStr::clone`: a clone is the same string (an inline copy,
/// the same static reference, or the same shared allocation).
pub assume_specification[ <SmolStr as Clone>::clone ](s: &SmolStr) -> (r: SmolStr)
    ensures
        r == *s,
;

#[verifier::external_type_specification]
#[verifier::external_body]
pub struct ExStdRng(StdRng);

/// Relies on `StdRng::seed_from_u64`: a generator seeded from the value.
#[verifier::external_body]
pub(crate) fn seeded_rng(seed: u64) -> (r: StdRng) {
    StdRng::seed_from_u64(seed)
}

/// Relies on `IndexedRandom::choose`: on a non-empty slice it returns one of
/// its elements.
#[verifier::external_body]
pub(crate) fn choose_one(options: &Vec<usize>, rng: &mut StdRng) -> (r: usize)
    requires
        options@.len() > 0,
    ensures
        options@.contains(r),
{
    *options.choose(rng).unwrap()
}

} // verus!
