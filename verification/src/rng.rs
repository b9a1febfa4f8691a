//! SplitMix64: the small deterministic generator behind reproducible scene
//! scatters, so runs are reproducible without a random-number dependency.
use vstd::prelude::*;

verus! {

/// The SplitMix64 increment.
pub const GOLDEN_GAMMA: u64 = 0x9E37_79B9_7F4A_7C15;

/// The output mixing of SplitMix64 applied to an advanced state.
pub open spec fn spec_mix64(s: u64) -> u64 {
    let z1 = (s ^ (s >> 30u64)).wrapping_mul(0xBF58_476D_1CE4_E5B9u64);
    let z2 = (z1 ^ (z1 >> 27u64)).wrapping_mul(0x94D0_49BB_1331_11EBu64);
    z2 ^ (z2 >> 31u64)
}

/// One SplitMix64 step: the advanced state, and the output drawn from it.
pub fn splitmix64(state: u64) -> (r: (u64, u64))
    ensures
        r.0 == state.wrapping_add(GOLDEN_GAMMA),
        r.1 == spec_mix64(r.0),
{
    let s = state.wrapping_add(GOLDEN_GAMMA);
    let mut z = s;
    z = (z ^ (z >> 30u64)).wrapping_mul(0xBF58_476D_1CE4_E5B9u64);
    z = (z ^ (z >> 27u64)).wrapping_mul(0x94D0_49BB_1331_11EBu64);
    (s, z ^ (z >> 31u64))
}

} // verus!
