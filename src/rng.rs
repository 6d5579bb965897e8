use vstd::prelude::*;
use vstd::wrapping::u64_specs;

use crate::model::UNIT;

verus! {

/// Increment of the generator's state at each draw.
pub const GAMMA: u64 = 0x9e37_79b9_7f4a_7c15;

/// The SplitMix64 output function.
pub open spec fn mix(z: u64) -> u64 {
    let a = u64_specs::wrapping_mul(z ^ (z >> 30u64), 0xbf58_476d_1ce4_e5b9);
    let b = u64_specs::wrapping_mul(a ^ (a >> 27u64), 0x94d0_49bb_1331_11eb);
    b ^ (b >> 31u64)
}

/// The state after `k` draws from `state`.
pub open spec fn advance(state: u64, k: nat) -> u64
    decreases k,
{
    if k == 0 {
        state
    } else {
        u64_specs::wrapping_add(advance(state, (k - 1) as nat), GAMMA)
    }
}

/// The `k`-th draw (from zero) of `next_unit` from `state`.
pub open spec fn unit_draw(state: u64, k: nat) -> int {
    mix(advance(state, k + 1)) as int % (UNIT as int + 1)
}

/// A SplitMix64 generator: an explicit, seeded source of pseudo-random
/// numbers, so that runs can be replayed.
#[derive(Clone, Copy, Debug, PartialEq, Eq)]
pub struct Rng {
    pub state: u64,
}

impl Rng {
    pub fn new(seed: u64) -> (r: Rng)
        ensures
            r.state == seed,
    {
        Rng { state: seed }
    }

    /// The next 64-bit output.
    pub fn next_u64(&mut self) -> (r: u64)
        ensures
            final(self).state == u64_specs::wrapping_add(old(self).state, GAMMA),
            r == mix(final(self).state),
    {
        self.state = self.state.wrapping_add(GAMMA);
        let z = self.state;
        let a = (z ^ (z >> 30u64)).wrapping_mul(0xbf58_476d_1ce4_e5b9);
        let b = (a ^ (a >> 27u64)).wrapping_mul(0x94d0_49bb_1331_11eb);
        b ^ (b >> 31u64)
    }

    /// A draw from `0 ..= UNIT`, standing for a uniform draw from [0, 1].
    pub fn next_unit(&mut self) -> (r: i64)
        ensures
            final(self).state == u64_specs::wrapping_add(old(self).state, GAMMA),
            r as int == mix(final(self).state) as int % (UNIT as int + 1),
            0 <= r <= UNIT,
    {
        let x = self.next_u64();
        (x % (UNIT as u64 + 1)) as i64
    }
}

} // verus!
