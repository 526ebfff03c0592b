//! A seeded stream, so a divergence can be replayed: `SplitMix64`.

use vstd::prelude::*;

verus! {

/// The SplitMix64 increment.
pub const GOLDEN: u64 = 0x9E37_79B9_7F4A_7C15;

/// The state after one draw.
pub open spec fn advanced(state: u64) -> u64 {
    state.wrapping_add(GOLDEN)
}

/// The output SplitMix64 derives from a state.
pub open spec fn mixed(z: u64) -> u64 {
    let z1 = (z ^ (z >> 30u64)).wrapping_mul(0xBF58_476D_1CE4_E5B9u64);
    let z2 = (z1 ^ (z1 >> 27u64)).wrapping_mul(0x94D0_49BB_1331_11EBu64);
    z2 ^ (z2 >> 31u64)
}

/// The state after `below(bound)`: a zero bound draws nothing.
pub open spec fn below_state(state: u64, bound: u32) -> u64 {
    if bound == 0 { state } else { advanced(state) }
}

/// The value of `below(bound)`.
pub open spec fn below_value(state: u64, bound: u32) -> u32 {
    if bound == 0 { 0 } else { (mixed(advanced(state)) % (bound as u64)) as u32 }
}

/// The seed a clock reading gives: nanoseconds since the epoch, wrapping, or a
/// fixed seed when the clock stands before the epoch.
pub open spec fn seed_of(reading: Option<(u64, u32)>) -> u64 {
    match reading {
        Some((seconds, nanos)) => seconds.wrapping_mul(1_000_000_000u64).wrapping_add(nanos as u64),
        None => 0x2026_0922,
    }
}

pub struct Rng {
    state: u64,
}

impl View for Rng {
    type V = u64;

    closed spec fn view(&self) -> u64 {
        self.state
    }
}

impl Rng {
    pub fn from_seed(seed: u64) -> (r: Self)
        ensures
            r@ == seed,
    {
        Self { state: seed }
    }

    /// A seed nobody chose, for the run whose job is to explore rather than to
    /// reproduce.
    pub fn seed_from_the_clock() -> (seed: u64) {
        Self::seed_from_reading(clock_reading())
    }

    /// The seed a reading of the clock gives.
    pub fn seed_from_reading(reading: Option<(u64, u32)>) -> (seed: u64)
        ensures
            seed == seed_of(reading),
    {
        match reading {
            Some((seconds, nanos)) => seconds.wrapping_mul(1_000_000_000).wrapping_add(nanos as u64),
            None => 0x2026_0922,
        }
    }

    fn next(&mut self) -> (r: u64)
        ensures
            final(self)@ == advanced(old(self)@),
            r == mixed(advanced(old(self)@)),
    {
        self.state = self.state.wrapping_add(GOLDEN);
        let mut z = self.state;
        z = (z ^ (z >> 30)).wrapping_mul(0xBF58_476D_1CE4_E5B9);
        z = (z ^ (z >> 27)).wrapping_mul(0x94D0_49BB_1331_11EB);
        z ^ (z >> 31)
    }

    /// Uniform over `0..bound`. Zero when the bound is zero, so a caller need
    /// not special-case an empty range.
    pub fn below(&mut self, bound: u32) -> (r: u32)
        ensures
            final(self)@ == below_state(old(self)@, bound),
            r == below_value(old(self)@, bound),
            bound > 0 ==> r < bound,
            bound == 0 ==> r == 0,
    {
        if bound == 0 {
            return 0;
        }
        let drawn = self.next() % (bound as u64);
        drawn as u32
    }

    /// True one time in `in_this_many`.
    pub fn chance(&mut self, in_this_many: u32) -> (r: bool)
        ensures
            final(self)@ == below_state(old(self)@, in_this_many),
            r == (below_value(old(self)@, in_this_many) == 0),
    {
        self.below(in_this_many) == 0
    }

    /// One element, drawn uniformly.
    pub fn pick<'a, T>(&mut self, from: &'a [T]) -> (r: &'a T)
        requires
            from@.len() > 0,
        ensures
            final(self)@ == below_state(old(self)@, pick_bound(from@.len())),
            *r == from@[below_value(old(self)@, pick_bound(from@.len())) as int],
    {
        let length: u32 = if from.len() <= u32::MAX as usize { from.len() as u32 } else { u32::MAX };
        let at = self.below(length);
        &from[at as usize]
    }
}

/// The bound `pick` draws below: the length, saturated to what a `u32` holds.
pub open spec fn pick_bound(len: nat) -> u32 {
    if len <= u32::MAX { len as u32 } else { u32::MAX }
}

/// The time since the Unix epoch, as whole seconds and the nanoseconds past
/// them, or nothing when the clock stands before the epoch.
///
/// Wraps `SystemTime::now().duration_since(UNIX_EPOCH)`. Of the reading, which
/// is the time, only what `Duration::subsec_nanos` documents is claimed: the
/// nanoseconds are fewer than a second's worth.
#[verifier::external_body]
fn clock_reading() -> (r: Option<(u64, u32)>)
    ensures
        r matches Some((_, nanos)) ==> nanos < 1_000_000_000,
{
    std::time::SystemTime::now()
        .duration_since(std::time::UNIX_EPOCH)
        .ok()
        .map(|since| (since.as_secs(), since.subsec_nanos()))
}

} // verus!
