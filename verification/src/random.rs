//! The random source of a walk. Its picks are a function of a seed and of
//! the number of picks made so far, so that a walk can be repeated.

use rand::rngs::StdRng;
use rand::{Rng, SeedableRng};
use vstd::bytes::{spec_u64_to_le_bytes, u64_to_le_bytes};
use vstd::prelude::*;

verus! {

/// What `pick_below` returns for a key and a bound: the number below
/// `bound` that the standard generator of the `rand` crate yields first when
/// it is made from the key. Which number that is belongs to the version of
/// `rand` that the crate is built with: the generator's algorithm may change
/// from one version to the next.
pub uninterp spec fn keyed_pick(key: Seq<u8>, bound: usize) -> usize;

/// Calls `StdRng::from_seed` and `Rng::gen_range` of the `rand` crate.
///
/// The generator is made from the 32 bytes of `key`, and one number is
/// drawn from it, uniformly from `0..bound`. The contract claims that the
/// number is below `bound`, and that it depends on nothing but the key and
/// the bound: the generator reads no other state. `gen_range` panics on an
/// empty range, so `bound` must not be zero.
#[verifier::external_body]
fn pick_below(key: &[u8; 32], bound: usize) -> (pick: usize)
    requires
        bound > 0,
    ensures
        pick < bound,
        pick == keyed_pick(key@, bound),
{
    StdRng::from_seed(*key).gen_range(0..bound as u64) as usize
}

/// Calls `rand::random` of the `rand` crate, which draws from the thread's
/// generator, seeded by the operating system. Nothing is claimed of the
/// number. The thread's generator panics where the operating system has no
/// seed to give.
#[verifier::external_body]
fn entropy_seed() -> u64 {
    rand::random::<u64>()
}

/// A source of picks for a walk.
#[derive(Clone, Copy, Debug, PartialEq, Eq, Structural)]
pub enum RandomSource {
    /// Uniform pseudo-random picks that depend on `seed` and on the number
    /// `drawn` of picks made so far.
    Seeded { seed: u64, drawn: u64 },
    /// Every pick is `index`, reduced modulo the bound: with `index` zero
    /// the first choice is always taken.
    Constant { index: usize },
}

/// The key of the generator for one pick: the seed, then the number of
/// earlier picks, both with the low byte first, then sixteen zeros.
pub open spec fn source_key(seed: u64, drawn: u64) -> Seq<u8> {
    spec_u64_to_le_bytes(seed) + spec_u64_to_le_bytes(drawn) + Seq::new(16, |i: int| 0u8)
}

/// The key of the generator for one pick.
fn key_of(seed: u64, drawn: u64) -> (key: [u8; 32])
    ensures
        key@ == source_key(seed, drawn),
{
    let low = u64_to_le_bytes(seed);
    let high = u64_to_le_bytes(drawn);
    let mut key: [u8; 32] = [0u8; 32];
    let mut i: usize = 0;
    while i < 8
        invariant
            i <= 8,
            low@ == spec_u64_to_le_bytes(seed),
            high@ == spec_u64_to_le_bytes(drawn),
            low@.len() == 8,
            high@.len() == 8,
            forall|j: int| 0 <= j < i ==> key@[j] == low@[j] && key@[8 + j] == high@[j],
            forall|j: int| 16 <= j < 32 ==> key@[j] == 0,
        decreases 8 - i,
    {
        key[i] = low[i];
        key[8 + i] = high[i];
        i += 1;
    }
    key
}

/// Sources that differ in the seed or in the number of picks made have
/// different keys.
pub proof fn lemma_keys_differ(seed: u64, drawn: u64, other_seed: u64, other_drawn: u64)
    requires
        source_key(seed, drawn) == source_key(other_seed, other_drawn),
    ensures
        seed == other_seed,
        drawn == other_drawn,
{
    vstd::bytes::lemma_auto_spec_u64_to_from_le_bytes();
    let key = source_key(seed, drawn);
    let other = source_key(other_seed, other_drawn);
    assert(key.subrange(0, 8) =~= spec_u64_to_le_bytes(seed));
    assert(other.subrange(0, 8) =~= spec_u64_to_le_bytes(other_seed));
    assert(key.subrange(8, 16) =~= spec_u64_to_le_bytes(drawn));
    assert(other.subrange(8, 16) =~= spec_u64_to_le_bytes(other_drawn));
}

impl RandomSource {
    /// The next pick below `bound`.
    pub open spec fn pick(self, bound: nat) -> nat {
        match self {
            RandomSource::Seeded { seed, drawn } => keyed_pick(
                source_key(seed, drawn),
                bound as usize,
            ) as nat,
            RandomSource::Constant { index } => (index as nat) % bound,
        }
    }

    /// The source after one pick.
    pub open spec fn after_pick(self) -> RandomSource {
        match self {
            RandomSource::Seeded { seed, drawn } => RandomSource::Seeded {
                seed,
                drawn: if drawn == u64::MAX {
                    0
                } else {
                    (drawn + 1) as u64
                },
            },
            RandomSource::Constant { index } => self,
        }
    }

    /// A pseudo-random source that starts from `seed`.
    pub fn seeded(seed: u64) -> (source: RandomSource)
        ensures
            source == (RandomSource::Seeded { seed, drawn: 0 }),
    {
        RandomSource::Seeded { seed, drawn: 0 }
    }

    /// A source whose every pick is `index` modulo the bound.
    pub fn constant(index: usize) -> (source: RandomSource)
        ensures
            source == (RandomSource::Constant { index }),
    {
        RandomSource::Constant { index }
    }

    /// A pseudo-random source with a seed from the operating system.
    pub fn from_entropy() -> (source: RandomSource)
        ensures
            source matches RandomSource::Seeded { drawn, .. } && drawn == 0,
    {
        RandomSource::Seeded { seed: entropy_seed(), drawn: 0 }
    }

    /// Picks a number below `bound`.
    pub fn uniform(&mut self, bound: usize) -> (pick: usize)
        requires
            bound > 0,
        ensures
            pick < bound,
            pick == old(self).pick(bound as nat),
            *final(self) == old(self).after_pick(),
    {
        match *self {
            RandomSource::Seeded { seed, drawn } => {
                let key = key_of(seed, drawn);
                let pick = pick_below(&key, bound);
                let next: u64 = if drawn == u64::MAX {
                    0
                } else {
                    drawn + 1
                };
                *self = RandomSource::Seeded { seed, drawn: next };
                pick
            },
            RandomSource::Constant { index } => index % bound,
        }
    }
}

} // verus!
