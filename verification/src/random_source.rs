//! The random source behind the payload endpoints: either the thread-local
//! generator of `rand`, or a `StdRng` seeded once, for reproducible runs.
use vstd::prelude::*;

use rand::rngs::StdRng;
use rand::Rng;
use rand::SeedableRng;

verus! {

/// One call made on a seeded generator: `(0, min, max)` for a `u64` drawn
/// from `min..=max`, `(1, min, max)` for a `usize` drawn from `min..=max`,
/// `(2, len, 0)` for `len` bytes filled.
pub type Draw = (u8, int, int);

/// A `StdRng` of `rand`, seeded once. Verus does not see inside it: its seed
/// and the calls made on it since are named by `rng_seed` and `rng_draws`.
#[verifier::external_body]
pub struct SeededRng {
    rng: StdRng,
}

/// The seed a generator was made from.
pub uninterp spec fn rng_seed(r: SeededRng) -> u64;

/// The calls made on a generator since it was seeded, in order.
pub uninterp spec fn rng_draws(r: SeededRng) -> Seq<Draw>;

/// `Rng::random_range` over `min..=max` with `u64`, on a `StdRng` seeded with
/// `seed` after the calls `draws`: a function of these alone.
pub uninterp spec fn seeded_u64(seed: u64, draws: Seq<Draw>, min: u64, max: u64) -> u64;

/// `Rng::random_range` over `min..=max` with `usize`, on a `StdRng` seeded
/// with `seed` after the calls `draws`.
pub uninterp spec fn seeded_usize(seed: u64, draws: Seq<Draw>, min: usize, max: usize) -> usize;

/// `Rng::fill` of `len` bytes, on a `StdRng` seeded with `seed` after the
/// calls `draws`: the bytes written (every byte is overwritten).
pub uninterp spec fn seeded_bytes(seed: u64, draws: Seq<Draw>, len: nat) -> Seq<u8>;

/// `StdRng::seed_from_u64`: a generator seeded with `seed`, no call made yet.
#[verifier::external_body]
fn std_rng_from_seed(seed: u64) -> (r: SeededRng)
    ensures
        rng_seed(r) == seed,
        rng_draws(r) == Seq::<Draw>::empty(),
{
    SeededRng { rng: StdRng::seed_from_u64(seed) }
}

/// `Rng::random_range` on a `StdRng`, over `min..=max` with `u64`; the crate
/// panics on an empty range, so `min <= max` is required. The value is the one
/// that the seed and the earlier calls determine, and the call is logged.
#[verifier::external_body]
fn std_rng_u64_in(rng: &mut SeededRng, min: u64, max: u64) -> (r: u64)
    requires
        min <= max,
    ensures
        min <= r <= max,
        r == seeded_u64(rng_seed(*old(rng)), rng_draws(*old(rng)), min, max),
        rng_seed(*final(rng)) == rng_seed(*old(rng)),
        rng_draws(*final(rng)) == rng_draws(*old(rng)).push((0u8, min as int, max as int)),
{
    rng.rng.random_range(min..=max)
}

/// `Rng::random_range` on a `StdRng`, over `min..=max` with `usize`; as for
/// `std_rng_u64_in`.
#[verifier::external_body]
fn std_rng_usize_in(rng: &mut SeededRng, min: usize, max: usize) -> (r: usize)
    requires
        min <= max,
    ensures
        min <= r <= max,
        r == seeded_usize(rng_seed(*old(rng)), rng_draws(*old(rng)), min, max),
        rng_seed(*final(rng)) == rng_seed(*old(rng)),
        rng_draws(*final(rng)) == rng_draws(*old(rng)).push((1u8, min as int, max as int)),
{
    rng.rng.random_range(min..=max)
}

/// `Rng::fill` on a `StdRng` over a byte slice: every byte is overwritten
/// with the bytes that the seed and the earlier calls determine; the call is
/// logged with the slice's length.
#[verifier::external_body]
fn std_rng_fill(rng: &mut SeededRng, bytes: &mut [u8])
    ensures
        final(bytes)@ == seeded_bytes(rng_seed(*old(rng)), rng_draws(*old(rng)), old(bytes)@.len()),
        final(bytes)@.len() == old(bytes)@.len(),
        rng_seed(*final(rng)) == rng_seed(*old(rng)),
        rng_draws(*final(rng)) == rng_draws(*old(rng)).push((2u8, old(bytes)@.len() as int, 0int)),
{
    rng.rng.fill(bytes)
}

/// `Rng::random_range` on `rand::rng()`, the thread-local generator, over
/// `min..=max` with `u64`; `min <= max` is required as the crate panics
/// otherwise. The value drawn is not stated beyond its range: it rests on
/// entropy from the system.
#[verifier::external_body]
fn thread_rng_u64_in(min: u64, max: u64) -> (r: u64)
    requires
        min <= max,
    ensures
        min <= r <= max,
{
    rand::rng().random_range(min..=max)
}

/// `Rng::random_range` on `rand::rng()` over `min..=max` with `usize`; as for
/// `thread_rng_u64_in`.
#[verifier::external_body]
fn thread_rng_usize_in(min: usize, max: usize) -> (r: usize)
    requires
        min <= max,
    ensures
        min <= r <= max,
{
    rand::rng().random_range(min..=max)
}

/// `Rng::fill` on `rand::rng()` over a byte slice: keeps the length; the
/// bytes written rest on entropy from the system and are not stated.
#[verifier::external_body]
fn thread_rng_fill(bytes: &mut [u8])
    ensures
        final(bytes)@.len() == old(bytes)@.len(),
{
    rand::rng().fill(bytes)
}

enum RandomSourceInner {
    ThreadLocal,
    Seeded(SeededRng),
}

/// Where the random numbers of the server come from.
pub struct RandomSource {
    inner: RandomSourceInner,
}

impl RandomSource {
    /// Whether this source draws from a generator seeded at creation.
    pub closed spec fn is_seeded(&self) -> bool {
        self.inner is Seeded
    }

    /// The seed of a seeded source.
    pub closed spec fn seed(&self) -> u64 {
        match self.inner {
            RandomSourceInner::Seeded(r) => rng_seed(r),
            RandomSourceInner::ThreadLocal => 0,
        }
    }

    /// The calls made on a seeded source since it was seeded.
    pub closed spec fn draws(&self) -> Seq<Draw> {
        match self.inner {
            RandomSourceInner::Seeded(r) => rng_draws(r),
            RandomSourceInner::ThreadLocal => Seq::empty(),
        }
    }

    /// A seeded generator for `Some(seed)`, the thread-local one for `None`.
    pub fn new(seed: Option<u64>) -> (r: Self)
        ensures
            r.is_seeded() <==> seed is Some,
            seed matches Some(s) ==> r.seed() == s,
            r.draws() == Seq::<Draw>::empty(),
    {
        let inner = match seed {
            Some(value) => RandomSourceInner::Seeded(std_rng_from_seed(value)),
            None => RandomSourceInner::ThreadLocal,
        };
        RandomSource { inner }
    }

    /// A value drawn from `min..=max`; from a seeded source, the one that its
    /// seed and its earlier calls determine.
    pub fn gen_u64_inclusive(&mut self, min: u64, max: u64) -> (r: u64)
        requires
            min <= max,
        ensures
            min <= r <= max,
            final(self).is_seeded() == old(self).is_seeded(),
            final(self).seed() == old(self).seed(),
            old(self).is_seeded() ==> r == seeded_u64(old(self).seed(), old(self).draws(), min, max)
                && final(self).draws() == old(self).draws().push((0u8, min as int, max as int)),
    {
        match &mut self.inner {
            RandomSourceInner::ThreadLocal => thread_rng_u64_in(min, max),
            RandomSourceInner::Seeded(rng) => std_rng_u64_in(rng, min, max),
        }
    }

    /// A value drawn from `min..=max`; from a seeded source, the one that its
    /// seed and its earlier calls determine.
    pub fn gen_usize_inclusive(&mut self, min: usize, max: usize) -> (r: usize)
        requires
            min <= max,
        ensures
            min <= r <= max,
            final(self).is_seeded() == old(self).is_seeded(),
            final(self).seed() == old(self).seed(),
            old(self).is_seeded() ==> r == seeded_usize(old(self).seed(), old(self).draws(), min, max)
                && final(self).draws() == old(self).draws().push((1u8, min as int, max as int)),
    {
        match &mut self.inner {
            RandomSourceInner::ThreadLocal => thread_rng_usize_in(min, max),
            RandomSourceInner::Seeded(rng) => std_rng_usize_in(rng, min, max),
        }
    }

    /// Overwrites `bytes` with random data; its length stays. From a seeded
    /// source, the bytes are the ones that its seed and its earlier calls
    /// determine, whatever `bytes` held.
    pub fn fill_bytes(&mut self, bytes: &mut [u8])
        ensures
            final(bytes)@.len() == old(bytes)@.len(),
            final(self).is_seeded() == old(self).is_seeded(),
            final(self).seed() == old(self).seed(),
            old(self).is_seeded() ==> final(bytes)@ == seeded_bytes(
                old(self).seed(),
                old(self).draws(),
                old(bytes)@.len(),
            ) && final(self).draws() == old(self).draws().push(
                (2u8, old(bytes)@.len() as int, 0int),
            ),
    {
        match &mut self.inner {
            RandomSourceInner::ThreadLocal => thread_rng_fill(bytes),
            RandomSourceInner::Seeded(rng) => std_rng_fill(rng, bytes),
        }
    }
}

} // verus!
