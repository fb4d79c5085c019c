//! The random source of the playouts: the generator of the running thread,
//! or a generator made from a seed, which repeats its choices.
use rand::rngs::{StdRng, ThreadRng};
use rand::{Rng, SeedableRng};
use vstd::prelude::*;

verus! {

/// `rand::rngs::ThreadRng`, the handle of the generator of a thread. Nothing
/// is known of what it holds.
#[verifier::external_type_specification]
#[verifier::external_body]
pub struct ExThreadRng(ThreadRng);

/// `rand::rngs::StdRng`, the standard generator of the `rand` crate. Nothing
/// is known of what it holds.
#[verifier::external_type_specification]
#[verifier::external_body]
pub struct ExStdRng(StdRng);

/// Where the random choices come from.
pub enum RandomSource {
    /// The generator of the running thread, seeded by the system.
    Thread(ThreadRng),
    /// A generator made from a seed: the same seed gives the same choices.
    Seeded(StdRng),
}

/// `rand::thread_rng` hands out the generator of the running thread. Nothing
/// is claimed of it.
#[verifier::external_body]
fn thread_generator() -> ThreadRng {
    rand::thread_rng()
}

/// The generator that `SeedableRng::seed_from_u64` makes of a seed, in the
/// state in which it is made. The seed alone decides it.
pub uninterp spec fn seeded_from(seed: u64) -> StdRng;

/// `SeedableRng::seed_from_u64` makes a `StdRng` from a seed: it spreads the
/// seed over the key of the generator by a fixed rule and reads nothing else,
/// so that the same seed gives a generator in the same state.
#[verifier::external_body]
fn seeded_generator(seed: u64) -> (generator: StdRng)
    ensures
        generator == seeded_from(seed),
{
    StdRng::seed_from_u64(seed)
}

/// `Rng::gen_range` of the generator of a thread, on the range `0..len`,
/// which must not be empty: it returns a value of that range.
#[verifier::external_body]
fn thread_below(generator: &mut ThreadRng, len: usize) -> (index: usize)
    requires
        len > 0,
    ensures
        index < len,
{
    generator.gen_range(0..len)
}

/// `Rng::gen_range` of a seeded generator, on the range `0..len`, which must
/// not be empty: it returns a value of that range.
#[verifier::external_body]
fn seeded_below(generator: &mut StdRng, len: usize) -> (index: usize)
    requires
        len > 0,
    ensures
        index < len,
{
    generator.gen_range(0..len)
}

impl RandomSource {
    /// The generator of the running thread.
    pub fn thread() -> (source: Self)
        ensures
            source is Thread,
    {
        RandomSource::Thread(thread_generator())
    }

    /// A generator that repeats its choices whenever it is made from the
    /// same `seed`: the source holds the generator that the seed makes, in
    /// the state in which it is made.
    pub fn seeded(seed: u64) -> (source: Self)
        ensures
            source matches RandomSource::Seeded(generator) && generator == seeded_from(seed),
    {
        RandomSource::Seeded(seeded_generator(seed))
    }

    /// A random index into a collection of `len` items, or `None` for an
    /// empty one.
    pub fn below(&mut self, len: usize) -> (index: Option<usize>)
        ensures
            len == 0 ==> index is None,
            len > 0 ==> index is Some && index->0 < len,
            (*old(self) is Thread) == (*final(self) is Thread),
    {
        if len == 0 {
            return None;
        }
        match self {
            RandomSource::Thread(generator) => Some(thread_below(generator, len)),
            RandomSource::Seeded(generator) => Some(seeded_below(generator, len)),
        }
    }
}

} // verus!
