//! Sources of randomness.
use vstd::prelude::*;

verus! {

/// A source of uniformly random words.
///
/// Nothing is known of the values it returns: every function that draws
/// from it states only what holds of every outcome.
pub trait RandomSource {
    /// The next random `u32`.
    fn next_u32(&mut self) -> u32;

    /// The next random `u64`.
    fn next_u64(&mut self) -> u64;
}

#[verifier::external_type_specification]
#[verifier::external_body]
pub struct ExOsRng(rand_core::OsRng);

#[verifier::external_type_specification]
#[verifier::external_body]
pub struct ExChaCha20Rng(rand_chacha::ChaCha20Rng);

/// Draws a word from the operating system through
/// `rand_core::RngCore::next_u32` on `OsRng`; nothing is promised of its value.
#[verifier::external_body]
fn os_next_u32(rng: &mut rand_core::OsRng) -> u32 {
    rand_core::RngCore::next_u32(rng)
}

/// Draws a word from the operating system through
/// `rand_core::RngCore::next_u64` on `OsRng`; nothing is promised of its value.
#[verifier::external_body]
fn os_next_u64(rng: &mut rand_core::OsRng) -> u64 {
    rand_core::RngCore::next_u64(rng)
}

/// Draws a word through `rand_core::RngCore::next_u32` on `ChaCha20Rng`;
/// nothing is promised of its value.
#[verifier::external_body]
fn chacha_next_u32(rng: &mut rand_chacha::ChaCha20Rng) -> u32 {
    rand_core::RngCore::next_u32(rng)
}

/// Draws a word through `rand_core::RngCore::next_u64` on `ChaCha20Rng`;
/// nothing is promised of its value.
#[verifier::external_body]
fn chacha_next_u64(rng: &mut rand_chacha::ChaCha20Rng) -> u64 {
    rand_core::RngCore::next_u64(rng)
}

/// The operating system's generator.
impl RandomSource for rand_core::OsRng {
    fn next_u32(&mut self) -> u32 {
        os_next_u32(self)
    }

    fn next_u64(&mut self) -> u64 {
        os_next_u64(self)
    }
}

/// The ChaCha20 stream generator, which may be seeded for reproducible runs.
impl RandomSource for rand_chacha::ChaCha20Rng {
    fn next_u32(&mut self) -> u32 {
        chacha_next_u32(self)
    }

    fn next_u64(&mut self) -> u64 {
        chacha_next_u64(self)
    }
}


/// A random source together with the words drawn through it so far, in
/// order. The record is kept by this type alone: a function handed a
/// `Recorder` can draw words, but cannot change what was recorded.
pub struct Recorder<'a, R: RandomSource> {
    rng: &'a mut R,
    words64: Ghost<Seq<u64>>,
    words32: Ghost<Seq<u32>>,
}

impl<'a, R: RandomSource> Recorder<'a, R> {
    /// The `u64` words drawn so far.
    pub closed spec fn log64(&self) -> Seq<u64> {
        self.words64@
    }

    /// The `u32` words drawn so far.
    pub closed spec fn log32(&self) -> Seq<u32> {
        self.words32@
    }

    /// Starts recording the words drawn from `rng`.
    pub fn new(rng: &'a mut R) -> (r: Self)
        ensures
            r.log64() == Seq::<u64>::empty(),
            r.log32() == Seq::<u32>::empty(),
    {
        Recorder { rng, words64: Ghost(Seq::empty()), words32: Ghost(Seq::empty()) }
    }

    /// Draws the next `u64` word and records it.
    pub fn next_u64(&mut self) -> (r: u64)
        ensures
            final(self).log64() == old(self).log64().push(r),
            final(self).log32() == old(self).log32(),
    {
        let w = self.rng.next_u64();
        self.words64 = Ghost(self.words64@.push(w));
        w
    }

    /// Draws the next `u32` word and records it.
    pub fn next_u32(&mut self) -> (r: u32)
        ensures
            final(self).log32() == old(self).log32().push(r),
            final(self).log64() == old(self).log64(),
    {
        let w = self.rng.next_u32();
        self.words32 = Ghost(self.words32@.push(w));
        w
    }
}

} // verus!
