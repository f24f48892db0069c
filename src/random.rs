//! Randomness: an AES-CTR generator from `concrete-csprng`, and the samplers built on it.

use concrete_csprng::generators::{RandomGenerator, SoftwareRandomGenerator};
use concrete_csprng::seeders::Seed;
use vstd::prelude::*;

verus! {

#[verifier::external_type_specification]
#[verifier::external_body]
pub struct ExSoftwareRandomGenerator(SoftwareRandomGenerator);

/// Relies on `concrete_csprng`'s `SoftwareRandomGenerator::new`: an AES-CTR generator keyed
/// by the seed.
#[verifier::external_body]
fn generator_from_seed(seed: u128) -> (r: SoftwareRandomGenerator) {
    SoftwareRandomGenerator::new(Seed(seed))
}

/// Relies on `concrete_csprng`'s `SoftwareRandomGenerator::next`: the next byte of the
/// stream, or `None` once the generator reached its bound.
#[verifier::external_body]
fn generator_next(g: &mut SoftwareRandomGenerator) -> (r: Option<u8>) {
    g.next()
}

/// A cryptographically secure stream of random bytes.
pub struct CsRng {
    generator: SoftwareRandomGenerator,
}

/// Largest magnitude of a noise sample for standard deviation `std_dev`.
pub open spec fn noise_bound(std_dev: int) -> int {
    32 * (std_dev / 4)
}

/// Largest accepted standard deviation (scaled by 2^32): 2^26.
pub const MAX_STD_DEV: u64 = 0x400_0000;

/// Noise samples for an accepted standard deviation stay within `2^29`.
pub proof fn lemma_noise_bound(std_dev: int)
    requires
        0 <= std_dev <= MAX_STD_DEV,
    ensures
        0 <= noise_bound(std_dev) <= 0x2000_0000,
{
    assert(std_dev / 4 <= 0x100_0000);
}

/// The number of set bits of a byte.
fn popcount(b: u8) -> (r: u32)
    ensures
        r <= 8,
{
    let mut x: u8 = b;
    let mut count: u32 = 0;
    let mut i: u32 = 0;
    while i < 8
        invariant
            i <= 8,
            count <= i,
        decreases 8 - i,
    {
        count = count + (x % 2) as u32;
        x = x / 2;
        i = i + 1;
    }
    count
}

impl CsRng {
    /// A generator seeded by `seed`: the same seed gives the same stream.
    pub fn new(seed: u128) -> (r: CsRng) {
        CsRng { generator: generator_from_seed(seed) }
    }

    /// The next random byte, or `None` once the stream is exhausted.
    pub fn next_u8(&mut self) -> (r: Option<u8>) {
        generator_next(&mut self.generator)
    }

    /// The next random word, from four bytes in little-endian order.
    pub fn next_u32(&mut self) -> (r: Option<u32>) {
        let mut v: u32 = 0;
        let mut i: u32 = 0;
        while i < 4
            invariant
                i <= 4,
            decreases 4 - i,
        {
            match self.next_u8() {
                Some(b) => {
                    v = v.wrapping_mul(256).wrapping_add(b as u32);
                },
                None => {
                    return None;
                },
            }
            i = i + 1;
        }
        Some(v)
    }

    /// The next random seed, from sixteen bytes.
    pub fn next_seed(&mut self) -> (r: Option<u128>) {
        let mut v: u128 = 0;
        let mut i: u32 = 0;
        while i < 16
            invariant
                i <= 16,
            decreases 16 - i,
        {
            match self.next_u8() {
                Some(b) => {
                    v = v.wrapping_mul(256).wrapping_add(b as u128);
                },
                None => {
                    return None;
                },
            }
            i = i + 1;
        }
        Some(v)
    }

    /// A random bit.
    pub fn next_bit(&mut self) -> (r: Option<u32>)
        ensures
            r matches Some(b) ==> b <= 1,
    {
        match self.next_u8() {
            Some(b) => Some((b % 2) as u32),
            None => None,
        }
    }

    /// A centred binomial noise sample of standard deviation about `std_dev`: the number of
    /// set bits among 64 random bits, less 32, times `std_dev / 4`.
    pub fn noise(&mut self, std_dev: u64) -> (r: Option<i64>)
        requires
            std_dev <= MAX_STD_DEV,
        ensures
            r matches Some(e) ==> -noise_bound(std_dev as int) <= e <= noise_bound(
                std_dev as int,
            ),
    {
        let mut count: u32 = 0;
        let mut i: u32 = 0;
        while i < 8
            invariant
                i <= 8,
                count <= 8 * i,
            decreases 8 - i,
        {
            match self.next_u8() {
                Some(b) => {
                    count = count + popcount(b);
                },
                None => {
                    return None;
                },
            }
            i = i + 1;
        }
        let scale: i64 = (std_dev / 4) as i64;
        let centred: i64 = count as i64 - 32;
        proof {
            assert(-32 * scale <= centred * scale <= 32 * scale) by (nonlinear_arith)
                requires -32 <= centred <= 32, scale >= 0;
        }
        Some(centred * scale)
    }
}

} // verus!
