//! Deterministic pseudo-random streams for world generation.
//!
//! There is no global state: every stream is derived from the world seed
//! and the coordinates it serves, so a chunk gets the same content whatever
//! the order or the thread in which it is generated.

use vstd::prelude::*;

verus! {

/// Increment of the SplitMix64 state at each draw.
pub const GOLDEN_GAMMA: u64 = 0x9E3779B97F4A7C15;

/// The SplitMix64 output function applied to a state.
pub open spec fn splitmix_out(s: u64) -> u64 {
    let z1 = (s ^ (s >> 30u64)).wrapping_mul(0xBF58476D1CE4E5B9u64);
    let z2 = (z1 ^ (z1 >> 27u64)).wrapping_mul(0x94D049BB133111EBu64);
    z2 ^ (z2 >> 31u64)
}

/// SplitMix64 generator: fast, reproducible, good enough for terrain.
pub struct Rng {
    state: u64,
}

impl View for Rng {
    type V = u64;

    closed spec fn view(&self) -> u64 {
        self.state
    }
}

impl Rng {
    /// A stream whose state is the seed.
    pub fn new(seed: u64) -> (r: Self)
        ensures
            r@ == seed,
    {
        Rng { state: seed }
    }

    /// Advances the state by the golden gamma and returns its mix.
    pub fn next_u64(&mut self) -> (v: u64)
        ensures
            final(self)@ == old(self)@.wrapping_add(GOLDEN_GAMMA),
            v == splitmix_out(final(self)@),
    {
        self.state = self.state.wrapping_add(GOLDEN_GAMMA);
        let z = self.state;
        let z = (z ^ (z >> 30u64)).wrapping_mul(0xBF58476D1CE4E5B9u64);
        let z = (z ^ (z >> 27u64)).wrapping_mul(0x94D049BB133111EBu64);
        z ^ (z >> 31u64)
    }

    /// Integer in `[min, max]`, both included: `min` plus the next draw
    /// modulo the width of the range. An empty or one-value range gives
    /// `min` and draws nothing.
    pub fn range_i32(&mut self, min: i32, max: i32) -> (r: i32)
        requires
            max <= min || max - min + 1 <= i32::MAX,
        ensures
            max <= min ==> r == min && final(self)@ == old(self)@,
            min < max ==> final(self)@ == old(self)@.wrapping_add(GOLDEN_GAMMA) && r == min
                + splitmix_out(final(self)@) as int % (max - min + 1),
            max <= min ==> r == min,
            min < max ==> min <= r <= max,
    {
        if max <= min {
            return min;
        }
        let width: i32 = max - min + 1;
        let draw = self.next_u64();
        let off: u64 = draw % (width as u64);
        min + off as i32
    }
}

/// The mixing function behind the coordinate hashes.
pub open spec fn combined(a: u64, b: u64, c: u64) -> u64 {
    let h1 = a ^ b.wrapping_mul(0xFF51AFD7ED558CCDu64);
    let h2 = h1 ^ c.wrapping_mul(0xC4CEB9FE1A85EC53u64);
    let h3 = h2 ^ (h2 >> 33u64);
    let h4 = h3.wrapping_mul(0xFF51AFD7ED558CCDu64);
    let h5 = h4 ^ (h4 >> 29u64);
    let h6 = h5.wrapping_mul(0xC2B2AE3D27D4EB4Fu64);
    h6 ^ (h6 >> 32u64)
}

/// Seed of the stream of column (x, z) for a given salt.
pub open spec fn coords_hash(seed: u64, x: i32, z: i32, salt: u64) -> u64 {
    combined(seed, (x as i64) as u64, salt).wrapping_add(
        combined(0x9E3779B9u64, (z as i64) as u64, salt << 1u64),
    )
}

/// Seed of the stream of block (x, y, z) for a given salt.
pub open spec fn coords_hash3(seed: u64, x: i32, y: i32, z: i32, salt: u64) -> u64 {
    coords_hash(seed ^ combined(salt, y as u64, 0x51ED2701u64), x, z, salt)
}

fn hash_combine(a: u64, b: u64, c: u64) -> (h: u64)
    ensures
        h == combined(a, b, c),
{
    let mut h = a ^ b.wrapping_mul(0xFF51AFD7ED558CCDu64);
    h = h ^ c.wrapping_mul(0xC4CEB9FE1A85EC53u64);
    h = h ^ (h >> 33u64);
    h = h.wrapping_mul(0xFF51AFD7ED558CCDu64);
    h = h ^ (h >> 29u64);
    h = h.wrapping_mul(0xC2B2AE3D27D4EB4Fu64);
    h ^ (h >> 32u64)
}

/// Deterministic hash of a column and a salt, used to seed a stream: two
/// columns get independent streams and a column always gets the same one.
pub fn hash_coords(seed: u64, x: i32, z: i32, salt: u64) -> (h: u64)
    ensures
        h == coords_hash(seed, x, z, salt),
{
    let xs: i64 = x as i64;
    let zs: i64 = z as i64;
    hash_combine(seed, xs as u64, salt).wrapping_add(hash_combine(0x9E3779B9u64, zs as u64, salt << 1u64))
}

/// Deterministic hash of a block position and a salt.
pub fn hash3(seed: u64, x: i32, y: i32, z: i32, salt: u64) -> (h: u64)
    ensures
        h == coords_hash3(seed, x, y, z, salt),
{
    hash_coords(seed ^ hash_combine(salt, y as u64, 0x51ED2701u64), x, z, salt)
}

} // verus!
