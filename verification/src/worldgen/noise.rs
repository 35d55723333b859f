//! Permutation tables of the noise generators and their lattice hashes.
//!
//! Each generator owns a table of 512 bytes: a permutation of 0..256 drawn
//! from the world's stream by a Fisher-Yates shuffle, written twice. The
//! interpolation between lattice points works on floating point numbers
//! and lives outside this library; the integer hashing of the lattice
//! points that selects gradients and values is here.

use vstd::prelude::*;
use crate::worldgen::rng::{splitmix_out, Rng, GOLDEN_GAMMA};

verus! {

/// State of a stream after `n` more draws.
pub open spec fn advance(state: u64, n: nat) -> u64
    decreases n,
{
    if n == 0 {
        state
    } else {
        advance(state, (n - 1) as nat).wrapping_add(GOLDEN_GAMMA)
    }
}

/// `p` with the entries at `i` and `j` exchanged.
pub open spec fn swap_at(p: Seq<u8>, i: int, j: int) -> Seq<u8> {
    p.update(i, p[j]).update(j, p[i])
}

/// The Fisher-Yates steps `i`, `i - 1`, ..., 1 applied to `p`, the stream
/// being in state `state` before step `i`: step `k` draws a value `d` and
/// exchanges entries `k` and `d mod (k + 1)`.
pub open spec fn shuffle_from(p: Seq<u8>, state: u64, i: int) -> Seq<u8>
    decreases i,
{
    if i < 1 {
        p
    } else {
        let next = state.wrapping_add(GOLDEN_GAMMA);
        let j = splitmix_out(next) as int % (i + 1);
        shuffle_from(swap_at(p, i, j), next, i - 1)
    }
}

/// The bytes 0, 1, ..., 255 in order.
pub open spec fn identity_table() -> Seq<u8> {
    Seq::new(256, |i: int| i as u8)
}

/// The permutation drawn by a stream in state `state`.
pub open spec fn shuffled(state: u64) -> Seq<u8> {
    shuffle_from(identity_table(), state, 255)
}

/// A 256-entry table written twice.
pub open spec fn doubled(p: Seq<u8>) -> Seq<u8> {
    Seq::new(512, |i: int| p[i % 256])
}

/// The first 256 entries are pairwise distinct (so they are 0..256 in some
/// order) and the last 256 repeat them.
pub open spec fn is_permutation_table(t: Seq<u8>) -> bool {
    &&& t.len() == 512
    &&& forall|a: int, b: int| 0 <= a < b < 256 ==> t[a] != t[b]
    &&& forall|i: int| 256 <= i < 512 ==> #[trigger] t[i] == t[i - 256]
}

proof fn lemma_shuffle_step(p: Seq<u8>, state: u64, i: int)
    requires
        i >= 1,
    ensures
        shuffle_from(p, state, i) == shuffle_from(
            swap_at(p, i, splitmix_out(state.wrapping_add(GOLDEN_GAMMA)) as int % (i + 1)),
            state.wrapping_add(GOLDEN_GAMMA),
            i - 1,
        ),
{
}

/// Draws a permutation table: 255 draws of `rng`, the shuffle of 0..256,
/// written twice.
fn permutation_table(rng: &mut Rng) -> (t: Vec<u8>)
    ensures
        final(rng)@ == advance(old(rng)@, 255),
        t@ == doubled(shuffled(old(rng)@)),
        is_permutation_table(t@),
{
    let ghost s0 = rng@;
    let mut p: Vec<u8> = Vec::new();
    let mut k: usize = 0;
    while k < 256
        invariant
            k <= 256,
            p@.len() == k,
            forall|a: int| 0 <= a < k ==> #[trigger] p@[a] == a as u8,
        decreases 256 - k,
    {
        p.push(k as u8);
        k += 1;
    }
    assert(p@ =~= identity_table());
    let mut i: usize = 255;
    while i >= 1
        invariant
            i <= 255,
            p@.len() == 256,
            shuffle_from(p@, rng@, i as int) == shuffled(s0),
            rng@ == advance(s0, (255 - i) as nat),
            forall|a: int, b: int| 0 <= a < b < 256 ==> p@[a] != p@[b],
        decreases i,
    {
        let ghost before = p@;
        let ghost st = rng@;
        let d = rng.next_u64();
        let j = (d % (i as u64 + 1)) as usize;
        proof {
            lemma_shuffle_step(before, st, i as int);
        }
        let a = p[i];
        let b = p[j];
        p.set(i, b);
        p.set(j, a);
        assert(p@ =~= swap_at(before, i as int, j as int));
        assert forall|x: int, y: int| 0 <= x < y < 256 implies p@[x] != p@[y] by {
            let fx = if x == i { j as int } else if x == j { i as int } else { x };
            let fy = if y == i { j as int } else if y == j { i as int } else { y };
            assert(p@[x] == before[fx]);
            assert(p@[y] == before[fy]);
            if fx < fy {
                assert(before[fx] != before[fy]);
            } else {
                assert(before[fy] != before[fx]);
            }
        }
        i -= 1;
    }
    let mut t: Vec<u8> = Vec::new();
    let mut m: usize = 0;
    while m < 512
        invariant
            m <= 512,
            p@.len() == 256,
            t@.len() == m,
            forall|a: int| 0 <= a < m ==> #[trigger] t@[a] == p@[a % 256],
        decreases 512 - m,
    {
        let w = m & 255;
        assert(w == m % 256) by (bit_vector)
            requires
                w == m & 255,
        ;
        t.push(p[w]);
        m += 1;
    }
    assert(t@ =~= doubled(p@));
    t
}

/// Classic Perlin noise: a permutation table and fixed gradients.
pub struct Perlin {
    pub perm: Vec<u8>,
}

impl Perlin {
    /// A generator whose table is the permutation drawn from `rng`.
    pub fn new(rng: &mut Rng) -> (r: Self)
        ensures
            final(rng)@ == advance(old(rng)@, 255),
            r.perm@ == doubled(shuffled(old(rng)@)),
            is_permutation_table(r.perm@),
    {
        Perlin { perm: permutation_table(rng) }
    }

    /// Table entry selecting the gradient of 2D lattice point (a, b):
    /// `perm[(perm[a & 255] + (b & 255)) & 255]`.
    pub fn corner2(&self, a: i32, b: i32) -> (h: usize)
        requires
            is_permutation_table(self.perm@),
        ensures
            h == self.perm@[(self.perm@[(a & 255) as int] + (b & 255)) % 256],
    {
        let ia: usize = (a & 255) as usize;
        let ib: usize = (b & 255) as usize;
        assert(0 <= (a & 255) < 256 && 0 <= (b & 255) < 256) by (bit_vector);
        let first: usize = self.perm[ia] as usize;
        let sum_k: usize = first + ib;
        let k = sum_k & 255;
        assert(k == sum_k % 256) by (bit_vector)
            requires
                k == sum_k & 255,
        ;
        self.perm[k] as usize
    }

    /// Gradient (one of 12) of 3D lattice point (x, y, z).
    pub fn corner3(&self, x: i32, y: i32, z: i32) -> (g: usize)
        requires
            is_permutation_table(self.perm@),
        ensures
            g == ({
                let t = self.perm@;
                let a = (t[(x & 255) as int] + (y & 255)) % 256;
                let b = (t[a] + (z & 255)) % 256;
                t[b] % 12
            }),
            g < 12,
    {
        assert(0 <= (x & 255) < 256 && 0 <= (y & 255) < 256 && 0 <= (z & 255) < 256)
            by (bit_vector);
        let ix: usize = (x & 255) as usize;
        let iy: usize = (y & 255) as usize;
        let iz: usize = (z & 255) as usize;
        let pa: usize = self.perm[ix] as usize;
        let sum_a: usize = pa + iy;
        let a = sum_a & 255;
        assert(a == sum_a % 256) by (bit_vector)
            requires
                a == sum_a & 255,
        ;
        let pb: usize = self.perm[a] as usize;
        let sum_b: usize = pb + iz;
        let b = sum_b & 255;
        assert(b == sum_b % 256) by (bit_vector)
            requires
                b == sum_b & 255,
        ;
        (self.perm[b] as usize) % 12
    }
}

/// The 16 low bits of the hash of a value-noise lattice point, before they
/// are scaled to [-1, 1].
pub open spec fn lattice_bits(first: u8, iy: i32) -> u64 {
    let h = (first as u64).wrapping_mul(0x9E3779B97F4A7C15u64).wrapping_add(
        ((iy as u32) as u64).wrapping_mul(0xBF58476D1CE4E5B9u64),
    ).wrapping_add(0x6A09E667F3BCC909u64);
    let z1 = (h ^ (h >> 30u64)).wrapping_mul(0xBF58476D1CE4E5B9u64);
    let z2 = z1 ^ (z1 >> 31u64);
    z2 & 0xFFFFu64
}

/// Value noise: pseudo-random values on the integer lattice, smoothly
/// interpolated.
pub struct ValueNoise {
    pub perm: Vec<u8>,
}

impl ValueNoise {
    /// A generator whose table is the permutation drawn from `rng`.
    pub fn new(rng: &mut Rng) -> (r: Self)
        ensures
            final(rng)@ == advance(old(rng)@, 255),
            r.perm@ == doubled(shuffled(old(rng)@)),
            is_permutation_table(r.perm@),
    {
        ValueNoise { perm: permutation_table(rng) }
    }

    /// The 16 hash bits of lattice point (ix, iy), read through the table
    /// entry of `ix`.
    pub fn lattice(&self, ix: i32, iy: i32) -> (v: u64)
        requires
            is_permutation_table(self.perm@),
        ensures
            v == lattice_bits(self.perm@[((ix as u32) & 255) as int], iy),
            v <= 0xFFFF,
    {
        let ixu: u32 = ix as u32;
        let iyu: u32 = iy as u32;
        let i: usize = (ixu & 255) as usize;
        assert((ixu & 255) < 256) by (bit_vector);
        let h = (self.perm[i] as u64).wrapping_mul(0x9E3779B97F4A7C15u64).wrapping_add(
            (iyu as u64).wrapping_mul(0xBF58476D1CE4E5B9u64),
        ).wrapping_add(0x6A09E667F3BCC909u64);
        let mut z = h;
        z = (z ^ (z >> 30u64)).wrapping_mul(0xBF58476D1CE4E5B9u64);
        z = z ^ (z >> 31u64);
        let v = z & 0xFFFFu64;
        assert(v <= 0xFFFF) by (bit_vector)
            requires
                v == z & 0xFFFFu64,
        ;
        v
    }
}

/// 2D simplex noise: triangles in place of squares.
pub struct Simplex2D {
    pub perm: Vec<u8>,
}

impl Simplex2D {
    /// A generator whose table is the permutation drawn from `rng`.
    pub fn new(rng: &mut Rng) -> (r: Self)
        ensures
            final(rng)@ == advance(old(rng)@, 255),
            r.perm@ == doubled(shuffled(old(rng)@)),
            is_permutation_table(r.perm@),
    {
        Simplex2D { perm: permutation_table(rng) }
    }

    /// Gradient (one of 8) of the corner (ii + x, jj + y) of a cell, hashed
    /// through two levels of the table, so that adjacent triangles agree.
    pub fn gradient_index(&self, ii: usize, jj: usize, x: i32, y: i32) -> (g: usize)
        requires
            is_permutation_table(self.perm@),
        ensures
            g == ({
                let t = self.perm@;
                let xb = ii.wrapping_add(x as usize) & 255;
                let yb = jj.wrapping_add(y as usize) & 255;
                t[(xb.wrapping_add(t[yb as int] as usize) & 255) as int] % 8
            }),
            g < 8,
    {
        let sx = ii.wrapping_add(x as usize);
        let sy = jj.wrapping_add(y as usize);
        let xb = sx & 255;
        let yb = sy & 255;
        assert(xb < 256 && yb < 256) by (bit_vector)
            requires
                xb == sx & 255,
                yb == sy & 255,
        ;
        let p1 = self.perm[yb];
        let sk = xb.wrapping_add(p1 as usize);
        let k = sk & 255;
        assert(k < 256) by (bit_vector)
            requires
                k == sk & 255,
        ;
        let e: usize = self.perm[k] as usize;
        let g = e & 7;
        assert(g == e % 8 && g < 8) by (bit_vector)
            requires
                g == e & 7,
        ;
        g
    }
}

} // verus!
