//! A four-lane `u32` vector, so the noise kernels can hash four lattice
//! corners at a time.
//!
//! Every operation is lane-wise and exact, so four lanes hashed together give
//! the same bits as each lane hashed on its own — which is what lets the
//! vectorized kernels stay bit-identical to the scalar hash.

use vstd::prelude::*;
use crate::hash::{spec_avalanche, spec_hash3, wadd, wmul, KX, KY, KZ};

verus! {

/// Four `u32` lanes. Signed lattice coordinates enter through
/// [`U32x4::from_i32`], which reinterprets them exactly as `as u32` does.
#[derive(Clone, Copy)]
pub struct U32x4(pub [u32; 4]);

/// Lane `l` of `v`.
pub open spec fn lane(v: U32x4, l: int) -> u32 {
    v.0@[l]
}

impl U32x4 {
    /// Four signed lattice coordinates, reinterpreted as `u32`.
    pub fn from_i32(a: i32, b: i32, c: i32, d: i32) -> (r: Self)
        ensures
            lane(r, 0) == a as u32,
            lane(r, 1) == b as u32,
            lane(r, 2) == c as u32,
            lane(r, 3) == d as u32,
    {
        U32x4([a as u32, b as u32, c as u32, d as u32])
    }

    /// The same value in all four lanes.
    pub fn splat(v: u32) -> (r: Self)
        ensures
            forall|l: int| 0 <= l < 4 ==> lane(r, l) == v,
    {
        U32x4([v, v, v, v])
    }

    /// Lane-wise wrapping multiply by a scalar.
    pub fn wmul(self, k: u32) -> (r: Self)
        ensures
            forall|l: int| 0 <= l < 4 ==> lane(r, l) == wmul(lane(self, l), k),
    {
        let a = self.0;
        U32x4([a[0].wrapping_mul(k), a[1].wrapping_mul(k), a[2].wrapping_mul(k), a[3].wrapping_mul(k)])
    }

    /// Lane-wise wrapping add of a scalar.
    pub fn wadd(self, k: u32) -> (r: Self)
        ensures
            forall|l: int| 0 <= l < 4 ==> lane(r, l) == wadd(lane(self, l), k),
    {
        let a = self.0;
        U32x4([a[0].wrapping_add(k), a[1].wrapping_add(k), a[2].wrapping_add(k), a[3].wrapping_add(k)])
    }

    /// Lane-wise xor.
    pub fn xor(self, o: Self) -> (r: Self)
        ensures
            forall|l: int| 0 <= l < 4 ==> lane(r, l) == lane(self, l) ^ lane(o, l),
    {
        let (a, b) = (self.0, o.0);
        U32x4([a[0] ^ b[0], a[1] ^ b[1], a[2] ^ b[2], a[3] ^ b[3]])
    }

    /// Logical (zero-filling) shift right — `u32 >> n`, never arithmetic.
    pub fn shr(self, n: u32) -> (r: Self)
        requires
            n < 32,
        ensures
            forall|l: int| 0 <= l < 4 ==> lane(r, l) == lane(self, l) >> n,
    {
        let a = self.0;
        U32x4([a[0] >> n, a[1] >> n, a[2] >> n, a[3] >> n])
    }
}

/// The finalizer, four lanes at once.
pub fn avalanche4(h: U32x4) -> (r: U32x4)
    ensures
        forall|l: int| 0 <= l < 4 ==> lane(r, l) == spec_avalanche(lane(h, l)),
{
    let h = h.xor(h.shr(16));
    let h = h.wmul(0x7feb_352d);
    let h = h.xor(h.shr(15));
    let h = h.wmul(0x846c_a68b);
    h.xor(h.shr(16))
}

/// Four lattice hashes at once, as raw bits: lane `l` is the hash of
/// `(x[l], y[l], z[l])`.
pub fn hash3x4_bits(x: U32x4, y: U32x4, z: U32x4) -> (r: U32x4)
    ensures
        forall|l: int|
            0 <= l < 4 ==> lane(r, l) == spec_avalanche(
                wmul(lane(x, l), KX) ^ wmul(lane(y, l), KY) ^ wmul(lane(z, l), KZ),
            ),
{
    avalanche4(x.wmul(KX).xor(y.wmul(KY)).xor(z.wmul(KZ)))
}

/// Hashing four corners at once is hashing each corner on its own: a lane
/// holding the reinterpreted coordinates `(x, y, z)` comes out of
/// [`hash3x4_bits`] as the scalar hash of `(x, y, z)`.
pub proof fn lemma_hash3x4_matches_hash3(vx: U32x4, vy: U32x4, vz: U32x4, l: int, x: i32, y: i32, z: i32)
    requires
        0 <= l < 4,
        lane(vx, l) == x as u32,
        lane(vy, l) == y as u32,
        lane(vz, l) == z as u32,
    ensures
        spec_avalanche(wmul(lane(vx, l), KX) ^ wmul(lane(vy, l), KY) ^ wmul(lane(vz, l), KZ))
            == spec_hash3(x, y, z),
{
}

/// Offsetting a lattice coordinate after the `as u32` reinterpretation lands
/// on the same bits as offsetting it as an `i32` first: `i32` wrapping add and
/// `u32` wrapping add agree on the bit pattern. This is what lets the kernels
/// add neighbour offsets lane-wise after the cast.
pub proof fn lemma_offset_commutes_with_cast(c: i32, d: i32)
    ensures
        wadd(c as u32, d as u32) == vstd::wrapping::i32_specs::wrapping_add(c, d) as u32,
{
    assert(wadd(c as u32, d as u32) == vstd::wrapping::i32_specs::wrapping_add(c, d) as u32)
        by (bit_vector);
}

} // verus!
