//! The lattice hash every generator draws from.
//!
//! A Murmur3-style finalizer over a per-axis mix of the three lattice
//! coordinates. It is pure `u32` arithmetic — wrapping multiplies, xors and
//! logical shifts — so the same bits come out on every machine, which is what
//! lets a seed rebuild the identical picture.

use vstd::prelude::*;

verus! {

/// Per-axis mix constant for `x`.
pub const KX: u32 = 0x8da6_b343;
/// Per-axis mix constant for `y`.
pub const KY: u32 = 0xd816_3841;
/// Per-axis mix constant for `z`.
pub const KZ: u32 = 0xcb1a_b31f;

/// The odd multiplier that spreads a node index (and a seed) over 32 bits.
pub const GOLDEN: u32 = 0x9e37_79b1;

/// Wrapping multiply, as `u32::wrapping_mul` computes it.
pub open spec fn wmul(x: u32, k: u32) -> u32 {
    ((x as nat * k as nat) % 0x1_0000_0000) as u32
}

/// Wrapping add, as `u32::wrapping_add` computes it.
pub open spec fn wadd(x: u32, k: u32) -> u32 {
    ((x as nat + k as nat) % 0x1_0000_0000) as u32
}

/// The xor-shift step `x ^ (x >> n)`.
pub open spec fn xs(x: u32, n: u32) -> u32 {
    x ^ (x >> n)
}

/// The finalizer: two xor-shift / multiply rounds and a last xor-shift.
pub open spec fn spec_avalanche(h: u32) -> u32 {
    let h = xs(h, 16);
    let h = wmul(h, 0x7feb_352d);
    let h = xs(h, 15);
    let h = wmul(h, 0x846c_a68b);
    xs(h, 16)
}

/// The finalizer undone, step by step in reverse order.
pub open spec fn spec_unavalanche(h: u32) -> u32 {
    let h = xs(h, 16);
    let h = wmul(h, 0x4302_1123);
    let h = h ^ (h >> 15) ^ (h >> 30);
    let h = wmul(h, 0x1d69_e2a5);
    xs(h, 16)
}

/// The lattice hash of `(x, y, z)` as raw bits: the three coordinates are
/// reinterpreted as `u32`, mixed by the per-axis constants, and finalized.
pub open spec fn spec_hash3(x: i32, y: i32, z: i32) -> u32 {
    spec_avalanche(wmul(x as u32, KX) ^ wmul(y as u32, KY) ^ wmul(z as u32, KZ))
}

/// The two-word hash that derives a node's system seed: `b` is spread by
/// [`GOLDEN`], folded into `a`, and finalized.
pub open spec fn spec_mix_u32(a: u32, b: u32) -> u32 {
    spec_avalanche(a ^ wmul(b, GOLDEN))
}

/// Runs the finalizer on `h`.
pub fn avalanche(h: u32) -> (r: u32)
    ensures
        r == spec_avalanche(h),
{
    let h = h ^ (h >> 16);
    let h = h.wrapping_mul(0x7feb_352d);
    let h = h ^ (h >> 15);
    let h = h.wrapping_mul(0x846c_a68b);
    h ^ (h >> 16)
}

/// The lattice hash of `(x, y, z)` as raw bits. A generator turns these into a
/// unit value by dividing by `u32::MAX`.
pub fn hash3_bits(x: i32, y: i32, z: i32) -> (r: u32)
    ensures
        r == spec_hash3(x, y, z),
{
    let h = (x as u32).wrapping_mul(KX) ^ (y as u32).wrapping_mul(KY) ^ (z as u32).wrapping_mul(KZ);
    avalanche(h)
}

/// Integer hash — a distinct, deterministic 32-bit value per `(a, b)`. Used to
/// derive each galaxy node's system seed from the galaxy seed and node index.
pub fn mix_u32(a: u32, b: u32) -> (r: u32)
    ensures
        r == spec_mix_u32(a, b),
{
    let h = a ^ b.wrapping_mul(GOLDEN);
    avalanche(h)
}

/// The node-index spread `i · GOLDEN + 1` that feeds [`mix_u32`] when a galaxy
/// derives the seed of its `i`-th system.
pub open spec fn spec_node_salt(i: u32) -> u32 {
    wadd(wmul(i, GOLDEN), 1)
}

/// The seed of the `i`-th system of the galaxy built from `seed`.
pub open spec fn spec_system_seed(seed: u32, i: u32) -> u32 {
    spec_mix_u32(seed, spec_node_salt(i))
}

/// The seed of a galaxy's `i`-th system: the galaxy seed mixed with the node
/// index spread over 32 bits. Hand it to a system generator to fly into it.
pub fn system_seed(seed: u32, i: u32) -> (r: u32)
    ensures
        r == spec_system_seed(seed, i),
{
    mix_u32(seed, i.wrapping_mul(GOLDEN).wrapping_add(1))
}

proof fn lemma_xs16_self_inverse(x: u32)
    ensures
        xs(xs(x, 16), 16) == x,
{
    assert(xs(xs(x, 16), 16) == x) by (bit_vector);
}

proof fn lemma_xs15_inverse(x: u32)
    ensures
        ({
            let y = xs(x, 15);
            y ^ (y >> 15) ^ (y >> 30)
        }) == x,
{
    assert(({
        let y = xs(x, 15);
        y ^ (y >> 15) ^ (y >> 30)
    }) == x) by (bit_vector);
}

proof fn lemma_mul_inverses(x: u32)
    ensures
        wmul(wmul(x, 0x7feb_352d), 0x1d69_e2a5) == x,
        wmul(wmul(x, 0x846c_a68b), 0x4302_1123) == x,
        wmul(wmul(x, GOLDEN), 0x0e8b_2f51) == x,
{
    assert(wmul(wmul(x, 0x7feb_352d), 0x1d69_e2a5) == x) by (bit_vector);
    assert(wmul(wmul(x, 0x846c_a68b), 0x4302_1123) == x) by (bit_vector);
    assert(wmul(wmul(x, 0x9e37_79b1), 0x0e8b_2f51) == x) by (bit_vector);
}

/// The finalizer loses nothing: undoing its steps in reverse order gives back
/// the input, for every `u32`.
pub proof fn lemma_avalanche_invertible(h: u32)
    ensures
        spec_unavalanche(spec_avalanche(h)) == h,
{
    let a = xs(h, 16);
    let b = wmul(a, 0x7feb_352d);
    let c = xs(b, 15);
    let d = wmul(c, 0x846c_a68b);
    let e = xs(d, 16);
    lemma_xs16_self_inverse(d);
    lemma_mul_inverses(c);
    lemma_xs15_inverse(b);
    lemma_mul_inverses(a);
    lemma_xs16_self_inverse(h);
}

/// The finalizer is a bijection on `u32`: two inputs hash alike only when they
/// are the same input.
pub proof fn lemma_avalanche_injective(a: u32, b: u32)
    ensures
        spec_avalanche(a) == spec_avalanche(b) <==> a == b,
{
    lemma_avalanche_invertible(a);
    lemma_avalanche_invertible(b);
}

/// For a fixed first word, [`mix_u32`] never maps two different second words
/// to the same value.
pub proof fn lemma_mix_u32_injective(a: u32, b1: u32, b2: u32)
    ensures
        spec_mix_u32(a, b1) == spec_mix_u32(a, b2) <==> b1 == b2,
{
    lemma_avalanche_injective(a ^ wmul(b1, GOLDEN), a ^ wmul(b2, GOLDEN));
    if a ^ wmul(b1, GOLDEN) == a ^ wmul(b2, GOLDEN) {
        let m1 = wmul(b1, GOLDEN);
        let m2 = wmul(b2, GOLDEN);
        assert(a ^ m1 == a ^ m2 ==> m1 == m2) by (bit_vector);
        lemma_mul_inverses(b1);
        lemma_mul_inverses(b2);
    }
}

/// Every system in a galaxy gets its own seed: two different node indices
/// never derive the same system seed, whatever the galaxy seed.
pub proof fn lemma_system_seeds_distinct(seed: u32, i: u32, j: u32)
    requires
        i != j,
    ensures
        spec_system_seed(seed, i) != spec_system_seed(seed, j),
{
    lemma_mix_u32_injective(seed, spec_node_salt(i), spec_node_salt(j));
    lemma_mul_inverses(i);
    lemma_mul_inverses(j);
    let mi = wmul(i, GOLDEN);
    let mj = wmul(j, GOLDEN);
    assert(wadd(mi, 1) == wadd(mj, 1) ==> mi == mj) by (bit_vector);
}

} // verus!
