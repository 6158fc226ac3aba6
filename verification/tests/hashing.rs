use mazalot::hash::{avalanche, hash3_bits, mix_u32, system_seed};
use mazalot::lanes::{avalanche4, hash3x4_bits, U32x4};
use mazalot::scene::Rng;

#[test]
fn avalanche_known_values() {
    assert_eq!(avalanche(0), 0);
    assert_eq!(avalanche(1), 0x688990c0);
    assert_eq!(avalanche(0xdead_beef), 0xe628_c683);
    assert_eq!(avalanche(u32::MAX), 0x6768_824a);
}

#[test]
fn avalanche_is_injective_on_a_sample() {
    let mut seen = std::collections::HashSet::new();
    for h in 0..100_000u32 {
        assert!(seen.insert(avalanche(h.wrapping_mul(2_654_435_761))));
    }
}

#[test]
fn hash3_known_values() {
    assert_eq!(hash3_bits(0, 0, 0), 0);
    assert_eq!(hash3_bits(1, 2, 3), 0x0456_9f7c);
    assert_eq!(hash3_bits(-5, 7, 0x9e37), 0x8748_da85);
}

#[test]
fn mix_and_system_seed_known_values() {
    assert_eq!(mix_u32(0, 0), 0);
    assert_eq!(mix_u32(42, 1), 0x2fcd_c9ed);
    assert_eq!(system_seed(42, 0), 0x2fcd_c9ed);
    assert_eq!(system_seed(42, 1), 0x249c_1adb);
    assert_eq!(system_seed(7, 599), 0x0ae1_659f);
}

/// Every system of a galaxy (at most 600 of them) gets its own seed.
#[test]
fn seeds_are_distinct() {
    let mut seen = std::collections::HashSet::new();
    for i in 0..600u32 {
        assert!(seen.insert(system_seed(7, i)), "duplicate system seed");
    }
}

/// The four-lane hash must agree with the scalar one lane for lane.
#[test]
fn hash3x4_matches_hash3() {
    let c = [-263, -1, 0, 1, 911, 70001];
    for &x in &c {
        for &y in &c {
            for &z in &c {
                let v = hash3x4_bits(
                    U32x4::from_i32(x, x + 1, x + 911, x - 7),
                    U32x4::from_i32(y, y + 1, y + 733, y - 7),
                    U32x4::from_i32(z, z + 1, z + 512, z - 7),
                )
                .0;
                let want = [
                    hash3_bits(x, y, z),
                    hash3_bits(x + 1, y + 1, z + 1),
                    hash3_bits(x + 911, y + 733, z + 512),
                    hash3_bits(x - 7, y - 7, z - 7),
                ];
                for l in 0..4 {
                    assert_eq!(v[l], want[l], "lane {l} at ({x},{y},{z})");
                }
            }
        }
    }
}

#[test]
fn lane_ops_work_lane_by_lane() {
    let a = U32x4::from_i32(-1, 0, 1, 2);
    assert_eq!(a.0, [u32::MAX, 0, 1, 2]);
    assert_eq!(U32x4::splat(9).0, [9; 4]);
    assert_eq!(a.wmul(3).0, [u32::MAX.wrapping_mul(3), 0, 3, 6]);
    assert_eq!(a.wadd(1).0, [0, 1, 2, 3]);
    assert_eq!(a.xor(U32x4::splat(1)).0, [u32::MAX - 1, 1, 0, 3]);
    assert_eq!(a.shr(31).0, [1, 0, 0, 0]);
    let h = avalanche4(U32x4([0, 1, 0xdead_beef, u32::MAX])).0;
    assert_eq!(h, [avalanche(0), avalanche(1), avalanche(0xdead_beef), avalanche(u32::MAX)]);
}

#[test]
fn rng_draws_are_the_seeded_hash_sequence() {
    let mut r = Rng::new(7);
    assert_eq!(r.next_bits(), 0xd159_7df2);
    assert_eq!(r.next_bits(), 0x62cc_3654);
    assert_eq!(r.ctr, 2);
    // The seed is the bit pattern reinterpreted as i32.
    let mut big = Rng::new(u32::MAX);
    assert_eq!(big.seed, -1);
    assert_eq!(big.next_bits(), 0xfbbf_6ac1);
    // Same seed, same sequence.
    let (mut a, mut b) = (Rng::new(123), Rng::new(123));
    for _ in 0..50 {
        assert_eq!(a.next_bits(), b.next_bits());
    }
}

#[test]
fn rng_counter_wraps() {
    let mut r = Rng { seed: 5, ctr: i32::MAX };
    let h = r.next_bits();
    assert_eq!(r.ctr, i32::MIN);
    assert_eq!(h, hash3_bits(5, i32::MIN, 0x9e37));
}
