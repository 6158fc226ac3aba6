//! The 8x8 ordered (Bayer) dither: the shared pixel-art tone map.
//!
//! A generator biases each pixel by its cell of the matrix before quantizing,
//! which breaks gradient banding into a crisp, motion-stable stipple. The
//! matrix is the classic recursive one: every level `0..64` occurs exactly
//! once, laid out by interleaving the bits of `x ^ y` and `y`.

use vstd::prelude::*;

verus! {

/// The 8x8 ordered (Bayer) matrix, row-major, values `0..64`.
pub const BAYER: [u8; 64] = [
    0, 32, 8, 40, 2, 34, 10, 42, 48, 16, 56, 24, 50, 18, 58, 26, 12, 44, 4, 36, 14, 46,
    6, 38, 60, 28, 52, 20, 62, 30, 54, 22, 3, 35, 11, 43, 1, 33, 9, 41, 51, 19, 59, 27,
    49, 17, 57, 25, 15, 47, 7, 39, 13, 45, 5, 37, 63, 31, 55, 23, 61, 29, 53, 21,
];

/// The matrix entry at column `x`, row `y` (both `< 8`): the bits of `x ^ y`
/// and of `y`, interleaved from the most significant end.
pub open spec fn spec_bayer(x: u32, y: u32) -> u32 {
    let a = x ^ y;
    ((a & 1) << 5) | ((y & 1) << 4) | ((a & 2) << 2) | ((y & 2) << 1) | ((a & 4) >> 1) | ((y & 4) >> 2)
}

/// The dither level of pixel `(x, y)`, in `0..64`: the matrix entry of the
/// pixel's cell in the 8-periodic tiling. A generator maps it to a bias in
/// `-0.5..0.5` as `(level + 0.5) / 64 - 0.5`.
pub fn bayer_level(x: u32, y: u32) -> (r: u8)
    ensures
        r as u32 == spec_bayer(x % 8, y % 8),
        r < 64,
{
    let i = ((y % 8) * 8 + (x % 8)) as usize;
    proof {
        lemma_table_matches_formula(x % 8, y % 8);
        lemma_bayer_range(x % 8, y % 8);
    }
    BAYER[i]
}

/// The matrix entry at row-major index `i`, written out as the table is.
spec fn table_entry(i: u32) -> u32 {
    if i == 0 {
        0
    } else if i == 1 {
        32
    } else if i == 2 {
        8
    } else if i == 3 {
        40
    } else if i == 4 {
        2
    } else if i == 5 {
        34
    } else if i == 6 {
        10
    } else if i == 7 {
        42
    } else if i == 8 {
        48
    } else if i == 9 {
        16
    } else if i == 10 {
        56
    } else if i == 11 {
        24
    } else if i == 12 {
        50
    } else if i == 13 {
        18
    } else if i == 14 {
        58
    } else if i == 15 {
        26
    } else if i == 16 {
        12
    } else if i == 17 {
        44
    } else if i == 18 {
        4
    } else if i == 19 {
        36
    } else if i == 20 {
        14
    } else if i == 21 {
        46
    } else if i == 22 {
        6
    } else if i == 23 {
        38
    } else if i == 24 {
        60
    } else if i == 25 {
        28
    } else if i == 26 {
        52
    } else if i == 27 {
        20
    } else if i == 28 {
        62
    } else if i == 29 {
        30
    } else if i == 30 {
        54
    } else if i == 31 {
        22
    } else if i == 32 {
        3
    } else if i == 33 {
        35
    } else if i == 34 {
        11
    } else if i == 35 {
        43
    } else if i == 36 {
        1
    } else if i == 37 {
        33
    } else if i == 38 {
        9
    } else if i == 39 {
        41
    } else if i == 40 {
        51
    } else if i == 41 {
        19
    } else if i == 42 {
        59
    } else if i == 43 {
        27
    } else if i == 44 {
        49
    } else if i == 45 {
        17
    } else if i == 46 {
        57
    } else if i == 47 {
        25
    } else if i == 48 {
        15
    } else if i == 49 {
        47
    } else if i == 50 {
        7
    } else if i == 51 {
        39
    } else if i == 52 {
        13
    } else if i == 53 {
        45
    } else if i == 54 {
        5
    } else if i == 55 {
        37
    } else if i == 56 {
        63
    } else if i == 57 {
        31
    } else if i == 58 {
        55
    } else if i == 59 {
        23
    } else if i == 60 {
        61
    } else if i == 61 {
        29
    } else if i == 62 {
        53
    } else {
        21
    }
}

proof fn lemma_table_matches_formula(x: u32, y: u32)
    requires
        x < 8,
        y < 8,
    ensures
        BAYER@[(y * 8 + x) as int] as u32 == spec_bayer(x, y),
{
    assert(x < 8 && y < 8 ==> table_entry((y * 8 + x) as u32) == spec_bayer(x, y)) by (bit_vector);
    let i = (y * 8 + x) as u32;
    assert(BAYER@[i as int] as u32 == table_entry(i));
}

/// Every entry of the matrix is a level in `0..64`.
pub proof fn lemma_bayer_range(x: u32, y: u32)
    requires
        x < 8,
        y < 8,
    ensures
        spec_bayer(x, y) < 64,
{
    assert(x < 8 && y < 8 ==> spec_bayer(x, y) < 64) by (bit_vector);
}

/// No two cells of the matrix share a level, so the 64 cells hold each of
/// `0..64` exactly once — every threshold is used by exactly one pixel of a
/// tile.
pub proof fn lemma_bayer_is_permutation(x1: u32, y1: u32, x2: u32, y2: u32)
    requires
        x1 < 8,
        y1 < 8,
        x2 < 8,
        y2 < 8,
    ensures
        spec_bayer(x1, y1) == spec_bayer(x2, y2) <==> (x1 == x2 && y1 == y2),
{
    assert(x1 < 8 && y1 < 8 && x2 < 8 && y2 < 8 && spec_bayer(x1, y1) == spec_bayer(x2, y2) ==> x1
        == x2 && y1 == y2) by (bit_vector);
}

} // verus!
