//! mazalot — the integer core of a family of seed-driven pixel-art generators.
//!
//! Every picture the generators draw is rebuilt from a seed, so everything that
//! decides *which* picture comes out is integer arithmetic: the lattice hash,
//! the seeded draws, the type tables, the dither matrix, the sprite buffers and
//! their compositing, the scrolling backdrop cache, the hyperlane graph of a
//! galaxy map, and the layout of contact sheets and animation frames.

pub mod hash;
pub mod lanes;
pub mod dither;
pub mod scene;
pub mod planet;
pub mod kinds;
pub mod backdrop;
pub mod galaxy;
pub mod sheet;

pub use hash::{avalanche, hash3_bits, mix_u32, system_seed};
pub use lanes::U32x4;
pub use scene::{Rng, Tile};
pub use dither::{bayer_level, BAYER};
pub use planet::{is_giant, planet_type_name, type_count, type_index, TYPE_NAMES};
pub use kinds::{
    body_kind_count, body_kind_name, moon_kind_count, moon_kind_name, parent_kind_count,
    parent_kind_name, region_count_total, region_name, star_kind_count, star_kind_name,
    sun_kind_count, sun_kind_name, sun_kind_name_count,
};
