//! The planet type table, as far as it is discrete.
//!
//! A planet type is one row: a name, one of five base algorithms, two shape
//! switches and a colour ramp. The renderer owns the continuous part of each
//! row (frequencies, colours, weather strengths); this module owns what picks
//! and lays out a row — which base it shades with, whether it is a giant, how
//! many ramp stops it carries — and the fixed layout of the float buffer the
//! GPU path reads the table from.

use vstd::prelude::*;
use vstd::string::StringSliceAdditionalSpecFns;

verus! {

/// The base algorithm a planet type shades with.
#[derive(Clone, Copy, PartialEq, Eq, Structural)]
pub enum Base {
    Terrestrial,
    Cratered,
    Banded,
    Emissive,
    Cloudy,
}

/// Number of planet types.
pub const TYPE_COUNT: usize = 26;

/// Each type's name, unique across the table. Row `i` of every `TYPE_*` table
/// below describes the same type.
pub const TYPE_NAMES: [&'static str; 26] = [
    "terran", "ocean", "archipelago", "desert", "swamp",
    "iron", "ice", "barren", "gas_giant", "ice_giant",
    "lava", "fungal", "savanna", "gaia", "tundra",
    "alpine", "obsidian", "chrome", "moon", "storm_giant",
    "ringed_giant", "molten_sea", "radioactive", "crystal", "toxic",
    "storm_shroud",
];

/// Each type's base algorithm.
pub const TYPE_BASES: [Base; 26] = [
    Base::Terrestrial, Base::Terrestrial, Base::Terrestrial, Base::Terrestrial,
    Base::Terrestrial, Base::Terrestrial, Base::Terrestrial, Base::Cratered,
    Base::Banded, Base::Banded, Base::Emissive, Base::Emissive,
    Base::Terrestrial, Base::Terrestrial, Base::Terrestrial, Base::Terrestrial,
    Base::Terrestrial, Base::Terrestrial, Base::Cratered, Base::Banded,
    Base::Banded, Base::Emissive, Base::Emissive, Base::Emissive,
    Base::Cloudy, Base::Cloudy,
];

/// Terrestrial fBm folded into ridges (an ice shell).
pub const TYPE_RIDGED: [bool; 26] = [
    false, false, false, false, false, false, true, false, false,
    false, false, false, false, false, false, false, false, false,
    false, false, false, false, false, false, false, false,
];

/// Drawn with a ring system.
pub const TYPE_RINGS: [bool; 26] = [
    false, false, false, false, false, false, false, false, false,
    false, false, false, false, false, false, false, false, false,
    false, false, true, false, false, false, false, false,
];

/// Number of colour-ramp stops each type carries (0 for the bases that do not
/// shade through a ramp).
pub const TYPE_STOPS: [usize; 26] = [
    7, 5, 5, 5, 5, 5, 4, 0, 0, 0, 0, 0, 5,
    5, 5, 5, 4, 4, 0, 0, 0, 0, 0, 0, 0, 0,
];

/// Number of planet types.
pub fn type_count() -> (r: usize)
    ensures
        r == TYPE_COUNT,
{
    TYPE_COUNT
}

/// Name of a planet type (wraps on out-of-range index).
pub fn planet_type_name(i: usize) -> (r: &'static str)
    ensures
        r == TYPE_NAMES@[(i % TYPE_COUNT) as int],
{
    TYPE_NAMES[i % TYPE_COUNT]
}

/// True if this type is a **giant** — a banded gas/ice world (wraps on
/// out-of-range index). Scene generators give giants a much larger body radius
/// than a rocky world.
pub fn is_giant(i: usize) -> (r: bool)
    ensures
        r == (TYPE_BASES@[(i % TYPE_COUNT) as int] == Base::Banded),
{
    TYPE_BASES[i % TYPE_COUNT] == Base::Banded
}

/// Two strings with the same bytes are the same string.
fn str_eq(a: &str, b: &str) -> (r: bool)
    ensures
        r == (a@ == b@),
{
    let x = a.as_bytes();
    let y = b.as_bytes();
    proof {
        vstd::utf8::encode_utf8_decode_utf8(a@);
        vstd::utf8::encode_utf8_decode_utf8(b@);
    }
    if x.len() != y.len() {
        return false;
    }
    let mut k: usize = 0;
    while k < x.len()
        invariant
            x@.len() == y@.len(),
            x@ == a.spec_bytes(),
            y@ == b.spec_bytes(),
            k <= x@.len(),
            forall|j: int| 0 <= j < k ==> x@[j] == y@[j],
        decreases x@.len() - k,
    {
        if x[k] != y[k] {
            return false;
        }
        k += 1;
    }
    assert(x@ =~= y@);
    true
}

/// Index of the type called `name` (the inverse of [`planet_type_name`]), if it
/// exists — the first row with that name.
pub fn type_index(name: &str) -> (r: Option<usize>)
    ensures
        match r {
            Some(k) => k < TYPE_COUNT && TYPE_NAMES@[k as int]@ == name@ && forall|j: int|
                0 <= j < k ==> TYPE_NAMES@[j]@ != name@,
            None => forall|j: int| 0 <= j < TYPE_COUNT ==> TYPE_NAMES@[j]@ != name@,
        },
        forall|i: int| 0 <= i < TYPE_COUNT && #[trigger] TYPE_NAMES@[i]@ == name@ ==> r == Some(i as usize),
{
    let mut k: usize = 0;
    while k < TYPE_COUNT
        invariant
            k <= TYPE_COUNT,
            forall|j: int| 0 <= j < k ==> TYPE_NAMES@[j]@ != name@,
        decreases TYPE_COUNT - k,
    {
        if str_eq(TYPE_NAMES[k], name) {
            proof {
                assert forall|i: int| 0 <= i < TYPE_COUNT && #[trigger] TYPE_NAMES@[i]@ == name@ implies i
                    == k by {
                    if i > k {
                        lemma_type_index_inverts_name(i);
                        assert(TYPE_NAMES@[k as int]@ != TYPE_NAMES@[i]@);
                    }
                }
            }
            return Some(k);
        }
        k += 1;
    }
    None
}

/// Type names are unique, so [`type_index`] undoes [`planet_type_name`]: the
/// name of type `i` is found at row `i % TYPE_COUNT` and nowhere before it.
pub proof fn lemma_type_index_inverts_name(i: int)
    requires
        0 <= i < TYPE_COUNT,
    ensures
        forall|j: int| 0 <= j < i ==> TYPE_NAMES@[j]@ != #[trigger] TYPE_NAMES@[i]@,
{
    reveal_strlit("terran");
    reveal_strlit("ocean");
    reveal_strlit("archipelago");
    reveal_strlit("desert");
    reveal_strlit("swamp");
    reveal_strlit("iron");
    reveal_strlit("ice");
    reveal_strlit("barren");
    reveal_strlit("gas_giant");
    reveal_strlit("ice_giant");
    reveal_strlit("lava");
    reveal_strlit("fungal");
    reveal_strlit("savanna");
    reveal_strlit("gaia");
    reveal_strlit("tundra");
    reveal_strlit("alpine");
    reveal_strlit("obsidian");
    reveal_strlit("chrome");
    reveal_strlit("moon");
    reveal_strlit("storm_giant");
    reveal_strlit("ringed_giant");
    reveal_strlit("molten_sea");
    reveal_strlit("radioactive");
    reveal_strlit("crystal");
    reveal_strlit("toxic");
    reveal_strlit("storm_shroud");
    assert forall|j: int| 0 <= j < i implies TYPE_NAMES@[j]@ != #[trigger] TYPE_NAMES@[i]@ by {
        assert(TYPE_NAMES@[j]@.len() != TYPE_NAMES@[i]@.len() || TYPE_NAMES@[j]@[0]
            != TYPE_NAMES@[i]@[0] || TYPE_NAMES@[j]@[1] != TYPE_NAMES@[i]@[1]);
    }
}

/// Number of tunable parameters a type exposes to the web sliders.
pub const NUM_PARAMS: usize = 13;

// ---------------------------------------------------------------------------
// GPU buffer layout
// ---------------------------------------------------------------------------

/// Ramp stops reserved per row in the GPU buffer. The longest ramp has 7; the
/// slack keeps the stride 4-aligned.
pub const GPU_MAX_STOPS: usize = 8;

/// `f32`s per planet type in the GPU buffer. The layout ends at 75; the stride
/// is rounded up so every row starts on a `vec4` boundary.
pub const GPU_STRIDE: usize = 76;

/// Offset of the ramp in a GPU row: `GPU_MAX_STOPS` × (threshold, r, g, b).
pub const GPU_F_STOPS: usize = 43;

/// Number of floats the GPU type table holds, so a caller can size its buffer
/// before asking for the data: one `GPU_STRIDE` row per type.
pub fn type_table_len() -> (r: usize)
    ensures
        r == TYPE_COUNT * GPU_STRIDE,
{
    TYPE_COUNT * GPU_STRIDE
}

/// Every field of a GPU row, ramp included, lands inside the row, and rows
/// start on a `vec4` boundary.
pub proof fn lemma_stride_covers_layout()
    ensures
        GPU_F_STOPS + GPU_MAX_STOPS * 4 <= GPU_STRIDE,
        GPU_STRIDE % 4 == 0,
{
}

/// Every type's ramp fits the fixed-size ramp slot of a GPU row, so no type
/// renders with a clipped palette on the GPU.
pub proof fn lemma_stops_fit(i: int)
    requires
        0 <= i < TYPE_COUNT,
    ensures
        TYPE_STOPS@[i] <= GPU_MAX_STOPS,
{
}

// ---------------------------------------------------------------------------
// WebGL uniform block
// ---------------------------------------------------------------------------

/// Length of the WebGL uniform array, in `f32`s.
pub const GL_UNIFORMS_LEN: usize = 160;
/// Slot of the type's scalar row: 32 scalars.
pub const GL_U_BASE: usize = 0;
/// Slot of the disc radius.
pub const GL_U_RAD: usize = 22;
/// Slot of the eight `vec3`s: seven colours and the seeded offsets.
pub const GL_U_ATMO: usize = 32;
/// Slot of the seeded offsets, the last of those `vec3`s.
pub const GL_U_OFS: usize = 53;
/// Slot of the key light.
pub const GL_U_L: usize = 56;
/// Slot of the two vortex centres, `(x, z)` each.
pub const GL_U_VORTEX: usize = 59;
/// Slot of the two orbiting moons, five floats each.
pub const GL_U_MOON: usize = 63;
/// Slot of the colour ramp: up to seven `(threshold, r, g, b)` stops.
pub const GL_U_STOPS: usize = 73;
/// Slot of the two octave tables, 15 entries each.
pub const GL_U_OCT: usize = 101;
/// Slot of the palette length.
pub const GL_U_PAL_LEN: usize = 131;
/// Slot of the palette: up to five `vec3`s.
pub const GL_U_PAL: usize = 132;
/// Slot of the sprite flag of the tile framing.
pub const GL_U_SPRITE: usize = 147;
/// Slot of the tile framing's destination origin.
pub const GL_U_TILE_X0: usize = 148;
/// Slot of the tile framing's inverse magnification.
pub const GL_U_TILE_INV: usize = 150;

/// The uniform blocks follow one another without overlap and all fit the
/// array: the 32 scalars end where the `vec3`s start, the `vec3`s end where
/// the light starts, every type's ramp ends before the octave tables, the two
/// octave tables end before the palette length, and the palette and the tile
/// framing's slots fit the array.
pub proof fn lemma_gl_layout_fits(t: int)
    requires
        0 <= t < TYPE_COUNT,
    ensures
        GL_U_BASE + 32 == GL_U_ATMO,
        GL_U_BASE <= GL_U_RAD < GL_U_ATMO,
        GL_U_ATMO + 8 * 3 == GL_U_L,
        GL_U_OFS == GL_U_ATMO + 7 * 3,
        GL_U_L + 3 == GL_U_VORTEX,
        GL_U_VORTEX + 2 * 2 == GL_U_MOON,
        GL_U_MOON + 2 * 5 == GL_U_STOPS,
        GL_U_STOPS + TYPE_STOPS@[t] * 4 <= GL_U_OCT,
        GL_U_OCT + 30 <= GL_U_PAL_LEN,
        GL_U_PAL_LEN < GL_U_PAL,
        GL_U_PAL + 5 * 3 <= GL_U_SPRITE,
        GL_U_SPRITE < GL_U_TILE_X0,
        GL_U_TILE_X0 + 2 <= GL_U_TILE_INV,
        GL_U_TILE_INV < GL_UNIFORMS_LEN,
{
}

// ---------------------------------------------------------------------------
// Feature switches
// ---------------------------------------------------------------------------

/// The cloud deck's self-shadow, independent of the cloud colour above it.
pub const F_CLOUD_SHADOW: u32 = 1;
/// The atmosphere rim glow at the limb.
pub const F_ATMO: u32 = 2;
/// The crisp 1px dark outline around the disc.
pub const F_RIM: u32 = 4;
/// The hashed starfield behind the planet (hero framing only).
pub const F_STARFIELD: u32 = 8;
/// Cap the octaves and skip the cloud deck past the terminator. Not in
/// [`F_ALL`]: it changes the picture, not just the pixel budget.
pub const F_NIGHT_LOD: u32 = 16;
/// Run a domain warp's displacement fields at [`WARP_OCTAVES`] octaves instead
/// of matching the field they bend.
pub const F_CHEAP_WARP: u32 = 32;
/// Everything on that keeps the picture as it is — what every caller but an
/// ablation panel wants.
pub const F_ALL: u32 = F_CLOUD_SHADOW | F_ATMO | F_RIM | F_STARFIELD | F_CHEAP_WARP;

/// Octaves for a domain warp's three displacement components under
/// [`F_CHEAP_WARP`].
pub const WARP_OCTAVES: u32 = 2;

/// Octaves for a domain warp's three displacement fields, given the count the
/// field they bend is running at: [`WARP_OCTAVES`] when [`F_CHEAP_WARP`] is set
/// in `feat`, else the same count as the field.
pub fn warp_oct(feat: u32, main: u32) -> (r: u32)
    ensures
        r == if feat & F_CHEAP_WARP != 0 { WARP_OCTAVES } else { main },
{
    if feat & F_CHEAP_WARP != 0 {
        WARP_OCTAVES
    } else {
        main
    }
}

/// The switch that changes the picture is kept out of the everything-on mask,
/// while the cheap warp is in it.
pub proof fn lemma_feature_mask()
    ensures
        F_ALL & F_NIGHT_LOD == 0,
        F_ALL & F_CHEAP_WARP != 0,
        F_ALL == 47,
{
    assert(F_CLOUD_SHADOW | F_ATMO | F_RIM | F_STARFIELD | F_CHEAP_WARP == 47) by (bit_vector);
    assert((47u32 & 16u32) == 0 && (47u32 & 32u32) != 0) by (bit_vector);
}

} // verus!
