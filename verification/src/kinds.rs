//! The archetype tables of the scene generators, as far as they are
//! discrete: the names a HUD shows and the counts a seeded draw picks from.

use vstd::prelude::*;

verus! {

/// The names of the faction regions of a galaxy map, in table order.
pub const REGION_NAMES: [&'static str; 8] = ["Republic", "Syndicate", "Free Worlds", "Verge", "Concord", "Reach", "Expanse", "Drift"];

/// Number of faction regions.
pub fn region_count_total() -> (r: usize)
    ensures
        r == 8,
{
    8
}

/// Name of a faction region (wraps out of range).
pub fn region_name(i: usize) -> (r: &'static str)
    ensures
        r == REGION_NAMES@[(i % 8) as int],
{
    REGION_NAMES[i % 8]
}

/// The names of the body archetypes of an eccentric-orbit system, in table order.
pub const BODY_KIND_NAMES: [&'static str; 7] = ["rust world", "slate world", "verdant", "rime world", "banded gas", "azure gas", "molten"];

/// Number of body archetypes.
pub fn body_kind_count() -> (r: usize)
    ensures
        r == 7,
{
    7
}

/// Name of a body archetype (wraps out of range).
pub fn body_kind_name(i: usize) -> (r: &'static str)
    ensures
        r == BODY_KIND_NAMES@[(i % 7) as int],
{
    BODY_KIND_NAMES[i % 7]
}

/// The names of the star tints of an eccentric-orbit system, in table order.
pub const SUN_KIND_NAMES: [&'static str; 4] = ["amber", "ember", "argent", "azure"];

/// Number of star tints.
pub fn sun_kind_count() -> (r: usize)
    ensures
        r == 4,
{
    4
}

/// Name of a star tint (wraps out of range).
pub fn sun_kind_name(i: usize) -> (r: &'static str)
    ensures
        r == SUN_KIND_NAMES@[(i % 4) as int],
{
    SUN_KIND_NAMES[i % 4]
}

/// The names of the parent-planet archetypes a moon system orbits, in table order.
pub const PARENT_KIND_NAMES: [&'static str; 5] = ["terran", "ocean", "barren", "gas giant", "ice giant"];

/// Number of parent-planet archetypes.
pub fn parent_kind_count() -> (r: usize)
    ensures
        r == 5,
{
    5
}

/// Name of a parent archetype (wraps out of range).
pub fn parent_kind_name(i: usize) -> (r: &'static str)
    ensures
        r == PARENT_KIND_NAMES@[(i % 5) as int],
{
    PARENT_KIND_NAMES[i % 5]
}

/// The names of the moon archetypes, in table order.
pub const MOON_KIND_NAMES: [&'static str; 5] = ["grey rock", "pale dust", "icy", "rusty", "carbon"];

/// Number of moon archetypes.
pub fn moon_kind_count() -> (r: usize)
    ensures
        r == 5,
{
    5
}

/// Name of a moon archetype (wraps out of range).
pub fn moon_kind_name(i: usize) -> (r: &'static str)
    ensures
        r == MOON_KIND_NAMES@[(i % 5) as int],
{
    MOON_KIND_NAMES[i % 5]
}

/// The names of the star archetypes a comet orbits, in table order.
pub const STAR_KIND_NAMES: [&'static str; 2] = ["yellow star", "white star"];

/// Number of star archetypes.
pub fn star_kind_count() -> (r: usize)
    ensures
        r == 2,
{
    2
}

/// Name of a star archetype (wraps out of range).
pub fn star_kind_name(i: usize) -> (r: &'static str)
    ensures
        r == STAR_KIND_NAMES@[(i % 2) as int],
{
    STAR_KIND_NAMES[i % 2]
}

/// Number of star kinds a galaxy map's glyphs are tinted by — the same
/// archetypes, in the same order, as the system generator's central stars.
pub const SUN_TINT_COUNT: usize = 5;

/// Number of star kinds a galaxy map's glyphs are tinted by.
pub fn sun_kind_name_count() -> (r: usize)
    ensures
        r == SUN_TINT_COUNT,
{
    SUN_TINT_COUNT
}

} // verus!
