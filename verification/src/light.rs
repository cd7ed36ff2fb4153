//! Light sources, as far as a scene sorts them.

use vstd::prelude::*;

verus! {

/// The light is a point in space.
pub const DELTA_POSITION_LIGHT: u8 = 1;

/// The light shines from a single direction.
pub const DELTA_DIRECTION_LIGHT: u8 = 2;

/// The light is a surface.
pub const AREA_LIGHT: u8 = 4;

/// The light lies infinitely far away.
pub const INFINITE_LIGHT: u8 = 8;

/// A light source, known by its number in the scene description and by the
/// flags of its kind.
#[derive(Clone, Copy, Debug, PartialEq, Eq, Structural)]
pub struct Light {
    pub id: u32,
    pub flags: u8,
}

impl Light {
    /// The light carries the flag of infinite lights.
    pub open spec fn is_infinite_spec(self) -> bool {
        self.flags & INFINITE_LIGHT != 0
    }

    /// The light with number `id` and the flags `flags`.
    pub fn new(id: u32, flags: u8) -> (l: Light)
        ensures
            l == (Light { id, flags }),
    {
        Light { id, flags }
    }

    /// Whether the light lies infinitely far away.
    pub fn is_infinite(&self) -> (b: bool)
        ensures
            b == self.is_infinite_spec(),
    {
        self.flags & INFINITE_LIGHT != 0
    }
}

} // verus!
