//! Participating media, as far as rays and interactions name them.

use vstd::prelude::*;

verus! {

/// A participating medium, known by its number in the scene description.
#[derive(Clone, Copy, Debug, PartialEq, Eq, Structural)]
pub struct Medium {
    pub id: u32,
}

/// The media on the two sides of a surface.
#[derive(Clone, Copy, Debug, PartialEq, Eq, Structural)]
pub struct MediumInterface {
    /// The medium inside the surface.
    pub inside: Option<Medium>,
    /// The medium outside the surface.
    pub outside: Option<Medium>,
}

impl MediumInterface {
    /// The interface between `inside` and `outside`.
    pub fn new(inside: Option<Medium>, outside: Option<Medium>) -> (m: MediumInterface)
        ensures
            m == (MediumInterface { inside, outside }),
    {
        MediumInterface { inside, outside }
    }

    /// The two sides hold different media.
    pub open spec fn is_transition(self) -> bool {
        self.inside != self.outside
    }

    /// Whether the two sides hold different media.
    pub fn is_medium_transition(&self) -> (b: bool)
        ensures
            b == self.is_transition(),
    {
        match (self.inside, self.outside) {
            (None, None) => false,
            (Some(a), Some(b)) => a.id != b.id,
            _ => true,
        }
    }
}

} // verus!
