//! Identifiers for what the host's asset stores hold.

use vstd::prelude::*;

verus! {

/// Identifies a tile map in the host's store of map descriptions.
#[derive(Clone, Copy, Debug, PartialEq, Eq, Hash, Structural)]
pub struct MapHandle {
    pub id: u128,
}

/// Identifies the image of one tile in the host's store of textures.
#[derive(Clone, Copy, Debug, PartialEq, Eq, Hash, Structural)]
pub struct ImageHandle {
    pub id: u128,
}

/// Identifies a packed texture atlas in the host's store of atlases.
#[derive(Clone, Copy, Debug, PartialEq, Eq, Hash, Structural)]
pub struct AtlasHandle {
    pub id: u128,
}

} // verus!
