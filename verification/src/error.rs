//! Errors that end the processing of a map.

use vstd::prelude::*;
use crate::handle::MapHandle;

verus! {

/// A fault in how the pipeline was set up or called. It is fatal for the map
/// it names: the pipeline reports it at once and does nothing more for that
/// map.
#[derive(Clone, Copy, Debug, PartialEq, Eq, Structural)]
pub enum ConfigurationError {
    /// Staging was asked for a map whose description the store does not hold.
    MapNotFound { tilemap: MapHandle },
    /// A layer was requested that the map does not have.
    LayerOutOfRange { tilemap: MapHandle, layer: u32 },
    /// The images of the map do not fit on the atlas canvas.
    AtlasCapacityExceeded { tilemap: MapHandle },
}

} // verus!
