//! A tile-map loading pipeline.
//!
//! A map description names the images of its tiles. The pipeline stages a
//! map by recording the images that were requested for it, waits until none
//! of them is still loading, has them packed into one texture atlas, and
//! then turns every requested layer of that map into positioned sprites that
//! refer to regions of the atlas.
//!
//! The pipeline holds no pixels and performs no loading itself. The host
//! owns the asset stores and the entities; it hands the pipeline what it
//! found there and carries out what the pipeline decides. One tick of the
//! host goes through three steps, in this order:
//!
//! 1. for every map that was created or changed, [`TileMapSpawner::images_to_stage`]
//!    says which images to request, and [`TileMapSpawner::stage_map`] records
//!    them;
//! 2. the host looks up the load state of the images that
//!    [`TileMapSpawner::pending_images`] names,
//!    [`TileMapSpawner::poll_staged_maps`] hands out the maps whose images
//!    have come to rest, [`LoadedTileMap::build`] admits the atlas that was
//!    packed for each, and [`TileMapSpawner::promote`] stores it;
//! 3. [`TileMapSpawner::drain_queue`] hands out the requests whose map is
//!    loaded, and [`LoadedTileMap::expand_layer`] turns each into sprites.
//!
//! What holds of these steps whatever the host reports is proved in
//! [`laws`]; that an atlas which was admitted has room for what it shows is
//! proved in [`area`].

pub mod handle;
pub mod error;
pub mod map;
pub mod atlas;
pub mod area;
pub mod layer;
pub mod order;
pub mod spawner;
pub mod laws;

pub use crate::atlas::{
    AtlasRegion, LoadedTileMap, PackedAtlas, PackedImage, ATLAS_INITIAL_SIZE, ATLAS_MAX_SIZE,
};
pub use crate::error::ConfigurationError;
pub use crate::handle::{AtlasHandle, ImageHandle, MapHandle};
pub use crate::layer::{LayerSprites, SkippedCell, SpriteInstance};
pub use crate::map::{Grid, Tile, TileLayer, TileMap, TileSet};
pub use crate::spawner::{
    AtlasJob, ImageState, LoadState, ResourceError, SpawnRequest, StagedMap, StagedTexture,
    TileMapSpawner,
};
