//! The description of a tile map, as read from a map file.

use vstd::prelude::*;

verus! {

/// One tile of a tile set: a local id and the path of its image.
#[derive(Debug, Default)]
pub struct Tile {
    pub id: u32,
    pub image: String,
    pub imageheight: u32,
    pub imagewidth: u32,
}

/// The grid settings of a tile set.
#[derive(Debug, Default)]
pub struct Grid {
    pub height: u32,
    pub width: u32,
    pub orientation: String,
}

/// A collection of tiles that share a first id. A cell of a layer holds the
/// first id plus the position of a tile in `tiles`.
#[derive(Debug, Default)]
pub struct TileSet {
    pub columns: u32,
    pub firstgid: i32,
    pub grid: Grid,
    pub margin: u32,
    pub name: String,
    pub spacing: u32,
    pub tilecount: u32,
    pub tileheight: u32,
    pub tilewidth: u32,
    pub tiles: Vec<Tile>,
}

/// One drawable plane of a map: its cells in row-major order, and the
/// position of its first cell. The opacity is carried as the bits of a
/// 32-bit float; the pipeline does not look at it.
#[derive(Debug, Default)]
pub struct TileLayer {
    pub data: Vec<i32>,
    pub height: u32,
    pub width: u32,
    pub id: u32,
    pub name: String,
    pub opacity_bits: u32,
    pub x: u32,
    pub y: u32,
}

/// A tile map: its layers and the tile sets that their cells refer to.
#[derive(Debug, Default)]
pub struct TileMap {
    pub height: u32,
    pub width: u32,
    pub orientation: String,
    pub layers: Vec<TileLayer>,
    pub tilesets: Vec<TileSet>,
    pub tilewidth: u32,
    pub tileheight: u32,
}

impl TileLayer {
    /// A layer holds one cell for each position of its grid.
    pub open spec fn well_formed(&self) -> bool {
        self.data@.len() == self.width * self.height
    }
}

impl TileSet {
    /// The image paths of the tiles, in the order of the tiles.
    pub open spec fn spec_image_paths(&self) -> Seq<String> {
        self.tiles@.map_values(|tile: Tile| tile.image)
    }

    /// The image path of every tile, in the order of the tiles.
    pub fn image_paths(&self) -> (paths: Vec<String>)
        ensures
            paths@ == self.spec_image_paths(),
    {
        let mut paths: Vec<String> = Vec::new();
        let mut t: usize = 0;
        while t < self.tiles.len()
            invariant
                t <= self.tiles@.len(),
                paths@ == self.spec_image_paths().take(t as int),
            decreases self.tiles@.len() - t,
        {
            paths.push(self.tiles[t].image.clone());
            t += 1;
        }
        paths
    }
}

/// The image paths of all tiles of `sets`: those of the first set, then
/// those of the second, and so on.
pub open spec fn image_paths_of(sets: Seq<TileSet>) -> Seq<String>
    decreases sets.len(),
{
    if sets.len() == 0 {
        Seq::empty()
    } else {
        image_paths_of(sets.drop_last()) + sets.last().spec_image_paths()
    }
}

impl TileMap {
    /// The image paths of all tiles of the map, tile set by tile set.
    pub open spec fn spec_image_paths(&self) -> Seq<String> {
        image_paths_of(self.tilesets@)
    }

    /// The image path of every tile of every tile set, in order. These are
    /// the images that have to be loaded before the map can be shown.
    pub fn image_paths(&self) -> (paths: Vec<String>)
        ensures
            paths@ == self.spec_image_paths(),
    {
        let mut paths: Vec<String> = Vec::new();
        let mut s: usize = 0;
        while s < self.tilesets.len()
            invariant
                s <= self.tilesets@.len(),
                paths@ == image_paths_of(self.tilesets@.take(s as int)),
            decreases self.tilesets@.len() - s,
        {
            let mut more = self.tilesets[s].image_paths();
            paths.append(&mut more);
            assert(self.tilesets@.take(s + 1).drop_last() == self.tilesets@.take(s as int));
            s += 1;
        }
        assert(self.tilesets@.take(s as int) == self.tilesets@);
        paths
    }
}

} // verus!
