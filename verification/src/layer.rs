//! Turning a layer of a loaded map into sprites.
//!
//! A cursor walks the cells of the layer in row-major order. It starts at the
//! position of the layer, moves right by one tile width after every cell, and
//! returns to the left edge one tile height further down whenever its
//! horizontal position reaches a multiple of the width of a row. A cell that
//! names a tile yields a sprite at the cursor; a cell below the first id of
//! the tile set is empty and yields nothing.
//!
//! Only the first tile set of a map is consulted. A cell that names a tile
//! which that set does not have, or a tile whose image was never resolved or
//! has no region in the atlas (an image that failed to load has none), is
//! left out and reported, and the other cells are drawn.

use vstd::prelude::*;
use vstd::arithmetic::div_mod::{
    lemma_fundamental_div_mod, lemma_fundamental_div_mod_converse, lemma_mod_pos_bound,
};
use crate::atlas::{AtlasView, LoadedTileMap};
use crate::error::ConfigurationError;
use crate::handle::{AtlasHandle, ImageHandle};
use crate::map::{TileLayer, TileMap, TileSet};

verus! {

/// A sprite to be shown: where it stands, which tile of the tile set it
/// shows, and the region of which atlas holds the picture.
#[derive(Clone, Copy, Debug, PartialEq, Eq, Structural)]
pub struct SpriteInstance {
    pub x: u128,
    pub y: u128,
    pub tile: u32,
    pub index: usize,
    pub texture_atlas: AtlasHandle,
}

/// A cell that names a tile for which no picture could be found.
#[derive(Clone, Copy, Debug, PartialEq, Eq, Structural)]
pub struct SkippedCell {
    pub cell: usize,
    pub tile: u32,
}

/// What a layer expands to: its sprites, in the order of their cells, and
/// the cells that had to be left out.
#[derive(Debug)]
pub struct LayerSprites {
    pub sprites: Vec<SpriteInstance>,
    pub skipped: Vec<SkippedCell>,
}

/// A position of the cursor.
pub struct Cursor {
    pub x: int,
    pub y: int,
}

/// What a cell of a layer turns out to be.
pub enum Cell {
    /// The cell names no tile.
    Empty,
    /// The cell names `tile`, and no picture was found for it.
    Skipped { tile: int },
    /// The cell names `tile`, whose picture is region `index` of the atlas.
    Drawn { tile: int, index: int },
}

/// The width of a row of `layer` in the units of the cursor.
pub open spec fn row_width(layer: TileLayer, set: TileSet) -> int {
    layer.width * set.tilewidth
}

/// The cursor after it has left a cell at `cursor`.
pub open spec fn advance(layer: TileLayer, set: TileSet, cursor: Cursor) -> Cursor {
    let x = cursor.x + set.tilewidth;
    if row_width(layer, set) > 0 && x % row_width(layer, set) == 0 {
        Cursor { x: layer.x as int, y: cursor.y + set.tileheight }
    } else {
        Cursor { x, y: cursor.y }
    }
}

/// The cursor when it stands on cell `k`.
pub open spec fn cursor_at(layer: TileLayer, set: TileSet, k: nat) -> Cursor
    decreases k,
{
    if k == 0 {
        Cursor { x: layer.x as int, y: layer.y as int }
    } else {
        advance(layer, set, cursor_at(layer, set, (k - 1) as nat))
    }
}

/// What cell `k` of `layer` turns out to be. `images[t]` is the image that
/// was resolved for tile `t` of `set`, if any.
pub open spec fn cell_at(
    atlas: AtlasView,
    layer: TileLayer,
    set: TileSet,
    images: Seq<Option<ImageHandle>>,
    k: int,
) -> Cell {
    let tile = layer.data@[k] - set.firstgid;
    if tile < 0 {
        Cell::Empty
    } else if tile >= set.tiles@.len() || tile >= images.len() {
        Cell::Skipped { tile }
    } else {
        match images[tile] {
            None => Cell::Skipped { tile },
            Some(image) => match atlas.region_index(image) {
                None => Cell::Skipped { tile },
                Some(index) => Cell::Drawn { tile, index },
            },
        }
    }
}

/// The sprites of the first `n` cells of `layer`.
pub open spec fn sprites_of(
    atlas: AtlasView,
    layer: TileLayer,
    set: TileSet,
    images: Seq<Option<ImageHandle>>,
    n: nat,
) -> Seq<SpriteInstance>
    decreases n,
{
    if n == 0 {
        Seq::empty()
    } else {
        let k = (n - 1) as nat;
        let before = sprites_of(atlas, layer, set, images, k);
        match cell_at(atlas, layer, set, images, k as int) {
            Cell::Drawn { tile, index } => before.push(
                SpriteInstance {
                    x: cursor_at(layer, set, k).x as u128,
                    y: cursor_at(layer, set, k).y as u128,
                    tile: tile as u32,
                    index: index as usize,
                    texture_atlas: atlas.texture_atlas,
                },
            ),
            _ => before,
        }
    }
}

/// The cells among the first `n` of `layer` that are left out.
pub open spec fn skipped_of(
    atlas: AtlasView,
    layer: TileLayer,
    set: TileSet,
    images: Seq<Option<ImageHandle>>,
    n: nat,
) -> Seq<SkippedCell>
    decreases n,
{
    if n == 0 {
        Seq::empty()
    } else {
        let k = (n - 1) as nat;
        let before = skipped_of(atlas, layer, set, images, k);
        match cell_at(atlas, layer, set, images, k as int) {
            Cell::Skipped { tile } => before.push(
                SkippedCell { cell: k as usize, tile: tile as u32 },
            ),
            _ => before,
        }
    }
}

/// The cursor never moves left of or above the start of the layer, and
/// after `k` cells it has moved at most `k` tiles to the right and `k`
/// tiles down.
pub proof fn lemma_cursor_bounds(layer: TileLayer, set: TileSet, k: nat)
    ensures
        layer.x <= cursor_at(layer, set, k).x <= layer.x + k * set.tilewidth,
        layer.y <= cursor_at(layer, set, k).y <= layer.y + k * set.tileheight,
    decreases k,
{
    if k > 0 {
        lemma_cursor_bounds(layer, set, (k - 1) as nat);
        assert(k * set.tilewidth == (k - 1) * set.tilewidth + set.tilewidth) by (nonlinear_arith);
        assert(k * set.tileheight == (k - 1) * set.tileheight + set.tileheight)
            by (nonlinear_arith);
        assert((k - 1) * set.tilewidth >= 0) by (nonlinear_arith)
            requires
                k >= 1,
        ;
        assert((k - 1) * set.tileheight >= 0) by (nonlinear_arith)
            requires
                k >= 1,
        ;
    }
}

/// Every cell is drawn, left out or empty: the sprites and the cells that
/// are left out are together no more than the cells.
pub proof fn lemma_sprites_bounded(
    atlas: AtlasView,
    layer: TileLayer,
    set: TileSet,
    images: Seq<Option<ImageHandle>>,
    n: nat,
)
    ensures
        sprites_of(atlas, layer, set, images, n).len() + skipped_of(
            atlas,
            layer,
            set,
            images,
            n,
        ).len() <= n,
    decreases n,
{
    if n > 0 {
        lemma_sprites_bounded(atlas, layer, set, images, (n - 1) as nat);
    }
}

/// On a layer that starts on a row boundary the cursor walks a grid: cell
/// `k` stands in column `k % width` of row `k / width`.
pub proof fn lemma_cursor_on_grid(layer: TileLayer, set: TileSet, k: nat)
    requires
        layer.width > 0,
        set.tilewidth > 0,
        layer.x as int % row_width(layer, set) == 0,
    ensures
        cursor_at(layer, set, k).x == layer.x + (k as int % layer.width as int) * set.tilewidth,
        cursor_at(layer, set, k).y == layer.y + (k as int / layer.width as int) * set.tileheight,
    decreases k,
{
    let width = layer.width as int;
    let step = set.tilewidth as int;
    let drop = set.tileheight as int;
    let row = row_width(layer, set);
    assert(row == width * step);
    assert(row > 0) by (nonlinear_arith)
        requires
            row == width * step,
            width > 0,
            step > 0,
    ;
    if k == 0 {
        lemma_fundamental_div_mod_converse(0, width, 0, 0);
    } else {
        let c = (k - 1) as int;
        lemma_cursor_on_grid(layer, set, c as nat);
        let q = c / width;
        let r = c % width;
        lemma_fundamental_div_mod(c, width);
        lemma_mod_pos_bound(c, width);
        assert(width * q == q * width) by (nonlinear_arith);
        let start = layer.x as int;
        let m = start / row;
        lemma_fundamental_div_mod(start, row);
        assert(row * m == m * row) by (nonlinear_arith);
        let moved = (r + 1) * step;
        assert(moved == r * step + step) by (nonlinear_arith)
            requires
                moved == (r + 1) * step,
        ;
        let next = start + moved;
        assert(advance(layer, set, cursor_at(layer, set, c as nat)).x == (if next % row == 0 {
            start
        } else {
            next
        }));
        if r + 1 < width {
            assert(0 < moved < row) by (nonlinear_arith)
                requires
                    moved == (r + 1) * step,
                    row == width * step,
                    0 <= r,
                    r + 1 < width,
                    step > 0,
            ;
            lemma_fundamental_div_mod_converse(next, row, m, moved);
            lemma_fundamental_div_mod_converse(k as int, width, q, r + 1);
        } else {
            assert(moved == row);
            assert(next == (m + 1) * row) by (nonlinear_arith)
                requires
                    next == start + row,
                    start == m * row,
            ;
            lemma_fundamental_div_mod_converse(next, row, m + 1, 0);
            assert(k == (q + 1) * width) by (nonlinear_arith)
                requires
                    k == c + 1,
                    c == q * width + r,
                    r + 1 == width,
            ;
            lemma_fundamental_div_mod_converse(k as int, width, q + 1, 0);
            assert((q + 1) * drop == q * drop + drop) by (nonlinear_arith);
            assert(0 * step == 0);
        }
    }
}

impl LoadedTileMap {
    /// Expands layer `layer` of `tilemap`, the map of this atlas, into
    /// sprites. `images[t]` is the image that the store resolved for the
    /// path of tile `t` of the first tile set, `None` where it knows none; a
    /// tile beyond the end of `images` counts as unresolved.
    ///
    /// A layer that the map does not have is an error. The map must have a
    /// tile set.
    pub fn expand_layer(
        &self,
        tilemap: &TileMap,
        layer: u32,
        images: &Vec<Option<ImageHandle>>,
    ) -> (result: Result<LayerSprites, ConfigurationError>)
        requires
            tilemap.tilesets@.len() > 0,
        ensures
            result is Err <==> layer >= tilemap.layers@.len(),
            result matches Err(error) ==> error == (ConfigurationError::LayerOutOfRange {
                tilemap: self@.tilemap,
                layer,
            }),
            result matches Ok(expanded) ==> {
                let cells = tilemap.layers@[layer as int];
                let set = tilemap.tilesets@[0];
                &&& expanded.sprites@ == sprites_of(self@, cells, set, images@, cells.data@.len())
                &&& expanded.skipped@ == skipped_of(self@, cells, set, images@, cells.data@.len())
                &&& expanded.sprites@.len() + expanded.skipped@.len() <= cells.data@.len()
                &&& cells.well_formed() ==> expanded.sprites@.len() + expanded.skipped@.len()
                    <= cells.width * cells.height
            },
    {
        if layer as usize >= tilemap.layers.len() {
            return Err(ConfigurationError::LayerOutOfRange { tilemap: self.tilemap(), layer });
        }
        let cells = &tilemap.layers[layer as usize];
        let set = &tilemap.tilesets[0];
        assert(cells.width * set.tilewidth <= 0xffff_ffff * 0xffff_ffff) by (nonlinear_arith)
            requires
                0 <= cells.width <= 0xffff_ffff,
                0 <= set.tilewidth <= 0xffff_ffff,
        ;
        let row: u128 = cells.width as u128 * set.tilewidth as u128;
        let mut sprites: Vec<SpriteInstance> = Vec::new();
        let mut skipped: Vec<SkippedCell> = Vec::new();
        let mut x: u128 = cells.x as u128;
        let mut y: u128 = cells.y as u128;
        let mut k: usize = 0;
        while k < cells.data.len()
            invariant
                k <= cells.data@.len(),
                row == row_width(*cells, *set),
                x == cursor_at(*cells, *set, k as nat).x,
                y == cursor_at(*cells, *set, k as nat).y,
                sprites@ == sprites_of(self@, *cells, *set, images@, k as nat),
                skipped@ == skipped_of(self@, *cells, *set, images@, k as nat),
            decreases cells.data@.len() - k,
        {
            proof {
                lemma_cursor_bounds(*cells, *set, k as nat);
                assert(k * set.tilewidth <= 0xffff_ffff_ffff_ffff * 0xffff_ffff)
                    by (nonlinear_arith)
                    requires
                        0 <= k <= 0xffff_ffff_ffff_ffff,
                        0 <= set.tilewidth <= 0xffff_ffff,
                ;
                assert(k * set.tileheight <= 0xffff_ffff_ffff_ffff * 0xffff_ffff)
                    by (nonlinear_arith)
                    requires
                        0 <= k <= 0xffff_ffff_ffff_ffff,
                        0 <= set.tileheight <= 0xffff_ffff,
                ;
            }
            let tile: i64 = cells.data[k] as i64 - set.firstgid as i64;
            if tile >= 0 {
                let known = (tile as u64) < set.tiles.len() as u64
                    && (tile as u64) < images.len() as u64;
                let found: Option<usize> = if known {
                    match images[tile as usize] {
                        Some(image) => self.get_texture_index(image),
                        None => None,
                    }
                } else {
                    None
                };
                match found {
                    Some(index) => {
                        sprites.push(
                            SpriteInstance {
                                x,
                                y,
                                tile: tile as u32,
                                index,
                                texture_atlas: self.texture_atlas(),
                            },
                        );
                    },
                    None => {
                        skipped.push(SkippedCell { cell: k, tile: tile as u32 });
                    },
                }
            }
            x = x + set.tilewidth as u128;
            if row > 0 && x % row == 0 {
                x = cells.x as u128;
                y = y + set.tileheight as u128;
            }
            k += 1;
        }
        proof {
            lemma_sprites_bounded(self@, *cells, *set, images@, cells.data@.len());
        }
        Ok(LayerSprites { sprites, skipped })
    }
}

} // verus!
