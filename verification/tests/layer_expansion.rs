use tilemap::{
    AtlasHandle, AtlasRegion, ConfigurationError, Grid, ImageHandle, LoadedTileMap, MapHandle,
    PackedAtlas, PackedImage, SkippedCell, SpriteInstance, Tile, TileLayer, TileMap, TileSet,
};

const MAP: MapHandle = MapHandle { id: 7 };
const ATLAS: AtlasHandle = AtlasHandle { id: 70 };

fn image(id: u128) -> ImageHandle {
    ImageHandle { id }
}

fn tile(id: u32, path: &str) -> Tile {
    Tile { id, image: path.to_string(), imageheight: 16, imagewidth: 16 }
}

fn tile_set(firstgid: i32, tilewidth: u32, tileheight: u32, tiles: Vec<Tile>) -> TileSet {
    TileSet {
        columns: 0,
        firstgid,
        grid: Grid { height: 1, width: 1, orientation: "orthogonal".to_string() },
        margin: 0,
        name: "tiles".to_string(),
        spacing: 0,
        tilecount: tiles.len() as u32,
        tileheight,
        tilewidth,
        tiles,
    }
}

fn layer(data: Vec<i32>, width: u32, height: u32, x: u32, y: u32) -> TileLayer {
    let opacity_bits = 1.0f32.to_bits();
    TileLayer { data, height, width, id: 1, name: "ground".to_string(), opacity_bits, x, y }
}

fn map_of(layers: Vec<TileLayer>, tilesets: Vec<TileSet>) -> TileMap {
    TileMap {
        height: 2,
        width: 2,
        orientation: "orthogonal".to_string(),
        layers,
        tilesets,
        tilewidth: 16,
        tileheight: 16,
    }
}

/// An atlas of 16 by 16 images, side by side, one for each id.
fn atlas_of(ids: &[u128]) -> LoadedTileMap {
    let mut images = Vec::new();
    let mut regions = Vec::new();
    for (n, id) in ids.iter().enumerate() {
        images.push(PackedImage { image: image(*id), width: 16, height: 16 });
        let x = 16 * n as u32;
        regions.push(AtlasRegion { image: image(*id), x, y: 0, width: 16, height: 16 });
    }
    let packed = PackedAtlas { texture_atlas: ATLAS, width: 2048, height: 2048, regions };
    LoadedTileMap::build(MAP, &images, Some(packed)).unwrap()
}

fn sprite(x: u128, y: u128, tile: u32, index: usize) -> SpriteInstance {
    SpriteInstance { x, y, tile, index, texture_atlas: ATLAS }
}

#[test]
fn two_by_two_layer_with_an_empty_cell() {
    let map = map_of(
        vec![layer(vec![1, -1, 2, 1], 2, 2, 0, 0)],
        vec![tile_set(1, 16, 16, vec![tile(0, "grass.png"), tile(1, "rock.png")])],
    );
    let atlas = atlas_of(&[100, 101]);
    let out = atlas.expand_layer(&map, 0, &vec![Some(image(100)), Some(image(101))]).unwrap();
    assert_eq!(out.sprites, vec![sprite(0, 0, 0, 0), sprite(0, 16, 1, 1), sprite(16, 16, 0, 0)]);
    assert!(out.skipped.is_empty());
}

#[test]
fn sprites_refer_to_the_region_of_their_image() {
    let map = map_of(
        vec![layer(vec![2, 1], 2, 1, 0, 0)],
        vec![tile_set(1, 16, 16, vec![tile(0, "grass.png"), tile(1, "rock.png")])],
    );
    // The packer placed the second image first.
    let atlas = atlas_of(&[101, 100]);
    let out = atlas.expand_layer(&map, 0, &vec![Some(image(100)), Some(image(101))]).unwrap();
    assert_eq!(out.sprites, vec![sprite(0, 0, 1, 0), sprite(16, 0, 0, 1)]);
}

#[test]
fn cells_below_the_first_id_are_empty_and_still_move_the_cursor() {
    let map = map_of(
        vec![layer(vec![0, 4, 5, 0, 0, 5], 3, 2, 0, 0)],
        vec![tile_set(5, 8, 4, vec![tile(0, "a.png")])],
    );
    let atlas = atlas_of(&[1]);
    let out = atlas.expand_layer(&map, 0, &vec![Some(image(1))]).unwrap();
    assert_eq!(out.sprites, vec![sprite(16, 0, 0, 0), sprite(16, 4, 0, 0)]);
    assert!(out.skipped.is_empty());
}

#[test]
fn rows_wrap_at_the_width_of_the_layer() {
    let map = map_of(
        vec![layer(vec![1, 1, 1, 1, 1, 1], 3, 2, 0, 0)],
        vec![tile_set(1, 10, 20, vec![tile(0, "a.png")])],
    );
    let atlas = atlas_of(&[1]);
    let out = atlas.expand_layer(&map, 0, &vec![Some(image(1))]).unwrap();
    assert_eq!(
        out.sprites,
        vec![
            sprite(0, 0, 0, 0),
            sprite(10, 0, 0, 0),
            sprite(20, 0, 0, 0),
            sprite(0, 20, 0, 0),
            sprite(10, 20, 0, 0),
            sprite(20, 20, 0, 0),
        ]
    );
}

#[test]
fn a_layer_that_starts_on_a_row_boundary_wraps_to_its_own_left_edge() {
    let map = map_of(
        vec![layer(vec![1, 1, 1, 1], 2, 2, 32, 5)],
        vec![tile_set(1, 16, 16, vec![tile(0, "a.png")])],
    );
    let atlas = atlas_of(&[1]);
    let out = atlas.expand_layer(&map, 0, &vec![Some(image(1))]).unwrap();
    assert_eq!(
        out.sprites,
        vec![sprite(32, 5, 0, 0), sprite(48, 5, 0, 0), sprite(32, 21, 0, 0), sprite(48, 21, 0, 0)]
    );
}

#[test]
fn a_layer_that_starts_off_a_row_boundary_wraps_where_the_cursor_meets_one() {
    // The row is 32 wide and the layer starts at 8: the cursor passes 24 and
    // 40 and never stands on a multiple of 32, so it never wraps.
    let map = map_of(
        vec![layer(vec![1, 1, 1], 2, 2, 8, 0)],
        vec![tile_set(1, 16, 16, vec![tile(0, "a.png")])],
    );
    let atlas = atlas_of(&[1]);
    let out = atlas.expand_layer(&map, 0, &vec![Some(image(1))]).unwrap();
    assert_eq!(out.sprites, vec![sprite(8, 0, 0, 0), sprite(24, 0, 0, 0), sprite(40, 0, 0, 0)]);

    // Starting at 16 the cursor reaches 32 after one cell and wraps there.
    let map = map_of(
        vec![layer(vec![1, 1, 1], 2, 2, 16, 0)],
        vec![tile_set(1, 16, 16, vec![tile(0, "a.png")])],
    );
    let out = atlas.expand_layer(&map, 0, &vec![Some(image(1))]).unwrap();
    assert_eq!(out.sprites, vec![sprite(16, 0, 0, 0), sprite(16, 16, 0, 0), sprite(16, 32, 0, 0)]);
}

#[test]
fn a_tile_set_without_width_never_wraps() {
    let map = map_of(
        vec![layer(vec![1, 1], 2, 1, 3, 4)],
        vec![tile_set(1, 0, 16, vec![tile(0, "a.png")])],
    );
    let atlas = atlas_of(&[1]);
    let out = atlas.expand_layer(&map, 0, &vec![Some(image(1))]).unwrap();
    assert_eq!(out.sprites, vec![sprite(3, 4, 0, 0), sprite(3, 4, 0, 0)]);
}

#[test]
fn the_tile_size_of_the_tile_set_moves_the_cursor() {
    let mut map = map_of(
        vec![layer(vec![1, 1, 1], 2, 2, 0, 0)],
        vec![tile_set(1, 16, 16, vec![tile(0, "a.png")])],
    );
    map.tilewidth = 99;
    map.tileheight = 99;
    let atlas = atlas_of(&[1]);
    let out = atlas.expand_layer(&map, 0, &vec![Some(image(1))]).unwrap();
    assert_eq!(out.sprites, vec![sprite(0, 0, 0, 0), sprite(16, 0, 0, 0), sprite(0, 16, 0, 0)]);
}

#[test]
fn only_the_first_tile_set_is_consulted() {
    let map = map_of(
        vec![layer(vec![1, 11], 2, 1, 0, 0)],
        vec![
            tile_set(1, 16, 16, vec![tile(0, "a.png")]),
            tile_set(11, 16, 16, vec![tile(0, "b.png")]),
        ],
    );
    let atlas = atlas_of(&[1, 2]);
    let out = atlas.expand_layer(&map, 0, &vec![Some(image(1))]).unwrap();
    assert_eq!(out.sprites, vec![sprite(0, 0, 0, 0)]);
    assert_eq!(out.skipped, vec![SkippedCell { cell: 1, tile: 10 }]);
}

#[test]
fn a_cell_whose_image_has_no_region_is_left_out() {
    let map = map_of(
        vec![layer(vec![1, 2, 3, 1], 2, 2, 0, 0)],
        vec![tile_set(
            1,
            16,
            16,
            vec![tile(0, "grass.png"), tile(1, "broken.png"), tile(2, "unknown.png")],
        )],
    );
    // The second image failed to load and is not in the atlas; the store
    // knows no image for the third path.
    let atlas = atlas_of(&[100]);
    let out = atlas.expand_layer(&map, 0, &vec![Some(image(100)), Some(image(101)), None]).unwrap();
    assert_eq!(out.sprites, vec![sprite(0, 0, 0, 0), sprite(16, 16, 0, 0)]);
    assert_eq!(
        out.skipped,
        vec![SkippedCell { cell: 1, tile: 1 }, SkippedCell { cell: 2, tile: 2 }]
    );
}

#[test]
fn a_tile_beyond_the_resolved_images_counts_as_unresolved() {
    let map = map_of(
        vec![layer(vec![2], 1, 1, 0, 0)],
        vec![tile_set(1, 16, 16, vec![tile(0, "a.png"), tile(1, "b.png")])],
    );
    let atlas = atlas_of(&[1, 2]);
    let out = atlas.expand_layer(&map, 0, &vec![Some(image(1))]).unwrap();
    assert!(out.sprites.is_empty());
    assert_eq!(out.skipped, vec![SkippedCell { cell: 0, tile: 1 }]);
}

#[test]
fn the_widest_cell_values_do_not_overflow() {
    let map = map_of(
        vec![layer(vec![i32::MAX, i32::MIN], 2, 1, 0, 0)],
        vec![tile_set(i32::MIN, 16, 16, vec![tile(0, "a.png")])],
    );
    let atlas = atlas_of(&[1]);
    let out = atlas.expand_layer(&map, 0, &vec![Some(image(1))]).unwrap();
    assert_eq!(out.sprites, vec![sprite(16, 0, 0, 0)]);
    assert_eq!(out.skipped, vec![SkippedCell { cell: 0, tile: u32::MAX }]);
}

#[test]
fn the_cursor_goes_beyond_the_range_of_the_layer_position() {
    let map = map_of(
        vec![layer(vec![1, 1], 0, 0, u32::MAX, u32::MAX)],
        vec![tile_set(1, u32::MAX, 1, vec![tile(0, "a.png")])],
    );
    let atlas = atlas_of(&[1]);
    let out = atlas.expand_layer(&map, 0, &vec![Some(image(1))]).unwrap();
    let start = u32::MAX as u128;
    assert_eq!(out.sprites, vec![sprite(start, start, 0, 0), sprite(2 * start, start, 0, 0)]);
}

#[test]
fn an_empty_layer_has_no_sprites() {
    let map = map_of(
        vec![layer(vec![], 0, 0, 0, 0)],
        vec![tile_set(1, 16, 16, vec![tile(0, "a.png")])],
    );
    let atlas = atlas_of(&[1]);
    let out = atlas.expand_layer(&map, 0, &vec![Some(image(1))]).unwrap();
    assert!(out.sprites.is_empty());
    assert!(out.skipped.is_empty());
}

#[test]
fn a_layer_that_the_map_does_not_have_is_an_error() {
    let map = map_of(
        vec![layer(vec![1], 1, 1, 0, 0)],
        vec![tile_set(1, 16, 16, vec![tile(0, "a.png")])],
    );
    let atlas = atlas_of(&[1]);
    let result = atlas.expand_layer(&map, 1, &vec![Some(image(1))]);
    assert_eq!(
        result.unwrap_err(),
        ConfigurationError::LayerOutOfRange { tilemap: MAP, layer: 1 }
    );
    let result = atlas.expand_layer(&map, u32::MAX, &vec![Some(image(1))]);
    assert_eq!(
        result.unwrap_err(),
        ConfigurationError::LayerOutOfRange { tilemap: MAP, layer: u32::MAX }
    );
}

#[test]
fn the_second_layer_is_expanded_on_its_own() {
    let map = map_of(
        vec![layer(vec![1], 1, 1, 0, 0), layer(vec![2, 2], 2, 1, 64, 32)],
        vec![tile_set(1, 16, 16, vec![tile(0, "a.png"), tile(1, "b.png")])],
    );
    let atlas = atlas_of(&[1, 2]);
    let out = atlas.expand_layer(&map, 1, &vec![Some(image(1)), Some(image(2))]).unwrap();
    assert_eq!(out.sprites, vec![sprite(64, 32, 1, 1), sprite(80, 32, 1, 1)]);
}

/// The sprites of a layer, worked out cell by cell: move right by one tile
/// after every cell, and wrap wherever the cursor meets a multiple of the
/// row width.
fn walk(
    data: &[i32],
    layer_width: u32,
    x: u32,
    y: u32,
    firstgid: i32,
    tile_width: u32,
    tile_height: u32,
    regions: &[Option<usize>],
) -> (Vec<SpriteInstance>, Vec<SkippedCell>) {
    let mut sprites = Vec::new();
    let mut skipped = Vec::new();
    let row = layer_width as u128 * tile_width as u128;
    let (mut cx, mut cy) = (x as u128, y as u128);
    for (cell, value) in data.iter().enumerate() {
        let tile = *value as i64 - firstgid as i64;
        if tile >= 0 {
            match regions.get(tile as usize).copied().flatten() {
                Some(index) => sprites.push(sprite(cx, cy, tile as u32, index)),
                None => skipped.push(SkippedCell { cell, tile: tile as u32 }),
            }
        }
        cx += tile_width as u128;
        if row != 0 && cx % row == 0 {
            cx = x as u128;
            cy += tile_height as u128;
        }
    }
    (sprites, skipped)
}

#[test]
fn many_layers_expand_as_a_walk_over_their_cells() {
    let mut seed: u64 = 0x2545_f491_4f6c_dd1d;
    let mut next = move |bound: u64| {
        seed ^= seed << 13;
        seed ^= seed >> 7;
        seed ^= seed << 17;
        seed % bound
    };
    for _ in 0..300 {
        let tiles = next(5) as usize;
        let firstgid = next(4) as i32 - 1;
        let tile_width = next(4) as u32 * 8;
        let tile_height = next(3) as u32 * 8;
        let layer_width = next(5) as u32;
        let cells = next(13) as usize;
        let x = next(3) as u32 * 8;
        let y = next(50) as u32;
        let data: Vec<i32> = (0..cells).map(|_| next(8) as i32 - 2).collect();

        // Tile t has image 100 + t; every third image is unresolved, and
        // every fourth is missing from the atlas.
        let images: Vec<Option<ImageHandle>> = (0..tiles)
            .map(|t| if t % 3 == 2 { None } else { Some(image(100 + t as u128)) })
            .collect();
        let packed: Vec<u128> =
            (0..tiles).filter(|t| t % 4 != 3).map(|t| 100 + t as u128).rev().collect();
        let atlas = atlas_of(&packed);
        let regions: Vec<Option<usize>> = images
            .iter()
            .map(|image| image.and_then(|image| packed.iter().position(|id| *id == image.id)))
            .collect();

        let names: Vec<Tile> = (0..tiles).map(|t| tile(t as u32, "tile.png")).collect();
        let map = map_of(
            vec![layer(data.clone(), layer_width, 1, x, y)],
            vec![tile_set(firstgid, tile_width, tile_height, names)],
        );
        let out = atlas.expand_layer(&map, 0, &images).unwrap();
        let (sprites, skipped) =
            walk(&data, layer_width, x, y, firstgid, tile_width, tile_height, &regions);
        assert_eq!(out.sprites, sprites);
        assert_eq!(out.skipped, skipped);
    }
}

#[test]
fn an_aligned_layer_is_a_grid() {
    let width = 5u32;
    let cells = 23usize;
    let map = map_of(
        vec![layer(vec![1; cells], width, 5, 3 * 5 * 12, 9)],
        vec![tile_set(1, 12, 7, vec![tile(0, "a.png")])],
    );
    let atlas = atlas_of(&[1]);
    let out = atlas.expand_layer(&map, 0, &vec![Some(image(1))]).unwrap();
    assert_eq!(out.sprites.len(), cells);
    for (k, found) in out.sprites.iter().enumerate() {
        let column = (k as u128) % width as u128;
        let row = (k as u128) / width as u128;
        assert_eq!((found.x, found.y), (180 + column * 12, 9 + row * 7));
    }
}
