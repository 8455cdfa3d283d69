use tilemap::{Grid, Tile, TileLayer, TileMap, TileSet};

fn tile(id: u32, path: &str) -> Tile {
    Tile { id, image: path.to_string(), imageheight: 16, imagewidth: 16 }
}

fn tile_set(firstgid: i32, tiles: Vec<Tile>) -> TileSet {
    TileSet { firstgid, tilewidth: 16, tileheight: 16, tiles, ..TileSet::default() }
}

#[test]
fn the_image_paths_go_tile_set_by_tile_set() {
    let map = TileMap {
        tilesets: vec![
            tile_set(1, vec![tile(0, "a.png"), tile(1, "b.png")]),
            tile_set(3, vec![]),
            tile_set(3, vec![tile(0, "c.png")]),
        ],
        ..TileMap::default()
    };
    assert_eq!(map.image_paths(), vec!["a.png", "b.png", "c.png"]);
}

#[test]
fn the_image_paths_of_a_tile_set_go_tile_by_tile() {
    let set = tile_set(1, vec![tile(3, "c.png"), tile(1, "a.png"), tile(2, "b.png")]);
    assert_eq!(set.image_paths(), vec!["c.png", "a.png", "b.png"]);
    assert!(tile_set(1, vec![]).image_paths().is_empty());
}

#[test]
fn a_map_without_tiles_has_no_image_paths() {
    assert!(TileMap::default().image_paths().is_empty());
    let map = TileMap { tilesets: vec![tile_set(1, vec![])], ..TileMap::default() };
    assert!(map.image_paths().is_empty());
}

#[test]
fn a_path_that_occurs_twice_is_listed_twice() {
    let map = TileMap {
        tilesets: vec![tile_set(1, vec![tile(0, "a.png"), tile(1, "a.png")])],
        ..TileMap::default()
    };
    assert_eq!(map.image_paths(), vec!["a.png", "a.png"]);
}

#[test]
fn the_default_descriptions_are_empty() {
    let map = TileMap::default();
    assert_eq!((map.width, map.height, map.tilewidth, map.tileheight), (0, 0, 0, 0));
    assert!(map.layers.is_empty() && map.tilesets.is_empty() && map.orientation.is_empty());
    let layer = TileLayer::default();
    assert!(layer.data.is_empty() && layer.name.is_empty());
    let grid = Grid::default();
    assert_eq!((grid.width, grid.height), (0, 0));
    assert!(TileSet::default().tiles.is_empty());
    assert!(Tile::default().image.is_empty());
}
