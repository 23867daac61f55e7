use dungeon_core::components::Position;
use dungeon_core::fov::field_of_view;
use dungeon_core::map::{TileType, WorldMap};

fn blank_map(width: i32, height: i32, tile: TileType) -> WorldMap {
    let n = (width * height) as usize;
    WorldMap {
        tiles: vec![tile; n],
        rooms: Vec::new(),
        width,
        height,
        revealed_tiles: vec![false; n],
        visible_tiles: vec![false; n],
        blocked: vec![false; n],
    }
}

fn contains(v: &[Position], x: i32, y: i32) -> bool {
    v.iter().any(|p| p.x == x && p.y == y)
}

#[test]
fn observer_sees_its_own_cell() {
    let m = blank_map(9, 9, TileType::Floor);
    let fov = field_of_view(&m, 4, 4, 3);
    assert!(contains(&fov, 4, 4));
}

#[test]
fn open_field_viewshed_is_clipped_to_range_and_bounds() {
    let m = blank_map(9, 9, TileType::Floor);
    let fov = field_of_view(&m, 0, 0, 3);
    // within Euclidean range and in bounds
    for p in fov.iter() {
        assert!(p.x >= 0 && p.x < 9 && p.y >= 0 && p.y < 9);
        assert!(p.x * p.x + p.y * p.y <= 9);
    }
    assert!(contains(&fov, 3, 0));
    assert!(!contains(&fov, 4, 0));
    assert!(!contains(&fov, 3, 3));
}

#[test]
fn walls_block_sight_but_are_themselves_seen() {
    let mut m = blank_map(7, 3, TileType::Floor);
    let wall_idx = m.xy_idx(3, 1);
    m.tiles[wall_idx] = TileType::Wall;
    let fov = field_of_view(&m, 0, 1, 6);
    // the wall itself is visible
    assert!(contains(&fov, 3, 1));
    // the cells straight behind it along the row are not
    assert!(!contains(&fov, 4, 1));
    assert!(!contains(&fov, 5, 1));
    // cells before it are
    assert!(contains(&fov, 2, 1));
}

#[test]
fn viewshed_recomputation_is_deterministic() {
    let mut m = blank_map(15, 15, TileType::Floor);
    for x in 3..8 {
        let idx = m.xy_idx(x, 6);
        m.tiles[idx] = TileType::Wall;
    }
    let a = field_of_view(&m, 7, 7, 8);
    let b = field_of_view(&m, 7, 7, 8);
    assert_eq!(a.len(), b.len());
    for i in 0..a.len() {
        assert_eq!(a[i].x, b[i].x);
        assert_eq!(a[i].y, b[i].y);
    }
}
