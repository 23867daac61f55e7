use bracket_lib::random::RandomNumberGenerator;
use dungeon_core::map::{TileType, WorldMap};
use dungeon_core::pathfind::find_path;
use dungeon_core::systems::MapIndexingSystem;

fn blank_map(width: i32, height: i32, tile: TileType) -> WorldMap {
    let n = (width * height) as usize;
    WorldMap {
        tiles: vec![tile; n],
        rooms: Vec::new(),
        width,
        height,
        revealed_tiles: vec![false; n],
        visible_tiles: vec![false; n],
        blocked: vec![false; n],
    }
}

#[test]
fn index_round_trip() {
    let m = blank_map(7, 5, TileType::Wall);
    for y in 0..5 {
        for x in 0..7 {
            let idx = m.xy_idx(x, y);
            assert_eq!(m.idx_xy(idx), (x, y));
        }
    }
}

#[test]
fn tunnel_carving_never_writes_the_corners() {
    let mut m = blank_map(6, 4, TileType::Wall);
    // a tunnel along the top row would cover index 0; along the bottom row,
    // the final index: the clamp must keep both walls
    m.apply_horizontal_tunnel(0, 5, 0);
    m.apply_horizontal_tunnel(0, 5, 3);
    assert_eq!(m.tiles[0], TileType::Wall);
    assert_eq!(m.tiles[6 * 4 - 1], TileType::Wall);
    // the cells between were carved
    assert_eq!(m.tiles[1], TileType::Floor);
    assert_eq!(m.tiles[6 * 4 - 2], TileType::Floor);
}

#[test]
fn vertical_tunnel_clamps_too() {
    let mut m = blank_map(4, 6, TileType::Wall);
    m.apply_vertical_tunnel(0, 5, 0);
    m.apply_vertical_tunnel(0, 5, 3);
    assert_eq!(m.tiles[0], TileType::Wall);
    assert_eq!(m.tiles[4 * 6 - 1], TileType::Wall);
    assert_eq!(m.tiles[4], TileType::Floor);
}

#[test]
fn generated_map_has_floor_at_room_centers() {
    let mut rng = RandomNumberGenerator::seeded(7);
    let m = WorldMap::generate(40, 30, 10, 4, 8, &mut rng);
    assert!(m.tiles.len() == 40 * 30);
    for room in m.rooms.iter() {
        let (cx, cy) = room.center();
        let idx = m.xy_idx(cx, cy);
        assert_eq!(m.tiles[idx], TileType::Floor);
    }
}

#[test]
fn generated_rooms_do_not_overlap() {
    let mut rng = RandomNumberGenerator::seeded(11);
    let m = WorldMap::generate(50, 40, 12, 4, 9, &mut rng);
    for i in 0..m.rooms.len() {
        for j in 0..m.rooms.len() {
            if i != j {
                assert!(!m.rooms[i].intersect(&m.rooms[j]));
            }
        }
    }
}

#[test]
fn generated_map_keeps_its_boundary_ring() {
    let mut rng = RandomNumberGenerator::seeded(3);
    let m = WorldMap::generate(30, 20, 8, 4, 7, &mut rng);
    for x in 0..30 {
        assert_eq!(m.tiles[m.xy_idx(x, 0)], TileType::Wall);
        assert_eq!(m.tiles[m.xy_idx(x, 19)], TileType::Wall);
    }
    for y in 0..20 {
        assert_eq!(m.tiles[m.xy_idx(0, y)], TileType::Wall);
        assert_eq!(m.tiles[m.xy_idx(29, y)], TileType::Wall);
    }
}

#[test]
fn consecutive_rooms_are_connected() {
    // after generation, a path of non-wall cells joins consecutive room
    // centers: check it with the pathfinder over the walls-only blocked grid
    let mut rng = RandomNumberGenerator::seeded(5);
    let mut m = WorldMap::generate(40, 30, 10, 4, 8, &mut rng);
    m.populate_blocked();
    for i in 1..m.rooms.len() {
        let (ax, ay) = m.rooms[i - 1].center();
        let (bx, by) = m.rooms[i].center();
        let start = m.xy_idx(ax, ay);
        let goal = m.xy_idx(bx, by);
        let path = find_path(&m, start, goal);
        assert!(path.success, "rooms {} and {} must be connected", i - 1, i);
    }
}

#[test]
fn end_to_end_generation_scenario() {
    // a 20 x 15 map with up to 5 rooms sized 4..6: find a seed that accepts
    // at least two rooms, then check the first room's center and the
    // rebuilt blocked grid there
    let mut chosen: Option<WorldMap> = None;
    for seed in 0..200u64 {
        let mut rng = RandomNumberGenerator::seeded(seed);
        let m = WorldMap::generate(20, 15, 5, 4, 6, &mut rng);
        if m.rooms.len() >= 2 {
            chosen = Some(m);
            break;
        }
    }
    let mut m = chosen.expect("some seed must accept at least two rooms");
    assert!(m.rooms.len() >= 2);
    let (cx, cy) = m.rooms[0].center();
    let idx = m.xy_idx(cx, cy);
    assert_eq!(m.tiles[idx], TileType::Floor);
    let mut indexer = MapIndexingSystem {};
    let no_entities = Vec::new();
    indexer.run(&mut m, &no_entities);
    assert!(!m.blocked[idx]);
}
