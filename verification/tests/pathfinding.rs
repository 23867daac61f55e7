use dungeon_core::map::{TileType, WorldMap};
use dungeon_core::pathfind::find_path;

fn blank_map(width: i32, height: i32, tile: TileType) -> WorldMap {
    let n = (width * height) as usize;
    WorldMap {
        tiles: vec![tile; n],
        rooms: Vec::new(),
        width,
        height,
        revealed_tiles: vec![false; n],
        visible_tiles: vec![false; n],
        blocked: vec![false; n],
    }
}

#[test]
fn straight_corridor_path_is_optimal() {
    // a single straight corridor of length 4 between (1,1) and (5,1)
    let mut m = blank_map(7, 3, TileType::Wall);
    for x in 1..=5 {
        let idx = m.xy_idx(x, 1);
        m.tiles[idx] = TileType::Floor;
    }
    m.populate_blocked();
    let start = m.xy_idx(1, 1);
    let goal = m.xy_idx(5, 1);
    let path = find_path(&m, start, goal);
    assert!(path.success);
    // steps include both endpoints: N + 1 cells for a corridor of length N
    assert_eq!(path.steps.len(), 5);
    assert_eq!(path.steps[0], start);
    assert_eq!(path.steps[4], goal);
}

#[test]
fn fully_enclosed_goal_is_unreachable() {
    let mut m = blank_map(9, 9, TileType::Wall);
    // an open area on the left, a sealed cell at (7,7)
    for y in 1..=3 {
        for x in 1..=3 {
            let idx = m.xy_idx(x, y);
            m.tiles[idx] = TileType::Floor;
        }
    }
    let sealed = m.xy_idx(7, 7);
    m.tiles[sealed] = TileType::Floor;
    m.populate_blocked();
    let start = m.xy_idx(1, 1);
    let path = find_path(&m, start, sealed);
    assert!(!path.success);
    assert!(path.steps.is_empty());
}

#[test]
fn start_equals_goal_reports_failure() {
    let m = blank_map(5, 5, TileType::Floor);
    let c = m.xy_idx(2, 2);
    let path = find_path(&m, c, c);
    assert!(!path.success);
}

#[test]
fn path_goes_around_an_obstacle() {
    // a 5x5 open room with a vertical wall leaving a gap at the bottom
    let mut m = blank_map(7, 7, TileType::Wall);
    for y in 1..=5 {
        for x in 1..=5 {
            let idx = m.xy_idx(x, y);
            m.tiles[idx] = TileType::Floor;
        }
    }
    for y in 1..=4 {
        let idx = m.xy_idx(3, y);
        m.tiles[idx] = TileType::Wall;
    }
    m.populate_blocked();
    let start = m.xy_idx(1, 1);
    let goal = m.xy_idx(5, 1);
    let path = find_path(&m, start, goal);
    assert!(path.success);
    // the detour through (3,5) costs 12 steps: 13 cells with both ends
    assert_eq!(path.steps.len(), 13);
    // every step is a cardinal move onto a non-blocked cell
    for w in path.steps.windows(2) {
        let (ax, ay) = m.idx_xy(w[0]);
        let (bx, by) = m.idx_xy(w[1]);
        assert_eq!((ax - bx).abs() + (ay - by).abs(), 1);
        assert!(!m.blocked[w[1]]);
    }
}
