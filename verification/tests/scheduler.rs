use bracket_lib::random::RandomNumberGenerator;
use dungeon_core::components::{Entity, MonsterKind, MoveIntent, Position, Role, Viewshed};
use dungeon_core::map::{TileType, WorldMap};
use dungeon_core::state::{RunState, State, build_initial_state, player_input,
    try_move_player};

fn open_room_map(width: i32, height: i32) -> WorldMap {
    let n = (width * height) as usize;
    let mut m = WorldMap {
        tiles: vec![TileType::Floor; n],
        rooms: Vec::new(),
        width,
        height,
        revealed_tiles: vec![false; n],
        visible_tiles: vec![false; n],
        blocked: vec![false; n],
    };
    for x in 0..width {
        let top = m.xy_idx(x, 0);
        let bottom = m.xy_idx(x, height - 1);
        m.tiles[top] = TileType::Wall;
        m.tiles[bottom] = TileType::Wall;
    }
    for y in 0..height {
        let left = m.xy_idx(0, y);
        let right = m.xy_idx(width - 1, y);
        m.tiles[left] = TileType::Wall;
        m.tiles[right] = TileType::Wall;
    }
    m
}

fn player(x: i32, y: i32) -> Entity {
    Entity {
        role: Role::Player,
        pos: Position { x, y },
        viewshed: Viewshed { visible_tiles: Vec::new(), range: 8, dirty: true },
        blocks_tile: false,
    }
}

fn monster(x: i32, y: i32) -> Entity {
    Entity {
        role: Role::Monster(MonsterKind::Goblin),
        pos: Position { x, y },
        viewshed: Viewshed { visible_tiles: Vec::new(), range: 8, dirty: true },
        blocks_tile: true,
    }
}

#[test]
fn accepted_move_alternates_paused_running_paused() {
    let map = open_room_map(9, 9);
    let mut gs = State {
        map,
        entities: vec![player(4, 4)],
        player_pos: Position { x: 4, y: 4 },
        run_state: RunState::Paused,
    };
    // an accepted movement intent flips the scheduler to Running
    gs.tick(Some(MoveIntent { dx: 1, dy: 0 }));
    assert_eq!(gs.run_state, RunState::Running);
    assert_eq!(gs.entities[0].pos, Position { x: 5, y: 4 });
    assert_eq!(gs.player_pos, Position { x: 5, y: 4 });
    assert!(gs.entities[0].viewshed.dirty);
    // exactly one simulation pass brings it back to Paused, with the
    // player's viewshed recomputed before the next render
    gs.tick(None);
    assert_eq!(gs.run_state, RunState::Paused);
    assert!(!gs.entities[0].viewshed.dirty);
    assert!(!gs.entities[0].viewshed.visible_tiles.is_empty());
}

#[test]
fn absent_intent_consumes_no_tick() {
    let map = open_room_map(9, 9);
    let mut gs = State {
        map,
        entities: vec![player(4, 4)],
        player_pos: Position { x: 4, y: 4 },
        run_state: RunState::Paused,
    };
    gs.tick(None);
    assert_eq!(gs.run_state, RunState::Paused);
    assert_eq!(gs.entities[0].pos, Position { x: 4, y: 4 });
}

#[test]
fn blocked_move_is_silently_rejected() {
    let mut map = open_room_map(9, 9);
    let wall_side = map.xy_idx(5, 4);
    map.blocked[wall_side] = true;
    let mut gs = State {
        map,
        entities: vec![player(4, 4)],
        player_pos: Position { x: 4, y: 4 },
        run_state: RunState::Paused,
    };
    let moved = try_move_player(1, 0, &mut gs);
    assert!(!moved);
    assert_eq!(gs.entities[0].pos, Position { x: 4, y: 4 });
    assert_eq!(gs.player_pos, Position { x: 4, y: 4 });
    // and through the scheduler: no tick is consumed
    let r = player_input(&mut gs, Some(MoveIntent { dx: 1, dy: 0 }));
    assert_eq!(r, RunState::Paused);
}

#[test]
fn running_tick_reveals_and_marks_visible() {
    let map = open_room_map(9, 9);
    let mut gs = State {
        map,
        entities: vec![player(4, 4)],
        player_pos: Position { x: 4, y: 4 },
        run_state: RunState::Running,
    };
    gs.tick(None);
    let idx = gs.map.xy_idx(4, 4);
    assert!(gs.map.revealed_tiles[idx]);
    assert!(gs.map.visible_tiles[idx]);
    // revealed tiles stay revealed over later passes
    gs.run_state = RunState::Running;
    gs.tick(None);
    assert!(gs.map.revealed_tiles[idx]);
}

#[test]
fn adjacent_monster_taunts_and_stays() {
    let map = open_room_map(9, 9);
    let mut gs = State {
        map,
        entities: vec![player(4, 4), monster(5, 4)],
        player_pos: Position { x: 4, y: 4 },
        run_state: RunState::Running,
    };
    let taunts = gs.tick(None);
    assert_eq!(taunts, vec![1]);
    assert_eq!(gs.entities[1].pos, Position { x: 5, y: 4 });
}

#[test]
fn distant_monster_pursues_the_player() {
    let map = open_room_map(11, 5);
    let mut gs = State {
        map,
        entities: vec![player(1, 2), monster(8, 2)],
        player_pos: Position { x: 1, y: 2 },
        run_state: RunState::Running,
    };
    let taunts = gs.tick(None);
    assert!(taunts.is_empty());
    // the monster saw the player across the open room and stepped closer
    assert_eq!(gs.entities[1].pos, Position { x: 7, y: 2 });
    assert!(gs.entities[1].viewshed.dirty);
    // the blocked grid was rebuilt after movement: the monster's new cell
    // blocks, its old cell no longer does
    let new_idx = gs.map.xy_idx(7, 2);
    let old_idx = gs.map.xy_idx(8, 2);
    assert!(gs.map.blocked[new_idx]);
    assert!(!gs.map.blocked[old_idx]);
    // every entity's viewshed marks revealed tiles, the monster's too
    assert!(gs.map.revealed_tiles[old_idx]);
    let player_idx = gs.map.xy_idx(1, 2);
    assert!(gs.map.revealed_tiles[player_idx]);
}

#[test]
fn initial_state_spawns_player_and_monsters() {
    let mut found = false;
    for seed in 0..200u64 {
        let mut rng = RandomNumberGenerator::seeded(seed);
        let map = WorldMap::generate(30, 20, 6, 4, 7, &mut rng);
        if map.rooms.len() >= 2 {
            let n_rooms = map.rooms.len();
            let (px, py) = map.rooms[0].center();
            let gs = build_initial_state(map, &mut rng);
            assert_eq!(gs.run_state, RunState::Running);
            assert_eq!(gs.entities.len(), n_rooms);
            assert_eq!(gs.entities[0].role, Role::Player);
            assert_eq!(gs.entities[0].pos, Position { x: px, y: py });
            assert_eq!(gs.player_pos, Position { x: px, y: py });
            for k in 1..gs.entities.len() {
                assert!(matches!(gs.entities[k].role, Role::Monster(_)));
                assert!(gs.entities[k].blocks_tile);
            }
            found = true;
            break;
        }
    }
    assert!(found);
}
