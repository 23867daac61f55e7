//! The simulation context and its two-phase turn scheduler: one full
//! world-simulation pass (visibility, AI, spatial index) per accepted
//! player action, alternating with waiting for player intent.

use vstd::prelude::*;
use crate::components::{Entity, MonsterKind, MoveIntent, Position, Role, Viewshed};
use crate::fov::{fov_of, matches_fov};
use crate::map::{TileType, WorldMap};
use crate::rng::rng_roll_dice;
use crate::systems::{MapIndexingSystem, MonsterAI, VisibilitySystem, entities_ok,
    in_taunt_range, lemma_viewsheds_revealed_same, lemma_visible_grid_matches_same,
    lemma_visible_grid_updated_player, viewsheds_revealed, visible_grid_matches};
use crate::rect::lemma_center_bounds;
use bracket_lib::random::RandomNumberGenerator;

verus! {

/// The scheduler's two phases.
#[derive(Clone, Copy, PartialEq, Eq, Structural, Debug)]
pub enum RunState {
    Running,
    Paused,
}

/// The simulation context: the shared map, the entity store, the shared
/// player-location resource, and the scheduler phase.
pub struct State {
    pub map: WorldMap,
    pub entities: Vec<Entity>,
    pub player_pos: Position,
    pub run_state: RunState,
}

impl State {
    /// Well-formed context: a well-formed map, entities on in-bounds
    /// cells with well-formed viewsheds, at most one player entity, and
    /// an in-bounds player location.
    pub open spec fn wf(self) -> bool {
        &&& self.map.wf()
        &&& entities_ok(self.map, self.entities@)
        &&& forall|i: int, j: int| 0 <= i < j < self.entities@.len()
            ==> !((#[trigger] self.entities@[i]).role == Role::Player
                && (#[trigger] self.entities@[j]).role == Role::Player)
        &&& self.map.in_bounds(self.player_pos.x as int, self.player_pos.y as int)
    }

    /// Entity `k` could step by (dx, dy): the destination is in bounds
    /// and not blocked.
    pub open spec fn can_move(self, k: int, dx: int, dy: int) -> bool {
        let p = self.entities@[k].pos;
        self.map.in_bounds(p.x + dx, p.y + dy)
            && !self.map.blocked@[self.map.idx_of(p.x + dx, p.y + dy)]
    }

    /// Some player entity could step by (dx, dy).
    pub open spec fn player_can_move(self, dx: int, dy: int) -> bool {
        exists|k: int| 0 <= k < self.entities@.len()
            && (#[trigger] self.entities@[k]).role == Role::Player && self.can_move(k, dx, dy)
    }
}

/// Attempts to move every player entity by the given deltas: a move to a
/// blocked or out-of-bounds cell is silently rejected and no state
/// changes; an accepted move updates the position, the shared player
/// location, and marks the viewshed dirty. Returns whether a player
/// moved.
#[verifier::loop_isolation(false)]
#[verifier::rlimit(60)]
pub fn try_move_player(delta_x: i32, delta_y: i32, gs: &mut State) -> (moved: bool)
    requires
        old(gs).wf(),
        -1 <= delta_x <= 1,
        -1 <= delta_y <= 1,
    ensures
        final(gs).wf(),
        final(gs).map == old(gs).map,
        final(gs).run_state == old(gs).run_state,
        final(gs).entities@.len() == old(gs).entities@.len(),
        moved == old(gs).player_can_move(delta_x as int, delta_y as int),
        forall|k: int| 0 <= k < final(gs).entities@.len()
            && (#[trigger] old(gs).entities@[k]).role != Role::Player
            ==> final(gs).entities@[k] == old(gs).entities@[k],
        forall|k: int| 0 <= k < final(gs).entities@.len()
            && (#[trigger] old(gs).entities@[k]).role == Role::Player
            ==> {
                let oe = old(gs).entities@[k];
                let ne = final(gs).entities@[k];
                if old(gs).can_move(k, delta_x as int, delta_y as int) {
                    ne.role == oe.role && ne.blocks_tile == oe.blocks_tile
                        && ne.pos.x == oe.pos.x + delta_x && ne.pos.y == oe.pos.y + delta_y
                        && ne.viewshed.range == oe.viewshed.range
                        && ne.viewshed.visible_tiles@ == oe.viewshed.visible_tiles@
                        && ne.viewshed.dirty
                        && final(gs).player_pos == ne.pos
                } else {
                    ne == oe
                }
            },
        !moved ==> final(gs).player_pos == old(gs).player_pos,
{
    let mut moved = false;
    let mut k: usize = 0;
    while k < gs.entities.len()
        invariant
            k <= gs.entities@.len(),
            gs.map == old(gs).map,
            gs.run_state == old(gs).run_state,
            gs.entities@.len() == old(gs).entities@.len(),
            forall|kk: int| k <= kk < gs.entities@.len()
                ==> #[trigger] gs.entities@[kk] == old(gs).entities@[kk],
            forall|kk: int| 0 <= kk < k
                && (#[trigger] old(gs).entities@[kk]).role != Role::Player
                ==> gs.entities@[kk] == old(gs).entities@[kk],
            forall|kk: int| 0 <= kk < k
                && (#[trigger] old(gs).entities@[kk]).role == Role::Player
                ==> {
                    let oe = old(gs).entities@[kk];
                    let ne = gs.entities@[kk];
                    if old(gs).can_move(kk, delta_x as int, delta_y as int) {
                        ne.role == oe.role && ne.blocks_tile == oe.blocks_tile
                            && ne.pos.x == oe.pos.x + delta_x
                            && ne.pos.y == oe.pos.y + delta_y
                            && ne.viewshed.range == oe.viewshed.range
                            && ne.viewshed.visible_tiles@ == oe.viewshed.visible_tiles@
                            && ne.viewshed.dirty
                            && gs.player_pos == ne.pos
                    } else {
                        ne == oe
                    }
                },
            moved == (exists|kk: int| 0 <= kk < k
                && (#[trigger] old(gs).entities@[kk]).role == Role::Player
                && old(gs).can_move(kk, delta_x as int, delta_y as int)),
            !moved ==> gs.player_pos == old(gs).player_pos,
        decreases gs.entities@.len() - k,
    {
        let is_player = matches!(gs.entities[k].role, Role::Player);
        if is_player {
            let pos = gs.entities[k].pos;
            let nx = pos.x + delta_x;
            let ny = pos.y + delta_y;
            let dest_ok = if gs.map.is_in_bounds(nx, ny) {
                let destination_idx = gs.map.xy_idx(nx, ny);
                !gs.map.blocked[destination_idx]
            } else {
                false
            };
            if dest_ok {
                let range = gs.entities[k].viewshed.range;
                let blocks = gs.entities[k].blocks_tile;
                let vt = crate::components::copy_positions(
                    &gs.entities[k].viewshed.visible_tiles);
                let new_pos = Position { x: nx, y: ny };
                let new_entity = Entity {
                    role: Role::Player,
                    pos: new_pos,
                    viewshed: Viewshed { visible_tiles: vt, range, dirty: true },
                    blocks_tile: blocks,
                };
                gs.entities.set(k, new_entity);
                gs.player_pos = new_pos;
                moved = true;
                proof {
                    assert(old(gs).entities@[k as int].role == Role::Player
                        && old(gs).can_move(k as int, delta_x as int, delta_y as int));
                }
            }
        }
        k += 1;
    }
    proof {
        assert forall|kk: int| 0 <= kk < gs.entities@.len()
            implies gs.map.in_bounds(((#[trigger] gs.entities@[kk]).pos.x) as int,
                gs.entities@[kk].pos.y as int) && gs.entities@[kk].viewshed.wf()
                && gs.entities@[kk].role == old(gs).entities@[kk].role by {
            if old(gs).entities@[kk].role == Role::Player
                && old(gs).can_move(kk, delta_x as int, delta_y as int) {
            } else {
                assert(gs.entities@[kk] == old(gs).entities@[kk]);
            }
        }
    }
    moved
}

/// Turns a player intent into a scheduler decision: an accepted movement
/// transitions to Running; an absent intent, or a rejected move, leaves
/// the scheduler Paused and consumes no tick.
pub fn player_input(gs: &mut State, intent: Option<MoveIntent>) -> (r: RunState)
    requires
        old(gs).wf(),
        intent matches Some(mi) ==> mi.wf(),
    ensures
        final(gs).wf(),
        final(gs).map == old(gs).map,
        final(gs).run_state == old(gs).run_state,
        final(gs).entities@.len() == old(gs).entities@.len(),
        intent is None ==> *final(gs) == *old(gs) && r == RunState::Paused,
        intent matches Some(mi) ==> {
            &&& (r == RunState::Running)
                == old(gs).player_can_move(mi.dx as int, mi.dy as int)
            &&& (r == RunState::Paused ==> final(gs).entities@ =~= old(gs).entities@
                && final(gs).player_pos == old(gs).player_pos)
            &&& forall|k: int| 0 <= k < final(gs).entities@.len()
                && (#[trigger] old(gs).entities@[k]).role == Role::Player
                && old(gs).can_move(k, mi.dx as int, mi.dy as int)
                ==> final(gs).entities@[k].pos.x == old(gs).entities@[k].pos.x + mi.dx
                    && final(gs).entities@[k].pos.y == old(gs).entities@[k].pos.y + mi.dy
                    && final(gs).entities@[k].viewshed.dirty
                    && final(gs).player_pos == final(gs).entities@[k].pos
        },
{
    match intent {
        None => RunState::Paused,
        Some(mi) => {
            let moved = try_move_player(mi.dx, mi.dy, gs);
            proof {
                if !moved {
                    assert forall|k: int| 0 <= k < gs.entities@.len()
                        implies gs.entities@[k] == old(gs).entities@[k] by {
                        if old(gs).entities@[k].role == Role::Player {
                            assert(!old(gs).can_move(k, mi.dx as int, mi.dy as int));
                        }
                    }
                    assert(gs.entities@ =~= old(gs).entities@);
                }
            }
            if moved {
                RunState::Running
            } else {
                RunState::Paused
            }
        },
    }
}

impl State {
    /// One full world-simulation pass, in strict order: visibility
    /// engine, monster AI, spatial index rebuild. Returns the indices of
    /// the entities that taunted.
    #[verifier::spinoff_prover]
    #[verifier::rlimit(100)]
    pub fn run_systems(&mut self) -> (taunts: Vec<usize>)
        requires
            old(self).wf(),
        ensures
            final(self).wf(),
            final(self).run_state == old(self).run_state,
            final(self).player_pos == old(self).player_pos,
            final(self).map.tiles == old(self).map.tiles,
            final(self).map.rooms == old(self).map.rooms,
            final(self).map.width == old(self).map.width,
            final(self).map.height == old(self).map.height,
            final(self).entities@.len() == old(self).entities@.len(),
            // a revealed tile stays revealed
            forall|i: int| 0 <= i < final(self).map.area()
                ==> old(self).map.revealed_tiles@[i] ==> final(self).map.revealed_tiles@[i],
            // the blocked grid reflects walls and blocking entities
            forall|i: int| 0 <= i < final(self).map.area()
                ==> final(self).map.blocked@[i]
                    == (final(self).map.tiles@[i] == TileType::Wall
                        || exists|k: int| 0 <= k < final(self).entities@.len()
                            && (#[trigger] final(self).entities@[k]).blocks_tile
                            && final(self).map.idx_of(final(self).entities@[k].pos.x as int,
                                final(self).entities@[k].pos.y as int) == i),
            // every seen tile is revealed, and the visible grid holds the
            // player's freshly computed viewshed
            viewsheds_revealed(final(self).map, final(self).entities@),
            forall|k: int| 0 <= k < final(self).entities@.len()
                && (#[trigger] old(self).entities@[k]).role == Role::Player
                ==> visible_grid_matches(final(self).map,
                    final(self).entities@[k].viewshed.visible_tiles@),
            // the player did not move, and its viewshed was recomputed
            // from its position against the tile grid
            forall|k: int| 0 <= k < final(self).entities@.len()
                && (#[trigger] old(self).entities@[k]).role == Role::Player
                ==> final(self).entities@[k].role == Role::Player
                    && final(self).entities@[k].pos == old(self).entities@[k].pos
                    && final(self).entities@[k].viewshed.range
                        == old(self).entities@[k].viewshed.range
                    && matches_fov(final(self).entities@[k].viewshed.visible_tiles@,
                        fov_of(final(self).map, old(self).entities@[k].pos.x as int,
                            old(self).entities@[k].pos.y as int,
                            old(self).entities@[k].viewshed.range as int)),
            // the taunt list names exactly the hostile entities within
            // taunting reach of the player
            forall|j: int| 0 <= j < taunts@.len()
                ==> ((#[trigger] taunts@[j]) as int) < final(self).entities@.len()
                    && old(self).entities@[taunts@[j] as int].role.is_monster()
                    && in_taunt_range(old(self).entities@[taunts@[j] as int].pos,
                        old(self).player_pos),
            forall|k: int| 0 <= k < final(self).entities@.len()
                && (#[trigger] old(self).entities@[k]).role.is_monster()
                && in_taunt_range(old(self).entities@[k].pos, old(self).player_pos)
                ==> taunts@.contains(k as usize),
    {
        let ghost s0 = *self;
        let mut vis = VisibilitySystem {};
        vis.run(&mut self.map, &mut self.entities);
        let ghost s1 = *self;
        let mut mob = MonsterAI {};
        let taunts = mob.run(&self.map, &mut self.entities, self.player_pos);
        let ghost s2 = *self;
        let mut map_index = MapIndexingSystem {};
        map_index.run(&mut self.map, &self.entities);
        proof {
            // player entities pass through the AI and indexing untouched
            assert forall|k: int| 0 <= k < self.entities@.len()
                && (#[trigger] s0.entities@[k]).role == Role::Player
                implies self.entities@[k].role == Role::Player
                    && self.entities@[k].pos == s0.entities@[k].pos
                    && self.entities@[k].viewshed.range == s0.entities@[k].viewshed.range
                    && matches_fov(self.entities@[k].viewshed.visible_tiles@,
                        fov_of(self.map, s0.entities@[k].pos.x as int,
                            s0.entities@[k].pos.y as int,
                            s0.entities@[k].viewshed.range as int)) by {
                assert(s1.entities@[k].role == Role::Player);
                assert(!s1.entities@[k].role.is_monster());
                assert(s2.entities@[k] == s1.entities@[k]);
                crate::fov::lemma_fov_same_grid(s0.map, self.map,
                    s0.entities@[k].pos.x as int, s0.entities@[k].pos.y as int,
                    s0.entities@[k].viewshed.range as int,
                    (2 * s0.entities@[k].viewshed.range + 1)
                        * (2 * s0.entities@[k].viewshed.range + 1));
            }
            // seen tiles stay revealed through the AI and spatial index,
            // whose maps keep the revealed grid and the viewshed views
            assert forall|k: int| 0 <= k < self.entities@.len()
                implies (#[trigger] self.entities@[k]).viewshed.visible_tiles@
                    == s1.entities@[k].viewshed.visible_tiles@ by {
                if !s1.entities@[k].role.is_monster() {
                    assert(s2.entities@[k] == s1.entities@[k]);
                }
            }
            lemma_viewsheds_revealed_same(s1.map, self.map, s1.entities@, self.entities@);
            // the visible grid still holds the player's viewshed
            assert forall|k: int| 0 <= k < self.entities@.len()
                && (#[trigger] s0.entities@[k]).role == Role::Player
                implies visible_grid_matches(self.map,
                    self.entities@[k].viewshed.visible_tiles@) by {
                assert forall|k2: int| 0 <= k2 < s0.entities@.len() && k2 != k
                    implies (#[trigger] s0.entities@[k2]).role != Role::Player by {
                    if k2 < k {
                        assert(!(s0.entities@[k2].role == Role::Player
                            && s0.entities@[k].role == Role::Player));
                    } else {
                        assert(!(s0.entities@[k].role == Role::Player
                            && s0.entities@[k2].role == Role::Player));
                    }
                }
                lemma_visible_grid_updated_player(s1.map, s0.entities@, s1.entities@,
                    s0.map.visible_tiles@, k);
                lemma_visible_grid_matches_same(s1.map, self.map,
                    s1.entities@[k].viewshed.visible_tiles@);
                assert(self.entities@[k].viewshed.visible_tiles@
                    == s1.entities@[k].viewshed.visible_tiles@);
            }
            // taunt facts stated against the post-visibility entities carry
            // back: visibility changed no role and no position
            assert forall|j: int| 0 <= j < taunts@.len()
                implies ((#[trigger] taunts@[j]) as int) < self.entities@.len()
                    && s0.entities@[taunts@[j] as int].role.is_monster()
                    && in_taunt_range(s0.entities@[taunts@[j] as int].pos, s0.player_pos) by {
                let t = taunts@[j] as int;
                assert(s1.entities@[t].role == s0.entities@[t].role
                    && s1.entities@[t].pos == s0.entities@[t].pos);
            }
            assert forall|k: int| 0 <= k < self.entities@.len()
                && (#[trigger] s0.entities@[k]).role.is_monster()
                && in_taunt_range(s0.entities@[k].pos, s0.player_pos)
                implies taunts@.contains(k as usize) by {
                assert(s1.entities@[k].role == s0.entities@[k].role
                    && s1.entities@[k].pos == s0.entities@[k].pos);
            }
            // at most one player is preserved: roles never change
            assert forall|i: int, j: int| 0 <= i < j < self.entities@.len()
                implies !((#[trigger] self.entities@[i]).role == Role::Player
                    && (#[trigger] self.entities@[j]).role == Role::Player) by {
                assert(s1.entities@[i].role == s0.entities@[i].role);
                assert(s1.entities@[j].role == s0.entities@[j].role);
                if !s1.entities@[i].role.is_monster() {
                    assert(s2.entities@[i] == s1.entities@[i]);
                }
                if !s1.entities@[j].role.is_monster() {
                    assert(s2.entities@[j] == s1.entities@[j]);
                }
                assert(s2.entities@[i].role == s1.entities@[i].role);
                assert(s2.entities@[j].role == s1.entities@[j].role);
                assert(self.entities@[i] == s2.entities@[i]);
                assert(self.entities@[j] == s2.entities@[j]);
            }
        }
        taunts
    }

    /// One scheduler step. In the Running phase: run the full simulation
    /// pass and yield to input. In the Paused phase: apply the player
    /// intent; an accepted move starts the next simulation pass, anything
    /// else stays paused with nothing changed.
    #[verifier::spinoff_prover]
    #[verifier::rlimit(100)]
    pub fn tick(&mut self, intent: Option<MoveIntent>) -> (taunts: Vec<usize>)
        requires
            old(self).wf(),
            intent matches Some(mi) ==> mi.wf(),
        ensures
            final(self).wf(),
            // a revealed tile stays revealed, whatever the phase did
            forall|i: int| 0 <= i < final(self).map.area()
                ==> old(self).map.revealed_tiles@[i] ==> final(self).map.revealed_tiles@[i],
            // Running: one full pass, then yield to input
            old(self).run_state == RunState::Running ==> {
                &&& final(self).run_state == RunState::Paused
                &&& final(self).map.tiles == old(self).map.tiles
                &&& final(self).entities@.len() == old(self).entities@.len()
                &&& (forall|i: int| 0 <= i < final(self).map.area()
                    ==> final(self).map.blocked@[i]
                        == (final(self).map.tiles@[i] == TileType::Wall
                            || exists|k: int| 0 <= k < final(self).entities@.len()
                                && (#[trigger] final(self).entities@[k]).blocks_tile
                                && final(self).map.idx_of(
                                    final(self).entities@[k].pos.x as int,
                                    final(self).entities@[k].pos.y as int) == i))
                &&& (forall|j: int| 0 <= j < taunts@.len()
                    ==> ((#[trigger] taunts@[j]) as int) < final(self).entities@.len()
                        && old(self).entities@[taunts@[j] as int].role.is_monster()
                        && in_taunt_range(old(self).entities@[taunts@[j] as int].pos,
                            old(self).player_pos))
                &&& (forall|k: int| 0 <= k < final(self).entities@.len()
                    && (#[trigger] old(self).entities@[k]).role.is_monster()
                    && in_taunt_range(old(self).entities@[k].pos, old(self).player_pos)
                    ==> taunts@.contains(k as usize))
                &&& (forall|i: int| 0 <= i < final(self).map.area()
                    ==> old(self).map.revealed_tiles@[i]
                        ==> final(self).map.revealed_tiles@[i])
                &&& viewsheds_revealed(final(self).map, final(self).entities@)
                &&& (forall|k: int| 0 <= k < final(self).entities@.len()
                    && (#[trigger] old(self).entities@[k]).role == Role::Player
                    ==> visible_grid_matches(final(self).map,
                        final(self).entities@[k].viewshed.visible_tiles@))
                &&& (forall|k: int| 0 <= k < final(self).entities@.len()
                    && (#[trigger] old(self).entities@[k]).role == Role::Player
                    ==> final(self).entities@[k].pos == old(self).entities@[k].pos
                        && matches_fov(final(self).entities@[k].viewshed.visible_tiles@,
                            fov_of(final(self).map, old(self).entities@[k].pos.x as int,
                                old(self).entities@[k].pos.y as int,
                                old(self).entities@[k].viewshed.range as int)))
            },
            // Paused: accepted movement starts a pass, else nothing
            old(self).run_state == RunState::Paused ==> {
                &&& taunts@.len() == 0
                &&& final(self).map == old(self).map
                &&& final(self).entities@.len() == old(self).entities@.len()
                &&& (intent is None ==> *final(self) == *old(self))
                &&& (intent matches Some(mi) ==> {
                    &&& (final(self).run_state == RunState::Running)
                        == old(self).player_can_move(mi.dx as int, mi.dy as int)
                    &&& (final(self).run_state == RunState::Paused
                        ==> final(self).entities@ =~= old(self).entities@
                            && final(self).player_pos == old(self).player_pos)
                    &&& (forall|k: int| 0 <= k < final(self).entities@.len()
                        && (#[trigger] old(self).entities@[k]).role == Role::Player
                        && old(self).can_move(k, mi.dx as int, mi.dy as int)
                        ==> final(self).entities@[k].pos.x
                                == old(self).entities@[k].pos.x + mi.dx
                            && final(self).entities@[k].pos.y
                                == old(self).entities@[k].pos.y + mi.dy
                            && final(self).entities@[k].viewshed.dirty)
                })
            },
    {
        if matches!(self.run_state, RunState::Running) {
            let taunts = self.run_systems();
            self.run_state = RunState::Paused;
            taunts
        } else {
            let r = player_input(self, intent);
            self.run_state = r;
            Vec::new()
        }
    }
}

/// Builds the initial entity set for a generated dungeon: the player at
/// the first room's center, and one hostile entity at the center of each
/// further room, its kind a 1-in-2 random choice, tagged as blocking.
/// The scheduler starts Running so the first pass computes initial
/// viewsheds before any input is read.
#[verifier::loop_isolation(false)]
pub fn build_initial_state(map: WorldMap, rng: &mut RandomNumberGenerator) -> (s: State)
    requires
        map.wf(),
        map.rooms@.len() >= 1,
    ensures
        s.wf(),
        s.map == map,
        s.run_state == RunState::Running,
        s.entities@.len() == map.rooms@.len(),
        s.entities@[0].role == Role::Player,
        (s.entities@[0].pos.x as int, s.entities@[0].pos.y as int)
            == crate::rect::spec_center(map.rooms@[0]),
        s.player_pos == s.entities@[0].pos,
        forall|k: int| 1 <= k < s.entities@.len()
            ==> (#[trigger] s.entities@[k]).role.is_monster()
                && s.entities@[k].blocks_tile
                && (s.entities@[k].pos.x as int, s.entities@[k].pos.y as int)
                    == crate::rect::spec_center(map.rooms@[k]),
{
    proof {
        lemma_center_bounds(map.rooms@[0]);
    }
    let (px, py) = map.rooms[0].center();
    let player_pos = Position { x: px, y: py };
    let mut entities: Vec<Entity> = Vec::new();
    entities.push(Entity {
        role: Role::Player,
        pos: player_pos,
        viewshed: Viewshed { visible_tiles: Vec::new(), range: 8, dirty: true },
        blocks_tile: false,
    });
    let mut i: usize = 1;
    while i < map.rooms.len()
        invariant
            1 <= i <= map.rooms@.len(),
            entities@.len() == i,
            entities@[0].role == Role::Player,
            (entities@[0].pos.x as int, entities@[0].pos.y as int)
                == crate::rect::spec_center(map.rooms@[0]),
            entities@[0].pos == player_pos,
            entities_ok(map, entities@),
            forall|k: int| 1 <= k < i
                ==> (#[trigger] entities@[k]).role.is_monster()
                    && entities@[k].blocks_tile
                    && (entities@[k].pos.x as int, entities@[k].pos.y as int)
                        == crate::rect::spec_center(map.rooms@[k]),
        decreases map.rooms@.len() - i,
    {
        proof {
            lemma_center_bounds(map.rooms@[i as int]);
        }
        let (mx, my) = map.rooms[i].center();
        let roll = rng_roll_dice(rng, 1, 2);
        let kind = if roll == 1 { MonsterKind::Goblin } else { MonsterKind::Orc };
        entities.push(Entity {
            role: Role::Monster(kind),
            pos: Position { x: mx, y: my },
            viewshed: Viewshed { visible_tiles: Vec::new(), range: 8, dirty: true },
            blocks_tile: true,
        });
        i += 1;
    }
    State { map, entities, player_pos, run_state: RunState::Running }
}

} // verus!
