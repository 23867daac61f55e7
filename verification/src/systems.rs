//! The three per-tick systems: the visibility engine, the hostile-entity
//! AI, and the spatial index that rebuilds the blocked grid.

use vstd::prelude::*;
use crate::components::{Entity, Position, Viewshed, contains_pos};
use crate::fov::{field_of_view, fov_of, matches_fov};
use crate::map::{TileType, WorldMap};
use crate::pathfind::{find_path, reachable};

verus! {

/// Every entity stands on an in-bounds cell and carries a well-formed
/// viewshed.
pub open spec fn entities_ok(m: WorldMap, es: Seq<Entity>) -> bool {
    forall|k: int| 0 <= k < es.len()
        ==> m.in_bounds((#[trigger] es[k]).pos.x as int, es[k].pos.y as int)
            && es[k].viewshed.wf()
}

/// The player is within taunting reach: same or adjacent cell under the
/// Euclidean metric (distance below 1.5).
pub open spec fn in_taunt_range(a: Position, b: Position) -> bool {
    (a.x - b.x) * (a.x - b.x) + (a.y - b.y) * (a.y - b.y) <= 2
}

/// The currently-visible grid holds exactly the listed cells: a grid
/// entry is set iff some listed cell maps to its index.
pub closed spec fn visible_grid_matches(m: WorldMap, cells: Seq<Position>) -> bool {
    forall|i: int| 0 <= i < m.area()
        ==> m.visible_tiles@[i] == (exists|j: int| 0 <= j < cells.len()
            && m.idx_of((#[trigger] cells[j]).x as int, cells[j].y as int) == i)
}

/// What the visible grid holds depends only on the grid itself and the
/// map's dimensions.
pub proof fn lemma_visible_grid_matches_same(m1: WorldMap, m2: WorldMap, cells: Seq<Position>)
    requires
        m1.visible_tiles == m2.visible_tiles,
        m1.width == m2.width,
        m1.height == m2.height,
    ensures
        visible_grid_matches(m1, cells) == visible_grid_matches(m2, cells),
{
}

/// A cell of the matched list is marked visible in the grid.
pub proof fn lemma_visible_grid_member(m: WorldMap, cells: Seq<Position>, j: int)
    requires
        m.wf(),
        visible_grid_matches(m, cells),
        0 <= j < cells.len(),
        m.in_bounds(cells[j].x as int, cells[j].y as int),
    ensures
        m.visible_tiles@[m.idx_of(cells[j].x as int, cells[j].y as int)],
{
    m.lemma_idx_bound(cells[j].x as int, cells[j].y as int);
}

/// Every tile of every entity's visible-tile set is revealed in the map.
pub closed spec fn viewsheds_revealed(m: WorldMap, es: Seq<Entity>) -> bool {
    forall|k: int, j: int| 0 <= k < es.len()
        && 0 <= j < es[k].viewshed.visible_tiles@.len()
        ==> m.revealed_tiles@[m.idx_of(
            (#[trigger] es[k].viewshed.visible_tiles@[j]).x as int,
            es[k].viewshed.visible_tiles@[j].y as int)]
}

/// A seen tile is revealed: the elementwise reading of
/// `viewsheds_revealed`.
pub proof fn lemma_viewsheds_revealed_member(m: WorldMap, es: Seq<Entity>, k: int, j: int)
    requires
        viewsheds_revealed(m, es),
        0 <= k < es.len(),
        0 <= j < es[k].viewshed.visible_tiles@.len(),
    ensures
        m.revealed_tiles@[m.idx_of(es[k].viewshed.visible_tiles@[j].x as int,
            es[k].viewshed.visible_tiles@[j].y as int)],
{
}

/// The property depends only on the revealed grid, the map width, and
/// the visible-tile sets themselves.
pub proof fn lemma_viewsheds_revealed_same(m1: WorldMap, m2: WorldMap, es1: Seq<Entity>,
    es2: Seq<Entity>)
    requires
        m1.revealed_tiles == m2.revealed_tiles,
        m1.width == m2.width,
        es1.len() == es2.len(),
        forall|k: int| 0 <= k < es2.len()
            ==> (#[trigger] es2[k]).viewshed.visible_tiles@
                == es1[k].viewshed.visible_tiles@,
        viewsheds_revealed(m1, es1),
    ensures
        viewsheds_revealed(m2, es2),
{
    assert forall|k: int, j: int| 0 <= k < es2.len()
        && 0 <= j < es2[k].viewshed.visible_tiles@.len()
        implies m2.revealed_tiles@[m2.idx_of(
            (#[trigger] es2[k].viewshed.visible_tiles@[j]).x as int,
            es2[k].viewshed.visible_tiles@[j].y as int)] by {
        assert(es2[k].viewshed.visible_tiles@ == es1[k].viewshed.visible_tiles@);
        assert(m1.revealed_tiles@[m1.idx_of(
            es1[k].viewshed.visible_tiles@[j].x as int,
            es1[k].viewshed.visible_tiles@[j].y as int)]);
    }
}

/// The visible grid was rewritten from the last player's visible-tile
/// set, or left untouched when no player exists.
pub closed spec fn visible_grid_updated(m: WorldMap, es_old: Seq<Entity>,
    es_new: Seq<Entity>, old_vis: Seq<bool>) -> bool {
    &&& forall|k: int| 0 <= k < es_old.len()
        && (#[trigger] es_old[k]).role == crate::components::Role::Player
        && (forall|k2: int| k < k2 < es_old.len()
            ==> es_old[k2].role != crate::components::Role::Player)
        ==> visible_grid_matches(m, es_new[k].viewshed.visible_tiles@)
    &&& (forall|k: int| 0 <= k < es_old.len()
        ==> (#[trigger] es_old[k]).role != crate::components::Role::Player)
        ==> m.visible_tiles@ == old_vis
}

/// With a single player entity, the visible grid holds exactly that
/// player's visible-tile set.
pub proof fn lemma_visible_grid_updated_player(m: WorldMap, es_old: Seq<Entity>,
    es_new: Seq<Entity>, old_vis: Seq<bool>, k: int)
    requires
        visible_grid_updated(m, es_old, es_new, old_vis),
        0 <= k < es_old.len(),
        es_old[k].role == crate::components::Role::Player,
        forall|k2: int| 0 <= k2 < es_old.len() && k2 != k
            ==> (#[trigger] es_old[k2]).role != crate::components::Role::Player,
    ensures
        visible_grid_matches(m, es_new[k].viewshed.visible_tiles@),
{
}

/// Marks every listed cell revealed in the shared map; no revealed cell
/// is ever cleared.
#[verifier::loop_isolation(false)]
fn mark_revealed(map: &mut WorldMap, cells: &Vec<Position>)
    requires
        old(map).wf(),
        forall|j: int| 0 <= j < cells@.len()
            ==> old(map).in_bounds((#[trigger] cells@[j]).x as int, cells@[j].y as int),
    ensures
        final(map).wf(),
        final(map).tiles == old(map).tiles,
        final(map).rooms == old(map).rooms,
        final(map).width == old(map).width,
        final(map).height == old(map).height,
        final(map).visible_tiles == old(map).visible_tiles,
        final(map).blocked == old(map).blocked,
        final(map).revealed_tiles@.len() == old(map).revealed_tiles@.len(),
        forall|i: int| 0 <= i < final(map).area()
            ==> final(map).revealed_tiles@[i] == (old(map).revealed_tiles@[i]
                || exists|j: int| 0 <= j < cells@.len()
                    && old(map).idx_of((#[trigger] cells@[j]).x as int, cells@[j].y as int)
                        == i),
        forall|i: int| 0 <= i < final(map).area() && old(map).revealed_tiles@[i]
            ==> final(map).revealed_tiles@[i],
        forall|j: int| 0 <= j < cells@.len()
            ==> final(map).revealed_tiles@[old(map).idx_of(
                (#[trigger] cells@[j]).x as int, cells@[j].y as int)],
{
    let mut j: usize = 0;
    while j < cells.len()
        invariant
            j <= cells@.len(),
            map.wf(),
            map.tiles == old(map).tiles,
            map.rooms == old(map).rooms,
            map.width == old(map).width,
            map.height == old(map).height,
            map.visible_tiles == old(map).visible_tiles,
            map.blocked == old(map).blocked,
            map.revealed_tiles@.len() == old(map).revealed_tiles@.len(),
            forall|i: int| 0 <= i < map.area()
                ==> map.revealed_tiles@[i] == (old(map).revealed_tiles@[i]
                    || exists|jj: int| 0 <= jj < j
                        && old(map).idx_of((#[trigger] cells@[jj]).x as int,
                            cells@[jj].y as int) == i),
        decreases cells@.len() - j,
    {
        let p = cells[j];
        let idx = map.xy_idx(p.x, p.y);
        map.revealed_tiles.set(idx, true);
        proof {
            assert forall|i: int| 0 <= i < map.area()
                implies map.revealed_tiles@[i] == (old(map).revealed_tiles@[i]
                    || exists|jj: int| 0 <= jj < j + 1
                        && old(map).idx_of((#[trigger] cells@[jj]).x as int,
                            cells@[jj].y as int) == i) by {
                if i == idx as int {
                    assert(old(map).idx_of(cells@[j as int].x as int,
                        cells@[j as int].y as int) == i);
                }
            }
        }
        j += 1;
    }
    proof {
        assert forall|j2: int| 0 <= j2 < cells@.len()
            implies map.revealed_tiles@[old(map).idx_of(
                (#[trigger] cells@[j2]).x as int, cells@[j2].y as int)] by {
            old(map).lemma_idx_bound(cells@[j2].x as int, cells@[j2].y as int);
        }
    }
}

/// Rewrites the currently-visible grid to exactly the listed cells.
#[verifier::loop_isolation(false)]
fn set_visible_grid(map: &mut WorldMap, cells: &Vec<Position>)
    requires
        old(map).wf(),
        forall|j: int| 0 <= j < cells@.len()
            ==> old(map).in_bounds((#[trigger] cells@[j]).x as int, cells@[j].y as int),
    ensures
        final(map).wf(),
        final(map).tiles == old(map).tiles,
        final(map).rooms == old(map).rooms,
        final(map).width == old(map).width,
        final(map).height == old(map).height,
        final(map).revealed_tiles == old(map).revealed_tiles,
        final(map).blocked == old(map).blocked,
        final(map).visible_tiles@.len() == old(map).visible_tiles@.len(),
        forall|i: int| 0 <= i < final(map).area()
            ==> final(map).visible_tiles@[i] == (exists|j: int| 0 <= j < cells@.len()
                && old(map).idx_of((#[trigger] cells@[j]).x as int, cells@[j].y as int) == i),
{
    let n = map.visible_tiles.len();
    let mut i: usize = 0;
    while i < n
        invariant
            i <= n,
            map.wf(),
            n == map.visible_tiles@.len(),
            map.tiles == old(map).tiles,
            map.rooms == old(map).rooms,
            map.width == old(map).width,
            map.height == old(map).height,
            map.revealed_tiles == old(map).revealed_tiles,
            map.blocked == old(map).blocked,
            map.visible_tiles@.len() == old(map).visible_tiles@.len(),
            forall|k: int| 0 <= k < i ==> !map.visible_tiles@[k],
        decreases n - i,
    {
        map.visible_tiles.set(i, false);
        i += 1;
    }
    let mut j: usize = 0;
    while j < cells.len()
        invariant
            j <= cells@.len(),
            map.wf(),
            map.tiles == old(map).tiles,
            map.rooms == old(map).rooms,
            map.width == old(map).width,
            map.height == old(map).height,
            map.revealed_tiles == old(map).revealed_tiles,
            map.blocked == old(map).blocked,
            map.visible_tiles@.len() == old(map).visible_tiles@.len(),
            forall|i2: int| 0 <= i2 < map.area()
                ==> map.visible_tiles@[i2] == (exists|jj: int| 0 <= jj < j
                    && old(map).idx_of((#[trigger] cells@[jj]).x as int,
                        cells@[jj].y as int) == i2),
        decreases cells@.len() - j,
    {
        let p = cells[j];
        let idx = map.xy_idx(p.x, p.y);
        map.visible_tiles.set(idx, true);
        proof {
            assert forall|i2: int| 0 <= i2 < map.area()
                implies map.visible_tiles@[i2] == (exists|jj: int| 0 <= jj < j + 1
                    && old(map).idx_of((#[trigger] cells@[jj]).x as int,
                        cells@[jj].y as int) == i2) by {
                if i2 == idx as int {
                    assert(old(map).idx_of(cells@[j as int].x as int,
                        cells@[j as int].y as int) == i2);
                }
            }
        }
        j += 1;
    }
}

/// The visibility engine: recomputes every entity's viewshed from its
/// position unconditionally, replaces its visible-tile set, marks every
/// seen tile revealed, and rewrites the currently-visible grid from the
/// player's viewshed.
pub struct VisibilitySystem {}

impl VisibilitySystem {
    #[verifier::loop_isolation(false)]
    #[verifier::rlimit(100)]
    pub fn run(&mut self, map: &mut WorldMap, entities: &mut Vec<Entity>)
        requires
            old(map).wf(),
            entities_ok(*old(map), old(entities)@),
        ensures
            final(map).wf(),
            entities_ok(*final(map), final(entities)@),
            final(map).tiles == old(map).tiles,
            final(map).rooms == old(map).rooms,
            final(map).width == old(map).width,
            final(map).height == old(map).height,
            final(map).blocked == old(map).blocked,
            final(map).revealed_tiles@.len() == old(map).revealed_tiles@.len(),
            final(map).visible_tiles@.len() == old(map).visible_tiles@.len(),
            forall|i: int| 0 <= i < final(map).area()
                ==> old(map).revealed_tiles@[i] ==> final(map).revealed_tiles@[i],
            final(entities)@.len() == old(entities)@.len(),
            forall|k: int| 0 <= k < final(entities)@.len()
                ==> {
                    let oe = old(entities)@[k];
                    let ne = (#[trigger] final(entities)@[k]);
                    ne.role == oe.role && ne.pos == oe.pos
                        && ne.blocks_tile == oe.blocks_tile
                        && ne.viewshed.range == oe.viewshed.range
                        && ne.viewshed.dirty == false
                        && matches_fov(ne.viewshed.visible_tiles@,
                            fov_of(*old(map), oe.pos.x as int, oe.pos.y as int,
                                oe.viewshed.range as int))
                },
            // every tile of every recomputed viewshed is now revealed
            viewsheds_revealed(*final(map), final(entities)@),
            // the visible grid was rewritten from the last player's
            // viewshed, and is untouched when there is no player
            visible_grid_updated(*final(map), old(entities)@, final(entities)@,
                old(map).visible_tiles@),
    {
        let mut k: usize = 0;
        while k < entities.len()
            invariant
                k <= entities@.len(),
                map.wf(),
                map.tiles == old(map).tiles,
                map.rooms == old(map).rooms,
                map.width == old(map).width,
                map.height == old(map).height,
                map.blocked == old(map).blocked,
                map.visible_tiles == old(map).visible_tiles,
                map.revealed_tiles@.len() == old(map).revealed_tiles@.len(),
                forall|i: int| 0 <= i < map.area()
                    ==> old(map).revealed_tiles@[i] ==> map.revealed_tiles@[i],
                entities@.len() == old(entities)@.len(),
                forall|kk: int| k <= kk < entities@.len()
                    ==> #[trigger] entities@[kk] == old(entities)@[kk],
                forall|kk: int| 0 <= kk < k
                    ==> {
                        let oe = old(entities)@[kk];
                        let ne = (#[trigger] entities@[kk]);
                        ne.role == oe.role && ne.pos == oe.pos
                            && ne.blocks_tile == oe.blocks_tile
                            && ne.viewshed.range == oe.viewshed.range
                            && ne.viewshed.dirty == false
                            && matches_fov(ne.viewshed.visible_tiles@,
                                fov_of(*old(map), oe.pos.x as int, oe.pos.y as int,
                                    oe.viewshed.range as int))
                    },
                forall|kk: int, j: int| 0 <= kk < k
                    && 0 <= j < entities@[kk].viewshed.visible_tiles@.len()
                    ==> map.in_bounds(
                        (#[trigger] entities@[kk].viewshed.visible_tiles@[j]).x as int,
                        entities@[kk].viewshed.visible_tiles@[j].y as int)
                        && map.revealed_tiles@[map.idx_of(
                            entities@[kk].viewshed.visible_tiles@[j].x as int,
                            entities@[kk].viewshed.visible_tiles@[j].y as int)],
            decreases entities@.len() - k,
        {
            let pos = entities[k].pos;
            let range = entities[k].viewshed.range;
            let role = entities[k].role;
            let blocks = entities[k].blocks_tile;
            let vt = field_of_view(map, pos.x, pos.y, range);
            proof {
                crate::fov::lemma_fov_same_grid(*map, *old(map), pos.x as int, pos.y as int,
                    range as int, (2 * range + 1) * (2 * range + 1));
                crate::fov::lemma_fov_seq_members(*map, pos.x as int, pos.y as int,
                    range as int, (2 * range + 1) * (2 * range + 1));
                assert forall|j: int| 0 <= j < vt@.len()
                    implies map.in_bounds((#[trigger] vt@[j]).x as int, vt@[j].y as int) by {
                    assert(crate::fov::visible_from(*map, pos.x as int, pos.y as int,
                        range as int, vt@[j].x as int, vt@[j].y as int));
                }
            }
            let ghost m_pre = *map;
            mark_revealed(map, &vt);
            proof {
                // earlier viewsheds stay revealed: revealed only grew
                assert forall|kk: int, j: int| 0 <= kk < k
                    && 0 <= j < entities@[kk].viewshed.visible_tiles@.len()
                    implies map.revealed_tiles@[map.idx_of(
                        (#[trigger] entities@[kk].viewshed.visible_tiles@[j]).x as int,
                        entities@[kk].viewshed.visible_tiles@[j].y as int)] by {
                    let c = entities@[kk].viewshed.visible_tiles@[j];
                    m_pre.lemma_idx_bound(c.x as int, c.y as int);
                }
            }
            let new_entity = Entity {
                role,
                pos,
                viewshed: Viewshed { visible_tiles: vt, range, dirty: false },
                blocks_tile: blocks,
            };
            entities.set(k, new_entity);
            k += 1;
        }
        // rewrite the currently-visible grid from the last player's
        // freshly computed viewshed
        let mut player_idx: usize = entities.len();
        let mut p: usize = 0;
        while p < entities.len()
            invariant
                p <= entities@.len(),
                entities@.len() == old(entities)@.len(),
                forall|kk: int| 0 <= kk < entities@.len()
                    ==> (#[trigger] entities@[kk]).role == old(entities)@[kk].role,
                player_idx == entities@.len() || (player_idx as int) < p,
                player_idx == entities@.len()
                    ==> (forall|kk: int| 0 <= kk < p
                        ==> (#[trigger] old(entities)@[kk]).role
                            != crate::components::Role::Player),
                (player_idx as int) < p
                    ==> old(entities)@[player_idx as int].role
                            == crate::components::Role::Player
                        && (forall|kk: int| player_idx < kk < p
                            ==> (#[trigger] old(entities)@[kk]).role
                                != crate::components::Role::Player),
            decreases entities@.len() - p,
        {
            if matches!(entities[p].role, crate::components::Role::Player) {
                player_idx = p;
            }
            p += 1;
        }
        if player_idx < entities.len() {
            set_visible_grid(map, &entities[player_idx].viewshed.visible_tiles);
            proof {
                assert(visible_grid_matches(*map,
                    entities@[player_idx as int].viewshed.visible_tiles@));
            }
        }
    }
}

/// The spatial index: rebuilds the blocked grid from tile types, then
/// marks the cell of every blocking entity.
pub struct MapIndexingSystem {}

impl MapIndexingSystem {
    #[verifier::loop_isolation(false)]
    pub fn run(&mut self, map: &mut WorldMap, entities: &Vec<Entity>)
        requires
            old(map).wf(),
            entities_ok(*old(map), entities@),
        ensures
            final(map).wf(),
            final(map).tiles == old(map).tiles,
            final(map).rooms == old(map).rooms,
            final(map).width == old(map).width,
            final(map).height == old(map).height,
            final(map).revealed_tiles == old(map).revealed_tiles,
            final(map).visible_tiles == old(map).visible_tiles,
            final(map).blocked@.len() == old(map).blocked@.len(),
            forall|i: int| 0 <= i < final(map).area()
                ==> final(map).blocked@[i] == (old(map).tiles@[i] == TileType::Wall
                    || exists|k: int| 0 <= k < entities@.len()
                        && (#[trigger] entities@[k]).blocks_tile
                        && old(map).idx_of(entities@[k].pos.x as int,
                            entities@[k].pos.y as int) == i),
    {
        map.populate_blocked();
        let mut k: usize = 0;
        while k < entities.len()
            invariant
                k <= entities@.len(),
                map.wf(),
                map.tiles == old(map).tiles,
                map.rooms == old(map).rooms,
                map.width == old(map).width,
                map.height == old(map).height,
                map.revealed_tiles == old(map).revealed_tiles,
                map.visible_tiles == old(map).visible_tiles,
                map.blocked@.len() == old(map).blocked@.len(),
                forall|i: int| 0 <= i < map.area()
                    ==> map.blocked@[i] == (old(map).tiles@[i] == TileType::Wall
                        || exists|kk: int| 0 <= kk < k
                            && (#[trigger] entities@[kk]).blocks_tile
                            && old(map).idx_of(entities@[kk].pos.x as int,
                                entities@[kk].pos.y as int) == i),
            decreases entities@.len() - k,
        {
            if entities[k].blocks_tile {
                let p = entities[k].pos;
                let idx = map.xy_idx(p.x, p.y);
                map.blocked.set(idx, true);
                proof {
                    assert forall|i: int| 0 <= i < map.area()
                        implies map.blocked@[i] == (old(map).tiles@[i] == TileType::Wall
                            || exists|kk: int| 0 <= kk < k + 1
                                && (#[trigger] entities@[kk]).blocks_tile
                                && old(map).idx_of(entities@[kk].pos.x as int,
                                    entities@[kk].pos.y as int) == i) by {
                        if i == idx as int {
                            assert(entities@[k as int].blocks_tile
                                && old(map).idx_of(entities@[k as int].pos.x as int,
                                    entities@[k as int].pos.y as int) == i);
                        }
                    }
                }
            }
            k += 1;
        }
    }
}

/// The hostile-entity AI: each monster taunts when the player is within
/// reach, otherwise pursues the player one step along a shortest path
/// when the player's cell is in its viewshed.
pub struct MonsterAI {}

impl MonsterAI {
    /// Runs the per-monster decision tree; returns the indices of the
    /// entities that taunted.
    #[verifier::loop_isolation(false)]
    #[verifier::rlimit(60)]
    pub fn run(&mut self, map: &WorldMap, entities: &mut Vec<Entity>, player_pos: Position)
        -> (taunts: Vec<usize>)
        requires
            map.wf(),
            entities_ok(*map, old(entities)@),
            map.in_bounds(player_pos.x as int, player_pos.y as int),
        ensures
            entities_ok(*map, final(entities)@),
            final(entities)@.len() == old(entities)@.len(),
            forall|k: int| 0 <= k < final(entities)@.len()
                && !(#[trigger] old(entities)@[k]).role.is_monster()
                ==> final(entities)@[k] == old(entities)@[k],
            forall|k: int| 0 <= k < final(entities)@.len()
                && (#[trigger] old(entities)@[k]).role.is_monster()
                ==> {
                    let oe = old(entities)@[k];
                    let ne = final(entities)@[k];
                    ne.role == oe.role && ne.blocks_tile == oe.blocks_tile
                        && ne.viewshed.range == oe.viewshed.range
                        && ne.viewshed.visible_tiles@ == oe.viewshed.visible_tiles@
                        && (in_taunt_range(oe.pos, player_pos) ==> ne == oe)
                        && (!in_taunt_range(oe.pos, player_pos)
                            ==> (if oe.viewshed.visible_tiles@.contains(player_pos)
                                    && reachable(*map,
                                        map.idx_of(oe.pos.x as int, oe.pos.y as int),
                                        map.idx_of(player_pos.x as int, player_pos.y as int)) {
                                map.is_exit(map.idx_of(oe.pos.x as int, oe.pos.y as int),
                                        map.idx_of(ne.pos.x as int, ne.pos.y as int))
                                    && ne.viewshed.dirty
                            } else {
                                ne == oe
                            }))
                },
            forall|j: int| 0 <= j < taunts@.len()
                ==> ((#[trigger] taunts@[j]) as int) < final(entities)@.len()
                    && old(entities)@[taunts@[j] as int].role.is_monster()
                    && in_taunt_range(old(entities)@[taunts@[j] as int].pos, player_pos),
            forall|k: int| 0 <= k < final(entities)@.len()
                && (#[trigger] old(entities)@[k]).role.is_monster()
                && in_taunt_range(old(entities)@[k].pos, player_pos)
                ==> taunts@.contains(k as usize),
    {
        let mut taunts: Vec<usize> = Vec::new();
        let mut k: usize = 0;
        while k < entities.len()
            invariant
                k <= entities@.len(),
                entities@.len() == old(entities)@.len(),
                forall|kk: int| k <= kk < entities@.len()
                    ==> #[trigger] entities@[kk] == old(entities)@[kk],
                forall|kk: int| 0 <= kk < k
                    && !(#[trigger] old(entities)@[kk]).role.is_monster()
                    ==> entities@[kk] == old(entities)@[kk],
                forall|kk: int| 0 <= kk < k
                    && (#[trigger] old(entities)@[kk]).role.is_monster()
                    ==> {
                        let oe = old(entities)@[kk];
                        let ne = entities@[kk];
                        ne.role == oe.role && ne.blocks_tile == oe.blocks_tile
                            && ne.viewshed.range == oe.viewshed.range
                            && ne.viewshed.visible_tiles@ == oe.viewshed.visible_tiles@
                            && map.in_bounds(ne.pos.x as int, ne.pos.y as int)
                            && ne.viewshed.wf()
                            && (in_taunt_range(oe.pos, player_pos) ==> ne == oe)
                            && (!in_taunt_range(oe.pos, player_pos)
                                ==> (if oe.viewshed.visible_tiles@.contains(player_pos)
                                        && reachable(*map,
                                            map.idx_of(oe.pos.x as int, oe.pos.y as int),
                                            map.idx_of(player_pos.x as int,
                                                player_pos.y as int)) {
                                    map.is_exit(map.idx_of(oe.pos.x as int, oe.pos.y as int),
                                            map.idx_of(ne.pos.x as int, ne.pos.y as int))
                                        && ne.viewshed.dirty
                                } else {
                                    ne == oe
                                }))
                    },
                forall|j: int| 0 <= j < taunts@.len()
                    ==> ((#[trigger] taunts@[j]) as int) < entities@.len()
                        && old(entities)@[taunts@[j] as int].role.is_monster()
                        && in_taunt_range(old(entities)@[taunts@[j] as int].pos, player_pos),
                forall|kk: int| 0 <= kk < k
                    && (#[trigger] old(entities)@[kk]).role.is_monster()
                    && in_taunt_range(old(entities)@[kk].pos, player_pos)
                    ==> taunts@.contains(kk as usize),
            decreases entities@.len() - k,
        {
            let is_monster = matches!(entities[k].role, crate::components::Role::Monster(_));
            if is_monster {
                let pos = entities[k].pos;
                let dx = pos.x - player_pos.x;
                let dy = pos.y - player_pos.y;
                proof {
                    assert(0 <= dx * dx <= 100_000_000 && 0 <= dy * dy <= 100_000_000)
                        by (nonlinear_arith)
                        requires
                            -10_000 <= dx <= 10_000,
                            -10_000 <= dy <= 10_000,
                    ;
                }
                let d2 = dx * dx + dy * dy;
                if d2 <= 2 {
                    let ghost t0 = taunts@;
                    taunts.push(k);
                    proof {
                        assert(taunts@[t0.len() as int] == k);
                        assert forall|kk: int| 0 <= kk < k + 1
                            && (#[trigger] old(entities)@[kk]).role.is_monster()
                            && in_taunt_range(old(entities)@[kk].pos, player_pos)
                            implies taunts@.contains(kk as usize) by {
                            if kk < k {
                                let j = choose|j: int| 0 <= j < t0.len()
                                    && t0[j] == kk as usize;
                                assert(taunts@[j] == kk as usize);
                            } else {
                                assert(taunts@[t0.len() as int] == kk as usize);
                            }
                        }
                    }
                } else {
                    let sees_player = contains_pos(&entities[k].viewshed.visible_tiles,
                        player_pos);
                    if sees_player {
                        let start = map.xy_idx(pos.x, pos.y);
                        let goal = map.xy_idx(player_pos.x, player_pos.y);
                        proof {
                            // out of taunt range, so the two cells differ
                            if start == goal {
                                map.lemma_idx_inj(pos.x as int, pos.y as int,
                                    player_pos.x as int, player_pos.y as int);
                                assert(dx == 0 && dy == 0);
                                assert(d2 == 0) by (nonlinear_arith)
                                    requires
                                        dx == 0,
                                        dy == 0,
                                        d2 == dx * dx + dy * dy,
                                ;
                                assert(false);
                            }
                        }
                        let path = find_path(map, start, goal);
                        proof {
                            // a successful path between distinct cells has a
                            // first move
                            if path.success {
                                assert(path.steps@[0] == start
                                    && path.steps@[path.steps@.len() - 1] == goal);
                                assert(path.steps@.len() > 1);
                            }
                        }
                        if path.success && path.steps.len() > 1 {
                            let step = path.steps[1];
                            let (nx, ny) = map.idx_xy(step);
                            let role = entities[k].role;
                            let blocks = entities[k].blocks_tile;
                            let range = entities[k].viewshed.range;
                            let vt = crate::components::copy_positions(
                                &entities[k].viewshed.visible_tiles);
                            let new_entity = Entity {
                                role,
                                pos: Position { x: nx, y: ny },
                                viewshed: Viewshed { visible_tiles: vt, range, dirty: true },
                                blocks_tile: blocks,
                            };
                            entities.set(k, new_entity);
                        }
                    }
                }
            }
            k += 1;
        }
        proof {
            assert forall|kk: int| 0 <= kk < entities@.len()
                implies map.in_bounds(((#[trigger] entities@[kk]).pos.x) as int,
                    entities@[kk].pos.y as int) && entities@[kk].viewshed.wf() by {
                if !old(entities)@[kk].role.is_monster() {
                    assert(entities@[kk] == old(entities)@[kk]);
                }
            }
        }
        taunts
    }
}

} // verus!
