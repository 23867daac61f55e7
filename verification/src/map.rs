//! The world map: a tile grid with parallel revealed / visible / blocked
//! grids, coordinate-index mapping, opacity and exit queries, and the
//! dungeon generator that carves rooms and corridors into it.

use vstd::prelude::*;
use crate::rect::{Rect, lemma_center_bounds, spec_center, spec_intersects};
use crate::connectivity::{connected, lemma_connected_mono};
use crate::rng::{rng_range, rng_roll_dice};
use bracket_lib::random::RandomNumberGenerator;

verus! {

pub const MAP_WIDTH: i32 = 80;
pub const MAP_HEIGHT: i32 = 50;
pub const MAP_AREA: i32 = MAP_WIDTH * MAP_HEIGHT;

/// A single grid cell's terrain kind.
#[derive(Clone, Copy, PartialEq, Eq, Structural, Debug)]
pub enum TileType {
    Wall,
    Floor,
}

/// The shared world map. All five grids have length `width * height` and
/// are indexed by `idx = y * width + x`.
pub struct WorldMap {
    pub tiles: Vec<TileType>,
    pub rooms: Vec<Rect>,
    pub width: i32,
    pub height: i32,
    pub revealed_tiles: Vec<bool>,
    pub visible_tiles: Vec<bool>,
    pub blocked: Vec<bool>,
}

impl WorldMap {
    /// Number of cells in the grid.
    pub open spec fn area(self) -> int {
        self.width * self.height
    }

    /// A room fits strictly inside the map border: carving its interior
    /// (x1+1..=x2, y1+1..=y2) keeps a one-tile wall margin on all sides.
    pub open spec fn room_in_map(self, r: Rect) -> bool {
        r.wf() && r.x2 + 2 <= self.width && r.y2 + 2 <= self.height
    }

    pub open spec fn rooms_wf(self) -> bool {
        forall|i: int| 0 <= i < self.rooms@.len() ==> self.room_in_map(#[trigger] self.rooms@[i])
    }

    /// Well-formed map: positive bounded dimensions and all five grids of
    /// length `width * height`.
    pub open spec fn wf(self) -> bool {
        &&& 0 < self.width <= 10000
        &&& 0 < self.height <= 10000
        &&& self.tiles@.len() == self.area()
        &&& self.revealed_tiles@.len() == self.area()
        &&& self.visible_tiles@.len() == self.area()
        &&& self.blocked@.len() == self.area()
        &&& self.rooms_wf()
    }

    pub open spec fn in_bounds(self, x: int, y: int) -> bool {
        0 <= x < self.width && 0 <= y < self.height
    }

    pub open spec fn idx_of(self, x: int, y: int) -> int {
        y * self.width + x
    }

    pub open spec fn tile_at(self, x: int, y: int) -> TileType {
        self.tiles@[self.idx_of(x, y)]
    }

    /// Column of a grid index.
    pub open spec fn col(self, i: int) -> int {
        i % (self.width as int)
    }

    /// Row of a grid index.
    pub open spec fn row(self, i: int) -> int {
        i / (self.width as int)
    }

    /// An in-bounds position maps to an index below `area`.
    pub proof fn lemma_idx_bound(self, x: int, y: int)
        requires
            self.wf(),
            self.in_bounds(x, y),
        ensures
            0 <= self.idx_of(x, y) < self.area(),
    {
        assert(0 <= y * self.width + x < self.width * self.height) by (nonlinear_arith)
            requires
                0 <= x < self.width,
                0 <= y < self.height,
        ;
    }

    /// Index round trip: an in-bounds position is recovered from its index.
    pub proof fn lemma_index_round_trip(self, x: int, y: int)
        requires
            self.wf(),
            self.in_bounds(x, y),
        ensures
            self.col(self.idx_of(x, y)) == x,
            self.row(self.idx_of(x, y)) == y,
    {
        let w = self.width as int;
        vstd::arithmetic::div_mod::lemma_fundamental_div_mod_converse_mod(y * w + x, w, y, x);
        vstd::arithmetic::div_mod::lemma_fundamental_div_mod_converse_div(y * w + x, w, y, x);
    }

    /// An index below `area` decomposes into an in-bounds position.
    pub proof fn lemma_idx_decompose(self, i: int)
        requires
            self.wf(),
            0 <= i < self.area(),
        ensures
            self.in_bounds(self.col(i), self.row(i)),
            self.idx_of(self.col(i), self.row(i)) == i,
    {
        assert(0 <= i % (self.width as int) < self.width
            && 0 <= i / (self.width as int) < self.height
            && (i / (self.width as int)) * (self.width as int) + i % (self.width as int) == i)
            by (nonlinear_arith)
            requires
                0 < self.width,
                0 < self.height,
                0 <= i < self.width * self.height,
        ;
    }

    /// Maps an in-bounds position to its index in the tile grid.
    pub fn xy_idx(&self, x: i32, y: i32) -> (r: usize)
        requires
            self.wf(),
            self.in_bounds(x as int, y as int),
        ensures
            r == self.idx_of(x as int, y as int),
            r < self.area(),
    {
        proof {
            self.lemma_idx_bound(x as int, y as int);
            assert(y * self.width + x <= 10000 * 10000) by (nonlinear_arith)
                requires
                    0 <= x < self.width <= 10000,
                    0 <= y < self.height <= 10000,
            ;
        }
        (y as usize) * (self.width as usize) + (x as usize)
    }

    /// Maps an index to its in-bounds position; inverse of `xy_idx`.
    pub fn idx_xy(&self, idx: usize) -> (p: (i32, i32))
        requires
            self.wf(),
            idx < self.area(),
        ensures
            p.0 == self.col(idx as int),
            p.1 == self.row(idx as int),
            self.in_bounds(p.0 as int, p.1 as int),
            self.idx_of(p.0 as int, p.1 as int) == idx,
    {
        proof {
            self.lemma_idx_decompose(idx as int);
        }
        ((idx % (self.width as usize)) as i32, (idx / (self.width as usize)) as i32)
    }

    pub fn is_in_bounds(&self, x: i32, y: i32) -> (r: bool)
        ensures
            r == self.in_bounds(x as int, y as int),
    {
        0 <= x && x < self.width && 0 <= y && y < self.height
    }

    /// True iff the tile blocks sight.
    pub fn is_opaque(&self, idx: usize) -> (r: bool)
        requires
            self.wf(),
            idx < self.area(),
        ensures
            r == (self.tiles@[idx as int] == TileType::Wall),
    {
        self.tiles[idx] == TileType::Wall
    }

    /// A cell one can step onto: in bounds and not blocked.
    pub open spec fn exit_valid(self, x: int, y: int) -> bool {
        self.in_bounds(x, y) && !self.blocked@[self.idx_of(x, y)]
    }

    /// Two indices denote cardinally adjacent cells.
    pub open spec fn adj_idx(self, a: int, b: int) -> bool {
        ||| (self.row(a) == self.row(b)
            && (self.col(b) == self.col(a) + 1 || self.col(b) == self.col(a) - 1))
        ||| (self.col(a) == self.col(b)
            && (self.row(b) == self.row(a) + 1 || self.row(b) == self.row(a) - 1))
    }

    /// One may move from cell `a` to cell `b` in a single step: both in
    /// range, cardinally adjacent, and `b` not blocked.
    pub open spec fn is_exit(self, a: int, b: int) -> bool {
        0 <= a < self.area() && 0 <= b < self.area() && self.adj_idx(a, b) && !self.blocked@[b]
    }

    pub fn is_exit_valid(&self, x: i32, y: i32) -> (r: bool)
        requires
            self.wf(),
        ensures
            r == self.exit_valid(x as int, y as int),
    {
        if x < 0 || x >= self.width || y < 0 || y >= self.height {
            false
        } else {
            let idx = self.xy_idx(x, y);
            !self.blocked[idx]
        }
    }

    /// The up-to-4 cardinal neighbors one can step to from `idx`: exactly
    /// the in-bounds, non-blocked adjacent cells.
    pub fn get_available_exits(&self, idx: usize) -> (r: Vec<usize>)
        requires
            self.wf(),
            idx < self.area(),
        ensures
            forall|j: int| 0 <= j < r@.len() ==> self.is_exit(idx as int, #[trigger] r@[j] as int),
            forall|b: int| #[trigger] self.is_exit(idx as int, b) ==> r@.contains(b as usize),
            r@.len() <= 4,
            forall|j: int| 0 <= j < r@.len()
                ==> ((#[trigger] r@[j]) as int == idx - 1 || r@[j] as int == idx + 1
                    || r@[j] as int == idx - self.width || r@[j] as int == idx + self.width),
            forall|i: int, j: int| 0 <= i < j < r@.len() ==> r@[i] != r@[j],
    {
        let (x, y) = self.idx_xy(idx);
        let w = self.width as usize;
        let mut exits: Vec<usize> = Vec::new();
        proof {
            assert(self.area() <= 10000 * 10000) by (nonlinear_arith)
                requires
                    0 < self.width <= 10000,
                    0 < self.height <= 10000,
                    self.area() == self.width * self.height,
            ;
        }
        let ghost mut j_west: int = -1;
        let ghost mut j_east: int = -1;
        let ghost mut j_north: int = -1;
        let ghost mut j_south: int = -1;
        if self.is_exit_valid(x - 1, y) {
            proof {
                self.lemma_index_round_trip(x - 1, y as int);
                assert(idx >= 1) by (nonlinear_arith)
                    requires
                        idx == y * self.width + x,
                        y >= 0,
                        self.width > 0,
                        x >= 1,
                ;
                j_west = exits@.len() as int;
            }
            exits.push(idx - 1);
        }
        if self.is_exit_valid(x + 1, y) {
            proof {
                self.lemma_index_round_trip(x + 1, y as int);
                self.lemma_idx_bound(x + 1, y as int);
                j_east = exits@.len() as int;
            }
            exits.push(idx + 1);
        }
        if self.is_exit_valid(x, y - 1) {
            proof {
                self.lemma_index_round_trip(x as int, y - 1);
                assert(idx >= self.width && (y - 1) * self.width == y * self.width - self.width)
                    by (nonlinear_arith)
                    requires
                        idx == y * self.width + x,
                        y >= 1,
                        self.width > 0,
                        x >= 0,
                ;
                j_north = exits@.len() as int;
            }
            exits.push(idx - w);
        }
        if self.is_exit_valid(x, y + 1) {
            proof {
                self.lemma_index_round_trip(x as int, y + 1);
                self.lemma_idx_bound(x as int, y + 1);
                assert((y + 1) * self.width == y * self.width + self.width) by (nonlinear_arith);
                j_south = exits@.len() as int;
            }
            exits.push(idx + w);
        }
        proof {
            assert forall|b: int| #[trigger] self.is_exit(idx as int, b)
                implies exits@.contains(b as usize) by {
                self.lemma_idx_decompose(b);
                self.lemma_idx_decompose(idx as int);
                assert(b == self.row(b) * self.width + self.col(b));
                assert(idx == self.row(idx as int) * self.width + self.col(idx as int));
                assert(self.col(idx as int) == x && self.row(idx as int) == y);
                if self.row(b) == y as int && self.col(b) == x - 1 {
                    assert(b == idx - 1);
                    assert(self.exit_valid(x - 1, y as int));
                    assert(exits@[j_west] == (idx - 1) as usize);
                } else if self.row(b) == y as int && self.col(b) == x + 1 {
                    assert(b == idx + 1);
                    assert(self.exit_valid(x + 1, y as int));
                    assert(exits@[j_east] == (idx + 1) as usize);
                } else if self.col(b) == x as int && self.row(b) == y - 1 {
                    assert((y - 1) * self.width == y * self.width - self.width)
                        by (nonlinear_arith);
                    assert(b == idx - w);
                    assert(self.exit_valid(x as int, y - 1));
                    assert(exits@[j_north] == (idx - w) as usize);
                } else {
                    assert(self.col(b) == x as int && self.row(b) == y + 1);
                    assert((y + 1) * self.width == y * self.width + self.width)
                        by (nonlinear_arith);
                    assert(b == idx + w);
                    assert(self.exit_valid(x as int, y + 1));
                    assert(exits@[j_south] == (idx + w) as usize);
                }
            }
        }
        exits
    }

    /// Rebuilds the blocked grid from tile types alone: a cell is blocked
    /// iff its tile is a wall.
    pub fn populate_blocked(&mut self)
        requires
            old(self).wf(),
        ensures
            final(self).wf(),
            final(self).tiles == old(self).tiles,
            final(self).rooms == old(self).rooms,
            final(self).width == old(self).width,
            final(self).height == old(self).height,
            final(self).revealed_tiles == old(self).revealed_tiles,
            final(self).visible_tiles == old(self).visible_tiles,
            final(self).blocked@.len() == old(self).blocked@.len(),
            forall|i: int| 0 <= i < final(self).area()
                ==> final(self).blocked@[i] == (old(self).tiles@[i] == TileType::Wall),
    {
        let n = self.tiles.len();
        let mut i: usize = 0;
        while i < n
            invariant
                self.wf(),
                n == self.tiles@.len(),
                i <= n,
                self.tiles == old(self).tiles,
                self.rooms == old(self).rooms,
                self.width == old(self).width,
                self.height == old(self).height,
                self.revealed_tiles == old(self).revealed_tiles,
                self.visible_tiles == old(self).visible_tiles,
                self.blocked@.len() == old(self).blocked@.len(),
                forall|k: int| 0 <= k < i
                    ==> self.blocked@[k] == (self.tiles@[k] == TileType::Wall),
                forall|k: int| i <= k < self.area()
                    ==> self.blocked@[k] == old(self).blocked@[k],
            decreases n - i,
        {
            let wall = self.tiles[i] == TileType::Wall;
            self.blocked.set(i, wall);
            i += 1;
        }
    }
    /// Every cell strictly inside the room (exclusive of the room's own
    /// x1/y1 border) has been carved to floor.
    pub open spec fn room_interior_floor(self, r: Rect) -> bool {
        forall|x: int, y: int| r.x1 + 1 <= x <= r.x2 && r.y1 + 1 <= y <= r.y2
            ==> #[trigger] self.tile_at(x, y) == TileType::Floor
    }

    /// The generator's invariant: a well-formed all-fresh map whose
    /// accepted rooms are pairwise disjoint, span at least two cells per
    /// axis, have carved (floor) interiors, are chained by floor paths
    /// in acceptance order, and whose boundary ring is all wall.
    pub open spec fn gen_inv(self) -> bool {
        &&& self.wf()
        &&& forall|k: int| 0 <= k < self.area()
            ==> !self.revealed_tiles@[k] && !self.visible_tiles@[k] && !self.blocked@[k]
        &&& forall|a: int, b: int| 0 <= a < b < self.rooms@.len()
            ==> !spec_intersects(self.rooms@[a], self.rooms@[b])
        &&& forall|k: int| #![trigger self.rooms@[k]] 0 <= k < self.rooms@.len()
            ==> self.rooms@[k].x2 >= self.rooms@[k].x1 + 2
                && self.rooms@[k].y2 >= self.rooms@[k].y1 + 2
        &&& forall|k: int| #![trigger self.rooms@[k]] 0 <= k < self.rooms@.len()
            ==> self.tile_at(spec_center(self.rooms@[k]).0, spec_center(self.rooms@[k]).1)
                == TileType::Floor
        &&& forall|k: int| #![trigger self.rooms@[k]] 0 <= k < self.rooms@.len()
            ==> self.room_interior_floor(self.rooms@[k])
        &&& forall|k: int| #![trigger self.rooms@[k]] 0 <= k < self.rooms@.len() - 1
            ==> connected(self, spec_center(self.rooms@[k]), spec_center(self.rooms@[k + 1]))
        &&& forall|x: int, y: int| self.in_bounds(x, y)
            && (x == 0 || y == 0 || x == self.width - 1 || y == self.height - 1)
            ==> self.tile_at(x, y) == TileType::Wall
    }

    /// A cell strictly inside the boundary ring has an index strictly
    /// between 0 and `area - 1`.
    pub proof fn lemma_interior_idx(self, x: int, y: int)
        requires
            self.wf(),
            1 <= x <= self.width - 2,
            1 <= y <= self.height - 2,
        ensures
            0 < self.idx_of(x, y) < self.area() - 1,
    {
        assert(0 < y * self.width + x && y * self.width + x < self.width * self.height - 1)
            by (nonlinear_arith)
            requires
                1 <= x <= self.width - 2,
                1 <= y <= self.height - 2,
        ;
    }

    /// Position (x1, y1) and (x2, y2) denote the same in-bounds cell only
    /// if they are equal.
    pub proof fn lemma_idx_inj(self, x1: int, y1: int, x2: int, y2: int)
        requires
            self.wf(),
            self.in_bounds(x1, y1),
            self.in_bounds(x2, y2),
            self.idx_of(x1, y1) == self.idx_of(x2, y2),
        ensures
            x1 == x2 && y1 == y2,
    {
        self.lemma_index_round_trip(x1, y1);
        self.lemma_index_round_trip(x2, y2);
    }

    /// Carves the interior of a room (exclusive of its border) to floor.
    pub fn apply_room_to_map(&mut self, room: &Rect)
        requires
            old(self).wf(),
            old(self).room_in_map(*room),
        ensures
            final(self).wf(),
            final(self).rooms == old(self).rooms,
            final(self).width == old(self).width,
            final(self).height == old(self).height,
            final(self).revealed_tiles == old(self).revealed_tiles,
            final(self).visible_tiles == old(self).visible_tiles,
            final(self).blocked == old(self).blocked,
            final(self).tiles@.len() == old(self).tiles@.len(),
            forall|xx: int, yy: int| old(self).in_bounds(xx, yy)
                ==> final(self).tile_at(xx, yy) == (if room.x1 + 1 <= xx <= room.x2
                        && room.y1 + 1 <= yy <= room.y2 { TileType::Floor }
                    else { old(self).tile_at(xx, yy) }),
    {
        let mut y = room.y1 + 1;
        while y <= room.y2
            invariant
                self.wf(),
                old(self).wf(),
                old(self).room_in_map(*room),
                room.y1 + 1 <= y <= room.y2 + 1,
                self.rooms == old(self).rooms,
                self.width == old(self).width,
                self.height == old(self).height,
                self.revealed_tiles == old(self).revealed_tiles,
                self.visible_tiles == old(self).visible_tiles,
                self.blocked == old(self).blocked,
                self.tiles@.len() == old(self).tiles@.len(),
                forall|xx: int, yy: int| old(self).in_bounds(xx, yy)
                    ==> self.tile_at(xx, yy) == (if room.x1 + 1 <= xx <= room.x2
                            && room.y1 + 1 <= yy < y { TileType::Floor }
                        else { old(self).tile_at(xx, yy) }),
            decreases room.y2 + 1 - y,
        {
            let mut x = room.x1 + 1;
            while x <= room.x2
                invariant
                    self.wf(),
                    old(self).wf(),
                    old(self).room_in_map(*room),
                    room.y1 + 1 <= y <= room.y2,
                    room.x1 + 1 <= x <= room.x2 + 1,
                    self.rooms == old(self).rooms,
                    self.width == old(self).width,
                    self.height == old(self).height,
                    self.revealed_tiles == old(self).revealed_tiles,
                    self.visible_tiles == old(self).visible_tiles,
                    self.blocked == old(self).blocked,
                    self.tiles@.len() == old(self).tiles@.len(),
                    forall|xx: int, yy: int| old(self).in_bounds(xx, yy)
                        ==> self.tile_at(xx, yy) == (if room.x1 + 1 <= xx <= room.x2
                                && room.y1 + 1 <= yy < y
                                || yy == y && room.x1 + 1 <= xx < x { TileType::Floor }
                            else { old(self).tile_at(xx, yy) }),
                decreases room.x2 + 1 - x,
            {
                let idx = self.xy_idx(x, y);
                self.tiles.set(idx, TileType::Floor);
                proof {
                    assert forall|xx: int, yy: int| old(self).in_bounds(xx, yy)
                        implies self.tile_at(xx, yy) == (if room.x1 + 1 <= xx <= room.x2
                                && room.y1 + 1 <= yy < y
                                || yy == y && room.x1 + 1 <= xx < x + 1 { TileType::Floor }
                            else { old(self).tile_at(xx, yy) }) by {
                        self.lemma_idx_bound(xx, yy);
                        if self.idx_of(xx, yy) == idx as int {
                            self.lemma_idx_inj(xx, yy, x as int, y as int);
                        }
                    }
                }
                x += 1;
            }
            y += 1;
        }
    }

    /// Carves a horizontal corridor segment along row `y`, clamping writes
    /// to indices strictly inside the grid: index 0 and the final index
    /// are never written.
    pub fn apply_horizontal_tunnel(&mut self, x1: i32, x2: i32, y: i32)
        requires
            old(self).wf(),
            old(self).in_bounds(x1 as int, y as int),
            old(self).in_bounds(x2 as int, y as int),
        ensures
            final(self).wf(),
            final(self).rooms == old(self).rooms,
            final(self).width == old(self).width,
            final(self).height == old(self).height,
            final(self).revealed_tiles == old(self).revealed_tiles,
            final(self).visible_tiles == old(self).visible_tiles,
            final(self).blocked == old(self).blocked,
            final(self).tiles@.len() == old(self).tiles@.len(),
            forall|xx: int, yy: int| old(self).in_bounds(xx, yy)
                ==> final(self).tile_at(xx, yy) == (if yy == y
                        && vstd::math::min(x1 as int, x2 as int) <= xx
                        && xx <= vstd::math::max(x1 as int, x2 as int)
                        && 0 < old(self).idx_of(xx, yy) < old(self).area() - 1
                    { TileType::Floor } else { old(self).tile_at(xx, yy) }),
            final(self).tiles@[0] == old(self).tiles@[0],
            final(self).tiles@[old(self).area() - 1] == old(self).tiles@[old(self).area() - 1],
    {
        let lo = if x1 < x2 { x1 } else { x2 };
        let hi = if x1 < x2 { x2 } else { x1 };
        let n = self.tiles.len();
        let mut x = lo;
        while x <= hi
            invariant
                self.wf(),
                old(self).wf(),
                old(self).in_bounds(lo as int, y as int),
                old(self).in_bounds(hi as int, y as int),
                lo == vstd::math::min(x1 as int, x2 as int),
                hi == vstd::math::max(x1 as int, x2 as int),
                lo <= x <= hi + 1,
                n == old(self).area(),
                self.rooms == old(self).rooms,
                self.width == old(self).width,
                self.height == old(self).height,
                self.revealed_tiles == old(self).revealed_tiles,
                self.visible_tiles == old(self).visible_tiles,
                self.blocked == old(self).blocked,
                self.tiles@.len() == old(self).tiles@.len(),
                forall|xx: int, yy: int| old(self).in_bounds(xx, yy)
                    ==> self.tile_at(xx, yy) == (if yy == y && lo <= xx < x
                            && 0 < old(self).idx_of(xx, yy) < old(self).area() - 1
                        { TileType::Floor } else { old(self).tile_at(xx, yy) }),
            decreases hi + 1 - x,
        {
            let idx = self.xy_idx(x, y);
            if idx > 0 && idx < n - 1 {
                self.tiles.set(idx, TileType::Floor);
            }
            proof {
                assert forall|xx: int, yy: int| old(self).in_bounds(xx, yy)
                    implies self.tile_at(xx, yy) == (if yy == y && lo <= xx < x + 1
                            && 0 < old(self).idx_of(xx, yy) < old(self).area() - 1
                        { TileType::Floor } else { old(self).tile_at(xx, yy) }) by {
                    self.lemma_idx_bound(xx, yy);
                    if self.idx_of(xx, yy) == idx as int {
                        self.lemma_idx_inj(xx, yy, x as int, y as int);
                    }
                }
            }
            x += 1;
        }
        proof {
            let w = old(self).width as int;
            let h = old(self).height as int;
            assert(old(self).idx_of(0, 0) == 0);
            assert(self.tile_at(0, 0) == old(self).tile_at(0, 0));
            assert((h - 1) * w + (w - 1) == w * h - 1) by (nonlinear_arith);
            assert(old(self).idx_of(w - 1, h - 1) == old(self).area() - 1);
            assert(self.tile_at(w - 1, h - 1) == old(self).tile_at(w - 1, h - 1));
        }
    }

    /// Carves a vertical corridor segment along column `x`, clamping
    /// writes as `apply_horizontal_tunnel` does.
    pub fn apply_vertical_tunnel(&mut self, y1: i32, y2: i32, x: i32)
        requires
            old(self).wf(),
            old(self).in_bounds(x as int, y1 as int),
            old(self).in_bounds(x as int, y2 as int),
        ensures
            final(self).wf(),
            final(self).rooms == old(self).rooms,
            final(self).width == old(self).width,
            final(self).height == old(self).height,
            final(self).revealed_tiles == old(self).revealed_tiles,
            final(self).visible_tiles == old(self).visible_tiles,
            final(self).blocked == old(self).blocked,
            final(self).tiles@.len() == old(self).tiles@.len(),
            forall|xx: int, yy: int| old(self).in_bounds(xx, yy)
                ==> final(self).tile_at(xx, yy) == (if xx == x
                        && vstd::math::min(y1 as int, y2 as int) <= yy
                        && yy <= vstd::math::max(y1 as int, y2 as int)
                        && 0 < old(self).idx_of(xx, yy) < old(self).area() - 1
                    { TileType::Floor } else { old(self).tile_at(xx, yy) }),
            final(self).tiles@[0] == old(self).tiles@[0],
            final(self).tiles@[old(self).area() - 1] == old(self).tiles@[old(self).area() - 1],
    {
        let lo = if y1 < y2 { y1 } else { y2 };
        let hi = if y1 < y2 { y2 } else { y1 };
        let n = self.tiles.len();
        let mut y = lo;
        while y <= hi
            invariant
                self.wf(),
                old(self).wf(),
                old(self).in_bounds(x as int, lo as int),
                old(self).in_bounds(x as int, hi as int),
                lo == vstd::math::min(y1 as int, y2 as int),
                hi == vstd::math::max(y1 as int, y2 as int),
                lo <= y <= hi + 1,
                n == old(self).area(),
                self.rooms == old(self).rooms,
                self.width == old(self).width,
                self.height == old(self).height,
                self.revealed_tiles == old(self).revealed_tiles,
                self.visible_tiles == old(self).visible_tiles,
                self.blocked == old(self).blocked,
                self.tiles@.len() == old(self).tiles@.len(),
                forall|xx: int, yy: int| old(self).in_bounds(xx, yy)
                    ==> self.tile_at(xx, yy) == (if xx == x && lo <= yy < y
                            && 0 < old(self).idx_of(xx, yy) < old(self).area() - 1
                        { TileType::Floor } else { old(self).tile_at(xx, yy) }),
            decreases hi + 1 - y,
        {
            let idx = self.xy_idx(x, y);
            if idx > 0 && idx < n - 1 {
                self.tiles.set(idx, TileType::Floor);
            }
            proof {
                assert forall|xx: int, yy: int| old(self).in_bounds(xx, yy)
                    implies self.tile_at(xx, yy) == (if xx == x && lo <= yy < y + 1
                            && 0 < old(self).idx_of(xx, yy) < old(self).area() - 1
                        { TileType::Floor } else { old(self).tile_at(xx, yy) }) by {
                    self.lemma_idx_bound(xx, yy);
                    if self.idx_of(xx, yy) == idx as int {
                        self.lemma_idx_inj(xx, yy, x as int, y as int);
                    }
                }
            }
            y += 1;
        }
        proof {
            let w = old(self).width as int;
            let h = old(self).height as int;
            assert(old(self).idx_of(0, 0) == 0);
            assert(self.tile_at(0, 0) == old(self).tile_at(0, 0));
            assert((h - 1) * w + (w - 1) == w * h - 1) by (nonlinear_arith);
            assert(old(self).idx_of(w - 1, h - 1) == old(self).area() - 1);
            assert(self.tile_at(w - 1, h - 1) == old(self).tile_at(w - 1, h - 1));
        }
    }
    /// Carves an L-shaped corridor between two cells strictly inside the
    /// boundary ring: one horizontal and one vertical segment sharing a
    /// corner, the corner chosen by `horizontal_first`. Every cell it
    /// changes becomes floor strictly inside the boundary ring, and the
    /// two endpoints end up joined by a path of floor tiles.
    fn carve_corridor(&mut self, pcx: i32, pcy: i32, ncx: i32, ncy: i32, horizontal_first: bool)
        requires
            old(self).wf(),
            1 <= pcx <= old(self).width - 2,
            1 <= ncx <= old(self).width - 2,
            1 <= pcy <= old(self).height - 2,
            1 <= ncy <= old(self).height - 2,
        ensures
            final(self).wf(),
            final(self).rooms == old(self).rooms,
            final(self).width == old(self).width,
            final(self).height == old(self).height,
            final(self).revealed_tiles == old(self).revealed_tiles,
            final(self).visible_tiles == old(self).visible_tiles,
            final(self).blocked == old(self).blocked,
            final(self).tiles@.len() == old(self).tiles@.len(),
            forall|x: int, y: int| old(self).in_bounds(x, y)
                && final(self).tile_at(x, y) != old(self).tile_at(x, y)
                ==> 1 <= x <= old(self).width - 2 && 1 <= y <= old(self).height - 2
                    && final(self).tile_at(x, y) == TileType::Floor,
            crate::connectivity::connected(*final(self), (pcx as int, pcy as int),
                (ncx as int, ncy as int)),
    {
        let ghost m0 = *self;
        if horizontal_first {
            self.apply_horizontal_tunnel(pcx, ncx, pcy);
            self.apply_vertical_tunnel(pcy, ncy, ncx);
            proof {
                let xlo = vstd::math::min(pcx as int, ncx as int);
                let xhi = vstd::math::max(pcx as int, ncx as int);
                let ylo = vstd::math::min(pcy as int, ncy as int);
                let yhi = vstd::math::max(pcy as int, ncy as int);
                assert forall|x: int| xlo <= x <= xhi
                    implies self.in_bounds(x, pcy as int)
                        && #[trigger] self.tile_at(x, pcy as int) == TileType::Floor by {
                    m0.lemma_interior_idx(x, pcy as int);
                }
                assert forall|y: int| ylo <= y <= yhi
                    implies self.in_bounds(ncx as int, y)
                        && #[trigger] self.tile_at(ncx as int, y) == TileType::Floor by {
                    m0.lemma_interior_idx(ncx as int, y);
                }
                crate::connectivity::lemma_hseg_connected(*self, pcy as int, xlo, xhi);
                crate::connectivity::lemma_vseg_connected(*self, ncx as int, ylo, yhi);
                let pc = (pcx as int, pcy as int);
                let corner = (ncx as int, pcy as int);
                let nc = (ncx as int, ncy as int);
                if pcx <= ncx {
                    assert(crate::connectivity::connected(*self, pc, corner));
                } else {
                    crate::connectivity::lemma_connected_sym(*self, corner, pc);
                }
                if pcy <= ncy {
                    assert(crate::connectivity::connected(*self, corner, nc));
                } else {
                    crate::connectivity::lemma_connected_sym(*self, nc, corner);
                }
                crate::connectivity::lemma_connected_trans(*self, pc, corner, nc);
            }
        } else {
            self.apply_vertical_tunnel(pcy, ncy, pcx);
            self.apply_horizontal_tunnel(pcx, ncx, ncy);
            proof {
                let xlo = vstd::math::min(pcx as int, ncx as int);
                let xhi = vstd::math::max(pcx as int, ncx as int);
                let ylo = vstd::math::min(pcy as int, ncy as int);
                let yhi = vstd::math::max(pcy as int, ncy as int);
                assert forall|y: int| ylo <= y <= yhi
                    implies self.in_bounds(pcx as int, y)
                        && #[trigger] self.tile_at(pcx as int, y) == TileType::Floor by {
                    m0.lemma_interior_idx(pcx as int, y);
                }
                assert forall|x: int| xlo <= x <= xhi
                    implies self.in_bounds(x, ncy as int)
                        && #[trigger] self.tile_at(x, ncy as int) == TileType::Floor by {
                    m0.lemma_interior_idx(x, ncy as int);
                }
                crate::connectivity::lemma_vseg_connected(*self, pcx as int, ylo, yhi);
                crate::connectivity::lemma_hseg_connected(*self, ncy as int, xlo, xhi);
                let pc = (pcx as int, pcy as int);
                let corner = (pcx as int, ncy as int);
                let nc = (ncx as int, ncy as int);
                if pcy <= ncy {
                    assert(crate::connectivity::connected(*self, pc, corner));
                } else {
                    crate::connectivity::lemma_connected_sym(*self, corner, pc);
                }
                if pcx <= ncx {
                    assert(crate::connectivity::connected(*self, corner, nc));
                } else {
                    crate::connectivity::lemma_connected_sym(*self, nc, corner);
                }
                crate::connectivity::lemma_connected_trans(*self, pc, corner, nc);
            }
        }
    }
    /// After a room carve and corridor carve, the generator invariant
    /// holds again once the room is appended: `g0` is the map before the
    /// carves, `g2` after them, and `m` is `g2` with the room appended.
    #[verifier::rlimit(100)]
    proof fn lemma_gen_inv_after_accept(g0: WorldMap, g2: WorldMap, m: WorldMap, new_room: Rect)
        requires
            g0.gen_inv(),
            g0.room_in_map(new_room),
            new_room.x2 >= new_room.x1 + 2,
            new_room.y2 >= new_room.y1 + 2,
            forall|jj: int| 0 <= jj < g0.rooms@.len()
                ==> !spec_intersects(new_room, #[trigger] g0.rooms@[jj]),
            g2.width == g0.width,
            g2.height == g0.height,
            g2.rooms == g0.rooms,
            g2.revealed_tiles == g0.revealed_tiles,
            g2.visible_tiles == g0.visible_tiles,
            g2.blocked == g0.blocked,
            g2.tiles@.len() == g0.tiles@.len(),
            forall|xx: int, yy: int| g0.in_bounds(xx, yy)
                && #[trigger] g0.tile_at(xx, yy) == TileType::Floor
                ==> g2.tile_at(xx, yy) == TileType::Floor,
            forall|xx: int, yy: int| g0.in_bounds(xx, yy)
                && #[trigger] g2.tile_at(xx, yy) != g0.tile_at(xx, yy)
                ==> 1 <= xx <= g0.width - 2 && 1 <= yy <= g0.height - 2
                    && g2.tile_at(xx, yy) == TileType::Floor,
            g2.tile_at(spec_center(new_room).0, spec_center(new_room).1) == TileType::Floor,
            g2.room_interior_floor(new_room),
            g0.rooms@.len() > 0 ==> connected(g2,
                spec_center(g0.rooms@[g0.rooms@.len() - 1]), spec_center(new_room)),
            m.width == g2.width,
            m.height == g2.height,
            m.tiles == g2.tiles,
            m.revealed_tiles == g2.revealed_tiles,
            m.visible_tiles == g2.visible_tiles,
            m.blocked == g2.blocked,
            m.rooms@ == g0.rooms@.push(new_room),
        ensures
            m.gen_inv(),
    {
        let prev_len = g0.rooms@.len() as int;
        let len = m.rooms@.len() as int;
        assert forall|k: int| #![trigger m.rooms@[k]] 0 <= k < len
            implies m.room_in_map(m.rooms@[k])
                && m.rooms@[k].x2 >= m.rooms@[k].x1 + 2
                && m.rooms@[k].y2 >= m.rooms@[k].y1 + 2 by {
            if k < prev_len {
                assert(m.rooms@[k] == g0.rooms@[k]);
            }
        }
        assert forall|a: int, b: int| 0 <= a < b < len
            implies !spec_intersects(m.rooms@[a], m.rooms@[b]) by {
            if b < prev_len {
                assert(m.rooms@[a] == g0.rooms@[a] && m.rooms@[b] == g0.rooms@[b]);
            } else {
                assert(m.rooms@[a] == g0.rooms@[a] && m.rooms@[b] == new_room);
                assert(!spec_intersects(new_room, g0.rooms@[a]));
            }
        }
        assert forall|k: int| #![trigger m.rooms@[k]] 0 <= k < len
            implies m.room_interior_floor(m.rooms@[k]) by {
            if k < prev_len {
                assert(m.rooms@[k] == g0.rooms@[k]);
                assert(g0.room_interior_floor(g0.rooms@[k]));
                assert forall|x: int, y: int| m.rooms@[k].x1 + 1 <= x <= m.rooms@[k].x2
                    && m.rooms@[k].y1 + 1 <= y <= m.rooms@[k].y2
                    implies #[trigger] m.tile_at(x, y) == TileType::Floor by {
                    assert(g0.in_bounds(x, y));
                    assert(g0.tile_at(x, y) == TileType::Floor);
                    assert(g2.tile_at(x, y) == TileType::Floor);
                }
            } else {
                assert(m.rooms@[k] == new_room);
                assert forall|x: int, y: int| new_room.x1 + 1 <= x <= new_room.x2
                    && new_room.y1 + 1 <= y <= new_room.y2
                    implies #[trigger] m.tile_at(x, y) == TileType::Floor by {
                    assert(g2.tile_at(x, y) == TileType::Floor);
                }
            }
        }
        assert forall|k: int| #![trigger m.rooms@[k]] 0 <= k < len
            implies m.tile_at(spec_center(m.rooms@[k]).0,
                spec_center(m.rooms@[k]).1) == TileType::Floor by {
            if k < prev_len {
                assert(m.rooms@[k] == g0.rooms@[k]);
                assert(g0.tile_at(spec_center(g0.rooms@[k]).0,
                    spec_center(g0.rooms@[k]).1) == TileType::Floor);
                assert(g0.in_bounds(spec_center(g0.rooms@[k]).0, spec_center(g0.rooms@[k]).1))
                    by {
                    lemma_center_bounds(g0.rooms@[k]);
                }
            } else {
                assert(m.rooms@[k] == new_room);
            }
        }
        assert forall|k: int| #![trigger m.rooms@[k]] 0 <= k < len - 1
            implies connected(m, spec_center(m.rooms@[k]),
                spec_center(m.rooms@[k + 1])) by {
            if k < prev_len - 1 {
                assert(m.rooms@[k] == g0.rooms@[k] && m.rooms@[k + 1] == g0.rooms@[k + 1]);
                lemma_connected_mono(g0, m, spec_center(g0.rooms@[k]),
                    spec_center(g0.rooms@[k + 1]));
            } else {
                assert(m.rooms@[k] == g0.rooms@[prev_len - 1] && m.rooms@[k + 1] == new_room);
                lemma_connected_mono(g2, m,
                    spec_center(g0.rooms@[prev_len - 1]), spec_center(new_room));
            }
        }
        assert forall|x: int, y: int| m.in_bounds(x, y)
            && (x == 0 || y == 0 || x == m.width - 1 || y == m.height - 1)
            implies #[trigger] m.tile_at(x, y) == TileType::Wall by {
            assert(g0.tile_at(x, y) == TileType::Wall);
            assert(g2.tile_at(x, y) == g0.tile_at(x, y));
        }
    }

    /// Accepts a candidate room that fits in the map and overlaps no
    /// accepted room: carves its interior, joins its center to the
    /// previously accepted room's center (when one exists) by an
    /// L-corridor whose corner is chosen at random, and appends it.
    #[verifier::loop_isolation(false)]
    #[verifier::rlimit(100)]
    fn accept_room(&mut self, new_room: Rect, rng: &mut RandomNumberGenerator)
        requires
            old(self).gen_inv(),
            old(self).room_in_map(new_room),
            new_room.x2 >= new_room.x1 + 2,
            new_room.y2 >= new_room.y1 + 2,
            forall|jj: int| 0 <= jj < old(self).rooms@.len()
                ==> !spec_intersects(new_room, #[trigger] old(self).rooms@[jj]),
        ensures
            final(self).gen_inv(),
            final(self).width == old(self).width,
            final(self).height == old(self).height,
            final(self).rooms@ == old(self).rooms@.push(new_room),
    {
        let ghost g0 = *self;
        self.apply_room_to_map(&new_room);
        let ghost g1 = *self;
        if self.rooms.len() > 0 {
            let (ncx, ncy) = new_room.center();
            let prev = self.rooms[self.rooms.len() - 1];
            let (pcx, pcy) = prev.center();
            proof {
                lemma_center_bounds(new_room);
                lemma_center_bounds(prev);
            }
            let coin = rng_range(rng, 0, 2);
            self.carve_corridor(pcx, pcy, ncx, ncy, coin == 1);
        }
        let ghost g2 = *self;
        proof {
            lemma_center_bounds(new_room);
            // floor gained by the room carve survives the corridor carve
            assert forall|xx: int, yy: int| g0.in_bounds(xx, yy)
                && #[trigger] g0.tile_at(xx, yy) == TileType::Floor
                implies g2.tile_at(xx, yy) == TileType::Floor by {
                assert(g1.tile_at(xx, yy) == TileType::Floor);
            }
            // every changed cell lies strictly inside the border, as floor
            assert forall|xx: int, yy: int| g0.in_bounds(xx, yy)
                && #[trigger] g2.tile_at(xx, yy) != g0.tile_at(xx, yy)
                implies 1 <= xx <= g0.width - 2 && 1 <= yy <= g0.height - 2
                    && g2.tile_at(xx, yy) == TileType::Floor by {
                if g1.tile_at(xx, yy) == g0.tile_at(xx, yy) {
                    assert(g2.tile_at(xx, yy) != g1.tile_at(xx, yy));
                }
            }
            assert(g1.tile_at(spec_center(new_room).0, spec_center(new_room).1)
                == TileType::Floor);
            assert(g2.tile_at(spec_center(new_room).0, spec_center(new_room).1)
                == TileType::Floor);
            assert forall|x: int, y: int| new_room.x1 + 1 <= x <= new_room.x2
                && new_room.y1 + 1 <= y <= new_room.y2
                implies #[trigger] g2.tile_at(x, y) == TileType::Floor by {
                assert(g0.in_bounds(x, y));
                assert(g1.tile_at(x, y) == TileType::Floor);
            }
            assert(g2.room_interior_floor(new_room));
        }
        self.rooms.push(new_room);
        proof {
            WorldMap::lemma_gen_inv_after_accept(g0, g2, *self, new_room);
        }
    }

    /// Generates a dungeon: an all-wall grid into which up to `max_rooms`
    /// random rooms are carved, a candidate intersecting an accepted room
    /// being rejected, and every accepted room after the first joined to
    /// the previously accepted room's center by an L-shaped corridor.
    #[verifier::loop_isolation(false)]
    pub fn generate(
        width: i32,
        height: i32,
        max_rooms: i32,
        min_size: i32,
        max_size: i32,
        rng: &mut RandomNumberGenerator,
    ) -> (m: WorldMap)
        requires
            2 <= min_size <= max_size,
            max_size + 1 < width <= 10000,
            max_size + 1 < height <= 10000,
            0 <= max_rooms,
        ensures
            m.gen_inv(),
            m.width == width,
            m.height == height,
            m.rooms@.len() <= max_rooms,
            0 < max_rooms ==> m.rooms@.len() >= 1,
    {
        proof {
            assert(0 < width * height <= 10000 * 10000) by (nonlinear_arith)
                requires
                    0 < width <= 10000,
                    0 < height <= 10000,
            ;
        }
        let n = (width as usize) * (height as usize);
        let mut map = WorldMap {
            tiles: filled(n, TileType::Wall),
            rooms: Vec::new(),
            width,
            height,
            revealed_tiles: filled(n, false),
            visible_tiles: filled(n, false),
            blocked: filled(n, false),
        };
        proof {
            assert forall|xx: int, yy: int| map.in_bounds(xx, yy)
                implies #[trigger] map.tile_at(xx, yy) == TileType::Wall by {
                map.lemma_idx_bound(xx, yy);
            }
            assert(map.gen_inv());
        }
        let mut i: i32 = 0;
        while i < max_rooms
            invariant
                0 <= i <= max_rooms,
                map.gen_inv(),
                map.width == width,
                map.height == height,
                map.rooms@.len() <= i,
                0 < i ==> map.rooms@.len() >= 1,
            decreases max_rooms - i,
        {
            let rw = rng_range(rng, min_size, max_size + 1);
            let rh = rng_range(rng, min_size, max_size + 1);
            let x = rng_roll_dice(rng, 1, width - rw - 1) - 1;
            let y = rng_roll_dice(rng, 1, height - rh - 1) - 1;
            let new_room = Rect::new(x, y, rw, rh);
            let mut ok = true;
            let mut j: usize = 0;
            while j < map.rooms.len()
                invariant
                    j <= map.rooms@.len(),
                    ok == (forall|jj: int| 0 <= jj < j
                        ==> !spec_intersects(new_room, #[trigger] map.rooms@[jj])),
                decreases map.rooms@.len() - j,
            {
                if new_room.intersect(&map.rooms[j]) {
                    ok = false;
                }
                j += 1;
            }
            if ok {
                map.accept_room(new_room, rng);
            }
            i += 1;
        }
        map
    }

    /// Generates the standard dungeon of the game: an 80 by 50 grid with
    /// up to 30 rooms sized between 6 and 10, from a freshly seeded RNG.
    pub fn new() -> (m: WorldMap)
        ensures
            m.wf(),
            m.width == MAP_WIDTH,
            m.height == MAP_HEIGHT,
            1 <= m.rooms@.len() <= 30,
            forall|k: int| 0 <= k < m.area()
                ==> !m.revealed_tiles@[k] && !m.visible_tiles@[k] && !m.blocked@[k],
            forall|a: int, b: int| 0 <= a < b < m.rooms@.len()
                ==> !spec_intersects(m.rooms@[a], m.rooms@[b]),
            forall|k: int| #![trigger m.rooms@[k]] 0 <= k < m.rooms@.len()
                ==> m.rooms@[k].x2 >= m.rooms@[k].x1 + 2 && m.rooms@[k].y2 >= m.rooms@[k].y1 + 2,
            forall|k: int| #![trigger m.rooms@[k]] 0 <= k < m.rooms@.len()
                ==> m.tile_at(spec_center(m.rooms@[k]).0, spec_center(m.rooms@[k]).1)
                    == TileType::Floor,
            forall|k: int| #![trigger m.rooms@[k]] 0 <= k < m.rooms@.len() - 1
                ==> connected(m, spec_center(m.rooms@[k]), spec_center(m.rooms@[k + 1])),
    {
        let mut rng = RandomNumberGenerator::new();
        WorldMap::generate(MAP_WIDTH, MAP_HEIGHT, 30, 6, 10, &mut rng)
    }
}

/// Builds a vector of `n` copies of `v`.
pub fn filled<T: Copy>(n: usize, v: T) -> (r: Vec<T>)
    ensures
        r@.len() == n,
        forall|i: int| 0 <= i < n ==> r@[i] == v,
{
    let mut r: Vec<T> = Vec::new();
    let mut i: usize = 0;
    while i < n
        invariant
            i <= n,
            r@.len() == i,
            forall|k: int| 0 <= k < i ==> r@[k] == v,
        decreases n - i,
    {
        r.push(v);
        i += 1;
    }
    r
}

} // verus!
