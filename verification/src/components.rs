//! The components an entity may carry: its grid position, its viewshed,
//! its role in the simulation, and whether it blocks the cell it stands
//! on.

use vstd::prelude::*;

verus! {

/// A grid cell an entity stands on.
#[derive(Clone, Copy, PartialEq, Eq, Structural, Debug)]
pub struct Position {
    pub x: i32,
    pub y: i32,
}

/// Which of the two monster kinds an entity was spawned as; affects only
/// how it is displayed.
#[derive(Clone, Copy, PartialEq, Eq, Structural, Debug)]
pub enum MonsterKind {
    Goblin,
    Orc,
}

/// An entity's role: the player, or a hostile entity of some kind.
#[derive(Clone, Copy, PartialEq, Eq, Structural, Debug)]
pub enum Role {
    Player,
    Monster(MonsterKind),
}

impl Role {
    pub open spec fn is_monster(self) -> bool {
        self is Monster
    }
}

/// The set of tiles an entity currently sees, its sight range, and a flag
/// forcing recomputation.
pub struct Viewshed {
    pub visible_tiles: Vec<Position>,
    pub range: i32,
    pub dirty: bool,
}

impl Viewshed {
    pub open spec fn wf(self) -> bool {
        0 <= self.range <= 1000
    }
}

/// One entity of the simulation: a role, a position, a viewshed, and
/// whether it occupies a blocking cell.
pub struct Entity {
    pub role: Role,
    pub pos: Position,
    pub viewshed: Viewshed,
    pub blocks_tile: bool,
}

/// A movement command from the input collaborator: exactly one of the
/// two deltas is non-zero, each in {-1, 0, 1}.
#[derive(Clone, Copy, PartialEq, Eq, Structural, Debug)]
pub struct MoveIntent {
    pub dx: i32,
    pub dy: i32,
}

impl MoveIntent {
    pub open spec fn wf(self) -> bool {
        &&& -1 <= self.dx <= 1
        &&& -1 <= self.dy <= 1
        &&& (self.dx == 0) != (self.dy == 0)
    }
}

/// Copies a list of positions element for element.
pub fn copy_positions(v: &Vec<Position>) -> (r: Vec<Position>)
    ensures
        r@ == v@,
{
    let mut r: Vec<Position> = Vec::new();
    let mut i: usize = 0;
    while i < v.len()
        invariant
            i <= v@.len(),
            r@.len() == i,
            forall|k: int| 0 <= k < i ==> r@[k] == v@[k],
        decreases v@.len() - i,
    {
        r.push(v[i]);
        i += 1;
    }
    proof {
        assert(r@ =~= v@);
    }
    r
}

/// Returns whether the sequence of positions holds `p`.
pub fn contains_pos(v: &Vec<Position>, p: Position) -> (r: bool)
    ensures
        r == v@.contains(p),
{
    let mut i: usize = 0;
    while i < v.len()
        invariant
            i <= v@.len(),
            forall|k: int| 0 <= k < i ==> v@[k] != p,
        decreases v@.len() - i,
    {
        if v[i].x == p.x && v[i].y == p.y {
            proof {
                assert(v@[i as int] == p);
            }
            return true;
        }
        i += 1;
    }
    proof {
        assert(forall|k: int| 0 <= k < v@.len() ==> v@[k] != p);
    }
    false
}

} // verus!
