//! Floor-connectivity: what it means for two cells of a map to be joined
//! by a path of floor tiles, and the lemmas the generator's connectivity
//! guarantee is built from.

use vstd::prelude::*;
use crate::map::{TileType, WorldMap};

verus! {

/// Two cells are cardinally adjacent.
pub open spec fn cadj(a: (int, int), b: (int, int)) -> bool {
    ||| (a.0 == b.0 && (b.1 == a.1 + 1 || b.1 == a.1 - 1))
    ||| (a.1 == b.1 && (b.0 == a.0 + 1 || b.0 == a.0 - 1))
}

/// A non-empty sequence of in-bounds floor cells, each cardinally
/// adjacent to the next.
pub open spec fn floor_path(m: WorldMap, p: Seq<(int, int)>) -> bool {
    &&& p.len() >= 1
    &&& forall|k: int| 0 <= k < p.len()
        ==> m.in_bounds((#[trigger] p[k]).0, p[k].1)
            && m.tile_at(p[k].0, p[k].1) == TileType::Floor
    &&& forall|k: int| 0 <= k < p.len() - 1 ==> cadj(#[trigger] p[k], p[k + 1])
}

/// A path of floor tiles joins `a` to `b`.
pub open spec fn connected(m: WorldMap, a: (int, int), b: (int, int)) -> bool {
    exists|p: Seq<(int, int)>| floor_path(m, p) && p[0] == a && p[p.len() - 1] == b
}

/// A floor cell is connected to itself.
pub proof fn lemma_connected_refl(m: WorldMap, a: (int, int))
    requires
        m.in_bounds(a.0, a.1),
        m.tile_at(a.0, a.1) == TileType::Floor,
    ensures
        connected(m, a, a),
{
    let p = seq![a];
    assert(floor_path(m, p) && p[0] == a && p[p.len() - 1] == a);
}

/// Connectivity is symmetric: a path read backwards is still a path.
pub proof fn lemma_connected_sym(m: WorldMap, a: (int, int), b: (int, int))
    requires
        connected(m, a, b),
    ensures
        connected(m, b, a),
{
    let p = choose|p: Seq<(int, int)>| floor_path(m, p) && p[0] == a && p[p.len() - 1] == b;
    let n = p.len() as int;
    let q = Seq::new(p.len(), |i: int| p[n - 1 - i]);
    assert(forall|k: int| 0 <= k < q.len() - 1 ==> cadj(#[trigger] q[k], q[k + 1])) by {
        assert(forall|k: int| 0 <= k < q.len() - 1
            ==> cadj(p[n - 2 - k], p[n - 1 - k]) && #[trigger] q[k] == p[n - 1 - k]
                && q[k + 1] == p[n - 2 - k]);
    }
    assert(floor_path(m, q) && q[0] == b && q[q.len() - 1] == a);
}

/// Connectivity is transitive: two paths concatenate at the shared cell.
pub proof fn lemma_connected_trans(m: WorldMap, a: (int, int), b: (int, int), c: (int, int))
    requires
        connected(m, a, b),
        connected(m, b, c),
    ensures
        connected(m, a, c),
{
    let p1 = choose|p: Seq<(int, int)>| floor_path(m, p) && p[0] == a && p[p.len() - 1] == b;
    let p2 = choose|p: Seq<(int, int)>| floor_path(m, p) && p[0] == b && p[p.len() - 1] == c;
    if p2.len() == 1 {
        assert(floor_path(m, p1) && p1[0] == a && p1[p1.len() - 1] == c);
    } else {
        let q = p1 + p2.subrange(1, p2.len() as int);
        let n1 = p1.len() as int;
        assert(q.len() == n1 + p2.len() - 1);
        assert(forall|k: int| 0 <= k < n1 ==> #[trigger] q[k] == p1[k]);
        assert(forall|k: int| n1 <= k < q.len() ==> #[trigger] q[k] == p2[k - n1 + 1]);
        assert(forall|k: int| 0 <= k < q.len() - 1 ==> cadj(#[trigger] q[k], q[k + 1])) by {
            assert(forall|k: int| 0 <= k < n1 - 1 ==> cadj(#[trigger] p1[k], p1[k + 1]));
            assert(forall|k: int| 0 <= k < p2.len() - 1 ==> cadj(#[trigger] p2[k], p2[k + 1]));
            assert(q[n1 - 1] == p1[n1 - 1] && p1[n1 - 1] == b && p2[0] == b);
            assert(q[n1 - 1] == p2[0]);
        }
        assert(q[0] == a && q[q.len() - 1] == p2[p2.len() - 1]);
        assert(floor_path(m, q) && q[0] == a && q[q.len() - 1] == c);
    }
}

/// Turning walls into floor never disconnects anything: a floor path in
/// `m1` is still a floor path in a map with the same dimensions whose
/// floor is a superset.
pub proof fn lemma_connected_mono(m1: WorldMap, m2: WorldMap, a: (int, int), b: (int, int))
    requires
        m1.width == m2.width,
        m1.height == m2.height,
        forall|x: int, y: int| m1.in_bounds(x, y) && #[trigger] m1.tile_at(x, y) == TileType::Floor
            ==> m2.tile_at(x, y) == TileType::Floor,
        connected(m1, a, b),
    ensures
        connected(m2, a, b),
{
    let p = choose|p: Seq<(int, int)>| floor_path(m1, p) && p[0] == a && p[p.len() - 1] == b;
    assert(forall|k: int| 0 <= k < p.len()
        ==> m2.in_bounds((#[trigger] p[k]).0, p[k].1)
            && m2.tile_at(p[k].0, p[k].1) == TileType::Floor);
    assert(floor_path(m2, p) && p[0] == a && p[p.len() - 1] == b);
}

/// A horizontal run of floor cells connects its two ends.
pub proof fn lemma_hseg_connected(m: WorldMap, y: int, xa: int, xb: int)
    requires
        xa <= xb,
        forall|x: int| xa <= x <= xb
            ==> m.in_bounds(x, y) && #[trigger] m.tile_at(x, y) == TileType::Floor,
    ensures
        connected(m, (xa, y), (xb, y)),
{
    let p = Seq::new((xb - xa + 1) as nat, |i: int| (xa + i, y));
    assert(forall|k: int| 0 <= k < p.len()
        ==> m.in_bounds((#[trigger] p[k]).0, p[k].1)
            && m.tile_at(p[k].0, p[k].1) == TileType::Floor) by {
        assert(forall|k: int| 0 <= k < p.len() ==> #[trigger] p[k] == (xa + k, y));
    }
    assert(forall|k: int| 0 <= k < p.len() - 1 ==> cadj(#[trigger] p[k], p[k + 1]));
    assert(floor_path(m, p) && p[0] == (xa, y) && p[p.len() - 1] == (xb, y));
}

/// A vertical run of floor cells connects its two ends.
pub proof fn lemma_vseg_connected(m: WorldMap, x: int, ya: int, yb: int)
    requires
        ya <= yb,
        forall|y: int| ya <= y <= yb
            ==> m.in_bounds(x, y) && #[trigger] m.tile_at(x, y) == TileType::Floor,
    ensures
        connected(m, (x, ya), (x, yb)),
{
    let p = Seq::new((yb - ya + 1) as nat, |i: int| (x, ya + i));
    assert(forall|k: int| 0 <= k < p.len()
        ==> m.in_bounds((#[trigger] p[k]).0, p[k].1)
            && m.tile_at(p[k].0, p[k].1) == TileType::Floor) by {
        assert(forall|k: int| 0 <= k < p.len() ==> #[trigger] p[k] == (x, ya + k));
    }
    assert(forall|k: int| 0 <= k < p.len() - 1 ==> cadj(#[trigger] p[k], p[k + 1]));
    assert(floor_path(m, p) && p[0] == (x, ya) && p[p.len() - 1] == (x, yb));
}

} // verus!
