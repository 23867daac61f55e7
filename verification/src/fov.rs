//! The field-of-view sweep: which cells an observer sees from a given
//! position out to a given range, respecting wall opacity, clipped to the
//! map bounds, and bit-for-bit reproducible for a given input.

use vstd::prelude::*;
use crate::components::Position;
use crate::map::{TileType, WorldMap};

verus! {

pub open spec fn sgn(d: int) -> int {
    if d > 0 { 1 } else if d < 0 { -1 } else { 0 }
}

pub open spec fn iabs(d: int) -> int {
    if d >= 0 { d } else { -d }
}

/// Number of steps of the discrete line between two cells.
pub open spec fn line_n(x0: int, y0: int, x1: int, y1: int) -> int {
    vstd::math::max(iabs(x1 - x0), iabs(y1 - y0))
}

/// Rounding division: `a / n` rounded half away from zero, for `a >= 0`,
/// `n > 0`.
pub open spec fn rdiv(a: int, n: int) -> int {
    (2 * a + n) / (2 * n)
}

/// The i-th cell of the discrete line from (x0, y0) to (x1, y1): both
/// coordinates advance proportionally, rounded to the nearest cell.
pub open spec fn line_pt(x0: int, y0: int, x1: int, y1: int, i: int) -> (int, int) {
    let n = line_n(x0, y0, x1, y1);
    if n == 0 {
        (x0, y0)
    } else {
        (x0 + sgn(x1 - x0) * rdiv(i * iabs(x1 - x0), n),
         y0 + sgn(y1 - y0) * rdiv(i * iabs(y1 - y0), n))
    }
}

/// A cell blocks sight if it is out of bounds or a wall.
pub open spec fn opaque_at(m: WorldMap, x: int, y: int) -> bool {
    !m.in_bounds(x, y) || m.tile_at(x, y) == TileType::Wall
}

/// Cell (tx, ty) is visible from (ox, oy): in bounds, within Euclidean
/// range, and no interior cell of the line between them blocks sight.
pub open spec fn visible_from(m: WorldMap, ox: int, oy: int, range: int, tx: int, ty: int)
    -> bool {
    &&& m.in_bounds(tx, ty)
    &&& (tx - ox) * (tx - ox) + (ty - oy) * (ty - oy) <= range * range
    &&& forall|i: int| 1 <= i < line_n(ox, oy, tx, ty)
        ==> !opaque_at(m, (#[trigger] line_pt(ox, oy, tx, ty, i)).0,
            line_pt(ox, oy, tx, ty, i).1)
}

/// The k-th cell of the row-major scan of the (2 range + 1)-sided square
/// centered on the observer.
pub open spec fn fov_cell(ox: int, oy: int, range: int, k: int) -> (int, int) {
    (ox - range + k % (2 * range + 1), oy - range + k / (2 * range + 1))
}

/// The visible cells among the first `k` cells of the scan, in scan
/// order.
pub open spec fn fov_seq(m: WorldMap, ox: int, oy: int, range: int, k: int) -> Seq<(int, int)>
    decreases k,
{
    if k <= 0 {
        Seq::empty()
    } else {
        let c = fov_cell(ox, oy, range, k - 1);
        fov_seq(m, ox, oy, range, k - 1)
            + (if visible_from(m, ox, oy, range, c.0, c.1) { seq![c] } else { Seq::empty() })
    }
}

/// The full viewshed of an observer, in scan order.
pub open spec fn fov_of(m: WorldMap, ox: int, oy: int, range: int) -> Seq<(int, int)> {
    fov_seq(m, ox, oy, range, (2 * range + 1) * (2 * range + 1))
}

/// An executable viewshed matches the mathematical one cell for cell.
pub open spec fn matches_fov(v: Seq<Position>, s: Seq<(int, int)>) -> bool {
    v.len() == s.len() && forall|j: int| 0 <= j < v.len()
        ==> ((#[trigger] v[j]).x as int, v[j].y as int) == s[j]
}

/// The rounded proportional step stays between 0 and the full delta.
proof fn lemma_rdiv_range(i: int, ad: int, n: int)
    requires
        0 <= i <= n,
        0 < n,
        0 <= ad,
    ensures
        0 <= rdiv(i * ad, n) <= ad,
{
    let p = i * ad;
    let pm = n * ad;
    assert(0 <= p && p <= pm) by (nonlinear_arith)
        requires
            0 <= i <= n,
            0 <= ad,
            p == i * ad,
            pm == n * ad,
    ;
    let num = 2 * p + n;
    let q = num / (2 * n);
    let r = num % (2 * n);
    vstd::arithmetic::div_mod::lemma_fundamental_div_mod(num, 2 * n);
    vstd::arithmetic::div_mod::lemma_mod_bound(num, 2 * n);
    assert(0 <= q <= ad) by (nonlinear_arith)
        requires
            num == 2 * n * q + r,
            0 <= r < 2 * n,
            0 <= num,
            num <= 2 * pm + n,
            pm == n * ad,
            n > 0,
            0 <= ad,
    ;
}

/// Computes `rdiv` on machine integers.
fn rdiv_exec(a: i64, n: i64) -> (r: i64)
    requires
        0 <= a <= 400_000_000,
        1 <= n <= 20_000,
    ensures
        r == rdiv(a as int, n as int),
{
    (2 * a + n) / (2 * n)
}

/// Walks the discrete line between two cells and reports whether every
/// interior cell lets sight through.
#[verifier::loop_isolation(false)]
fn line_clear(m: &WorldMap, x0: i32, y0: i32, x1: i32, y1: i32) -> (r: bool)
    requires
        m.wf(),
        -100_000 <= x0 <= 100_000,
        -100_000 <= y0 <= 100_000,
        iabs(x1 - x0) <= 10_000,
        iabs(y1 - y0) <= 10_000,
    ensures
        r == (forall|i: int| 1 <= i < line_n(x0 as int, y0 as int, x1 as int, y1 as int)
            ==> !opaque_at(*m, (#[trigger] line_pt(x0 as int, y0 as int, x1 as int, y1 as int,
                i)).0, line_pt(x0 as int, y0 as int, x1 as int, y1 as int, i).1)),
{
    let adx = if x1 >= x0 { x1 - x0 } else { x0 - x1 };
    let ady = if y1 >= y0 { y1 - y0 } else { y0 - y1 };
    let sx: i32 = if x1 > x0 { 1 } else if x1 < x0 { -1 } else { 0 };
    let sy: i32 = if y1 > y0 { 1 } else if y1 < y0 { -1 } else { 0 };
    let n = if adx >= ady { adx } else { ady };
    let mut clear = true;
    let mut i: i32 = 1;
    while i < n
        invariant
            1 <= i <= vstd::math::max(n as int, 1),
            n == line_n(x0 as int, y0 as int, x1 as int, y1 as int),
            adx == iabs(x1 as int - x0 as int),
            ady == iabs(y1 as int - y0 as int),
            sx == sgn(x1 as int - x0 as int),
            sy == sgn(y1 as int - y0 as int),
            clear == (forall|ii: int| 1 <= ii < i
                ==> !opaque_at(*m, (#[trigger] line_pt(x0 as int, y0 as int, x1 as int,
                    y1 as int, ii)).0, line_pt(x0 as int, y0 as int, x1 as int, y1 as int,
                    ii).1)),
        decreases n - i,
    {
        proof {
            lemma_rdiv_range(i as int, adx as int, n as int);
            lemma_rdiv_range(i as int, ady as int, n as int);
            assert(i * adx <= 10_000 * 10_000 && i * ady <= 10_000 * 10_000)
                by (nonlinear_arith)
                requires
                    0 <= i <= 10_000,
                    0 <= adx <= 10_000,
                    0 <= ady <= 10_000,
            ;
        }
        let qx = rdiv_exec((i as i64) * (adx as i64), n as i64) as i32;
        let qy = rdiv_exec((i as i64) * (ady as i64), n as i64) as i32;
        let px = x0 + sx * qx;
        let py = y0 + sy * qy;
        proof {
            assert((px as int, py as int)
                == line_pt(x0 as int, y0 as int, x1 as int, y1 as int, i as int));
        }
        let op = if !m.is_in_bounds(px, py) {
            true
        } else {
            let idx = m.xy_idx(px, py);
            m.is_opaque(idx)
        };
        if op {
            clear = false;
        }
        i += 1;
    }
    clear
}

/// Computes the set of cells visible from (ox, oy) out to `range`,
/// clipped to the map bounds, in row-major scan order.
#[verifier::loop_isolation(false)]
pub fn field_of_view(m: &WorldMap, ox: i32, oy: i32, range: i32) -> (r: Vec<Position>)
    requires
        m.wf(),
        m.in_bounds(ox as int, oy as int),
        0 <= range <= 1000,
    ensures
        matches_fov(r@, fov_of(*m, ox as int, oy as int, range as int)),
{
    let side: i32 = 2 * range + 1;
    proof {
        assert((2 * range + 1) * (2 * range + 1) <= 2001 * 2001) by (nonlinear_arith)
            requires
                0 <= range <= 1000,
        ;
    }
    let total: i32 = side * side;
    let mut r: Vec<Position> = Vec::new();
    let mut k: i32 = 0;
    while k < total
        invariant
            0 <= k <= total,
            side == 2 * range + 1,
            total == side * side,
            matches_fov(r@, fov_seq(*m, ox as int, oy as int, range as int, k as int)),
        decreases total - k,
    {
        let cx = ox - range + k % side;
        let cy = oy - range + k / side;
        proof {
            assert(0 <= k % side < side && 0 <= k / side < side) by (nonlinear_arith)
                requires
                    0 <= k < total,
                    total == side * side,
                    side > 0,
            ;
            assert((cx as int, cy as int)
                == fov_cell(ox as int, oy as int, range as int, k as int));
        }
        let mut vis = false;
        if m.is_in_bounds(cx, cy) {
            let dx = cx - ox;
            let dy = cy - oy;
            proof {
                assert(0 <= dx * dx <= 1_000_000 && 0 <= dy * dy <= 1_000_000
                    && 0 <= range * range <= 1_000_000) by (nonlinear_arith)
                    requires
                        -1000 <= dx <= 1000,
                        -1000 <= dy <= 1000,
                        0 <= range <= 1000,
                ;
            }
            if dx * dx + dy * dy <= range * range {
                vis = line_clear(m, ox, oy, cx, cy);
            }
        }
        proof {
            assert(vis == visible_from(*m, ox as int, oy as int, range as int, cx as int,
                cy as int));
        }
        if vis {
            r.push(Position { x: cx, y: cy });
        }
        proof {
            assert(fov_seq(*m, ox as int, oy as int, range as int, k + 1)
                == fov_seq(*m, ox as int, oy as int, range as int, k as int)
                    + (if visible_from(*m, ox as int, oy as int, range as int, cx as int,
                        cy as int) { seq![(cx as int, cy as int)] } else { Seq::empty() }));
        }
        k += 1;
    }
    r
}

/// Cells listed early in the scan stay listed as the scan grows.
proof fn lemma_fov_seq_mono(m: WorldMap, ox: int, oy: int, range: int, k1: int, k2: int)
    requires
        k1 <= k2,
    ensures
        forall|c: (int, int)| fov_seq(m, ox, oy, range, k1).contains(c)
            ==> fov_seq(m, ox, oy, range, k2).contains(c),
    decreases k2 - k1,
{
    if k1 < k2 {
        lemma_fov_seq_mono(m, ox, oy, range, k1, k2 - 1);
        let s0 = fov_seq(m, ox, oy, range, k2 - 1);
        let s = fov_seq(m, ox, oy, range, k2);
        assert forall|c: (int, int)| s0.contains(c) implies s.contains(c) by {
            let j = choose|j: int| 0 <= j < s0.len() && s0[j] == c;
            assert(s[j] == c);
        }
    }
}

/// Every visible cell appears in the viewshed: the scan square covers
/// the whole range disc.
pub proof fn lemma_fov_complete(m: WorldMap, ox: int, oy: int, range: int, tx: int, ty: int)
    requires
        0 <= range,
        visible_from(m, ox, oy, range, tx, ty),
    ensures
        fov_of(m, ox, oy, range).contains((tx, ty)),
{
    let side = 2 * range + 1;
    let dx = tx - ox;
    let dy = ty - oy;
    assert(-range <= dx <= range && -range <= dy <= range) by (nonlinear_arith)
        requires
            dx * dx + dy * dy <= range * range,
            0 <= range,
    ;
    let k = (dy + range) * side + (dx + range);
    assert(0 <= k < side * side && k % side == dx + range && k / side == dy + range)
        by (nonlinear_arith)
        requires
            side == 2 * range + 1,
            k == (dy + range) * side + (dx + range),
            0 <= dx + range < side,
            0 <= dy + range < side,
    ;
    assert(fov_cell(ox, oy, range, k) == (tx, ty));
    let s1 = fov_seq(m, ox, oy, range, k + 1);
    assert(s1 == fov_seq(m, ox, oy, range, k) + seq![(tx, ty)]);
    assert(s1[s1.len() - 1] == (tx, ty));
    assert(s1.contains((tx, ty)));
    lemma_fov_seq_mono(m, ox, oy, range, k + 1, side * side);
}

/// Visibility depends on the tile grid alone: two maps with the same
/// dimensions and tiles see the same cells.
pub proof fn lemma_visible_same_grid(m1: WorldMap, m2: WorldMap, ox: int, oy: int,
    range: int, tx: int, ty: int)
    requires
        m1.width == m2.width,
        m1.height == m2.height,
        m1.tiles == m2.tiles,
    ensures
        visible_from(m1, ox, oy, range, tx, ty) == visible_from(m2, ox, oy, range, tx, ty),
{
    assert(forall|i: int| 1 <= i < line_n(ox, oy, tx, ty)
        ==> opaque_at(m1, (#[trigger] line_pt(ox, oy, tx, ty, i)).0,
                line_pt(ox, oy, tx, ty, i).1)
            == opaque_at(m2, line_pt(ox, oy, tx, ty, i).0, line_pt(ox, oy, tx, ty, i).1));
}

/// The whole viewshed likewise depends on the tile grid alone.
pub proof fn lemma_fov_same_grid(m1: WorldMap, m2: WorldMap, ox: int, oy: int, range: int,
    k: int)
    requires
        m1.width == m2.width,
        m1.height == m2.height,
        m1.tiles == m2.tiles,
    ensures
        fov_seq(m1, ox, oy, range, k) == fov_seq(m2, ox, oy, range, k),
    decreases k,
{
    if k > 0 {
        lemma_fov_same_grid(m1, m2, ox, oy, range, k - 1);
        let c = fov_cell(ox, oy, range, k - 1);
        lemma_visible_same_grid(m1, m2, ox, oy, range, c.0, c.1);
    }
}

/// Every cell the scan lists is visible from the observer.
pub proof fn lemma_fov_seq_members(m: WorldMap, ox: int, oy: int, range: int, k: int)
    ensures
        forall|j: int| 0 <= j < fov_seq(m, ox, oy, range, k).len()
            ==> visible_from(m, ox, oy, range,
                (#[trigger] fov_seq(m, ox, oy, range, k)[j]).0,
                fov_seq(m, ox, oy, range, k)[j].1),
    decreases k,
{
    if k > 0 {
        lemma_fov_seq_members(m, ox, oy, range, k - 1);
        let s0 = fov_seq(m, ox, oy, range, k - 1);
        let s = fov_seq(m, ox, oy, range, k);
        let c = fov_cell(ox, oy, range, k - 1);
        if visible_from(m, ox, oy, range, c.0, c.1) {
            assert(s == s0 + seq![c]);
            assert forall|j: int| 0 <= j < s.len()
                implies visible_from(m, ox, oy, range, (#[trigger] s[j]).0, s[j].1) by {
                if j < s0.len() {
                    assert(s[j] == s0[j]);
                } else {
                    assert(s[j] == c);
                }
            }
        } else {
            assert(s =~= s0);
        }
    }
}

/// Recomputing a viewshed from the same position, range and tile grid
/// yields an identical visible-tile set: any two executable viewsheds
/// that match the mathematical one are equal.
pub proof fn lemma_visibility_deterministic(
    m: WorldMap,
    ox: int,
    oy: int,
    range: int,
    v1: Seq<Position>,
    v2: Seq<Position>,
)
    requires
        matches_fov(v1, fov_of(m, ox, oy, range)),
        matches_fov(v2, fov_of(m, ox, oy, range)),
    ensures
        v1 == v2,
{
    assert forall|j: int| 0 <= j < v1.len() implies v1[j] == v2[j] by {
        assert((v1[j].x as int, v1[j].y as int) == fov_of(m, ox, oy, range)[j]);
        assert((v2[j].x as int, v2[j].y as int) == fov_of(m, ox, oy, range)[j]);
    }
    assert(v1 =~= v2);
}

} // verus!
