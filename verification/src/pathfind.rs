//! Shortest-path search over the blocked grid: a breadth-first search on
//! the exits graph, sound (a successful result is a real path) and
//! complete (it fails only when no path exists or start equals goal).

use vstd::prelude::*;
use crate::map::{WorldMap, filled};

verus! {

/// Holds the result of a navigation query: `steps` lists each cell of
/// the path including the starting cell.
pub struct NavigationPath {
    pub success: bool,
    pub steps: Vec<usize>,
}

/// The sequence is a path from `start` to `goal`: it begins at `start`,
/// ends at `goal`, and every step moves through an exit.
pub open spec fn path_ok(m: WorldMap, s: Seq<usize>, start: int, goal: int) -> bool {
    &&& s.len() >= 1
    &&& s[0] == start
    &&& s[s.len() - 1] == goal
    &&& forall|k: int| 0 <= k < s.len() - 1
        ==> m.is_exit((#[trigger] s[k]) as int, s[k + 1] as int)
}

/// Some path of exits leads from `start` to `goal`.
pub open spec fn reachable(m: WorldMap, start: int, goal: int) -> bool {
    exists|s: Seq<usize>| path_ok(m, s, start, goal)
}

/// A duplicate-free sequence of values below `n` has at most `n`
/// elements.
proof fn lemma_queue_len_bound(q: Seq<usize>, n: int)
    requires
        forall|i: int, j: int| 0 <= i < j < q.len() ==> q[i] != q[j],
        forall|i: int| 0 <= i < q.len() ==> (#[trigger] q[i] as int) < n,
        0 <= n,
    ensures
        q.len() <= n,
{
    let qi = Seq::new(q.len(), |i: int| q[i] as int);
    assert(qi.no_duplicates());
    qi.unique_seq_to_set();
    assert(qi.to_set().subset_of(vstd::set_lib::set_int_range(0, n))) by {
        assert forall|x: int| qi.to_set().contains(x)
            implies vstd::set_lib::set_int_range(0, n).contains(x) by {
            let i = choose|i: int| 0 <= i < qi.len() && qi[i] == x;
            assert((q[i] as int) < n);
        }
    }
    vstd::set_lib::lemma_int_range(0, n);
    vstd::set_lib::lemma_len_subset(qi.to_set(), vstd::set_lib::set_int_range(0, n));
}

/// Along any path whose start is visited, every cell is visited, as long
/// as the visited set is closed under exits.
proof fn lemma_path_visited(m: WorldMap, vis: Seq<bool>, s: Seq<usize>, k: int)
    requires
        vis.len() == m.area(),
        forall|c: int, b: int| 0 <= c < m.area() && vis[c] && #[trigger] m.is_exit(c, b)
            ==> vis[b],
        s.len() >= 1,
        (s[0] as int) < m.area(),
        vis[s[0] as int],
        forall|j: int| 0 <= j < s.len() - 1
            ==> m.is_exit((#[trigger] s[j]) as int, s[j + 1] as int),
        0 <= k < s.len(),
    ensures
        (s[k] as int) < m.area(),
        vis[s[k] as int],
    decreases k,
{
    if k > 0 {
        lemma_path_visited(m, vis, s, k - 1);
        assert(m.is_exit(s[k - 1] as int, s[k] as int));
    }
}

/// The search state invariant: every queued cell is a visited in-range
/// cell, the queue is duplicate-free, every visited cell sits in the
/// queue at its recorded discovery position, and every visited cell but
/// the start carries a parent link through an exit, discovered earlier.
pub open spec fn bfs_inv(m: WorldMap, visited: Seq<bool>, parent: Seq<usize>,
    qpos: Seq<usize>, queue: Seq<usize>, start: int) -> bool {
    &&& visited.len() == m.area()
    &&& parent.len() == m.area()
    &&& qpos.len() == m.area()
    &&& forall|qi: int| 0 <= qi < queue.len()
        ==> ((#[trigger] queue[qi]) as int) < m.area() && visited[queue[qi] as int]
    &&& forall|qi: int, qj: int| 0 <= qi < qj < queue.len() ==> queue[qi] != queue[qj]
    &&& 0 <= start < m.area()
    &&& visited[start]
    &&& forall|c: int| 0 <= c < m.area() && #[trigger] visited[c]
        ==> (qpos[c] as int) < queue.len() && queue[qpos[c] as int] == c
    &&& forall|c: int| #![trigger parent[c]] 0 <= c < m.area() && visited[c] && c != start
        ==> (parent[c] as int) < m.area() && visited[parent[c] as int]
            && m.is_exit(parent[c] as int, c)
            && (qpos[parent[c] as int] as int) < (qpos[c] as int)
}

/// Every exit of every cell already processed has been visited.
pub open spec fn closed_upto(m: WorldMap, visited: Seq<bool>, queue: Seq<usize>, head: int)
    -> bool {
    forall|qi: int, b: int| 0 <= qi < head && qi < queue.len()
        && #[trigger] m.is_exit(queue[qi] as int, b) ==> visited[b]
}

/// Visits every unvisited exit of the cell at `head`, recording parent
/// links and discovery positions.
#[verifier::loop_isolation(false)]
#[verifier::rlimit(100)]
fn expand_cell(m: &WorldMap, visited: &mut Vec<bool>, parent: &mut Vec<usize>,
    qpos: &mut Vec<usize>, queue: &mut Vec<usize>, head: usize, start: usize)
    requires
        m.wf(),
        head < old(queue)@.len(),
        bfs_inv(*m, old(visited)@, old(parent)@, old(qpos)@, old(queue)@, start as int),
    ensures
        bfs_inv(*m, final(visited)@, final(parent)@, final(qpos)@, final(queue)@,
            start as int),
        final(queue)@.len() >= old(queue)@.len(),
        forall|qi: int| 0 <= qi < old(queue)@.len()
            ==> #[trigger] final(queue)@[qi] == old(queue)@[qi],
        forall|c: int| 0 <= c < m.area() && #[trigger] old(visited)@[c]
            ==> final(visited)@[c],
        forall|c: int| 0 <= c < m.area() && #[trigger] final(visited)@[c]
            ==> old(visited)@[c] || m.is_exit(old(queue)@[head as int] as int, c),
        forall|b: int| #[trigger] m.is_exit(old(queue)@[head as int] as int, b)
            ==> final(visited)@[b],
{
    let c = queue[head];
    let exits = m.get_available_exits(c);
    let mut e: usize = 0;
    while e < exits.len()
        invariant
            e <= exits@.len(),
            bfs_inv(*m, visited@, parent@, qpos@, queue@, start as int),
            queue@.len() >= old(queue)@.len(),
            forall|qi: int| 0 <= qi < old(queue)@.len()
                ==> #[trigger] queue@[qi] == old(queue)@[qi],
            forall|cc: int| 0 <= cc < m.area() && #[trigger] old(visited)@[cc]
                ==> visited@[cc],
            forall|cc: int| 0 <= cc < m.area() && #[trigger] visited@[cc]
                ==> old(visited)@[cc] || m.is_exit(c as int, cc),
            forall|j: int| 0 <= j < e ==> visited@[(#[trigger] exits@[j]) as int],
            forall|j: int| 0 <= j < exits@.len()
                ==> m.is_exit(c as int, (#[trigger] exits@[j]) as int),
        decreases exits@.len() - e,
    {
        let d = exits[e];
        if !visited[d] {
            visited.set(d, true);
            parent.set(d, c);
            qpos.set(d, queue.len());
            queue.push(d);
        }
        e += 1;
    }
    proof {
        assert forall|b: int| #[trigger] m.is_exit(c as int, b)
            implies visited@[b] by {
            assert(0 <= b < m.area());
            assert(m.area() <= 10000 * 10000) by (nonlinear_arith)
                requires
                    0 < m.width <= 10000,
                    0 < m.height <= 10000,
                    m.area() == m.width * m.height,
            ;
            assert(exits@.contains(b as usize));
            let j = choose|j: int| 0 <= j < exits@.len() && exits@[j] == b as usize;
            assert(visited@[(exits@[j]) as int]);
            assert((exits@[j]) as int == b);
        }
    }
}

/// The inner breadth-first search: explores the exits graph from
/// `start` and reports the visited set, the parent links that witness
/// how each visited cell was reached, the discovery order, and whether
/// `goal` was reached.
#[verifier::loop_isolation(false)]
#[verifier::rlimit(100)]
fn bfs_search(m: &WorldMap, start: usize, goal: usize) -> (r: (Vec<bool>, Vec<usize>,
    Vec<usize>, bool))
    requires
        m.wf(),
        start < m.area(),
        goal < m.area(),
        start != goal,
    ensures
        r.0@.len() == m.area(),
        r.1@.len() == m.area(),
        r.2@.len() == m.area(),
        r.0@[start as int],
        forall|c: int| #![trigger r.1@[c]] 0 <= c < m.area() && r.0@[c] && c != start
            ==> (r.1@[c] as int) < m.area() && r.0@[r.1@[c] as int]
                && m.is_exit(r.1@[c] as int, c)
                && (r.2@[r.1@[c] as int] as int) < (r.2@[c] as int),
        r.3 ==> r.0@[goal as int],
        !r.3 ==> !r.0@[goal as int],
        !r.3 ==> (forall|c: int, b: int| 0 <= c < m.area() && r.0@[c]
            && #[trigger] m.is_exit(c, b) ==> r.0@[b]),
{
    let n = m.tiles.len();
    let mut visited: Vec<bool> = filled(n, false);
    let mut parent: Vec<usize> = filled(n, 0);
    let mut qpos: Vec<usize> = filled(n, 0);
    let mut queue: Vec<usize> = Vec::new();
    visited.set(start, true);
    queue.push(start);
    let mut head: usize = 0;
    let mut found = false;
    while head < queue.len() && !found
        invariant
            bfs_inv(*m, visited@, parent@, qpos@, queue@, start as int),
            head <= queue@.len(),
            !found ==> closed_upto(*m, visited@, queue@, head as int),
            !found ==> (forall|qi: int| 0 <= qi < head ==> (#[trigger] queue@[qi]) != goal),
            found ==> visited@[goal as int],
        decreases n - head,
    {
        proof {
            lemma_queue_len_bound(queue@, n as int);
        }
        let c = queue[head];
        if c == goal {
            found = true;
        } else {
            let ghost q0 = queue@;
            let ghost v0 = visited@;
            expand_cell(m, &mut visited, &mut parent, &mut qpos, &mut queue, head, start);
            proof {
                assert forall|qi: int, b: int| 0 <= qi < head + 1 && qi < queue@.len()
                    && #[trigger] m.is_exit(queue@[qi] as int, b)
                    implies visited@[b] by {
                    if qi < head {
                        assert(queue@[qi] == q0[qi]);
                        assert(v0[b]);
                    } else {
                        assert(queue@[qi] == q0[head as int]);
                    }
                }
            }
        }
        head += 1;
    }
    proof {
        if !found {
            assert forall|c: int, b: int| 0 <= c < n && visited@[c]
                && #[trigger] m.is_exit(c, b) implies visited@[b] by {
                let qi = qpos@[c] as int;
                assert(queue@[qi] == c as usize && qi < head);
            }
            if visited@[goal as int] {
                let qi = qpos@[goal as int] as int;
                assert(queue@[qi] == goal && qi < head);
                assert(false);
            }
        }
    }
    (visited, parent, qpos, found)
}

/// Walks the parent links back from the goal and reverses them into a
/// path from `start` to `goal`.
#[verifier::loop_isolation(false)]
#[verifier::rlimit(100)]
fn reconstruct(m: &WorldMap, visited: &Vec<bool>, parent: &Vec<usize>, qpos: &Vec<usize>,
    start: usize, goal: usize) -> (steps: Vec<usize>)
    requires
        m.wf(),
        start < m.area(),
        goal < m.area(),
        start != goal,
        visited@.len() == m.area(),
        parent@.len() == m.area(),
        qpos@.len() == m.area(),
        visited@[start as int],
        visited@[goal as int],
        forall|c: int| #![trigger parent@[c]] 0 <= c < m.area() && visited@[c] && c != start
            ==> (parent@[c] as int) < m.area() && visited@[parent@[c] as int]
                && m.is_exit(parent@[c] as int, c)
                && (qpos@[parent@[c] as int] as int) < (qpos@[c] as int),
    ensures
        path_ok(*m, steps@, start as int, goal as int),
        forall|i: int, j: int| 0 <= i < j < steps@.len() ==> steps@[i] != steps@[j],
{
    let n = m.tiles.len();
    let mut rev: Vec<usize> = Vec::new();
    let mut cur = goal;
    while cur != start
        invariant
            (cur as int) < n,
            visited@[cur as int],
            rev@.len() == 0 ==> cur == goal,
            rev@.len() >= 1 ==> rev@[0] == goal
                && m.is_exit(cur as int, rev@[rev@.len() - 1] as int)
                && (qpos@[cur as int] as int) < (qpos@[rev@[rev@.len() - 1] as int] as int),
            forall|k: int| 0 <= k < rev@.len()
                ==> ((#[trigger] rev@[k]) as int) < n && rev@[k] != start,
            forall|k: int| 0 <= k < rev@.len() - 1
                ==> m.is_exit(rev@[k + 1] as int, (#[trigger] rev@[k]) as int),
            forall|i: int, j: int| 0 <= i < j < rev@.len()
                ==> (qpos@[rev@[j] as int] as int) < (qpos@[rev@[i] as int] as int),
        decreases qpos@[cur as int],
    {
        rev.push(cur);
        let next = parent[cur];
        cur = next;
    }
    let mut steps: Vec<usize> = Vec::new();
    steps.push(start);
    let ghost total = rev@.len() as int;
    let mut t = rev.len();
    while t > 0
        invariant
            t <= total,
            steps@.len() == 1 + (total - t),
            steps@[0] == start,
            forall|j: int| 1 <= j < steps@.len() ==> #[trigger] steps@[j] == rev@[total - j],
        decreases t,
    {
        t -= 1;
        steps.push(rev[t]);
    }
    proof {
        if total == 0 {
            assert(goal == start);
            assert(false);
        }
        assert(steps@.len() == 1 + total);
        assert(steps@[total] == rev@[0]);
        assert forall|k: int| 0 <= k < steps@.len() - 1
            implies m.is_exit((#[trigger] steps@[k]) as int, steps@[k + 1] as int) by {
            assert(steps@[k + 1] == rev@[total - 1 - k]);
            if k == 0 {
                assert(m.is_exit(start as int, rev@[total - 1] as int));
            } else {
                assert(steps@[k] == rev@[total - k]);
                assert(m.is_exit(rev@[(total - 1 - k) + 1] as int, rev@[total - 1 - k] as int));
            }
        }
        assert forall|i: int, j: int| 0 <= i < j < steps@.len()
            implies steps@[i] != steps@[j] by {
            if i == 0 {
                assert(steps@[j] == rev@[total - j]);
                assert(rev@[total - j] != start);
            } else {
                assert(steps@[i] == rev@[total - i] && steps@[j] == rev@[total - j]);
                assert((qpos@[rev@[total - i] as int] as int)
                    < (qpos@[rev@[total - j] as int] as int));
            }
        }
    }
    steps
}

/// Breadth-first shortest-path search from `start` to `goal` over the
/// exits graph. Succeeds exactly when the two cells differ and a path of
/// exits joins them; on success `steps` is such a path, starting at
/// `start` and ending at `goal`.
pub fn find_path(m: &WorldMap, start: usize, goal: usize) -> (r: NavigationPath)
    requires
        m.wf(),
        start < m.area(),
        goal < m.area(),
    ensures
        r.success ==> path_ok(*m, r.steps@, start as int, goal as int),
        r.success ==> (forall|i: int, j: int| 0 <= i < j < r.steps@.len()
            ==> r.steps@[i] != r.steps@[j]),
        r.success == (start != goal && reachable(*m, start as int, goal as int)),
{
    if start == goal {
        return NavigationPath { success: false, steps: Vec::new() };
    }
    let (visited, parent, qpos, found) = bfs_search(m, start, goal);
    if found {
        let steps = reconstruct(m, &visited, &parent, &qpos, start, goal);
        proof {
            assert(reachable(*m, start as int, goal as int)) by {
                assert(path_ok(*m, steps@, start as int, goal as int));
            }
        }
        NavigationPath { success: true, steps }
    } else {
        proof {
            if reachable(*m, start as int, goal as int) {
                let s = choose|s: Seq<usize>| path_ok(*m, s, start as int, goal as int);
                lemma_path_visited(*m, visited@, s, s.len() - 1);
                assert(false);
            }
        }
        NavigationPath { success: false, steps: Vec::new() }
    }
}

/// A step through an exit moves one cell cardinally, so no path can
/// close the column or row distance faster than one cell per step: every
/// path holds at least one more cell than either axis distance.
pub proof fn lemma_path_at_least_grid_distance(m: WorldMap, s: Seq<usize>, start: int,
    goal: int)
    requires
        m.wf(),
        path_ok(m, s, start, goal),
    ensures
        s.len() - 1 >= crate::fov::iabs(m.col(goal) - m.col(start)),
        s.len() - 1 >= crate::fov::iabs(m.row(goal) - m.row(start)),
    decreases s.len(),
{
    if s.len() > 1 {
        let mid = s[1] as int;
        assert(m.is_exit(start, mid));
        let s2 = s.subrange(1, s.len() as int);
        assert(path_ok(m, s2, mid, goal)) by {
            assert(s2[0] == s[1]);
            assert(s2[s2.len() - 1] == s[s.len() - 1]);
            assert forall|k: int| 0 <= k < s2.len() - 1
                implies m.is_exit((#[trigger] s2[k]) as int, s2[k + 1] as int) by {
                assert(s2[k] == s[k + 1] && s2[k + 1] == s[k + 2]);
            }
        }
        lemma_path_at_least_grid_distance(m, s2, mid, goal);
    }
}

/// A duplicate-free sequence of integers drawn from [lo, hi] has at most
/// `hi - lo + 1` elements.
proof fn lemma_distinct_ints_in_range(q: Seq<int>, lo: int, hi: int)
    requires
        forall|i: int, j: int| 0 <= i < j < q.len() ==> q[i] != q[j],
        forall|i: int| 0 <= i < q.len() ==> lo <= #[trigger] q[i] <= hi,
        lo <= hi + 1,
    ensures
        q.len() <= hi + 1 - lo,
{
    assert(q.no_duplicates());
    q.unique_seq_to_set();
    assert(q.to_set().subset_of(vstd::set_lib::set_int_range(lo, hi + 1))) by {
        assert forall|x: int| q.to_set().contains(x)
            implies vstd::set_lib::set_int_range(lo, hi + 1).contains(x) by {
            let i = choose|i: int| 0 <= i < q.len() && q[i] == x;
            assert(lo <= q[i] <= hi);
        }
    }
    vstd::set_lib::lemma_int_range(lo, hi + 1);
    vstd::set_lib::lemma_len_subset(q.to_set(), vstd::set_lib::set_int_range(lo, hi + 1));
}

/// The only cells one may step onto lie in row `y`, columns [xa, xb]:
/// the blocked grid leaves a single straight corridor open.
pub open spec fn corridor_only(m: WorldMap, y: int, xa: int, xb: int) -> bool {
    forall|i: int| 0 <= i < m.area() && !(#[trigger] m.blocked@[i])
        ==> m.row(i) == y && xa <= m.col(i) <= xb
}

/// In a map whose blocked grid leaves only a straight corridor open, a
/// duplicate-free path from one end of the corridor to the other holds
/// exactly the corridor's cells: `find_path` over such a map returns
/// `N + 1` steps for a corridor of length `N`, both ends included.
pub proof fn lemma_corridor_path_exact(m: WorldMap, s: Seq<usize>, y: int, xa: int, xb: int)
    requires
        m.wf(),
        m.in_bounds(xa, y),
        m.in_bounds(xb, y),
        xa <= xb,
        corridor_only(m, y, xa, xb),
        path_ok(m, s, m.idx_of(xa, y), m.idx_of(xb, y)),
        forall|i: int, j: int| 0 <= i < j < s.len() ==> s[i] != s[j],
    ensures
        s.len() == xb - xa + 1,
{
    let start = m.idx_of(xa, y);
    let goal = m.idx_of(xb, y);
    m.lemma_index_round_trip(xa, y);
    m.lemma_index_round_trip(xb, y);
    m.lemma_idx_bound(xa, y);
    // lower bound: a step closes at most one column of distance
    lemma_path_at_least_grid_distance(m, s, start, goal);
    assert(s.len() >= xb - xa + 1);
    // upper bound: every cell of the path lies on the corridor segment
    assert forall|k: int| 0 <= k < s.len()
        implies m.row((#[trigger] s[k]) as int) == y && xa <= m.col(s[k] as int) <= xb
            && (s[k] as int) < m.area() by {
        if k == 0 {
            assert(s[0] == start);
        } else {
            assert(m.is_exit(s[k - 1] as int, s[k] as int));
            assert(!m.blocked@[s[k] as int]);
        }
    }
    // distinct cells on one row have distinct columns
    let cols = Seq::new(s.len(), |k: int| m.col(s[k] as int));
    assert forall|i: int, j: int| 0 <= i < j < cols.len()
        implies cols[i] != cols[j] by {
        m.lemma_idx_decompose(s[i] as int);
        m.lemma_idx_decompose(s[j] as int);
        assert(s[i] as int == m.row(s[i] as int) * m.width + m.col(s[i] as int));
        assert(s[j] as int == m.row(s[j] as int) * m.width + m.col(s[j] as int));
    }
    assert(forall|i: int| 0 <= i < cols.len() ==> xa <= #[trigger] cols[i] <= xb);
    lemma_distinct_ints_in_range(cols, xa, xb);
    assert(s.len() <= xb - xa + 1);
}

/// A row of open cells is itself a path: when every corridor cell is
/// unblocked, one end reaches the other, so `find_path` between the two
/// ends is owed success.
pub proof fn lemma_corridor_reachable(m: WorldMap, y: int, xa: int, xb: int)
    requires
        m.wf(),
        m.in_bounds(xa, y),
        m.in_bounds(xb, y),
        xa <= xb,
        forall|x: int| xa <= x <= xb ==> !m.blocked@[#[trigger] m.idx_of(x, y)],
    ensures
        reachable(m, m.idx_of(xa, y), m.idx_of(xb, y)),
{
    let w = m.width as int;
    let s = Seq::new((xb - xa + 1) as nat, |i: int| (y * w + xa + i) as usize);
    assert forall|i: int| 0 <= i < s.len()
        implies (#[trigger] s[i]) as int == m.idx_of(xa + i, y) by {
        m.lemma_idx_bound(xa + i, y);
        assert(m.area() <= 10000 * 10000) by (nonlinear_arith)
            requires
                0 < m.width <= 10000,
                0 < m.height <= 10000,
                m.area() == m.width * m.height,
        ;
    }
    assert forall|k: int| 0 <= k < s.len() - 1
        implies m.is_exit((#[trigger] s[k]) as int, s[k + 1] as int) by {
        m.lemma_idx_bound(xa + k, y);
        m.lemma_idx_bound(xa + k + 1, y);
        m.lemma_index_round_trip(xa + k, y);
        m.lemma_index_round_trip(xa + k + 1, y);
        assert(!m.blocked@[m.idx_of(xa + k + 1, y)]);
    }
    assert(s[0] == m.idx_of(xa, y) && s[s.len() - 1] == m.idx_of(xb, y));
    assert(path_ok(m, s, m.idx_of(xa, y), m.idx_of(xb, y)));
}

/// No path reaches a goal whose every cardinal neighbor is a wall tile,
/// from a non-adjacent start: walls are blocked, so the step before the
/// goal could never have been entered.
pub proof fn lemma_pathfinding_failure(m: WorldMap, start: int, goal: int)
    requires
        m.wf(),
        0 <= start < m.area(),
        0 <= goal < m.area(),
        start != goal,
        forall|i: int| 0 <= i < m.area()
            ==> (m.tiles@[i] == crate::map::TileType::Wall ==> #[trigger] m.blocked@[i]),
        forall|b: int| 0 <= b < m.area() && #[trigger] m.adj_idx(goal, b)
            ==> m.tiles@[b] == crate::map::TileType::Wall,
        !m.adj_idx(start, goal),
    ensures
        !reachable(m, start, goal),
{
    if reachable(m, start, goal) {
        let s = choose|s: Seq<usize>| path_ok(m, s, start, goal);
        let len = s.len() as int;
        assert(len >= 2);
        let c = s[len - 2] as int;
        assert(m.is_exit(c, goal));
        assert(m.adj_idx(goal, c));
        assert(m.blocked@[c]);
        if len == 2 {
            assert(c == start);
            assert(m.adj_idx(goal, start));
            assert(m.adj_idx(start, goal));
        } else {
            assert(m.is_exit(s[len - 3] as int, c));
        }
    }
}

} // verus!
