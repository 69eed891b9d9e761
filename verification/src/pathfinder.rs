//! Shortest-path search over a `Grid` by breadth-first search.
//!
//! `PathFinder::get_path` returns a path that is valid (endpoints as asked,
//! every cell passable, consecutive cells one legal move apart) and no
//! longer than any other path between the same cells, or `None` exactly
//! when no path exists. Ties between equally short paths are not pinned
//! down; the returned length is, which makes repeated searches on equal
//! grids agree on existence and length.

use vstd::prelude::*;
use vstd::set_lib::lemma_int_range;
use vstd::set_lib::lemma_len_subset;
use vstd::set_lib::set_int_range;

use crate::grid::Grid;
use crate::grid::GridPoint;
use crate::paths::connects;
use crate::paths::diag_adjacent;
use crate::paths::orth_adjacent;
use crate::paths::step;

verus! {

/// Computes shortest paths between grid cells.
pub struct PathFinder;

/// Whether the search has assigned `p` a distance.
spec fn seen(g: Grid, dist: Seq<usize>, p: GridPoint) -> bool {
    g.in_bounds(p) && dist[g.cell_index(p)] != usize::MAX
}

/// The distance the search has assigned to `p`.
spec fn dist_at(g: Grid, dist: Seq<usize>, p: GridPoint) -> int {
    dist[g.cell_index(p)] as int
}

/// The cell from which the search first reached `p`.
spec fn parent_at(g: Grid, parent: Seq<GridPoint>, p: GridPoint) -> GridPoint {
    parent[g.cell_index(p)]
}

/// The breadth-first search invariant. `queue` is the full visit order;
/// cells before `head` are fully expanded. Distances along the queue are
/// sorted, grow by at most one level, and every expanded cell's neighbors
/// carry a distance at most one step larger.
#[verifier::opaque]
spec fn bfs_inv(
    g: Grid,
    start: GridPoint,
    dist: Seq<usize>,
    parent: Seq<GridPoint>,
    queue: Seq<GridPoint>,
    head: int,
) -> bool {
    &&& g.wf()
    &&& g.passable(start)
    &&& dist.len() == g.width * g.height
    &&& parent.len() == g.width * g.height
    &&& 0 <= head <= queue.len()
    &&& queue.len() <= g.width * g.height
    &&& queue.len() >= 1
    &&& queue[0] == start
    &&& seen(g, dist, start)
    &&& dist_at(g, dist, start) == 0
    &&& forall|i: int| 0 <= i < queue.len() ==> g.passable(#[trigger] queue[i])
    &&& forall|i: int| 0 <= i < queue.len() ==> seen(g, dist, #[trigger] queue[i])
    &&& forall|i: int, j: int|
        #![trigger queue[i], queue[j]]
        0 <= i < j < queue.len() ==> queue[i] != queue[j]
    &&& forall|p: GridPoint| #[trigger] seen(g, dist, p) ==> g.passable(p) && queue.contains(p)
    &&& forall|i: int| 0 <= i < queue.len() ==> dist_at(g, dist, #[trigger] queue[i]) <= i
    &&& forall|i: int, j: int|
        #![trigger queue[i], queue[j]]
        0 <= i <= j < queue.len() ==> dist_at(g, dist, queue[i]) <= dist_at(g, dist, queue[j])
    &&& (head < queue.len() ==> dist_at(g, dist, queue[queue.len() - 1]) <= dist_at(
        g,
        dist,
        queue[head],
    ) + 1)
    &&& forall|p: GridPoint| #[trigger] seen(g, dist, p) && dist_at(g, dist, p) == 0 ==> p == start
    &&& forall|p: GridPoint| #[trigger] seen(g, dist, p) && p != start ==> {
        &&& seen(g, dist, parent_at(g, parent, p))
        &&& step(g, parent_at(g, parent, p), p)
        &&& dist_at(g, dist, parent_at(g, parent, p)) + 1 == dist_at(g, dist, p)
    }
    &&& forall|i: int, v: GridPoint|
        0 <= i < head && #[trigger] step(g, queue[i], v) ==> seen(g, dist, v) && dist_at(
            g,
            dist,
            v,
        ) <= dist_at(g, dist, queue[i]) + 1
}

/// Distinct in-bounds cells number at most `width * height`.
proof fn lemma_distinct_cells_bound(g: Grid, q: Seq<GridPoint>)
    requires
        g.wf(),
        forall|i: int| 0 <= i < q.len() ==> g.in_bounds(#[trigger] q[i]),
        forall|i: int, j: int| #![trigger q[i], q[j]] 0 <= i < j < q.len() ==> q[i] != q[j],
    ensures
        q.len() <= g.width * g.height,
{
    let n = (g.width * g.height) as int;
    let idxs = Seq::new(q.len(), |i: int| g.cell_index(q[i]));
    assert forall|i: int, j: int|
        0 <= i < idxs.len() && 0 <= j < idxs.len() && i != j implies #[trigger] idxs[i]
        != #[trigger] idxs[j] by {
        if g.cell_index(q[i]) == g.cell_index(q[j]) {
            g.lemma_cell_index_injective(q[i], q[j]);
        }
    }
    assert(idxs.no_duplicates());
    idxs.unique_seq_to_set();
    assert forall|x: int| idxs.to_set().contains(x) implies set_int_range(0, n).contains(x) by {
        let i = choose|i: int| 0 <= i < idxs.len() && idxs[i] == x;
        g.lemma_cell_index_bounds(q[i]);
    }
    lemma_int_range(0, n);
    lemma_len_subset(idxs.to_set(), set_int_range(0, n));
}

/// Pointwise effect of writing one cell's distance.
proof fn lemma_dist_update(g: Grid, dist: Seq<usize>, v: GridPoint, val: usize)
    requires
        g.wf(),
        dist.len() == g.width * g.height,
        g.in_bounds(v),
    ensures
        ({
            let d2 = dist.update(g.cell_index(v), val);
            &&& seen(g, d2, v) == (val != usize::MAX)
            &&& dist_at(g, d2, v) == val
            &&& forall|p: GridPoint| p != v ==> #[trigger] seen(g, d2, p) == seen(g, dist, p)
            &&& forall|p: GridPoint|
                p != v && g.in_bounds(p) ==> #[trigger] dist_at(g, d2, p) == dist_at(g, dist, p)
        }),
{
    g.lemma_cell_index_bounds(v);
    assert forall|p: GridPoint| p != v && g.in_bounds(p) implies g.cell_index(p) != g.cell_index(
        v,
    ) && 0 <= g.cell_index(p) < dist.len() by {
        g.lemma_cell_index_bounds(p);
        if g.cell_index(p) == g.cell_index(v) {
            g.lemma_cell_index_injective(p, v);
        }
    }
}

/// Pointwise effect of writing one cell's parent.
proof fn lemma_parent_update(g: Grid, parent: Seq<GridPoint>, v: GridPoint, u: GridPoint)
    requires
        g.wf(),
        parent.len() == g.width * g.height,
        g.in_bounds(v),
    ensures
        ({
            let p2 = parent.update(g.cell_index(v), u);
            &&& parent_at(g, p2, v) == u
            &&& forall|p: GridPoint|
                p != v && g.in_bounds(p) ==> #[trigger] parent_at(g, p2, p) == parent_at(
                    g,
                    parent,
                    p,
                )
        }),
{
    g.lemma_cell_index_bounds(v);
    assert forall|p: GridPoint| p != v && g.in_bounds(p) implies g.cell_index(p) != g.cell_index(
        v,
    ) && 0 <= g.cell_index(p) < parent.len() by {
        g.lemma_cell_index_bounds(p);
        if g.cell_index(p) == g.cell_index(v) {
            g.lemma_cell_index_injective(p, v);
        }
    }
}

/// The facts about the queue cell at `head` that its expansion needs.
proof fn lemma_inv_head_facts(
    g: Grid,
    start: GridPoint,
    dist: Seq<usize>,
    parent: Seq<GridPoint>,
    queue: Seq<GridPoint>,
    head: int,
)
    requires
        bfs_inv(g, start, dist, parent, queue, head),
        0 <= head < queue.len(),
    ensures
        g.wf(),
        dist.len() == g.width * g.height,
        queue.len() <= g.width * g.height,
        g.passable(queue[head]),
        seen(g, dist, queue[head]),
        0 <= dist_at(g, dist, queue[head]) <= head,
{
    reveal(bfs_inv);
}

/// Once every legal move out of the head cell is covered, the head
/// advances one slot and the invariant carries over.
#[verifier::rlimit(100)]
proof fn lemma_advance(
    g: Grid,
    start: GridPoint,
    dist: Seq<usize>,
    parent: Seq<GridPoint>,
    queue: Seq<GridPoint>,
    head: int,
)
    requires
        bfs_inv(g, start, dist, parent, queue, head),
        0 <= head < queue.len(),
        forall|v: GridPoint|
            #[trigger] step(g, queue[head], v) ==> seen(g, dist, v) && dist_at(g, dist, v)
                <= dist_at(g, dist, queue[head]) + 1,
    ensures
        bfs_inv(g, start, dist, parent, queue, head + 1),
        head + 1 <= queue.len() <= g.width * g.height,
{
    reveal(bfs_inv);
    assert forall|i: int, v: GridPoint|
        0 <= i < head + 1 && #[trigger] step(g, queue[i], v) implies seen(g, dist, v) && dist_at(
        g,
        dist,
        v,
    ) <= dist_at(g, dist, queue[i]) + 1 by {
        if i < head {
            assert(step(g, queue[i], v));
        } else {
            assert(queue[i] == queue[head]);
        }
    }
    if head + 1 < queue.len() {
        assert(dist_at(g, dist, queue[head]) <= dist_at(g, dist, queue[head + 1]));
        assert(dist_at(g, dist, queue[queue.len() - 1]) <= dist_at(g, dist, queue[head + 1]) + 1);
    }
    assert(bfs_inv(g, start, dist, parent, queue, head + 1));
}

/// The facts about the finished search that path reconstruction needs.
proof fn lemma_inv_parts(
    g: Grid,
    start: GridPoint,
    dist: Seq<usize>,
    parent: Seq<GridPoint>,
    queue: Seq<GridPoint>,
    head: int,
)
    requires
        bfs_inv(g, start, dist, parent, queue, head),
    ensures
        g.wf(),
        g.passable(start),
        dist.len() == g.width * g.height,
        parent.len() == g.width * g.height,
        seen(g, dist, start),
        dist_at(g, dist, start) == 0,
        forall|q: GridPoint| #[trigger] seen(g, dist, q) ==> g.passable(q),
        forall|q: GridPoint| #[trigger] seen(g, dist, q) && q != start ==> {
            &&& seen(g, dist, parent_at(g, parent, q))
            &&& step(g, parent_at(g, parent, q), q)
            &&& dist_at(g, dist, parent_at(g, parent, q)) + 1 == dist_at(g, dist, q)
        },
{
    reveal(bfs_inv);
}

/// The candidate neighbor `(vx, vy)` of `u`, when reachable in one legal
/// move, carries a distance at most `du + 1`.
spec fn cand_ok(g: Grid, dist: Seq<usize>, u: GridPoint, du: int, vx: usize, vy: usize) -> bool {
    step(g, u, GridPoint { x: vx, y: vy }) ==> seen(g, dist, GridPoint { x: vx, y: vy })
        && dist_at(g, dist, GridPoint { x: vx, y: vy }) <= du + 1
}

/// The eight coordinate offsets are the only cells one legal move away
/// from `u`, so covering the in-range candidates covers every move.
proof fn lemma_neighbors_covered(g: Grid, dist: Seq<usize>, u: GridPoint, du: int)
    requires
        g.in_bounds(u),
        u.x > 0 ==> cand_ok(g, dist, u, du, (u.x - 1) as usize, u.y),
        u.x + 1 < g.width ==> cand_ok(g, dist, u, du, (u.x + 1) as usize, u.y),
        u.y > 0 ==> cand_ok(g, dist, u, du, u.x, (u.y - 1) as usize),
        u.y + 1 < g.height ==> cand_ok(g, dist, u, du, u.x, (u.y + 1) as usize),
        g.allow_diagonal && u.x > 0 && u.y > 0 ==> cand_ok(
            g,
            dist,
            u,
            du,
            (u.x - 1) as usize,
            (u.y - 1) as usize,
        ),
        g.allow_diagonal && u.x > 0 && u.y + 1 < g.height ==> cand_ok(
            g,
            dist,
            u,
            du,
            (u.x - 1) as usize,
            (u.y + 1) as usize,
        ),
        g.allow_diagonal && u.x + 1 < g.width && u.y > 0 ==> cand_ok(
            g,
            dist,
            u,
            du,
            (u.x + 1) as usize,
            (u.y - 1) as usize,
        ),
        g.allow_diagonal && u.x + 1 < g.width && u.y + 1 < g.height ==> cand_ok(
            g,
            dist,
            u,
            du,
            (u.x + 1) as usize,
            (u.y + 1) as usize,
        ),
    ensures
        forall|v: GridPoint|
            #[trigger] step(g, u, v) ==> seen(g, dist, v) && dist_at(g, dist, v) <= du + 1,
{
    assert forall|v: GridPoint| #[trigger] step(g, u, v) implies seen(g, dist, v) && dist_at(
        g,
        dist,
        v,
    ) <= du + 1 by {
        assert(g.passable(v));
        if orth_adjacent(u, v) {
            if u.x == v.x && u.y + 1 == v.y {
                assert(v == (GridPoint { x: u.x, y: (u.y + 1) as usize }));
            } else if u.x == v.x && v.y + 1 == u.y {
                assert(v == (GridPoint { x: u.x, y: (u.y - 1) as usize }));
            } else if u.y == v.y && u.x + 1 == v.x {
                assert(v == (GridPoint { x: (u.x + 1) as usize, y: u.y }));
            } else {
                assert(u.y == v.y && v.x + 1 == u.x);
                assert(v == (GridPoint { x: (u.x - 1) as usize, y: u.y }));
            }
        } else {
            assert(g.allow_diagonal && diag_adjacent(u, v));
            if u.x + 1 == v.x && u.y + 1 == v.y {
                assert(v == (GridPoint { x: (u.x + 1) as usize, y: (u.y + 1) as usize }));
            } else if u.x + 1 == v.x && v.y + 1 == u.y {
                assert(v == (GridPoint { x: (u.x + 1) as usize, y: (u.y - 1) as usize }));
            } else if v.x + 1 == u.x && u.y + 1 == v.y {
                assert(v == (GridPoint { x: (u.x - 1) as usize, y: (u.y + 1) as usize }));
            } else {
                assert(v.x + 1 == u.x && v.y + 1 == u.y);
                assert(v == (GridPoint { x: (u.x - 1) as usize, y: (u.y - 1) as usize }));
            }
        }
    }
}

/// Decides `step` at run time.
fn is_step(g: &Grid, a: GridPoint, b: GridPoint) -> (r: bool)
    requires
        g.wf(),
    ensures
        r == step(*g, a, b),
{
    if !(a.x < g.width && a.y < g.height && b.x < g.width && b.y < g.height) {
        return false;
    }
    if g.is_blocked(a.x, a.y) || g.is_blocked(b.x, b.y) {
        return false;
    }
    let dx = if a.x >= b.x {
        a.x - b.x
    } else {
        b.x - a.x
    };
    let dy = if a.y >= b.y {
        a.y - b.y
    } else {
        b.y - a.y
    };
    if (dx == 1 && dy == 0) || (dx == 0 && dy == 1) {
        return true;
    }
    if g.allow_diagonal && dx == 1 && dy == 1 {
        return !g.is_blocked(a.x, b.y) && !g.is_blocked(b.x, a.y);
    }
    false
}

/// Expands the queue cell `u` toward the candidate neighbor `(vx, vy)`:
/// when the move is legal and the candidate carries no distance yet, it
/// gets one, a parent, and a queue slot. Previously assigned distances
/// never change.
fn visit(
    g: &Grid,
    start: GridPoint,
    dist: &mut Vec<usize>,
    parent: &mut Vec<GridPoint>,
    queue: &mut Vec<GridPoint>,
    head: usize,
    u: GridPoint,
    vx: usize,
    vy: usize,
)
    requires
        bfs_inv(*g, start, old(dist)@, old(parent)@, old(queue)@, head as int),
        head < old(queue)@.len(),
        u == old(queue)@[head as int],
    ensures
        bfs_inv(*g, start, final(dist)@, final(parent)@, final(queue)@, head as int),
        final(queue)@.len() >= old(queue)@.len(),
        forall|i: int| 0 <= i < old(queue)@.len() ==> final(queue)@[i] == old(queue)@[i],
        forall|p: GridPoint|
            #[trigger] seen(*g, old(dist)@, p) ==> seen(*g, final(dist)@, p) && dist_at(
                *g,
                final(dist)@,
                p,
            ) == dist_at(*g, old(dist)@, p),
        step(*g, u, (GridPoint { x: vx, y: vy })) ==> seen(
            *g,
            final(dist)@,
            (GridPoint { x: vx, y: vy }),
        ) && dist_at(*g, final(dist)@, (GridPoint { x: vx, y: vy })) <= dist_at(
            *g,
            final(dist)@,
            u,
        ) + 1,
{
    proof {
        reveal(bfs_inv);
    }
    let ghost gg = *g;
    let v = GridPoint { x: vx, y: vy };
    if !is_step(g, u, v) {
        return ;
    }
    let civ = g.cell_idx(v);
    let ciu = g.cell_idx(u);
    let du = dist[ciu];
    proof {
        assert(dist_at(gg, dist@, u) <= head as int);
        assert(du < usize::MAX);
    }
    if dist[civ] == usize::MAX {
        proof {
            // v carries no distance, so it is not in the queue yet
            assert(!seen(gg, dist@, v));
            assert forall|i: int| 0 <= i < queue@.len() implies #[trigger] queue@[i] != v by {
                assert(seen(gg, dist@, queue@[i]));
            }
        }
        let ghost d0 = dist@;
        let ghost p0 = parent@;
        let ghost q0 = queue@;
        dist[civ] = du + 1;
        parent[civ] = u;
        queue.push(v);
        proof {
            lemma_dist_update(gg, d0, v, (du + 1) as usize);
            lemma_parent_update(gg, p0, v, u);
            assert(dist@ == d0.update(gg.cell_index(v), (du + 1) as usize));
            assert(parent@ == p0.update(gg.cell_index(v), u));
            let d1 = dist@;
            let p1 = parent@;
            let q1 = queue@;
            let last = q0.len() as int;
            assert(q1.len() == q0.len() + 1);
            assert(q1[last] == v);
            assert(forall|i: int| 0 <= i < q0.len() ==> q1[i] == #[trigger] q0[i]);
            // distinct cells still, so the queue still fits the grid
            assert forall|i: int, j: int|
                #![trigger q1[i], q1[j]]
                0 <= i < j < q1.len() implies q1[i] != q1[j] by {
                if j == last {
                    assert(q0[i] != v);
                }
            }
            assert forall|i: int| 0 <= i < q1.len() implies gg.in_bounds(#[trigger] q1[i]) by {
                if i < last {
                    assert(gg.passable(q0[i]));
                } else {
                    assert(q1[i] == v);
                }
            }
            lemma_distinct_cells_bound(gg, q1);
            // the new cell's distance tops the sorted queue
            assert(dist_at(gg, d1, v) == du + 1);
            assert(seen(gg, d1, v));
            assert forall|i: int| 0 <= i < q1.len() implies seen(gg, d1, #[trigger] q1[i])
                && gg.passable(q1[i]) && dist_at(gg, d1, q1[i]) <= i by {
                if i < last {
                    assert(q1[i] == q0[i]);
                    assert(seen(gg, d0, q0[i]));
                    assert(q0[i] != v);
                    assert(dist_at(gg, d1, q0[i]) == dist_at(gg, d0, q0[i]));
                } else {
                    assert(q1[i] == v);
                    assert(step(gg, u, v));
                    assert(du + 1 <= head as int + 1 <= last);
                }
            }
            assert forall|i: int, j: int|
                #![trigger q1[i], q1[j]]
                0 <= i <= j < q1.len() implies dist_at(gg, d1, q1[i]) <= dist_at(
                gg,
                d1,
                q1[j],
            ) by {
                if j < last {
                    assert(q1[i] == q0[i] && q1[j] == q0[j]);
                    assert(q0[i] != v && q0[j] != v);
                } else if i < last {
                    // old entries stay at or below the old tail, which sits
                    // at most one level above the head
                    assert(q1[i] == q0[i] && q0[i] != v);
                    assert(dist_at(gg, d0, q0[i]) <= dist_at(gg, d0, q0[last - 1]));
                    assert(dist_at(gg, d0, q0[last - 1]) <= dist_at(gg, d0, q0[head as int]) + 1);
                    assert(dist_at(gg, d0, q0[head as int]) == du);
                    assert(dist_at(gg, d1, q1[j]) == du + 1);
                }
            }
            assert(head < q1.len() && q1[q1.len() - 1] == v);
            assert(q1[head as int] == q0[head as int]);
            assert(dist_at(gg, d1, q1[head as int]) == du);
            // every cell with a distance is passable and queued
            assert forall|p: GridPoint| #[trigger] seen(gg, d1, p) implies gg.passable(p)
                && q1.contains(p) by {
                if p == v {
                    assert(q1[last] == v);
                } else {
                    assert(seen(gg, d0, p));
                    let i = choose|i: int| 0 <= i < q0.len() && q0[i] == p;
                    assert(q1[i] == p);
                }
            }
            // distances of zero still single out the start
            assert forall|p: GridPoint| #[trigger] seen(gg, d1, p) && dist_at(gg, d1, p) == 0
                implies p == start by {
                if p != v {
                    assert(seen(gg, d0, p));
                }
            }
            assert(start != v);
            assert(seen(gg, d1, start) && dist_at(gg, d1, start) == 0);
            // parent pointers: the new cell points at `u`, others unchanged
            assert forall|p: GridPoint| #[trigger] seen(gg, d1, p) && p != start implies {
                &&& seen(gg, d1, parent_at(gg, p1, p))
                &&& step(gg, parent_at(gg, p1, p), p)
                &&& dist_at(gg, d1, parent_at(gg, p1, p)) + 1 == dist_at(gg, d1, p)
            } by {
                if p == v {
                    assert(parent_at(gg, p1, v) == u);
                    assert(seen(gg, d0, u) && u != v);
                    assert(dist_at(gg, d1, u) == du);
                } else {
                    assert(seen(gg, d0, p));
                    assert(gg.in_bounds(p));
                    assert(parent_at(gg, p1, p) == parent_at(gg, p0, p));
                    let w = parent_at(gg, p0, p);
                    assert(seen(gg, d0, w) && step(gg, w, p) && dist_at(gg, d0, w) + 1 == dist_at(
                        gg,
                        d0,
                        p,
                    ));
                    assert(w != v);
                }
            }
            // fully expanded cells keep their property: their neighbors'
            // distances did not change
            assert forall|i: int, v2: GridPoint|
                0 <= i < head as int && #[trigger] step(gg, q1[i], v2) implies seen(gg, d1, v2)
                && dist_at(gg, d1, v2) <= dist_at(gg, d1, q1[i]) + 1 by {
                assert(q1[i] == q0[i]);
                assert(step(gg, q0[i], v2));
                assert(seen(gg, d0, v2));
                assert(v2 != v);
                assert(q0[i] != v);
            }
            assert(bfs_inv(gg, start, d1, p1, q1, head as int));
        }
    } else {
        proof {
            // the candidate already carries a distance; the sorted queue
            // bounds it by one level above the head
            assert(seen(gg, dist@, v));
            let iv = choose|i: int| 0 <= i < queue@.len() && queue@[i] == v;
            let last = queue@.len() - 1;
            assert(dist_at(gg, dist@, queue@[iv]) <= dist_at(gg, dist@, queue@[last]));
            assert(dist_at(gg, dist@, queue@[last]) <= dist_at(gg, dist@, queue@[head as int]) + 1);
        }
    }
}

/// Fully expands the queue cell at `head`: every legal move out of it
/// leads to a cell with an assigned distance at most one level deeper.
#[verifier::rlimit(100)]
fn expand(
    g: &Grid,
    start: GridPoint,
    dist: &mut Vec<usize>,
    parent: &mut Vec<GridPoint>,
    queue: &mut Vec<GridPoint>,
    head: usize,
)
    requires
        bfs_inv(*g, start, old(dist)@, old(parent)@, old(queue)@, head as int),
        head < old(queue)@.len(),
    ensures
        bfs_inv(*g, start, final(dist)@, final(parent)@, final(queue)@, head as int + 1),
        final(queue)@.len() >= old(queue)@.len(),
        final(queue)@.len() <= g.width * g.height,
{
    let ghost gg = *g;
    proof {
        lemma_inv_head_facts(gg, start, dist@, parent@, queue@, head as int);
    }
    let u = queue[head];
    let ciu = g.cell_idx(u);
    let du = dist[ciu];
    proof {
        assert(dist_at(gg, dist@, u) <= head as int);
        assert(g.width <= g.width * g.height && g.height <= g.width * g.height)
            by (nonlinear_arith)
            requires
                g.width >= 1,
                g.height >= 1,
        ;
    }
    if u.x > 0 {
        visit(g, start, dist, parent, queue, head, u, u.x - 1, u.y);
    }
    if u.x + 1 < g.width {
        visit(g, start, dist, parent, queue, head, u, u.x + 1, u.y);
    }
    if u.y > 0 {
        visit(g, start, dist, parent, queue, head, u, u.x, u.y - 1);
    }
    if u.y + 1 < g.height {
        visit(g, start, dist, parent, queue, head, u, u.x, u.y + 1);
    }
    if g.allow_diagonal {
        if u.x > 0 && u.y > 0 {
            visit(g, start, dist, parent, queue, head, u, u.x - 1, u.y - 1);
        }
        if u.x > 0 && u.y + 1 < g.height {
            visit(g, start, dist, parent, queue, head, u, u.x - 1, u.y + 1);
        }
        if u.x + 1 < g.width && u.y > 0 {
            visit(g, start, dist, parent, queue, head, u, u.x + 1, u.y - 1);
        }
        if u.x + 1 < g.width && u.y + 1 < g.height {
            visit(g, start, dist, parent, queue, head, u, u.x + 1, u.y + 1);
        }
    }
    proof {
        assert(dist_at(gg, dist@, u) == du);
        assert(u.x > 0 ==> cand_ok(gg, dist@, u, du as int, (u.x - 1) as usize, u.y));
        assert(u.x + 1 < g.width ==> cand_ok(gg, dist@, u, du as int, (u.x + 1) as usize, u.y));
        assert(u.y > 0 ==> cand_ok(gg, dist@, u, du as int, u.x, (u.y - 1) as usize));
        assert(u.y + 1 < g.height ==> cand_ok(gg, dist@, u, du as int, u.x, (u.y + 1) as usize));
        if g.allow_diagonal {
            assert(u.x > 0 && u.y > 0 ==> cand_ok(
                gg,
                dist@,
                u,
                du as int,
                (u.x - 1) as usize,
                (u.y - 1) as usize,
            ));
            assert(u.x > 0 && u.y + 1 < g.height ==> cand_ok(
                gg,
                dist@,
                u,
                du as int,
                (u.x - 1) as usize,
                (u.y + 1) as usize,
            ));
            assert(u.x + 1 < g.width && u.y > 0 ==> cand_ok(
                gg,
                dist@,
                u,
                du as int,
                (u.x + 1) as usize,
                (u.y - 1) as usize,
            ));
            assert(u.x + 1 < g.width && u.y + 1 < g.height ==> cand_ok(
                gg,
                dist@,
                u,
                du as int,
                (u.x + 1) as usize,
                (u.y + 1) as usize,
            ));
        }
        lemma_neighbors_covered(gg, dist@, u, du as int);
        assert(u == queue@[head as int]);
        assert forall|v: GridPoint| #[trigger] step(gg, queue@[head as int], v) implies seen(
            gg,
            dist@,
            v,
        ) && dist_at(gg, dist@, v) <= dist_at(gg, dist@, queue@[head as int]) + 1 by {
            assert(step(gg, u, v));
        }
        lemma_advance(gg, start, dist@, parent@, queue@, head as int);
    }
}

/// Runs the search to completion from `start`, returning the distance,
/// parent, and visit-order arrays.
#[verifier::rlimit(100)]
fn bfs(g: &Grid, start: GridPoint) -> (r: (Vec<usize>, Vec<GridPoint>, Vec<GridPoint>))
    requires
        g.wf(),
        g.passable(start),
    ensures
        bfs_inv(*g, start, r.0@, r.1@, r.2@, r.2@.len() as int),
{
    let ghost gg = *g;
    proof {
        assert(g.width <= g.width * g.height && g.height <= g.width * g.height)
            by (nonlinear_arith)
            requires
                g.width >= 1,
                g.height >= 1,
        ;
    }
    let n = g.width * g.height;
    let mut dist: Vec<usize> = Vec::new();
    while dist.len() < n
        invariant
            dist.len() <= n,
            forall|i: int| 0 <= i < dist.len() ==> dist[i] == usize::MAX,
        decreases n - dist.len(),
    {
        dist.push(usize::MAX);
    }
    let mut parent: Vec<GridPoint> = Vec::new();
    while parent.len() < n
        invariant
            parent.len() <= n,
        decreases n - parent.len(),
    {
        parent.push(start);
    }
    let cis = g.cell_idx(start);
    dist[cis] = 0;
    let mut queue: Vec<GridPoint> = Vec::new();
    queue.push(start);
    proof {
        reveal(bfs_inv);
        assert forall|p: GridPoint| #[trigger] seen(gg, dist@, p) implies p == start by {
            gg.lemma_cell_index_bounds(p);
            if gg.cell_index(p) != gg.cell_index(start) {
                assert(dist@[gg.cell_index(p)] == usize::MAX);
            } else {
                gg.lemma_cell_index_injective(p, start);
            }
        }
        assert(seen(gg, dist@, start));
        assert(queue@.contains(start)) by {
            assert(queue@[0] == start);
        }
        assert(bfs_inv(gg, start, dist@, parent@, queue@, 0));
    }
    let mut head: usize = 0;
    while head < queue.len()
        invariant
            gg == *g,
            bfs_inv(gg, start, dist@, parent@, queue@, head as int),
            head <= queue.len(),
            queue@.len() <= gg.width * gg.height,
        decreases gg.width * gg.height - head,
    {
        expand(g, start, &mut dist, &mut parent, &mut queue, head);
        head = head + 1;
    }
    (dist, parent, queue)
}

/// After the search finishes, every path from `start` bounds the assigned
/// distance of its far end: assigned distances are shortest.
proof fn lemma_bfs_bound(
    g: Grid,
    start: GridPoint,
    dist: Seq<usize>,
    parent: Seq<GridPoint>,
    queue: Seq<GridPoint>,
    s: Seq<GridPoint>,
    t: GridPoint,
)
    requires
        bfs_inv(g, start, dist, parent, queue, queue.len() as int),
        connects(g, s, start, t),
    ensures
        seen(g, dist, t),
        dist_at(g, dist, t) < s.len(),
    decreases s.len(),
{
    reveal(bfs_inv);
    if s.len() == 1 {
        assert(t == start);
    } else {
        let s1 = s.subrange(0, s.len() - 1);
        let u2 = s[s.len() - 2];
        assert forall|i: int| 0 <= i < s1.len() implies g.passable(#[trigger] s1[i]) by {
            assert(s1[i] == s[i]);
        }
        assert forall|i: int| 0 <= i < s1.len() - 1 implies step(g, #[trigger] s1[i], s1[i + 1]) by {
            assert(s1[i] == s[i] && s1[i + 1] == s[i + 1]);
            assert(step(g, s[i], s[i + 1]));
        }
        assert(connects(g, s1, start, u2));
        lemma_bfs_bound(g, start, dist, parent, queue, s1, u2);
        let i = choose|i: int| 0 <= i < queue.len() && queue[i] == u2;
        assert(step(g, s[s.len() - 2], s[s.len() - 1]));
        assert(step(g, queue[i], t));
        assert(seen(g, dist, t) && dist_at(g, dist, t) <= dist_at(g, dist, queue[i]) + 1);
        assert(dist_at(g, dist, queue[i]) == dist_at(g, dist, u2));
    }
}

impl PathFinder {
    /// Finds a shortest path on `grid` from `start` to `end`.
    ///
    /// Returns `Some(path)` where `path` runs from `start` to `end` over
    /// passable cells in single legal moves and no path between the two is
    /// shorter; returns `None` exactly when no path at all connects them
    /// (in particular whenever `start` or `end` is blocked). When
    /// `start == end` and the cell is passable, the path is that single
    /// cell.
    #[verifier::rlimit(100)]
    pub fn get_path(grid: &Grid, start: GridPoint, end: GridPoint) -> (r: Option<Vec<GridPoint>>)
        requires
            grid.wf(),
            grid.in_bounds(start),
            grid.in_bounds(end),
        ensures
            match r {
                Some(path) => {
                    &&& connects(*grid, path@, start, end)
                    &&& forall|s: Seq<GridPoint>|
                        connects(*grid, s, start, end) ==> path@.len() <= s.len()
                },
                None => forall|s: Seq<GridPoint>| !connects(*grid, s, start, end),
            },
    {
        let ghost gg = *grid;
        if grid.is_blocked(start.x, start.y) || grid.is_blocked(end.x, end.y) {
            proof {
                assert(start == (GridPoint { x: start.x, y: start.y }));
                assert(end == (GridPoint { x: end.x, y: end.y }));
                assert forall|s: Seq<GridPoint>| !connects(gg, s, start, end) by {
                    crate::paths::lemma_blocked_endpoint(gg, s, start, end);
                }
            }
            return None;
        }
        proof {
            assert(start == (GridPoint { x: start.x, y: start.y }));
            assert(end == (GridPoint { x: end.x, y: end.y }));
        }
        let (dist, parent, queue) = bfs(grid, start);
        proof {
            lemma_inv_parts(gg, start, dist@, parent@, queue@, queue@.len() as int);
        }
        let cie = grid.cell_idx(end);
        if dist[cie] == usize::MAX {
            proof {
                assert(!seen(gg, dist@, end));
                assert forall|s: Seq<GridPoint>| !connects(gg, s, start, end) by {
                    if connects(gg, s, start, end) {
                        lemma_bfs_bound(gg, start, dist@, parent@, queue@, s, end);
                    }
                }
            }
            return None;
        }
        proof {
            assert(seen(gg, dist@, end));
        }
        let ghost de = dist_at(gg, dist@, end);
        let mut rev: Vec<GridPoint> = Vec::new();
        rev.push(end);
        let mut cur = end;
        while cur != start
            invariant
                gg == *grid,
                gg.wf(),
                dist@.len() == gg.width * gg.height,
                parent@.len() == gg.width * gg.height,
                forall|q: GridPoint| #[trigger] seen(gg, dist@, q) ==> gg.passable(q),
                forall|q: GridPoint| #[trigger] seen(gg, dist@, q) && q != start ==> {
                    &&& seen(gg, dist@, parent_at(gg, parent@, q))
                    &&& step(gg, parent_at(gg, parent@, q), q)
                    &&& dist_at(gg, dist@, parent_at(gg, parent@, q)) + 1 == dist_at(gg, dist@, q)
                },
                seen(gg, dist@, cur),
                de == dist_at(gg, dist@, end),
                rev@.len() >= 1,
                rev@[0] == end,
                rev@[rev@.len() - 1] == cur,
                forall|i: int|
                    0 <= i < rev@.len() ==> seen(gg, dist@, #[trigger] rev@[i]) && dist_at(
                        gg,
                        dist@,
                        rev@[i],
                    ) == de - i,
                forall|i: int| 0 <= i < rev@.len() - 1 ==> step(gg, rev@[i + 1], #[trigger] rev@[i]),
            decreases dist_at(gg, dist@, cur),
        {
            let cic = grid.cell_idx(cur);
            let p = parent[cic];
            proof {
                assert(p == parent_at(gg, parent@, cur));
                assert(seen(gg, dist@, p) && step(gg, p, cur));
                assert(dist_at(gg, dist@, p) + 1 == dist_at(gg, dist@, cur));
            }
            rev.push(p);
            cur = p;
        }
        proof {
            assert(cur == start);
            assert(dist_at(gg, dist@, start) == 0);
            assert(rev@.len() == de + 1);
        }
        let n = rev.len();
        let mut path: Vec<GridPoint> = Vec::new();
        let mut k: usize = n;
        while k > 0
            invariant
                n == rev@.len(),
                k <= n,
                path@.len() == n - k,
                forall|i: int| 0 <= i < path@.len() ==> #[trigger] path@[i] == rev@[n - 1 - i],
            decreases k,
        {
            k = k - 1;
            let c = rev[k];
            path.push(c);
        }
        proof {
            assert forall|i: int| 0 <= i < path@.len() implies gg.passable(#[trigger] path@[i]) by {
                assert(path@[i] == rev@[n - 1 - i]);
                assert(seen(gg, dist@, rev@[n - 1 - i]));
            }
            assert forall|i: int| 0 <= i < path@.len() - 1 implies step(
                gg,
                #[trigger] path@[i],
                path@[i + 1],
            ) by {
                let j = n - 2 - i;
                assert(path@[i] == rev@[j + 1] && path@[i + 1] == rev@[j]);
                assert(step(gg, rev@[j + 1], rev@[j]));
            }
            assert(path@[0] == rev@[n - 1] && rev@[n - 1] == start);
            assert(path@[path@.len() - 1] == rev@[0] && rev@[0] == end);
            assert(connects(gg, path@, start, end));
            assert(path@.len() == de + 1);
            assert forall|s: Seq<GridPoint>| connects(gg, s, start, end) implies path@.len()
                <= s.len() by {
                lemma_bfs_bound(gg, start, dist@, parent@, queue@, s, end);
            }
        }
        Some(path)
    }
}

} // verus!
