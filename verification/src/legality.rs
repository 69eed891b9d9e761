//! The placement legality check: would a proposed obstacle placement
//! sever the route between the fixed entry and goal cells?

use vstd::prelude::*;

use crate::builder::grid_matches;
use crate::builder::obstacles_in_bounds;
use crate::builder::ObstacleGridBuilder;
use crate::grid::Grid;
use crate::grid::GridPoint;
use crate::pathfinder::PathFinder;
use crate::paths::connects;
use crate::paths::lemma_reachable_congruent;
use crate::paths::reachable;

verus! {

/// Blocking `cell` on top of `current` leaves the route from `start` to
/// `end` intact in the resulting snapshot.
pub open spec fn placement_keeps_route(
    current: Seq<GridPoint>,
    cell: GridPoint,
    width: usize,
    height: usize,
    exit_gap: GridPoint,
    start: GridPoint,
    end: GridPoint,
) -> bool {
    forall|g: Grid|
        grid_matches(g, current.push(cell), width, height, exit_gap) ==> reachable(g, start, end)
}

/// Law (chain-completion rollback, rejecting half): when every path from
/// `start` to `end` on the snapshot of `obs` crosses a cell of the newly
/// placed `chain`, the snapshot of `obs` plus `chain` has no such path,
/// so `would_block` reports `true` and the whole chain is undone.
pub proof fn lemma_chain_completion_rollback(
    g: Grid,
    g2: Grid,
    obs: Seq<GridPoint>,
    chain: Seq<GridPoint>,
    width: usize,
    height: usize,
    exit_gap: GridPoint,
    start: GridPoint,
    end: GridPoint,
)
    requires
        obstacles_in_bounds(obs, width, height),
        obstacles_in_bounds(chain, width, height),
        grid_matches(g, obs, width, height, exit_gap),
        grid_matches(g2, obs + chain, width, height, exit_gap),
        forall|s: Seq<GridPoint>|
            connects(g, s, start, end) ==> exists|i: int|
                0 <= i < s.len() && chain.contains(#[trigger] s[i]),
    ensures
        !reachable(g2, start, end),
{
    let c = Set::new(|p: GridPoint| chain.contains(p));
    assert forall|p: GridPoint|
        g2.blocked(p) <==> g.blocked(p) || (g.in_bounds(p) && c.contains(p)) by {
        lemma_concat_contains(obs, chain, p);
        if chain.contains(p) {
            let i = choose|i: int| 0 <= i < chain.len() && chain[i] == p;
            assert(p.x < width && p.y < height);
        }
    }
    crate::paths::lemma_blocking_placement(g, g2, c, start, end);
}

/// Law (chain-completion rollback, accepting half): a path from `start`
/// to `end` on the snapshot of `obs` that avoids every cell of `chain`
/// survives on the snapshot of `obs` plus `chain`, so `would_block`
/// reports `false` and the chain stays.
pub proof fn lemma_chain_off_route_kept(
    g: Grid,
    g2: Grid,
    obs: Seq<GridPoint>,
    chain: Seq<GridPoint>,
    width: usize,
    height: usize,
    exit_gap: GridPoint,
    s: Seq<GridPoint>,
    start: GridPoint,
    end: GridPoint,
)
    requires
        obstacles_in_bounds(obs, width, height),
        obstacles_in_bounds(chain, width, height),
        grid_matches(g, obs, width, height, exit_gap),
        grid_matches(g2, obs + chain, width, height, exit_gap),
        connects(g, s, start, end),
        forall|i: int| 0 <= i < s.len() ==> !chain.contains(#[trigger] s[i]),
    ensures
        reachable(g2, start, end),
{
    let c = Set::new(|p: GridPoint| chain.contains(p));
    assert forall|p: GridPoint|
        g2.blocked(p) <==> g.blocked(p) || (g.in_bounds(p) && c.contains(p)) by {
        lemma_concat_contains(obs, chain, p);
        if chain.contains(p) {
            let i = choose|i: int| 0 <= i < chain.len() && chain[i] == p;
            assert(p.x < width && p.y < height);
        }
    }
    crate::paths::lemma_nonblocking_placement(g, g2, c, s, start, end);
}

/// Membership in a concatenation is membership in either part.
proof fn lemma_concat_contains(a: Seq<GridPoint>, b: Seq<GridPoint>, p: GridPoint)
    ensures
        (a + b).contains(p) <==> a.contains(p) || b.contains(p),
{
    if (a + b).contains(p) {
        let i = choose|i: int| 0 <= i < (a + b).len() && (a + b)[i] == p;
        if i < a.len() {
            assert(a[i] == p);
        } else {
            assert(b[i - a.len()] == p);
        }
    }
    if a.contains(p) {
        let i = choose|i: int| 0 <= i < a.len() && a[i] == p;
        assert((a + b)[i] == p);
    }
    if b.contains(p) {
        let i = choose|i: int| 0 <= i < b.len() && b[i] == p;
        assert((a + b)[a.len() + i] == p);
    }
}

/// Gates chain completion and hazard placement on route reachability.
pub struct PathLegalityChecker;

impl PathLegalityChecker {
    /// Whether a path from `start` to `end` exists on the snapshot of
    /// `obstacles`; the answer holds of every grid matching that snapshot.
    pub fn route_exists(
        obstacles: &Vec<GridPoint>,
        width: usize,
        height: usize,
        exit_gap: GridPoint,
        start: GridPoint,
        end: GridPoint,
    ) -> (b: bool)
        requires
            1 <= width,
            1 <= height,
            (width + 1) * height < usize::MAX,
            exit_gap.y < height,
            obstacles_in_bounds(obstacles@, width, height),
            start.x <= width && start.y < height,
            end.x <= width && end.y < height,
        ensures
            forall|g: Grid|
                grid_matches(g, obstacles@, width, height, exit_gap) ==> (b <==> reachable(
                    g,
                    start,
                    end,
                )),
            exists|g: Grid| grid_matches(g, obstacles@, width, height, exit_gap),
    {
        let g = ObstacleGridBuilder::build(obstacles, width, height, exit_gap);
        let r = PathFinder::get_path(&g, start, end);
        let b = r.is_some();
        proof {
            assert(grid_matches(g, obstacles@, width, height, exit_gap));
            if b {
                let p = r.unwrap();
                assert(connects(g, p@, start, end));
                assert(reachable(g, start, end));
            } else {
                assert(!reachable(g, start, end)) by {
                    if reachable(g, start, end) {
                        let s = choose|s: Seq<GridPoint>| connects(g, s, start, end);
                    }
                }
            }
            assert forall|g2: Grid|
                grid_matches(g2, obstacles@, width, height, exit_gap) implies (b <==> reachable(
                g2,
                start,
                end,
            )) by {
                lemma_reachable_congruent(g, g2, start, end);
            }
        }
        b
    }

    /// Whether blocking every cell of `candidate` on top of `current`
    /// leaves `start` and `end` disconnected: `true` exactly when the
    /// combined snapshot has no path, so the placement must be rejected.
    pub fn would_block(
        current: &Vec<GridPoint>,
        candidate: &Vec<GridPoint>,
        width: usize,
        height: usize,
        exit_gap: GridPoint,
        start: GridPoint,
        end: GridPoint,
    ) -> (b: bool)
        requires
            1 <= width,
            1 <= height,
            (width + 1) * height < usize::MAX,
            exit_gap.y < height,
            obstacles_in_bounds(current@, width, height),
            obstacles_in_bounds(candidate@, width, height),
            start.x <= width && start.y < height,
            end.x <= width && end.y < height,
        ensures
            forall|g: Grid|
                grid_matches(g, current@ + candidate@, width, height, exit_gap) ==> (b
                    <==> !reachable(g, start, end)),
            exists|g: Grid| grid_matches(g, current@ + candidate@, width, height, exit_gap),
    {
        let mut all: Vec<GridPoint> = Vec::new();
        let mut i: usize = 0;
        while i < current.len()
            invariant
                i <= current@.len(),
                all@ == current@.subrange(0, i as int),
            decreases current@.len() - i,
        {
            all.push(current[i]);
            i = i + 1;
        }
        proof {
            assert(all@ == current@.subrange(0, current@.len() as int));
            assert(all@ == current@);
        }
        let mut j: usize = 0;
        while j < candidate.len()
            invariant
                j <= candidate@.len(),
                all@ == current@ + candidate@.subrange(0, j as int),
            decreases candidate@.len() - j,
        {
            all.push(candidate[j]);
            proof {
                assert(all@ == current@ + candidate@.subrange(0, j + 1));
            }
            j = j + 1;
        }
        proof {
            assert(candidate@.subrange(0, candidate@.len() as int) == candidate@);
            assert(all@ == current@ + candidate@);
            assert(obstacles_in_bounds(all@, width, height));
        }
        let open_route = Self::route_exists(&all, width, height, exit_gap, start, end);
        !open_route
    }

    /// The filtered legal set for hazard placement: every free interior
    /// cell (columns `1..width`) whose blocking still leaves `start` and
    /// `end` connected. Hazards are only ever offered from this set.
    pub fn legal_placement_cells(
        current: &Vec<GridPoint>,
        width: usize,
        height: usize,
        exit_gap: GridPoint,
        start: GridPoint,
        end: GridPoint,
    ) -> (cells: Vec<GridPoint>)
        requires
            1 <= width,
            1 <= height,
            (width + 1) * height < usize::MAX,
            exit_gap.y < height,
            obstacles_in_bounds(current@, width, height),
            start.x <= width && start.y < height,
            end.x <= width && end.y < height,
        ensures
            forall|p: GridPoint|
                cells@.contains(p) <==> (1 <= p.x < width && p.y < height && !current@.contains(p)
                    && placement_keeps_route(current@, p, width, height, exit_gap, start, end)),
            cells@.no_duplicates(),
    {
        let ghost ok = |p: GridPoint|
            1 <= p.x < width && p.y < height && !current@.contains(p) && placement_keeps_route(
                current@,
                p,
                width,
                height,
                exit_gap,
                start,
                end,
            );
        let mut cells: Vec<GridPoint> = Vec::new();
        let mut x: usize = 1;
        while x < width
            invariant
                1 <= x <= width,
                forall|p: GridPoint| cells@.contains(p) <==> ok(p) && p.x < x,
                cells@.no_duplicates(),
                1 <= width,
                1 <= height,
                (width + 1) * height < usize::MAX,
                exit_gap.y < height,
                obstacles_in_bounds(current@, width, height),
                start.x <= width && start.y < height,
                end.x <= width && end.y < height,
                ok == (|p: GridPoint|
                    1 <= p.x < width && p.y < height && !current@.contains(p)
                        && placement_keeps_route(current@, p, width, height, exit_gap, start, end)),
            decreases width - x,
        {
            let mut y: usize = 0;
            while y < height
                invariant
                    1 <= x < width,
                    y <= height,
                    forall|p: GridPoint|
                        cells@.contains(p) <==> ok(p) && (p.x < x || (p.x == x && p.y < y)),
                    cells@.no_duplicates(),
                    1 <= width,
                    1 <= height,
                    (width + 1) * height < usize::MAX,
                    exit_gap.y < height,
                    obstacles_in_bounds(current@, width, height),
                    start.x <= width && start.y < height,
                    end.x <= width && end.y < height,
                    ok == (|p: GridPoint|
                        1 <= p.x < width && p.y < height && !current@.contains(p)
                            && placement_keeps_route(
                            current@,
                            p,
                            width,
                            height,
                            exit_gap,
                            start,
                            end,
                        )),
                decreases height - y,
            {
                let cell = GridPoint { x, y };
                let occupied = contains_point(current, cell);
                if !occupied {
                    let mut cand: Vec<GridPoint> = Vec::new();
                    cand.push(cell);
                    let blocks = Self::would_block(
                        current,
                        &cand,
                        width,
                        height,
                        exit_gap,
                        start,
                        end,
                    );
                    proof {
                        assert(cand@ == seq![cell]);
                        assert(current@ + cand@ == current@.push(cell));
                    }
                    if !blocks {
                        proof {
                            assert(ok(cell)) by {
                                assert forall|g: Grid|
                                    grid_matches(
                                        g,
                                        current@.push(cell),
                                        width,
                                        height,
                                        exit_gap,
                                    ) implies reachable(g, start, end) by {
                                    assert(grid_matches(
                                        g,
                                        current@ + cand@,
                                        width,
                                        height,
                                        exit_gap,
                                    ));
                                }
                            }
                            assert(!cells@.contains(cell));
                        }
                        let ghost pre = cells@;
                        cells.push(cell);
                        proof {
                            assert(cells@ == pre.push(cell));
                            assert(cells@[pre.len() as int] == cell);
                            assert forall|p: GridPoint|
                                cells@.contains(p) <==> ok(p) && (p.x < x || (p.x == x && p.y < y
                                    + 1)) by {
                                if cells@.contains(p) {
                                    let k = choose|k: int|
                                        0 <= k < cells@.len() && cells@[k] == p;
                                    if k < pre.len() {
                                        assert(pre[k] == p);
                                        assert(pre.contains(p));
                                    } else {
                                        assert(p == cell);
                                    }
                                }
                                if ok(p) && (p.x < x || (p.x == x && p.y < y + 1)) && p != cell {
                                    assert(!(p.x == x && p.y == y));
                                    assert(pre.contains(p));
                                    let k = choose|k: int| 0 <= k < pre.len() && pre[k] == p;
                                    assert(cells@[k] == p);
                                }
                            }
                        }
                    } else {
                        proof {
                            let g0 = choose|g: Grid|
                                grid_matches(g, current@ + cand@, width, height, exit_gap);
                            assert(!reachable(g0, start, end));
                            assert(grid_matches(g0, current@.push(cell), width, height, exit_gap));
                            assert(!ok(cell));
                            assert forall|p: GridPoint|
                                cells@.contains(p) <==> ok(p) && (p.x < x || (p.x == x && p.y < y
                                    + 1)) by {}
                        }
                    }
                } else {
                    proof {
                        assert(current@.contains(cell));
                        assert(!ok(cell));
                    }
                }
                y = y + 1;
            }
            x = x + 1;
        }
        cells
    }

    /// Every unoccupied cell of the play area's interior columns
    /// `1..width`: the pool that non-blocking pickups are placed from.
    pub fn free_cells(current: &Vec<GridPoint>, width: usize, height: usize) -> (cells: Vec<
        GridPoint,
    >)
        requires
            1 <= width,
            1 <= height,
        ensures
            forall|p: GridPoint|
                cells@.contains(p) <==> (1 <= p.x < width && p.y < height && !current@.contains(
                    p,
                )),
            cells@.no_duplicates(),
    {
        let ghost ok = |p: GridPoint| 1 <= p.x < width && p.y < height && !current@.contains(p);
        let mut cells: Vec<GridPoint> = Vec::new();
        let mut x: usize = 1;
        while x < width
            invariant
                1 <= x <= width,
                forall|p: GridPoint| cells@.contains(p) <==> ok(p) && p.x < x,
                cells@.no_duplicates(),
                ok == (|p: GridPoint| 1 <= p.x < width && p.y < height && !current@.contains(p)),
            decreases width - x,
        {
            let mut y: usize = 0;
            while y < height
                invariant
                    1 <= x < width,
                    y <= height,
                    forall|p: GridPoint|
                        cells@.contains(p) <==> ok(p) && (p.x < x || (p.x == x && p.y < y)),
                    cells@.no_duplicates(),
                    ok == (|p: GridPoint|
                        1 <= p.x < width && p.y < height && !current@.contains(p)),
                decreases height - y,
            {
                let cell = GridPoint { x, y };
                if !contains_point(current, cell) {
                    proof {
                        assert(ok(cell));
                        assert(!cells@.contains(cell));
                    }
                    let ghost pre = cells@;
                    cells.push(cell);
                    proof {
                        assert(cells@ == pre.push(cell));
                        assert(cells@[pre.len() as int] == cell);
                        assert forall|p: GridPoint|
                            cells@.contains(p) <==> ok(p) && (p.x < x || (p.x == x && p.y < y
                                + 1)) by {
                            if cells@.contains(p) {
                                let k = choose|k: int| 0 <= k < cells@.len() && cells@[k] == p;
                                if k < pre.len() {
                                    assert(pre[k] == p);
                                    assert(pre.contains(p));
                                } else {
                                    assert(p == cell);
                                }
                            }
                            if ok(p) && (p.x < x || (p.x == x && p.y < y + 1)) && p != cell {
                                assert(!(p.x == x && p.y == y));
                                assert(pre.contains(p));
                                let k = choose|k: int| 0 <= k < pre.len() && pre[k] == p;
                                assert(cells@[k] == p);
                            }
                        }
                    }
                } else {
                    proof {
                        assert(current@.contains(cell));
                        assert(!ok(cell));
                    }
                }
                y = y + 1;
            }
            x = x + 1;
        }
        cells
    }

    /// Chooses a cell from a legal set with a caller-supplied roll, or
    /// reports the empty set as an explicit `None` instead of failing.
    pub fn pick_placement(cells: &Vec<GridPoint>, roll: u64) -> (r: Option<GridPoint>)
        ensures
            match r {
                Some(c) => cells@.len() > 0 && c == cells@[(roll as int) % (cells@.len() as int)],
                None => cells@.len() == 0,
            },
    {
        if cells.len() == 0 {
            None
        } else {
            let idx = (roll % (cells.len() as u64)) as usize;
            Some(cells[idx])
        }
    }
}

/// Whether `points` holds `p`.
fn contains_point(points: &Vec<GridPoint>, p: GridPoint) -> (b: bool)
    ensures
        b == points@.contains(p),
{
    let mut i: usize = 0;
    while i < points.len()
        invariant
            i <= points@.len(),
            forall|j: int| 0 <= j < i ==> points@[j] != p,
        decreases points@.len() - i,
    {
        if points[i].x == p.x && points[i].y == p.y {
            proof {
                assert(points@[i as int] == p);
            }
            return true;
        }
        i = i + 1;
    }
    proof {
        if points@.contains(p) {
            let j = choose|j: int| 0 <= j < points@.len() && points@[j] == p;
        }
    }
    false
}

} // verus!
