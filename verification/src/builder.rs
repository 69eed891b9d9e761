//! Snapshots a dynamic obstacle set into a fresh occupancy grid.
//!
//! The built grid is one column wider than the play area: the extra
//! column models the ship's back bulkhead, fully blocked except for a
//! single exit gap. Movement on built grids is always orthogonal.

use vstd::prelude::*;

use crate::grid::Grid;
use crate::grid::GridPoint;

verus! {

/// X coordinate of the fixed agent entry cell.
pub const BOAT_X: usize = 0;

/// Y coordinate of the fixed agent entry cell.
pub const BOAT_Y: usize = 5;

/// X coordinate of the fixed agent goal cell inside the hold.
pub const HOLD_X: usize = 26;

/// Y coordinate of the fixed agent goal cell inside the hold.
pub const HOLD_Y: usize = 5;

/// The fixed agent entry cell.
pub open spec fn spec_boat_point() -> GridPoint {
    GridPoint { x: BOAT_X, y: BOAT_Y }
}

/// The fixed agent entry cell.
#[verifier::when_used_as_spec(spec_boat_point)]
pub fn boat_point() -> (p: GridPoint)
    ensures
        p == spec_boat_point(),
{
    GridPoint { x: BOAT_X, y: BOAT_Y }
}

/// The fixed agent goal cell.
pub open spec fn spec_hold_point() -> GridPoint {
    GridPoint { x: HOLD_X, y: HOLD_Y }
}

/// The fixed agent goal cell.
#[verifier::when_used_as_spec(spec_hold_point)]
pub fn hold_point() -> (p: GridPoint)
    ensures
        p == spec_hold_point(),
{
    GridPoint { x: HOLD_X, y: HOLD_Y }
}

/// What a grid snapshot of `obs` must look like: dimensions
/// `(width + 1) x height`, orthogonal movement, and a cell blocked exactly
/// when an obstacle occupies it or it belongs to the bulkhead column
/// `x == width` outside the exit row.
pub open spec fn grid_matches(
    g: Grid,
    obs: Seq<GridPoint>,
    width: usize,
    height: usize,
    exit_gap: GridPoint,
) -> bool {
    &&& g.wf()
    &&& g.width == width + 1
    &&& g.height == height
    &&& !g.allow_diagonal
    &&& forall|p: GridPoint|
        g.blocked(p) <==> (obs.contains(p) || (p.x == width && p.y < height && p.y
            != exit_gap.y))
}

/// An obstacle set fit to stamp into a `width x height` play area: every
/// cell interior, none on the bulkhead column.
pub open spec fn obstacles_in_bounds(obs: Seq<GridPoint>, width: usize, height: usize) -> bool {
    forall|i: int|
        0 <= i < obs.len() ==> (#[trigger] obs[i]).x < width && obs[i].y < height
}

/// Law (boundary gap): however the interior is obstructed, a snapshot of
/// an in-bounds obstacle set keeps the exit gap itself open while the
/// rest of the bulkhead column stays blocked, so the route from the boat
/// to the hold is cut only when interior obstacles separate the two.
pub proof fn lemma_exit_gap_open(
    g: Grid,
    obs: Seq<GridPoint>,
    width: usize,
    height: usize,
    exit_gap: GridPoint,
)
    requires
        obstacles_in_bounds(obs, width, height),
        grid_matches(g, obs, width, height, exit_gap),
        exit_gap.y < height,
    ensures
        g.passable(GridPoint { x: width, y: exit_gap.y }),
        forall|y: usize|
            y < height && y != exit_gap.y ==> g.blocked(GridPoint { x: width, y }),
{
    let gap = GridPoint { x: width, y: exit_gap.y };
    assert(!obs.contains(gap)) by {
        if obs.contains(gap) {
            let i = choose|i: int| 0 <= i < obs.len() && obs[i] == gap;
        }
    }
    assert(!g.blocked(gap));
    assert(g.in_bounds(gap));
}

/// Builds fresh grid snapshots of dynamic obstacle sets.
pub struct ObstacleGridBuilder;

impl ObstacleGridBuilder {
    /// A fresh grid with every obstacle cell blocked, plus the bulkhead
    /// column at `x == width` blocked everywhere except the row of
    /// `exit_gap`. Diagonal movement is off, matching how agents move.
    pub fn build(
        obstacles: &Vec<GridPoint>,
        width: usize,
        height: usize,
        exit_gap: GridPoint,
    ) -> (g: Grid)
        requires
            1 <= width,
            1 <= height,
            (width + 1) * height < usize::MAX,
            exit_gap.y < height,
            obstacles_in_bounds(obstacles@, width, height),
        ensures
            grid_matches(g, obstacles@, width, height, exit_gap),
    {
        proof {
            assert(width + 1 <= (width + 1) * height) by (nonlinear_arith)
                requires
                    height >= 1,
                    width >= 1,
            ;
        }
        let mut g = Grid::new(width + 1, height, false);
        let mut i: usize = 0;
        while i < obstacles.len()
            invariant
                g.wf(),
                g.width == width + 1,
                g.height == height,
                !g.allow_diagonal,
                i <= obstacles@.len(),
                obstacles_in_bounds(obstacles@, width, height),
                forall|p: GridPoint|
                    g.blocked(p) <==> obstacles@.subrange(0, i as int).contains(p),
            decreases obstacles@.len() - i,
        {
            let o = obstacles[i];
            g.set(o.x, o.y, true);
            proof {
                let done = obstacles@.subrange(0, i + 1);
                assert forall|p: GridPoint| g.blocked(p) implies done.contains(p) by {
                    if p == o {
                        assert(done[i as int] == o);
                    } else {
                        let j = choose|j: int|
                            0 <= j < i && obstacles@.subrange(0, i as int)[j] == p;
                        assert(done[j] == p);
                    }
                }
                assert forall|p: GridPoint| done.contains(p) implies g.blocked(p) by {
                    let j = choose|j: int| 0 <= j < done.len() && done[j] == p;
                    if j < i {
                        assert(obstacles@.subrange(0, i as int)[j] == p);
                    } else {
                        assert(p == o);
                    }
                }
            }
            i = i + 1;
        }
        proof {
            assert(obstacles@.subrange(0, obstacles@.len() as int) == obstacles@);
        }
        let mut y: usize = 0;
        while y < height
            invariant
                g.wf(),
                g.width == width + 1,
                g.height == height,
                !g.allow_diagonal,
                y <= height,
                exit_gap.y < height,
                obstacles_in_bounds(obstacles@, width, height),
                forall|p: GridPoint|
                    g.blocked(p) <==> (obstacles@.contains(p) || (p.x == width && p.y < y && p.y
                        != exit_gap.y)),
            decreases height - y,
        {
            if y != exit_gap.y {
                g.set(width, y, true);
                proof {
                    let w = GridPoint { x: width, y };
                    assert(g.blocked(w));
                    assert forall|p: GridPoint|
                        g.blocked(p) <==> (obstacles@.contains(p) || (p.x == width && p.y < y + 1
                            && p.y != exit_gap.y)) by {
                        if p != w {
                            assert(!(p.x == width && p.y == y));
                        }
                    }
                }
            }
            y = y + 1;
        }
        g
    }
}

} // verus!
