//! The occupancy grid: bounded 2D surface of cells that are open or blocked.

use vstd::prelude::*;

verus! {

/// One cell position in a bounded rectangular grid.
///
/// Equality is coordinate equality; the value is immutable once built.
#[derive(Clone, Copy, PartialEq, Eq, Structural, Debug, Hash)]
pub struct GridPoint {
    pub x: usize,
    pub y: usize,
}

impl GridPoint {
    pub fn new(x: usize, y: usize) -> (p: GridPoint)
        ensures
            p.x == x,
            p.y == y,
    {
        GridPoint { x, y }
    }
}

/// A fixed-size occupancy grid: every in-bounds cell is open or blocked,
/// out-of-bounds cells are never blocked (movement code checks bounds
/// separately). `allow_diagonal` selects the movement model used by the
/// path finder.
pub struct Grid {
    pub width: usize,
    pub height: usize,
    pub allow_diagonal: bool,
    pub cells: Vec<bool>,
}

impl Grid {
    /// Well-formedness: positive dimensions, one stored flag per cell, and
    /// room to count cells (and distances) in a `usize`.
    pub open spec fn wf(self) -> bool {
        &&& self.width >= 1
        &&& self.height >= 1
        &&& self.width * self.height < usize::MAX
        &&& self.cells.len() == self.width * self.height
    }

    pub open spec fn in_bounds(self, p: GridPoint) -> bool {
        p.x < self.width && p.y < self.height
    }

    /// Row-major index of an in-bounds cell.
    pub open spec fn cell_index(self, p: GridPoint) -> int {
        p.y * self.width + p.x
    }

    /// Whether `p` is blocked; out-of-bounds points are never blocked.
    pub open spec fn blocked(self, p: GridPoint) -> bool {
        self.in_bounds(p) && self.cells[self.cell_index(p)]
    }

    /// Whether `p` is an in-bounds, unblocked cell an agent may occupy.
    pub open spec fn passable(self, p: GridPoint) -> bool {
        self.in_bounds(p) && !self.cells[self.cell_index(p)]
    }

    pub proof fn lemma_cell_index_bounds(self, p: GridPoint)
        requires
            self.wf(),
            self.in_bounds(p),
        ensures
            0 <= self.cell_index(p) < self.width * self.height,
    {
        assert(p.y * self.width + p.x < self.width * self.height) by (nonlinear_arith)
            requires
                p.x < self.width,
                p.y < self.height,
        ;
    }

    pub proof fn lemma_cell_index_injective(self, p: GridPoint, q: GridPoint)
        requires
            self.wf(),
            self.in_bounds(p),
            self.in_bounds(q),
            self.cell_index(p) == self.cell_index(q),
        ensures
            p == q,
    {
        assert(p.x == q.x && p.y == q.y) by (nonlinear_arith)
            requires
                p.x < self.width,
                q.x < self.width,
                p.y * self.width + p.x == q.y * self.width + q.x,
        ;
    }

    /// Exec counterpart of `cell_index`.
    pub fn cell_idx(&self, p: GridPoint) -> (i: usize)
        requires
            self.wf(),
            self.in_bounds(p),
        ensures
            i == self.cell_index(p),
            i < self.cells.len(),
    {
        proof {
            self.lemma_cell_index_bounds(p);
            assert(p.y * self.width <= p.y * self.width + p.x);
        }
        p.y * self.width + p.x
    }

    /// A fresh grid with every cell open.
    pub fn new(width: usize, height: usize, allow_diagonal: bool) -> (g: Grid)
        requires
            1 <= width,
            1 <= height,
            width * height < usize::MAX,
        ensures
            g.wf(),
            g.width == width,
            g.height == height,
            g.allow_diagonal == allow_diagonal,
            forall|p: GridPoint| !g.blocked(p),
    {
        let n = width * height;
        let mut cells: Vec<bool> = Vec::new();
        while cells.len() < n
            invariant
                cells.len() <= n,
                forall|i: int| 0 <= i < cells.len() ==> !cells[i],
            decreases n - cells.len(),
        {
            cells.push(false);
        }
        let g = Grid { width, height, allow_diagonal, cells };
        proof {
            assert forall|p: GridPoint| !g.blocked(p) by {
                if g.in_bounds(p) {
                    g.lemma_cell_index_bounds(p);
                }
            }
        }
        g
    }

    /// Marks a single in-bounds cell blocked or open; repeated sets are
    /// idempotent, and no other cell changes.
    pub fn set(&mut self, x: usize, y: usize, blocked: bool)
        requires
            old(self).wf(),
            x < old(self).width,
            y < old(self).height,
        ensures
            final(self).wf(),
            final(self).width == old(self).width,
            final(self).height == old(self).height,
            final(self).allow_diagonal == old(self).allow_diagonal,
            final(self).blocked(GridPoint { x, y }) == blocked,
            forall|p: GridPoint| p != (GridPoint { x, y }) ==>
                final(self).blocked(p) == old(self).blocked(p),
    {
        let target = GridPoint { x, y };
        let i = self.cell_idx(target);
        self.cells[i] = blocked;
        proof {
            assert forall|p: GridPoint| p != (GridPoint { x, y }) implies
                self.blocked(p) == old(self).blocked(p) by {
                if self.in_bounds(p) {
                    self.lemma_cell_index_bounds(p);
                    if self.cell_index(p) == self.cell_index(target) {
                        self.lemma_cell_index_injective(p, target);
                    }
                }
            }
        }
    }

    /// Queries the blocked flag; cells outside the grid report unblocked,
    /// as movement code performs its own bounds checks.
    pub fn is_blocked(&self, x: usize, y: usize) -> (b: bool)
        requires
            self.wf(),
        ensures
            b == self.blocked(GridPoint { x, y }),
    {
        if x < self.width && y < self.height {
            let i = self.cell_idx(GridPoint { x, y });
            self.cells[i]
        } else {
            false
        }
    }
}

} // verus!
