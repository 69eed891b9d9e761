//! The mathematical model of movement: steps, paths, and reachability,
//! together with the general laws the path finder's contract supports.

use vstd::prelude::*;

use crate::grid::Grid;
use crate::grid::GridPoint;

verus! {

/// Orthogonal (4-directional) adjacency between two cells.
pub open spec fn orth_adjacent(a: GridPoint, b: GridPoint) -> bool {
    ||| (a.x == b.x && (a.y + 1 == b.y || b.y + 1 == a.y))
    ||| (a.y == b.y && (a.x + 1 == b.x || b.x + 1 == a.x))
}

/// Diagonal adjacency between two cells.
pub open spec fn diag_adjacent(a: GridPoint, b: GridPoint) -> bool {
    (a.x + 1 == b.x || b.x + 1 == a.x) && (a.y + 1 == b.y || b.y + 1 == a.y)
}

/// One legal move on `g`: both cells passable and adjacent. A diagonal
/// move is legal only when the grid allows diagonals and neither cell
/// orthogonally adjacent to both endpoints is blocked (corner-cutting
/// prevention).
pub open spec fn step(g: Grid, a: GridPoint, b: GridPoint) -> bool {
    &&& g.passable(a)
    &&& g.passable(b)
    &&& {
        ||| orth_adjacent(a, b)
        ||| (g.allow_diagonal && diag_adjacent(a, b)
            && !g.blocked(GridPoint { x: a.x, y: b.y })
            && !g.blocked(GridPoint { x: b.x, y: a.y }))
    }
}

/// A non-empty sequence of passable cells in which consecutive cells are
/// one legal move apart.
pub open spec fn is_path(g: Grid, s: Seq<GridPoint>) -> bool {
    &&& s.len() >= 1
    &&& forall|i: int| 0 <= i < s.len() ==> g.passable(#[trigger] s[i])
    &&& forall|i: int| 0 <= i < s.len() - 1 ==> step(g, #[trigger] s[i], s[i + 1])
}

/// A path on `g` from `a` to `b`.
pub open spec fn connects(g: Grid, s: Seq<GridPoint>, a: GridPoint, b: GridPoint) -> bool {
    &&& is_path(g, s)
    &&& s[0] == a
    &&& s[s.len() - 1] == b
}

/// Some path on `g` leads from `a` to `b`.
pub open spec fn reachable(g: Grid, a: GridPoint, b: GridPoint) -> bool {
    exists|s: Seq<GridPoint>| connects(g, s, a, b)
}

/// Some path of exactly `n` cells on `g` leads from `a` to `b`.
pub open spec fn has_path_of_len(g: Grid, a: GridPoint, b: GridPoint, n: nat) -> bool {
    exists|s: Seq<GridPoint>| connects(g, s, a, b) && s.len() == n
}

/// A legal move read backwards is a legal move: adjacency is symmetric and
/// a diagonal move's two corner cells do not depend on its direction.
pub proof fn lemma_step_symmetric(g: Grid, a: GridPoint, b: GridPoint)
    requires
        step(g, a, b),
    ensures
        step(g, b, a),
{
}

/// Law: a path read backwards is a path between the swapped endpoints, of
/// the same length.
pub proof fn lemma_path_reverse(g: Grid, s: Seq<GridPoint>, a: GridPoint, b: GridPoint)
    requires
        connects(g, s, a, b),
    ensures
        connects(g, s.reverse(), b, a),
        s.reverse().len() == s.len(),
{
    let r = s.reverse();
    assert forall|i: int| 0 <= i < r.len() implies g.passable(#[trigger] r[i]) by {
        assert(r[i] == s[s.len() - 1 - i]);
    }
    assert forall|i: int| 0 <= i < r.len() - 1 implies step(g, #[trigger] r[i], r[i + 1]) by {
        let j = s.len() - 2 - i;
        assert(r[i] == s[j + 1]);
        assert(r[i + 1] == s[j]);
        assert(step(g, s[j], s[j + 1]));
        lemma_step_symmetric(g, s[j], s[j + 1]);
    }
}

/// Law (reachability symmetry): a path of `n` cells from `a` to `b` exists
/// exactly when one from `b` to `a` does, so the shortest lengths in the
/// two directions agree.
pub proof fn lemma_reachability_symmetry(g: Grid, a: GridPoint, b: GridPoint, n: nat)
    ensures
        has_path_of_len(g, a, b, n) <==> has_path_of_len(g, b, a, n),
{
    if has_path_of_len(g, a, b, n) {
        let s = choose|s: Seq<GridPoint>| connects(g, s, a, b) && s.len() == n;
        lemma_path_reverse(g, s, a, b);
        assert(connects(g, s.reverse(), b, a) && s.reverse().len() == n);
    }
    if has_path_of_len(g, b, a, n) {
        let s = choose|s: Seq<GridPoint>| connects(g, s, b, a) && s.len() == n;
        lemma_path_reverse(g, s, b, a);
        assert(connects(g, s.reverse(), a, b) && s.reverse().len() == n);
    }
}

/// Every path on a grid with more blocked cells is a path on the grid
/// with fewer: blocking cells can only remove paths.
pub proof fn lemma_path_in_clearer_grid(g1: Grid, g2: Grid, s: Seq<GridPoint>)
    requires
        g1.width == g2.width,
        g1.height == g2.height,
        g1.allow_diagonal == g2.allow_diagonal,
        forall|p: GridPoint| g1.blocked(p) ==> g2.blocked(p),
        is_path(g2, s),
    ensures
        is_path(g1, s),
{
    assert forall|i: int| 0 <= i < s.len() implies g1.passable(#[trigger] s[i]) by {
        assert(g2.passable(s[i]));
        assert(!(g1.blocked(s[i]) ==> g2.blocked(s[i])) || !g1.blocked(s[i]));
    }
    assert forall|i: int| 0 <= i < s.len() - 1 implies step(g1, #[trigger] s[i], s[i + 1]) by {
        let a = s[i];
        let b = s[i + 1];
        assert(step(g2, a, b));
        assert(!(g1.blocked(a) ==> g2.blocked(a)) || !g1.blocked(a));
        assert(!(g1.blocked(b) ==> g2.blocked(b)) || !g1.blocked(b));
        let c1 = GridPoint { x: a.x, y: b.y };
        let c2 = GridPoint { x: b.x, y: a.y };
        if g1.allow_diagonal && diag_adjacent(a, b) {
            assert(g1.blocked(c1) ==> g2.blocked(c1));
            assert(g1.blocked(c2) ==> g2.blocked(c2));
        }
    }
}

/// Law (obstacle monotonicity): adding blocked cells never shortens the
/// path length between two points; any length achievable after blocking
/// was achievable before, so paths can only lengthen or disappear.
pub proof fn lemma_obstacle_monotonicity(
    g1: Grid,
    g2: Grid,
    a: GridPoint,
    b: GridPoint,
    n: nat,
)
    requires
        g1.width == g2.width,
        g1.height == g2.height,
        g1.allow_diagonal == g2.allow_diagonal,
        forall|p: GridPoint| g1.blocked(p) ==> g2.blocked(p),
        has_path_of_len(g2, a, b, n),
    ensures
        has_path_of_len(g1, a, b, n),
{
    let s = choose|s: Seq<GridPoint>| connects(g2, s, a, b) && s.len() == n;
    lemma_path_in_clearer_grid(g1, g2, s);
    assert(connects(g1, s, a, b) && s.len() == n);
}

/// Law (blocked endpoint): no path connects `a` and `b` when either cell
/// is blocked, whatever the grid.
pub proof fn lemma_blocked_endpoint(g: Grid, s: Seq<GridPoint>, a: GridPoint, b: GridPoint)
    requires
        g.blocked(a) || g.blocked(b),
    ensures
        !connects(g, s, a, b),
{
    if connects(g, s, a, b) {
        assert(g.passable(s[0]));
        assert(g.passable(s[s.len() - 1]));
    }
}

/// Law (deterministic length): any two shortest paths between the same
/// cells have the same length, so repeated searches over equal grids
/// agree on path existence and length even when they pick different
/// waypoints.
pub proof fn lemma_shortest_length_unique(
    g: Grid,
    s1: Seq<GridPoint>,
    s2: Seq<GridPoint>,
    a: GridPoint,
    b: GridPoint,
)
    requires
        connects(g, s1, a, b),
        connects(g, s2, a, b),
        forall|s: Seq<GridPoint>| connects(g, s, a, b) ==> s1.len() <= s.len(),
        forall|s: Seq<GridPoint>| connects(g, s, a, b) ==> s2.len() <= s.len(),
    ensures
        s1.len() == s2.len(),
{
}

/// Two grids with the same dimensions, movement model, and blocked cells
/// support exactly the same paths.
pub proof fn lemma_reachable_congruent(g1: Grid, g2: Grid, a: GridPoint, b: GridPoint)
    requires
        g1.width == g2.width,
        g1.height == g2.height,
        g1.allow_diagonal == g2.allow_diagonal,
        forall|p: GridPoint| g1.blocked(p) <==> g2.blocked(p),
    ensures
        reachable(g1, a, b) <==> reachable(g2, a, b),
{
    if reachable(g1, a, b) {
        let s = choose|s: Seq<GridPoint>| connects(g1, s, a, b);
        lemma_path_in_clearer_grid(g2, g1, s);
        assert(connects(g2, s, a, b));
    }
    if reachable(g2, a, b) {
        let s = choose|s: Seq<GridPoint>| connects(g2, s, a, b);
        lemma_path_in_clearer_grid(g1, g2, s);
        assert(connects(g1, s, a, b));
    }
}

/// Law (chain severs the only route): when every path from `a` to `b` on
/// `g` passes through some cell of the newly blocked set `c`, the grid
/// `g2` obtained from `g` by blocking `c` has no path from `a` to `b`.
pub proof fn lemma_blocking_placement(
    g: Grid,
    g2: Grid,
    c: Set<GridPoint>,
    a: GridPoint,
    b: GridPoint,
)
    requires
        g.width == g2.width,
        g.height == g2.height,
        g.allow_diagonal == g2.allow_diagonal,
        forall|p: GridPoint| g2.blocked(p) <==> g.blocked(p) || (g.in_bounds(p) && c.contains(p)),
        forall|s: Seq<GridPoint>| connects(g, s, a, b)
            ==> exists|i: int| 0 <= i < s.len() && c.contains(#[trigger] s[i]),
    ensures
        !reachable(g2, a, b),
{
    if reachable(g2, a, b) {
        let s = choose|s: Seq<GridPoint>| connects(g2, s, a, b);
        lemma_path_in_clearer_grid(g, g2, s);
        assert(connects(g, s, a, b));
        let i = choose|i: int| 0 <= i < s.len() && c.contains(#[trigger] s[i]);
        assert(g.passable(s[i]));
        assert(g2.blocked(s[i]));
        assert(g2.passable(s[i]));
    }
}

/// Law (chain off the route is harmless): a path from `a` to `b` on `g`
/// that avoids every cell of the newly blocked set `c` survives blocking
/// `c`, for the orthogonal movement model the builder uses.
pub proof fn lemma_nonblocking_placement(
    g: Grid,
    g2: Grid,
    c: Set<GridPoint>,
    s: Seq<GridPoint>,
    a: GridPoint,
    b: GridPoint,
)
    requires
        g.width == g2.width,
        g.height == g2.height,
        g.allow_diagonal == g2.allow_diagonal,
        !g.allow_diagonal,
        forall|p: GridPoint| g2.blocked(p) <==> g.blocked(p) || (g.in_bounds(p) && c.contains(p)),
        connects(g, s, a, b),
        forall|i: int| 0 <= i < s.len() ==> !c.contains(#[trigger] s[i]),
    ensures
        reachable(g2, a, b),
{
    assert forall|i: int| 0 <= i < s.len() implies g2.passable(#[trigger] s[i]) by {
        assert(g.passable(s[i]));
    }
    assert forall|i: int| 0 <= i < s.len() - 1 implies step(g2, #[trigger] s[i], s[i + 1]) by {
        assert(step(g, s[i], s[i + 1]));
    }
    assert(connects(g2, s, a, b));
}

} // verus!
