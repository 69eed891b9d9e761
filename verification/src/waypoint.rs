//! Waypoint following: relocating an agent onto its path.
//!
//! An agent's continuous position is handed in as fixed-point world
//! coordinates: `scale` units per grid cell, so the cell `(x, y)` sits at
//! world point `(x * scale, y * scale)`. The closest waypoint (by squared
//! straight-line distance, ties to the lowest index) anchors the agent;
//! its movement target is the waypoint after that anchor, or the final
//! waypoint when the anchor is already last. This lets an agent re-target
//! correctly even when its position has drifted off the exact path.

use vstd::prelude::*;

use crate::grid::GridPoint;

verus! {

/// Largest cell coordinate the fixed-point distance math accepts.
pub const COORD_LIMIT: usize = 1048576;

/// Largest `scale` the fixed-point distance math accepts.
pub const SCALE_LIMIT: i64 = 1048576;

/// Largest world-coordinate magnitude the fixed-point distance math
/// accepts.
pub const POS_LIMIT: i64 = 1099511627776;

/// Squared world-space distance from `(px, py)` to the cell `p`.
pub open spec fn dist2(p: GridPoint, px: int, py: int, scale: int) -> int {
    (px - p.x * scale) * (px - p.x * scale) + (py - p.y * scale) * (py - p.y * scale)
}

/// `i` indexes the waypoint of `s` closest to `(px, py)`, with ties
/// broken by the lowest index.
pub open spec fn is_closest_index(
    s: Seq<GridPoint>,
    px: int,
    py: int,
    scale: int,
    i: int,
) -> bool {
    &&& 0 <= i < s.len()
    &&& forall|j: int|
        0 <= j < s.len() ==> dist2(s[i], px, py, scale) <= dist2(#[trigger] s[j], px, py, scale)
    &&& forall|j: int| 0 <= j < i ==> dist2(#[trigger] s[j], px, py, scale) > dist2(s[i], px, py, scale)
}

/// The closest index is unique: two indices that both minimize the
/// distance and precede every equal minimum coincide.
pub proof fn lemma_closest_index_unique(
    s: Seq<GridPoint>,
    px: int,
    py: int,
    scale: int,
    i: int,
    j: int,
)
    requires
        is_closest_index(s, px, py, scale, i),
        is_closest_index(s, px, py, scale, j),
    ensures
        i == j,
{
    if i < j {
        assert(dist2(s[i], px, py, scale) > dist2(s[j], px, py, scale));
        assert(dist2(s[i], px, py, scale) <= dist2(s[j], px, py, scale));
    }
    if j < i {
        assert(dist2(s[j], px, py, scale) > dist2(s[i], px, py, scale));
        assert(dist2(s[j], px, py, scale) <= dist2(s[i], px, py, scale));
    }
}

/// Every coordinate of every point stays within the fixed-point limits.
pub open spec fn points_in_range(s: Seq<GridPoint>) -> bool {
    forall|i: int|
        0 <= i < s.len() ==> (#[trigger] s[i]).x <= COORD_LIMIT && s[i].y <= COORD_LIMIT
}

/// Computes the squared distance in 128-bit arithmetic, which the limits
/// keep free of overflow.
fn dist2_exec(p: GridPoint, px: i64, py: i64, scale: i64) -> (d: i128)
    requires
        1 <= scale <= SCALE_LIMIT,
        -POS_LIMIT <= px <= POS_LIMIT,
        -POS_LIMIT <= py <= POS_LIMIT,
        p.x <= COORD_LIMIT,
        p.y <= COORD_LIMIT,
    ensures
        d == dist2(p, px as int, py as int, scale as int),
{
    proof {
        assert(p.x * scale <= 1099511627776 && p.y * scale <= 1099511627776)
            by (nonlinear_arith)
            requires
                0 <= p.x <= 1048576,
                0 <= p.y <= 1048576,
                1 <= scale <= 1048576,
        ;
    }
    let sx = (p.x as i64) * scale;
    let sy = (p.y as i64) * scale;
    let dx = (px as i128) - (sx as i128);
    let dy = (py as i128) - (sy as i128);
    proof {
        assert(dx * dx + dy * dy <= i128::MAX && dx * dx >= 0 && dy * dy >= 0)
            by (nonlinear_arith)
            requires
                -2199023255552 <= dx <= 2199023255552,
                -2199023255552 <= dy <= 2199023255552,
        ;
    }
    dx * dx + dy * dy
}

/// The index of the waypoint of `path` closest to `(px, py)`; among
/// equally close waypoints the one with the lowest index wins.
pub fn closest_waypoint_idx(path: &Vec<GridPoint>, px: i64, py: i64, scale: i64) -> (idx: usize)
    requires
        path@.len() >= 1,
        1 <= scale <= SCALE_LIMIT,
        -POS_LIMIT <= px <= POS_LIMIT,
        -POS_LIMIT <= py <= POS_LIMIT,
        points_in_range(path@),
    ensures
        is_closest_index(path@, px as int, py as int, scale as int, idx as int),
{
    let mut best: usize = 0;
    let mut best_d: i128 = dist2_exec(path[0], px, py, scale);
    let mut i: usize = 1;
    while i < path.len()
        invariant
            1 <= scale <= SCALE_LIMIT,
            -POS_LIMIT <= px <= POS_LIMIT,
            -POS_LIMIT <= py <= POS_LIMIT,
            points_in_range(path@),
            path@.len() >= 1,
            1 <= i <= path@.len(),
            best < i,
            best_d == dist2(path@[best as int], px as int, py as int, scale as int),
            forall|j: int|
                0 <= j < i ==> best_d <= dist2(#[trigger] path@[j], px as int, py as int, scale as int),
            forall|j: int|
                0 <= j < best ==> dist2(#[trigger] path@[j], px as int, py as int, scale as int)
                    > best_d,
        decreases path@.len() - i,
    {
        let d = dist2_exec(path[i], px, py, scale);
        if d < best_d {
            best = i;
            best_d = d;
        }
        i = i + 1;
    }
    best
}

/// The agent's next movement target on `path` from world position
/// `(px, py)`: the waypoint after the closest one, or the final waypoint
/// when the closest one is already last.
pub fn next_waypoint(path: &Vec<GridPoint>, px: i64, py: i64, scale: i64) -> (t: GridPoint)
    requires
        path@.len() >= 1,
        1 <= scale <= SCALE_LIMIT,
        -POS_LIMIT <= px <= POS_LIMIT,
        -POS_LIMIT <= py <= POS_LIMIT,
        points_in_range(path@),
    ensures
        exists|ci: int|
            is_closest_index(path@, px as int, py as int, scale as int, ci) && t == (if ci + 1
                < path@.len() {
                path@[ci + 1]
            } else {
                path@[path@.len() - 1]
            }),
{
    let ci = closest_waypoint_idx(path, px, py, scale);
    let t = if ci < path.len() - 1 {
        path[ci + 1]
    } else {
        path[path.len() - 1]
    };
    proof {
        assert(is_closest_index(path@, px as int, py as int, scale as int, ci as int) && t == (
        if ci as int + 1 < path@.len() {
            path@[ci as int + 1]
        } else {
            path@[path@.len() - 1]
        }));
    }
    t
}

/// The point of `points` closest to `(px, py)` (ties to the lowest
/// index), or `None` exactly when `points` is empty. Mirrors how an agent
/// picks the nearest gold bar to walk toward.
pub fn closest_point(points: &Vec<GridPoint>, px: i64, py: i64, scale: i64) -> (r: Option<
    GridPoint,
>)
    requires
        1 <= scale <= SCALE_LIMIT,
        -POS_LIMIT <= px <= POS_LIMIT,
        -POS_LIMIT <= py <= POS_LIMIT,
        points_in_range(points@),
    ensures
        match r {
            Some(c) => exists|i: int|
                is_closest_index(points@, px as int, py as int, scale as int, i) && c
                    == points@[i],
            None => points@.len() == 0,
        },
{
    if points.len() == 0 {
        return None;
    }
    let i = closest_waypoint_idx(points, px, py, scale);
    let c = points[i];
    proof {
        assert(is_closest_index(points@, px as int, py as int, scale as int, i as int) && c
            == points@[i as int]);
    }
    Some(c)
}

} // verus!
