//! Obstacle-aware grid pathing for a ship-hold defense game.
//!
//! The library models a bounded occupancy grid, computes shortest paths
//! between grid cells by breadth-first search, snapshots dynamic obstacle
//! sets into fresh grids (including the ship's back bulkhead with a single
//! exit gap), and decides whether a proposed obstacle placement would sever
//! the route between the boat and the hold.

pub mod builder;
pub mod direction;
pub mod grid;
pub mod legality;
pub mod modifier;
pub mod pathfinder;
pub mod paths;
pub mod waypoint;

use vstd::prelude::*;

verus! {

/// Width of the pathing grid's interior, in cells.
pub const GRID_WIDTH: usize = 29;

/// Height of the pathing grid, in cells.
pub const GRID_HEIGHT: usize = 11;

} // verus!
