//! Pathfinding over a tile map.
//!
//! - [`TileGrid`]: a `width × height` map of walkable and blocked cells.
//! - [`astar`]: a shortest 4-connected path between two cells.
//! - [`FlowField`]: one breadth-first search from a goal that every unit of a
//!   group move follows.
//!
//! The open set of the path search is ordered by `(f, g, cell)` and the flow
//! field's queue is first-in first-out over a fixed neighbour order, so both
//! are functions of the grid and the cells alone. The only cost measured is
//! the number of cells expanded.

pub mod astar;
pub mod flow;
pub mod grid;
pub mod open_set;
pub mod walks;

pub use astar::{astar, astar_counted};
pub use flow::FlowField;
pub use grid::TileGrid;
