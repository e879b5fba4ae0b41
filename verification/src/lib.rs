//! A randomly grown, edge-connected shape on the integer grid.
//!
//! Starting from the origin cell, the shape grows one cell at a time:
//! each step picks a random cell from the frontier (the unoccupied cells
//! adjacent to the shape) and annexes it. The finished shape can be
//! rendered as a block-character image sized by its bounding box.

pub mod connect;
pub mod engine;
pub mod frontier;
pub mod group;
pub mod render;
pub mod square;

pub use engine::{add_random, grow, grow_with_choices};
pub use group::Group;
pub use square::Square;
