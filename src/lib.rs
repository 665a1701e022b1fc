//! A greedy polyomino tiler: shapes are placed one at a time on an unbounded
//! integer plane, each placement chosen among those that touch the current
//! frontier and scored by how well the covered cells fit the growing region.

pub mod tile;
pub mod shape;
pub mod bag;
pub mod board;
pub mod scoring;
pub mod ui;
