//! Pipe-tile grid generation by constraint propagation.
//!
//! Every cell of a square grid starts out undetermined among all tile
//! orientations. The solver repeatedly fixes the least uncertain cell at
//! random and propagates the edge-connectivity constraints to its neighbours
//! until every cell is fixed or a contradiction turns up.

pub mod state;
pub mod domain;
pub mod random;
pub mod field;
