//! A two-dimensional array addressed by signed coordinates that grows in any
//! direction to cover new points or boxes, keeping every stored value.
pub mod vector;
pub mod util;
pub mod expandable_grid;
pub mod subchunk;
pub mod growth;

pub use expandable_grid::ExpandableGrid;
