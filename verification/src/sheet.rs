//! Contact-sheet segmentation: ink masks, band projection, lattice cells,
//! connected clusters and text rows.

pub mod chroma;
pub mod cluster;
pub mod lattice;
pub mod reconcile;
pub mod cells;
pub mod textband;
pub mod grid;
pub mod color;
