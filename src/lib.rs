//! Core of a rotating tesseract wireframe: the edge lattice of a 4D grid,
//! matrix layout helpers, and the decisions of the frame loop.
pub mod frame;
pub mod lattice;
pub mod matrix;
