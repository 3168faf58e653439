//! A toral-map image scrambler: repeatedly applies a discrete, integer-matrix
//! linear map with wrap-around (modulo) arithmetic to a pixel grid, moving
//! every pixel of a pass's source grid into a freshly allocated destination
//! grid.

pub mod engine;
pub mod grid;
pub mod laws;
pub mod mapper;
pub mod matrix;
