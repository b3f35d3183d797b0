//! Conway's Game of Life on a bounded square grid: the grid itself, the
//! population census, the generation step and the text encoding of live cells.

pub mod census;
pub mod codec;
pub mod grid;
pub mod patterns;
pub mod random;
pub mod text;
pub mod transition;
