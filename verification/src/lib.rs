//! A registry of puzzle solvers keyed by year and day, with the terminal
//! rendering (styles, grids, braille bitmaps) their results are shown with.
pub mod get;
pub mod solution;
pub mod solve;
pub mod util;
pub mod y2025;
