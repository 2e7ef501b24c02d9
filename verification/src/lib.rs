//! Shortest routes through a maze drawn as a raster image.
//!
//! A [`Grid`] holds the pixels of an image; a cell is open when its first
//! channel is brighter than [`THRESHOLD`]. [`find_path`] searches the open
//! cells for a shortest four-connected route between two positions, and
//! [`overlay`] paints a route back onto the pixels.

pub mod grid;
pub mod pos;
pub mod render;
pub mod search;
pub mod walk;

pub use grid::{Grid, GridView, Rgb, CHANNELS, STEP_COST, THRESHOLD};
pub use pos::{adjacent, manhattan, Pos};
pub use render::{highlight, overlay, render, solve, SolveError};
pub use search::{find_path, heuristic, reached, HEURISTIC_DIVISOR};
