//! Verified cores of a collection of generative-art sketches.
//!
//! Coordinates are integers on a grid whose resolution the caller chooses.
//! Tiles are cut on grid lines, so subdivision is exact throughout. Clipping
//! cuts segments in points that need not lie on the grid: it works on their
//! exact positions and rounds only the polygon that it hands out.
//!
//! - `hours_of_dark` clips a polygon against a rectangle; `clip_laws` proves
//!   what the clipped polygon has to do with the polygon and the rectangle,
//!   on the algebra of `between`; `clip_lines` proves that no crossing is
//!   skipped, and `clip_grid` that the tests on grid points agree with a
//!   pass.
//! - `piet_mondrian` cuts a rectangle into tiles at random and paints three
//!   of them; `tiling` says what a partition and a refinement are, and
//!   `subdivision_laws` proves that cutting refines and painting alters
//!   little.
//! - `interpolate` rounds a point of a grid segment to the grid, `point`
//!   holds the grid point, and `random` is the one place where the random
//!   source is called.

pub mod between;
pub mod clip_grid;
pub mod clip_laws;
pub mod clip_lines;
pub mod hours_of_dark;
pub mod interpolate;
pub mod piet_mondrian;
pub mod point;
pub mod random;
pub mod subdivision_laws;
pub mod tiling;
