//! Streaming construction of Web Mercator tile pyramids from large rasters,
//! and the traversal of rasters in chunks that the raster tools share.
//!
//! - `tiling` places a raster on the world grid, resamples bands of it into
//!   rows of tiles with exact overlap areas, merges rows of tiles into the
//!   coarser zooms as they come, and encodes finished tiles.
//! - `grid` is the two-dimensional array that tiles are made of.
//! - `chunking` and `chunks` cut a raster into chunks of whole rows.
//! - `pyramid` and `volume` describe pyramids of halved rasters.
//! - `histogram` counts values per bin; `cli` counts progress.
//!
//! Positions, sizes and weights are whole numbers throughout.  Samples are
//! of a type that the caller chooses, and the arithmetic on them is handed
//! in as closures; what a function does with the samples is stated in terms
//! of what those closures promise.

pub mod chunking;
pub mod chunks;
pub mod cli;
pub mod grid;
pub mod histogram;
pub mod pyramid;
pub mod tiling;
pub mod utils;
pub mod volume;
