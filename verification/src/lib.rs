//! A verified row-partitioned Roberts cross edge filter for rasters.
//!
//! Cell values are double-precision numbers carried as their 64-bit patterns;
//! every decision the filter takes about them (equality with the missing-data
//! marker, ordering, which neighbours enter a gradient) is made on those
//! patterns and proved. The gradient arithmetic itself is supplied by the
//! caller.
//!
//! - `sample`: numbers as bit patterns, their equality and order.
//! - `grid`: the raster, read without bounds errors and written row by row.
//! - `partition`: the split of the rows into one block per worker.
//! - `kernel`: the neighbourhood of a cell and the results of rows and blocks.
//! - `collector`: the single writer that assembles the output from row results.
//! - `pipeline`: the whole pass and the laws that make it independent of the
//!   number of workers and of the order in which results arrive.
//! - `percent` and `clip`: the clip amount and the clipping of the tails of
//!   the value distribution.
//! - `host`: the worker pool of the machine.
//! - `arguments`: the arguments of a run.

pub mod arguments;
pub mod clip;
pub mod collector;
pub mod grid;
pub mod host;
pub mod kernel;
pub mod partition;
pub mod percent;
pub mod pipeline;
pub mod sample;
