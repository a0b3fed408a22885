//! Production of a pyramid of Web-Mercator raster tiles from point clouds:
//! what is decided without floating point and without touching a file.
//!
//! - [`tile`]: tile addresses and the geometry on them.
//! - [`job`]: the units of work.
//! - [`progress`]: the tracker that lists an overview job exactly when the
//!   sixteen tiles it is built from are finished.
//! - [`grid`]: cutting the raster of a unit tile into output tiles and
//!   putting children together for an overview.
//! - [`cache`]: the bounded cache of recently produced grids.
//! - [`payload`]: the stored form of a tile.
//! - [`store`]: keys, metadata and insert outcomes of the tile container.
//! - [`options`]: the settings of a run.
//! - [`shadings`], [`text`]: the text form of shadings and colours.
//! - [`server`]: what a tile server decides from its arguments.

pub mod cache;
pub mod grid;
pub mod job;
pub mod options;
pub mod payload;
pub mod progress;
pub mod server;
pub mod shadings;
pub mod store;
pub mod text;
pub mod tile;
