//! Tile binning for Gaussian-splat rasterization.
//!
//! A render call projects every splat to the screen, counts the tiles each
//! one touches, scans those counts into write offsets, emits one
//! `(tile, depth)` record per overlap, sorts the records, and finally cuts the
//! sorted array into one contiguous range per tile. This crate holds the
//! integer half of that pipeline, with every stage proved against a
//! mathematical description of its result.
//!
//! - [`entry`] checks the inputs of a render call, sizes its buffers, and
//!   says which gradients a backward pass registers.
//! - [`tiles`], [`scan`], [`intersect`], [`radix`] and [`bins`] are the
//!   stages; [`binning`] runs them in order.
//! - [`raster`] is the walk of a pixel through the bin of its tile.
//! - [`dispatch`] sizes compute dispatches and buffers.
//! - [`ply`], [`fields`] and [`sh`] serve the import of splats from PLY
//!   files, [`query`] reads the parameters of a start address, and [`order`]
//!   gives the sorting order of a slice.
//!
//! Blending and projection work in floating point and are left to the
//! caller; depths enter as integer keys that grow with the distance.
use vstd::prelude::*;

pub mod binning;
pub mod bins;
pub mod counting;
pub mod dispatch;
pub mod entry;
pub mod error;
pub mod fields;
pub mod intersect;
pub mod order;
pub mod ply;
pub mod query;
pub mod radix;
pub mod raster;
pub mod scan;
pub mod sh;
pub mod tiles;

verus! {

/// Edge length of a screen tile, in pixels.
pub const TILE_WIDTH: u32 = 16;

} // verus!
