//! Slicing engine for resin printing: turns a triangle mesh into one filled
//! raster per cutting plane, and flags mesh vertices that need support.
//!
//! All geometry is carried out on an integer grid whose cell is the library's
//! tolerance, so that every function is exact and every result reproducible.

pub mod arith;
pub mod contour;
pub mod cpu_slicer;
pub mod error;
pub mod gpu_slicer;
pub mod grid;
pub mod intern;
pub mod intersect;
pub mod mesh;
pub mod mesh_island_analyzer;
pub mod quantize;
pub mod raster;
pub mod resin_slicer;
pub mod stl_processor;
