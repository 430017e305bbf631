//! Three-dimensional recursive shadowcasting over a voxel grid.
//!
//! Views and occluder footprints are kept in slope space (transverse offset
//! divided by depth), scaled by a common denominator so that every bound is an
//! exact integer. The visibility pass is therefore exact: no rounding can
//! open or close a gap between occluders.
pub mod rect;
pub mod difference;
pub mod interval;
pub mod area;
pub mod grid;
pub mod geometry;
pub mod caster;
pub mod display;
