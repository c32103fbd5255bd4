//! A grid ray caster, the part of it that is integer arithmetic: a first
//! person view of a tile map is drawn column by column into an RGBA pixel
//! buffer.
//!
//! - [`map`]: the tile grid, in which everything outside the grid is solid.
//! - [`canvas`]: the pixel buffer and its drawing primitives, which ignore
//!   whatever falls outside the buffer.
//! - [`raycast`]: the walk of a ray from cell to cell until it meets a wall.
//! - [`render`]: the projection of the rays' hits to sky, wall band and floor.
//! - [`minimap`]: an overview of the map, laid over a corner of the frame.
//! - [`patterns`]: test pictures.
//!
//! The camera works in floating point and stays with the caller, who hands
//! over cells, the order in which a ray crosses the grid lines, and heights
//! in rows.

pub mod canvas;
pub mod map;
pub mod minimap;
pub mod patterns;
pub mod raycast;
pub mod render;
