//! Rivers, lakes and terrain from a grid of heights.
//!
//! Water is followed from every cell to the lowest cell within reach
//! ([`flow`]), gathered along the way ([`river`]), dammed up where it finds no
//! way out ([`flood`], [`lake`]), and the terrain is grown back from the water
//! outward ([`water_terrain`]). All values are whole numbers, so that every
//! result is the same on every machine.
//!
//! Heights, lake surfaces and terrain are measured in units of [`grid::ONE`].
//! River volumes come in two measures: [`river::create_flow_map`] and
//! [`river::create_volume_map`] return counts of cells, and
//! [`water_terrain::create_heightmap`] reads volumes in units of
//! [`grid::ONE`]. Whoever hands the one to the other multiplies by
//! [`grid::ONE`], or the slopes come out as for volumes that many times smaller.

pub mod draw;
pub mod flood;
pub mod flow;
pub mod geometry;
pub mod grid;
pub mod lake;
pub mod obj;
pub mod queue;
pub mod river;
pub mod sums;
pub mod water_terrain;
