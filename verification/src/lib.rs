//! Jump-flooding approximation of a discrete Voronoi diagram over a 2-D grid:
//! each cell is assigned the (approximately) nearest seeded cell, which
//! downstream readouts turn into color bleed, UV maps, coverage masks, or
//! distance fields.

pub mod engine;
pub mod readout;
pub mod voronoi;
