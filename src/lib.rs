//! Jump flooding: nearest-seed assignment and an approximate distance field
//! over a 2-D raster, computed in a bounded number of per-pixel passes.
//!
//! - `codec`: seed records packed into 8-bit channels.
//! - `raster`: the grid of pixel records and clamped sampling.
//! - `classify`: marks mask pixels above a threshold as seeds.
//! - `propagate`: jump flood passes with shrinking steps.
//! - `finalize`: colours each pixel by the distance to its nearest seed.
//! - `pipeline`: configuration checks and one full invocation.
//! - `laws`, `convergence`: properties of the whole computation.
use vstd::prelude::*;

pub mod codec;
pub mod raster;
pub mod classify;
pub mod propagate;
pub mod finalize;
pub mod pipeline;
pub mod laws;
pub mod convergence;

verus! {

} // verus!
