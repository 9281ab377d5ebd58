//! Verified core of a particle-fluid playground: texture atlas packing, image
//! helpers, the distance field that steers particles around objects, GPU
//! dispatch schedules and the decision logic of the event loop.
use vstd::prelude::*;

pub mod batches;
pub mod buffers;
pub mod distance;
pub mod envelope;
pub mod events;
pub mod pixels;
pub mod schedule;
pub mod shader;
pub mod storage;
pub mod surface;
pub mod textures;

verus! {

} // verus!
