//! Latency ranking of game-world servers: resolves which worlds to probe,
//! reads the average round-trip time out of each probe's summary line, and
//! keeps the measurements in stable ascending order for progress and final
//! reports.

use vstd::prelude::*;

pub mod ranking;
pub mod summary;
pub mod pipeline;
pub mod worlds;
pub mod resolver;
pub mod text;

verus! {

} // verus!
