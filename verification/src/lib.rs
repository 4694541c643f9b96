//! Ranks candidate download mirrors by measured network latency.
//!
//! The library holds the decision logic of the benchmark: how a sequence of
//! timed probes against one mirror is aggregated into a latency estimate
//! (`latency`), and how the per-mirror estimates are filtered and ordered
//! into the final ranking (`rank`). The surrounding plumbing — issuing the
//! actual ranged requests and fanning the mirrors out over worker threads —
//! hands this library plain values and takes plain values back.

pub mod latency;
pub mod rank;
