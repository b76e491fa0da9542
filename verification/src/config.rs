//! Pipeline configuration.
//!
//! The tunables of the pipeline are passed explicitly at construction:
//! frame length N, ring capacity C, tick period T and smoothing ratio
//! alpha.  Small values allow deterministic testing; `standard` holds the
//! production values.

use vstd::prelude::*;
use crate::fixed::UNIT;

verus! {

/// The configuration surface of one pipeline instance.
pub struct Config {
    /// Samples per frame (N).  Even, so impulses land on even indices and
    /// pan values on odd ones.
    pub frame_len: usize,
    /// Ring buffer capacity in samples (C), strictly larger than N.
    pub capacity: usize,
    /// Tick period in milliseconds (T).
    pub period_ms: u64,
    /// Smoothing ratio scaled by `UNIT` (alpha).
    pub alpha: i64,
}

impl Config {
    pub open spec fn wf(self) -> bool {
        &&& 2 <= self.frame_len <= 1_000_000
        &&& self.frame_len % 2 == 0
        &&& self.frame_len < self.capacity <= 0x7fff_ffff
        &&& 1 <= self.period_ms
        &&& 0 <= self.alpha <= UNIT
    }

    /// The production configuration: 960-sample frames at a 20 ms tick,
    /// a 2048-sample ring, and a smoothing ratio of 0.1.
    pub fn standard() -> (c: Config)
        ensures
            c.wf(),
            c.frame_len == 960,
            c.capacity == 2048,
            c.period_ms == 20,
            c.alpha == UNIT / 10,
    {
        Config { frame_len: 960, capacity: 2048, period_ms: 20, alpha: UNIT / 10 }
    }
}

} // verus!
