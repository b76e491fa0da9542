//! The frame scheduler: the tick-driven producer's state machine and the
//! output boundary of each tick.
//!
//! The scheduler is driven by a fixed-period timer owned by the caller.
//! Its decisions — when a tick emits a frame, when the loop stops, and
//! how an overrun is counted — are plain functions here; the caller
//! performs the waiting, sampling and the opaque stereo transform, then
//! hands the transform's two output channels back to `finish_tick`, which
//! quantizes them and writes the stereo frame into the bridge.

use vstd::prelude::*;
use crate::bridge::RingBridge;
use crate::bridge::lefts_of;
use crate::bridge::rights_of;
use crate::bridge::ring_offer_all;
use crate::fixed::quantize_spec;
use crate::fixed::quantize_sample;

verus! {

/// The scheduler's mode.
#[derive(PartialEq, Eq, Structural, Clone, Copy, Debug)]
pub enum SchedulerMode {
    /// Created but not started: no frames are produced.
    Idle,
    /// Producing one frame per tick.
    Ticking,
    /// Stopped: no further frames are written, the bridge drains.
    ShuttingDown,
}

/// What the caller's loop observed since the last step.
#[derive(PartialEq, Eq, Structural, Clone, Copy, Debug)]
pub enum SchedulerEvent {
    /// The pipeline was started.
    Start,
    /// The tick timer elapsed.
    TickElapsed,
    /// A stop was requested.
    StopRequested,
}

/// The transition relation of the scheduler: the next mode, and whether
/// this step produces and emits one frame.
pub open spec fn step_spec(m: SchedulerMode, e: SchedulerEvent) -> (SchedulerMode, bool) {
    match (m, e) {
        (SchedulerMode::Idle, SchedulerEvent::Start) => (SchedulerMode::Ticking, false),
        (SchedulerMode::Ticking, SchedulerEvent::TickElapsed) => (SchedulerMode::Ticking, true),
        (SchedulerMode::Ticking, SchedulerEvent::StopRequested) => (SchedulerMode::ShuttingDown, false),
        _ => (m, false),
    }
}

/// One scheduler step.  A frame is emitted exactly on a timer tick in
/// the `Ticking` mode; a stop request ends production and nothing ever
/// leaves the `ShuttingDown` mode.
pub fn scheduler_step(m: SchedulerMode, e: SchedulerEvent) -> (r: (SchedulerMode, bool))
    ensures
        r == step_spec(m, e),
        m is ShuttingDown ==> r.0 is ShuttingDown && !r.1,
        r.1 ==> m is Ticking && r.0 is Ticking,
{
    match (m, e) {
        (SchedulerMode::Idle, SchedulerEvent::Start) => (SchedulerMode::Ticking, false),
        (SchedulerMode::Ticking, SchedulerEvent::TickElapsed) => (SchedulerMode::Ticking, true),
        (SchedulerMode::Ticking, SchedulerEvent::StopRequested) => (SchedulerMode::ShuttingDown, false),
        _ => (m, false),
    }
}

/// Tick accounting: how many ticks ran, and how many overran the period.
pub struct TickStats {
    pub ticks: u64,
    pub overruns: u64,
}

impl TickStats {
    /// No ticks yet.
    pub fn new() -> (s: TickStats)
        ensures
            s.ticks == 0,
            s.overruns == 0,
    {
        TickStats { ticks: 0, overruns: 0 }
    }

    /// Record one completed tick.  A tick whose processing exceeded the
    /// period is counted as an overrun, observable but never fatal.
    pub fn record_tick(&mut self, elapsed_ms: u64, period_ms: u64)
        requires
            old(self).ticks < u64::MAX,
            old(self).overruns < u64::MAX,
        ensures
            final(self).ticks == old(self).ticks + 1,
            final(self).overruns == old(self).overruns
                + (if elapsed_ms > period_ms { 1int } else { 0int }),
    {
        self.ticks = self.ticks + 1;
        if elapsed_ms > period_ms {
            self.overruns = self.overruns + 1;
        }
    }
}

/// The stereo frame obtained by quantizing two fixed-point channels
/// sample by sample.
pub open spec fn quantized_pairs(l: Seq<i64>, r: Seq<i64>) -> Seq<(i16, i16)> {
    Seq::new(l.len(), |i: int| (
        quantize_spec(l[i] as int) as i16,
        quantize_spec(r[i] as int) as i16,
    ))
}

/// Quantize the transform's two output channels into one stereo frame.
/// Rounding and clamping happen only here, at the output boundary.
pub fn quantize_stereo(left: &Vec<i64>, right: &Vec<i64>) -> (frame: Vec<(i16, i16)>)
    requires
        left@.len() == right@.len(),
    ensures
        frame@ == quantized_pairs(left@, right@),
        frame@.len() == left@.len(),
{
    let n = left.len();
    let mut frame: Vec<(i16, i16)> = Vec::new();
    let mut i: usize = 0;
    while i < n
        invariant
            i <= n,
            n == left@.len(),
            n == right@.len(),
            frame@.len() == i,
            forall|t: int| 0 <= t < i ==> #[trigger] frame@[t] == quantized_pairs(left@, right@)[t],
        decreases n - i,
    {
        let a = quantize_sample(left[i]);
        let b = quantize_sample(right[i]);
        frame.push((a, b));
        i = i + 1;
    }
    proof {
        assert(frame@ =~= quantized_pairs(left@, right@));
    }
    frame
}

/// Finish one tick: quantize the transform's stereo output and write the
/// frame into the bridge, overwriting the oldest samples if the consumer
/// is behind.
pub fn finish_tick(bridge: &mut RingBridge, left: &Vec<i64>, right: &Vec<i64>)
    requires
        old(bridge).wf(),
        left@.len() == right@.len(),
        old(bridge).total_written() + left@.len() <= u64::MAX,
    ensures
        final(bridge).wf(),
        final(bridge).cap() == old(bridge).cap(),
        final(bridge).policy() == old(bridge).policy(),
        final(bridge).total_written() == old(bridge).total_written() + left@.len(),
        final(bridge).left_view() == ring_offer_all(
            old(bridge).left_view(),
            old(bridge).cap(),
            lefts_of(quantized_pairs(left@, right@)),
            old(bridge).policy(),
        ),
        final(bridge).right_view() == ring_offer_all(
            old(bridge).right_view(),
            old(bridge).cap(),
            rights_of(quantized_pairs(left@, right@)),
            old(bridge).policy(),
        ),
        final(bridge).last_pair() == old(bridge).last_pair(),
{
    let frame = quantize_stereo(left, right);
    bridge.write_frame(&frame);
}

/// Interleave a stereo frame for a consumer that expects alternating
/// left and right samples.
pub fn interleave_stereo(frame: &Vec<(i16, i16)>) -> (out: Vec<i16>)
    requires
        frame@.len() <= 0x7fff_ffff,
    ensures
        out@.len() == 2 * frame@.len(),
        forall|i: int| 0 <= i < frame@.len() ==> #[trigger] out@[2 * i] == frame@[i].0
            && out@[2 * i + 1] == frame@[i].1,
{
    let n = frame.len();
    let mut out: Vec<i16> = Vec::new();
    let mut i: usize = 0;
    while i < n
        invariant
            i <= n,
            n == frame@.len(),
            n <= 0x7fff_ffff,
            out@.len() == 2 * i,
            forall|t: int| 0 <= t < i ==> #[trigger] out@[2 * t] == frame@[t].0
                && out@[2 * t + 1] == frame@[t].1,
        decreases n - i,
    {
        let p = frame[i];
        let ghost prev = out@;
        out.push(p.0);
        out.push(p.1);
        proof {
            assert forall|t: int| 0 <= t < i + 1 implies #[trigger] out@[2 * t] == frame@[t].0
                && out@[2 * t + 1] == frame@[t].1 by {
                if t < i {
                    assert(out@[2 * t] == prev[2 * t]);
                    assert(out@[2 * t + 1] == prev[2 * t + 1]);
                } else {
                    assert(out@[2 * t] == p.0);
                    assert(out@[2 * t + 1] == p.1);
                }
            };
        }
        i = i + 1;
    }
    out
}

} // verus!
