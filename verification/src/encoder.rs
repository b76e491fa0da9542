//! The signal encoder: one metrics snapshot in, one set of named
//! audio-rate channel frames out.
//!
//! Continuous metrics (CPU, memory) are exponentially smoothed; their
//! channels interpolate sample-by-sample from the previous smoothed level
//! to the new one so frame boundaries stay click-free.  Event counts
//! (packets, process churn) become sparse impulse trains at random even
//! positions, clamped to half the frame; process events also carry a
//! deterministic pan value in the samples after each impulse.

use vstd::prelude::*;
use crate::config::Config;
use crate::fixed::UNIT;
use crate::fixed::smooth_spec;
use crate::fixed::smooth_level;
use crate::fixed::lerp_spec;
use crate::fixed::lemma_lerp_in_range;
use crate::fixed::pan_spec;
use crate::fixed::pan_of_id;
use crate::frames::sum_of;
use crate::frames::nonzero_count;
use crate::frames::clamped_events;
use crate::frames::impulse_frame;
use crate::frames::zero_frame;
use crate::frames::filled_frame;
use crate::frames::lemma_sum_update;
use crate::frames::lemma_nonzero_update;
use crate::frames::lemma_entry_le_sum;

verus! {

/// A reading is either absent (the source failed or returned a value
/// that is not a normal finite number) or a level in `[0, UNIT]`.
pub open spec fn valid_reading(r: Option<i64>) -> bool {
    match r {
        Some(v) => 0 <= v <= UNIT,
        None => true,
    }
}

/// The smoothed level after one tick: an absent reading leaves the level
/// unchanged; a present one is folded in with weight `alpha`.
pub open spec fn next_level(cur: int, reading: Option<i64>, alpha: int) -> int {
    match reading {
        Some(v) => smooth_spec(cur, v as int, alpha),
        None => cur,
    }
}

/// Place up to `num` unit impulses at random even positions of a fresh
/// frame, accumulating on collision.  At most half the frame ever holds
/// impulses, so the count is clamped and no position is out of range.
pub fn mount_positive_samples_in_buffer(cfg: &Config, num: u64) -> (buf: Vec<i64>)
    requires
        cfg.wf(),
    ensures
        impulse_frame(buf@, cfg.frame_len as int, clamped_events(num as int, cfg.frame_len as int)),
{
    let n = cfg.frame_len;
    let half = n / 2;
    let mut buf = zero_frame(n);
    let k: usize = if num >= half as u64 { half } else { num as usize };
    let mut j: usize = 0;
    while j < k
        invariant
            j <= k,
            k <= half,
            half == n / 2,
            2 <= n <= 1_000_000,
            buf@.len() == n,
            forall|i: int| 0 <= i < n && i % 2 == 1 ==> #[trigger] buf@[i] == 0,
            forall|i: int| 0 <= i < n ==> 0 <= #[trigger] buf@[i],
            forall|i: int| 0 <= i < n ==> #[trigger] buf@[i] % UNIT == 0,
            sum_of(buf@) == j * UNIT,
            nonzero_count(buf@) <= j,
        decreases k - j,
    {
        let r = rand::random::<u64>();
        let pos = (r % (half as u64)) as usize;
        let idx = pos * 2;
        let cur = buf[idx];
        proof {
            lemma_entry_le_sum(buf@, idx as int);
        }
        let newval = cur + UNIT;
        let ghost prev = buf@;
        buf.set(idx, newval);
        proof {
            lemma_sum_update(prev, idx as int, newval);
            lemma_nonzero_update(prev, idx as int, newval);
            assert(newval % UNIT == 0);
        }
        j = j + 1;
    }
    buf
}

/// The CPU channel of one tick.  A valid reading is folded into the
/// smoothed level; the emitted frame interpolates linearly from the old
/// level to the new one across the frame, so there is no step at the
/// frame boundary.  An absent reading leaves the level unchanged but
/// still emits the (flat) interpolation toward it.
pub fn cpu_buf(cfg: &Config, cpu_usage_smooth: &mut i64, reading: Option<i64>) -> (buf: Vec<i64>)
    requires
        cfg.wf(),
        0 <= *old(cpu_usage_smooth) <= UNIT,
        valid_reading(reading),
    ensures
        0 <= *final(cpu_usage_smooth) <= UNIT,
        *final(cpu_usage_smooth) == next_level(*old(cpu_usage_smooth) as int, reading, cfg.alpha as int),
        buf@.len() == cfg.frame_len,
        forall|i: int| 0 <= i < cfg.frame_len ==> #[trigger] buf@[i] == lerp_spec(
            *old(cpu_usage_smooth) as int,
            *final(cpu_usage_smooth) as int,
            i,
            cfg.frame_len as int,
        ),
        forall|i: int| 0 <= i < cfg.frame_len ==> 0 <= #[trigger] buf@[i] <= UNIT,
{
    let old_s = *cpu_usage_smooth;
    match reading {
        Some(v) => {
            *cpu_usage_smooth = smooth_level(old_s, v, cfg.alpha);
        },
        None => {},
    }
    lerp_frame(cfg, old_s, *cpu_usage_smooth)
}

/// The memory channel of one tick: the smoothed level is updated the
/// same way as the CPU level, and the emitted frame interpolates
/// linearly from the old level to the new one, exactly as the CPU
/// channel does, so frame boundaries stay click-free.
pub fn mem_buf(cfg: &Config, mem_usage_smooth: &mut i64, reading: Option<i64>) -> (buf: Vec<i64>)
    requires
        cfg.wf(),
        0 <= *old(mem_usage_smooth) <= UNIT,
        valid_reading(reading),
    ensures
        0 <= *final(mem_usage_smooth) <= UNIT,
        *final(mem_usage_smooth) == next_level(*old(mem_usage_smooth) as int, reading, cfg.alpha as int),
        buf@.len() == cfg.frame_len,
        forall|i: int| 0 <= i < cfg.frame_len ==> #[trigger] buf@[i] == lerp_spec(
            *old(mem_usage_smooth) as int,
            *final(mem_usage_smooth) as int,
            i,
            cfg.frame_len as int,
        ),
        forall|i: int| 0 <= i < cfg.frame_len ==> 0 <= #[trigger] buf@[i] <= UNIT,
{
    let old_s = *mem_usage_smooth;
    match reading {
        Some(v) => {
            *mem_usage_smooth = smooth_level(old_s, v, cfg.alpha);
        },
        None => {},
    }
    lerp_frame(cfg, old_s, *mem_usage_smooth)
}

fn lerp_frame(cfg: &Config, a: i64, b: i64) -> (buf: Vec<i64>)
    requires
        cfg.wf(),
        0 <= a <= UNIT,
        0 <= b <= UNIT,
    ensures
        buf@.len() == cfg.frame_len,
        forall|i: int| 0 <= i < cfg.frame_len ==> #[trigger] buf@[i]
            == lerp_spec(a as int, b as int, i, cfg.frame_len as int),
        forall|i: int| 0 <= i < cfg.frame_len ==> 0 <= #[trigger] buf@[i] <= UNIT,
{
    let n = cfg.frame_len;
    let mut buf: Vec<i64> = Vec::new();
    let mut i: usize = 0;
    while i < n
        invariant
            i <= n,
            2 <= n <= 1_000_000,
            0 <= a <= UNIT,
            0 <= b <= UNIT,
            buf@.len() == i,
            forall|t: int| 0 <= t < i ==> #[trigger] buf@[t]
                == lerp_spec(a as int, b as int, t, n as int),
            forall|t: int| 0 <= t < i ==> 0 <= #[trigger] buf@[t] <= UNIT,
        decreases n - i,
    {
        assert(0 <= a * ((n - i) as i64) <= 1_000_000_000_000) by (nonlinear_arith)
            requires 0 <= a <= 1_000_000, 0 <= (n - i) as i64 <= 1_000_000;
        let lo: i64 = a * ((n - i) as i64);
        assert(0 <= b * (i as i64) <= 1_000_000_000_000) by (nonlinear_arith)
            requires 0 <= b <= 1_000_000, 0 <= i as i64 <= 1_000_000;
        let hi: i64 = b * (i as i64);
        let sample = (lo + hi) / (n as i64);
        proof {
            lemma_lerp_in_range(a as int, b as int, i as int, n as int);
        }
        buf.push(sample);
        i = i + 1;
    }
    buf
}

/// The two packet channels of one tick: one impulse train for received
/// packets and one for transmitted packets.
pub fn packet_buf(cfg: &Config, packets_in: u64, packets_out: u64) -> (r: (Vec<i64>, Vec<i64>))
    requires
        cfg.wf(),
    ensures
        impulse_frame(r.0@, cfg.frame_len as int, clamped_events(packets_in as int, cfg.frame_len as int)),
        impulse_frame(r.1@, cfg.frame_len as int, clamped_events(packets_out as int, cfg.frame_len as int)),
{
    (
        mount_positive_samples_in_buffer(cfg, packets_in),
        mount_positive_samples_in_buffer(cfg, packets_out),
    )
}

/// The identifiers in `a` that do not occur in `b`, in the order of `a`.
pub open spec fn diff_of(a: Seq<u64>, b: Seq<u64>) -> Seq<u64>
    decreases a.len(),
{
    if a.len() == 0 {
        Seq::<u64>::empty()
    } else if b.contains(a.last()) {
        diff_of(a.drop_last(), b)
    } else {
        diff_of(a.drop_last(), b).push(a.last())
    }
}

/// The diff holds exactly the identifiers of `a` missing from `b`: one
/// side of the symmetric difference of the two process sets.
pub proof fn lemma_diff_of_contains(a: Seq<u64>, b: Seq<u64>, x: u64)
    ensures
        diff_of(a, b).contains(x) <==> (a.contains(x) && !b.contains(x)),
    decreases a.len(),
{
    if a.len() == 0 {
        assert(!a.contains(x));
    } else {
        let ad = a.drop_last();
        let d = diff_of(ad, b);
        lemma_diff_of_contains(ad, b, x);
        assert(a.contains(x) <==> (ad.contains(x) || x == a.last())) by {
            if a.contains(x) {
                let i = choose|i: int| 0 <= i < a.len() && a[i] == x;
                if i < a.len() - 1 {
                    assert(ad[i] == x);
                }
            }
            if ad.contains(x) {
                let i = choose|i: int| 0 <= i < ad.len() && ad[i] == x;
                assert(a[i] == x);
            }
            assert(a[a.len() - 1] == a.last());
        };
        if !b.contains(a.last()) {
            assert(d.push(a.last()).contains(x) <==> (d.contains(x) || x == a.last())) by {
                if d.push(a.last()).contains(x) {
                    let i = choose|i: int| 0 <= i < d.push(a.last()).len() && d.push(a.last())[i] == x;
                    if i < d.len() {
                        assert(d[i] == x);
                    }
                }
                if d.contains(x) {
                    let i = choose|i: int| 0 <= i < d.len() && d[i] == x;
                    assert(d.push(a.last())[i] == x);
                }
                assert(d.push(a.last())[d.len() as int] == a.last());
            };
        }
    }
}

/// Whether `v` is the pan value of one of the identifiers.
#[verifier::opaque]
pub open spec fn pan_from(pids: Seq<u64>, v: i64) -> bool {
    exists|j: int| 0 <= j < pids.len() && v == pan_spec(pids[j])
}

/// What the pan channel of one tick looks like, relative to its impulse
/// channel: every sample is the pan value carried in from before the
/// tick or the pan value of one of the tick's events; a sample that
/// differs from the carried value stands strictly after an impulse, so
/// everything before the first impulse holds the carried value; the
/// sample directly after each impulse holds one event's pan value; and
/// with no events the whole frame holds the carried value.
pub open spec fn pan_channel_ok(pan: Seq<i64>, impulses: Seq<i64>, carried: i64, events: Seq<u64>, n: int) -> bool {
    &&& pan.len() == n
    &&& impulses.len() == n
    &&& forall|i: int| 0 <= i < pan.len() ==> -UNIT <= #[trigger] pan[i] <= UNIT
    &&& forall|i: int| 0 <= i < pan.len() ==> #[trigger] pan[i] == carried || pan_from(events, pan[i])
    &&& forall|i: int| 0 <= i < pan.len() && #[trigger] pan[i] != carried
        ==> exists|j: int| 0 <= j < i && impulses[j] != 0
    &&& forall|i: int| 0 <= i < pan.len() - 1 && #[trigger] impulses[i] != 0
        ==> pan_from(events, pan[i + 1])
    &&& (events.len() == 0 ==> forall|i: int| 0 <= i < pan.len() ==> #[trigger] pan[i] == carried)
}

/// What the carried pan value looks like after one tick: always the last
/// sample of the tick's pan frame, so a pan region running to the frame
/// boundary continues unchanged into the next frame; it is the value
/// carried in or the pan value of one of the tick's events, and with no
/// events it is unchanged.
pub open spec fn carried_pan_ok(after: i64, before: i64, events: Seq<u64>, pan: Seq<i64>) -> bool {
    &&& -UNIT <= after <= UNIT
    &&& (after == before || pan_from(events, after))
    &&& (events.len() == 0 ==> after == before)
    &&& (pan.len() > 0 ==> after == pan[pan.len() - 1])
}

fn vec_contains(v: &Vec<u64>, x: u64) -> (b: bool)
    ensures
        b == v@.contains(x),
{
    let mut i: usize = 0;
    while i < v.len()
        invariant
            i <= v@.len(),
            forall|t: int| 0 <= t < i ==> #[trigger] v@[t] != x,
        decreases v@.len() - i,
    {
        if v[i] == x {
            proof {
                assert(v@[i as int] == x);
            }
            return true;
        }
        i = i + 1;
    }
    false
}

fn filter_not_in(a: &Vec<u64>, b: &Vec<u64>) -> (out: Vec<u64>)
    ensures
        out@ == diff_of(a@, b@),
{
    let mut out: Vec<u64> = Vec::new();
    let mut i: usize = 0;
    while i < a.len()
        invariant
            i <= a@.len(),
            out@ == diff_of(a@.take(i as int), b@),
        decreases a@.len() - i,
    {
        let x = a[i];
        proof {
            assert(a@.take(i + 1).drop_last() =~= a@.take(i as int));
            assert(a@.take(i + 1).last() == a@[i as int]);
        }
        if !vec_contains(b, x) {
            out.push(x);
        }
        i = i + 1;
    }
    proof {
        assert(a@.take(a@.len() as int) =~= a@);
    }
    out
}

/// The symmetric difference of the previous and current process-id sets:
/// the identifiers that appeared since the last tick, and those that
/// disappeared, in the order of the sequence they come from.
pub fn pid_diff(prev: &Vec<u64>, curr: &Vec<u64>) -> (r: (Vec<u64>, Vec<u64>))
    ensures
        r.0@ == diff_of(curr@, prev@),
        r.1@ == diff_of(prev@, curr@),
{
    (filter_not_in(curr, prev), filter_not_in(prev, curr))
}

/// The impulse and pan channels for one class of process events.  Each
/// event places a unit impulse at a random even position; the event's
/// deterministic pan value then fills the following samples until the
/// next impulse or the frame end, and a fill that runs to the frame end
/// carries the pan value over into `prev_pan` for the next tick.
#[verifier::rlimit(100)]
pub fn mount_processes_in_buffer(cfg: &Config, set: &Vec<u64>, prev_pan: &mut i64) -> (r: (Vec<i64>, Vec<i64>))
    requires
        cfg.wf(),
        -UNIT <= *old(prev_pan) <= UNIT,
    ensures
        impulse_frame(r.0@, cfg.frame_len as int, clamped_events(set@.len() as int, cfg.frame_len as int)),
        pan_channel_ok(r.1@, r.0@, *old(prev_pan), set@, cfg.frame_len as int),
        carried_pan_ok(*final(prev_pan), *old(prev_pan), set@, r.1@),
{
    let n = cfg.frame_len;
    let half = n / 2;
    let mut samples = zero_frame(n);
    let mut panning = filled_frame(n, *prev_pan);
    let ghost old_pan = *old(prev_pan);
    let total = set.len();
    let k: usize = if total >= half { half } else { total };
    let mut t: usize = 0;
    while t < k
        invariant
            t <= k,
            k <= half,
            k <= set@.len(),
            half == n / 2,
            2 <= n <= 1_000_000,
            samples@.len() == n,
            forall|i: int| 0 <= i < n && i % 2 == 1 ==> #[trigger] samples@[i] == 0,
            forall|i: int| 0 <= i < n ==> 0 <= #[trigger] samples@[i],
            forall|i: int| 0 <= i < n ==> #[trigger] samples@[i] % UNIT == 0,
            sum_of(samples@) == t * UNIT,
            nonzero_count(samples@) <= t,
            panning@.len() == n,
            forall|i: int| 0 <= i < n ==> -UNIT <= #[trigger] panning@[i] <= UNIT,
            forall|i: int| 0 <= i < n ==> #[trigger] panning@[i] == old_pan || pan_from(set@, panning@[i]),
            forall|i: int| 0 <= i < n && #[trigger] panning@[i] != old_pan
                ==> exists|j: int| 0 <= j < i && samples@[j] != 0,
            forall|i: int| 0 <= i < n - 1 && #[trigger] samples@[i] != 0
                ==> pan_from(set@, panning@[i + 1]),
            *prev_pan == panning@[n - 1],
            -UNIT <= *prev_pan <= UNIT,
            *prev_pan == old_pan || pan_from(set@, *prev_pan),
            -UNIT <= old_pan <= UNIT,
        decreases k - t,
    {
        let rnd = rand::random::<u64>();
        let pos = (rnd % (half as u64)) as usize;
        let idx = pos * 2;
        let cur = samples[idx];
        proof {
            lemma_entry_le_sum(samples@, idx as int);
        }
        let newval = cur + UNIT;
        let ghost prevs = samples@;
        samples.set(idx, newval);
        proof {
            lemma_sum_update(prevs, idx as int, newval);
            lemma_nonzero_update(prevs, idx as int, newval);
            assert(newval % UNIT == 0);
            // the impulse only grew, so earlier impulse witnesses stay valid
            assert forall|i: int| 0 <= i < n && #[trigger] panning@[i] != old_pan
                implies exists|j: int| 0 <= j < i && samples@[j] != 0 by {
                let j = choose|j: int| 0 <= j < i && prevs[j] != 0;
                assert(samples@[j] != 0);
            };
            assert forall|i: int| 0 <= i < n - 1 && #[trigger] samples@[i] != 0 && i != idx
                implies pan_from(set@, panning@[i + 1]) by {
                assert(samples@[i] == prevs[i]);
            };
        }
        let pan = pan_of_id(set[t]);
        proof {
            assert(pan_from(set@, pan)) by {
                reveal(pan_from);
                assert((t as int) < set@.len() && pan == pan_spec(set@[t as int]));
            };
        }
        let mut f: usize = idx + 1;
        while f < n && samples[f] == 0
            invariant
                idx + 1 <= f <= n,
                idx + 2 <= n,
                idx % 2 == 0,
                n == samples@.len(),
                n == panning@.len(),
                2 <= n,
                -UNIT <= pan <= UNIT,
                pan_from(set@, pan),
                samples@[idx as int] != 0,
                forall|i: int| 0 <= i < n && i % 2 == 1 ==> #[trigger] samples@[i] == 0,
                forall|i: int| 0 <= i < n ==> -UNIT <= #[trigger] panning@[i] <= UNIT,
                forall|i: int| 0 <= i < n ==> #[trigger] panning@[i] == old_pan || pan_from(set@, panning@[i]),
                forall|i: int| 0 <= i < n && #[trigger] panning@[i] != old_pan
                    ==> exists|j: int| 0 <= j < i && samples@[j] != 0,
                forall|i: int| 0 <= i < n - 1 && #[trigger] samples@[i] != 0 && i != idx
                    ==> pan_from(set@, panning@[i + 1]),
                f > idx + 1 ==> pan_from(set@, panning@[idx + 1]),
                f < n ==> panning@[n - 1] == *prev_pan,
                f == n ==> panning@[n - 1] == pan,
            decreases n - f,
        {
            let ghost prevp = panning@;
            panning.set(f, pan);
            proof {
                assert forall|i: int| 0 <= i < n && #[trigger] panning@[i] != old_pan
                    implies exists|j: int| 0 <= j < i && samples@[j] != 0 by {
                    if i == f as int {
                        assert(idx < i);
                        assert(samples@[idx as int] != 0);
                    } else {
                        assert(panning@[i] == prevp[i]);
                    }
                };
            }
            f = f + 1;
        }
        proof {
            // the fill wrote at least the sample after the impulse: the
            // index after an even impulse is odd, so it held no impulse
            if f < n {
                assert(samples@[f as int] != 0);
            }
            assert(f >= idx + 2);
            assert(pan_from(set@, panning@[idx + 1]));
            assert forall|i: int| 0 <= i < n - 1 && #[trigger] samples@[i] != 0
                implies pan_from(set@, panning@[i + 1]) by {
                if i == idx {
                    assert(pan_from(set@, panning@[idx + 1]));
                }
            };
        }
        if f == n {
            *prev_pan = pan;
        }
        t = t + 1;
    }
    proof {
        // with no events nothing is the pan of an event, so the whole
        // frame and the carried value keep the pan carried in
        if set@.len() == 0 {
            reveal(pan_from);
            assert forall|i: int| 0 <= i < n implies #[trigger] panning@[i] == old_pan by {
                assert(!pan_from(set@, panning@[i]));
            };
            assert(*prev_pan == old_pan);
        }
    }
    (samples, panning)
}

/// One point-in-time reading of the metrics source, taken each tick.
/// Continuous levels are fixed-point fractions of `UNIT`; an absent level
/// stands for a reading that failed or was not a normal finite number.
pub struct MetricSnapshot {
    /// CPU utilization in `[0, UNIT]`, if it could be read.
    pub cpu: Option<i64>,
    /// Memory utilization in `[0, UNIT]`, if it could be read.
    pub mem: Option<i64>,
    /// Packets received since the previous tick, over all interfaces.
    pub packets_in: u64,
    /// Packets transmitted since the previous tick, over all interfaces.
    pub packets_out: u64,
    /// The identifiers of the processes alive at this tick.
    pub pids: Vec<u64>,
}

impl MetricSnapshot {
    pub open spec fn wf(self) -> bool {
        &&& valid_reading(self.cpu)
        &&& valid_reading(self.mem)
    }
}

/// The encoder's long-lived state: the smoothed levels, the previous
/// tick's process-id set, and the pan value carried per event class.
pub struct EncoderState {
    /// Smoothed CPU level in `[0, UNIT]`.
    pub cpu_smooth: i64,
    /// Smoothed memory level in `[0, UNIT]`.
    pub mem_smooth: i64,
    /// Pan value carried across frames for spawned-process events.
    pub pan_spawned: i64,
    /// Pan value carried across frames for dropped-process events.
    pub pan_dropped: i64,
    /// The process-id set of the previous tick.
    pub prev_pids: Vec<u64>,
}

impl EncoderState {
    pub open spec fn wf(self) -> bool {
        &&& 0 <= self.cpu_smooth <= UNIT
        &&& 0 <= self.mem_smooth <= UNIT
        &&& -UNIT <= self.pan_spawned <= UNIT
        &&& -UNIT <= self.pan_dropped <= UNIT
    }

    /// The state at pipeline start: levels and pans at zero, no
    /// processes seen yet.
    pub fn new() -> (s: EncoderState)
        ensures
            s.wf(),
            s.cpu_smooth == 0,
            s.mem_smooth == 0,
            s.pan_spawned == 0,
            s.pan_dropped == 0,
            s.prev_pids@ == Seq::<u64>::empty(),
    {
        let s = EncoderState {
            cpu_smooth: 0,
            mem_smooth: 0,
            pan_spawned: 0,
            pan_dropped: 0,
            prev_pids: Vec::new(),
        };
        proof {
            assert(s.prev_pids@ =~= Seq::<u64>::empty());
        }
        s
    }
}

/// The named channel frames of one tick, each of length N, in the fixed
/// order the downstream transform expects.
pub struct Channels {
    pub cpu: Vec<i64>,
    pub mem: Vec<i64>,
    pub packets_in: Vec<i64>,
    pub packets_out: Vec<i64>,
    pub spawned: Vec<i64>,
    pub spawned_pan: Vec<i64>,
    pub dropped: Vec<i64>,
    pub dropped_pan: Vec<i64>,
}

fn copy_pids(v: &Vec<u64>) -> (out: Vec<u64>)
    ensures
        out@ == v@,
{
    let mut out: Vec<u64> = Vec::new();
    let mut i: usize = 0;
    while i < v.len()
        invariant
            i <= v@.len(),
            out@ == v@.take(i as int),
        decreases v@.len() - i,
    {
        out.push(v[i]);
        proof {
            assert(v@.take(i + 1) =~= v@.take(i as int).push(v@[i as int]));
        }
        i = i + 1;
    }
    proof {
        assert(v@.take(v@.len() as int) =~= v@);
    }
    out
}

/// The four process channels of one tick.  The current process-id set is
/// diffed against the previous tick's set; the spawned and dropped sets
/// each produce an impulse channel and a pan channel, and the current set
/// replaces the remembered one.
pub fn process_buf(cfg: &Config, state: &mut EncoderState, curr_pids: &Vec<u64>) -> (r: (Vec<i64>, Vec<i64>, Vec<i64>, Vec<i64>))
    requires
        cfg.wf(),
        old(state).wf(),
    ensures
        final(state).wf(),
        final(state).cpu_smooth == old(state).cpu_smooth,
        final(state).mem_smooth == old(state).mem_smooth,
        final(state).prev_pids@ == curr_pids@,
        impulse_frame(r.0@, cfg.frame_len as int, clamped_events(
            diff_of(curr_pids@, old(state).prev_pids@).len() as int, cfg.frame_len as int)),
        pan_channel_ok(r.1@, r.0@, old(state).pan_spawned,
            diff_of(curr_pids@, old(state).prev_pids@), cfg.frame_len as int),
        carried_pan_ok(final(state).pan_spawned, old(state).pan_spawned,
            diff_of(curr_pids@, old(state).prev_pids@), r.1@),
        impulse_frame(r.2@, cfg.frame_len as int, clamped_events(
            diff_of(old(state).prev_pids@, curr_pids@).len() as int, cfg.frame_len as int)),
        pan_channel_ok(r.3@, r.2@, old(state).pan_dropped,
            diff_of(old(state).prev_pids@, curr_pids@), cfg.frame_len as int),
        carried_pan_ok(final(state).pan_dropped, old(state).pan_dropped,
            diff_of(old(state).prev_pids@, curr_pids@), r.3@),
{
    let (spawned, dropped) = pid_diff(&state.prev_pids, curr_pids);
    let (pos_buf, pos_pan) = mount_processes_in_buffer(cfg, &spawned, &mut state.pan_spawned);
    let (neg_buf, neg_pan) = mount_processes_in_buffer(cfg, &dropped, &mut state.pan_dropped);
    state.prev_pids = copy_pids(curr_pids);
    (pos_buf, pos_pan, neg_buf, neg_pan)
}

/// One full encoding step: fold the snapshot into the state and emit the
/// eight named channel frames of this tick.
pub fn encode(cfg: &Config, state: &mut EncoderState, snap: &MetricSnapshot) -> (out: Channels)
    requires
        cfg.wf(),
        old(state).wf(),
        snap.wf(),
    ensures
        final(state).wf(),
        final(state).cpu_smooth
            == next_level(old(state).cpu_smooth as int, snap.cpu, cfg.alpha as int),
        final(state).mem_smooth
            == next_level(old(state).mem_smooth as int, snap.mem, cfg.alpha as int),
        final(state).prev_pids@ == snap.pids@,
        out.cpu@.len() == cfg.frame_len,
        forall|i: int| 0 <= i < cfg.frame_len ==> #[trigger] out.cpu@[i] == lerp_spec(
            old(state).cpu_smooth as int,
            final(state).cpu_smooth as int,
            i,
            cfg.frame_len as int,
        ),
        forall|i: int| 0 <= i < cfg.frame_len ==> 0 <= #[trigger] out.cpu@[i] <= UNIT,
        out.mem@.len() == cfg.frame_len,
        forall|i: int| 0 <= i < cfg.frame_len ==> #[trigger] out.mem@[i] == lerp_spec(
            old(state).mem_smooth as int,
            final(state).mem_smooth as int,
            i,
            cfg.frame_len as int,
        ),
        forall|i: int| 0 <= i < cfg.frame_len ==> 0 <= #[trigger] out.mem@[i] <= UNIT,
        impulse_frame(out.packets_in@, cfg.frame_len as int,
            clamped_events(snap.packets_in as int, cfg.frame_len as int)),
        impulse_frame(out.packets_out@, cfg.frame_len as int,
            clamped_events(snap.packets_out as int, cfg.frame_len as int)),
        impulse_frame(out.spawned@, cfg.frame_len as int, clamped_events(
            diff_of(snap.pids@, old(state).prev_pids@).len() as int, cfg.frame_len as int)),
        pan_channel_ok(out.spawned_pan@, out.spawned@, old(state).pan_spawned,
            diff_of(snap.pids@, old(state).prev_pids@), cfg.frame_len as int),
        carried_pan_ok(final(state).pan_spawned, old(state).pan_spawned,
            diff_of(snap.pids@, old(state).prev_pids@), out.spawned_pan@),
        impulse_frame(out.dropped@, cfg.frame_len as int, clamped_events(
            diff_of(old(state).prev_pids@, snap.pids@).len() as int, cfg.frame_len as int)),
        pan_channel_ok(out.dropped_pan@, out.dropped@, old(state).pan_dropped,
            diff_of(old(state).prev_pids@, snap.pids@), cfg.frame_len as int),
        carried_pan_ok(final(state).pan_dropped, old(state).pan_dropped,
            diff_of(old(state).prev_pids@, snap.pids@), out.dropped_pan@),
{
    let cpu = cpu_buf(cfg, &mut state.cpu_smooth, snap.cpu);
    let mem = mem_buf(cfg, &mut state.mem_smooth, snap.mem);
    let (packets_in, packets_out) = packet_buf(cfg, snap.packets_in, snap.packets_out);
    let (spawned, spawned_pan, dropped, dropped_pan) = process_buf(cfg, state, &snap.pids);
    Channels { cpu, mem, packets_in, packets_out, spawned, spawned_pan, dropped, dropped_pan }
}

} // verus!
