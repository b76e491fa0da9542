//! The producer/consumer bridge: two ring buffers in lockstep.
//!
//! The tick-driven producer writes whole stereo frames; the pull-driven
//! consumer reads one sample pair per call, at its own pace.  Writing to a
//! full bridge follows an explicit overflow policy — by default the
//! oldest unread samples are overwritten; reading from an empty
//! bridge repeats the last pair handed out (silence before the first
//! read), so neither side ever waits for the other.  The synchronization
//! primitive that serializes the two sides lives with the caller; every
//! interleaving of the serialized operations keeps the two buffers
//! aligned, so a read never returns a torn pair.

use vstd::prelude::*;
use crate::fixed::UNIT;
use crate::fixed::from_q15_spec;
use crate::fixed::sample_from_q15;
use crate::fixed::lemma_from_q15_in_range;
use crate::ring::RingBuffer;
use crate::ring::all_within;
use crate::ring::ring_push;
use crate::ring::ring_push_all;
use crate::ring::ring_keep;
use crate::ring::ring_keep_all;
use crate::ring::lemma_ring_push_all_snoc;
use crate::ring::lemma_ring_push_within;
use crate::ring::lemma_ring_keep_all_snoc;
use crate::ring::lemma_ring_keep_within;

verus! {

/// The left samples of a stereo frame, widened to fixed point.
pub open spec fn lefts_of(f: Seq<(i16, i16)>) -> Seq<i64> {
    Seq::new(f.len(), |i: int| from_q15_spec(f[i].0 as int) as i64)
}

/// The right samples of a stereo frame, widened to fixed point.
pub open spec fn rights_of(f: Seq<(i16, i16)>) -> Seq<i64> {
    Seq::new(f.len(), |i: int| from_q15_spec(f[i].1 as int) as i64)
}

/// The pair a consumer sees on its `j`-th read after the producer last
/// wrote: the `j`-th buffered pair while the buffer lasts, then the final
/// buffered pair repeated, and the carried pair if nothing was buffered.
pub open spec fn drained_pair(l: Seq<i64>, r: Seq<i64>, last: (i64, i64), j: int) -> (i64, i64) {
    if j < l.len() {
        (l[j], r[j])
    } else if l.len() > 0 {
        (l[l.len() - 1], r[l.len() - 1])
    } else {
        last
    }
}

/// The pair most recently handed out after `k` reads.
pub open spec fn drained_last(l: Seq<i64>, r: Seq<i64>, last: (i64, i64), k: int) -> (i64, i64) {
    if k == 0 {
        last
    } else {
        drained_pair(l, r, last, k - 1)
    }
}

/// What a full bridge does with a new sample: overwrite the oldest
/// unread sample (default: the output stays fresh at the price of
/// staleness) or reject the new one (the backlog stays complete at the
/// price of freshness).
#[derive(PartialEq, Eq, Structural, Clone, Copy, Debug)]
pub enum OverflowPolicy {
    /// Drop the oldest unread sample to make room.
    OverwriteOldest,
    /// Drop the incoming sample.
    RejectNewest,
}

/// What one write does to one buffer under the given policy.
pub open spec fn ring_offer(s: Seq<i64>, cap: nat, x: i64, policy: OverflowPolicy) -> Seq<i64> {
    if policy is OverwriteOldest {
        ring_push(s, cap, x)
    } else {
        ring_keep(s, cap, x)
    }
}

/// What writing a whole sequence does under the given policy.
pub open spec fn ring_offer_all(s: Seq<i64>, cap: nat, xs: Seq<i64>, policy: OverflowPolicy) -> Seq<i64> {
    if policy is OverwriteOldest {
        ring_push_all(s, cap, xs)
    } else {
        ring_keep_all(s, cap, xs)
    }
}

/// One abstract step of the bridge under an arbitrary interleaving of the
/// producer and the consumer: `true` consumes the next frame from the
/// write queue, `false` performs one read.
pub open spec fn run_sched(
    l: Seq<i64>,
    r: Seq<i64>,
    cap: nat,
    sched: Seq<bool>,
    fl: Seq<Seq<i64>>,
    fr: Seq<Seq<i64>>,
    policy: OverflowPolicy,
) -> (Seq<i64>, Seq<i64>)
    decreases sched.len(),
{
    if sched.len() == 0 {
        (l, r)
    } else if sched[0] {
        if fl.len() > 0 && fr.len() > 0 {
            run_sched(
                ring_offer_all(l, cap, fl[0], policy),
                ring_offer_all(r, cap, fr[0], policy),
                cap,
                sched.skip(1),
                fl.skip(1),
                fr.skip(1),
                policy,
            )
        } else {
            run_sched(l, r, cap, sched.skip(1), fl, fr, policy)
        }
    } else {
        if l.len() > 0 && r.len() > 0 {
            run_sched(l.skip(1), r.skip(1), cap, sched.skip(1), fl, fr, policy)
        } else {
            run_sched(l, r, cap, sched.skip(1), fl, fr, policy)
        }
    }
}

/// Any interleaving of frame writes and single reads keeps the two
/// buffers the same length and within the capacity: the consumer can
/// never observe a torn pair, and the bridge never grows unbounded.
pub proof fn lemma_any_interleaving_stays_aligned(
    l: Seq<i64>,
    r: Seq<i64>,
    cap: nat,
    sched: Seq<bool>,
    fl: Seq<Seq<i64>>,
    fr: Seq<Seq<i64>>,
    policy: OverflowPolicy,
)
    requires
        cap >= 1,
        l.len() == r.len(),
        l.len() <= cap,
        forall|k: int| 0 <= k < fl.len() ==> (#[trigger] fl[k]).len() == fr[k].len(),
        fl.len() == fr.len(),
    ensures
        run_sched(l, r, cap, sched, fl, fr, policy).0.len()
            == run_sched(l, r, cap, sched, fl, fr, policy).1.len(),
        run_sched(l, r, cap, sched, fl, fr, policy).0.len() <= cap,
    decreases sched.len(),
{
    if sched.len() == 0 {
    } else if sched[0] {
        if fl.len() > 0 && fr.len() > 0 {
            let l2 = ring_offer_all(l, cap, fl[0], policy);
            let r2 = ring_offer_all(r, cap, fr[0], policy);
            if policy is OverwriteOldest {
                crate::ring::lemma_ring_push_all_len(l, cap, fl[0]);
                crate::ring::lemma_ring_push_all_len(r, cap, fr[0]);
            } else {
                crate::ring::lemma_ring_keep_all_len(l, cap, fl[0]);
                crate::ring::lemma_ring_keep_all_len(r, cap, fr[0]);
            }
            assert(fl[0].len() == fr[0].len());
            assert forall|k: int| 0 <= k < fl.skip(1).len()
                implies (#[trigger] fl.skip(1)[k]).len() == fr.skip(1)[k].len() by {
                assert(fl.skip(1)[k] == fl[k + 1]);
                assert(fr.skip(1)[k] == fr[k + 1]);
            };
            lemma_any_interleaving_stays_aligned(l2, r2, cap, sched.skip(1), fl.skip(1), fr.skip(1), policy);
        } else {
            lemma_any_interleaving_stays_aligned(l, r, cap, sched.skip(1), fl, fr, policy);
        }
    } else {
        if l.len() > 0 && r.len() > 0 {
            lemma_any_interleaving_stays_aligned(l.skip(1), r.skip(1), cap, sched.skip(1), fl, fr, policy);
        } else {
            lemma_any_interleaving_stays_aligned(l, r, cap, sched.skip(1), fl, fr, policy);
        }
    }
}

/// Round trip at the bridge: a frame written into an empty bridge with
/// room for it is buffered exactly and in order, whichever overflow
/// policy is set, so the consumer reads back precisely the samples
/// written.
pub proof fn lemma_bridge_round_trip(cap: nat, f: Seq<(i16, i16)>, policy: OverflowPolicy)
    requires
        1 <= cap,
        f.len() <= cap,
    ensures
        ring_offer_all(Seq::<i64>::empty(), cap, lefts_of(f), policy) == lefts_of(f),
        ring_offer_all(Seq::<i64>::empty(), cap, rights_of(f), policy) == rights_of(f),
{
    if policy is OverwriteOldest {
        crate::ring::lemma_ring_round_trip(cap, lefts_of(f));
        crate::ring::lemma_ring_round_trip(cap, rights_of(f));
    } else {
        crate::ring::lemma_ring_keep_all_keeps_first(Seq::<i64>::empty(), cap, lefts_of(f));
        crate::ring::lemma_ring_keep_all_keeps_first(Seq::<i64>::empty(), cap, rights_of(f));
        assert(Seq::<i64>::empty() + lefts_of(f) =~= lefts_of(f));
        assert(Seq::<i64>::empty() + rights_of(f) =~= rights_of(f));
    }
}

/// The bridge between the frame producer and the sample consumer.
pub struct RingBridge {
    left: RingBuffer,
    right: RingBuffer,
    last_left: i64,
    last_right: i64,
    written: u64,
    policy: OverflowPolicy,
}

impl RingBridge {
    /// The buffered left samples, oldest first.
    pub closed spec fn left_view(self) -> Seq<i64> {
        self.left@
    }

    /// The buffered right samples, oldest first.
    pub closed spec fn right_view(self) -> Seq<i64> {
        self.right@
    }

    /// The pair most recently handed to the consumer (silence at first).
    pub closed spec fn last_pair(self) -> (i64, i64) {
        (self.last_left, self.last_right)
    }

    /// How many sample pairs the producer has written in all.
    pub closed spec fn total_written(self) -> u64 {
        self.written
    }

    /// The shared capacity of the two buffers.
    pub closed spec fn cap(self) -> nat {
        self.left.cap()
    }

    /// The overflow policy the bridge was built with.
    pub closed spec fn policy(self) -> OverflowPolicy {
        self.policy
    }

    pub closed spec fn wf(self) -> bool {
        &&& self.left.wf()
        &&& self.right.wf()
        &&& self.left.cap() == self.right.cap()
        &&& self.left@.len() == self.right@.len()
        &&& all_within(self.left@, -(UNIT as int), UNIT as int)
        &&& all_within(self.right@, -(UNIT as int), UNIT as int)
        &&& -UNIT <= self.last_left <= UNIT
        &&& -UNIT <= self.last_right <= UNIT
    }

    /// Well-formedness bounds the bridge: the two buffers hold equally
    /// many unread samples, at most the capacity, every sample and the
    /// fallback pair within `[-UNIT, UNIT]`.
    pub proof fn lemma_wf_bounds(self)
        requires
            self.wf(),
        ensures
            1 <= self.cap() <= 0x7fff_ffff,
            self.left_view().len() == self.right_view().len(),
            self.left_view().len() <= self.cap(),
            all_within(self.left_view(), -(UNIT as int), UNIT as int),
            all_within(self.right_view(), -(UNIT as int), UNIT as int),
            -UNIT <= self.last_pair().0 <= UNIT,
            -UNIT <= self.last_pair().1 <= UNIT,
    {
        self.left.lemma_wf_bounds();
    }

    /// A fresh bridge of the given capacity under the default
    /// overwrite-oldest policy: nothing buffered, nothing written, and
    /// silence as the fallback pair.
    pub fn new(capacity: usize) -> (b: RingBridge)
        requires
            1 <= capacity <= 0x7fff_ffff,
        ensures
            b.wf(),
            b.cap() == capacity,
            b.policy() == OverflowPolicy::OverwriteOldest,
            b.left_view() == Seq::<i64>::empty(),
            b.right_view() == Seq::<i64>::empty(),
            b.last_pair() == (0i64, 0i64),
            b.total_written() == 0,
    {
        RingBridge::with_policy(capacity, OverflowPolicy::OverwriteOldest)
    }

    /// A fresh bridge under an explicitly chosen overflow policy.
    pub fn with_policy(capacity: usize, policy: OverflowPolicy) -> (b: RingBridge)
        requires
            1 <= capacity <= 0x7fff_ffff,
        ensures
            b.wf(),
            b.cap() == capacity,
            b.policy() == policy,
            b.left_view() == Seq::<i64>::empty(),
            b.right_view() == Seq::<i64>::empty(),
            b.last_pair() == (0i64, 0i64),
            b.total_written() == 0,
    {
        RingBridge {
            left: RingBuffer::new(capacity),
            right: RingBuffer::new(capacity),
            last_left: 0,
            last_right: 0,
            written: 0,
            policy,
        }
    }

    /// How many sample pairs are buffered and still unread.
    pub fn buffered(&self) -> (n: usize)
        requires
            self.wf(),
        ensures
            n == self.left_view().len(),
    {
        self.left.len()
    }

    /// How many sample pairs the producer has written in all.
    pub fn written_count(&self) -> (n: u64)
        ensures
            n == self.total_written(),
    {
        self.written
    }

    /// Write one stereo frame.  Each 16-bit pair is widened to fixed
    /// point and written under the bridge's overflow policy: a full
    /// bridge either overwrites its oldest unread samples (default) or
    /// rejects the incoming ones.  Either way the producer never waits.
    pub fn write_frame(&mut self, frame: &Vec<(i16, i16)>)
        requires
            old(self).wf(),
            old(self).total_written() + frame@.len() <= u64::MAX,
        ensures
            final(self).wf(),
            final(self).cap() == old(self).cap(),
            final(self).policy() == old(self).policy(),
            final(self).left_view() == ring_offer_all(
                old(self).left_view(), old(self).cap(), lefts_of(frame@), old(self).policy()),
            final(self).right_view() == ring_offer_all(
                old(self).right_view(), old(self).cap(), rights_of(frame@), old(self).policy()),
            final(self).last_pair() == old(self).last_pair(),
            final(self).total_written() == old(self).total_written() + frame@.len(),
    {
        let ghost gol = self.left@;
        let ghost gor = self.right@;
        let ghost cap = self.left.cap();
        let ghost pol = self.policy;
        let ghost ls = lefts_of(frame@);
        let ghost rs = rights_of(frame@);
        proof {
            self.left.lemma_wf_bounds();
            self.right.lemma_wf_bounds();
        }
        let overwrite = match self.policy {
            OverflowPolicy::OverwriteOldest => true,
            OverflowPolicy::RejectNewest => false,
        };
        let n = frame.len();
        let mut i: usize = 0;
        while i < n
            invariant
                i <= n,
                n == frame@.len(),
                ls == lefts_of(frame@),
                rs == rights_of(frame@),
                self.left.wf(),
                self.right.wf(),
                self.left.cap() == cap,
                self.right.cap() == cap,
                cap >= 1,
                self.policy == pol,
                overwrite == (pol is OverwriteOldest),
                self.left@ == ring_offer_all(gol, cap, ls.take(i as int), pol),
                self.right@ == ring_offer_all(gor, cap, rs.take(i as int), pol),
                all_within(self.left@, -(UNIT as int), UNIT as int),
                all_within(self.right@, -(UNIT as int), UNIT as int),
                self.left@.len() == self.right@.len(),
                self.left@.len() <= cap,
                self.last_left == old(self).last_left,
                self.last_right == old(self).last_right,
                self.written == old(self).written,
            decreases n - i,
        {
            let p = frame[i];
            let lf = sample_from_q15(p.0);
            let rf = sample_from_q15(p.1);
            let ghost prev_l = self.left@;
            let ghost prev_r = self.right@;
            if overwrite {
                self.left.push(lf);
                self.right.push(rf);
            } else {
                let _ = self.left.try_push(lf);
                let _ = self.right.try_push(rf);
            }
            proof {
                lemma_from_q15_in_range(frame@[i as int].0 as int);
                lemma_from_q15_in_range(frame@[i as int].1 as int);
                assert(ls[i as int] == lf);
                assert(rs[i as int] == rf);
                assert(ls.take(i + 1) =~= ls.take(i as int).push(lf));
                assert(rs.take(i + 1) =~= rs.take(i as int).push(rf));
                if pol is OverwriteOldest {
                    lemma_ring_push_all_snoc(gol, cap, ls.take(i as int), lf);
                    lemma_ring_push_all_snoc(gor, cap, rs.take(i as int), rf);
                    lemma_ring_push_within(prev_l, cap, lf, -(UNIT as int), UNIT as int);
                    lemma_ring_push_within(prev_r, cap, rf, -(UNIT as int), UNIT as int);
                } else {
                    lemma_ring_keep_all_snoc(gol, cap, ls.take(i as int), lf);
                    lemma_ring_keep_all_snoc(gor, cap, rs.take(i as int), rf);
                    lemma_ring_keep_within(prev_l, cap, lf, -(UNIT as int), UNIT as int);
                    lemma_ring_keep_within(prev_r, cap, rf, -(UNIT as int), UNIT as int);
                }
            }
            i = i + 1;
        }
        self.written = self.written + (n as u64);
        proof {
            assert(ls.take(n as int) =~= ls);
            assert(rs.take(n as int) =~= rs);
        }
    }

    /// Read one sample pair at the consumer's own pace.  The oldest
    /// unread pair is handed out and remembered; on an empty bridge the
    /// remembered pair is repeated instead, so the consumer never waits
    /// and never hears a gap.
    pub fn read_one(&mut self) -> (r: (i64, i64))
        requires
            old(self).wf(),
        ensures
            final(self).wf(),
            final(self).cap() == old(self).cap(),
            final(self).policy() == old(self).policy(),
            final(self).total_written() == old(self).total_written(),
            -UNIT <= r.0 <= UNIT,
            -UNIT <= r.1 <= UNIT,
            old(self).left_view().len() == 0 ==> {
                &&& r == old(self).last_pair()
                &&& final(self).left_view() == old(self).left_view()
                &&& final(self).right_view() == old(self).right_view()
                &&& final(self).last_pair() == old(self).last_pair()
            },
            old(self).left_view().len() > 0 ==> {
                &&& r == (old(self).left_view()[0], old(self).right_view()[0])
                &&& final(self).left_view() == old(self).left_view().skip(1)
                &&& final(self).right_view() == old(self).right_view().skip(1)
                &&& final(self).last_pair() == r
            },
    {
        let l = self.left.pop();
        let r = self.right.pop();
        match (l, r) {
            (Some(a), Some(b)) => {
                self.last_left = a;
                self.last_right = b;
                (a, b)
            },
            _ => {
                (self.last_left, self.last_right)
            },
        }
    }

    /// Fill one output block of `n_frames` sample pairs, reading one
    /// pair per output frame.  While buffered pairs last they come out in
    /// order; past the end the final pair is repeated (underrun policy).
    pub fn render_block(&mut self, n_frames: usize) -> (out: Vec<(i64, i64)>)
        requires
            old(self).wf(),
        ensures
            final(self).wf(),
            final(self).cap() == old(self).cap(),
            final(self).policy() == old(self).policy(),
            final(self).total_written() == old(self).total_written(),
            out@.len() == n_frames,
            forall|j: int| 0 <= j < n_frames ==> #[trigger] out@[j]
                == drained_pair(old(self).left_view(), old(self).right_view(), old(self).last_pair(), j),
            final(self).left_view() == if n_frames < old(self).left_view().len() {
                old(self).left_view().skip(n_frames as int)
            } else {
                Seq::<i64>::empty()
            },
            final(self).right_view() == if n_frames < old(self).right_view().len() {
                old(self).right_view().skip(n_frames as int)
            } else {
                Seq::<i64>::empty()
            },
            final(self).last_pair()
                == drained_last(old(self).left_view(), old(self).right_view(), old(self).last_pair(), n_frames as int),
    {
        let ghost gol = self.left@;
        let ghost gor = self.right@;
        let ghost glast = (old(self).last_left, old(self).last_right);
        let mut out: Vec<(i64, i64)> = Vec::new();
        let mut j: usize = 0;
        while j < n_frames
            invariant
                j <= n_frames,
                self.wf(),
                self.cap() == old(self).cap(),
                self.policy() == old(self).policy(),
                self.total_written() == old(self).total_written(),
                out@.len() == j,
                forall|t: int| 0 <= t < j ==> #[trigger] out@[t] == drained_pair(gol, gor, glast, t),
                self.left_view() == if (j as int) < gol.len() {
                    gol.skip(j as int)
                } else {
                    Seq::<i64>::empty()
                },
                self.right_view() == if (j as int) < gor.len() {
                    gor.skip(j as int)
                } else {
                    Seq::<i64>::empty()
                },
                gol.len() == gor.len(),
                self.last_pair() == drained_last(gol, gor, glast, j as int),
            decreases n_frames - j,
        {
            let ghost before = *self;
            let pair = self.read_one();
            proof {
                if (j as int) < gol.len() {
                    assert(before.left_view() == gol.skip(j as int));
                    assert(before.left_view()[0] == gol[j as int]);
                    assert(before.right_view()[0] == gor[j as int]);
                    assert(gol.skip(j as int).skip(1) =~= gol.skip(j + 1));
                    assert(gor.skip(j as int).skip(1) =~= gor.skip(j + 1));
                    if (j as int) + 1 >= gol.len() {
                        assert(gol.skip(j + 1) =~= Seq::<i64>::empty());
                        assert(gor.skip(j + 1) =~= Seq::<i64>::empty());
                    }
                    assert(pair == drained_pair(gol, gor, glast, j as int));
                } else {
                    assert(pair == drained_last(gol, gor, glast, j as int));
                    assert(pair == drained_pair(gol, gor, glast, j as int));
                }
            }
            out.push(pair);
            j = j + 1;
        }
        out
    }
}

} // verus!
