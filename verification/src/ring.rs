//! Bounded circular sample buffer.
//!
//! A `RingBuffer` holds up to a fixed capacity of fixed-point samples.
//! Writing to a full buffer overwrites the oldest unread sample, so the
//! buffer always holds exactly the most recent samples; reading from an
//! empty buffer is reported to the caller, never undefined.  The abstract
//! contents are the sequence of unread samples, oldest first.

use vstd::prelude::*;

verus! {

/// What one write does to the abstract contents: append the sample, and
/// when the buffer is full drop the oldest one first.
pub open spec fn ring_push(s: Seq<i64>, cap: nat, x: i64) -> Seq<i64> {
    if s.len() < cap {
        s.push(x)
    } else {
        s.skip(1).push(x)
    }
}

/// What writing a whole sequence of samples does, one by one.
pub open spec fn ring_push_all(s: Seq<i64>, cap: nat, xs: Seq<i64>) -> Seq<i64>
    decreases xs.len(),
{
    if xs.len() == 0 {
        s
    } else {
        ring_push_all(ring_push(s, cap, xs[0]), cap, xs.skip(1))
    }
}

/// The most recent `cap` entries of a sequence (all of it, if shorter).
pub open spec fn recent_of(s: Seq<i64>, cap: nat) -> Seq<i64> {
    if s.len() <= cap {
        s
    } else {
        s.skip(s.len() - cap)
    }
}

/// Every entry of a sequence lies in `[lo, hi]`.
pub open spec fn all_within(s: Seq<i64>, lo: int, hi: int) -> bool {
    forall|i: int| 0 <= i < s.len() ==> lo <= #[trigger] s[i] <= hi
}

/// Writing a sequence element-wise equals writing its last element after
/// all the others.
pub proof fn lemma_ring_push_all_snoc(s: Seq<i64>, cap: nat, xs: Seq<i64>, x: i64)
    ensures
        ring_push_all(s, cap, xs.push(x)) == ring_push(ring_push_all(s, cap, xs), cap, x),
    decreases xs.len(),
{
    if xs.len() == 0 {
        assert(xs.push(x)[0] == x);
        assert(xs.push(x).skip(1) =~= Seq::<i64>::empty());
        assert(ring_push_all(ring_push(s, cap, x), cap, Seq::<i64>::empty())
            == ring_push(s, cap, x));
        assert(ring_push_all(s, cap, xs) == s);
    } else {
        let s2 = ring_push(s, cap, xs[0]);
        assert(xs.push(x)[0] == xs[0]);
        assert(xs.push(x).skip(1) =~= xs.skip(1).push(x));
        assert(ring_push_all(s, cap, xs.push(x)) == ring_push_all(s2, cap, xs.skip(1).push(x)));
        assert(ring_push_all(s, cap, xs) == ring_push_all(s2, cap, xs.skip(1)));
        lemma_ring_push_all_snoc(s2, cap, xs.skip(1), x);
    }
}

/// Overwrite-oldest keeps exactly the most recent samples: after writing
/// `xs` into a buffer holding `s`, the contents are the last `cap` entries
/// of `s + xs`.
pub proof fn lemma_ring_push_all_keeps_recent(s: Seq<i64>, cap: nat, xs: Seq<i64>)
    requires
        s.len() <= cap,
        cap >= 1,
    ensures
        ring_push_all(s, cap, xs) == recent_of(s + xs, cap),
    decreases xs.len(),
{
    if xs.len() == 0 {
        assert(s + xs =~= s);
    } else {
        let s2 = ring_push(s, cap, xs[0]);
        lemma_ring_push_all_keeps_recent(s2, cap, xs.skip(1));
        if s.len() < cap {
            assert(s2 + xs.skip(1) =~= s + xs);
        } else {
            assert(s2 + xs.skip(1) =~= (s + xs).skip(1));
            let t = s + xs;
            assert(t.len() == cap + xs.len());
            if xs.len() == 1 {
                assert(recent_of(t.skip(1), cap) =~= recent_of(t, cap));
            } else {
                assert(t.skip(1).skip(t.len() - 1 - cap) =~= t.skip(t.len() - cap));
                assert(recent_of(t.skip(1), cap) =~= recent_of(t, cap));
            }
        }
    }
}

/// Round trip: writing `xs` into an empty buffer with room for it leaves
/// exactly `xs`, in order, so reading it back returns the samples written.
pub proof fn lemma_ring_round_trip(cap: nat, xs: Seq<i64>)
    requires
        1 <= cap,
        xs.len() <= cap,
    ensures
        ring_push_all(Seq::<i64>::empty(), cap, xs) == xs,
{
    lemma_ring_push_all_keeps_recent(Seq::<i64>::empty(), cap, xs);
    assert(Seq::<i64>::empty() + xs =~= xs);
}

/// Writing one sample within `[lo, hi]` into a buffer whose contents are
/// within `[lo, hi]` keeps every entry within `[lo, hi]`.
pub proof fn lemma_ring_push_within(s: Seq<i64>, cap: nat, x: i64, lo: int, hi: int)
    requires
        cap >= 1,
        all_within(s, lo, hi),
        lo <= x <= hi,
    ensures
        all_within(ring_push(s, cap, x), lo, hi),
{
    let s2 = ring_push(s, cap, x);
    assert forall|i: int| 0 <= i < s2.len() implies lo <= #[trigger] s2[i] <= hi by {
        if s.len() < cap {
            if i < s.len() {
                assert(s2[i] == s[i]);
            } else {
                assert(s2[i] == x);
            }
        } else {
            if i < s2.len() - 1 {
                assert(s2[i] == s[i + 1]);
            } else {
                assert(s2[i] == x);
            }
        }
    };
}

/// The number of unread samples after writing `xs` over `s`: everything
/// fits up to the capacity, and past that the length pins at the capacity.
pub proof fn lemma_ring_push_all_len(s: Seq<i64>, cap: nat, xs: Seq<i64>)
    requires
        s.len() <= cap,
        cap >= 1,
    ensures
        ring_push_all(s, cap, xs).len()
            == if s.len() + xs.len() <= cap { (s.len() + xs.len()) as int } else { cap as int },
{
    lemma_ring_push_all_keeps_recent(s, cap, xs);
}

/// What one write does under the rejecting policy: append while there is
/// room, and drop the new sample when the buffer is full.
pub open spec fn ring_keep(s: Seq<i64>, cap: nat, x: i64) -> Seq<i64> {
    if s.len() < cap {
        s.push(x)
    } else {
        s
    }
}

/// What writing a whole sequence does under the rejecting policy.
pub open spec fn ring_keep_all(s: Seq<i64>, cap: nat, xs: Seq<i64>) -> Seq<i64>
    decreases xs.len(),
{
    if xs.len() == 0 {
        s
    } else {
        ring_keep_all(ring_keep(s, cap, xs[0]), cap, xs.skip(1))
    }
}

/// Writing a sequence element-wise under the rejecting policy equals
/// writing its last element after all the others.
pub proof fn lemma_ring_keep_all_snoc(s: Seq<i64>, cap: nat, xs: Seq<i64>, x: i64)
    ensures
        ring_keep_all(s, cap, xs.push(x)) == ring_keep(ring_keep_all(s, cap, xs), cap, x),
    decreases xs.len(),
{
    if xs.len() == 0 {
        assert(xs.push(x)[0] == x);
        assert(xs.push(x).skip(1) =~= Seq::<i64>::empty());
        assert(ring_keep_all(ring_keep(s, cap, x), cap, Seq::<i64>::empty())
            == ring_keep(s, cap, x));
        assert(ring_keep_all(s, cap, xs) == s);
    } else {
        let s2 = ring_keep(s, cap, xs[0]);
        assert(xs.push(x)[0] == xs[0]);
        assert(xs.push(x).skip(1) =~= xs.skip(1).push(x));
        assert(ring_keep_all(s, cap, xs.push(x)) == ring_keep_all(s2, cap, xs.skip(1).push(x)));
        assert(ring_keep_all(s, cap, xs) == ring_keep_all(s2, cap, xs.skip(1)));
        lemma_ring_keep_all_snoc(s2, cap, xs.skip(1), x);
    }
}

/// The rejecting policy keeps exactly the earliest samples: after
/// writing `xs` over a buffer holding `s`, the contents are the first
/// `cap` entries of `s + xs`, so completeness is kept at the price of
/// freshness.
pub proof fn lemma_ring_keep_all_keeps_first(s: Seq<i64>, cap: nat, xs: Seq<i64>)
    requires
        s.len() <= cap,
    ensures
        ring_keep_all(s, cap, xs) == if s.len() + xs.len() <= cap {
            s + xs
        } else {
            (s + xs).take(cap as int)
        },
    decreases xs.len(),
{
    if xs.len() == 0 {
        assert(s + xs =~= s);
    } else {
        let s2 = ring_keep(s, cap, xs[0]);
        lemma_ring_keep_all_keeps_first(s2, cap, xs.skip(1));
        if s.len() < cap {
            assert(s2 + xs.skip(1) =~= s + xs);
        } else {
            assert(s2 + xs.skip(1) =~= s + xs.skip(1));
            if s.len() + xs.skip(1).len() <= cap {
                assert(xs.skip(1).len() == 0);
                assert(s + xs.skip(1) =~= s);
                assert((s + xs).take(cap as int) =~= s);
            } else {
                assert((s + xs.skip(1)).take(cap as int) =~= (s + xs).take(cap as int));
            }
        }
    }
}

/// The rejecting policy fills the buffer up to its capacity and never
/// past it.
pub proof fn lemma_ring_keep_all_len(s: Seq<i64>, cap: nat, xs: Seq<i64>)
    requires
        s.len() <= cap,
    ensures
        ring_keep_all(s, cap, xs).len()
            == if s.len() + xs.len() <= cap { (s.len() + xs.len()) as int } else { cap as int },
{
    lemma_ring_keep_all_keeps_first(s, cap, xs);
}

/// A rejected or kept sample within `[lo, hi]` keeps the contents within
/// `[lo, hi]`.
pub proof fn lemma_ring_keep_within(s: Seq<i64>, cap: nat, x: i64, lo: int, hi: int)
    requires
        all_within(s, lo, hi),
        lo <= x <= hi,
    ensures
        all_within(ring_keep(s, cap, x), lo, hi),
{
    let s2 = ring_keep(s, cap, x);
    assert forall|i: int| 0 <= i < s2.len() implies lo <= #[trigger] s2[i] <= hi by {
        if s.len() < cap {
            if i < s.len() {
                assert(s2[i] == s[i]);
            } else {
                assert(s2[i] == x);
            }
        }
    };
}

/// A bounded circular buffer of fixed-point samples.
pub struct RingBuffer {
    data: Vec<i64>,
    start: usize,
    count: usize,
}

impl View for RingBuffer {
    type V = Seq<i64>;

    /// The unread samples, oldest first.
    closed spec fn view(&self) -> Seq<i64> {
        Seq::new(self.count as nat, |i: int| {
            if self.start + i < self.data@.len() {
                self.data@[self.start + i]
            } else {
                self.data@[self.start + i - self.data@.len()]
            }
        })
    }
}

impl RingBuffer {
    /// The fixed capacity.
    pub closed spec fn cap(self) -> nat {
        self.data@.len()
    }

    /// Well-formedness bounds the contents by the capacity.
    pub proof fn lemma_wf_bounds(self)
        requires
            self.wf(),
        ensures
            1 <= self.cap() <= 0x7fff_ffff,
            self@.len() <= self.cap(),
    {
    }

    pub closed spec fn wf(self) -> bool {
        &&& 1 <= self.data@.len() <= 0x7fff_ffff
        &&& self.start < self.data@.len()
        &&& self.count <= self.data@.len()
    }

    /// A fresh buffer of the given capacity, holding nothing.
    pub fn new(capacity: usize) -> (r: RingBuffer)
        requires
            1 <= capacity <= 0x7fff_ffff,
        ensures
            r.wf(),
            r.cap() == capacity,
            r@ == Seq::<i64>::empty(),
    {
        let mut data: Vec<i64> = Vec::new();
        let mut i: usize = 0;
        while i < capacity
            invariant
                data@.len() == i,
                i <= capacity,
            decreases capacity - i,
        {
            data.push(0);
            i = i + 1;
        }
        let r = RingBuffer { data, start: 0, count: 0 };
        proof {
            assert(r@ =~= Seq::<i64>::empty());
        }
        r
    }

    /// How many unread samples the buffer holds.
    pub fn len(&self) -> (n: usize)
        ensures
            n == self@.len(),
    {
        self.count
    }

    /// The fixed capacity.
    pub fn capacity(&self) -> (n: usize)
        ensures
            n == self.cap(),
    {
        self.data.len()
    }

    /// Write one sample; when the buffer is full this overwrites the
    /// oldest unread sample.
    pub fn push(&mut self, x: i64)
        requires
            old(self).wf(),
        ensures
            final(self).wf(),
            final(self).cap() == old(self).cap(),
            final(self)@ == ring_push(old(self)@, old(self).cap(), x),
    {
        let cap = self.data.len();
        if self.count < cap {
            let w = if self.start >= cap - self.count {
                self.start - (cap - self.count)
            } else {
                self.start + self.count
            };
            self.data.set(w, x);
            self.count = self.count + 1;
            proof {
                assert(self@ =~= old(self)@.push(x));
            }
        } else {
            self.data.set(self.start, x);
            self.start = if self.start + 1 == cap { 0 } else { self.start + 1 };
            proof {
                assert(self@ =~= old(self)@.skip(1).push(x));
            }
        }
    }

    /// Write one sample only if there is room; a full buffer rejects the
    /// new sample and stays as it is.
    pub fn try_push(&mut self, x: i64) -> (accepted: bool)
        requires
            old(self).wf(),
        ensures
            final(self).wf(),
            final(self).cap() == old(self).cap(),
            accepted == (old(self)@.len() < old(self).cap()),
            final(self)@ == ring_keep(old(self)@, old(self).cap(), x),
    {
        let cap = self.data.len();
        if self.count < cap {
            let w = if self.start >= cap - self.count {
                self.start - (cap - self.count)
            } else {
                self.start + self.count
            };
            self.data.set(w, x);
            self.count = self.count + 1;
            proof {
                assert(self@ =~= old(self)@.push(x));
            }
            true
        } else {
            false
        }
    }

    /// Read the oldest unread sample; `None` reports an empty buffer.
    pub fn pop(&mut self) -> (r: Option<i64>)
        requires
            old(self).wf(),
        ensures
            final(self).wf(),
            final(self).cap() == old(self).cap(),
            old(self)@.len() == 0 ==> r is None && final(self)@ == old(self)@,
            old(self)@.len() > 0 ==> r == Some(old(self)@[0]) && final(self)@ == old(self)@.skip(1),
    {
        if self.count == 0 {
            None
        } else {
            let cap = self.data.len();
            let v = self.data[self.start];
            self.start = if self.start + 1 == cap { 0 } else { self.start + 1 };
            self.count = self.count - 1;
            proof {
                assert(self@ =~= old(self)@.skip(1));
            }
            Some(v)
        }
    }
}

} // verus!
