//! Fixed-capacity rolling history of scalar samples.
use vstd::prelude::*;

verus! {

/// What the buffer `s`, bounded by `cap`, holds after one push of `v`.
pub open spec fn pushed(s: Seq<u64>, cap: nat, v: u64) -> Seq<u64> {
    let t = s.push(v);
    if t.len() > cap {
        t.drop_first()
    } else {
        t
    }
}

/// What the buffer `s`, bounded by `cap`, holds after pushing every value of `vs` in order.
pub open spec fn pushed_all(s: Seq<u64>, cap: nat, vs: Seq<u64>) -> Seq<u64>
    decreases vs.len(),
{
    if vs.len() == 0 {
        s
    } else {
        pushed(pushed_all(s, cap, vs.drop_last()), cap, vs.last())
    }
}

/// The `n` most recent values of `vs`, oldest first (all of them when there are fewer).
pub open spec fn most_recent(vs: Seq<u64>, n: nat) -> Seq<u64> {
    if vs.len() <= n {
        vs
    } else {
        vs.subrange(vs.len() - n, vs.len() as int)
    }
}

/// A first-in first-out buffer of at most `capacity` samples; a push beyond the
/// capacity evicts the oldest sample.
pub struct RingHistory {
    samples: Vec<u64>,
    capacity: usize,
}

impl View for RingHistory {
    type V = Seq<u64>;

    closed spec fn view(&self) -> Seq<u64> {
        self.samples@
    }
}

impl RingHistory {
    pub closed spec fn cap(&self) -> nat {
        self.capacity as nat
    }

    /// The length never exceeds the capacity.
    pub closed spec fn wf(&self) -> bool {
        self.samples@.len() <= self.capacity
    }

    /// An empty history of the given capacity.
    pub fn new(capacity: usize) -> (r: RingHistory)
        ensures
            r.wf(),
            r@ == Seq::<u64>::empty(),
            r.cap() == capacity,
    {
        RingHistory { samples: Vec::new(), capacity }
    }

    /// A history of the given capacity already full of `fill`, so that a plot
    /// of it has its full width from the start.
    pub fn filled(capacity: usize, fill: u64) -> (r: RingHistory)
        ensures
            r.wf(),
            r@ == Seq::new(capacity as nat, |i: int| fill),
            r.cap() == capacity,
    {
        let mut samples: Vec<u64> = Vec::new();
        let mut i: usize = 0;
        while i < capacity
            invariant
                i <= capacity,
                samples@ == Seq::new(i as nat, |k: int| fill),
            decreases capacity - i,
        {
            samples.push(fill);
            i = i + 1;
        }
        RingHistory { samples, capacity }
    }

    /// Appends `value`; when that makes the history longer than its capacity,
    /// the single oldest sample is removed.
    pub fn push(&mut self, value: u64)
        requires
            old(self).wf(),
        ensures
            final(self).wf(),
            final(self).cap() == old(self).cap(),
            final(self)@ == pushed(old(self)@, old(self).cap(), value),
    {
        self.samples.push(value);
        if self.samples.len() > self.capacity {
            self.samples.remove(0);
        }
        assert(self.samples@ == pushed(old(self)@, old(self).cap(), value));
    }

    pub fn len(&self) -> (r: usize)
        ensures
            r == self@.len(),
    {
        self.samples.len()
    }

    pub fn capacity(&self) -> (r: usize)
        ensures
            r == self.cap(),
    {
        self.capacity
    }

    /// The sample at position `i`, oldest first.
    pub fn get(&self, i: usize) -> (r: u64)
        requires
            i < self@.len(),
        ensures
            r == self@[i as int],
    {
        self.samples[i]
    }

    /// A copy of the samples, oldest first; later pushes do not change it.
    pub fn to_vec(&self) -> (r: Vec<u64>)
        ensures
            r@ == self@,
    {
        let mut out: Vec<u64> = Vec::new();
        let mut i: usize = 0;
        while i < self.samples.len()
            invariant
                i <= self.samples@.len(),
                out@ == self.samples@.subrange(0, i as int),
            decreases self.samples@.len() - i,
        {
            out.push(self.samples[i]);
            i = i + 1;
        }
        assert(out@ == self.samples@.subrange(0, self.samples@.len() as int));
        out
    }

    /// An independent copy with the same capacity and samples.
    pub fn snapshot(&self) -> (r: RingHistory)
        requires
            self.wf(),
        ensures
            r.wf(),
            r@ == self@,
            r.cap() == self.cap(),
    {
        RingHistory { samples: self.to_vec(), capacity: self.capacity }
    }
}

/// Pushing `vs` one by one into an empty history of capacity `cap` leaves
/// `min(cap, |vs|)` samples, and they are the most recent values of `vs` in
/// the order they were pushed.
pub proof fn lemma_push_keeps_most_recent(cap: nat, vs: Seq<u64>)
    ensures
        pushed_all(Seq::empty(), cap, vs) == most_recent(vs, cap),
        pushed_all(Seq::empty(), cap, vs).len() == if vs.len() < cap {
            vs.len()
        } else {
            cap
        },
    decreases vs.len(),
{
    if vs.len() > 0 {
        let prev = vs.drop_last();
        lemma_push_keeps_most_recent(cap, prev);
        let t = most_recent(prev, cap).push(vs.last());
        if vs.len() <= cap {
            assert(t =~= vs);
        } else if prev.len() <= cap {
            assert(t.drop_first() =~= vs.subrange(vs.len() - cap, vs.len() as int));
        } else {
            assert(t.drop_first() =~= vs.subrange(vs.len() - cap, vs.len() as int));
        }
    }
}

} // verus!
