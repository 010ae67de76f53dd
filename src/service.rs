//! The single-producer / single-consumer ring that a service channel page
//! holds: 255 slots, a transmit counter the producer advances and a receive
//! counter the consumer advances.
use vstd::prelude::*;

verus! {

pub const RING_SLOTS: u32 = 255;

/// `recv`, `trans`, two reserved flags, then the slots `(seq, data)`.
pub struct PutcharQueue {
    recv: u32,
    trans: u32,
    remote_sleeping: bool,
    closed: bool,
    data: Vec<(u64, u64)>,
    produced: Ghost<Seq<u64>>,
    consumed: Ghost<Seq<u64>>,
}

impl PutcharQueue {
    pub closed spec fn recv_count(&self) -> u32 {
        self.recv
    }

    pub closed spec fn trans_count(&self) -> u32 {
        self.trans
    }

    /// How many values the consumer has read.
    pub fn recv(&self) -> (r: u32)
        ensures
            r == self.recv_count(),
    {
        self.recv
    }

    /// How many values the producer has written.
    pub fn trans(&self) -> (r: u32)
        ensures
            r == self.trans_count(),
    {
        self.trans
    }

    /// Everything the producer has written, in order.
    pub closed spec fn produced(&self) -> Seq<u64> {
        self.produced@
    }

    /// Everything the consumer has read, in order.
    pub closed spec fn consumed(&self) -> Seq<u64> {
        self.consumed@
    }

    /// The counters never cross, at most a ring's worth is in flight, the
    /// slots in flight hold the data not yet read, and what was read is a
    /// prefix of what was written.
    pub closed spec fn wf(&self) -> bool {
        &&& self.data@.len() == RING_SLOTS
        &&& self.recv <= self.trans <= self.recv + RING_SLOTS
        &&& self.produced@.len() == self.trans
        &&& self.consumed@ == self.produced@.take(self.recv as int)
        &&& forall|k: int| self.recv <= k < self.trans ==> #[trigger] self.data@[k % 255].1 == self.produced@[k]
    }

    /// An empty ring, as a zeroed page holds it.
    pub fn new() -> (r: PutcharQueue)
        ensures
            r.wf(),
            r.recv_count() == 0,
            r.trans_count() == 0,
            r.produced() == Seq::<u64>::empty(),
    {
        let mut data: Vec<(u64, u64)> = Vec::new();
        while data.len() < 255
            invariant
                data@.len() <= 255,
            decreases 255 - data@.len(),
        {
            data.push((0, 0));
        }
        let ghost empty = Seq::<u64>::empty();
        let r = PutcharQueue {
            recv: 0,
            trans: 0,
            remote_sleeping: false,
            closed: false,
            data,
            produced: Ghost(empty),
            consumed: Ghost(empty),
        };
        assert(r.consumed@ =~= r.produced@.take(0));
        r
    }

    /// Writes `c` into slot `trans % 255` and advances `trans`; `false`,
    /// with nothing written, while the ring is full or `trans` would
    /// overflow.
    pub fn produce(&mut self, c: u64) -> (r: bool)
        requires
            old(self).wf(),
        ensures
            final(self).wf(),
            r == (old(self).trans_count() - old(self).recv_count() < RING_SLOTS && old(self).trans_count() < u32::MAX),
            r ==> final(self).produced() == old(self).produced().push(c) && final(self).trans_count() == old(self).trans_count() + 1,
            !r ==> final(self).produced() == old(self).produced() && final(self).trans_count() == old(self).trans_count(),
            final(self).recv_count() == old(self).recv_count(),
            final(self).consumed() == old(self).consumed(),
    {
        if self.trans - self.recv >= RING_SLOTS || self.trans == u32::MAX {
            return false;
        }
        let ghost s0 = *self;
        let slot = (self.trans % RING_SLOTS) as usize;
        self.data.set(slot, (self.trans as u64, c));
        self.produced = Ghost(self.produced@.push(c));
        self.trans = self.trans + 1;
        proof {
            assert forall|k: int| self.recv <= k < self.trans implies #[trigger] self.data@[k % 255].1 == self.produced@[k] by {
                if k < s0.trans {
                    assert(k % 255 != s0.trans % 255) by {
                        assert(s0.trans - k < 255);
                    }
                    assert(s0.data@[k % 255].1 == s0.produced@[k]);
                }
            }
            assert(self.consumed@ =~= self.produced@.take(self.recv as int));
        }
        true
    }

    /// Reads slot `recv % 255` and advances `recv`, if anything is in flight.
    pub fn consume(&mut self) -> (r: Option<u64>)
        requires
            old(self).wf(),
        ensures
            final(self).wf(),
            final(self).trans_count() == old(self).trans_count(),
            final(self).produced() == old(self).produced(),
            old(self).trans_count() == old(self).recv_count() ==> r is None && final(self).recv_count() == old(self).recv_count()
                && final(self).consumed() == old(self).consumed(),
            old(self).trans_count() > old(self).recv_count() ==> r == Some(old(self).produced()[old(self).recv_count() as int])
                && final(self).recv_count() == old(self).recv_count() + 1
                && final(self).consumed() == old(self).consumed().push(r.unwrap()),
    {
        if self.trans > self.recv {
            let (_, c) = self.data[(self.recv % RING_SLOTS) as usize];
            let ghost s0 = *self;
            self.recv = self.recv + 1;
            self.consumed = Ghost(self.consumed@.push(c));
            proof {
                assert(s0.data@[s0.recv as int % 255].1 == s0.produced@[s0.recv as int]);
                assert(self.consumed@ =~= self.produced@.take(self.recv as int));
            }
            Some(c)
        } else {
            None
        }
    }
}

/// Whatever the producer and consumer did, `trans >= recv`, and the consumer
/// has read exactly the first `recv` values written, in the order written.
pub proof fn lemma_ring_order(q: &PutcharQueue)
    requires
        q.wf(),
    ensures
        q.trans_count() >= q.recv_count(),
        q.consumed() == q.produced().take(q.recv_count() as int),
        q.consumed().len() == q.recv_count(),
{
}

} // verus!
