//! Barrier rendezvous.
//!
//! The broker holds one connection handle per worker that has reached
//! the barrier. When the last of the group arrives, every held handle
//! is released in the same pass and the group starts a fresh cycle.
//! Fewer than the full group blocks indefinitely, by design.

use vstd::prelude::*;

verus! {

/// The waiting set of one barrier cycle, bounded by the group size.
pub struct BarrierGroup<H> {
    waiting: Vec<H>,
    size: usize,
}

impl<H> View for BarrierGroup<H> {
    type V = Seq<H>;

    /// The held connection handles, in arrival order.
    closed spec fn view(&self) -> Seq<H> {
        self.waiting@
    }
}

impl<H> BarrierGroup<H> {
    /// The size of the group: how many arrivals release the barrier.
    pub closed spec fn group_size(self) -> usize {
        self.size
    }

    /// Well-formed: the waiting set never reaches the group size — at
    /// the group size it is released and emptied in the same step.
    pub open spec fn wf(self) -> bool {
        &&& self@.len() < self.group_size()
        &&& self.group_size() >= 1
    }

    /// An empty rendezvous for a group of `n` workers.
    pub fn new(n: usize) -> (r: BarrierGroup<H>)
        requires
            n >= 1,
        ensures
            r.wf(),
            r@ == Seq::<H>::empty(),
            r.group_size() == n,
    {
        let r = BarrierGroup { waiting: Vec::new(), size: n };
        proof {
            assert(r@ =~= Seq::<H>::empty());
        }
        r
    }

    /// One worker reaches the barrier. Its handle is held — unless it
    /// completes the group: then all held handles, the new one among
    /// them, are handed back for release, and the set is cleared for
    /// the next cycle.
    pub fn arrive(&mut self, h: H) -> (r: Option<Vec<H>>)
        requires
            old(self).wf(),
        ensures
            final(self).wf(),
            final(self).group_size() == old(self).group_size(),
            match r {
                Some(v) => {
                    &&& old(self)@.len() + 1 == old(self).group_size()
                    &&& v@ == old(self)@.push(h)
                    &&& final(self)@ == Seq::<H>::empty()
                },
                None => {
                    &&& old(self)@.len() + 1 < old(self).group_size()
                    &&& final(self)@ == old(self)@.push(h)
                },
            },
    {
        self.waiting.push(h);
        if self.waiting.len() == self.size {
            let mut out: Vec<H> = Vec::new();
            core::mem::swap(&mut out, &mut self.waiting);
            proof {
                assert(self@ =~= Seq::<H>::empty());
            }
            Some(out)
        } else {
            None
        }
    }
}

} // verus!
