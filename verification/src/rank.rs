//! The broker's rank table.
//!
//! Each spawned worker's OS process id is recorded in spawn order; a
//! worker's rank is its position in that order. The table is built once,
//! before the broker starts accepting, and read-only afterwards.

use vstd::prelude::*;

verus! {

/// No process id is recorded twice.
pub open spec fn pids_distinct(s: Seq<u32>) -> bool {
    forall |p: int, q: int| 0 <= p < q < s.len() ==> s[p] != s[q]
}

/// Maps each worker's OS process id to its rank: the pid at position
/// `r` of the spawn order has rank `r`.
pub struct RankTable {
    pids: Vec<u32>,
}

impl View for RankTable {
    type V = Seq<u32>;

    /// The recorded pids, in spawn order.
    closed spec fn view(&self) -> Seq<u32> {
        self.pids@
    }
}

impl RankTable {
    /// Well-formed: every recorded pid is recorded once.
    pub open spec fn wf(self) -> bool {
        pids_distinct(self@)
    }

    /// The rank of `pid`: its position in spawn order, if recorded.
    pub open spec fn spec_rank(self, pid: u32) -> Option<usize> {
        if exists |r: int| 0 <= r < self@.len() && self@[r] == pid {
            Some((choose |r: int| 0 <= r < self@.len() && self@[r] == pid) as usize)
        } else {
            None
        }
    }

    /// An empty table.
    pub fn new() -> (r: RankTable)
        ensures
            r@ == Seq::<u32>::empty(),
            r.wf(),
    {
        let r = RankTable { pids: Vec::new() };
        proof {
            assert(r@ =~= Seq::<u32>::empty());
        }
        r
    }

    /// Record the next spawned worker. Its rank is the table's size so
    /// far. A pid already recorded is refused, keeping ranks unambiguous.
    pub fn register(&mut self, pid: u32) -> (r: bool)
        requires
            old(self).wf(),
        ensures
            final(self).wf(),
            r == !old(self)@.contains(pid),
            r ==> final(self)@ == old(self)@.push(pid),
            !r ==> final(self)@ == old(self)@,
    {
        let mut p: usize = 0;
        while p < self.pids.len()
            invariant
                *self == *old(self),
                pids_distinct(self@),
                p <= self@.len(),
                forall |q: int| 0 <= q < p ==> self@[q] != pid,
            decreases self@.len() - p,
        {
            if self.pids[p] == pid {
                proof {
                    assert(self@.contains(pid));
                }
                return false;
            }
            p += 1;
        }
        proof {
            assert(!self@.contains(pid)) by {
                if self@.contains(pid) {
                    let q = choose |q: int| 0 <= q < self@.len() && self@[q] == pid;
                    assert(false);
                }
            }
        }
        self.pids.push(pid);
        true
    }

    /// Resolve a pid to its rank: the reply to a rank query. An
    /// unrecorded pid has none — a message from an unknown process.
    pub fn rank_of(&self, pid: u32) -> (r: Option<usize>)
        requires
            self.wf(),
        ensures
            r == self.spec_rank(pid),
    {
        let mut p: usize = 0;
        while p < self.pids.len()
            invariant
                self.wf(),
                p <= self@.len(),
                forall |q: int| 0 <= q < p ==> self@[q] != pid,
            decreases self@.len() - p,
        {
            if self.pids[p] == pid {
                proof {
                    let w = choose |r: int| 0 <= r < self@.len() && self@[r] == pid;
                    lemma_rank_unique(*self, pid, w, p as int);
                }
                return Some(p);
            }
            p += 1;
        }
        proof {
            if exists |r: int| 0 <= r < self@.len() && self@[r] == pid {
                let w = choose |r: int| 0 <= r < self@.len() && self@[r] == pid;
                assert(false);
            }
        }
        None
    }

    /// The number of spawned workers: the table's cardinality, which
    /// never changes for the life of one run.
    pub fn num_procs(&self) -> (r: usize)
        ensures
            r == self@.len(),
    {
        self.pids.len()
    }
}

/// Rank stability: a recorded pid sits at exactly one position of the
/// spawn order, so every query for it resolves to the same rank for
/// the lifetime of the table.
pub proof fn lemma_rank_unique(t: RankTable, pid: u32, r1: int, r2: int)
    requires
        t.wf(),
        0 <= r1 < t@.len(),
        0 <= r2 < t@.len(),
        t@[r1] == pid,
        t@[r2] == pid,
    ensures
        r1 == r2,
{
    if r1 < r2 {
        assert(t@[r1] != t@[r2]);
    }
    if r2 < r1 {
        assert(t@[r2] != t@[r1]);
    }
}

} // verus!
