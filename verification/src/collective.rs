//! Buffer arithmetic for the collective operations.
//!
//! Scatter and gather move one contiguous segment per rank, described
//! by a count and a displacement. The rules checked here — the counts
//! add up to the buffer's size, every segment stays inside the
//! receiving buffer, a received segment lands at its displacement —
//! are what the client stubs rely on before any byte moves.

use vstd::prelude::*;

verus! {

/// The sum of the first `n` counts.
pub open spec fn sum_prefix(s: Seq<usize>, n: int) -> int
    decreases n,
{
    if n <= 0 {
        0
    } else {
        sum_prefix(s, n - 1) + s[n - 1]
    }
}

/// The sum of all counts.
pub open spec fn sum_counts(s: Seq<usize>) -> int {
    sum_prefix(s, s.len() as int)
}

/// Add up the per-rank counts, refusing a total beyond the machine.
pub fn total_count(counts: &Vec<usize>) -> (r: Option<usize>)
    ensures
        match r {
            Some(t) => t == sum_counts(counts@),
            None => sum_counts(counts@) > usize::MAX,
        },
{
    let mut total: usize = 0;
    let mut i: usize = 0;
    while i < counts.len()
        invariant
            i <= counts@.len(),
            total == sum_prefix(counts@, i as int),
        decreases counts@.len() - i,
    {
        let c = counts[i];
        if total > usize::MAX - c {
            proof {
                lemma_sum_prefix_grows(counts@, i + 1, counts@.len() as int);
            }
            return None;
        }
        total = total + c;
        i += 1;
    }
    Some(total)
}

/// Prefix sums only grow: counts are never negative.
proof fn lemma_sum_prefix_grows(s: Seq<usize>, n: int, m: int)
    requires
        0 <= n <= m <= s.len(),
    ensures
        sum_prefix(s, n) <= sum_prefix(s, m),
    decreases m - n,
{
    if n < m {
        lemma_sum_prefix_grows(s, n + 1, m);
    }
}

/// Every rank's segment lies inside a buffer of `total` elements:
/// one displacement and count per rank, each segment in bounds.
pub open spec fn segments_within(counts: Seq<usize>, displs: Seq<usize>, total: int) -> bool {
    &&& counts.len() == displs.len()
    &&& (forall |i: int| 0 <= i < counts.len() ==> displs[i] + counts[i] <= total)
}

/// Check that every rank's segment stays inside a buffer of `total`
/// elements.
pub fn segments_in_bounds(counts: &Vec<usize>, displs: &Vec<usize>, total: usize) -> (r: bool)
    ensures
        r == segments_within(counts@, displs@, total as int),
{
    if counts.len() != displs.len() {
        return false;
    }
    let mut i: usize = 0;
    while i < counts.len()
        invariant
            counts@.len() == displs@.len(),
            i <= counts@.len(),
            forall |j: int| 0 <= j < i ==> displs@[j] + counts@[j] <= total,
        decreases counts@.len() - i,
    {
        let c = counts[i];
        let d = displs[i];
        if c > total || d > total - c {
            return false;
        }
        i += 1;
    }
    true
}

/// Write one received segment into the gather buffer at its
/// displacement: everything outside the segment's window stands as it
/// was, and the window holds exactly the segment, in order.
pub fn place_segment<T>(recv: &mut Vec<T>, displ: usize, seg: Vec<T>)
    requires
        displ + seg@.len() <= old(recv)@.len(),
    ensures
        final(recv)@.len() == old(recv)@.len(),
        forall |i: int| 0 <= i < displ ==> final(recv)@[i] == old(recv)@[i],
        forall |i: int|
            0 <= i < seg@.len() ==> final(recv)@[displ + i] == seg@[i],
        forall |i: int|
            displ + seg@.len() <= i < old(recv)@.len() ==> final(recv)@[i] == old(recv)@[i],
{
    let ghost gseg = seg@;
    let n = seg.len();
    let len0 = recv.len();
    let mut seg = seg;
    let mut k = n;
    while k > 0
        invariant
            k <= n,
            displ + n <= len0,
            n == gseg.len(),
            seg@ == gseg.subrange(0, k as int),
            displ + n <= recv@.len(),
            recv@.len() == old(recv)@.len(),
            forall |i: int| 0 <= i < displ + k ==> recv@[i] == old(recv)@[i],
            forall |i: int| k <= i < n ==> recv@[displ + i] == gseg[i],
            forall |i: int| displ + n <= i < old(recv)@.len() ==> recv@[i] == old(recv)@[i],
        decreases k,
    {
        k -= 1;
        let x = match seg.pop() {
            Some(x) => x,
            None => {
                proof {
                    assert(false);
                }
                vstd::pervasive::unreached()
            },
        };
        proof {
            assert(seg@ =~= gseg.subrange(0, k as int));
            assert(x == gseg[k as int]);
        }
        recv.set(displ + k, x);
    }
}

} // verus!
