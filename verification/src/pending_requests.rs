//! Range-based sync request planner.
//!
//! Tracks the set of in-flight height-range requests, the highest decided
//! height, and a cached `next_uncovered_range`: the smallest height interval
//! above the last validated height that no pending request covers, of length
//! at most `max_batch_size`.

use vstd::prelude::*;

use crate::{OutboundRequestId, PeerId};

verus! {

/// Inclusive range of consensus heights.
#[derive(Clone, Copy, PartialEq, Eq, Structural, Debug)]
pub struct HeightRange {
    pub start: u64,
    pub end: u64,
}

pub open spec fn range_valid(r: HeightRange) -> bool {
    r.start <= r.end
}

pub open spec fn range_contains(r: HeightRange, h: int) -> bool {
    r.start <= h <= r.end
}

pub open spec fn ranges_disjoint(a: HeightRange, b: HeightRange) -> bool {
    a.end < b.start || b.end < a.start
}

/// One pending request: its identifier, the height range in flight, and the
/// peer the request was sent to.
pub type PendingEntry = (OutboundRequestId, HeightRange, PeerId);

/// Height `h` lies inside some pending range of `reqs`.
pub open spec fn covered(reqs: Seq<PendingEntry>, h: int) -> bool {
    exists|i: int| 0 <= i < reqs.len() && #[trigger] range_contains(reqs[i].1, h)
}

/// The ranges of `reqs` are valid, pairwise disjoint, and leave arithmetic
/// headroom of one batch below `u64::MAX`.
pub open spec fn ranges_wf(reqs: Seq<PendingEntry>, batch: u64) -> bool {
    &&& batch >= 1
    &&& forall|i: int| 0 <= i < reqs.len() ==> range_valid(#[trigger] reqs[i].1)
    &&& forall|i: int, j: int|
        0 <= i < reqs.len() && 0 <= j < reqs.len() && i != j ==> ranges_disjoint(
            #[trigger] reqs[i].1,
            #[trigger] reqs[j].1,
        )
    &&& forall|i: int| 0 <= i < reqs.len() ==> (#[trigger] reqs[i].1).end + batch <= u64::MAX
}

/// `r` is the range the planner must expose when planning from height `seed`
/// over the pending ranges `reqs`: its start is the smallest uncovered height
/// at or above `seed`, the whole range is uncovered, and it is as long as the
/// batch size allows before hitting the next pending range.
pub open spec fn is_plan_from(reqs: Seq<PendingEntry>, batch: u64, seed: int, r: HeightRange) -> bool {
    &&& seed <= r.start
    &&& r.start <= r.end
    &&& forall|h: int| seed <= h < r.start ==> covered(reqs, h)
    &&& forall|h: int| r.start <= h <= r.end ==> !covered(reqs, h)
    &&& r.end - r.start < batch
    &&& (r.end - r.start + 1 == batch || covered(reqs, r.end + 1))
}

/// The planning outcome from a given seed is unique: any two ranges that both
/// satisfy `is_plan_from` are equal.
pub proof fn lemma_plan_unique(
    reqs: Seq<PendingEntry>,
    batch: u64,
    seed: int,
    r1: HeightRange,
    r2: HeightRange,
)
    requires
        is_plan_from(reqs, batch, seed, r1),
        is_plan_from(reqs, batch, seed, r2),
    ensures
        r1 == r2,
{
    if r1.start < r2.start {
        assert(covered(reqs, r1.start as int));
        assert(false);
    }
    if r2.start < r1.start {
        assert(covered(reqs, r2.start as int));
        assert(false);
    }
    if r1.end < r2.end {
        assert(!covered(reqs, r1.end + 1));
        assert(false);
    }
    if r2.end < r1.end {
        assert(!covered(reqs, r2.end + 1));
        assert(false);
    }
}

/// The largest end height among the pending ranges, or -1 when none.
pub open spec fn max_pending_end(reqs: Seq<PendingEntry>) -> int
    decreases reqs.len(),
{
    if reqs.len() == 0 {
        -1
    } else {
        let rest = max_pending_end(reqs.drop_last());
        if reqs.last().1.end > rest {
            reqs.last().1.end as int
        } else {
            rest
        }
    }
}

proof fn lemma_max_pending_end(reqs: Seq<PendingEntry>)
    ensures
        forall|i: int| 0 <= i < reqs.len() ==> (#[trigger] reqs[i].1).end <= max_pending_end(reqs),
    decreases reqs.len(),
{
    if reqs.len() > 0 {
        lemma_max_pending_end(reqs.drop_last());
        assert forall|i: int| 0 <= i < reqs.len() implies (#[trigger] reqs[i].1).end
            <= max_pending_end(reqs) by {
            if i < reqs.len() - 1 {
                assert(reqs.drop_last()[i] == reqs[i]);
            }
        }
    }
}

/// Scan for a pending range that contains `h`.
fn find_covering(requests: &Vec<PendingEntry>, h: u64) -> (r: Option<usize>)
    ensures
        match r {
            Some(i) => i < requests@.len() && range_contains(requests@[i as int].1, h as int),
            None => !covered(requests@, h as int),
        },
{
    let mut i: usize = 0;
    while i < requests.len()
        invariant
            i <= requests@.len(),
            forall|j: int| 0 <= j < i ==> !range_contains(#[trigger] requests@[j].1, h as int),
        decreases requests@.len() - i,
    {
        let rng = requests[i].1;
        if rng.start <= h && h <= rng.end {
            return Some(i);
        }
        i = i + 1;
    }
    None
}

/// Manages pending sync requests with a cached next uncovered range.
///
/// The start of `next_uncovered_range` serves as the current sync height.
/// All pending ranges are pairwise disjoint and end above the last validated
/// height, and the cached range is always the smallest uncovered interval
/// above the last validated height.
#[derive(Debug)]
pub struct PendingRequests {
    /// Pending requests: id, height range, peer.
    requests: Vec<PendingEntry>,
    /// Maximum batch size for ranges (at least 1).
    max_batch_size: u64,
    /// Pre-computed next uncovered range, always up to date.
    next_uncovered_range: HeightRange,
    /// Highest height that has been validated; monotonically non-decreasing.
    last_validated_height: u64,
}

impl PendingRequests {
    /// The pending requests, in insertion order.
    pub closed spec fn reqs(&self) -> Seq<PendingEntry> {
        self.requests@
    }

    /// The (clamped) maximum batch size.
    pub closed spec fn batch(&self) -> u64 {
        self.max_batch_size
    }

    /// The cached next uncovered range.
    pub closed spec fn next_range(&self) -> HeightRange {
        self.next_uncovered_range
    }

    /// The highest validated height.
    pub closed spec fn last_validated(&self) -> u64 {
        self.last_validated_height
    }

    /// Well-formedness: pending ranges are pairwise disjoint and end above the
    /// last validated height, request ids are unique, and the cached range is
    /// exactly the smallest uncovered interval above the last validated
    /// height — its start minimal, its end one full batch away or clamped
    /// just before the next pending range.
    pub open spec fn wf(&self) -> bool {
        &&& ranges_wf(self.reqs(), self.batch())
        &&& forall|i: int, j: int|
            0 <= i < j < self.reqs().len() ==> (#[trigger] self.reqs()[i]).0 != (
            #[trigger] self.reqs()[j]).0
        &&& forall|i: int| 0 <= i < self.reqs().len() ==> (#[trigger] self.reqs()[i]).1.end
            > self.last_validated()
        &&& self.last_validated() + self.batch() < u64::MAX
        &&& range_valid(self.next_range())
        &&& self.next_range().start > self.last_validated()
        &&& self.next_range().end - self.next_range().start < self.batch()
        &&& forall|h: int|
            self.last_validated() < h < self.next_range().start ==> covered(self.reqs(), h)
        &&& forall|h: int|
            self.next_range().start <= h <= self.next_range().end ==> !covered(self.reqs(), h)
        &&& (self.next_range().end - self.next_range().start + 1 == self.batch() || covered(
            self.reqs(),
            self.next_range().end + 1,
        ))
    }

    /// Compute the next uncovered range when planning from `initial_height`:
    /// advance past every pending range that covers the running start, then
    /// extend for up to one batch, stopping just before the next pending
    /// range.
    fn compute_next_uncovered_range_from(&self, initial_height: u64) -> (r: HeightRange)
        requires
            ranges_wf(self.reqs(), self.batch()),
            initial_height + self.batch() - 1 <= u64::MAX,
        ensures
            is_plan_from(self.reqs(), self.batch(), initial_height as int, r),
    {
        let ghost reqs = self.requests@;
        let mut start: u64 = initial_height;
        proof {
            lemma_max_pending_end(reqs);
        }
        loop
            invariant
                ranges_wf(reqs, self.batch()),
                self.requests@ == reqs,
                self.batch() == self.max_batch_size,
                initial_height <= start,
                start + self.batch() - 1 <= u64::MAX,
                forall|h: int| initial_height <= h < start ==> covered(reqs, h),
                forall|i: int| 0 <= i < reqs.len() ==> (#[trigger] reqs[i].1).end
                    <= max_pending_end(reqs),
            ensures
                initial_height <= start,
                start + self.batch() - 1 <= u64::MAX,
                forall|h: int| initial_height <= h < start ==> covered(reqs, h),
                !covered(reqs, start as int),
            decreases max_pending_end(reqs) + 1 - start,
        {
            match find_covering(&self.requests, start) {
                Some(i) => {
                    let covering = self.requests[i].1;
                    assert forall|h: int| initial_height <= h < covering.end + 1 implies covered(
                        reqs,
                        h,
                    ) by {
                        if h >= start {
                            assert(range_contains(reqs[i as int].1, h));
                        }
                    }
                    start = covering.end + 1;
                },
                None => {
                    break ;
                },
            }
        }
        // `start` is now the smallest uncovered height at or above the seed.
        let mut end: u64 = start + (self.max_batch_size - 1);
        let ghost full_end = end;
        let mut i: usize = 0;
        while i < self.requests.len()
            invariant
                ranges_wf(reqs, self.batch()),
                self.requests@ == reqs,
                self.batch() == self.max_batch_size,
                i <= reqs.len(),
                !covered(reqs, start as int),
                start <= end <= full_end,
                full_end == start + self.batch() - 1,
                forall|j: int| 0 <= j < i ==> !(start < (#[trigger] reqs[j].1).start <= end),
                end == full_end || (exists|j: int|
                    0 <= j < i && (#[trigger] reqs[j].1).start == end + 1),
            decreases self.requests@.len() - i,
        {
            let rs = self.requests[i].1.start;
            if start < rs && rs <= end {
                end = rs - 1;
            }
            i = i + 1;
        }
        proof {
            assert forall|h: int| start <= h <= end implies !covered(reqs, h) by {
                if covered(reqs, h) {
                    let k = choose|k: int|
                        0 <= k < reqs.len() && #[trigger] range_contains(reqs[k].1, h);
                    if reqs[k].1.start <= start {
                        assert(range_contains(reqs[k].1, start as int));
                        assert(covered(reqs, start as int));
                    } else {
                        assert(!(start < reqs[k].1.start <= end));
                    }
                }
            }
            if end != full_end {
                let j = choose|j: int| 0 <= j < i && (#[trigger] reqs[j].1).start == end + 1;
                assert(range_valid(reqs[j].1));
                assert(range_contains(reqs[j].1, end + 1));
                assert(covered(reqs, end + 1));
            }
        }
        HeightRange { start, end }
    }

    /// Create a planner that will sync from `initial_height` in batches of at
    /// most `max_batch_size` (clamped to at least 1). The last validated
    /// height starts one below the initial height.
    pub fn new(initial_height: u64, max_batch_size: u64) -> (r: Self)
        requires
            1 <= initial_height,
            initial_height + max_batch_size < u64::MAX,
        ensures
            r.wf(),
            r.reqs() == Seq::<PendingEntry>::empty(),
            r.batch() == if max_batch_size >= 1 {
                max_batch_size
            } else {
                1u64
            },
            r.last_validated() == initial_height - 1,
            r.next_range().start == initial_height,
            r.next_range().end == initial_height + r.batch() - 1,
    {
        let batch: u64 = if max_batch_size >= 1 {
            max_batch_size
        } else {
            1
        };
        let end_height: u64 = initial_height + (batch - 1);
        let r = PendingRequests {
            requests: Vec::new(),
            max_batch_size: batch,
            next_uncovered_range: HeightRange { start: initial_height, end: end_height },
            last_validated_height: initial_height - 1,
        };
        proof {
            assert forall|h: int|
                r.last_validated() < h < r.next_range().start implies covered(r.reqs(), h) by {}
        }
        r
    }

    /// The current effective sync height: the start of the next uncovered
    /// range.
    pub fn current_sync_height(&self) -> (r: u64)
        ensures
            r == self.next_range().start,
    {
        self.next_uncovered_range.start
    }

    /// The highest validated height.
    pub fn last_validated_height(&self) -> (r: u64)
        ensures
            r == self.last_validated(),
    {
        self.last_validated_height
    }

    /// The number of pending requests.
    pub fn len(&self) -> (r: usize)
        ensures
            r == self.reqs().len(),
    {
        self.requests.len()
    }

    /// Whether no request is pending.
    pub fn is_empty(&self) -> (r: bool)
        ensures
            r == (self.reqs().len() == 0),
    {
        self.requests.len() == 0
    }

    /// The next range that should be requested: the smallest uncovered range
    /// above the last validated height.
    pub fn next_uncovered_range(&self) -> (r: HeightRange)
        ensures
            r == self.next_range(),
    {
        self.next_uncovered_range
    }

    /// Look up a pending request by its id.
    pub fn get(&self, request_id: &OutboundRequestId) -> (r: Option<(HeightRange, PeerId)>)
        ensures
            match r {
                Some(entry) => exists|i: int|
                    0 <= i < self.reqs().len() && #[trigger] self.reqs()[i] == (
                    *request_id,
                    entry.0,
                    entry.1,
                    ),
                None => forall|i: int| 0 <= i < self.reqs().len() ==> (#[trigger] self.reqs()[i]).0
                    != *request_id,
            },
    {
        let mut i: usize = 0;
        while i < self.requests.len()
            invariant
                i <= self.reqs().len(),
                forall|j: int| 0 <= j < i ==> (#[trigger] self.reqs()[j]).0 != *request_id,
            decreases self.reqs().len() - i,
        {
            let entry = self.requests[i];
            if entry.0.id == request_id.id {
                return Some((entry.1, entry.2));
            }
            i = i + 1;
        }
        None
    }

    /// Locate the pending request that covers `height`, if any.
    pub fn get_request_id_by(&self, height: u64) -> (r: Option<(OutboundRequestId, PeerId)>)
        ensures
            match r {
                Some(found) => exists|i: int|
                    0 <= i < self.reqs().len() && #[trigger] self.reqs()[i].0 == found.0
                        && self.reqs()[i].2 == found.1 && range_contains(
                        self.reqs()[i].1,
                        height as int,
                    ),
                None => !covered(self.reqs(), height as int),
            },
    {
        match find_covering(&self.requests, height) {
            Some(i) => {
                let entry = self.requests[i];
                proof {
                    assert(self.reqs()[i as int].0 == entry.0);
                }
                Some((entry.0, entry.2))
            },
            None => None,
        }
    }

    /// The pending ranges and peers, in insertion order.
    pub fn values(&self) -> (r: Vec<(HeightRange, PeerId)>)
        ensures
            r@.len() == self.reqs().len(),
            forall|i: int| 0 <= i < self.reqs().len() ==> #[trigger] r@[i] == (
            self.reqs()[i].1,
            self.reqs()[i].2,
            ),
    {
        let mut out: Vec<(HeightRange, PeerId)> = Vec::new();
        let mut i: usize = 0;
        while i < self.requests.len()
            invariant
                i <= self.reqs().len(),
                out@.len() == i,
                forall|j: int| 0 <= j < i ==> #[trigger] out@[j] == (
                self.reqs()[j].1,
                self.reqs()[j].2,
                ),
            decreases self.reqs().len() - i,
        {
            let entry = self.requests[i];
            out.push((entry.1, entry.2));
            i = i + 1;
        }
        out
    }

    /// Record a new pending request and update the cached next range.
    ///
    /// The inserted range must respect the planner's invariants: a fresh id,
    /// a valid range disjoint from every pending range, ending above the last
    /// validated height, and not starting strictly inside the cached next
    /// range (requests are issued from ranges the planner itself exposed, so
    /// this holds for every range obtained from `next_uncovered_range`).
    pub fn insert(&mut self, request_id: OutboundRequestId, range: HeightRange, peer_id: PeerId)
        requires
            old(self).wf(),
            forall|i: int| 0 <= i < old(self).reqs().len() ==> (#[trigger] old(self).reqs()[i]).0
                != request_id,
            range.start <= range.end,
            range.end > old(self).last_validated(),
            range.end + old(self).batch() <= u64::MAX,
            forall|i: int|
                0 <= i < old(self).reqs().len() ==> ranges_disjoint(
                    (#[trigger] old(self).reqs()[i]).1,
                    range,
                ),
            !(old(self).next_range().start < range.start <= old(self).next_range().end),
        ensures
            final(self).wf(),
            final(self).reqs() == old(self).reqs().push((request_id, range, peer_id)),
            final(self).batch() == old(self).batch(),
            final(self).last_validated() == old(self).last_validated(),
            range.start > old(self).next_range().end ==> final(self).next_range() == old(
                self,
            ).next_range(),
            range.end < old(self).next_range().start ==> final(self).next_range() == old(
                self,
            ).next_range(),
            range.start <= old(self).next_range().start && old(self).next_range().start
                <= range.end ==> is_plan_from(
                final(self).reqs(),
                final(self).batch(),
                range.end + 1,
                final(self).next_range(),
            ),
    {
        let ghost pre = *self;
        self.requests.push((request_id, range, peer_id));
        proof {
            lemma_covered_push(pre.reqs(), (request_id, range, peer_id));
            assert forall|i: int, j: int|
                0 <= i < self.reqs().len() && 0 <= j < self.reqs().len() && i
                    != j implies ranges_disjoint(
                #[trigger] self.reqs()[i].1,
                #[trigger] self.reqs()[j].1,
            ) by {
                if i < pre.reqs().len() && j < pre.reqs().len() {
                    assert(ranges_disjoint(pre.reqs()[i].1, pre.reqs()[j].1));
                }
            }
        }
        if range.start > self.next_uncovered_range.end {
            // The new range lies entirely after the cached range.
            proof {
                assert forall|h: int|
                    self.next_range().start <= h <= self.next_range().end implies !covered(
                    self.reqs(),
                    h,
                ) by {
                    assert(!covered(pre.reqs(), h));
                    assert(!range_contains(range, h));
                }
            }
        } else if range.start <= self.next_uncovered_range.end && range.end
            >= self.next_uncovered_range.start {
            // The new range overlaps the cached range: plan again from just
            // after the inserted range.
            let new_start = range.end + 1;
            let nr = self.compute_next_uncovered_range_from(new_start);
            proof {
                assert forall|h: int|
                    self.last_validated() < h < nr.start implies covered(self.reqs(), h) by {
                    if h < pre.next_range().start {
                        assert(covered(pre.reqs(), h));
                    } else if h <= range.end {
                        assert(range_contains(range, h));
                    }
                }
            }
            self.next_uncovered_range = nr;
        } else {
            // The new range lies entirely below the cached range.
            proof {
                assert forall|h: int|
                    self.next_range().start <= h <= self.next_range().end implies !covered(
                    self.reqs(),
                    h,
                ) by {
                    assert(!covered(pre.reqs(), h));
                    assert(!range_contains(range, h));
                }
            }
        }
    }

    /// Record a request for the next uncovered range itself, the planner's
    /// usual flow: take the exposed range, send it, and insert it. The
    /// exposed range needs no disjointness from the caller: it is uncovered
    /// by construction.
    pub fn insert_next(&mut self, request_id: OutboundRequestId, peer_id: PeerId) -> (r:
        HeightRange)
        requires
            old(self).wf(),
            forall|i: int| 0 <= i < old(self).reqs().len() ==> (#[trigger] old(self).reqs()[i]).0
                != request_id,
            old(self).next_range().end + old(self).batch() <= u64::MAX,
        ensures
            final(self).wf(),
            r == old(self).next_range(),
            final(self).reqs() == old(self).reqs().push((request_id, r, peer_id)),
            final(self).batch() == old(self).batch(),
            final(self).last_validated() == old(self).last_validated(),
            is_plan_from(final(self).reqs(), final(self).batch(), r.end + 1, final(self).next_range()),
    {
        let r = self.next_uncovered_range;
        proof {
            assert forall|i: int| 0 <= i < self.reqs().len() implies ranges_disjoint(
                (#[trigger] self.reqs()[i]).1,
                r,
            ) by {
                let p = self.reqs()[i].1;
                if !(p.end < r.start || r.end < p.start) {
                    // An overlap would put a height of the pending range
                    // inside the exposed range, which is uncovered.
                    let h: int = if p.start > r.start {
                        p.start as int
                    } else {
                        r.start as int
                    };
                    assert(range_contains(p, h));
                    assert(covered(self.reqs(), h));
                    assert(false);
                }
            }
        }
        self.insert(request_id, r, peer_id);
        r
    }

    /// Retire an in-flight request. When the removed range sits below the
    /// cached next range, planning restarts from the removed range's start
    /// (clamped above the last validated height) so that the freshly exposed
    /// heights are offered again; otherwise planning restarts from the same
    /// start, extending the cached range if the removed request had been
    /// clamping its end.
    pub fn remove(&mut self, request_id: &OutboundRequestId) -> (r: Option<(HeightRange, PeerId)>)
        requires
            old(self).wf(),
        ensures
            final(self).wf(),
            final(self).batch() == old(self).batch(),
            final(self).last_validated() == old(self).last_validated(),
            match r {
                Some(entry) => {
                    &&& exists|i: int|
                        0 <= i < old(self).reqs().len() && #[trigger] old(self).reqs()[i] == (
                        *request_id,
                        entry.0,
                        entry.1,
                        ) && final(self).reqs() == old(self).reqs().remove(i)
                    &&& entry.0.end < old(self).next_range().start ==> is_plan_from(
                        final(self).reqs(),
                        final(self).batch(),
                        if entry.0.start > old(self).last_validated() {
                            entry.0.start as int
                        } else {
                            old(self).last_validated() + 1
                        },
                        final(self).next_range(),
                    )
                    &&& entry.0.end >= old(self).next_range().start ==> is_plan_from(
                        final(self).reqs(),
                        final(self).batch(),
                        old(self).next_range().start as int,
                        final(self).next_range(),
                    ) && final(self).next_range().start == old(self).next_range().start
                },
                None => {
                    &&& final(self).reqs() == old(self).reqs()
                    &&& final(self).next_range() == old(self).next_range()
                    &&& forall|i: int| 0 <= i < old(self).reqs().len() ==> (#[trigger] old(
                        self,
                    ).reqs()[i]).0 != *request_id
                },
            },
    {
        let ghost pre = *self;
        let idx = match find_by_id(&self.requests, request_id) {
            Some(idx) => idx,
            None => {
                return None;
            },
        };
        proof {
            lemma_covered_remove(pre.reqs(), idx as int, pre.batch());
        }
        let entry = self.requests.remove(idx);
        let removed_range = entry.1;
        proof {
            assert forall|i1: int, j1: int|
                0 <= i1 < self.reqs().len() && 0 <= j1 < self.reqs().len() && i1
                    != j1 implies ranges_disjoint(
                #[trigger] self.reqs()[i1].1,
                #[trigger] self.reqs()[j1].1,
            ) by {
                let s1: int = if i1 < idx {
                    i1
                } else {
                    i1 + 1
                };
                let s2: int = if j1 < idx {
                    j1
                } else {
                    j1 + 1
                };
                assert(self.reqs()[i1] == pre.reqs()[s1]);
                assert(self.reqs()[j1] == pre.reqs()[s2]);
                assert(ranges_disjoint(pre.reqs()[s1].1, pre.reqs()[s2].1));
            }
            assert forall|i1: int, j1: int| 0 <= i1 < j1 < self.reqs().len() implies (
            #[trigger] self.reqs()[i1]).0 != (#[trigger] self.reqs()[j1]).0 by {
                let s1: int = if i1 < idx {
                    i1
                } else {
                    i1 + 1
                };
                let s2: int = if j1 < idx {
                    j1
                } else {
                    j1 + 1
                };
                assert(self.reqs()[i1] == pre.reqs()[s1]);
                assert(self.reqs()[j1] == pre.reqs()[s2]);
                assert(pre.reqs()[s1].0 != pre.reqs()[s2].0);
            }
            assert forall|i1: int| 0 <= i1 < self.reqs().len() implies range_valid(
                (#[trigger] self.reqs()[i1]).1,
            ) && self.reqs()[i1].1.end + self.batch() <= u64::MAX && self.reqs()[i1].1.end
                > self.last_validated() by {
                let s1: int = if i1 < idx {
                    i1
                } else {
                    i1 + 1
                };
                assert(self.reqs()[i1] == pre.reqs()[s1]);
                assert(range_valid(pre.reqs()[s1].1));
            }
        }
        if removed_range.end < self.next_uncovered_range.start {
            // Heights of the removed range are exposed again: plan from its
            // start, clamped above the last validated height.
            let seed: u64 = if removed_range.start > self.last_validated_height {
                removed_range.start
            } else {
                self.last_validated_height + 1
            };
            proof {
                assert(range_valid(pre.reqs()[idx as int].1));
            }
            let nr = self.compute_next_uncovered_range_from(seed);
            proof {
                assert forall|h: int| self.last_validated() < h < nr.start implies covered(
                    self.reqs(),
                    h,
                ) by {
                    if h < seed {
                        // Below the seed nothing of the removed range lies, so
                        // the old covering witness survives the removal.
                        assert(h < pre.next_range().start);
                        assert(covered(pre.reqs(), h));
                        assert(!range_contains(removed_range, h));
                    }
                }
            }
            self.next_uncovered_range = nr;
        } else {
            // The removed range lies entirely after the cached range: had it
            // started at or before the cached end, it would cover the cached
            // start, which is uncovered.
            proof {
                assert(range_valid(removed_range));
                if removed_range.start <= pre.next_range().end {
                    let lo: int = if removed_range.start > pre.next_range().start {
                        removed_range.start as int
                    } else {
                        pre.next_range().start as int
                    };
                    assert(range_contains(removed_range, lo));
                    assert(range_contains(pre.reqs()[idx as int].1, lo));
                    assert(covered(pre.reqs(), lo));
                    assert(false);
                }
                // The planning seed keeps one batch of headroom: either it
                // sits right above the last validated height, or the height
                // below it is covered by a pending range, which has the
                // headroom itself.
                if pre.next_range().start > pre.last_validated() + 1 {
                    assert(covered(pre.reqs(), pre.next_range().start - 1));
                    let i0 = choose|i0: int|
                        0 <= i0 < pre.reqs().len() && #[trigger] range_contains(
                            pre.reqs()[i0].1,
                            pre.next_range().start - 1,
                        );
                    assert(pre.reqs()[i0].1.end + pre.batch() <= u64::MAX);
                }
            }
            // The removed range cannot expose an earlier start, but it may
            // have been the range clamping the cached end: plan again from
            // the same start.
            let nr = self.compute_next_uncovered_range_from(self.next_uncovered_range.start);
            proof {
                assert forall|h: int| self.last_validated() < h < nr.start implies covered(
                    self.reqs(),
                    h,
                ) by {
                    if h < pre.next_range().start {
                        assert(covered(pre.reqs(), h));
                        assert(!range_contains(removed_range, h));
                    }
                }
                if nr.start != pre.next_range().start {
                    assert(covered(self.reqs(), pre.next_range().start as int));
                    assert(covered(pre.reqs(), pre.next_range().start as int));
                    assert(false);
                }
            }
            self.next_uncovered_range = nr;
        }
        Some((entry.1, entry.2))
    }

    /// Remove all pending requests that end at or below `height`, called when
    /// consensus decides at `height`. The last validated height advances to
    /// `height` and planning restarts from the next height. A call with a
    /// height below the last validated height would be non-monotonic
    /// progress: it is ignored.
    pub fn remove_requests_up_to(&mut self, height: u64)
        requires
            old(self).wf(),
            old(self).last_validated() <= height ==> height + old(self).batch() < u64::MAX,
        ensures
            final(self).wf(),
            remove_up_to_rel(*old(self), height, *final(self)),
            final(self).last_validated() >= old(self).last_validated(),
    {
        if height < self.last_validated_height {
            return ;
        }
        let ghost pre = *self;
        let mut kept: Vec<PendingEntry> = Vec::new();
        let mut i: usize = 0;
        while i < self.requests.len()
            invariant
                *self == pre,
                i <= pre.reqs().len(),
                kept@ == retained(pre.reqs().take(i as int), height),
            decreases pre.reqs().len() - i,
        {
            let entry = self.requests[i];
            proof {
                lemma_retained_take_step(pre.reqs(), i as int, height);
            }
            if entry.1.end > height {
                kept.push(entry);
            }
            i = i + 1;
        }
        proof {
            assert(pre.reqs().take(pre.reqs().len() as int) =~= pre.reqs());
            lemma_retained_wf(pre.reqs(), height, pre.batch());
        }
        self.requests = kept;
        self.last_validated_height = height;
        let nr = self.compute_next_uncovered_range_from(height + 1);
        proof {
            assert forall|h: int| self.last_validated() < h < nr.start implies covered(
                self.reqs(),
                h,
            ) by {}
        }
        self.next_uncovered_range = nr;
    }
}

/// What `remove_requests_up_to` does: a call below the last validated height
/// changes nothing; otherwise exactly the requests ending after `height` are
/// retained, the last validated height becomes `height`, and the next range
/// is planned from `height + 1`.
pub open spec fn remove_up_to_rel(pre: PendingRequests, height: u64, post: PendingRequests) -> bool {
    if height < pre.last_validated() {
        &&& post.reqs() == pre.reqs()
        &&& post.batch() == pre.batch()
        &&& post.last_validated() == pre.last_validated()
        &&& post.next_range() == pre.next_range()
    } else {
        &&& post.reqs() == retained(pre.reqs(), height)
        &&& post.batch() == pre.batch()
        &&& post.last_validated() == height
        &&& is_plan_from(post.reqs(), post.batch(), height + 1, post.next_range())
    }
}

/// The pending entries whose range ends strictly after `height`: exactly the
/// requests that survive a decision at `height`.
pub open spec fn retained(reqs: Seq<PendingEntry>, height: u64) -> Seq<PendingEntry> {
    reqs.filter(|e: PendingEntry| e.1.end > height)
}

/// Building `retained` row by row: appending one entry appends it to the
/// retained sequence exactly when its range ends after `height`.
proof fn lemma_retained_take_step(reqs: Seq<PendingEntry>, i: int, height: u64)
    requires
        0 <= i < reqs.len(),
    ensures
        retained(reqs.take(i + 1), height) == if reqs[i].1.end > height {
            retained(reqs.take(i), height).push(reqs[i])
        } else {
            retained(reqs.take(i), height)
        },
{
    reveal(Seq::filter);
    let s = reqs.take(i + 1);
    assert(s.len() == i + 1);
    assert(s.last() == reqs[i]);
    assert(s.drop_last() =~= reqs.take(i));
}

/// Every entry of `retained` is an entry of the original sequence, the
/// retained entries keep the original well-formedness, and each one ends
/// after `height`.
proof fn lemma_retained_wf(reqs: Seq<PendingEntry>, height: u64, batch: u64)
    requires
        ranges_wf(reqs, batch),
        forall|i: int, j: int|
            0 <= i < j < reqs.len() ==> (#[trigger] reqs[i]).0 != (#[trigger] reqs[j]).0,
    ensures
        ranges_wf(retained(reqs, height), batch),
        forall|i: int, j: int|
            0 <= i < j < retained(reqs, height).len() ==> (#[trigger] retained(reqs, height)[i]).0
                != (#[trigger] retained(reqs, height)[j]).0,
        forall|i: int| 0 <= i < retained(reqs, height).len() ==> reqs.contains(
            #[trigger] retained(reqs, height)[i],
        ),
        forall|i: int| 0 <= i < retained(reqs, height).len() ==> (#[trigger] retained(
            reqs,
            height,
        )[i]).1.end > height,
    decreases reqs.len(),
{
    reveal(Seq::filter);
    let out = retained(reqs, height);
    if reqs.len() == 0 {
        assert(out.len() == 0);
    } else {
        let prefix = reqs.drop_last();
        let last = reqs.last();
        assert forall|i: int, j: int| 0 <= i < j < prefix.len() implies (#[trigger] prefix[i]).0 != (
        #[trigger] prefix[j]).0 by {
            assert(prefix[i] == reqs[i] && prefix[j] == reqs[j]);
        }
        lemma_retained_wf(prefix, height, batch);
        let sub = retained(prefix, height);
        assert forall|i: int| 0 <= i < sub.len() implies reqs.contains(#[trigger] sub[i]) by {
            let j = choose|j: int| 0 <= j < prefix.len() && prefix[j] == sub[i];
            assert(reqs[j] == sub[i]);
        }
        if last.1.end > height {
            assert(out == sub.push(last));
            assert(reqs[reqs.len() - 1] == last);
            assert forall|i: int, j: int|
                0 <= i < out.len() && 0 <= j < out.len() && i != j implies ranges_disjoint(
                #[trigger] out[i].1,
                #[trigger] out[j].1,
            ) && out[i].0 != out[j].0 by {
                if i < sub.len() && j < sub.len() {
                    assert(out[i] == sub[i] && out[j] == sub[j]);
                    assert(ranges_disjoint(sub[i].1, sub[j].1));
                    if i < j {
                        assert(sub[i].0 != sub[j].0);
                    } else {
                        assert(sub[j].0 != sub[i].0);
                    }
                } else {
                    let (a, b): (int, int) = if i < sub.len() {
                        (i, j)
                    } else {
                        (j, i)
                    };
                    assert(out[b] == last);
                    assert(out[a] == sub[a]);
                    let k = choose|k: int| 0 <= k < prefix.len() && prefix[k] == sub[a];
                    assert(reqs[k] == sub[a]);
                    assert(ranges_disjoint(reqs[k].1, reqs[reqs.len() - 1].1));
                    assert(reqs[k].0 != reqs[reqs.len() - 1].0);
                }
            }
            assert forall|i: int| 0 <= i < out.len() implies range_valid((#[trigger] out[i]).1) && (
            out[i]).1.end + batch <= u64::MAX && out[i].1.end > height && reqs.contains(out[i]) by {
                if i < sub.len() {
                    assert(out[i] == sub[i]);
                    let k = choose|k: int| 0 <= k < reqs.len() && reqs[k] == sub[i];
                    assert(range_valid(reqs[k].1));
                } else {
                    assert(out[i] == last);
                    assert(reqs[reqs.len() - 1] == last);
                    assert(range_valid(reqs[reqs.len() - 1].1));
                }
            }
        } else {
            assert(out == sub);
        }
    }
}

/// Retaining twice collapses to retaining at the higher height.
proof fn lemma_retained_twice(reqs: Seq<PendingEntry>, h1: u64, h2: u64)
    requires
        h1 <= h2,
    ensures
        retained(retained(reqs, h1), h2) == retained(reqs, h2),
    decreases reqs.len(),
{
    reveal(Seq::filter);
    if reqs.len() == 0 {
        assert(retained(reqs, h1).len() == 0);
    } else {
        let prefix = reqs.drop_last();
        let last = reqs.last();
        lemma_retained_twice(prefix, h1, h2);
        if last.1.end > h1 {
            assert(retained(reqs, h1) == retained(prefix, h1).push(last));
            assert(retained(reqs, h1).drop_last() =~= retained(prefix, h1));
            assert(retained(reqs, h1).last() == last);
        } else {
            assert(retained(reqs, h1) == retained(prefix, h1));
            assert(!(last.1.end > h2));
            assert(retained(reqs, h2) == retained(prefix, h2));
        }
    }
}

/// Removing requests up to `h` and then up to `h2 >= h` leaves the planner in
/// the same state as the single call up to `h2`: the same pending requests,
/// the same last validated height, and the same next uncovered range.
pub proof fn lemma_remove_up_to_composes(
    pre: PendingRequests,
    mid: PendingRequests,
    post: PendingRequests,
    direct: PendingRequests,
    h: u64,
    h2: u64,
)
    requires
        h <= h2,
        remove_up_to_rel(pre, h, mid),
        remove_up_to_rel(mid, h2, post),
        remove_up_to_rel(pre, h2, direct),
    ensures
        post.reqs() == direct.reqs(),
        post.batch() == direct.batch(),
        post.last_validated() == direct.last_validated(),
        post.next_range() == direct.next_range(),
{
    if h2 < pre.last_validated() {
        // Both heights are stale: every call is a no-op.
    } else if h < pre.last_validated() {
        // The first call is a no-op; the second call acts like the single one.
        lemma_plan_unique(post.reqs(), post.batch(), h2 + 1, post.next_range(), direct.next_range());
    } else {
        // Both calls act: retaining twice collapses to the higher height.
        lemma_retained_twice(pre.reqs(), h, h2);
        assert(post.reqs() == direct.reqs());
        lemma_plan_unique(post.reqs(), post.batch(), h2 + 1, post.next_range(), direct.next_range());
    }
}

/// Scan for the pending request with the given id.
fn find_by_id(requests: &Vec<PendingEntry>, request_id: &OutboundRequestId) -> (r: Option<usize>)
    ensures
        match r {
            Some(i) => i < requests@.len() && requests@[i as int].0 == *request_id,
            None => forall|j: int| 0 <= j < requests@.len() ==> (#[trigger] requests@[j]).0
                != *request_id,
        },
{
    let mut i: usize = 0;
    while i < requests.len()
        invariant
            i <= requests@.len(),
            forall|j: int| 0 <= j < i ==> (#[trigger] requests@[j]).0 != *request_id,
        decreases requests@.len() - i,
    {
        if requests[i].0.id == request_id.id {
            return Some(i);
        }
        i = i + 1;
    }
    None
}

/// Removing an entry removes coverage of exactly that entry's range: by
/// disjointness every other height keeps its covering witness.
proof fn lemma_covered_remove(reqs: Seq<PendingEntry>, k: int, batch: u64)
    requires
        ranges_wf(reqs, batch),
        0 <= k < reqs.len(),
    ensures
        forall|h: int| #[trigger]
            covered(reqs.remove(k), h) <==> covered(reqs, h) && !range_contains(reqs[k].1, h),
{
    let rest = reqs.remove(k);
    assert forall|h: int| #[trigger] covered(rest, h) implies covered(reqs, h) && !range_contains(
        reqs[k].1,
        h,
    ) by {
        let i = choose|i: int| 0 <= i < rest.len() && #[trigger] range_contains(rest[i].1, h);
        let j: int = if i < k {
            i
        } else {
            i + 1
        };
        assert(rest[i] == reqs[j]);
        assert(range_contains(reqs[j].1, h));
        assert(ranges_disjoint(reqs[j].1, reqs[k].1));
    }
    assert forall|h: int| covered(reqs, h) && !range_contains(reqs[k].1, h) implies #[trigger] covered(
        rest,
        h,
    ) by {
        let j = choose|j: int| 0 <= j < reqs.len() && #[trigger] range_contains(reqs[j].1, h);
        let i: int = if j < k {
            j
        } else {
            j - 1
        };
        assert(rest[i] == reqs[j]);
        assert(range_contains(rest[i].1, h));
    }
}

/// Pushing an entry extends coverage by exactly that entry's range.
proof fn lemma_covered_push(reqs: Seq<PendingEntry>, e: PendingEntry)
    ensures
        forall|h: int| #[trigger]
            covered(reqs.push(e), h) <==> covered(reqs, h) || range_contains(e.1, h),
{
    assert forall|h: int| #[trigger] covered(reqs.push(e), h) implies covered(reqs, h)
        || range_contains(e.1, h) by {
        let i = choose|i: int|
            0 <= i < reqs.push(e).len() && #[trigger] range_contains(reqs.push(e)[i].1, h);
        if i < reqs.len() {
            assert(range_contains(reqs[i].1, h));
        } else {
            assert(reqs.push(e)[i] == e);
        }
    }
    assert forall|h: int| covered(reqs, h) || range_contains(e.1, h) implies #[trigger] covered(
        reqs.push(e),
        h,
    ) by {
        if covered(reqs, h) {
            let i = choose|i: int| 0 <= i < reqs.len() && #[trigger] range_contains(reqs[i].1, h);
            assert(reqs.push(e)[i] == reqs[i]);
            assert(range_contains(reqs.push(e)[i].1, h));
        } else {
            assert(reqs.push(e)[reqs.len() as int] == e);
            assert(range_contains(reqs.push(e)[reqs.len() as int].1, h));
        }
    }
}

} // verus!
