//! Scenario tests for the sync request planner.

use nodecore::pending_requests::{HeightRange, PendingRequests};
use nodecore::{OutboundRequestId, PeerId};

fn rid(id: u64) -> OutboundRequestId {
    OutboundRequestId { id }
}

fn peer(id: u64) -> PeerId {
    PeerId { id }
}

fn range(start: u64, end: u64) -> HeightRange {
    HeightRange { start, end }
}

#[test]
fn initial_plan() {
    let p = PendingRequests::new(10, 5);
    assert_eq!(p.next_uncovered_range(), range(10, 14));
    assert_eq!(p.last_validated_height(), 9);
    assert_eq!(p.current_sync_height(), 10);
    assert_eq!(p.len(), 0);
    assert!(p.is_empty());
}

#[test]
fn batch_size_clamped_to_one() {
    let p = PendingRequests::new(7, 0);
    assert_eq!(p.next_uncovered_range(), range(7, 7));
    assert_eq!(p.last_validated_height(), 6);
}

#[test]
fn single_request_retirement() {
    let mut p = PendingRequests::new(10, 5);
    p.insert(rid(1), range(10, 14), peer(100));
    assert_eq!(p.next_uncovered_range(), range(15, 19));
    assert_eq!(p.len(), 1);
    let removed = p.remove(&rid(1));
    assert_eq!(removed, Some((range(10, 14), peer(100))));
    assert_eq!(p.next_uncovered_range(), range(10, 14));
    assert!(p.is_empty());
}

#[test]
fn decision_collapses_prefix() {
    let mut p = PendingRequests::new(10, 5);
    p.insert(rid(1), range(10, 14), peer(100));
    p.insert(rid(2), range(15, 19), peer(101));
    assert_eq!(p.next_uncovered_range(), range(20, 24));
    p.remove_requests_up_to(17);
    // The range ending at 14 is dropped; the one ending at 19 is kept since
    // 19 > 17. Planning from 18 advances past the kept range.
    assert_eq!(p.len(), 1);
    assert_eq!(p.get(&rid(1)), None);
    assert_eq!(p.get(&rid(2)), Some((range(15, 19), peer(101))));
    assert_eq!(p.last_validated_height(), 17);
    assert_eq!(p.next_uncovered_range(), range(20, 24));
}

#[test]
fn removal_reexposes_gap_and_clamps() {
    let mut p = PendingRequests::new(10, 5);
    p.insert(rid(1), range(10, 14), peer(1));
    p.insert(rid(2), range(15, 19), peer(2));
    let removed = p.remove(&rid(1));
    assert_eq!(removed, Some((range(10, 14), peer(1))));
    // The freshly exposed gap is offered again, clamped before the pending
    // range that follows it.
    assert_eq!(p.next_uncovered_range(), range(10, 14));
    p.remove_requests_up_to(13);
    assert_eq!(p.last_validated_height(), 13);
    // 14 is uncovered; the range is clamped just before the kept request.
    assert_eq!(p.next_uncovered_range(), range(14, 14));
    assert_eq!(p.len(), 1);
}

#[test]
fn non_monotonic_decision_is_ignored() {
    let mut p = PendingRequests::new(10, 5);
    p.remove_requests_up_to(15);
    assert_eq!(p.last_validated_height(), 15);
    assert_eq!(p.next_uncovered_range(), range(16, 20));
    // A decision below the last validated height is non-monotonic progress
    // and changes nothing.
    p.remove_requests_up_to(12);
    assert_eq!(p.last_validated_height(), 15);
    assert_eq!(p.next_uncovered_range(), range(16, 20));
}

#[test]
fn decisions_compose() {
    // Removing up to 12 and then up to 17 leaves the same state as the
    // single call up to 17.
    let mut a = PendingRequests::new(10, 5);
    a.insert(rid(1), range(10, 14), peer(1));
    a.insert(rid(2), range(15, 19), peer(2));
    let mut b = PendingRequests::new(10, 5);
    b.insert(rid(1), range(10, 14), peer(1));
    b.insert(rid(2), range(15, 19), peer(2));
    a.remove_requests_up_to(12);
    a.remove_requests_up_to(17);
    b.remove_requests_up_to(17);
    assert_eq!(a.last_validated_height(), b.last_validated_height());
    assert_eq!(a.next_uncovered_range(), b.next_uncovered_range());
    assert_eq!(a.len(), b.len());
    assert_eq!(a.values(), b.values());
}

#[test]
fn pending_ranges_stay_disjoint() {
    let mut p = PendingRequests::new(1, 3);
    let mut ranges: Vec<HeightRange> = Vec::new();
    for k in 0..4u64 {
        let r = p.next_uncovered_range();
        p.insert(rid(k), r, peer(k));
        ranges.push(r);
    }
    p.remove(&rid(1));
    let kept: Vec<(HeightRange, PeerId)> = p.values();
    for i in 0..kept.len() {
        for j in 0..kept.len() {
            if i != j {
                let a = kept[i].0;
                let b = kept[j].0;
                assert!(a.end < b.start || b.end < a.start);
            }
        }
    }
    // The cached range starts at the smallest uncovered height above the
    // last validated height: the hole left by the removed request.
    assert_eq!(p.next_uncovered_range(), ranges[1]);
}

#[test]
fn lookup_by_height() {
    let mut p = PendingRequests::new(10, 5);
    p.insert(rid(7), range(10, 14), peer(3));
    assert_eq!(p.get_request_id_by(12), Some((rid(7), peer(3))));
    assert_eq!(p.get_request_id_by(15), None);
    assert_eq!(p.get_request_id_by(9), None);
}

#[test]
fn values_lists_ranges_and_peers() {
    let mut p = PendingRequests::new(10, 2);
    p.insert(rid(1), range(10, 11), peer(5));
    p.insert(rid(2), range(12, 13), peer(6));
    let v = p.values();
    assert_eq!(v, vec![(range(10, 11), peer(5)), (range(12, 13), peer(6))]);
}

#[test]
fn requesting_exposed_ranges_needs_no_bookkeeping() {
    let mut p = PendingRequests::new(100, 10);
    let r1 = p.insert_next(rid(1), peer(1));
    assert_eq!(r1, range(100, 109));
    let r2 = p.insert_next(rid(2), peer(2));
    assert_eq!(r2, range(110, 119));
    assert_eq!(p.next_uncovered_range(), range(120, 129));
    assert_eq!(p.len(), 2);
}

#[test]
fn removing_the_clamping_request_extends_the_range() {
    let mut p = PendingRequests::new(10, 5);
    p.insert(rid(1), range(10, 14), peer(1));
    p.insert(rid(2), range(15, 19), peer(2));
    let removed = p.remove(&rid(1));
    assert_eq!(removed, Some((range(10, 14), peer(1))));
    assert_eq!(p.next_uncovered_range(), range(10, 14));
    // A short range clamped just before the pending request.
    p.insert(rid(3), range(10, 12), peer(3));
    assert_eq!(p.next_uncovered_range(), range(13, 14));
    // Removing the clamping request extends the range to a full batch.
    p.remove(&rid(2));
    assert_eq!(p.next_uncovered_range(), range(13, 17));
}
