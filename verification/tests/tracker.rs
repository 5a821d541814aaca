//! Tests for the pending-request tracker.

use dns_pending::pending::{Continuation, PendingRequests, TimerPoll, CAPACITY};

#[test]
fn reserve_returns_distinct_live_ids() {
    let mut tracker: PendingRequests<u64> = PendingRequests::new(100);
    let a = tracker.reserve().ok().unwrap();
    let b = tracker.reserve().ok().unwrap();
    let c = tracker.reserve().ok().unwrap();
    assert_ne!(a, b);
    assert_ne!(a, c);
    assert_ne!(b, c);
    assert!(!tracker.is_empty());
}

#[test]
fn capacity_bound_rejects_until_removal() {
    let mut tracker: PendingRequests<u64> = PendingRequests::new(100);
    let mut ids = Vec::new();
    for _ in 0..CAPACITY {
        ids.push(tracker.reserve().ok().unwrap());
    }
    assert!(tracker.reserve().is_err());
    assert!(tracker.reserve().is_err());
    tracker.unreserve(ids[0]);
    let fresh = tracker.reserve().ok().unwrap();
    assert!(!ids[1..].contains(&fresh));
    assert!(tracker.reserve().is_err());
}

#[test]
fn unreserve_releases_the_spot() {
    let mut tracker: PendingRequests<u64> = PendingRequests::new(100);
    let id = tracker.reserve().ok().unwrap();
    assert!(!tracker.is_empty());
    tracker.unreserve(id);
    assert!(tracker.is_empty());
}

#[test]
fn push_then_pop_delivers_exactly_once() {
    let mut tracker: PendingRequests<u64> = PendingRequests::new(100);
    let id = tracker.reserve().ok().unwrap();
    tracker.push(Continuation { id, data: 7 }, 0);
    let got = tracker.pop(id).unwrap();
    assert_eq!(got.id, id);
    assert_eq!(got.data, 7);
    assert!(tracker.pop(id).is_none());
    assert!(tracker.is_empty());
}

#[test]
fn pop_of_unknown_id_is_none() {
    let mut tracker: PendingRequests<u64> = PendingRequests::new(100);
    assert!(tracker.pop(12345).is_none());
}

#[test]
fn pop_of_reserved_id_releases_it() {
    let mut tracker: PendingRequests<u64> = PendingRequests::new(100);
    let id = tracker.reserve().ok().unwrap();
    assert!(tracker.pop(id).is_none());
    assert!(tracker.is_empty());
}

#[test]
fn push_arms_the_timer() {
    let mut tracker: PendingRequests<u64> = PendingRequests::new(100);
    assert_eq!(tracker.next_timeout(), None);
    let a = tracker.reserve().ok().unwrap();
    tracker.push(Continuation { id: a, data: 1 }, 0);
    assert_eq!(tracker.next_timeout(), Some(100));
    let b = tracker.reserve().ok().unwrap();
    tracker.push(Continuation { id: b, data: 2 }, 10);
    assert_eq!(tracker.next_timeout(), Some(100));
}

#[test]
fn popping_the_front_rearms_for_the_next() {
    let mut tracker: PendingRequests<u64> = PendingRequests::new(100);
    let a = tracker.reserve().ok().unwrap();
    let b = tracker.reserve().ok().unwrap();
    tracker.push(Continuation { id: a, data: 1 }, 0);
    tracker.push(Continuation { id: b, data: 2 }, 10);
    tracker.pop(a);
    assert_eq!(tracker.next_timeout(), Some(110));
    tracker.pop(b);
    assert_eq!(tracker.next_timeout(), None);
}

#[test]
fn expire_without_timer_or_before_firing_is_a_noop() {
    let mut tracker: PendingRequests<u64> = PendingRequests::new(100);
    assert!(tracker.expire(50, TimerPoll::Ready).is_empty());
    let a = tracker.reserve().ok().unwrap();
    tracker.push(Continuation { id: a, data: 1 }, 0);
    let failed = tracker.expire(50, TimerPoll::NotReady);
    assert!(failed.is_empty());
    assert_eq!(tracker.next_timeout(), Some(100));
    assert!(!tracker.is_empty());
}

#[test]
fn expire_fails_due_entries_in_deadline_order() {
    let mut tracker: PendingRequests<u64> = PendingRequests::new(100);
    let a = tracker.reserve().ok().unwrap();
    let b = tracker.reserve().ok().unwrap();
    tracker.push(Continuation { id: a, data: 1 }, 0);
    tracker.push(Continuation { id: b, data: 2 }, 10);
    let failed = tracker.expire(115, TimerPoll::Ready);
    assert_eq!(failed.len(), 2);
    assert_eq!(failed[0].id, a);
    assert_eq!(failed[1].id, b);
    assert!(tracker.is_empty());
    assert_eq!(tracker.next_timeout(), None);
}

#[test]
fn expire_stops_at_the_first_future_deadline() {
    let mut tracker: PendingRequests<u64> = PendingRequests::new(100);
    let a = tracker.reserve().ok().unwrap();
    let b = tracker.reserve().ok().unwrap();
    tracker.push(Continuation { id: a, data: 1 }, 0);
    tracker.push(Continuation { id: b, data: 2 }, 50);
    let failed = tracker.expire(120, TimerPoll::Ready);
    assert_eq!(failed.len(), 1);
    assert_eq!(failed[0].id, a);
    assert_eq!(tracker.next_timeout(), Some(150));
    assert!(!tracker.is_empty());
}

#[test]
fn lazy_discard_skips_popped_entries() {
    let mut tracker: PendingRequests<u64> = PendingRequests::new(100);
    let a = tracker.reserve().ok().unwrap();
    let b = tracker.reserve().ok().unwrap();
    let c = tracker.reserve().ok().unwrap();
    tracker.push(Continuation { id: a, data: 1 }, 0);
    tracker.push(Continuation { id: b, data: 2 }, 10);
    tracker.push(Continuation { id: c, data: 3 }, 20);
    // Popping the middle entry leaves its record in the queue and the
    // timer untouched.
    let popped = tracker.pop(b).unwrap();
    assert_eq!(popped.data, 2);
    assert_eq!(tracker.next_timeout(), Some(100));
    // A expires at its own deadline, B never does, C expires at its own
    // deadline, and nothing expires twice.
    let failed = tracker.expire(105, TimerPoll::Ready);
    assert_eq!(failed.len(), 1);
    assert_eq!(failed[0].id, a);
    assert_eq!(tracker.next_timeout(), Some(120));
    let failed = tracker.expire(125, TimerPoll::Ready);
    assert_eq!(failed.len(), 1);
    assert_eq!(failed[0].id, c);
    assert!(tracker.is_empty());
    assert_eq!(tracker.next_timeout(), None);
}

#[test]
fn timer_error_rederives_the_deadline() {
    let mut tracker: PendingRequests<u64> = PendingRequests::new(100);
    let a = tracker.reserve().ok().unwrap();
    let b = tracker.reserve().ok().unwrap();
    tracker.push(Continuation { id: a, data: 1 }, 0);
    tracker.push(Continuation { id: b, data: 2 }, 10);
    tracker.pop(b);
    let failed = tracker.expire(20, TimerPoll::Error);
    assert!(failed.is_empty());
    assert_eq!(tracker.next_timeout(), Some(100));
    assert!(!tracker.is_empty());
}

#[test]
fn teardown_fails_each_occupied_entry_exactly_once() {
    let mut tracker: PendingRequests<u64> = PendingRequests::new(100);
    let a = tracker.reserve().ok().unwrap();
    let b = tracker.reserve().ok().unwrap();
    let reserved_only = tracker.reserve().ok().unwrap();
    tracker.push(Continuation { id: a, data: 1 }, 0);
    tracker.push(Continuation { id: b, data: 2 }, 10);
    let delivered = tracker.pop(a).unwrap();
    assert_eq!(delivered.id, a);
    let failed = tracker.teardown();
    assert_eq!(failed.len(), 1);
    assert_eq!(failed[0].id, b);
    assert_ne!(failed[0].id, reserved_only);
}

#[test]
fn full_lifecycle_scenario() {
    // Duration 100, three requests: one answered in time, the other two
    // timing out one after the other.
    let mut tracker: PendingRequests<&'static str> = PendingRequests::new(100);
    let a = tracker.reserve().ok().unwrap();
    let b = tracker.reserve().ok().unwrap();
    let c = tracker.reserve().ok().unwrap();
    tracker.push(Continuation { id: a, data: "a" }, 0);
    tracker.push(Continuation { id: b, data: "b" }, 10);
    tracker.push(Continuation { id: c, data: "c" }, 20);
    let answered = tracker.pop(b).unwrap();
    assert_eq!(answered.data, "b");
    let failed = tracker.expire(105, TimerPoll::Ready);
    assert_eq!(failed.len(), 1);
    assert_eq!(failed[0].data, "a");
    let failed = tracker.expire(125, TimerPoll::Ready);
    assert_eq!(failed.len(), 1);
    assert_eq!(failed[0].data, "c");
    assert!(tracker.is_empty());
    assert_eq!(tracker.next_timeout(), None);
}
