use lib::sync::deadlock::DeadlockDetector;
use std::collections::BTreeMap;

fn held(pairs: &[(usize, isize)]) -> BTreeMap<usize, isize> {
    pairs.iter().cloned().collect()
}

#[test]
fn empty_detector_reports_no_deadlock() {
    let d = DeadlockDetector::new();
    assert!(d.avail.is_empty() && d.alloc.is_empty() && d.req.is_empty());
    assert!(!d.detect_deadlock());
}

#[test]
fn allocations_without_requests_are_no_deadlock() {
    let mut d = DeadlockDetector::new();
    d.alloc_for(1, 7);
    d.add_avail(7, -1);
    assert!(!d.detect_deadlock());
}

#[test]
fn request_for_available_semaphore_is_no_deadlock() {
    let mut d = DeadlockDetector::new();
    d.add_avail(1, 1);
    d.do_req(10, 1);
    assert!(!d.detect_deadlock());
}

#[test]
fn request_for_missing_semaphore_is_a_deadlock() {
    let mut d = DeadlockDetector::new();
    d.do_req(10, 3);
    assert!(d.detect_deadlock());
}

#[test]
fn crossed_requests_are_a_deadlock() {
    let mut d = DeadlockDetector::new();
    d.avail.insert(1, 0);
    d.avail.insert(2, 0);
    d.alloc.insert(1, held(&[(1, 1)]));
    d.alloc.insert(2, held(&[(2, 1)]));
    d.req.insert(1, 2);
    d.req.insert(2, 1);
    assert!(d.detect_deadlock());
}

#[test]
fn idle_holder_releases_its_units() {
    let mut d = DeadlockDetector::new();
    d.avail.insert(1, 0);
    d.alloc.insert(3, held(&[(1, 1)]));
    d.req.insert(1, 1);
    assert!(!d.detect_deadlock());
}

#[test]
fn served_thread_releases_for_the_next() {
    // thread 1 waits for semaphore 1, which thread 2 holds; thread 2 waits
    // for semaphore 2, which has a unit: serving 2 frees 1.
    let mut d = DeadlockDetector::new();
    d.avail.insert(1, 0);
    d.avail.insert(2, 1);
    d.alloc.insert(2, held(&[(1, 1)]));
    d.req.insert(1, 1);
    d.req.insert(2, 2);
    assert!(!d.detect_deadlock());
}

#[test]
fn requests_are_served_in_ascending_thread_order() {
    // Serving thread 1 first gives back its negative holding and empties
    // semaphore 5, so thread 2 can never be served.
    let mut d = DeadlockDetector::new();
    d.avail.insert(5, 1);
    d.alloc.insert(1, held(&[(5, -1)]));
    d.req.insert(1, 5);
    d.req.insert(2, 5);
    assert!(d.detect_deadlock());
    // The detector itself is left as it was.
    assert_eq!(d.avail.get(&5), Some(&1));
    assert_eq!(d.req.len(), 2);
}

#[test]
fn large_counts_do_not_overflow_the_search() {
    let mut d = DeadlockDetector::new();
    d.avail.insert(1, isize::MAX);
    d.alloc.insert(2, held(&[(1, isize::MAX)]));
    d.alloc.insert(3, held(&[(1, isize::MAX)]));
    d.req.insert(4, 1);
    assert!(!d.detect_deadlock());
}

#[test]
fn add_avail_creates_and_sums() {
    let mut d = DeadlockDetector::new();
    d.add_avail(4, 3);
    assert_eq!(d.avail.get(&4), Some(&3));
    d.add_avail(4, -5);
    assert_eq!(d.avail.get(&4), Some(&-2));
    d.add_avail(4, 2);
    assert_eq!(d.avail.get(&4), Some(&0));
}

#[test]
fn alloc_then_dealloc_restores_the_count() {
    let mut d = DeadlockDetector::new();
    d.alloc_for(1, 2);
    assert_eq!(d.alloc.get(&1).unwrap().get(&2), Some(&1));
    d.alloc_for(1, 2);
    assert_eq!(d.alloc.get(&1).unwrap().get(&2), Some(&2));
    d.dealloc_for(1, 2);
    d.dealloc_for(1, 2);
    assert_eq!(d.alloc.get(&1).unwrap().get(&2), Some(&0));
}

#[test]
fn dealloc_without_alloc_goes_negative() {
    let mut d = DeadlockDetector::new();
    d.dealloc_for(9, 1);
    assert_eq!(d.alloc.get(&9).unwrap().get(&1), Some(&-1));
}

#[test]
fn request_then_finish_leaves_no_request() {
    let mut d = DeadlockDetector::new();
    d.do_req(1, 2);
    assert_eq!(d.req.get(&1), Some(&2));
    d.finish_req(1);
    assert!(d.req.is_empty());
}

#[test]
fn more_units_keep_a_detector_free_of_deadlock() {
    let mut d1 = DeadlockDetector::new();
    d1.avail.insert(1, 0);
    d1.avail.insert(2, 1);
    d1.alloc.insert(2, held(&[(1, 1)]));
    d1.req.insert(1, 1);
    d1.req.insert(2, 2);
    assert!(!d1.detect_deadlock());
    let mut d2 = DeadlockDetector::new();
    d2.avail.insert(1, 3);
    d2.avail.insert(2, 1);
    d2.avail.insert(9, 1);
    d2.alloc = d1.alloc.clone();
    d2.req = d1.req.clone();
    assert!(!d2.detect_deadlock());
}

#[test]
fn alloc_then_dealloc_keeps_an_existing_entry() {
    let mut d = DeadlockDetector::new();
    d.alloc.insert(1, held(&[(2, 5)]));
    let before = d.alloc.clone();
    d.alloc_for(1, 2);
    d.dealloc_for(1, 2);
    assert_eq!(d.alloc, before);
}
