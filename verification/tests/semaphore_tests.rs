use lib::sync::deadlock::DeadlockDetector;
use lib::sync::semaphore::{Semaphore, DEADLOCK_DETECTED, MUST_BLOCK};

fn waiting(s: &Semaphore) -> Vec<usize> {
    s.inner.wait_queue.iter().cloned().collect()
}

#[test]
fn new_semaphore_has_its_units() {
    let s = Semaphore::new(3);
    assert_eq!(s.inner.count, 3);
    assert!(s.inner.wait_queue.is_empty());
}

#[test]
fn down_blocks_once_units_are_gone() {
    let mut s = Semaphore::new(1);
    assert!(!s.down(7));
    assert_eq!(s.inner.count, 0);
    assert!(s.down(8));
    assert_eq!(s.inner.count, -1);
    assert_eq!(waiting(&s), vec![8]);
}

#[test]
fn up_wakes_waiters_first_come_first_served() {
    let mut s = Semaphore::new(0);
    assert!(s.down(1));
    assert!(s.down(2));
    assert_eq!(s.up(), Some(1));
    assert_eq!(s.inner.count, -1);
    assert_eq!(s.up(), Some(2));
    assert_eq!(s.inner.count, 0);
    assert_eq!(s.up(), None);
    assert_eq!(s.inner.count, 1);
}

#[test]
fn down_then_up_restores_the_semaphore() {
    let mut s = Semaphore::new(2);
    assert!(!s.down(5));
    assert_eq!(s.up(), None);
    assert_eq!(s.inner.count, 2);
    let mut z = Semaphore::new(0);
    assert!(z.down(5));
    assert_eq!(z.up(), Some(5));
    assert_eq!(z.inner.count, 0);
    assert!(z.inner.wait_queue.is_empty());
}

#[test]
fn down_with_detection_serves_an_available_unit() {
    let mut s = Semaphore::new(1);
    let mut d = DeadlockDetector::new();
    d.add_avail(0, 1);
    assert_eq!(s.down_with_detection(&mut d, 0, 4), 0);
    assert_eq!(s.inner.count, 0);
    assert!(d.req.is_empty());
    assert_eq!(d.alloc.get(&4).unwrap().get(&0), Some(&1));
    assert_eq!(d.avail.get(&0), Some(&0));
}

#[test]
fn down_with_detection_blocks_when_another_thread_can_give_back() {
    let mut s = Semaphore::new(1);
    let mut d = DeadlockDetector::new();
    d.add_avail(0, 1);
    assert_eq!(s.down_with_detection(&mut d, 0, 4), 0);
    // thread 4 holds the unit and waits for nothing: no deadlock
    assert_eq!(s.down_with_detection(&mut d, 0, 5), MUST_BLOCK);
    assert_eq!(s.inner.count, -1);
    assert_eq!(waiting(&s), vec![5]);
    assert_eq!(d.req.get(&5), Some(&0));
}

#[test]
fn down_with_detection_refuses_a_deadlock() {
    let mut a = Semaphore::new(1);
    let mut b = Semaphore::new(1);
    let mut d = DeadlockDetector::new();
    d.add_avail(0, 1);
    d.add_avail(1, 1);
    assert_eq!(a.down_with_detection(&mut d, 0, 1), 0);
    assert_eq!(b.down_with_detection(&mut d, 1, 2), 0);
    assert_eq!(a.down_with_detection(&mut d, 0, 2), MUST_BLOCK);
    // thread 1 asking for semaphore 1 would close the cycle
    assert_eq!(b.down_with_detection(&mut d, 1, 1), DEADLOCK_DETECTED);
    assert_eq!(DEADLOCK_DETECTED, -0xdead);
    assert_eq!(b.inner.count, 0);
    assert!(b.inner.wait_queue.is_empty());
    assert_eq!(d.req.get(&1), None);
    assert_eq!(d.req.get(&2), Some(&0));
}

#[test]
fn up_with_detection_gives_the_unit_back() {
    let mut s = Semaphore::new(0);
    let mut d = DeadlockDetector::new();
    d.alloc_for(3, 0);
    assert!(s.down(9));
    assert_eq!(s.up_with_detection(&mut d, 0, 3), Some(9));
    assert_eq!(d.alloc.get(&3).unwrap().get(&0), Some(&0));
    assert_eq!(d.avail.get(&0), Some(&1));
    assert_eq!(s.inner.count, 0);
}

#[test]
fn served_down_then_up_restores_semaphore_and_detector() {
    let mut s = Semaphore::new(2);
    let mut d = DeadlockDetector::new();
    d.add_avail(0, 2);
    assert_eq!(s.down_with_detection(&mut d, 0, 6), 0);
    assert_eq!(s.up_with_detection(&mut d, 0, 6), None);
    assert_eq!(s.inner.count, 2);
    assert!(s.inner.wait_queue.is_empty());
    assert!(d.req.is_empty());
    assert_eq!(d.avail.get(&0), Some(&2));
    assert_eq!(d.alloc.get(&6).unwrap().get(&0), Some(&0));
}

#[test]
fn down_with_detection_keeps_units_matching_the_count() {
    let mut s = Semaphore::new(1);
    let mut d = DeadlockDetector::new();
    d.add_avail(0, 1);
    assert_eq!(s.down_with_detection(&mut d, 0, 1), 0);
    assert_eq!((s.inner.count, d.avail.get(&0).copied()), (0, Some(0)));
    assert_eq!(s.down_with_detection(&mut d, 0, 2), MUST_BLOCK);
    assert_eq!((s.inner.count, d.avail.get(&0).copied()), (-1, Some(0)));
    assert_eq!(s.inner.wait_queue.len(), 1);
}
