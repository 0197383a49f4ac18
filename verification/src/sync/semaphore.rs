//! Counting semaphore.
//!
//! Tasks are named by their ids. The operations decide; the kernel acts on
//! what they return: it wakes the task that `up` hands back, and blocks the
//! current task when `down` says so.
use crate::sync::deadlock::{has_deadlock, held_of, count_of, with_avail_added, with_held_added, DeadlockDetector, DetectorView};
use std::collections::VecDeque;
use vstd::prelude::*;

verus! {

/// What `down_with_detection` returns when waiting would close a deadlock.
pub const DEADLOCK_DETECTED: isize = -0xdead;

/// What `down_with_detection` returns when the caller must block.
pub const MUST_BLOCK: isize = -1;

/// The abstract content of a semaphore.
pub struct SemaphoreView {
    pub count: isize,
    /// ids of the waiting tasks, first to be woken first
    pub waiting: Seq<usize>,
}

/// The counter and the queue of waiting task ids of a semaphore.
pub struct SemaphoreInner {
    pub count: isize,
    pub wait_queue: VecDeque<usize>,
}

/// Semaphore structure.
pub struct Semaphore {
    pub inner: SemaphoreInner,
}

impl View for Semaphore {
    type V = SemaphoreView;

    open spec fn view(&self) -> SemaphoreView {
        SemaphoreView { count: self.inner.count, waiting: self.inner.wait_queue@ }
    }
}

/// Exactly as many tasks wait as the count is below zero.
pub open spec fn balanced(v: SemaphoreView) -> bool {
    v.waiting.len() == if v.count < 0 {
        -v.count
    } else {
        0
    }
}

/// The units the semaphore has left: its count where positive, else zero.
pub open spec fn units_left(v: SemaphoreView) -> int {
    if v.count > 0 {
        v.count as int
    } else {
        0
    }
}

/// The semaphore after an `up`: the count goes up by one and, if it is
/// still not positive, the first waiting task (if any) leaves the queue.
pub open spec fn after_up(v: SemaphoreView) -> SemaphoreView {
    let count: isize = (v.count + 1) as isize;
    if count <= 0 && v.waiting.len() > 0 {
        SemaphoreView { count, waiting: v.waiting.drop_first() }
    } else {
        SemaphoreView { count, waiting: v.waiting }
    }
}

/// The task that an `up` wakes.
pub open spec fn woken_by_up(v: SemaphoreView) -> Option<usize> {
    if v.count + 1 <= 0 && v.waiting.len() > 0 {
        Some(v.waiting[0])
    } else {
        None
    }
}

/// The semaphore after task `current` does a `down`: the count goes down
/// by one and, if it is now negative, `current` joins the queue.
pub open spec fn after_down(v: SemaphoreView, current: usize) -> SemaphoreView {
    let count: isize = (v.count - 1) as isize;
    if count < 0 {
        SemaphoreView { count, waiting: v.waiting.push(current) }
    } else {
        SemaphoreView { count, waiting: v.waiting }
    }
}

/// The detector once thread `tid` has given back a unit of `sem_id`.
pub open spec fn detector_after_up(d: DetectorView, tid: usize, sem_id: usize) -> DetectorView {
    with_avail_added(with_held_added(d, tid, sem_id, -1), sem_id, 1)
}

/// The detector once thread `tid` has taken a unit of `sem_id`.
pub open spec fn detector_after_grant(d: DetectorView, tid: usize, sem_id: usize) -> DetectorView {
    with_avail_added(with_held_added(d, tid, sem_id, 1), sem_id, -1)
}

impl Semaphore {
    /// A semaphore with `res_count` units and no waiting task (the count is
    /// `res_count` taken as a signed number).
    pub fn new(res_count: usize) -> (s: Self)
        ensures
            s@ == (SemaphoreView { count: res_count as isize, waiting: Seq::empty() }),
            res_count <= isize::MAX ==> balanced(s@),
    {
        Semaphore { inner: SemaphoreInner { count: res_count as isize, wait_queue: VecDeque::new() } }
    }

    /// Gives a unit back; returns the task to wake, if any.
    pub fn up(&mut self) -> (woken: Option<usize>)
        requires
            old(self)@.count < isize::MAX,
        ensures
            final(self)@ == after_up(old(self)@),
            woken == woken_by_up(old(self)@),
            balanced(old(self)@) ==> balanced(final(self)@) && (woken is Some <==> final(self)@.count <= 0),
    {
        self.inner.count = self.inner.count + 1;
        if self.inner.count <= 0 {
            self.inner.wait_queue.pop_front()
        } else {
            None
        }
    }

    /// Task `current` takes a unit; returns whether it must block, in which
    /// case it has joined the queue.
    pub fn down(&mut self, current: usize) -> (blocked: bool)
        requires
            old(self)@.count > isize::MIN,
        ensures
            final(self)@ == after_down(old(self)@, current),
            blocked == (old(self)@.count - 1 < 0),
            balanced(old(self)@) ==> balanced(final(self)@),
    {
        self.inner.count = self.inner.count - 1;
        if self.inner.count < 0 {
            self.inner.wait_queue.push_back(current);
            true
        } else {
            false
        }
    }

    /// `up` done by thread `tid` on semaphore `sem_id`, recorded in
    /// `detector`: the thread gives back one unit, which becomes available.
    pub fn up_with_detection(&mut self, detector: &mut DeadlockDetector, sem_id: usize, tid: usize) -> (woken: Option<usize>)
        requires
            old(self)@.count < isize::MAX,
            count_of(held_of(old(detector)@, tid), sem_id) > isize::MIN,
            count_of(old(detector)@.avail, sem_id) < isize::MAX,
        ensures
            final(self)@ == after_up(old(self)@),
            woken == woken_by_up(old(self)@),
            final(detector)@ == detector_after_up(old(detector)@, tid, sem_id),
            balanced(old(self)@) ==> balanced(final(self)@) && (woken is Some <==> final(self)@.count <= 0),
    {
        self.inner.count = self.inner.count + 1;
        detector.dealloc_for(tid, sem_id);
        detector.add_avail(sem_id, 1);
        if self.inner.count <= 0 {
            self.inner.wait_queue.pop_front()
        } else {
            None
        }
    }

    /// `down` by thread `tid` on semaphore `sem_id`, recorded in `detector`.
    ///
    /// The request is recorded first. If it closes a deadlock, it is
    /// dropped again, the semaphore is left alone and [`DEADLOCK_DETECTED`]
    /// is returned. Otherwise the count goes down; if the thread must wait
    /// it joins the queue, its request stays, and [`MUST_BLOCK`] is
    /// returned; else the request is served: the thread holds one more unit,
    /// one unit less is available, and 0 is returned.
    pub fn down_with_detection(&mut self, detector: &mut DeadlockDetector, sem_id: usize, tid: usize) -> (r: isize)
        requires
            !old(detector)@.req.contains_key(tid),
            ({
                let d1 = DetectorView { req: old(detector)@.req.insert(tid, sem_id), ..old(detector)@ };
                !has_deadlock(d1) ==> {
                    &&& old(self)@.count > isize::MIN
                    &&& old(self)@.count - 1 >= 0 ==> {
                        &&& count_of(held_of(old(detector)@, tid), sem_id) < isize::MAX
                        &&& count_of(old(detector)@.avail, sem_id) > isize::MIN
                    }
                }
            }),
        ensures
            ({
                let d1 = DetectorView { req: old(detector)@.req.insert(tid, sem_id), ..old(detector)@ };
                if has_deadlock(d1) {
                    &&& r == DEADLOCK_DETECTED
                    &&& final(self)@ == old(self)@
                    &&& final(detector)@ == old(detector)@
                } else if old(self)@.count - 1 < 0 {
                    &&& r == MUST_BLOCK
                    &&& final(self)@ == after_down(old(self)@, tid)
                    &&& final(detector)@ == d1
                } else {
                    &&& r == 0
                    &&& final(self)@ == after_down(old(self)@, tid)
                    &&& final(detector)@ == detector_after_grant(old(detector)@, tid, sem_id)
                }
            }),
            balanced(old(self)@) ==> balanced(final(self)@),
            balanced(old(self)@) && count_of(old(detector)@.avail, sem_id) == units_left(old(self)@) ==> {
                &&& balanced(final(self)@)
                &&& count_of(final(detector)@.avail, sem_id) == units_left(final(self)@)
            },
    {
        let ghost d0 = detector@;
        detector.do_req(tid, sem_id);
        if detector.detect_deadlock() {
            detector.finish_req(tid);
            assert(detector@.req =~= d0.req);
            return DEADLOCK_DETECTED;
        }
        self.inner.count = self.inner.count - 1;
        if self.inner.count < 0 {
            self.inner.wait_queue.push_back(tid);
            MUST_BLOCK
        } else {
            detector.finish_req(tid);
            assert(detector@.req =~= d0.req);
            assert(detector@ == d0);
            detector.alloc_for(tid, sem_id);
            detector.add_avail(sem_id, -1);
            0
        }
    }
}

/// On a balanced semaphore with no waiting task, an `up` undoes a `down`:
/// the semaphore is as before, and the `up` wakes the task that did the
/// `down` exactly when that task had to block.
pub proof fn lemma_down_then_up(v: SemaphoreView, current: usize)
    requires
        balanced(v),
        0 <= v.count < isize::MAX,
    ensures
        after_up(after_down(v, current)) == v,
        woken_by_up(after_down(v, current)) == (if v.count == 0 {
            Some(current)
        } else {
            None
        }),
{
    if v.count == 0 {
        assert(v.waiting =~= Seq::<usize>::empty());
        assert(after_down(v, current).waiting =~= seq![current]);
        assert(after_down(v, current).waiting.drop_first() =~= v.waiting);
    }
}

/// An `up` keeps as many tasks waiting as the count is below zero.
pub proof fn lemma_up_keeps_balance(v: SemaphoreView)
    requires
        balanced(v),
        v.count < isize::MAX,
    ensures
        balanced(after_up(v)),
        woken_by_up(v) is Some <==> after_up(v).count <= 0,
{
}

/// A `down` keeps as many tasks waiting as the count is below zero.
pub proof fn lemma_down_keeps_balance(v: SemaphoreView, current: usize)
    requires
        balanced(v),
        v.count > isize::MIN,
    ensures
        balanced(after_down(v, current)),
{
}

/// A `down` with detection that was served at once (it found a unit and
/// no deadlock), followed by an `up` with detection by the same thread,
/// leaves the semaphore as it was, wakes no task, and leaves the
/// detector's requests, and every held and available count (a missing
/// entry counting zero), as they were.
pub proof fn lemma_served_down_then_up(v: SemaphoreView, d: DetectorView, sem_id: usize, tid: usize)
    requires
        v.count >= 1,
        !d.req.contains_key(tid),
        count_of(held_of(d, tid), sem_id) < isize::MAX,
        count_of(d.avail, sem_id) > isize::MIN,
    ensures
        after_up(after_down(v, tid)) == v,
        woken_by_up(after_down(v, tid)) is None,
        count_of(held_of(detector_after_grant(d, tid, sem_id), tid), sem_id) > isize::MIN,
        count_of(detector_after_grant(d, tid, sem_id).avail, sem_id) < isize::MAX,
        ({
            let w = detector_after_up(detector_after_grant(d, tid, sem_id), tid, sem_id);
            &&& w.req == d.req
            &&& forall|t: usize, s: usize| #[trigger] count_of(held_of(w, t), s) == count_of(held_of(d, t), s)
            &&& forall|s: usize| #[trigger] count_of(w.avail, s) == count_of(d.avail, s)
        }),
{
    let g = with_held_added(d, tid, sem_id, 1);
    let d1 = detector_after_grant(d, tid, sem_id);
    let u = with_held_added(d1, tid, sem_id, -1);
    let w = detector_after_up(d1, tid, sem_id);
    assert(held_of(d1, tid) == held_of(d, tid).insert(sem_id, (count_of(held_of(d, tid), sem_id) + 1) as isize));
    assert forall|t: usize, s: usize| #[trigger] count_of(held_of(w, t), s) == count_of(held_of(d, t), s) by {
        if t == tid {
            assert(held_of(w, tid) == held_of(u, tid));
        } else {
            assert(held_of(w, t) == held_of(d, t));
        }
    }
}

} // verus!
