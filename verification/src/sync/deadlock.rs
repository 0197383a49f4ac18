//! Deadlock detection for semaphores.
//!
//! The detector records, per semaphore, how many units are available; per
//! thread, how many units of each semaphore it holds (downs minus ups); and,
//! per thread, the one semaphore it is waiting for. A deadlock exists when
//! some waiting threads can never be served, however the threads that can
//! be served release what they hold.
use crate::sync::order::{least, lemma_empty_suffix, lemma_least_of_suffix, sorted_keys, strictly_ascending};
use std::collections::BTreeMap;
use vstd::prelude::*;

verus! {

/// The abstract content of a [`DeadlockDetector`].
pub struct DetectorView {
    /// semaphore id -> available units
    pub avail: Map<usize, isize>,
    /// thread id -> (semaphore id -> units held)
    pub alloc: Map<usize, Map<usize, isize>>,
    /// thread id -> id of the semaphore it waits for
    pub req: Map<usize, usize>,
}

/// The state that the deadlock search works on: like [`DetectorView`], with
/// available units as mathematical integers.
#[verifier::ext_equal]
pub struct SearchState {
    pub avail: Map<usize, int>,
    pub alloc: Map<usize, Map<usize, isize>>,
    pub req: Map<usize, usize>,
}

/// The entry of `m` at `k`, zero where there is none.
pub open spec fn count_of(m: Map<usize, isize>, k: usize) -> int {
    if m.contains_key(k) {
        m[k] as int
    } else {
        0
    }
}

/// The entry of `m` at `k`, zero where there is none.
pub open spec fn amount_of(m: Map<usize, int>, k: usize) -> int {
    if m.contains_key(k) {
        m[k]
    } else {
        0
    }
}

/// `m` with its values taken as mathematical integers.
pub open spec fn widen(m: Map<usize, isize>) -> Map<usize, int> {
    Map::new(|k: usize| m.contains_key(k), |k: usize| m[k] as int)
}

/// `avail` after every unit in `held` is given back: each semaphore of
/// either map gets the sum of its two entries, a missing entry counting zero.
pub open spec fn release(avail: Map<usize, int>, held: Map<usize, isize>) -> Map<usize, int> {
    Map::new(
        |s: usize| avail.contains_key(s) || held.contains_key(s),
        |s: usize| amount_of(avail, s) + count_of(held, s),
    )
}

/// Thread `t` gives back everything it holds and leaves the allocation table.
pub open spec fn release_thread(st: SearchState, t: usize) -> SearchState {
    if st.alloc.contains_key(t) {
        SearchState { avail: release(st.avail, st.alloc[t]), alloc: st.alloc.remove(t), req: st.req }
    } else {
        st
    }
}

/// Every thread of `ts` releases what it holds, in ascending order of id.
#[verifier::opaque]
pub open spec fn release_all(st: SearchState, ts: Set<usize>) -> SearchState
    decreases ts.len(),
{
    if ts.finite() && ts.contains(least(ts)) {
        release_all(release_thread(st, least(ts)), ts.remove(least(ts)))
    } else {
        st
    }
}

/// The threads that hold something and wait for nothing.
pub open spec fn idle_threads(st: SearchState) -> Set<usize> {
    st.alloc.dom().filter(|t: usize| !st.req.contains_key(t))
}

/// Semaphore `sem` has a unit available.
pub open spec fn can_grant(st: SearchState, sem: usize) -> bool {
    st.avail.contains_key(sem) && st.avail[sem] > 0
}

/// If thread `t`'s request for `sem` can be served, `t` is assumed to run to
/// completion: it releases what it holds and its request is dropped.
pub open spec fn grant(st: SearchState, t: usize, sem: usize) -> SearchState {
    if can_grant(st, sem) {
        let r = release_thread(st, t);
        SearchState { avail: r.avail, alloc: r.alloc, req: r.req.remove(t) }
    } else {
        st
    }
}

/// One sweep over the threads of `ts` in ascending order of id, each asking
/// for the semaphore that `snap` records for it.
#[verifier::opaque]
pub open spec fn grant_pass(st: SearchState, snap: Map<usize, usize>, ts: Set<usize>) -> SearchState
    decreases ts.len(),
{
    if ts.finite() && ts.contains(least(ts)) {
        let t: usize = least(ts);
        grant_pass(grant(st, t, snap[t]), snap, ts.remove(t))
    } else {
        st
    }
}

/// Sweeps over the waiting threads until a sweep serves none of them.
#[verifier::opaque]
pub open spec fn settle(st: SearchState) -> SearchState
    decreases st.req.dom().len(),
{
    let next = grant_pass(st, st.req, st.req.dom());
    if next.req.dom().len() < st.req.dom().len() {
        settle(next)
    } else {
        next
    }
}

/// The search state of a detector's content.
pub open spec fn start_state(v: DetectorView) -> SearchState {
    SearchState { avail: widen(v.avail), alloc: v.alloc, req: v.req }
}

/// Where the search ends: idle threads have released what they hold and
/// every request that could be served has been.
pub open spec fn final_state(v: DetectorView) -> SearchState {
    let s0 = start_state(v);
    settle(release_all(s0, idle_threads(s0)))
}

/// Some request can never be served.
pub open spec fn has_deadlock(v: DetectorView) -> bool {
    !final_state(v).req.is_empty()
}

/// Unfolds [`release_all`] at the element `q[i]` of an ascending sequence.
pub proof fn lemma_release_all_step(st: SearchState, q: Seq<usize>, i: int)
    requires
        strictly_ascending(q),
        0 <= i < q.len(),
    ensures
        release_all(st, q.skip(i).to_set()) == release_all(release_thread(st, q[i]), q.skip(i + 1).to_set()),
{
    lemma_least_of_suffix(q, i);
    reveal(release_all);
}

/// [`release_all`] over no thread changes nothing.
pub proof fn lemma_release_all_none(st: SearchState, q: Seq<usize>)
    ensures
        release_all(st, q.skip(q.len() as int).to_set()) == st,
{
    lemma_empty_suffix(q);
    reveal(release_all);
}

/// Unfolds [`grant_pass`] at the element `q[i]` of an ascending sequence.
pub proof fn lemma_grant_pass_step(st: SearchState, snap: Map<usize, usize>, q: Seq<usize>, i: int)
    requires
        strictly_ascending(q),
        0 <= i < q.len(),
    ensures
        grant_pass(st, snap, q.skip(i).to_set()) == grant_pass(grant(st, q[i], snap[q[i]]), snap, q.skip(i + 1).to_set()),
{
    lemma_least_of_suffix(q, i);
    reveal(grant_pass);
}

/// [`grant_pass`] over no thread changes nothing.
pub proof fn lemma_grant_pass_none(st: SearchState, snap: Map<usize, usize>, q: Seq<usize>)
    ensures
        grant_pass(st, snap, q.skip(q.len() as int).to_set()) == st,
{
    lemma_empty_suffix(q);
    reveal(grant_pass);
}

/// Unfolds [`settle`] once.
pub proof fn lemma_settle_unfold(st: SearchState)
    ensures
        settle(st) == ({
            let next = grant_pass(st, st.req, st.req.dom());
            if next.req.dom().len() < st.req.dom().len() {
                settle(next)
            } else {
                next
            }
        }),
{
    reveal(settle);
}

/// What thread `tid` holds, empty where it has no entry.
pub open spec fn held_of(v: DetectorView, tid: usize) -> Map<usize, isize> {
    if v.alloc.contains_key(tid) {
        v.alloc[tid]
    } else {
        Map::empty()
    }
}

/// `v` with `count` added to the units available of `sem_id`.
pub open spec fn with_avail_added(v: DetectorView, sem_id: usize, count: int) -> DetectorView {
    DetectorView {
        avail: v.avail.insert(sem_id, (count_of(v.avail, sem_id) + count) as isize),
        alloc: v.alloc,
        req: v.req,
    }
}

/// `v` with `delta` added to the units of `sem_id` that thread `tid` holds.
pub open spec fn with_held_added(v: DetectorView, tid: usize, sem_id: usize, delta: int) -> DetectorView {
    let held = held_of(v, tid);
    DetectorView {
        avail: v.avail,
        alloc: v.alloc.insert(tid, held.insert(sem_id, (count_of(held, sem_id) + delta) as isize)),
        req: v.req,
    }
}

/// `alloc` with each inner map taken by its view.
pub open spec fn nested_view(m: Map<usize, BTreeMap<usize, isize>>) -> Map<usize, Map<usize, isize>> {
    Map::new(|t: usize| m.contains_key(t), |t: usize| m[t]@)
}

/// `m` with its values taken as mathematical integers.
pub open spec fn int_view(m: Map<usize, i128>) -> Map<usize, int> {
    Map::new(|k: usize| m.contains_key(k), |k: usize| m[k] as int)
}

/// Every value of `a` lies within `b` times the range of `isize`.
pub open spec fn bounded(a: Map<usize, int>, b: int) -> bool {
    forall|s: usize|
        #[trigger] a.contains_key(s) ==> -0x8000_0000_0000_0000 * b <= a[s] <= 0x7fff_ffff_ffff_ffff * b
}

/// The search state of the working copies used by `detect_deadlock`.
pub open spec fn work_state(
    avail: Map<usize, i128>,
    alloc: Map<usize, BTreeMap<usize, isize>>,
    req: Map<usize, usize>,
) -> SearchState {
    SearchState { avail: int_view(avail), alloc: nested_view(alloc), req }
}

/// Deadlock detector for semaphores.
pub struct DeadlockDetector {
    /// semaphore id -> available count
    pub avail: BTreeMap<usize, isize>,
    /// thread id -> (semaphore id -> allocated count, downs minus ups)
    pub alloc: BTreeMap<usize, BTreeMap<usize, isize>>,
    /// thread id -> requested semaphore id
    pub req: BTreeMap<usize, usize>,
}

impl View for DeadlockDetector {
    type V = DetectorView;

    open spec fn view(&self) -> DetectorView {
        DetectorView { avail: self.avail@, alloc: nested_view(self.alloc@), req: self.req@ }
    }
}

/// Copies `m` with its values widened to `i128`.
fn widen_copy(m: &BTreeMap<usize, isize>) -> (w: BTreeMap<usize, i128>)
    ensures
        int_view(w@) == widen(m@),
{
    let keys = sorted_keys(m);
    let mut w: BTreeMap<usize, i128> = BTreeMap::new();
    let mut i: usize = 0;
    while i < keys.len()
        invariant
            i <= keys.len(),
            keys@.to_set() == m@.dom(),
            w@.dom() == keys@.take(i as int).to_set(),
            forall|k: usize| #[trigger] w@.contains_key(k) ==> w@[k] as int == m@[k] as int,
        decreases keys.len() - i,
    {
        let k: usize = keys[i];
        assert(m@.contains_key(k)) by {
            assert(keys@.contains(k));
        }
        let v: isize = *m.get(&k).unwrap();
        w.insert(k, v as i128);
        proof {
            assert(keys@.take(i + 1) == keys@.take(i as int).push(k));
            keys@.take(i as int).lemma_push_to_set_commute(k);
        }
        i = i + 1;
    }
    proof {
        assert(keys@.take(i as int) == keys@);
        assert(int_view(w@) =~= widen(m@));
    }
    w
}

/// Gives every unit of `held` back to `avail`.
fn release_into(avail: &mut BTreeMap<usize, i128>, held: &BTreeMap<usize, isize>, Ghost(b): Ghost<int>)
    requires
        1 <= b < 0x1_0000_0000_0000_0000,
        bounded(int_view(old(avail)@), b),
    ensures
        int_view(final(avail)@) == release(int_view(old(avail)@), held@),
        bounded(int_view(final(avail)@), b + 1),
{
    let ghost a0 = int_view(avail@);
    let keys = sorted_keys(held);
    let mut i: usize = 0;
    proof {
        assert(keys@.take(0) =~= Seq::<usize>::empty());
        assert(held@.restrict(keys@.take(0).to_set()) =~= Map::empty());
        assert(int_view(avail@) =~= release(a0, Map::empty()));
        assert forall|s: usize| #[trigger] avail@.contains_key(s) implies
            -0x8000_0000_0000_0000 * b <= avail@[s] <= 0x7fff_ffff_ffff_ffff * b by {
            assert(a0.contains_key(s));
        }
    }
    while i < keys.len()
        invariant
            i <= keys.len(),
            keys@.to_set() == held@.dom(),
            keys@.no_duplicates(),
            1 <= b < 0x1_0000_0000_0000_0000,
            bounded(a0, b),
            int_view(avail@) == release(a0, held@.restrict(keys@.take(i as int).to_set())),
            forall|s: usize| #[trigger]
                avail@.contains_key(s) ==> (if keys@.take(i as int).contains(s) {
                    -0x8000_0000_0000_0000 * (b + 1) <= avail@[s] <= 0x7fff_ffff_ffff_ffff * (b + 1)
                } else {
                    -0x8000_0000_0000_0000 * b <= avail@[s] <= 0x7fff_ffff_ffff_ffff * b
                }),
        decreases keys.len() - i,
    {
        let s: usize = keys[i];
        assert(held@.contains_key(s)) by {
            assert(keys@.contains(s));
        }
        let h: isize = *held.get(&s).unwrap();
        let ghost done = keys@.take(i as int);
        assert(!done.contains(s)) by {
            if done.contains(s) {
                let j: int = choose|j: int| 0 <= j < done.len() && done[j] == s;
                assert(keys@[j] == keys@[i as int]);
            }
        }
        let ghost before = avail@;
        let cur = avail.get(&s);
        match cur {
            Some(c) => {
                let nv: i128 = *c + h as i128;
                avail.insert(s, nv);
            },
            None => {
                avail.insert(s, h as i128);
            },
        }
        proof {
            assert(keys@.take(i + 1) == done.push(s));
            done.lemma_push_to_set_commute(s);
            let r0 = held@.restrict(done.to_set());
            let r1 = held@.restrict(done.push(s).to_set());
            assert(!r0.contains_key(s));
            assert forall|x: usize| #[trigger] r1.contains_key(x) == (r0.contains_key(x) || x == s) by {}
            assert(r1.contains_key(s) && r1[s] == h);
            assert(int_view(before) == release(a0, r0));
            if before.contains_key(s) {
                assert(int_view(before).contains_key(s));
                assert(release(a0, r0).contains_key(s));
                assert(count_of(r0, s) == 0);
                assert(release(a0, r0)[s] == amount_of(a0, s) + count_of(r0, s));
                assert(int_view(before)[s] == before[s] as int);
                assert(before[s] as int == amount_of(a0, s));
                assert(avail@[s] as int == amount_of(a0, s) + h);
            } else {
                assert(!release(a0, r0).contains_key(s));
                assert(!a0.contains_key(s));
                assert(avail@[s] as int == h);
            }
            assert(release(a0, r1)[s] == amount_of(a0, s) + h);
            assert forall|x: usize| #[trigger] release(a0, r1).contains_key(x) implies
                int_view(avail@).contains_key(x) && int_view(avail@)[x] == release(a0, r1)[x] by {
                if x != s {
                    assert(release(a0, r0).contains_key(x));
                    assert(int_view(before).contains_key(x));
                    assert(avail@[x] == before[x]);
                    assert(count_of(r1, x) == count_of(r0, x));
                    assert(release(a0, r1)[x] == release(a0, r0)[x]);
                    assert(int_view(avail@)[x] == int_view(before)[x]);
                } else {
                    assert(avail@.contains_key(s));
                    assert(int_view(avail@)[s] == avail@[s] as int);
                }
            }
            assert forall|x: usize| #[trigger] int_view(avail@).contains_key(x) implies
                release(a0, r1).contains_key(x) by {
                if x != s {
                    assert(before.contains_key(x));
                    assert(int_view(before).contains_key(x));
                }
            }
            assert(int_view(avail@) =~= release(a0, r1));
            assert forall|x: usize| #[trigger] done.push(s).contains(x) == (done.contains(x) || x == s) by {
                if done.push(s).contains(x) && x != s {
                    let j: int = choose|j: int| 0 <= j < done.push(s).len() && done.push(s)[j] == x;
                    assert(done[j] == x);
                }
                if done.contains(x) {
                    let j: int = choose|j: int| 0 <= j < done.len() && done[j] == x;
                    assert(done.push(s)[j] == x);
                }
                if x == s {
                    assert(done.push(s)[done.len() as int] == s);
                }
            }
        }
        i = i + 1;
    }
    proof {
        assert(keys@.take(i as int) == keys@);
        assert(held@.restrict(keys@.to_set()) =~= held@);
        assert forall|s: usize| #[trigger] int_view(avail@).contains_key(s) implies
            -0x8000_0000_0000_0000 * (b + 1) <= int_view(avail@)[s] <= 0x7fff_ffff_ffff_ffff * (b + 1) by {
            assert(avail@.contains_key(s));
        }
    }
}

/// Thread `t` gives back everything it holds and leaves `alloc`.
fn release_thread_into(
    avail: &mut BTreeMap<usize, i128>,
    alloc: &mut BTreeMap<usize, BTreeMap<usize, isize>>,
    t: usize,
    Ghost(total): Ghost<int>,
    Ghost(req): Ghost<Map<usize, usize>>,
)
    requires
        total < 0x1_0000_0000_0000_0000,
        old(alloc)@.dom().len() <= total,
        bounded(int_view(old(avail)@), 1 + total - old(alloc)@.dom().len()),
    ensures
        final(alloc)@.dom().len() <= total,
        bounded(int_view(final(avail)@), 1 + total - final(alloc)@.dom().len()),
        work_state(final(avail)@, final(alloc)@, req) == release_thread(work_state(old(avail)@, old(alloc)@, req), t),
{
    let ghost a0 = alloc@;
    let ghost v0 = avail@;
    let removed = alloc.remove(&t);
    match removed {
        Some(held) => {
            assert(a0.dom().contains(t));
            assert(alloc@.dom().len() == a0.dom().len() - 1);
            release_into(avail, &held, Ghost(1 + total - a0.dom().len()));
            assert(nested_view(alloc@) =~= nested_view(a0).remove(t));
            assert(nested_view(a0)[t] == held@);
            assert(int_view(avail@) == release(int_view(v0), nested_view(a0)[t]));
            assert(work_state(avail@, alloc@, req).alloc == release_thread(work_state(v0, a0, req), t).alloc);
            assert(work_state(avail@, alloc@, req).avail == release_thread(work_state(v0, a0, req), t).avail);
            assert(work_state(avail@, alloc@, req) =~= release_thread(work_state(v0, a0, req), t));
        },
        None => {
            assert(!nested_view(a0).contains_key(t));
        },
    }
}

impl DeadlockDetector {
    /// An empty detector.
    pub fn new() -> (d: Self)
        ensures
            d@ == (DetectorView { avail: Map::empty(), alloc: Map::empty(), req: Map::empty() }),
    {
        let d = Self { avail: BTreeMap::new(), alloc: BTreeMap::new(), req: BTreeMap::new() };
        assert(nested_view(d.alloc@) =~= Map::empty());
        d
    }

    /// Adds `count` to the units available of semaphore `sem_id`, creating
    /// the entry if there is none.
    pub fn add_avail(&mut self, sem_id: usize, count: isize)
        requires
            isize::MIN <= count_of(old(self)@.avail, sem_id) + count <= isize::MAX,
        ensures
            final(self)@ == with_avail_added(old(self)@, sem_id, count as int),
    {
        let cur = self.avail.get(&sem_id);
        match cur {
            Some(c) => {
                let v: isize = *c + count;
                self.avail.insert(sem_id, v);
            },
            None => {
                self.avail.insert(sem_id, count);
            },
        }
    }

    /// Adds `delta` to the units of `sem_id` that thread `tid` holds.
    fn add_held(&mut self, tid: usize, sem_id: usize, delta: isize)
        requires
            isize::MIN <= count_of(held_of(old(self)@, tid), sem_id) + delta <= isize::MAX,
        ensures
            final(self)@ == with_held_added(old(self)@, tid, sem_id, delta as int),
    {
        let ghost a0 = self.alloc@;
        let removed = self.alloc.remove(&tid);
        let mut held = match removed {
            Some(m) => m,
            None => BTreeMap::new(),
        };
        assert(held@ == held_of(old(self)@, tid));
        let cur = held.get(&sem_id);
        match cur {
            Some(c) => {
                let v: isize = *c + delta;
                held.insert(sem_id, v);
            },
            None => {
                held.insert(sem_id, delta);
            },
        }
        self.alloc.insert(tid, held);
        assert(nested_view(self.alloc@) =~= nested_view(a0).insert(tid, held@));
    }

    /// Records that thread `tid` took one unit of semaphore `sem_id`.
    pub fn alloc_for(&mut self, tid: usize, sem_id: usize)
        requires
            count_of(held_of(old(self)@, tid), sem_id) < isize::MAX,
        ensures
            final(self)@ == with_held_added(old(self)@, tid, sem_id, 1),
    {
        self.add_held(tid, sem_id, 1);
    }

    /// Records that thread `tid` gave back one unit of semaphore `sem_id`.
    pub fn dealloc_for(&mut self, tid: usize, sem_id: usize)
        requires
            count_of(held_of(old(self)@, tid), sem_id) > isize::MIN,
        ensures
            final(self)@ == with_held_added(old(self)@, tid, sem_id, -1),
    {
        self.add_held(tid, sem_id, -1);
    }

    /// Records that thread `tid` waits for semaphore `sem_id`; a thread
    /// waits for one semaphore at a time.
    pub fn do_req(&mut self, tid: usize, sem_id: usize)
        requires
            !old(self)@.req.contains_key(tid),
        ensures
            final(self)@ == (DetectorView { req: old(self)@.req.insert(tid, sem_id), ..old(self)@ }),
    {
        self.req.insert(tid, sem_id);
    }

    /// Drops the request of thread `tid`, which must have one.
    pub fn finish_req(&mut self, tid: usize)
        requires
            old(self)@.req.contains_key(tid),
        ensures
            final(self)@ == (DetectorView { req: old(self)@.req.remove(tid), ..old(self)@ }),
    {
        self.req.remove(&tid);
    }

    /// Whether some request can never be served (see [`has_deadlock`]).
    pub fn detect_deadlock(&self) -> (r: bool)
        ensures
            r == has_deadlock(self@),
    {
        let mut avail = widen_copy(&self.avail);
        let mut alloc = self.alloc.clone();
        let mut req = self.req.clone();
        let ghost total: int = self.alloc@.dom().len() as int;
        let ghost s0 = start_state(self@);
        assert(self.alloc.len() == total);
        assert(work_state(avail@, alloc@, req@) == s0) by {
            assert(nested_view(alloc@) =~= nested_view(self.alloc@));
        }
        proof {
            assert forall|s: usize| #[trigger] int_view(avail@).contains_key(s) implies
                -0x8000_0000_0000_0000 * 1 <= int_view(avail@)[s] <= 0x7fff_ffff_ffff_ffff * 1 by {
                assert(widen(self.avail@).contains_key(s));
            }
        }

        // clear allocations of threads that do not have any requests
        let no_req = idle_ids(&alloc, &req);
        let mut i: usize = 0;
        proof {
            lemma_empty_suffix(no_req@);
            assert(no_req@.to_set() =~= idle_threads(s0));
        }
        while i < no_req.len()
            invariant
                i <= no_req.len(),
                strictly_ascending(no_req@),
                total < 0x1_0000_0000_0000_0000,
                alloc@.dom().len() <= total,
                bounded(int_view(avail@), 1 + total - alloc@.dom().len()),
                req@ == s0.req,
                release_all(work_state(avail@, alloc@, req@), no_req@.skip(i as int).to_set())
                    == release_all(s0, idle_threads(s0)),
            decreases no_req.len() - i,
        {
            let t: usize = no_req[i];
            proof {
                lemma_release_all_step(work_state(avail@, alloc@, req@), no_req@, i as int);
            }
            release_thread_into(&mut avail, &mut alloc, t, Ghost(total), Ghost(req@));
            i = i + 1;
        }
        proof {
            lemma_release_all_none(work_state(avail@, alloc@, req@), no_req@);
        }

        let ghost target = settle(release_all(s0, idle_threads(s0)));
        let mut changed = true;
        while changed
            invariant
                total < 0x1_0000_0000_0000_0000,
                alloc@.dom().len() <= total,
                bounded(int_view(avail@), 1 + total - alloc@.dom().len()),
                changed ==> settle(work_state(avail@, alloc@, req@)) == target,
                !changed ==> work_state(avail@, alloc@, req@) == target,
            decreases (if changed { req@.dom().len() + 1 } else { 0 }),
        {
            proof {
                lemma_settle_unfold(work_state(avail@, alloc@, req@));
            }
            changed = grant_sweep(&mut avail, &mut alloc, &mut req, Ghost(total));
        }
        !req.is_empty()
    }
}

/// The threads of `alloc` that have no request, in ascending order.
fn idle_ids(alloc: &BTreeMap<usize, BTreeMap<usize, isize>>, req: &BTreeMap<usize, usize>) -> (ids: Vec<usize>)
    ensures
        strictly_ascending(ids@),
        ids@.to_set() == alloc@.dom().filter(|t: usize| !req@.contains_key(t)),
{
    let keys = sorted_keys(alloc);
    let mut ids: Vec<usize> = Vec::new();
    let mut i: usize = 0;
    while i < keys.len()
        invariant
            i <= keys.len(),
            strictly_ascending(keys@),
            keys@.to_set() == alloc@.dom(),
            strictly_ascending(ids@),
            forall|j: int| #![trigger ids@[j]] 0 <= j < ids@.len() ==> exists|m: int| 0 <= m < i && #[trigger] keys@[m] == ids@[j],
            forall|x: usize| #[trigger] ids@.contains(x) <==> (keys@.take(i as int).contains(x) && !req@.contains_key(x)),
        decreases keys.len() - i,
    {
        let k: usize = keys[i];
        let waiting = req.contains_key(&k);
        let ghost old_ids = ids@;
        if !waiting {
            ids.push(k);
            proof {
                assert forall|j: int| 0 <= j < ids@.len() - 1 implies ids@[j] < k by {
                    let m: int = choose|m: int| 0 <= m < i && #[trigger] keys@[m] == old_ids[j];
                }
            }
        }
        proof {
            let done = keys@.take(i as int);
            assert(keys@.take(i + 1) == done.push(k));
            assert forall|x: usize| #[trigger] done.push(k).contains(x) == (done.contains(x) || x == k) by {
                if done.push(k).contains(x) && x != k {
                    let j: int = choose|j: int| 0 <= j < done.push(k).len() && done.push(k)[j] == x;
                    assert(done[j] == x);
                }
                if done.contains(x) {
                    let j: int = choose|j: int| 0 <= j < done.len() && done[j] == x;
                    assert(done.push(k)[j] == x);
                }
                if x == k {
                    assert(done.push(k)[done.len() as int] == k);
                }
            }
            assert forall|x: usize| #[trigger] ids@.contains(x) == (old_ids.contains(x) || (!waiting && x == k)) by {
                if ids@.contains(x) && !old_ids.contains(x) {
                    let j: int = choose|j: int| 0 <= j < ids@.len() && ids@[j] == x;
                    if j < old_ids.len() {
                        assert(old_ids[j] == x);
                    }
                }
                if old_ids.contains(x) {
                    let j: int = choose|j: int| 0 <= j < old_ids.len() && old_ids[j] == x;
                    assert(ids@[j] == x);
                }
                if !waiting && x == k {
                    assert(ids@[old_ids.len() as int] == k);
                }
            }
            assert forall|j: int| #![trigger ids@[j]] 0 <= j < ids@.len() implies exists|m: int| 0 <= m < i + 1 && #[trigger] keys@[m] == ids@[j] by {
                if j < old_ids.len() {
                    assert(ids@[j] == old_ids[j]);
                } else {
                    assert(keys@[i as int] == ids@[j]);
                }
            }
        }
        i = i + 1;
    }
    proof {
        assert(keys@.take(i as int) == keys@);
        assert(ids@.to_set() =~= alloc@.dom().filter(|t: usize| !req@.contains_key(t)));
    }
    ids
}

/// One sweep over the waiting threads in ascending order of id: each one
/// whose semaphore has a unit available releases what it holds and drops
/// its request. Returns whether some request was dropped.
fn grant_sweep(
    avail: &mut BTreeMap<usize, i128>,
    alloc: &mut BTreeMap<usize, BTreeMap<usize, isize>>,
    req: &mut BTreeMap<usize, usize>,
    Ghost(total): Ghost<int>,
) -> (changed: bool)
    requires
        total < 0x1_0000_0000_0000_0000,
        old(alloc)@.dom().len() <= total,
        bounded(int_view(old(avail)@), 1 + total - old(alloc)@.dom().len()),
    ensures
        final(alloc)@.dom().len() <= total,
        bounded(int_view(final(avail)@), 1 + total - final(alloc)@.dom().len()),
        ({
            let st = work_state(old(avail)@, old(alloc)@, old(req)@);
            work_state(final(avail)@, final(alloc)@, final(req)@) == grant_pass(st, st.req, st.req.dom())
        }),
        changed == (final(req)@.dom().len() < old(req)@.dom().len()),
{
    let ghost st = work_state(avail@, alloc@, req@);
    let snap = req.clone();
    let keys = sorted_keys(&snap);
    let mut changed = false;
    let mut i: usize = 0;
    proof {
        lemma_empty_suffix(keys@);
    }
    while i < keys.len()
        invariant
            i <= keys.len(),
            strictly_ascending(keys@),
            keys@.to_set() == snap@.dom(),
            snap@ == st.req,
            total < 0x1_0000_0000_0000_0000,
            alloc@.dom().len() <= total,
            bounded(int_view(avail@), 1 + total - alloc@.dom().len()),
            req@.dom().subset_of(snap@.dom()),
            forall|j: int| i <= j < keys@.len() ==> req@.contains_key(#[trigger] keys@[j]),
            changed == (req@.dom().len() < snap@.dom().len()),
            grant_pass(work_state(avail@, alloc@, req@), snap@, keys@.skip(i as int).to_set())
                == grant_pass(st, st.req, st.req.dom()),
        decreases keys.len() - i,
    {
        let t: usize = keys[i];
        proof {
            lemma_grant_pass_step(work_state(avail@, alloc@, req@), snap@, keys@, i as int);
            assert(keys@.contains(t));
        }
        let sem: usize = *snap.get(&t).unwrap();
        let grantable = match avail.get(&sem) {
            Some(c) => *c > 0,
            None => false,
        };
        if grantable {
            release_thread_into(avail, alloc, t, Ghost(total), Ghost(req@));
            let ghost r0 = req@;
            req.remove(&t);
            proof {
                vstd::set_lib::lemma_len_subset(r0.dom(), snap@.dom());
                assert(r0.dom().contains(t));
                assert(req@.dom() == r0.dom().remove(t));
                assert forall|j: int| i + 1 <= j < keys@.len() implies req@.contains_key(#[trigger] keys@[j]) by {
                    assert(keys@[j] != keys@[i as int]);
                    assert(r0.contains_key(keys@[j]));
                }
            }
            changed = true;
        }
        i = i + 1;
    }
    proof {
        lemma_grant_pass_none(work_state(avail@, alloc@, req@), snap@, keys@);
        lemma_empty_suffix(keys@);
    }
    changed
}

/// Releasing threads never touches the requests.
pub(crate) proof fn lemma_release_all_keeps_req(st: SearchState, ts: Set<usize>)
    ensures
        release_all(st, ts).req == st.req,
    decreases ts.len(),
{
    reveal(release_all);
    if ts.finite() && ts.contains(least(ts)) {
        lemma_release_all_keeps_req(release_thread(st, least(ts)), ts.remove(least(ts)));
    }
}

/// A sweep only drops requests.
proof fn lemma_grant_pass_drops(st: SearchState, snap: Map<usize, usize>, ts: Set<usize>)
    ensures
        forall|t: usize| #[trigger] grant_pass(st, snap, ts).req.contains_key(t) ==>
            st.req.contains_key(t) && grant_pass(st, snap, ts).req[t] == st.req[t],
    decreases ts.len(),
{
    reveal(grant_pass);
    if ts.finite() && ts.contains(least(ts)) {
        let t: usize = least(ts);
        let g = grant(st, t, snap[t]);
        assert(forall|k: usize| #[trigger] g.req.contains_key(k) ==> st.req.contains_key(k) && g.req[k] == st.req[k]);
        lemma_grant_pass_drops(g, snap, ts.remove(t));
        assert(grant_pass(st, snap, ts) == grant_pass(g, snap, ts.remove(t)));
    } else {
        assert(grant_pass(st, snap, ts) == st);
    }
}

/// A sweep over requesting threads that drops no request changes nothing,
/// and then none of them could be served.
proof fn lemma_grant_pass_stalls(st: SearchState, snap: Map<usize, usize>, ts: Set<usize>)
    requires
        st.req.dom().finite(),
        ts.subset_of(st.req.dom()),
    ensures
        grant_pass(st, snap, ts).req.dom().len() < st.req.dom().len() || (grant_pass(st, snap, ts) == st
            && forall|t: usize| #[trigger] ts.contains(t) ==> !can_grant(st, snap[t])),
    decreases ts.len(),
{
    reveal(grant_pass);
    if ts.finite() && ts.contains(least(ts)) {
        let t: usize = least(ts);
        let st1 = grant(st, t, snap[t]);
        let rest = ts.remove(t);
        if can_grant(st, snap[t]) {
            lemma_grant_pass_drops(st1, snap, rest);
            let r = grant_pass(st1, snap, rest);
            assert(r.req.dom().subset_of(st1.req.dom()));
            vstd::set_lib::lemma_len_subset(r.req.dom(), st1.req.dom());
        } else {
            lemma_grant_pass_stalls(st1, snap, rest);
        }
    } else if ts.finite() {
        if ts.len() > 0 {
            let x: usize = ts.choose();
            assert(ts.contains(x));
            lemma_has_least(ts, x);
        }
        assert(ts =~= Set::empty());
    } else {
        vstd::set_lib::lemma_len_subset(ts, st.req.dom());
    }
}

/// A finite set that has an element has a least one.
pub(crate) proof fn lemma_has_least(s: Set<usize>, x: usize)
    requires
        s.finite(),
        s.contains(x),
    ensures
        s.contains(least(s)),
        forall|z: usize| #[trigger] s.contains(z) ==> least(s) <= z,
    decreases s.len(),
{
    if exists|y: usize| s.contains(y) && y < x {
        let y: usize = choose|y: usize| s.contains(y) && y < x;
        let smaller = s.filter(|z: usize| z < x);
        assert(!smaller.contains(x));
        assert(smaller.subset_of(s.remove(x)));
        vstd::set_lib::lemma_len_subset(smaller, s.remove(x));
        lemma_has_least(smaller, y);
        let m: usize = least(smaller);
        assert(smaller.contains(m));
        assert forall|z: usize| #[trigger] s.contains(z) implies m <= z by {
            if z < x {
                assert(smaller.contains(z));
            }
        }
        assert(s.contains(m) && forall|z: usize| #[trigger] s.contains(z) ==> m <= z);
    } else {
        assert forall|z: usize| #[trigger] s.contains(z) implies x <= z by {}
        assert(s.contains(x) && forall|z: usize| #[trigger] s.contains(z) ==> x <= z);
    }
}

/// Settling ends where no remaining request can be served.
proof fn lemma_settle_stuck(st: SearchState)
    requires
        st.req.dom().finite(),
    ensures
        forall|t: usize| #[trigger] settle(st).req.contains_key(t) ==>
            st.req.contains_key(t) && settle(st).req[t] == st.req[t]
            && !can_grant(settle(st), st.req[t]),
    decreases st.req.dom().len(),
{
    lemma_settle_unfold(st);
    let next = grant_pass(st, st.req, st.req.dom());
    lemma_grant_pass_drops(st, st.req, st.req.dom());
    assert(next.req.dom().subset_of(st.req.dom()));
    vstd::set_lib::lemma_len_subset(next.req.dom(), st.req.dom());
    if next.req.dom().len() < st.req.dom().len() {
        lemma_settle_stuck(next);
    } else {
        lemma_grant_pass_stalls(st, st.req, st.req.dom());
        assert(next == st);
    }
}

/// With no thread waiting, there is no deadlock.
pub proof fn lemma_no_request_no_deadlock(v: DetectorView)
    requires
        v.req == Map::<usize, usize>::empty(),
    ensures
        !has_deadlock(v),
{
    let s0 = start_state(v);
    let x = release_all(s0, idle_threads(s0));
    lemma_release_all_keeps_req(s0, idle_threads(s0));
    lemma_settle_stuck(x);
    assert(final_state(v).req =~= Map::empty());
}

/// The requests left when the search ends are requests of the detector,
/// and none of them can be served: each waits for a semaphore with no
/// unit available once every thread that could run has released what it
/// holds. So a deadlock is reported exactly when such requests are left.
pub proof fn lemma_remaining_requests_are_stuck(v: DetectorView)
    requires
        v.req.dom().finite(),
    ensures
        forall|t: usize| #[trigger] final_state(v).req.contains_key(t) ==>
            v.req.contains_key(t) && final_state(v).req[t] == v.req[t]
            && !can_grant(final_state(v), v.req[t]),
        has_deadlock(v) == exists|t: usize| #[trigger] final_state(v).req.contains_key(t),
{
    let s0 = start_state(v);
    let x = release_all(s0, idle_threads(s0));
    lemma_release_all_keeps_req(s0, idle_threads(s0));
    lemma_settle_stuck(x);
    if exists|t: usize| #[trigger] final_state(v).req.contains_key(t) {
        let t: usize = choose|t: usize| #[trigger] final_state(v).req.contains_key(t);
        assert(final_state(v).req.dom().contains(t));
    } else {
        assert(final_state(v).req =~= Map::empty());
    }
}

/// Taking a unit and giving it back leaves every held count as it was.
pub proof fn lemma_alloc_then_dealloc(v: DetectorView, tid: usize, sem_id: usize)
    requires
        count_of(held_of(v, tid), sem_id) < isize::MAX,
    ensures
        ({
            let w = with_held_added(with_held_added(v, tid, sem_id, 1), tid, sem_id, -1);
            &&& w.avail == v.avail
            &&& w.req == v.req
            &&& forall|t: usize, s: usize| #[trigger] count_of(held_of(w, t), s) == count_of(held_of(v, t), s)
            &&& (w.alloc == v.alloc <==> (v.alloc.contains_key(tid) && v.alloc[tid].contains_key(sem_id)))
        }),
{
    let u = with_held_added(v, tid, sem_id, 1);
    let w = with_held_added(u, tid, sem_id, -1);
    assert forall|t: usize, s: usize| #[trigger] count_of(held_of(w, t), s) == count_of(held_of(v, t), s) by {
        if t == tid {
            assert(held_of(u, tid) == held_of(v, tid).insert(sem_id, (count_of(held_of(v, tid), sem_id) + 1) as isize));
        }
    }
    assert(held_of(u, tid) == held_of(v, tid).insert(sem_id, (count_of(held_of(v, tid), sem_id) + 1) as isize));
    if v.alloc.contains_key(tid) && v.alloc[tid].contains_key(sem_id) {
        assert(w.alloc[tid] =~= v.alloc[tid]);
        assert(w.alloc =~= v.alloc);
    } else if w.alloc == v.alloc {
        assert(w.alloc.contains_key(tid) && w.alloc[tid].contains_key(sem_id));
    }
}

/// Adding units to a semaphore and taking them away again leaves its
/// count as it was.
pub proof fn lemma_add_avail_undone(v: DetectorView, sem_id: usize, count: isize)
    requires
        isize::MIN <= count_of(v.avail, sem_id) + count <= isize::MAX,
        isize::MIN < count,
    ensures
        ({
            let w = with_avail_added(with_avail_added(v, sem_id, count as int), sem_id, -count);
            &&& w.alloc == v.alloc
            &&& w.req == v.req
            &&& forall|s: usize| #[trigger] count_of(w.avail, s) == count_of(v.avail, s)
        }),
{
}

/// Recording a request and finishing it leaves the requests as they were.
pub proof fn lemma_request_then_finish(v: DetectorView, tid: usize, sem_id: usize)
    requires
        !v.req.contains_key(tid),
    ensures
        v.req.insert(tid, sem_id).remove(tid) == v.req,
{
    assert(v.req.insert(tid, sem_id).remove(tid) =~= v.req);
}

} // verus!
