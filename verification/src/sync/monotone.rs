//! More available units never create a deadlock, when no thread holds a
//! negative number of units.
//!
//! The search keeps an account: at every step, the units available of a
//! semaphore are those available at the start plus what the threads that
//! left the allocation table held of it, and those threads are exactly the
//! ones with an allocation entry and no request left. With holdings that
//! are not negative, requests that are stuck at the end of a search with
//! more units stay stuck all along a search with fewer.
use crate::sync::deadlock::{
    amount_of, can_grant, count_of, final_state, grant, grant_pass, has_deadlock, idle_threads,
    lemma_has_least, lemma_remaining_requests_are_stuck, lemma_settle_unfold, release, release_all,
    release_thread, settle, start_state, widen, DetectorView, SearchState,
};
use crate::sync::order::least;
use vstd::prelude::*;

verus! {

/// What thread `u` holds of semaphore `s` in `alloc`, zero where nothing
/// is recorded.
pub open spec fn held_in(alloc: Map<usize, Map<usize, isize>>, u: usize, s: usize) -> int {
    if alloc.contains_key(u) {
        count_of(alloc[u], s)
    } else {
        0
    }
}

/// What the threads of `ts` together hold of semaphore `s`.
pub open spec fn total_held(alloc: Map<usize, Map<usize, isize>>, ts: Set<usize>, s: usize) -> int
    decreases ts.len(),
{
    if ts.finite() && ts.contains(ts.choose()) {
        held_in(alloc, ts.choose(), s) + total_held(alloc, ts.remove(ts.choose()), s)
    } else {
        0
    }
}

proof fn lemma_total_empty(alloc: Map<usize, Map<usize, isize>>, ts: Set<usize>, s: usize)
    requires
        ts =~= Set::<usize>::empty(),
    ensures
        total_held(alloc, ts, s) == 0,
{
}

/// The sum splits off any one of its threads.
proof fn lemma_total_remove(alloc: Map<usize, Map<usize, isize>>, ts: Set<usize>, x: usize, s: usize)
    requires
        ts.finite(),
        ts.contains(x),
    ensures
        total_held(alloc, ts, s) == held_in(alloc, x, s) + total_held(alloc, ts.remove(x), s),
    decreases ts.len(),
{
    assert(ts.contains(ts.choose()));
    let c = ts.choose();
    if c != x {
        lemma_total_remove(alloc, ts.remove(c), x, s);
        lemma_total_remove(alloc, ts.remove(x), c, s);
        assert(ts.remove(c).remove(x) =~= ts.remove(x).remove(c));
    }
}

/// With no negative holdings, a sum over fewer threads is no larger.
proof fn lemma_total_grows(alloc: Map<usize, Map<usize, isize>>, a: Set<usize>, b: Set<usize>, s: usize)
    requires
        b.finite(),
        a.subset_of(b),
        forall|u: usize| #[trigger] b.contains(u) ==> held_in(alloc, u, s) >= 0,
    ensures
        total_held(alloc, a, s) <= total_held(alloc, b, s),
    decreases b.len(),
{
    vstd::set_lib::lemma_set_subset_finite(b, a);
    if b.contains(b.choose()) {
        let x = b.choose();
        if a.contains(x) {
            lemma_total_remove(alloc, a, x, s);
            lemma_total_grows(alloc, a.remove(x), b.remove(x), s);
        } else {
            assert(a.subset_of(b.remove(x)));
            lemma_total_grows(alloc, a, b.remove(x), s);
        }
    } else {
        assert(a =~= Set::<usize>::empty()) by {
            if exists|u: usize| a.contains(u) {
                let u: usize = choose|u: usize| a.contains(u);
                assert(b.contains(u));
            }
        }
    }
}

/// `st` keeps the account against a search that started with available
/// units `a0` and allocation table `alloc0`.
spec fn accounted(st: SearchState, a0: Map<usize, int>, alloc0: Map<usize, Map<usize, isize>>) -> bool {
    &&& forall|u: usize| #[trigger] st.alloc.contains_key(u) ==> alloc0.contains_key(u) && st.alloc[u] == alloc0[u]
    &&& forall|s: usize|
        #[trigger] amount_of(st.avail, s) == amount_of(a0, s) + total_held(
            alloc0,
            alloc0.dom().difference(st.alloc.dom()),
            s,
        )
}

/// `st` keeps the account, its allocation entries are those of threads
/// that still request, and its requests are requests of `req0`.
spec fn tracks(
    st: SearchState,
    a0: Map<usize, int>,
    alloc0: Map<usize, Map<usize, isize>>,
    req0: Map<usize, usize>,
) -> bool {
    &&& accounted(st, a0, alloc0)
    &&& st.alloc.dom() == alloc0.dom().intersect(st.req.dom())
    &&& forall|t: usize| #[trigger] st.req.contains_key(t) ==> req0.contains_key(t) && st.req[t] == req0[t]
}

proof fn lemma_release_thread_accounted(
    st: SearchState,
    t: usize,
    a0: Map<usize, int>,
    alloc0: Map<usize, Map<usize, isize>>,
)
    requires
        accounted(st, a0, alloc0),
        alloc0.dom().finite(),
    ensures
        accounted(release_thread(st, t), a0, alloc0),
        release_thread(st, t).req == st.req,
        release_thread(st, t).alloc.dom() == st.alloc.dom().remove(t),
{
    if st.alloc.contains_key(t) {
        let r = release_thread(st, t);
        let d = alloc0.dom().difference(st.alloc.dom());
        let d1 = alloc0.dom().difference(r.alloc.dom());
        assert(d1.remove(t) =~= d);
        assert(d1.contains(t));
        assert forall|s: usize| #[trigger] amount_of(r.avail, s) == amount_of(a0, s) + total_held(alloc0, d1, s) by {
            lemma_total_remove(alloc0, d1, t, s);
            assert(amount_of(release(st.avail, st.alloc[t]), s) == amount_of(st.avail, s) + count_of(st.alloc[t], s));
            assert(amount_of(st.avail, s) == amount_of(a0, s) + total_held(alloc0, d, s));
        }
        assert(r.alloc.dom() =~= st.alloc.dom().remove(t));
    } else {
        assert(st.alloc.dom() =~= st.alloc.dom().remove(t));
    }
}

proof fn lemma_release_all_accounted(
    st: SearchState,
    ts: Set<usize>,
    a0: Map<usize, int>,
    alloc0: Map<usize, Map<usize, isize>>,
)
    requires
        accounted(st, a0, alloc0),
        alloc0.dom().finite(),
        ts.finite(),
    ensures
        accounted(release_all(st, ts), a0, alloc0),
        release_all(st, ts).req == st.req,
        release_all(st, ts).alloc.dom() == st.alloc.dom().difference(ts),
    decreases ts.len(),
{
    reveal(release_all);
    if ts.contains(least(ts)) {
        let t = least(ts);
        lemma_release_thread_accounted(st, t, a0, alloc0);
        lemma_release_all_accounted(release_thread(st, t), ts.remove(t), a0, alloc0);
        assert(st.alloc.dom().remove(t).difference(ts.remove(t)) =~= st.alloc.dom().difference(ts));
    } else {
        if exists|x: usize| ts.contains(x) {
            let x: usize = choose|x: usize| ts.contains(x);
            lemma_has_least(ts, x);
        }
        assert(st.alloc.dom().difference(ts) =~= st.alloc.dom());
    }
}

proof fn lemma_grant_tracks(
    st: SearchState,
    t: usize,
    sem: usize,
    a0: Map<usize, int>,
    alloc0: Map<usize, Map<usize, isize>>,
    req0: Map<usize, usize>,
)
    requires
        tracks(st, a0, alloc0, req0),
        alloc0.dom().finite(),
    ensures
        tracks(grant(st, t, sem), a0, alloc0, req0),
        grant(st, t, sem).req.dom().subset_of(st.req.dom()),
        !can_grant(st, sem) ==> grant(st, t, sem) == st,
        can_grant(st, sem) ==> grant(st, t, sem).req == st.req.remove(t),
{
    if can_grant(st, sem) {
        lemma_release_thread_accounted(st, t, a0, alloc0);
        let g = grant(st, t, sem);
        assert(g.alloc.dom() =~= alloc0.dom().intersect(g.req.dom()));
    }
}

proof fn lemma_grant_pass_tracks(
    st: SearchState,
    snap: Map<usize, usize>,
    ts: Set<usize>,
    a0: Map<usize, int>,
    alloc0: Map<usize, Map<usize, isize>>,
    req0: Map<usize, usize>,
)
    requires
        tracks(st, a0, alloc0, req0),
        alloc0.dom().finite(),
    ensures
        tracks(grant_pass(st, snap, ts), a0, alloc0, req0),
        grant_pass(st, snap, ts).req.dom().subset_of(st.req.dom()),
    decreases ts.len(),
{
    reveal(grant_pass);
    if ts.finite() && ts.contains(least(ts)) {
        let t = least(ts);
        lemma_grant_tracks(st, t, snap[t], a0, alloc0, req0);
        lemma_grant_pass_tracks(grant(st, t, snap[t]), snap, ts.remove(t), a0, alloc0, req0);
    }
}

proof fn lemma_settle_tracks(
    st: SearchState,
    a0: Map<usize, int>,
    alloc0: Map<usize, Map<usize, isize>>,
    req0: Map<usize, usize>,
)
    requires
        tracks(st, a0, alloc0, req0),
        alloc0.dom().finite(),
        req0.dom().finite(),
    ensures
        tracks(settle(st), a0, alloc0, req0),
    decreases st.req.dom().len(),
{
    lemma_settle_unfold(st);
    let next = grant_pass(st, st.req, st.req.dom());
    lemma_grant_pass_tracks(st, st.req, st.req.dom(), a0, alloc0, req0);
    if next.req.dom().len() < st.req.dom().len() {
        lemma_settle_tracks(next, a0, alloc0, req0);
    }
}

/// After the idle threads released what they hold, the search keeps its
/// account.
proof fn lemma_cleared_tracks(v: DetectorView)
    requires
        v.alloc.dom().finite(),
        v.req.dom().finite(),
    ensures
        tracks(release_all(start_state(v), idle_threads(start_state(v))), widen(v.avail), v.alloc, v.req),
        release_all(start_state(v), idle_threads(start_state(v))).req == v.req,
{
    let s0 = start_state(v);
    let idle = idle_threads(s0);
    assert forall|s: usize| #[trigger] amount_of(s0.avail, s) == amount_of(widen(v.avail), s) + total_held(
        v.alloc,
        v.alloc.dom().difference(s0.alloc.dom()),
        s,
    ) by {
        lemma_total_empty(v.alloc, v.alloc.dom().difference(s0.alloc.dom()), s);
    }
    assert(idle.subset_of(v.alloc.dom()));
    vstd::set_lib::lemma_set_subset_finite(v.alloc.dom(), idle);
    lemma_release_all_accounted(s0, idle, widen(v.avail), v.alloc);
    let x = release_all(s0, idle);
    assert(x.alloc.dom() =~= v.alloc.dom().intersect(x.req.dom()));
}

/// A search with fewer units: requests that end stuck in the search
/// `f` (run with units `a2`) stay pending through every sweep of a search
/// that runs with units `a1`.
proof fn lemma_grant_pass_keeps_stuck(
    st: SearchState,
    snap: Map<usize, usize>,
    ts: Set<usize>,
    f: SearchState,
    a1: Map<usize, int>,
    a2: Map<usize, int>,
    alloc0: Map<usize, Map<usize, isize>>,
    req0: Map<usize, usize>,
)
    requires
        tracks(st, a1, alloc0, req0),
        tracks(f, a2, alloc0, req0),
        alloc0.dom().finite(),
        forall|t: usize| #[trigger] f.req.contains_key(t) ==> !can_grant(f, req0[t]),
        forall|s: usize| #[trigger] amount_of(a1, s) <= amount_of(a2, s),
        forall|u: usize, s: usize| #[trigger] held_in(alloc0, u, s) >= 0,
        f.req.dom().subset_of(st.req.dom()),
        forall|t: usize| #[trigger] ts.contains(t) ==> snap.contains_key(t) && snap[t] == req0[t],
    ensures
        tracks(grant_pass(st, snap, ts), a1, alloc0, req0),
        f.req.dom().subset_of(grant_pass(st, snap, ts).req.dom()),
    decreases ts.len(),
{
    reveal(grant_pass);
    if ts.finite() && ts.contains(least(ts)) {
        let t = least(ts);
        let sem = snap[t];
        lemma_grant_tracks(st, t, sem, a1, alloc0, req0);
        if f.req.contains_key(t) {
            let d1 = alloc0.dom().difference(st.alloc.dom());
            let d2 = alloc0.dom().difference(f.alloc.dom());
            assert(d1.subset_of(d2));
            lemma_total_grows(alloc0, d1, d2, sem);
            assert(amount_of(st.avail, sem) <= amount_of(f.avail, sem));
            assert(!can_grant(st, sem));
        }
        lemma_grant_pass_keeps_stuck(grant(st, t, sem), snap, ts.remove(t), f, a1, a2, alloc0, req0);
    }
}

proof fn lemma_settle_keeps_stuck(
    st: SearchState,
    f: SearchState,
    a1: Map<usize, int>,
    a2: Map<usize, int>,
    alloc0: Map<usize, Map<usize, isize>>,
    req0: Map<usize, usize>,
)
    requires
        tracks(st, a1, alloc0, req0),
        tracks(f, a2, alloc0, req0),
        alloc0.dom().finite(),
        req0.dom().finite(),
        forall|t: usize| #[trigger] f.req.contains_key(t) ==> !can_grant(f, req0[t]),
        forall|s: usize| #[trigger] amount_of(a1, s) <= amount_of(a2, s),
        forall|u: usize, s: usize| #[trigger] held_in(alloc0, u, s) >= 0,
        f.req.dom().subset_of(st.req.dom()),
    ensures
        f.req.dom().subset_of(settle(st).req.dom()),
    decreases st.req.dom().len(),
{
    lemma_settle_unfold(st);
    let next = grant_pass(st, st.req, st.req.dom());
    lemma_grant_pass_keeps_stuck(st, st.req, st.req.dom(), f, a1, a2, alloc0, req0);
    if next.req.dom().len() < st.req.dom().len() {
        lemma_settle_keeps_stuck(next, f, a1, a2, alloc0, req0);
    }
}

/// More units never create a deadlock: two detectors with the same
/// holdings, none of them negative, and the same requests, where the
/// second has at least as many units available of every semaphore as the
/// first (a missing entry counting zero). If the first has no deadlock,
/// neither has the second.
pub proof fn lemma_more_units_no_new_deadlock(v1: DetectorView, v2: DetectorView)
    requires
        v1.alloc == v2.alloc,
        v1.req == v2.req,
        v1.alloc.dom().finite(),
        v1.req.dom().finite(),
        forall|t: usize, s: usize|
            v1.alloc.contains_key(t) && #[trigger] v1.alloc[t].contains_key(s) ==> v1.alloc[t][s] >= 0,
        forall|s: usize| #[trigger] count_of(v1.avail, s) <= count_of(v2.avail, s),
        !has_deadlock(v1),
    ensures
        !has_deadlock(v2),
{
    let alloc0 = v1.alloc;
    let req0 = v1.req;
    let a1 = widen(v1.avail);
    let a2 = widen(v2.avail);
    assert forall|s: usize| #[trigger] amount_of(a1, s) <= amount_of(a2, s) by {
        assert(amount_of(a1, s) == count_of(v1.avail, s));
        assert(amount_of(a2, s) == count_of(v2.avail, s));
    }
    assert forall|u: usize, s: usize| #[trigger] held_in(alloc0, u, s) >= 0 by {
        if alloc0.contains_key(u) && alloc0[u].contains_key(s) {
            assert(alloc0[u][s] >= 0);
        }
    }
    let f = final_state(v2);
    let x2 = release_all(start_state(v2), idle_threads(start_state(v2)));
    lemma_cleared_tracks(v2);
    lemma_settle_tracks(x2, a2, alloc0, req0);
    lemma_remaining_requests_are_stuck(v2);
    let x1 = release_all(start_state(v1), idle_threads(start_state(v1)));
    lemma_cleared_tracks(v1);
    assert(f.req.dom().subset_of(x1.req.dom()));
    lemma_settle_keeps_stuck(x1, f, a1, a2, alloc0, req0);
    let f1 = final_state(v1);
    assert(f1.req.dom() =~= Set::<usize>::empty());
    assert(f.req.dom() =~= Set::<usize>::empty());
}

} // verus!
