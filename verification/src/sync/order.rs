//! Ascending key order of `BTreeMap`s with `usize` keys, and the least
//! element of a set of keys.
use std::collections::BTreeMap;
use vstd::prelude::*;
use vstd::std_specs::cmp::OrdSpec;
use vstd::std_specs::iter::IteratorSpec;

verus! {

/// `s` lists its elements in strictly ascending order.
pub open spec fn strictly_ascending(s: Seq<usize>) -> bool {
    forall|i: int, j: int| 0 <= i < j < s.len() ==> s[i] < s[j]
}

/// The least element of `s` (meaningful when `s` has one).
pub open spec fn least(s: Set<usize>) -> usize {
    choose|m: usize| s.contains(m) && forall|x: usize| #[trigger] s.contains(x) ==> m <= x
}

proof fn lemma_increasing_refs(s: Seq<&usize>)
    requires
        vstd::std_specs::btree::increasing_seq(s),
    ensures
        forall|i: int, j: int| 0 <= i < j < s.len() ==> *s[i] < *s[j],
{
    assert(vstd::laws_cmp::obeys_cmp::<&usize>());
    vstd::std_specs::btree::axiom_increasing_seq_meaning::<&usize>(s);
    assert forall|i: int, j: int| 0 <= i < j < s.len() implies *s[i] < *s[j] by {
        assert(OrdSpec::cmp_spec(&s[i], &s[j]) is Less);
    }
}

/// The keys of `m`, in the ascending order in which the map hands them out.
pub fn sorted_keys<V>(m: &BTreeMap<usize, V>) -> (keys: Vec<usize>)
    ensures
        keys@.to_set() == m@.dom(),
        keys@.no_duplicates(),
        strictly_ascending(keys@),
{
    let mut keys: Vec<usize> = Vec::new();
    let ghost all = vstd::std_specs::btree::spec_keys_iter(m).remaining();
    for k in it: m.keys()
        invariant
            it.seq() == all,
            keys@ == all.take(it.index()).map_values(|r: &usize| *r),
    {
        keys.push(*k);
    }
    proof {
        assert(keys@ == all.map_values(|r: &usize| *r));
        assert(all.unref() == all.map_values(|r: &usize| *r));
        lemma_increasing_refs(all);
    }
    keys
}

/// In an ascending sequence, the element at `i` is the least of the
/// elements from `i` on, and taking it away leaves the elements after `i`.
pub proof fn lemma_least_of_suffix(q: Seq<usize>, i: int)
    requires
        strictly_ascending(q),
        0 <= i < q.len(),
    ensures
        q.skip(i).to_set().finite(),
        q.skip(i).to_set().contains(q[i]),
        least(q.skip(i).to_set()) == q[i],
        q.skip(i).to_set().remove(q[i]) == q.skip(i + 1).to_set(),
{
    let s = q.skip(i).to_set();
    assert(q.skip(i)[0] == q[i]);
    assert(s.contains(q[i]));
    assert forall|x: usize| #[trigger] s.contains(x) implies q[i] <= x by {
        let tail = q.skip(i);
        let k: int = choose|k: int| 0 <= k < tail.len() && tail[k] == x;
        assert(tail[k] == q[i + k]);
    }
    let m: usize = least(s);
    assert(s.contains(m) && forall|x: usize| #[trigger] s.contains(x) ==> m <= x);
    assert(m <= q[i] && q[i] <= m);
    assert forall|x: usize| #[trigger] s.remove(q[i]).contains(x) <==> q.skip(i + 1).to_set().contains(x) by {
        if s.remove(q[i]).contains(x) {
            let tail = q.skip(i);
            let k: int = choose|k: int| 0 <= k < tail.len() && tail[k] == x;
            assert(k != 0);
            assert(q.skip(i + 1)[k - 1] == x);
        }
        if q.skip(i + 1).to_set().contains(x) {
            let rest = q.skip(i + 1);
            let k: int = choose|k: int| 0 <= k < rest.len() && rest[k] == x;
            assert(q.skip(i)[k + 1] == x);
            assert(x > q[i]);
        }
    }
    assert(s.remove(q[i]) =~= q.skip(i + 1).to_set());
}

/// Nothing is left once every element has been taken.
pub proof fn lemma_empty_suffix(q: Seq<usize>)
    ensures
        q.skip(q.len() as int).to_set() == Set::<usize>::empty(),
        q.skip(0).to_set() == q.to_set(),
{
    assert(q.skip(q.len() as int).to_set() =~= Set::<usize>::empty());
    assert(q.skip(0) =~= q);
}

} // verus!
