//! The keys of an ordered map as a vector in ascending order, for loops that
//! change the map while they walk it, and what such loops say of the part of
//! the vector that they have walked.

use std::collections::BTreeMap;
use vstd::prelude::*;
use vstd::std_specs::btree::{axiom_increasing_seq_meaning, increasing_seq};
use vstd::std_specs::cmp::OrdSpec;
use vstd::std_specs::iter::IteratorSpec;

verus! {

/// `ids` lists exactly the members of `dom`, in ascending order.
pub open spec fn lists_ascending(ids: Seq<usize>, dom: Set<usize>) -> bool {
    &&& ids.len() == dom.len()
    &&& forall|i: int, j: int| 0 <= i < j < ids.len() ==> ids[i] < ids[j]
    &&& forall|i: int| 0 <= i < ids.len() ==> dom.contains(#[trigger] ids[i])
    &&& forall|k: usize| dom.contains(k) ==> exists|i: int| 0 <= i < ids.len() && ids[i] == k
}

/// The keys of `map`, in ascending order.
pub fn ascending_keys<V>(map: &BTreeMap<usize, V>) -> (ids: Vec<usize>)
    ensures
        lists_ascending(ids@, map@.dom()),
{
    let mut ids: Vec<usize> = Vec::new();
    let ghost all = map.keys().remaining();
    for key in it: map.keys()
        invariant
            it.seq() == all,
            ids@.len() == it.index(),
            forall|i: int| 0 <= i < ids@.len() ==> ids@[i] == *it.seq()[i],
    {
        ids.push(*key);
    }
    proof {
        assert(ids@ =~= all.unref());
        assert(all.unref().to_set() == map@.dom());
        assert(increasing_seq(all));
        axiom_increasing_seq_meaning::<&usize>(all);
        assert forall|i: int, j: int| 0 <= i < j < ids@.len() implies ids@[i] < ids@[j] by {
            assert(OrdSpec::cmp_spec(&all[i], &all[j]) is Less);
        }
        assert forall|i: int| 0 <= i < ids@.len() implies map@.dom().contains(
            #[trigger] ids@[i],
        ) by {
            assert(ids@.contains(ids@[i]));
            assert(ids@.to_set().contains(ids@[i]));
        }
        assert forall|k: usize| map@.dom().contains(k) implies exists|i: int|
            0 <= i < ids@.len() && ids@[i] == k by {
            assert(ids@.to_set().contains(k));
            assert(ids@.contains(k));
        }
    }
    ids
}

/// `k` is among the first `i` keys of the list.
pub open spec fn listed_before(ids: Seq<usize>, i: int, k: usize) -> bool {
    exists|p: int| 0 <= p < i && ids[p] == k
}

/// The first `i + 1` keys of a list are the first `i` and the one after them.
pub proof fn lemma_listed_next(ids: Seq<usize>, i: int)
    requires
        0 <= i < ids.len(),
    ensures
        forall|k: usize| #[trigger]
            listed_before(ids, i + 1, k) <==> listed_before(ids, i, k) || k == ids[i],
{
    assert forall|k: usize| #[trigger]
        listed_before(ids, i + 1, k) <==> listed_before(ids, i, k) || k == ids[i] by {
        if listed_before(ids, i + 1, k) {
            let p = choose|p: int| 0 <= p < i + 1 && ids[p] == k;
            if p < i {
                assert(listed_before(ids, i, k));
            }
        }
        if listed_before(ids, i, k) {
            let p = choose|p: int| 0 <= p < i && ids[p] == k;
            assert(0 <= p < i + 1 && ids[p] == k);
        }
        if k == ids[i] {
            assert(0 <= i < i + 1 && ids[i] == k);
        }
    }
}

/// The `i`-th key of an ascending list, or past its end a bound above every key.
pub open spec fn bound_at(ids: Seq<usize>, i: int) -> nat {
    if 0 <= i < ids.len() {
        ids[i] as nat
    } else {
        (usize::MAX + 1) as nat
    }
}

} // verus!
