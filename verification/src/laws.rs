//! What holds of the model of clustering: the closest pair exists and is
//! one, a merge keeps the table of distances complete and symmetric and
//! follows single linkage, and the merge loop ends with one tree after one
//! round for each node but one.

use crate::dendrogram::{
    is_closest_before, min_distance, none_before, scanned_before, ElementId, HierarchyView,
};
use vstd::prelude::*;

verus! {

/// Where two or more nodes are active, two of them hold a distance to each other.
pub proof fn lemma_two_are_linked(v: HierarchyView) -> (pair: (ElementId, ElementId))
    requires
        v.wf(),
        v.objects.len() >= 2,
    ensures
        v.linked(pair.0, pair.1),
{
    let first = v.objects.dom().choose();
    assert(v.objects.dom().len() != 0);
    assert(v.objects.contains_key(first));
    let others = v.objects.dom().remove(first);
    assert(others.len() != 0);
    let second = others.choose();
    assert(others.contains(second));
    (first, second)
}

/// Where a node holds a distance to another, two or more nodes are active.
pub proof fn lemma_linked_are_two(v: HierarchyView, a: ElementId, b: ElementId)
    requires
        v.wf(),
        v.linked(a, b),
    ensures
        v.objects.len() >= 2,
{
    assert(v.objects.contains_key(a) && v.objects.contains_key(b) && a != b);
    assert(v.objects.dom().remove(a).contains(b));
    assert(v.objects.dom().remove(a).remove(b).len() >= 0);
}

/// What a scan of the table finds before it comes to `(i, j)`: the pair that
/// it prefers among those met so far, or that no pair was met.
proof fn lemma_scan(v: HierarchyView, i: nat, j: nat) -> (best: Option<(ElementId, ElementId)>)
    requires
        v.wf(),
        i <= v.element_count + 1,
        j <= v.element_count + 1,
    ensures
        match best {
            Some((a, b)) => is_closest_before(v, a, b, i, j),
            None => none_before(v, i, j),
        },
    decreases i, j,
{
    if j == 0 {
        if i == 0 {
            None
        } else {
            let prev = lemma_scan(v, (i - 1) as nat, (v.element_count + 1) as nat);
            assert forall|x: ElementId, y: ElementId| #[trigger] v.linked(x, y) implies (
            scanned_before(x, y, i, j) <==> scanned_before(
                x,
                y,
                (i - 1) as nat,
                (v.element_count + 1) as nat,
            )) by {
                assert(v.objects.contains_key(y));
            }
            prev
        }
    } else {
        let prev = lemma_scan(v, i, (j - 1) as nat);
        let x0 = i as ElementId;
        let y0 = (j - 1) as ElementId;
        if i <= usize::MAX && v.linked(x0, y0) {
            match prev {
                Some((a, b)) => {
                    if v.distance(x0, y0) < v.distance(a, b) {
                        Some((x0, y0))
                    } else {
                        prev
                    }
                },
                None => Some((x0, y0)),
            }
        } else {
            prev
        }
    }
}

/// Where two or more nodes are active, one pair is the closest.
pub proof fn lemma_closest_pair_exists(v: HierarchyView)
    requires
        v.wf(),
        v.objects.len() >= 2,
    ensures
        v.is_closest_pair(v.closest_pair().0, v.closest_pair().1),
{
    let (k1, k2) = lemma_two_are_linked(v);
    let best = lemma_scan(v, (v.element_count + 1) as nat, 0);
    assert(scanned_before(k1, k2, (v.element_count + 1) as nat, 0));
    match best {
        Some((a, b)) => {
            assert forall|x: ElementId, y: ElementId| #[trigger] v.linked(x, y) implies {
                ||| v.distance(a, b) < v.distance(x, y)
                ||| (v.distance(a, b) == v.distance(x, y) && (a < x || (a == x && b <= y)))
            } by {
                assert(scanned_before(x, y, (v.element_count + 1) as nat, 0));
            }
            let p = (a, b);
            assert(v.is_closest_pair(p.0, p.1));
        },
        None => {
            assert(false);
        },
    }
}

/// No two pairs are both the closest one.
pub proof fn lemma_closest_pair_unique(
    v: HierarchyView,
    a: ElementId,
    b: ElementId,
    c: ElementId,
    d: ElementId,
)
    requires
        v.is_closest_pair(a, b),
        v.is_closest_pair(c, d),
    ensures
        a == c,
        b == d,
{
}

/// A pair that is closest is the one that the merge step takes.
pub proof fn lemma_closest_pair_chosen(v: HierarchyView, a: ElementId, b: ElementId)
    requires
        v.is_closest_pair(a, b),
    ensures
        v.closest_pair() == (a, b),
        v.merge_step() == v.merged(a, b),
{
    let p = (a, b);
    assert(v.is_closest_pair(p.0, p.1));
    let q = v.closest_pair();
    lemma_closest_pair_unique(v, a, b, q.0, q.1);
}

/// Merging two active nodes keeps the table complete and symmetric, takes the
/// two nodes out of the active set and puts one in, under the next identifier.
pub proof fn lemma_merged_wf(v: HierarchyView, a: ElementId, b: ElementId)
    requires
        v.wf(),
        v.linked(a, b),
        v.element_count < usize::MAX,
    ensures
        v.merged(a, b).wf(),
        v.merged(a, b).objects.dom() == v.objects.dom().remove(a).remove(b).insert(v.next_id()),
        v.merged(a, b).objects.len() == v.objects.len() - 1,
        v.merged(a, b).element_count == v.element_count + 1,
{
    let w = v.merged(a, b);
    let m = v.next_id();
    let rest = v.objects.remove(a).remove(b);
    assert(v.objects.contains_key(a) && v.objects.contains_key(b) && a != b);
    assert(!v.objects.contains_key(m));
    assert(w.objects.dom() =~= v.objects.dom().remove(a).remove(b).insert(m));
    assert forall|k: ElementId| #[trigger] w.objects.contains_key(k) implies {
        &&& 1 <= k <= w.element_count
        &&& w.objects[k].tree.id() == k
        &&& w.objects[k].tree.ordered()
    } by {
        if k != m {
            assert(v.objects.contains_key(k));
        }
    }
    assert forall|x: ElementId, y: ElementId| #[trigger]
        w.linked(x, y) <==> w.objects.contains_key(x) && w.objects.contains_key(y) && x != y by {
        if w.objects.contains_key(x) && x != m {
            assert(v.objects.contains_key(x));
            assert(v.linked(x, y) <==> v.objects.contains_key(x) && v.objects.contains_key(y) && x
                != y);
        }
    }
    assert forall|x: ElementId, y: ElementId| #[trigger] w.linked(x, y) implies w.distance(x, y)
        == w.distance(y, x) by {
        assert(w.objects.contains_key(y) && x != y);
        if x != m && y != m {
            assert(v.linked(x, y));
            assert(v.linked(y, x));
        }
    }
}

/// Single linkage: once `a` and `b` are merged, the new node is as far from
/// any other active node `x` as the closer of `a` and `b` was, seen from
/// either side.
pub proof fn lemma_single_linkage(v: HierarchyView, a: ElementId, b: ElementId, x: ElementId)
    requires
        v.wf(),
        v.linked(a, b),
        v.element_count < usize::MAX,
        v.objects.contains_key(x),
        x != a,
        x != b,
    ensures
        v.merged(a, b).linked(v.next_id(), x),
        v.merged(a, b).linked(x, v.next_id()),
        v.merged(a, b).distance(v.next_id(), x) == min_distance(v.distance(a, x), v.distance(b, x)),
        v.merged(a, b).distance(x, v.next_id()) == min_distance(v.distance(a, x), v.distance(b, x)),
{
    assert(v.objects.contains_key(a));
    assert(!v.objects.contains_key(v.next_id()));
}

/// Merging leaves the distances between the other active nodes as they were.
pub proof fn lemma_merge_keeps_other_distances(
    v: HierarchyView,
    a: ElementId,
    b: ElementId,
    x: ElementId,
    y: ElementId,
)
    requires
        v.wf(),
        v.linked(a, b),
        v.element_count < usize::MAX,
        v.linked(x, y),
        x != a,
        x != b,
        y != a,
        y != b,
    ensures
        v.merged(a, b).linked(x, y),
        v.merged(a, b).distance(x, y) == v.distance(x, y),
{
    assert(v.objects.contains_key(x));
    assert(v.objects.contains_key(y));
    assert(!v.objects.contains_key(v.next_id()));
}

/// The merges counted up to an identifier, before a merge and after it: the
/// two merged nodes no longer count.
proof fn lemma_merges_upto_merged(v: HierarchyView, a: ElementId, b: ElementId, upto: nat)
    requires
        v.wf(),
        v.linked(a, b),
        v.element_count < usize::MAX,
        upto <= v.element_count,
    ensures
        v.merged(a, b).merges_upto(upto) + (if a <= upto {
            v.objects[a].tree.merges()
        } else {
            0
        }) + (if b <= upto {
            v.objects[b].tree.merges()
        } else {
            0
        }) == v.merges_upto(upto),
    decreases upto,
{
    if upto > 0 {
        lemma_merges_upto_merged(v, a, b, (upto - 1) as nat);
        let k = upto as ElementId;
        assert(v.objects.contains_key(a) && v.objects.contains_key(b) && a != b);
        if k != a && k != b {
            assert(v.merged(a, b).objects.contains_key(k) <==> v.objects.contains_key(k));
        }
    }
}

/// A merge adds one to the number of merges in the trees of the active nodes.
pub proof fn lemma_merged_merges(v: HierarchyView, a: ElementId, b: ElementId)
    requires
        v.wf(),
        v.linked(a, b),
        v.element_count < usize::MAX,
    ensures
        v.merged(a, b).merges() == v.merges() + 1,
{
    lemma_merges_upto_merged(v, a, b, v.element_count as nat);
    assert(v.objects.contains_key(a) && v.objects.contains_key(b));
    let w = v.merged(a, b);
    assert(w.objects.contains_key(v.next_id()));
    assert(w.merges() == w.merges_upto(v.element_count as nat)
        + w.objects[v.next_id()].tree.merges());
}

/// A round more is a round after the others.
pub proof fn lemma_merge_steps_last(v: HierarchyView, n: nat)
    ensures
        v.merge_steps(n + 1) == v.merge_steps(n).merge_step(),
    decreases n,
{
    if n > 0 {
        lemma_merge_steps_last(v.merge_step(), (n - 1) as nat);
    } else {
        assert(v.merge_steps(1) == v.merge_step().merge_steps(0));
    }
}

/// The merge loop, round by round: while two or more nodes are active a round
/// keeps the table complete and symmetric and leaves one active node fewer.
pub proof fn lemma_merge_steps(v: HierarchyView, n: nat)
    requires
        v.wf(),
        n < v.objects.len(),
        v.element_count + n <= usize::MAX,
    ensures
        v.merge_steps(n).wf(),
        v.merge_steps(n).objects.len() == v.objects.len() - n,
        v.merge_steps(n).element_count == v.element_count + n,
    decreases n,
{
    if n > 0 {
        lemma_closest_pair_exists(v);
        let p = v.closest_pair();
        lemma_merged_wf(v, p.0, p.1);
        lemma_merge_steps(v.merge_step(), (n - 1) as nat);
    }
}

/// A node that was merged away does not come back: after any number of
/// rounds, the active nodes are among those that were active before the
/// rounds and those that the rounds made, which carry the identifiers given
/// out since.
pub proof fn lemma_retired_stay_out(v: HierarchyView, n: nat, k: ElementId)
    requires
        v.wf(),
        n < v.objects.len(),
        v.element_count + n <= usize::MAX,
        v.merge_steps(n).objects.contains_key(k),
    ensures
        v.objects.contains_key(k) || v.element_count < k <= v.element_count + n,
    decreases n,
{
    if n > 0 {
        lemma_closest_pair_exists(v);
        let p = v.closest_pair();
        lemma_merged_wf(v, p.0, p.1);
        lemma_retired_stay_out(v.merge_step(), (n - 1) as nat, k);
    }
}

/// The table stays symmetric through the merge loop: after any number of
/// rounds, any two active nodes hold the same distance to each other.
pub proof fn lemma_symmetric_after_every_round(
    v: HierarchyView,
    n: nat,
    a: ElementId,
    b: ElementId,
)
    requires
        v.wf(),
        n < v.objects.len(),
        v.element_count + n <= usize::MAX,
        v.merge_steps(n).objects.contains_key(a),
        v.merge_steps(n).objects.contains_key(b),
        a != b,
    ensures
        v.merge_steps(n).linked(a, b),
        v.merge_steps(n).linked(b, a),
        v.merge_steps(n).distance(a, b) == v.merge_steps(n).distance(b, a),
{
    lemma_merge_steps(v, n);
    let w = v.merge_steps(n);
    assert(w.linked(a, b));
    assert(w.linked(b, a));
}

/// Every round of the merge loop adds one merge to the trees of the active nodes.
pub proof fn lemma_merge_steps_merges(v: HierarchyView, n: nat)
    requires
        v.wf(),
        n < v.objects.len(),
        v.element_count + n <= usize::MAX,
    ensures
        v.merge_steps(n).merges() == v.merges() + n,
    decreases n,
{
    if n > 0 {
        lemma_closest_pair_exists(v);
        let p = v.closest_pair();
        lemma_merged_wf(v, p.0, p.1);
        lemma_merged_merges(v, p.0, p.1);
        lemma_merge_steps_merges(v.merge_step(), (n - 1) as nat);
    }
}

/// Where one node is active, the merges counted up to an identifier are
/// those of its tree, from its own identifier on.
proof fn lemma_merges_upto_single(v: HierarchyView, root: ElementId, upto: nat)
    requires
        v.objects.dom() == set![root],
        upto <= usize::MAX,
    ensures
        v.merges_upto(upto) == if 1 <= root <= upto {
            v.objects[root].tree.merges()
        } else {
            0
        },
    decreases upto,
{
    if upto > 0 {
        lemma_merges_upto_single(v, root, (upto - 1) as nat);
        assert(v.objects.contains_key(upto as ElementId) <==> upto as ElementId == root);
    }
}

/// Where one node is active, the merges in its tree are all merges there are.
pub proof fn lemma_root_merges(v: HierarchyView, root: ElementId)
    requires
        v.wf(),
        v.objects.len() == 1,
        v.objects.contains_key(root),
    ensures
        v.objects.dom() == set![root],
        v.merges() == v.objects[root].tree.merges(),
{
    assert(v.objects.dom().remove(root).len() == 0);
    assert(v.objects.dom() =~= set![root]) by {
        assert forall|k: ElementId| v.objects.dom().contains(k) implies k == root by {
            if k != root {
                assert(v.objects.dom().remove(root).contains(k));
            }
        }
    }
    lemma_merges_upto_single(v, root, v.element_count as nat);
}

/// The merge loop on `N` active nodes, `N` at least one, ends after `N - 1`
/// rounds with one active node and `N - 1` merges more in its tree than all
/// trees held before. After a round or more, that node carries the last
/// identifier given out.
pub proof fn lemma_assembled(v: HierarchyView)
    requires
        v.wf(),
        v.objects.len() >= 1,
        v.element_count + v.objects.len() - 1 <= usize::MAX,
    ensures
        v.assembled() == v.merge_steps((v.objects.len() - 1) as nat),
        v.assembled().wf(),
        v.assembled().objects.len() == 1,
        v.assembled().element_count == v.element_count + v.objects.len() - 1,
        v.assembled().merges() == v.merges() + v.objects.len() - 1,
        v.objects.len() >= 2 ==> v.assembled().objects.contains_key(v.assembled().element_count),
{
    let n = (v.objects.len() - 1) as nat;
    lemma_merge_steps(v, n);
    lemma_merge_steps_merges(v, n);
    if n > 0 {
        lemma_merge_steps_last(v, (n - 1) as nat);
        lemma_merge_steps(v, (n - 1) as nat);
        let before = v.merge_steps((n - 1) as nat);
        lemma_closest_pair_exists(before);
        let p = before.closest_pair();
        lemma_merged_wf(before, p.0, p.1);
        assert(before.merged(p.0, p.1).objects.contains_key(before.next_id()));
    }
}

/// The merge loop is a function of the state it starts from: two runs from
/// the same active nodes, trees and distances end with the same tree, merged
/// in the same order under the same identifiers.
pub proof fn lemma_assemble_deterministic(
    first: HierarchyView,
    second: HierarchyView,
    first_end: HierarchyView,
    second_end: HierarchyView,
)
    requires
        first == second,
        first_end == first.assembled(),
        second_end == second.assembled(),
    ensures
        first_end == second_end,
        first_end.objects == second_end.objects,
        first_end.element_count == second_end.element_count,
{
}

} // verus!
