//! Single linkage, from the leaves up: through the merge loop every active
//! node stands for a cluster of leaves, and the distance between two active
//! nodes is the least distance between a leaf of the one and a leaf of the
//! other in the table that the loop started from.

use crate::dendrogram::{Distance, ElementId, HierarchyView};
use crate::laws::{lemma_closest_pair_exists, lemma_merge_steps, lemma_merged_wf};
use vstd::prelude::*;

verus! {

/// `distance` is the least distance that `table` holds from a leaf of
/// `first` to a leaf of `second`.
pub open spec fn is_least_between(
    table: HierarchyView,
    first: Set<ElementId>,
    second: Set<ElementId>,
    distance: Distance,
) -> bool {
    &&& forall|u: ElementId, x: ElementId|
        #![trigger table.distance(u, x)]
        first.contains(u) && second.contains(x) ==> distance <= table.distance(u, x)
    &&& exists|u: ElementId, x: ElementId|
        #![trigger table.distance(u, x)]
        first.contains(u) && second.contains(x) && distance == table.distance(u, x)
}

/// The active nodes of `v` are clusters of the leaves of `table`: every leaf
/// of `table` is in the tree of one active node and of no other, and the
/// distance between two active nodes is the least that `table` holds between
/// their leaves.
pub open spec fn is_clustering_of(v: HierarchyView, table: HierarchyView) -> bool {
    &&& forall|a: ElementId, u: ElementId|
        #![trigger v.leaves_of(a).contains(u)]
        v.objects.contains_key(a) && v.leaves_of(a).contains(u) ==> table.objects.contains_key(u)
    &&& forall|u: ElementId| #[trigger]
        table.objects.contains_key(u) ==> exists|a: ElementId|
            #![trigger v.leaves_of(a).contains(u)]
            v.objects.contains_key(a) && v.leaves_of(a).contains(u)
    &&& forall|a: ElementId, b: ElementId, u: ElementId|
        #![trigger v.leaves_of(a).contains(u), v.leaves_of(b).contains(u)]
        v.objects.contains_key(a) && v.objects.contains_key(b) && a != b && v.leaves_of(
            a,
        ).contains(u) ==> !v.leaves_of(b).contains(u)
    &&& forall|a: ElementId, b: ElementId| #[trigger]
        v.linked(a, b) ==> is_least_between(
            table,
            v.leaves_of(a),
            v.leaves_of(b),
            v.distance(a, b),
        )
}

/// Leaves are clusters of themselves.
pub proof fn lemma_leaves_are_clusters(table: HierarchyView)
    requires
        table.wf(),
        table.all_leaves(),
    ensures
        is_clustering_of(table, table),
{
    assert forall|u: ElementId| #[trigger] table.objects.contains_key(u) implies exists|
        a: ElementId,
    |
        #![trigger table.leaves_of(a).contains(u)]
        table.objects.contains_key(a) && table.leaves_of(a).contains(u) by {
        assert(table.leaves_of(u).contains(u));
    }
    assert forall|a: ElementId, b: ElementId| #[trigger] table.linked(a, b) implies is_least_between(
        table,
        table.leaves_of(a),
        table.leaves_of(b),
        table.distance(a, b),
    ) by {
        assert(table.objects.contains_key(b));
        assert(table.leaves_of(a).contains(a) && table.leaves_of(b).contains(b));
        assert(table.distance(a, b) == table.distance(a, b));
    }
}

/// A merge of two clusters is a cluster: its leaves are those of the two,
/// and its distance to another cluster is the least between their leaves.
pub proof fn lemma_merged_is_clustering(
    v: HierarchyView,
    table: HierarchyView,
    a: ElementId,
    b: ElementId,
)
    requires
        v.wf(),
        v.linked(a, b),
        v.element_count < usize::MAX,
        table.wf(),
        is_clustering_of(v, table),
    ensures
        is_clustering_of(v.merged(a, b), table),
        v.merged(a, b).leaves_of(v.next_id()) == v.leaves_of(a).union(v.leaves_of(b)),
{
    let w = v.merged(a, b);
    let m = v.next_id();
    lemma_merged_wf(v, a, b);
    assert(v.objects.contains_key(a) && v.objects.contains_key(b) && a != b);
    assert(!v.objects.contains_key(m));
    assert(w.leaves_of(m) == v.leaves_of(a).union(v.leaves_of(b)));
    assert forall|k: ElementId| w.objects.contains_key(k) && k != m implies v.objects.contains_key(
        k,
    ) && k != a && k != b && w.leaves_of(k) == v.leaves_of(k) by {}
    assert forall|x: ElementId, u: ElementId|
        #![trigger w.leaves_of(x).contains(u)]
        w.objects.contains_key(x) && w.leaves_of(x).contains(u) implies table.objects.contains_key(
        u,
    ) by {
        if x == m {
            if v.leaves_of(a).contains(u) {
            } else {
                assert(v.leaves_of(b).contains(u));
            }
        } else {
            assert(v.leaves_of(x).contains(u));
        }
    }
    assert forall|u: ElementId| #[trigger] table.objects.contains_key(u) implies exists|
        x: ElementId,
    |
        #![trigger w.leaves_of(x).contains(u)]
        w.objects.contains_key(x) && w.leaves_of(x).contains(u) by {
        let x = choose|x: ElementId|
            #![trigger v.leaves_of(x).contains(u)]
            v.objects.contains_key(x) && v.leaves_of(x).contains(u);
        if x == a || x == b {
            assert(w.objects.contains_key(m) && w.leaves_of(m).contains(u));
        } else {
            assert(w.objects.contains_key(x) && w.leaves_of(x).contains(u));
        }
    }
    assert forall|x: ElementId, y: ElementId, u: ElementId|
        #![trigger w.leaves_of(x).contains(u), w.leaves_of(y).contains(u)]
        w.objects.contains_key(x) && w.objects.contains_key(y) && x != y && w.leaves_of(
            x,
        ).contains(u) implies !w.leaves_of(y).contains(u) by {
        if x == m {
            assert(v.objects.contains_key(y));
            if v.leaves_of(a).contains(u) {
                assert(!v.leaves_of(y).contains(u));
            } else {
                assert(v.leaves_of(b).contains(u));
                assert(!v.leaves_of(y).contains(u));
            }
        } else if y == m {
            assert(v.objects.contains_key(x));
            assert(v.leaves_of(x).contains(u));
            assert(!v.leaves_of(a).contains(u));
            assert(!v.leaves_of(b).contains(u));
        } else {
            assert(v.leaves_of(x).contains(u));
            assert(!v.leaves_of(y).contains(u));
        }
    }
    assert forall|x: ElementId, y: ElementId| #[trigger] w.linked(x, y) implies is_least_between(
        table,
        w.leaves_of(x),
        w.leaves_of(y),
        w.distance(x, y),
    ) by {
        assert(w.objects.contains_key(x) && w.objects.contains_key(y) && x != y);
        if x == m {
            lemma_least_of_two(v, table, a, b, y);
            assert(w.distance(m, y) == v.linkage(a, b, y));
        } else if y == m {
            lemma_least_of_two(v, table, a, b, x);
            assert(w.distance(x, m) == v.linkage(a, b, x));
            lemma_least_turns(
                table,
                v.leaves_of(a).union(v.leaves_of(b)),
                v.leaves_of(x),
                v.linkage(a, b, x),
            );
        } else {
            assert(v.linked(x, y));
            assert(w.distance(x, y) == v.distance(x, y));
        }
    }
}

/// The least distance from the leaves of two clusters together to those of
/// a third one is the smaller of the two least distances.
proof fn lemma_least_of_two(
    v: HierarchyView,
    table: HierarchyView,
    a: ElementId,
    b: ElementId,
    x: ElementId,
)
    requires
        v.wf(),
        v.linked(a, b),
        v.objects.contains_key(x),
        x != a,
        x != b,
        is_clustering_of(v, table),
    ensures
        is_least_between(
            table,
            v.leaves_of(a).union(v.leaves_of(b)),
            v.leaves_of(x),
            v.linkage(a, b, x),
        ),
{
    assert(v.objects.contains_key(a) && v.objects.contains_key(b));
    assert(v.linked(a, x));
    assert(v.linked(b, x));
    let both = v.leaves_of(a).union(v.leaves_of(b));
    let from_a = v.distance(a, x);
    let from_b = v.distance(b, x);
    assert(is_least_between(table, v.leaves_of(a), v.leaves_of(x), from_a));
    assert(is_least_between(table, v.leaves_of(b), v.leaves_of(x), from_b));
    if from_a <= from_b {
        let (u, y) = choose|u: ElementId, y: ElementId|
            #![trigger table.distance(u, y)]
            v.leaves_of(a).contains(u) && v.leaves_of(x).contains(y) && from_a == table.distance(
                u,
                y,
            );
        assert(both.contains(u) && v.leaves_of(x).contains(y) && v.linkage(a, b, x)
            == table.distance(u, y));
    } else {
        let (u, y) = choose|u: ElementId, y: ElementId|
            #![trigger table.distance(u, y)]
            v.leaves_of(b).contains(u) && v.leaves_of(x).contains(y) && from_b == table.distance(
                u,
                y,
            );
        assert(both.contains(u) && v.leaves_of(x).contains(y) && v.linkage(a, b, x)
            == table.distance(u, y));
    }
}

/// In a symmetric table the least distance between two sets of leaves is
/// the same from either side.
proof fn lemma_least_turns(
    table: HierarchyView,
    first: Set<ElementId>,
    second: Set<ElementId>,
    distance: Distance,
)
    requires
        table.wf(),
        first.subset_of(table.objects.dom()),
        second.subset_of(table.objects.dom()),
        first.disjoint(second),
        is_least_between(table, first, second, distance),
    ensures
        is_least_between(table, second, first, distance),
{
    assert forall|u: ElementId, x: ElementId|
        #![trigger table.distance(u, x)]
        second.contains(u) && first.contains(x) implies distance <= table.distance(u, x) by {
        assert(table.linked(x, u));
        assert(distance <= table.distance(x, u));
    }
    let (u, x) = choose|u: ElementId, x: ElementId|
        #![trigger table.distance(u, x)]
        first.contains(u) && second.contains(x) && distance == table.distance(u, x);
    assert(table.linked(u, x));
    assert(second.contains(x) && first.contains(u) && distance == table.distance(x, u));
}

/// Single linkage through the merge loop: after any number of rounds from a
/// table of leaves, the active nodes are clusters of those leaves, and the
/// distance between two of them is the least distance that the table holds
/// between a leaf of the one and a leaf of the other.
pub proof fn lemma_merge_steps_cluster(table: HierarchyView, v: HierarchyView, n: nat)
    requires
        table.wf(),
        v.wf(),
        is_clustering_of(v, table),
        n < v.objects.len(),
        v.element_count + n <= usize::MAX,
    ensures
        is_clustering_of(v.merge_steps(n), table),
    decreases n,
{
    if n > 0 {
        lemma_closest_pair_exists(v);
        let p = v.closest_pair();
        lemma_merged_wf(v, p.0, p.1);
        lemma_merged_is_clustering(v, table, p.0, p.1);
        lemma_merge_steps_cluster(table, v.merge_step(), (n - 1) as nat);
    }
}

/// The tree that the merge loop ends with holds every leaf that it started from.
pub proof fn lemma_root_holds_all_leaves(table: HierarchyView, root: ElementId)
    requires
        table.wf(),
        table.all_leaves(),
        table.objects.len() >= 1,
        table.element_count + table.objects.len() - 1 <= usize::MAX,
        table.assembled().objects.contains_key(root),
    ensures
        table.assembled().leaves_of(root) == table.objects.dom(),
{
    let n = (table.objects.len() - 1) as nat;
    let end = table.assembled();
    lemma_leaves_are_clusters(table);
    lemma_merge_steps_cluster(table, table, n);
    lemma_merge_steps(table, n);
    assert(end.objects.dom().remove(root).len() == 0);
    assert forall|u: ElementId| table.objects.contains_key(u) implies end.leaves_of(root).contains(
        u,
    ) by {
        let a = choose|a: ElementId|
            #![trigger end.leaves_of(a).contains(u)]
            end.objects.contains_key(a) && end.leaves_of(a).contains(u);
        if a != root {
            assert(end.objects.dom().remove(root).contains(a));
        }
    }
    assert(end.leaves_of(root) =~= table.objects.dom());
}

} // verus!
