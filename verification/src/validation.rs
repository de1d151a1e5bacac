//! The checks that a hierarchy put together by hand has to pass before the
//! merge loop runs on it, and the merge loop behind those checks.

use crate::dendrogram::{ElementId, HierarchyView};
use crate::hierarchy_grouping::{Hierarchy, HierarchyObject, InnerHierarchyObject};
use crate::keys::{ascending_keys, bound_at, lists_ascending};
use vstd::prelude::*;
use vstd::set_lib::lemma_subset_equality;

verus! {

/// What is wrong with the nodes or the table of distances of a hierarchy.
#[derive(Clone, Copy, Debug, PartialEq, Eq)]
pub enum TableFault {
    /// Node `id` is stored under an identifier that was not given out or is
    /// not its own, or a node in its tree has an identifier that is not below
    /// that of the merge above it.
    Identifier { id: ElementId },
    /// `first` holds no distance to `second`.
    Missing { first: ElementId, second: ElementId },
    /// `id` holds a distance to more than the other active nodes.
    Stray { id: ElementId },
    /// `first` and `second` hold different distances to each other.
    Asymmetric { first: ElementId, second: ElementId },
}

/// Why the merge loop did not run.
#[derive(Clone, Copy, Debug, PartialEq, Eq)]
pub enum AssembleError {
    /// The nodes or the table of distances are at fault.
    Fault(TableFault),
    /// The merges would need more identifiers than can be counted.
    Overflow,
}

/// The active node `k` is stored under its own identifier, one that was
/// given out, and the identifiers in its tree grow towards the root.
pub open spec fn is_identified(v: HierarchyView, k: ElementId) -> bool {
    &&& 1 <= k <= v.element_count
    &&& v.objects[k].tree.id() == k
    &&& v.objects[k].tree.ordered()
}

/// `a` holds a distance to every other active node with an identifier below `upto`.
pub open spec fn holds_all_below(v: HierarchyView, a: ElementId, upto: int) -> bool {
    forall|b: ElementId| #[trigger]
        v.objects.contains_key(b) && b != a && b < upto ==> v.objects[a].distances.contains_key(b)
}

/// The active node `a` is identified and holds a distance to every other
/// active node, and as many distances as there are such nodes.
pub open spec fn is_row_complete(v: HierarchyView, a: ElementId) -> bool {
    &&& is_identified(v, a)
    &&& holds_all_below(v, a, usize::MAX + 1)
    &&& v.objects[a].distances.len() == v.objects.len() - 1
}

/// The rows of the active nodes with identifiers below `upto` are complete.
pub open spec fn is_complete_below(v: HierarchyView, upto: int) -> bool {
    forall|a: ElementId| #[trigger] v.objects.contains_key(a) && a < upto ==> is_row_complete(v, a)
}

/// Every two active nodes `x < y` that come before `(a, b)` hold the same
/// distance to each other.
pub open spec fn is_symmetric_below(v: HierarchyView, a: int, b: int) -> bool {
    forall|x: ElementId, y: ElementId|
        #![trigger v.distance(x, y)]
        v.objects.contains_key(x) && v.objects.contains_key(y) && x < y && (x < a || (x == a && y
            < b)) ==> v.distance(x, y) == v.distance(y, x)
}

/// `result` is what the checks find in `v`: nothing, or the first fault that
/// a walk finds which takes the nodes in ascending order and looks at the
/// identifier of each, then at its distances to the others in ascending
/// order, then at their number, and after all that at the two distances of
/// each pair of nodes.
pub open spec fn is_verdict(v: HierarchyView, result: Result<(), TableFault>) -> bool {
    match result {
        Ok(()) => v.wf(),
        Err(TableFault::Identifier { id }) => {
            &&& v.objects.contains_key(id)
            &&& is_complete_below(v, id as int)
            &&& !is_identified(v, id)
        },
        Err(TableFault::Missing { first, second }) => {
            &&& v.objects.contains_key(first)
            &&& v.objects.contains_key(second)
            &&& first != second
            &&& is_complete_below(v, first as int)
            &&& is_identified(v, first)
            &&& holds_all_below(v, first, second as int)
            &&& !v.objects[first].distances.contains_key(second)
        },
        Err(TableFault::Stray { id }) => {
            &&& v.objects.contains_key(id)
            &&& is_complete_below(v, id as int)
            &&& is_identified(v, id)
            &&& holds_all_below(v, id, usize::MAX + 1)
            &&& v.objects[id].distances.len() != v.objects.len() - 1
        },
        Err(TableFault::Asymmetric { first, second }) => {
            &&& v.objects.contains_key(first)
            &&& v.objects.contains_key(second)
            &&& first < second
            &&& is_complete_below(v, usize::MAX + 1)
            &&& is_symmetric_below(v, first as int, second as int)
            &&& v.distance(first, second) != v.distance(second, first)
        },
    }
}

/// A complete row holds a distance to the other active nodes and to nothing else.
pub proof fn lemma_complete_row(v: HierarchyView, a: ElementId)
    requires
        v.objects.dom().finite(),
        v.objects[a].distances.dom().finite(),
        v.objects.contains_key(a),
        is_row_complete(v, a),
    ensures
        v.objects[a].distances.dom() == v.objects.dom().remove(a),
{
    let others = v.objects.dom().remove(a);
    let held = v.objects[a].distances.dom();
    assert(others.subset_of(held)) by {
        assert forall|b: ElementId| others.contains(b) implies held.contains(b) by {
            assert(v.objects.contains_key(b) && b != a && b < usize::MAX + 1);
        }
    }
    lemma_subset_equality(others, held);
}

/// In a complete and symmetric table every row is complete.
pub proof fn lemma_wf_row(v: HierarchyView, a: ElementId)
    requires
        v.wf(),
        v.objects.contains_key(a),
    ensures
        is_row_complete(v, a),
        v.objects[a].distances.dom() == v.objects.dom().remove(a),
{
    assert(v.objects[a].distances.dom() =~= v.objects.dom().remove(a)) by {
        assert forall|b: ElementId|
            v.objects[a].distances.dom().contains(b) <==> v.objects.dom().remove(a).contains(
                b,
            ) by {
            if b != a {
                assert(v.linked(a, b) <==> v.objects.contains_key(a) && v.objects.contains_key(b)
                    && a != b);
            }
        }
    }
    assert forall|b: ElementId| #[trigger]
        v.objects.contains_key(b) && b != a && b < usize::MAX
            + 1 implies v.objects[a].distances.contains_key(b) by {
        assert(v.linked(a, b));
    }
}

/// Complete rows and symmetric pairs make a complete and symmetric table.
pub proof fn lemma_checked_is_wf(v: HierarchyView)
    requires
        v.objects.dom().finite(),
        forall|a: ElementId| #[trigger]
            v.objects.contains_key(a) ==> v.objects[a].distances.dom().finite(),
        is_complete_below(v, usize::MAX + 1),
        is_symmetric_below(v, usize::MAX + 1, 0),
    ensures
        v.wf(),
{
    assert forall|k: ElementId| #[trigger] v.objects.contains_key(k) implies {
        &&& 1 <= k <= v.element_count
        &&& v.objects[k].tree.id() == k
        &&& v.objects[k].tree.ordered()
        &&& !v.objects[k].distances.contains_key(k)
    } by {
        assert(is_row_complete(v, k));
        lemma_complete_row(v, k);
    }
    assert forall|a: ElementId, b: ElementId| #[trigger]
        v.linked(a, b) <==> v.objects.contains_key(a) && v.objects.contains_key(b) && a != b by {
        if v.objects.contains_key(a) {
            assert(is_row_complete(v, a));
            lemma_complete_row(v, a);
            assert(v.objects[a].distances.dom().contains(b) <==> v.objects.dom().remove(
                a,
            ).contains(b));
        }
    }
    assert forall|a: ElementId, b: ElementId| #[trigger] v.linked(a, b) implies v.distance(a, b)
        == v.distance(b, a) by {
        assert(v.objects.contains_key(b));
        if a < b {
            assert(v.distance(a, b) == v.distance(b, a));
        } else {
            assert(v.distance(b, a) == v.distance(a, b));
        }
    }
}

impl HierarchyObject {
    /// Whether the identifiers in the tree below this node grow towards it.
    pub fn is_ordered(&self) -> (ordered: bool)
        ensures
            ordered == self.tree().ordered(),
        decreases self,
    {
        match &self.inner {
            InnerHierarchyObject::Leaf => true,
            InnerHierarchyObject::Node(node) => {
                node.0.id < self.id && node.1.id < self.id && node.0.is_ordered()
                    && node.1.is_ordered()
            },
        }
    }
}

impl Hierarchy {
    /// Checks the nodes and the table of distances: every node under its own
    /// identifier, with a distance to every other node and to nothing else, the
    /// same in both directions. The first fault is returned.
    pub fn validate(&self) -> (result: Result<(), TableFault>)
        ensures
            is_verdict(self@, result),
            result is Ok <==> self@.wf(),
    {
        let ids = ascending_keys(&self.objects);
        let ghost v = self@;
        proof {
            assert(v.objects.dom() =~= self.objects@.dom());
        }
        let mut i: usize = 0;
        while i < ids.len()
            invariant
                v == self@,
                v.objects.dom() == self.objects@.dom(),
                lists_ascending(ids@, v.objects.dom()),
                i <= ids.len(),
                forall|p: int| 0 <= p < i ==> is_row_complete(v, #[trigger] ids@[p]),
            decreases ids.len() - i,
        {
            let a = ids[i];
            let object = self.objects.get(&a).unwrap();
            proof {
                assert forall|x: ElementId| #[trigger]
                    v.objects.contains_key(x) && x < a implies is_row_complete(v, x) by {
                    let p = choose|p: int| 0 <= p < ids@.len() && ids@[p] == x;
                    if p >= i {
                        assert(ids@[i as int] <= ids@[p]);
                    }
                }
            }
            if a < 1 || a > self.element_count || object.id != a || !object.is_ordered() {
                proof {
                    if v.wf() {
                        assert(v.objects.contains_key(a));
                    }
                }
                return Err(TableFault::Identifier { id: a });
            }
            let mut j: usize = 0;
            while j < ids.len()
                invariant
                    v == self@,
                    v.objects.dom() == self.objects@.dom(),
                    lists_ascending(ids@, v.objects.dom()),
                    i < ids.len(),
                    j <= ids.len(),
                    a == ids@[i as int],
                    self.objects@.contains_key(a),
                    *object == self.objects@[a],
                    is_identified(v, a),
                    is_complete_below(v, a as int),
                    forall|q: int|
                        0 <= q < j && ids@[q] != a ==> object.distances@.contains_key(
                            #[trigger] ids@[q],
                        ),
                decreases ids.len() - j,
            {
                let b = ids[j];
                if b != a && !object.distances.contains_key(&b) {
                    proof {
                        assert forall|y: ElementId| #[trigger]
                            v.objects.contains_key(y) && y != a && y
                                < b implies v.objects[a].distances.contains_key(y) by {
                            let q = choose|q: int| 0 <= q < ids@.len() && ids@[q] == y;
                            if q >= j {
                                assert(ids@[j as int] <= ids@[q]);
                            }
                        }
                        if v.wf() {
                            assert(v.linked(a, b));
                        }
                    }
                    return Err(TableFault::Missing { first: a, second: b });
                }
                j += 1;
            }
            proof {
                assert forall|y: ElementId| #[trigger]
                    v.objects.contains_key(y) && y != a && y < usize::MAX
                        + 1 implies v.objects[a].distances.contains_key(y) by {
                    let q = choose|q: int| 0 <= q < ids@.len() && ids@[q] == y;
                    assert(ids@[q] == y);
                }
            }
            if object.distances.len() != ids.len() - 1 {
                proof {
                    if v.wf() {
                        lemma_wf_row(v, a);
                    }
                }
                return Err(TableFault::Stray { id: a });
            }
            i += 1;
        }
        proof {
            assert forall|x: ElementId| #[trigger]
                v.objects.contains_key(x) && x < usize::MAX + 1 implies is_row_complete(v, x) by {
                let p = choose|p: int| 0 <= p < ids@.len() && ids@[p] == x;
                assert(ids@[p] == x);
            }
        }
        let mut i: usize = 0;
        while i < ids.len()
            invariant
                v == self@,
                v.objects.dom() == self.objects@.dom(),
                lists_ascending(ids@, v.objects.dom()),
                i <= ids.len(),
                is_complete_below(v, usize::MAX + 1),
                is_symmetric_below(
                    v,
                    bound_at(ids@, i as int) as int,
                    0,
                ),
            decreases ids.len() - i,
        {
            let a = ids[i];
            let first = self.objects.get(&a).unwrap();
            let mut j: usize = i + 1;
            proof {
                assert forall|x: ElementId, y: ElementId|
                    #![trigger v.distance(x, y)]
                    v.objects.contains_key(x) && v.objects.contains_key(y) && x < y && (x < a || (x
                        == a && y < bound_at(ids@, j as int))) implies v.distance(x, y) == v.distance(y, x) by {
                    if x == a {
                        let q = choose|q: int| 0 <= q < ids@.len() && ids@[q] == y;
                        if q <= i {
                            assert(ids@[q] <= ids@[i as int]);
                        } else if j < ids.len() {
                            assert(ids@[j as int] <= ids@[q]);
                        }
                    }
                }
            }
            while j < ids.len()
                invariant
                    v == self@,
                    v.objects.dom() == self.objects@.dom(),
                    lists_ascending(ids@, v.objects.dom()),
                    i < j <= ids.len(),
                    a == ids@[i as int],
                    self.objects@.contains_key(a),
                    *first == self.objects@[a],
                    is_complete_below(v, usize::MAX + 1),
                    is_symmetric_below(
                        v,
                        a as int,
                        bound_at(ids@, j as int) as int,
                    ),
                decreases ids.len() - j,
            {
                let b = ids[j];
                let second = self.objects.get(&b).unwrap();
                proof {
                    assert(v.objects.contains_key(a) && v.objects.contains_key(b));
                    assert(is_row_complete(v, a));
                    assert(is_row_complete(v, b));
                    assert(ids@[i as int] < ids@[j as int]);
                }
                let there = *first.distances.get(&b).unwrap();
                let back = *second.distances.get(&a).unwrap();
                if there != back {
                    proof {
                        if v.wf() {
                            assert(v.linked(a, b));
                        }
                    }
                    return Err(TableFault::Asymmetric { first: a, second: b });
                }
                proof {
                    assert forall|x: ElementId, y: ElementId|
                        #![trigger v.distance(x, y)]
                        v.objects.contains_key(x) && v.objects.contains_key(y) && x < y && (x < a
                            || (x == a && y < bound_at(ids@, j + 1))) implies v.distance(x, y) == v.distance(y, x) by {
                        if x == a && y != b {
                            let q = choose|q: int| 0 <= q < ids@.len() && ids@[q] == y;
                            if q < j {
                                assert(ids@[q] < ids@[j as int]);
                            } else if j + 1 < ids.len() {
                                assert(ids@[j + 1] <= ids@[q]);
                            }
                        }
                    }
                }
                j += 1;
            }
            proof {
                assert forall|x: ElementId, y: ElementId|
                    #![trigger v.distance(x, y)]
                    v.objects.contains_key(x) && v.objects.contains_key(y) && x < y && (x < bound_at(ids@, i + 1)) implies v.distance(x, y) == v.distance(y, x) by {
                    let p = choose|p: int| 0 <= p < ids@.len() && ids@[p] == x;
                    if p > i {
                        if i + 1 < ids.len() {
                            assert(ids@[i + 1] <= ids@[p]);
                        }
                    }
                    if p < i {
                        assert(ids@[p] < ids@[i as int]);
                    }
                }
            }
            i += 1;
        }
        proof {
            assert forall|k: ElementId| #[trigger]
                v.objects.contains_key(k) implies v.objects[k].distances.dom().finite() by {
                assert(self.objects@.contains_key(k));
            }
            lemma_checked_is_wf(v);
        }
        Ok(())
    }

    /// The merge loop, where the nodes and the table of distances pass the
    /// checks and the identifiers suffice; else nothing is changed.
    pub fn try_assemble(&mut self) -> (result: Result<(), AssembleError>)
        ensures
            match result {
                Ok(()) => {
                    &&& old(self)@.wf()
                    &&& old(self).element_count + old(self)@.objects.len() - 1 <= usize::MAX
                    &&& final(self)@ == old(self)@.assembled()
                    &&& final(self)@.wf()
                },
                Err(AssembleError::Fault(fault)) => {
                    &&& !old(self)@.wf()
                    &&& is_verdict(old(self)@, Err(fault))
                    &&& *final(self) == *old(self)
                },
                Err(AssembleError::Overflow) => {
                    &&& old(self)@.wf()
                    &&& old(self).element_count + old(self)@.objects.len() - 1 > usize::MAX
                    &&& *final(self) == *old(self)
                },
            },
    {
        match self.validate() {
            Err(fault) => Err(AssembleError::Fault(fault)),
            Ok(()) => {
                assert(self@.objects.dom() =~= self.objects@.dom());
                let merges = self.objects.len().saturating_sub(1);
                if merges > usize::MAX - self.element_count {
                    Err(AssembleError::Overflow)
                } else {
                    self.assemble();
                    Ok(())
                }
            },
        }
    }
}

} // verus!
