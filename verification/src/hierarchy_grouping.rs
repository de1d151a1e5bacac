//! Agglomerative hierarchical clustering with single linkage: the nodes, the
//! container of the active nodes, the search for the closest pair, the merge
//! of a pair and the merge loop.

use crate::dendrogram::{
    is_closest_before, min_distance, none_before, scanned_before, Distance, ElementId,
    HierarchyView, ObjectView, Tree,
};
use crate::keys::{ascending_keys, bound_at, lemma_listed_next, listed_before, lists_ascending};
use crate::laws::{
    lemma_closest_pair_chosen, lemma_linked_are_two, lemma_merge_steps_last, lemma_merged_wf,
    lemma_two_are_linked,
};
use std::collections::BTreeMap;
use vstd::prelude::*;

verus! {

/// The number of leaves that are clustered where no number is asked for.
pub const DEFAULT_ELEMENTS_COUNT: usize = 5;

/// What a node is made of: nothing, for a leaf, or the two nodes that were
/// merged into it and the distance between them at that moment.
#[derive(Debug)]
pub enum InnerHierarchyObject {
    Node(Box<(HierarchyObject, HierarchyObject, Distance)>),
    Leaf,
}

/// A node of the hierarchy with its distances to the other active nodes.
#[derive(Debug)]
pub struct HierarchyObject {
    pub id: ElementId,
    pub inner: InnerHierarchyObject,
    pub distances: BTreeMap<ElementId, Distance>,
}

impl View for HierarchyObject {
    type V = ObjectView;

    open spec fn view(&self) -> ObjectView {
        ObjectView { tree: self.tree(), distances: self.distances@ }
    }
}

impl HierarchyObject {
    /// The merge tree below this node.
    pub open spec fn tree(&self) -> Tree
        decreases self,
    {
        match self.inner {
            InnerHierarchyObject::Leaf => Tree::Leaf { id: self.id },
            InnerHierarchyObject::Node(pair) => Tree::Node {
                id: self.id,
                left: Box::new(pair.0.tree()),
                right: Box::new(pair.1.tree()),
                distance: pair.2,
            },
        }
    }

    /// A leaf that holds no distances yet.
    pub fn leaf(id: ElementId) -> (object: Self)
        ensures
            object.id == id,
            object.inner is Leaf,
            object@ == (ObjectView { tree: Tree::Leaf { id }, distances: Map::empty() }),
    {
        Self { id, inner: InnerHierarchyObject::Leaf, distances: BTreeMap::new() }
    }

    /// The merge of `first` and `second` under `id`, at the distance that
    /// `first` holds to `second`. The new node holds no distances yet.
    pub fn fold(id: ElementId, first: HierarchyObject, second: HierarchyObject) -> (object: Self)
        requires
            first.distances@.contains_key(second.id),
        ensures
            object.id == id,
            object.inner == InnerHierarchyObject::Node(
                Box::new((first, second, first.distances@[second.id])),
            ),
            object@ == (ObjectView {
                tree: Tree::Node {
                    id,
                    left: Box::new(first.tree()),
                    right: Box::new(second.tree()),
                    distance: first.distances@[second.id],
                },
                distances: Map::empty(),
            }),
    {
        let distance_between = *first.distances.get(&second.id).unwrap();
        Self {
            id,
            inner: InnerHierarchyObject::Node(Box::new((first, second, distance_between))),
            distances: BTreeMap::new(),
        }
    }

    /// The distances from which the distance to `other` is computed are there:
    /// for a merge node those that its two children hold to `other`, for a
    /// leaf the one that `other` holds to the leaf.
    pub open spec fn can_reach(&self, other: HierarchyObject) -> bool {
        match self.inner {
            InnerHierarchyObject::Node(children) => {
                &&& children.0.distances@.contains_key(other.id)
                &&& children.1.distances@.contains_key(other.id)
            },
            InnerHierarchyObject::Leaf => other.distances@.contains_key(self.id),
        }
    }

    /// The distance from this node to `other`: for a merge node the smaller of
    /// the distances that its two children hold to `other`, for a leaf the
    /// distance that `other` holds to the leaf.
    pub open spec fn distance_to(&self, other: HierarchyObject) -> Distance {
        match self.inner {
            InnerHierarchyObject::Node(children) => min_distance(
                children.0.distances@[other.id],
                children.1.distances@[other.id],
            ),
            InnerHierarchyObject::Leaf => other.distances@[self.id],
        }
    }

    /// The distance from this node to `other`: single linkage for a merge
    /// node, and what `other` holds for a leaf.
    pub fn calculate_distance_to(&self, other: &HierarchyObject) -> (distance: Distance)
        requires
            self.can_reach(*other),
        ensures
            distance == self.distance_to(*other),
    {
        match &self.inner {
            InnerHierarchyObject::Node(pair) => {
                let from_first = *pair.0.distances.get(&other.id).unwrap();
                let from_second = *pair.1.distances.get(&other.id).unwrap();
                if from_first <= from_second {
                    from_first
                } else {
                    from_second
                }
            },
            InnerHierarchyObject::Leaf => *other.distances.get(&self.id).unwrap(),
        }
    }

    /// Computes the distance from this node to every node of `objects` and
    /// records it on both sides.
    pub fn calculate_all_distances(&mut self, objects: &mut BTreeMap<ElementId, HierarchyObject>)
        requires
            forall|k: ElementId| #[trigger]
                old(objects)@.contains_key(k) ==> old(objects)@[k].id == k && old(self).can_reach(
                    old(objects)@[k],
                ),
        ensures
            final(self).id == old(self).id,
            final(self).inner == old(self).inner,
            final(self).distances@ == Map::new(
                |k: ElementId|
                    old(objects)@.contains_key(k) || old(self).distances@.contains_key(k),
                |k: ElementId|
                    if old(objects)@.contains_key(k) {
                        old(self).distance_to(old(objects)@[k])
                    } else {
                        old(self).distances@[k]
                    },
            ),
            final(objects)@.dom() == old(objects)@.dom(),
            forall|k: ElementId| #[trigger]
                old(objects)@.contains_key(k) ==> {
                    &&& final(objects)@[k].id == k
                    &&& final(objects)@[k].inner == old(objects)@[k].inner
                    &&& final(objects)@[k].distances@ == old(objects)@[k].distances@.insert(
                        old(self).id,
                        old(self).distance_to(old(objects)@[k]),
                    )
                },
    {
        let ids = ascending_keys(objects);
        let mut i: usize = 0;
        assert(self.distances@ =~= Map::new(
            |k: ElementId| listed_before(ids@, 0, k) || old(self).distances@.contains_key(k),
            |k: ElementId|
                if listed_before(ids@, 0, k) {
                    old(self).distance_to(old(objects)@[k])
                } else {
                    old(self).distances@[k]
                },
        ));
        while i < ids.len()
            invariant
                lists_ascending(ids@, old(objects)@.dom()),
                i <= ids.len(),
                self.id == old(self).id,
                self.inner == old(self).inner,
                objects@.dom() == old(objects)@.dom(),
                forall|k: ElementId| #[trigger]
                    old(objects)@.contains_key(k) ==> old(objects)@[k].id == k && old(
                        self,
                    ).can_reach(old(objects)@[k]),
                self.distances@ == Map::new(
                    |k: ElementId|
                        listed_before(ids@, i as int, k) || old(self).distances@.contains_key(k),
                    |k: ElementId|
                        if listed_before(ids@, i as int, k) {
                            old(self).distance_to(old(objects)@[k])
                        } else {
                            old(self).distances@[k]
                        },
                ),
                forall|p: int|
                    0 <= p < ids@.len() ==> {
                        let k = #[trigger] ids@[p];
                        &&& objects@[k].id == k
                        &&& objects@[k].inner == old(objects)@[k].inner
                        &&& p < i ==> objects@[k].distances@ == old(objects)@[k].distances@.insert(
                            old(self).id,
                            old(self).distance_to(old(objects)@[k]),
                        )
                        &&& p >= i ==> objects@[k] == old(objects)@[k]
                    },
            decreases ids.len() - i,
        {
            let id = ids[i];
            let mut object = objects.remove(&id).unwrap();
            assert(object == old(objects)@[id]);
            let distance = self.calculate_distance_to(&object);
            self.distances.insert(object.id, distance);
            object.distances.insert(self.id, distance);
            objects.insert(id, object);
            proof {
                assert(objects@.dom() =~= old(objects)@.dom());
                lemma_listed_next(ids@, i as int);
                assert(!listed_before(ids@, i as int, id)) by {
                    if listed_before(ids@, i as int, id) {
                        let p = choose|p: int| 0 <= p < i && ids@[p] == id;
                        assert(ids@[p] < ids@[i as int]);
                    }
                }
                assert(self.distances@ =~= Map::new(
                    |k: ElementId|
                        listed_before(ids@, i + 1, k) || old(self).distances@.contains_key(k),
                    |k: ElementId|
                        if listed_before(ids@, i + 1, k) {
                            old(self).distance_to(old(objects)@[k])
                        } else {
                            old(self).distances@[k]
                        },
                ));
            }
            i += 1;
        }
        proof {
            assert forall|k: ElementId| #[trigger] old(objects)@.contains_key(k) implies {
                &&& objects@[k].id == k
                &&& objects@[k].inner == old(objects)@[k].inner
                &&& objects@[k].distances@ == old(objects)@[k].distances@.insert(
                    old(self).id,
                    old(self).distance_to(old(objects)@[k]),
                )
            } by {
                let p = choose|p: int| 0 <= p < ids@.len() && ids@[p] == k;
                assert(ids@[p] == k);
            }
            assert forall|k: ElementId|
                listed_before(ids@, i as int, k) <==> old(objects)@.contains_key(k) by {
                if old(objects)@.contains_key(k) {
                    let p = choose|p: int| 0 <= p < ids@.len() && ids@[p] == k;
                    assert(0 <= p < i && ids@[p] == k);
                }
                if listed_before(ids@, i as int, k) {
                    let p = choose|p: int| 0 <= p < i && ids@[p] == k;
                    assert(old(objects)@.dom().contains(ids@[p]));
                }
            }
            assert(self.distances@ =~= Map::new(
                |k: ElementId|
                    old(objects)@.contains_key(k) || old(self).distances@.contains_key(k),
                |k: ElementId|
                    if old(objects)@.contains_key(k) {
                        old(self).distance_to(old(objects)@[k])
                    } else {
                        old(self).distances@[k]
                    },
            ));
        }
    }
}

/// The active nodes of a clustering run, by identifier.
#[derive(Debug)]
pub struct Hierarchy {
    pub objects: BTreeMap<ElementId, HierarchyObject>,
    pub element_count: usize,
}

impl View for Hierarchy {
    type V = HierarchyView;

    open spec fn view(&self) -> HierarchyView {
        HierarchyView {
            objects: Map::new(
                |k: ElementId| self.objects@.contains_key(k),
                |k: ElementId| self.objects@[k]@,
            ),
            element_count: self.element_count,
        }
    }
}

impl Hierarchy {
    /// An empty hierarchy.
    pub fn new() -> (hierarchy: Self)
        ensures
            hierarchy@ == HierarchyView::empty(),
    {
        let hierarchy = Self { objects: BTreeMap::new(), element_count: 0 };
        assert(hierarchy@.objects =~= Map::empty());
        hierarchy
    }

    /// The root of the hierarchy: the one active node where one is left, and
    /// none where the hierarchy is empty or not assembled yet.
    pub fn root(&self) -> (root: Option<&HierarchyObject>)
        ensures
            root is Some <==> self@.objects.len() == 1,
            root matches Some(object) ==> forall|k: ElementId| #[trigger]
                self@.objects.contains_key(k) ==> *object == self.objects@[k] && object@
                    == self@.objects[k],
    {
        assert(self@.objects.dom() =~= self.objects@.dom());
        if self.objects.len() != 1 {
            return None;
        }
        let ids = ascending_keys(&self.objects);
        let root = self.objects.get(&ids[0]);
        proof {
            assert forall|k: ElementId| #[trigger] self@.objects.contains_key(k) implies k
                == ids@[0] by {
                let p = choose|p: int| 0 <= p < ids@.len() && ids@[p] == k;
            }
        }
        root
    }

    /// Puts in the leaves `1` to `count`, each without distances, and takes
    /// `count` as the last identifier given out.
    pub fn populate(&mut self, count: usize)
        ensures
            final(self)@ == old(self)@.populated(count),
    {
        self.element_count = count;
        let mut i: usize = 0;
        assert(self@.objects =~= old(self)@.populated(0).objects);
        while i < count
            invariant
                i <= count,
                self.element_count == count,
                self@.objects == old(self)@.populated(i).objects,
            decreases count - i,
        {
            let ghost earlier = self@;
            i += 1;
            self.objects.insert(i, HierarchyObject::leaf(i));
            assert forall|k: ElementId|
                self@.objects.contains_key(k) <==> old(self)@.populated(i).objects.contains_key(
                    k,
                ) by {
                assert(earlier.objects.contains_key(k) <==> old(self)@.populated(
                    (i - 1) as usize,
                ).objects.contains_key(k));
            }
            assert forall|k: ElementId| #[trigger]
                self@.objects.contains_key(k) implies self@.objects[k] == old(self)@.populated(
                i,
            ).objects[k] by {
                if k != i {
                    assert(self@.objects[k] == earlier.objects[k]);
                }
            }
            assert(self@.objects =~= old(self)@.populated(i).objects);
        }
    }

    /// Merges the active nodes `a` and `b` into a new node under the next
    /// identifier: the two leave the active set, every other node forgets its
    /// distances to them, and the new node's distance to each of the others is
    /// the smaller of the two distances that `a` and `b` held to it.
    pub fn merge(&mut self, a: ElementId, b: ElementId)
        requires
            old(self)@.wf(),
            old(self)@.linked(a, b),
            old(self).element_count < usize::MAX,
        ensures
            final(self)@ == old(self)@.merged(a, b),
            final(self)@.wf(),
    {
        let ghost before = self@;
        let first = self.objects.remove(&a).unwrap();
        let second = self.objects.remove(&b).unwrap();
        self.element_count = self.element_count + 1;
        let mut new_node = HierarchyObject::fold(self.element_count, first, second);
        self.retire(a, b);
        proof {
            assert forall|k: ElementId| #[trigger]
                self.objects@.contains_key(k) implies self.objects@[k].id == k
                && new_node.can_reach(self.objects@[k]) by {
                assert(before.objects.contains_key(k));
                assert(before.linked(a, k));
                assert(before.linked(b, k));
            }
        }
        new_node.calculate_all_distances(&mut self.objects);
        self.objects.insert(self.element_count, new_node);
        proof {
            lemma_merged_wf(before, a, b);
            assert(self@ =~~= before.merged(a, b));
        }
    }

    /// The merge loop: while two or more nodes are active, the closest pair is
    /// merged. One node is left of a non-empty hierarchy, after one merge
    /// fewer than there were nodes.
    pub fn assemble(&mut self)
        requires
            old(self)@.wf(),
            old(self).element_count + old(self)@.objects.len() - 1 <= usize::MAX,
        ensures
            final(self)@ == old(self)@.assembled(),
            final(self)@.wf(),
            old(self)@.objects.len() >= 1 ==> final(self)@.objects.len() == 1,
            old(self)@.objects.len() >= 1 ==> final(self).element_count == old(self).element_count
                + old(self)@.objects.len() - 1,
    {
        let ghost start = self@;
        let ghost mut rounds: nat = 0;
        assert(self@.objects.dom() =~= self.objects@.dom());
        while self.objects.len() > 1
            invariant
                start.wf(),
                start.element_count + start.objects.len() - 1 <= usize::MAX,
                self@.wf(),
                self@ == start.merge_steps(rounds),
                self@.objects.len() == start.objects.len() - rounds,
                self@.objects.len() == self.objects@.len(),
                start.objects.len() >= 1 ==> self@.objects.len() >= 1,
                self.element_count == start.element_count + rounds,
            decreases self.objects@.len(),
        {
            let ghost before = self@;
            let found = self.find_closest_pair();
            let (a, b, _) = found.unwrap();
            self.merge(a, b);
            proof {
                lemma_closest_pair_chosen(before, a, b);
                lemma_merged_wf(before, a, b);
                lemma_merge_steps_last(start, rounds);
                rounds = rounds + 1;
                assert(self@.objects.dom() =~= self.objects@.dom());
            }
        }
    }

    /// The closest pair of active nodes and their distance; among pairs at the
    /// same distance, the one that comes first by node, then by neighbour.
    /// A distance that a node holds to itself is passed over.
    pub fn find_closest_pair(&self) -> (found: Option<(ElementId, ElementId, Distance)>)
        ensures
            found matches Some((a, b, d)) ==> self@.is_closest_pair(a, b) && d == self@.distance(
                a,
                b,
            ),
            found is None ==> forall|a: ElementId, b: ElementId| !self@.linked(a, b),
            self@.wf() ==> (found is Some <==> self@.objects.len() >= 2),
    {
        let ids = ascending_keys(&self.objects);
        let mut best: Option<(ElementId, ElementId, Distance)> = None;
        let mut i: usize = 0;
        while i < ids.len()
            invariant
                lists_ascending(ids@, self.objects@.dom()),
                i <= ids.len(),
                match best {
                    Some((a, b, d)) => is_closest_before(self@, a, b, bound_at(ids@, i as int), 0)
                        && d == self@.distance(a, b),
                    None => none_before(self@, bound_at(ids@, i as int), 0),
                },
            decreases ids.len() - i,
        {
            let id = ids[i];
            let object = self.objects.get(&id).unwrap();
            let row = ascending_keys(&object.distances);
            proof {
                assert forall|x: ElementId, y: ElementId| #[trigger]
                    self@.linked(x, y) implies (scanned_before(x, y, id as nat, 0)
                    <==> scanned_before(x, y, id as nat, bound_at(row@, 0))) by {
                    if x == id {
                        let p = choose|p: int| 0 <= p < row@.len() && row@[p] == y;
                        assert(row@[0] <= row@[p]);
                    }
                }
            }
            let mut j: usize = 0;
            while j < row.len()
                invariant
                    lists_ascending(ids@, self.objects@.dom()),
                    lists_ascending(row@, object.distances@.dom()),
                    i < ids.len(),
                    id == ids@[i as int],
                    j <= row.len(),
                    self.objects@.contains_key(id),
                    *object == self.objects@[id],
                    match best {
                        Some((a, b, d)) => is_closest_before(
                            self@,
                            a,
                            b,
                            id as nat,
                            bound_at(row@, j as int),
                        ) && d == self@.distance(a, b),
                        None => none_before(self@, id as nat, bound_at(row@, j as int)),
                    },
                decreases row.len() - j,
            {
                let neighbour = row[j];
                let distance = *object.distances.get(&neighbour).unwrap();
                proof {
                    assert forall|x: ElementId, y: ElementId| #[trigger]
                        self@.linked(x, y) && scanned_before(
                            x,
                            y,
                            id as nat,
                            bound_at(row@, j + 1),
                        ) implies scanned_before(x, y, id as nat, bound_at(row@, j as int)) || (x
                        == id && y == neighbour) by {
                        if x == id {
                            let p = choose|p: int| 0 <= p < row@.len() && row@[p] == y;
                            if p > j {
                                assert(row@[j + 1] <= row@[p]);
                            }
                            if p < j {
                                assert(row@[p] < row@[j as int]);
                            }
                        }
                    }
                }
                if neighbour != id {
                    assert(self@.linked(id, neighbour));
                    let closer = match best {
                        Some((_, _, d)) => distance < d,
                        None => true,
                    };
                    if closer {
                        best = Some((id, neighbour, distance));
                    }
                }
                j += 1;
            }
            proof {
                assert forall|x: ElementId, y: ElementId| #[trigger]
                    self@.linked(x, y) implies (scanned_before(
                    x,
                    y,
                    id as nat,
                    bound_at(row@, row@.len() as int),
                ) <==> scanned_before(x, y, bound_at(ids@, i + 1), 0)) by {
                    let p = choose|p: int| 0 <= p < ids@.len() && ids@[p] == x;
                    if p > i {
                        assert(ids@[i + 1] <= ids@[p]);
                    }
                    if p < i {
                        assert(ids@[p] < ids@[i as int]);
                    }
                }
            }
            i += 1;
        }
        proof {
            if self@.wf() {
                match best {
                    Some((a, b, _)) => {
                        lemma_linked_are_two(self@, a, b);
                    },
                    None => {
                        if self@.objects.len() >= 2 {
                            let pair = lemma_two_are_linked(self@);
                        }
                    },
                }
            }
        }
        best
    }

    /// Takes the distances to `a` and to `b` out of every active node.
    fn retire(&mut self, a: ElementId, b: ElementId)
        ensures
            final(self).element_count == old(self).element_count,
            final(self).objects@.dom() == old(self).objects@.dom(),
            forall|k: ElementId| #[trigger]
                old(self).objects@.contains_key(k) ==> {
                    &&& final(self).objects@[k].id == old(self).objects@[k].id
                    &&& final(self).objects@[k].inner == old(self).objects@[k].inner
                    &&& final(self).objects@[k].distances@ == old(
                        self,
                    ).objects@[k].distances@.remove(a).remove(b)
                },
    {
        let ids = ascending_keys(&self.objects);
        let mut i: usize = 0;
        while i < ids.len()
            invariant
                lists_ascending(ids@, old(self).objects@.dom()),
                i <= ids.len(),
                self.element_count == old(self).element_count,
                self.objects@.dom() == old(self).objects@.dom(),
                forall|p: int|
                    0 <= p < ids@.len() ==> {
                        let k = #[trigger] ids@[p];
                        &&& self.objects@[k].id == old(self).objects@[k].id
                        &&& self.objects@[k].inner == old(self).objects@[k].inner
                        &&& self.objects@[k].distances@ == if p < i {
                            old(self).objects@[k].distances@.remove(a).remove(b)
                        } else {
                            old(self).objects@[k].distances@
                        }
                    },
            decreases ids.len() - i,
        {
            let id = ids[i];
            let mut object = self.objects.remove(&id).unwrap();
            object.distances.remove(&a);
            object.distances.remove(&b);
            self.objects.insert(id, object);
            assert(self.objects@.dom() =~= old(self).objects@.dom());
            i += 1;
        }
        proof {
            assert forall|k: ElementId| #[trigger]
                old(self).objects@.contains_key(k) implies {
                &&& self.objects@[k].id == old(self).objects@[k].id
                &&& self.objects@[k].inner == old(self).objects@[k].inner
                &&& self.objects@[k].distances@ == old(self).objects@[k].distances@.remove(
                    a,
                ).remove(b)
            } by {
                let p = choose|p: int| 0 <= p < ids@.len() && ids@[p] == k;
                assert(ids@[p] == k);
            }
        }
    }
}

} // verus!
