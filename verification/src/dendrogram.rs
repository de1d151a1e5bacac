//! The mathematical model of agglomerative clustering with single linkage:
//! merge trees, the table of pairwise distances between the active nodes,
//! the choice of the closest pair and the effect of merging it.

use vstd::prelude::*;

verus! {

/// The identifier of a node: leaves are numbered from 1, every merge takes
/// the next unused number.
pub type ElementId = usize;

/// A distance, counted in tenths of a unit.
pub type Distance = u64;

/// The smaller of two distances.
pub open spec fn min_distance(a: Distance, b: Distance) -> Distance {
    if a <= b {
        a
    } else {
        b
    }
}

/// A merge tree: a leaf, or the merge of two trees at a linkage distance.
#[verifier::ext_equal]
pub enum Tree {
    Leaf { id: ElementId },
    Node { id: ElementId, left: Box<Tree>, right: Box<Tree>, distance: Distance },
}

impl Tree {
    /// The identifier of the root of the tree.
    pub open spec fn id(self) -> ElementId {
        match self {
            Tree::Leaf { id } => id,
            Tree::Node { id, .. } => id,
        }
    }

    /// Every merge node carries an identifier above those of both its children.
    pub open spec fn ordered(self) -> bool
        decreases self,
    {
        match self {
            Tree::Leaf { .. } => true,
            Tree::Node { id, left, right, .. } => {
                &&& left.id() < id
                &&& right.id() < id
                &&& left.ordered()
                &&& right.ordered()
            },
        }
    }

    /// The leaves of the tree.
    pub open spec fn leaves(self) -> Set<ElementId>
        decreases self,
    {
        match self {
            Tree::Leaf { id } => set![id],
            Tree::Node { left, right, .. } => left.leaves().union(right.leaves()),
        }
    }

    /// The number of merge nodes in the tree.
    pub open spec fn merges(self) -> nat
        decreases self,
    {
        match self {
            Tree::Leaf { .. } => 0,
            Tree::Node { left, right, .. } => 1 + left.merges() + right.merges(),
        }
    }
}

/// What is known of one active node: its merge tree and its distance to
/// every other active node.
#[verifier::ext_equal]
pub struct ObjectView {
    pub tree: Tree,
    pub distances: Map<ElementId, Distance>,
}

/// The state of a clustering run: the active nodes by identifier, and the
/// last identifier given out.
#[verifier::ext_equal]
pub struct HierarchyView {
    pub objects: Map<ElementId, ObjectView>,
    pub element_count: usize,
}

impl HierarchyView {
    /// The state before anything was put in.
    pub open spec fn empty() -> HierarchyView {
        HierarchyView { objects: Map::empty(), element_count: 0 }
    }

    /// A leaf that holds no distance.
    pub open spec fn leaf(id: ElementId) -> ObjectView {
        ObjectView { tree: Tree::Leaf { id }, distances: Map::empty() }
    }

    /// The state after the leaves `1` to `count` have been put in, each without distances.
    pub open spec fn populated(self, count: usize) -> HierarchyView {
        HierarchyView {
            objects: Map::new(
                |k: ElementId| 1 <= k <= count || self.objects.contains_key(k),
                |k: ElementId|
                    if 1 <= k <= count {
                        Self::leaf(k)
                    } else {
                        self.objects[k]
                    },
            ),
            element_count: count,
        }
    }

    /// The leaves `1` to `count` and nothing else, each without distances.
    pub open spec fn leaves(count: usize) -> HierarchyView {
        Self::empty().populated(count)
    }

    /// The leaves in the tree of the active node `a`.
    pub open spec fn leaves_of(self, a: ElementId) -> Set<ElementId> {
        self.objects[a].tree.leaves()
    }

    /// Every active node is a leaf under its own identifier.
    pub open spec fn all_leaves(self) -> bool {
        forall|k: ElementId| #[trigger]
            self.objects.contains_key(k) ==> self.objects[k].tree == (Tree::Leaf { id: k })
    }

    /// `a` is active and holds a distance to another node `b`.
    pub open spec fn linked(self, a: ElementId, b: ElementId) -> bool {
        a != b && self.objects.contains_key(a) && self.objects[a].distances.contains_key(b)
    }

    /// The distance that `a` holds to `b`.
    pub open spec fn distance(self, a: ElementId, b: ElementId) -> Distance {
        self.objects[a].distances[b]
    }

    /// The table is complete and symmetric over the active nodes: each holds a
    /// distance to every other active node and to nothing else, not to itself
    /// either. The nodes carry the identifiers they are stored under, all of
    /// them given out already.
    pub open spec fn wf(self) -> bool {
        &&& self.objects.dom().finite()
        &&& forall|k: ElementId| #[trigger]
            self.objects.contains_key(k) ==> {
                &&& 1 <= k <= self.element_count
                &&& self.objects[k].tree.id() == k
                &&& self.objects[k].tree.ordered()
                &&& !self.objects[k].distances.contains_key(k)
            }
        &&& forall|a: ElementId, b: ElementId| #[trigger]
            self.linked(a, b) <==> self.objects.contains_key(a) && self.objects.contains_key(b)
                && a != b
        &&& forall|a: ElementId, b: ElementId| #[trigger]
            self.linked(a, b) ==> self.distance(a, b) == self.distance(b, a)
    }

    /// The number of merges in the trees of the active nodes with identifiers up to `upto`.
    pub open spec fn merges_upto(self, upto: nat) -> nat
        decreases upto,
    {
        if upto == 0 {
            0
        } else {
            self.merges_upto((upto - 1) as nat) + if self.objects.contains_key(upto as ElementId) {
                self.objects[upto as ElementId].tree.merges()
            } else {
                0
            }
        }
    }

    /// The number of merges in the trees of all active nodes.
    pub open spec fn merges(self) -> nat {
        self.merges_upto(self.element_count as nat)
    }

    /// `(a, b)` is the pair that a scan by ascending node, then ascending neighbour,
    /// meets first among those at the least distance.
    pub open spec fn is_closest_pair(self, a: ElementId, b: ElementId) -> bool {
        &&& self.linked(a, b)
        &&& forall|x: ElementId, y: ElementId| #[trigger]
            self.linked(x, y) ==> {
                ||| self.distance(a, b) < self.distance(x, y)
                ||| (self.distance(a, b) == self.distance(x, y) && (a < x || (a == x && b <= y)))
            }
    }

    /// The closest pair, where there is one.
    pub open spec fn closest_pair(self) -> (ElementId, ElementId) {
        choose|p: (ElementId, ElementId)| self.is_closest_pair(p.0, p.1)
    }

    /// The identifier that the next merge node gets.
    pub open spec fn next_id(self) -> ElementId {
        (self.element_count + 1) as usize
    }

    /// Single linkage: the distance from the merge of `a` and `b` to `x`.
    pub open spec fn linkage(self, a: ElementId, b: ElementId, x: ElementId) -> Distance {
        min_distance(self.distance(a, x), self.distance(b, x))
    }

    /// The state after `a` and `b` have been merged into a new node.
    pub open spec fn merged(self, a: ElementId, b: ElementId) -> HierarchyView {
        let m = self.next_id();
        let rest = self.objects.remove(a).remove(b);
        let node = ObjectView {
            tree: Tree::Node {
                id: m,
                left: Box::new(self.objects[a].tree),
                right: Box::new(self.objects[b].tree),
                distance: self.distance(a, b),
            },
            distances: Map::new(
                |x: ElementId| rest.contains_key(x),
                |x: ElementId| self.linkage(a, b, x),
            ),
        };
        HierarchyView {
            objects: Map::new(
                |k: ElementId| rest.contains_key(k),
                |k: ElementId|
                    ObjectView {
                        tree: rest[k].tree,
                        distances: rest[k].distances.remove(a).remove(b).insert(
                            m,
                            self.linkage(a, b, k),
                        ),
                    },
            ).insert(m, node),
            element_count: m,
        }
    }

    /// One round of the merge loop: the closest pair is merged.
    pub open spec fn merge_step(self) -> HierarchyView {
        let p = self.closest_pair();
        self.merged(p.0, p.1)
    }

    /// `n` rounds of the merge loop.
    pub open spec fn merge_steps(self, n: nat) -> HierarchyView
        decreases n,
    {
        if n == 0 {
            self
        } else {
            self.merge_step().merge_steps((n - 1) as nat)
        }
    }

    /// The state once the merge loop has run to its end: one node is left of a
    /// non-empty state, and an empty state stays empty.
    pub open spec fn assembled(self) -> HierarchyView {
        if self.objects.len() <= 1 {
            self
        } else {
            self.merge_steps((self.objects.len() - 1) as nat)
        }
    }
}

/// `(x, y)` comes before `(i, j)` in a scan by ascending node, then ascending neighbour.
pub open spec fn scanned_before(x: ElementId, y: ElementId, i: nat, j: nat) -> bool {
    x < i || (x == i && y < j)
}

/// `(a, b)` is the pair that the scan prefers among those it has met before `(i, j)`.
pub open spec fn is_closest_before(
    v: HierarchyView,
    a: ElementId,
    b: ElementId,
    i: nat,
    j: nat,
) -> bool {
    &&& v.linked(a, b)
    &&& scanned_before(a, b, i, j)
    &&& forall|x: ElementId, y: ElementId|
        #![trigger v.linked(x, y)]
        v.linked(x, y) && scanned_before(x, y, i, j) ==> {
            ||| v.distance(a, b) < v.distance(x, y)
            ||| (v.distance(a, b) == v.distance(x, y) && (a < x || (a == x && b <= y)))
        }
}

/// No distance is held by a pair that the scan has met before `(i, j)`.
pub open spec fn none_before(v: HierarchyView, i: nat, j: nat) -> bool {
    forall|x: ElementId, y: ElementId|
        #![trigger v.linked(x, y)]
        v.linked(x, y) ==> !scanned_before(x, y, i, j)
}

} // verus!
