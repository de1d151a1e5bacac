//! The distances between the leaves before the merge loop starts: taken from
//! a table, or drawn at random.

use crate::dendrogram::{Distance, ElementId, HierarchyView, ObjectView, Tree};
use crate::hierarchy_grouping::{Hierarchy, HierarchyObject};
use crate::keys::{ascending_keys, lists_ascending};
use crate::utils::rand_u64_in_range_with_distance;
use std::collections::BTreeMap;
use vstd::prelude::*;

verus! {

/// Why a table of distances was not taken.
#[derive(Clone, Copy, Debug, PartialEq, Eq)]
pub enum DistanceError {
    /// The table has `found` rows, which is not one for each leaf.
    Rows { found: usize },
    /// The row of leaf `id` has `found` distances, which is not one for each leaf.
    RowLength { id: ElementId, found: usize },
    /// The distance from leaf `id` to itself is not zero.
    Diagonal { id: ElementId },
    /// The distance from `first` to `second` is not the one from `second` to `first`.
    Asymmetric { first: ElementId, second: ElementId },
}

/// The least distance that is drawn at random, in tenths.
pub const MIN_POINTS_DISTANCE: Distance = 5;

/// The step from one distance that is drawn at random to the next, in tenths.
pub const DISTANCE_BETWEEN_VALUES: Distance = 5;

/// The greatest distance that is drawn at random, in tenths.
pub const MAX_POINTS_DISTANCE: Distance = 50;

/// `distance` is one of those that are drawn at random.
pub open spec fn is_generated(distance: Distance) -> bool {
    &&& MIN_POINTS_DISTANCE <= distance <= MAX_POINTS_DISTANCE
    &&& (distance - MIN_POINTS_DISTANCE) % DISTANCE_BETWEEN_VALUES as int == 0
}

/// The key under which the distance between `a` and `b` is kept, whichever comes first.
pub open spec fn unordered_pair(a: ElementId, b: ElementId) -> (ElementId, ElementId) {
    if a <= b {
        (a, b)
    } else {
        (b, a)
    }
}

/// The key under which the distance between `a` and `b` is kept, whichever comes first.
pub fn pair_key(a: ElementId, b: ElementId) -> (key: (ElementId, ElementId))
    ensures
        key == unordered_pair(a, b),
{
    if a <= b {
        (a, b)
    } else {
        (b, a)
    }
}

/// `distances` holds one distance to each of `elements` but `id`, the one
/// that `cache` keeps for the pair.
pub open spec fn is_seeded_from(
    distances: Map<ElementId, Distance>,
    id: ElementId,
    elements: Seq<ElementId>,
    cache: Map<(ElementId, ElementId), Distance>,
) -> bool {
    &&& forall|b: ElementId| #[trigger]
        distances.contains_key(b) <==> elements.contains(b) && b != id
    &&& forall|b: ElementId|
        #![trigger elements.contains(b)]
        elements.contains(b) && b != id ==> cache.contains_key(unordered_pair(id, b))
            && distances[b] == cache[unordered_pair(id, b)]
}

/// The table has `count` rows of `count` distances each.
pub open spec fn is_square(table: Seq<Vec<Distance>>, count: nat) -> bool {
    &&& table.len() == count
    &&& forall|i: int| 0 <= i < count ==> (#[trigger] table[i])@.len() == count
}

/// The rows before row `upto` hold zero on the diagonal.
pub open spec fn zero_diagonal(table: Seq<Vec<Distance>>, upto: int) -> bool {
    forall|i: int| 0 <= i < upto ==> (#[trigger] table[i])@[i] == 0
}

/// Every distance above the diagonal that comes before row `i`, column `j`
/// is the same below the diagonal.
pub open spec fn symmetric_before(table: Seq<Vec<Distance>>, i: int, j: int) -> bool {
    forall|x: int, y: int|
        #![trigger table[x]@[y]]
        0 <= x < y < table.len() && (x < i || (x == i && y < j)) ==> table[x]@[y] == table[y]@[x]
}

/// The table is one of distances between `count` leaves: square, zero from a
/// leaf to itself, and the same in both directions.
pub open spec fn is_distance_table(table: Seq<Vec<Distance>>, count: nat) -> bool {
    &&& is_square(table, count)
    &&& zero_diagonal(table, count as int)
    &&& symmetric_before(table, count as int, 0)
}

/// The leaves `1` to `count` with the distances of `table`, where row and
/// column `i - 1` stand for leaf `i`.
pub open spec fn seeded(table: Seq<Vec<Distance>>, count: usize) -> HierarchyView {
    HierarchyView {
        objects: Map::new(
            |k: ElementId| 1 <= k <= count,
            |k: ElementId|
                ObjectView { tree: Tree::Leaf { id: k }, distances: seeded_row(table[k - 1]@, k) },
        ),
        element_count: count,
    }
}

/// The distances of leaf `id` as `row` gives them: one to every other leaf.
pub open spec fn seeded_row(row: Seq<Distance>, id: ElementId) -> Map<ElementId, Distance> {
    Map::new(|j: ElementId| 1 <= j <= row.len() && j != id, |j: ElementId| row[j - 1])
}

impl HierarchyObject {
    /// Takes from `row` the distance to every other leaf: `row[j - 1]` is the
    /// distance to leaf `j`. The distance to the node itself is not kept.
    pub fn init_distances(&mut self, row: &Vec<Distance>)
        ensures
            final(self).id == old(self).id,
            final(self).inner == old(self).inner,
            final(self).distances@ == old(self).distances@.union_prefer_right(
                seeded_row(row@, old(self).id),
            ),
    {
        let mut j: usize = 0;
        assert(self.distances@ =~= old(self).distances@.union_prefer_right(
            seeded_row(row@.take(0), self.id),
        ));
        while j < row.len()
            invariant
                j <= row.len(),
                self.id == old(self).id,
                self.inner == old(self).inner,
                self.distances@ == old(self).distances@.union_prefer_right(
                    seeded_row(row@.take(j as int), self.id),
                ),
            decreases row.len() - j,
        {
            let distance = row[j];
            j += 1;
            if j != self.id {
                self.distances.insert(j, distance);
            }
            assert(self.distances@ =~= old(self).distances@.union_prefer_right(
                seeded_row(row@.take(j as int), self.id),
            ));
        }
        assert(row@.take(j as int) =~= row@);
    }
}

/// What seeding the node `id` from a cache does to its distances and to the
/// cache: the node gets a distance to each of `elements` but itself, the
/// one that the cache holds for the pair afterwards, and keeps its other
/// distances. The cache keeps what it held, and grows by the pairs of the
/// node that it lacked, and by those only.
pub open spec fn is_seeding(
    id: ElementId,
    elements: Seq<ElementId>,
    distances: Map<ElementId, Distance>,
    seeded_distances: Map<ElementId, Distance>,
    cache: Map<(ElementId, ElementId), Distance>,
    grown_cache: Map<(ElementId, ElementId), Distance>,
) -> bool {
    &&& forall|k: ElementId|
        #![trigger seeded_distances.contains_key(k)]
        seeded_distances.contains_key(k) <==> distances.contains_key(k) || (elements.contains(k)
            && k != id)
    &&& forall|k: ElementId|
        #![trigger elements.contains(k)]
        elements.contains(k) && k != id ==> {
            &&& grown_cache.contains_key(unordered_pair(id, k))
            &&& seeded_distances[k] == grown_cache[unordered_pair(id, k)]
        }
    &&& forall|k: ElementId|
        #![trigger distances.contains_key(k)]
        distances.contains_key(k) && !(elements.contains(k) && k != id) ==> seeded_distances[k]
            == distances[k]
    &&& forall|p: (ElementId, ElementId)|
        #![trigger cache.contains_key(p)]
        cache.contains_key(p) ==> grown_cache.contains_key(p) && grown_cache[p] == cache[p]
    &&& forall|p: (ElementId, ElementId)|
        #![trigger grown_cache.contains_key(p)]
        grown_cache.contains_key(p) && !cache.contains_key(p) ==> exists|k: ElementId|
            #![trigger elements.contains(k)]
            elements.contains(k) && k != id && p == unordered_pair(id, k)
}

/// Seeding goes on by one element: the node gets the distance that the
/// cache holds for the pair, or that it is given for the pair.
proof fn lemma_seeding_next(
    id: ElementId,
    seen: Seq<ElementId>,
    next: ElementId,
    distances: Map<ElementId, Distance>,
    seeded: Map<ElementId, Distance>,
    seeded_next: Map<ElementId, Distance>,
    cache: Map<(ElementId, ElementId), Distance>,
    grown: Map<(ElementId, ElementId), Distance>,
    grown_next: Map<(ElementId, ElementId), Distance>,
)
    requires
        is_seeding(id, seen, distances, seeded, cache, grown),
        next == id ==> seeded_next == seeded && grown_next == grown,
        next != id ==> {
            let key = unordered_pair(id, next);
            &&& grown_next.contains_key(key)
            &&& seeded_next == seeded.insert(next, grown_next[key])
            &&& grown.contains_key(key) ==> grown_next == grown
            &&& !grown.contains_key(key) ==> grown_next == grown.insert(key, grown_next[key])
        },
    ensures
        is_seeding(id, seen.push(next), distances, seeded_next, cache, grown_next),
{
    let all = seen.push(next);
    assert forall|k: ElementId| all.contains(k) <==> seen.contains(k) || k == next by {
        if seen.contains(k) {
            let p = choose|p: int| 0 <= p < seen.len() && seen[p] == k;
            assert(all[p] == k);
        }
        if k == next {
            assert(all[seen.len() as int] == k);
        }
    }
    assert forall|k: ElementId|
        #![trigger seeded_next.contains_key(k)]
        seeded_next.contains_key(k) <==> distances.contains_key(k) || (all.contains(k) && k
            != id) by {
        assert(seeded.contains_key(k) <==> distances.contains_key(k) || (seen.contains(k) && k
            != id));
    }
    assert forall|k: ElementId|
        #![trigger all.contains(k)]
        all.contains(k) && k != id implies grown_next.contains_key(unordered_pair(id, k))
            && seeded_next[k] == grown_next[unordered_pair(id, k)] by {
        if seen.contains(k) {
            assert(grown.contains_key(unordered_pair(id, k)));
        }
    }
    assert forall|k: ElementId|
        #![trigger distances.contains_key(k)]
        distances.contains_key(k) && !(all.contains(k) && k != id) implies seeded_next[k]
            == distances[k] by {
        assert(!(seen.contains(k) && k != id));
    }
    assert forall|p: (ElementId, ElementId)|
        #![trigger cache.contains_key(p)]
        cache.contains_key(p) implies grown_next.contains_key(p) && grown_next[p] == cache[p] by {
        assert(grown.contains_key(p));
    }
    assert forall|p: (ElementId, ElementId)|
        #![trigger grown_next.contains_key(p)]
        grown_next.contains_key(p) && !cache.contains_key(p) implies exists|k: ElementId|
        #![trigger all.contains(k)]
        all.contains(k) && k != id && p == unordered_pair(id, k) by {
        if grown.contains_key(p) {
            let k = choose|k: ElementId|
                #![trigger seen.contains(k)]
                seen.contains(k) && k != id && p == unordered_pair(id, k);
            assert(all.contains(k));
        } else {
            assert(all.contains(next));
        }
    }
}

impl HierarchyObject {
    /// Gives the node a distance to each of `elements` but itself: the one
    /// that `cached_distances` keeps for the pair, or else the one that
    /// `distance` answers for the pair, smaller identifier first, which is
    /// then kept there for the other node of the pair.
    pub fn init_distances_with<F: Fn(ElementId, ElementId) -> Distance>(
        &mut self,
        elements: &Vec<ElementId>,
        cached_distances: &mut BTreeMap<(ElementId, ElementId), Distance>,
        distance: &F,
    )
        requires
            forall|a: ElementId, b: ElementId| call_requires(*distance, (a, b)),
        ensures
            final(self).id == old(self).id,
            final(self).inner == old(self).inner,
            is_seeding(
                old(self).id,
                elements@,
                old(self).distances@,
                final(self).distances@,
                old(cached_distances)@,
                final(cached_distances)@,
            ),
            forall|p: (ElementId, ElementId)|
                #![trigger final(cached_distances)@.contains_key(p)]
                final(cached_distances)@.contains_key(p) && !old(cached_distances)@.contains_key(
                    p,
                ) ==> call_ensures(*distance, p, final(cached_distances)@[p]),
    {
        let mut e: usize = 0;
        while e < elements.len()
            invariant
                e <= elements.len(),
                self.id == old(self).id,
                self.inner == old(self).inner,
                forall|a: ElementId, b: ElementId| call_requires(*distance, (a, b)),
                is_seeding(
                    self.id,
                    elements@.take(e as int),
                    old(self).distances@,
                    self.distances@,
                    old(cached_distances)@,
                    cached_distances@,
                ),
                forall|p: (ElementId, ElementId)|
                    #![trigger cached_distances@.contains_key(p)]
                    cached_distances@.contains_key(p) && !old(cached_distances)@.contains_key(p)
                        ==> call_ensures(*distance, p, cached_distances@[p]),
            decreases elements.len() - e,
        {
            let id = elements[e];
            let ghost seen = elements@.take(e as int);
            let ghost distances_before = self.distances@;
            let ghost cache_before = cached_distances@;
            if id != self.id {
                let key = pair_key(self.id, id);
                let known = match cached_distances.get(&key) {
                    Some(cached_distance) => Some(*cached_distance),
                    None => None,
                };
                match known {
                    Some(cached_distance) => {
                        self.distances.insert(id, cached_distance);
                    },
                    None => {
                        let new_distance = distance(key.0, key.1);
                        cached_distances.insert(key, new_distance);
                        self.distances.insert(id, new_distance);
                    },
                }
            }
            proof {
                lemma_seeding_next(
                    self.id,
                    seen,
                    id,
                    old(self).distances@,
                    distances_before,
                    self.distances@,
                    old(cached_distances)@,
                    cache_before,
                    cached_distances@,
                );
                assert(elements@.take(e + 1) =~= seen.push(id));
            }
            e += 1;
        }
        assert(elements@.take(e as int) =~= elements@);
    }

    /// Gives the node a distance to each of `elements` but itself: the one
    /// that `cached_distances` keeps for the pair, or else one drawn at random,
    /// which is then kept there for the other node of the pair.
    pub fn init_rand_distances(
        &mut self,
        elements: &Vec<ElementId>,
        cached_distances: &mut BTreeMap<(ElementId, ElementId), Distance>,
    )
        ensures
            final(self).id == old(self).id,
            final(self).inner == old(self).inner,
            is_seeding(
                old(self).id,
                elements@,
                old(self).distances@,
                final(self).distances@,
                old(cached_distances)@,
                final(cached_distances)@,
            ),
            forall|p: (ElementId, ElementId)|
                #![trigger final(cached_distances)@.contains_key(p)]
                final(cached_distances)@.contains_key(p) && !old(cached_distances)@.contains_key(
                    p,
                ) ==> is_generated(final(cached_distances)@[p]),
    {
        let random_distance = |_first: ElementId, _second: ElementId| -> (distance: Distance)
            ensures
                is_generated(distance),
            {
                rand_u64_in_range_with_distance(
                    MIN_POINTS_DISTANCE,
                    MAX_POINTS_DISTANCE,
                    DISTANCE_BETWEEN_VALUES,
                )
            };
        self.init_distances_with(elements, cached_distances, &random_distance);
    }
}

impl Hierarchy {
    /// Gives every pair of leaves the distance that `distance` answers for
    /// it, the same in both directions: `distance` is asked once for each
    /// pair, smaller identifier first, and the answer is kept for the second
    /// node of the pair.
    pub fn init_distances_with<F: Fn(ElementId, ElementId) -> Distance>(&mut self, distance: F)
        requires
            old(self)@ == HierarchyView::leaves(old(self).element_count),
            forall|a: ElementId, b: ElementId| call_requires(distance, (a, b)),
        ensures
            final(self).element_count == old(self).element_count,
            final(self)@.wf(),
            final(self)@.objects.dom() == old(self)@.objects.dom(),
            final(self)@.objects.len() == old(self).element_count,
            forall|k: ElementId| #[trigger]
                final(self)@.objects.contains_key(k) ==> final(self)@.objects[k].tree == (
                Tree::Leaf { id: k }),
            forall|a: ElementId, b: ElementId|
                #![trigger final(self)@.linked(a, b)]
                final(self)@.linked(a, b) && a < b ==> call_ensures(
                    distance,
                    (a, b),
                    final(self)@.distance(a, b),
                ),
    {
        let keys = ascending_keys(&self.objects);
        let mut cached_distances: BTreeMap<(ElementId, ElementId), Distance> = BTreeMap::new();
        let ghost count = self.element_count;
        proof {
            assert forall|k: ElementId| #[trigger] self.objects@.contains_key(k) implies 1 <= k
                <= count && self.objects@[k]@ == HierarchyView::leaf(k) by {
                assert(self@.objects.contains_key(k));
                assert(HierarchyView::leaves(count).objects.contains_key(k));
                assert(self@.objects[k] == HierarchyView::leaf(k));
            }
        }
        let mut i: usize = 0;
        while i < keys.len()
            invariant
                lists_ascending(keys@, old(self).objects@.dom()),
                i <= keys.len(),
                count == old(self).element_count,
                self.element_count == count,
                self.objects@.dom() == old(self).objects@.dom(),
                forall|a: ElementId, b: ElementId| call_requires(distance, (a, b)),
                forall|k: ElementId| #[trigger]
                    old(self).objects@.contains_key(k) ==> 1 <= k <= count && old(
                        self,
                    ).objects@[k]@ == HierarchyView::leaf(k),
                forall|p: (ElementId, ElementId)| #[trigger]
                    cached_distances@.contains_key(p) ==> call_ensures(
                        distance,
                        p,
                        cached_distances@[p],
                    ),
                forall|q: int|
                    0 <= q < keys@.len() ==> {
                        let k = #[trigger] keys@[q];
                        &&& self.objects@[k].tree() == (Tree::Leaf { id: k })
                        &&& q >= i ==> self.objects@[k] == old(self).objects@[k]
                        &&& q < i ==> is_seeded_from(
                            self.objects@[k].distances@,
                            k,
                            keys@,
                            cached_distances@,
                        )
                    },
            decreases keys.len() - i,
        {
            let id = keys[i];
            let ghost cache_before = cached_distances@;
            let mut object = self.objects.remove(&id).unwrap();
            assert(object@ == HierarchyView::leaf(id));
            object.init_distances_with(&keys, &mut cached_distances, &distance);
            assert(is_seeded_from(object.distances@, id, keys@, cached_distances@));
            self.objects.insert(id, object);
            proof {
                assert(self.objects@.dom() =~= old(self).objects@.dom());
                assert forall|q: int| 0 <= q < i implies is_seeded_from(
                    self.objects@[#[trigger] keys@[q]].distances@,
                    keys@[q],
                    keys@,
                    cached_distances@,
                ) by {
                    let k = keys@[q];
                    assert(is_seeded_from(self.objects@[k].distances@, k, keys@, cache_before));
                }
            }
            i += 1;
        }
        proof {
            let v = self@;
            assert(v.objects.dom() =~= self.objects@.dom());
            assert forall|k: ElementId| #[trigger] v.objects.contains_key(k) implies {
                &&& 1 <= k <= v.element_count
                &&& v.objects[k].tree == (Tree::Leaf { id: k })
                &&& is_seeded_from(v.objects[k].distances, k, keys@, cached_distances@)
            } by {
                let q = choose|q: int| 0 <= q < keys@.len() && keys@[q] == k;
                assert(keys@[q] == k);
            }
            assert forall|b: ElementId| keys@.contains(b) <==> v.objects.contains_key(b) by {
                if v.objects.contains_key(b) {
                    let q = choose|q: int| 0 <= q < keys@.len() && keys@[q] == b;
                    assert(keys@[q] == b);
                }
                if keys@.contains(b) {
                    let q = choose|q: int| 0 <= q < keys@.len() && keys@[q] == b;
                    assert(old(self).objects@.dom().contains(keys@[q]));
                }
            }
            assert forall|a: ElementId, b: ElementId| #[trigger] v.linked(a, b) implies v.distance(
                a,
                b,
            ) == v.distance(b, a) && (a < b ==> call_ensures(
                distance,
                (a, b),
                v.distance(a, b),
            )) by {
                assert(is_seeded_from(v.objects[a].distances, a, keys@, cached_distances@));
                assert(v.objects[a].distances.contains_key(b));
                assert(keys@.contains(b));
                assert(keys@.contains(a));
                assert(v.objects.contains_key(b));
                assert(is_seeded_from(v.objects[b].distances, b, keys@, cached_distances@));
                assert(unordered_pair(a, b) == unordered_pair(b, a));
                assert(cached_distances@.contains_key(unordered_pair(a, b)));
            }
            assert(v.objects.dom() =~= old(self)@.objects.dom());
            assert(v.objects.dom() =~= Set::new(|k: ElementId| 1 <= k <= count)) by {
                assert forall|k: ElementId| 1 <= k <= count implies old(
                    self,
                )@.objects.contains_key(k) by {
                    assert(HierarchyView::leaves(count).objects.contains_key(k));
                }
            }
            lemma_ids_finite(self.element_count);
        }
    }

    /// Gives every pair of leaves a distance drawn at random, the same in
    /// both directions: each pair's distance is drawn once and kept for the
    /// second node of the pair.
    pub fn init_rand_distances(&mut self)
        requires
            old(self)@ == HierarchyView::leaves(old(self).element_count),
        ensures
            final(self).element_count == old(self).element_count,
            final(self)@.wf(),
            final(self)@.objects.dom() == old(self)@.objects.dom(),
            final(self)@.objects.len() == old(self).element_count,
            forall|k: ElementId| #[trigger]
                final(self)@.objects.contains_key(k) ==> final(self)@.objects[k].tree == (
                Tree::Leaf { id: k }),
            forall|a: ElementId, b: ElementId| #[trigger]
                final(self)@.linked(a, b) ==> is_generated(final(self)@.distance(a, b)),
    {
        let random_distance = |_first: ElementId, _second: ElementId| -> (distance: Distance)
            ensures
                is_generated(distance),
            {
                rand_u64_in_range_with_distance(
                    MIN_POINTS_DISTANCE,
                    MAX_POINTS_DISTANCE,
                    DISTANCE_BETWEEN_VALUES,
                )
            };
        self.init_distances_with(random_distance);
        proof {
            let v = self@;
            assert forall|a: ElementId, b: ElementId| #[trigger]
                v.linked(a, b) implies is_generated(v.distance(a, b)) by {
                if a > b {
                    assert(v.objects.contains_key(b));
                    assert(v.linked(b, a));
                }
            }
        }
    }

    /// Takes the distances between the leaves from `table`, where row and
    /// column `i - 1` stand for leaf `i`. A table that is not square, not zero
    /// on the diagonal or not symmetric is refused, with the first place at
    /// which it fails, and nothing is changed.
    pub fn init_distances(&mut self, table: &Vec<Vec<Distance>>) -> (result: Result<
        (),
        DistanceError,
    >)
        requires
            old(self)@ == HierarchyView::leaves(old(self).element_count),
        ensures
            match result {
                Ok(()) => {
                    &&& is_distance_table(table@, old(self).element_count as nat)
                    &&& final(self)@ == seeded(table@, old(self).element_count)
                    &&& final(self)@.wf()
                    &&& final(self)@.objects.len() == old(self).element_count
                },
                Err(DistanceError::Rows { found }) => {
                    &&& found == table@.len()
                    &&& found != old(self).element_count
                },
                Err(DistanceError::RowLength { id, found }) => {
                    &&& table@.len() == old(self).element_count
                    &&& 1 <= id <= table@.len()
                    &&& found == table@[id - 1]@.len()
                    &&& found != old(self).element_count
                    &&& forall|i: int|
                        0 <= i < id - 1 ==> (#[trigger] table@[i])@.len() == table@.len()
                },
                Err(DistanceError::Diagonal { id }) => {
                    &&& is_square(table@, old(self).element_count as nat)
                    &&& 1 <= id <= table@.len()
                    &&& table@[id - 1]@[id - 1] != 0
                    &&& zero_diagonal(table@, id - 1)
                },
                Err(DistanceError::Asymmetric { first, second }) => {
                    &&& is_square(table@, old(self).element_count as nat)
                    &&& zero_diagonal(table@, table@.len() as int)
                    &&& 1 <= first < second <= table@.len()
                    &&& table@[first - 1]@[second - 1] != table@[second - 1]@[first - 1]
                    &&& symmetric_before(table@, first - 1, second - 1)
                },
            },
            result is Err ==> *final(self) == *old(self),
    {
        let count = self.element_count;
        if table.len() != count {
            return Err(DistanceError::Rows { found: table.len() });
        }
        let mut i: usize = 0;
        while i < count
            invariant
                i <= count,
                *self == *old(self),
                count == self.element_count,
                table@.len() == count,
                forall|x: int| 0 <= x < i ==> (#[trigger] table@[x])@.len() == count,
            decreases count - i,
        {
            if table[i].len() != count {
                return Err(DistanceError::RowLength { id: i + 1, found: table[i].len() });
            }
            i += 1;
        }
        let mut i: usize = 0;
        while i < count
            invariant
                i <= count,
                *self == *old(self),
                count == self.element_count,
                is_square(table@, count as nat),
                zero_diagonal(table@, i as int),
            decreases count - i,
        {
            if table[i][i] != 0 {
                return Err(DistanceError::Diagonal { id: i + 1 });
            }
            i += 1;
        }
        let mut i: usize = 0;
        while i < count
            invariant
                i <= count,
                *self == *old(self),
                count == self.element_count,
                is_square(table@, count as nat),
                zero_diagonal(table@, count as int),
                symmetric_before(table@, i as int, 0),
            decreases count - i,
        {
            let mut j: usize = i + 1;
            while j < count
                invariant
                    i < j <= count,
                    *self == *old(self),
                    count == self.element_count,
                    is_square(table@, count as nat),
                    zero_diagonal(table@, count as int),
                    symmetric_before(table@, i as int, j as int),
                decreases count - j,
            {
                if table[i][j] != table[j][i] {
                    return Err(DistanceError::Asymmetric { first: i + 1, second: j + 1 });
                }
                j += 1;
            }
            i += 1;
        }
        let mut i: usize = 0;
        proof {
            assert forall|k: ElementId| 1 <= k <= count implies #[trigger]
                self.objects@.contains_key(k) && self.objects@[k]@ == HierarchyView::leaf(k) by {
                assert(HierarchyView::leaves(count).objects.contains_key(k));
                assert(self@.objects.contains_key(k));
                assert(self@.objects[k] == HierarchyView::leaf(k));
            }
        }
        while i < count
            invariant
                i <= count,
                count == self.element_count,
                count == old(self).element_count,
                is_distance_table(table@, count as nat),
                old(self)@ == HierarchyView::leaves(count),
                self.objects@.dom() == old(self).objects@.dom(),
                forall|k: ElementId|
                    1 <= k <= count ==> #[trigger] self.objects@.contains_key(k)
                        && self.objects@[k]@ == (ObjectView {
                        tree: Tree::Leaf { id: k },
                        distances: if k <= i {
                            seeded_row(table@[k - 1]@, k)
                        } else {
                            Map::empty()
                        },
                    }),
            decreases count - i,
        {
            i += 1;
            let ghost earlier = self.objects@;
            let mut object = self.objects.remove(&i).unwrap();
            assert(object@ == HierarchyView::leaf(i));
            object.init_distances(&table[i - 1]);
            assert(object.distances@ =~= seeded_row(table@[i - 1]@, i));
            assert(object.tree() == (Tree::Leaf { id: i }));
            self.objects.insert(i, object);
            assert(self.objects@.dom() =~= old(self).objects@.dom());
            assert forall|k: ElementId| 1 <= k <= count implies #[trigger]
                self.objects@.contains_key(k) && self.objects@[k]@ == (ObjectView {
                tree: Tree::Leaf { id: k },
                distances: if k <= i {
                    seeded_row(table@[k - 1]@, k)
                } else {
                    Map::empty()
                },
            }) by {
                assert(earlier.contains_key(k));
                if k != i {
                    assert(self.objects@[k] == earlier[k]);
                }
            }
        }
        proof {
            assert(self@ =~~= seeded(table@, count)) by {
                assert forall|k: ElementId|
                    self@.objects.contains_key(k) <==> seeded(table@, count).objects.contains_key(
                        k,
                    ) by {
                    assert(old(self)@.objects.contains_key(k) <==> self.objects@.contains_key(k));
                }
            }
            lemma_seeded_wf(table@, count);
            assert(self@.objects == seeded(table@, count).objects);
        }
        Ok(())
    }
}

/// The leaves with the distances of a table of distances hold a complete and symmetric table.
pub proof fn lemma_seeded_wf(table: Seq<Vec<Distance>>, count: usize)
    requires
        is_distance_table(table, count as nat),
    ensures
        seeded(table, count).wf(),
        seeded(table, count).objects.len() == count,
{
    let v = seeded(table, count);
    assert(v.objects.dom() =~= Set::new(|k: ElementId| 1 <= k <= count));
    lemma_ids_finite(count);
    assert forall|a: ElementId, b: ElementId| #[trigger] v.linked(a, b) implies v.distance(a, b)
        == v.distance(b, a) by {
        if a < b {
            assert(table[a - 1]@[b - 1] == table[b - 1]@[a - 1]);
        } else {
            assert(table[b - 1]@[a - 1] == table[a - 1]@[b - 1]);
        }
    }
}

/// The identifiers `1` to `count` are finitely many: `count` of them.
pub proof fn lemma_ids_finite(count: usize)
    ensures
        Set::new(|k: ElementId| 1 <= k <= count).finite(),
        Set::new(|k: ElementId| 1 <= k <= count).len() == count,
    decreases count,
{
    let ids = Set::new(|k: ElementId| 1 <= k <= count);
    if count == 0 {
        assert(ids =~= Set::empty());
    } else {
        let fewer = Set::new(|k: ElementId| 1 <= k <= (count - 1) as usize);
        lemma_ids_finite((count - 1) as usize);
        assert(ids =~= fewer.insert(count));
    }
}

} // verus!
