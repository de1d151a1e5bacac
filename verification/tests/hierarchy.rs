use clustering_labs::dendrogram::{Distance, ElementId};
use clustering_labs::hierarchy_grouping::{Hierarchy, HierarchyObject, InnerHierarchyObject};
use clustering_labs::report::MergeReport;
use clustering_labs::seeding::{
    pair_key, DistanceError, DISTANCE_BETWEEN_VALUES, MAX_POINTS_DISTANCE, MIN_POINTS_DISTANCE,
};
use clustering_labs::validation::{AssembleError, TableFault};
use std::cell::Cell;
use std::collections::BTreeMap;

fn seeded(table: &Vec<Vec<Distance>>) -> Hierarchy {
    let mut hierarchy = Hierarchy::new();
    hierarchy.populate(table.len());
    assert_eq!(hierarchy.init_distances(table), Ok(()));
    hierarchy
}

fn three_leaves() -> Vec<Vec<Distance>> {
    vec![vec![0, 20, 50], vec![20, 0, 40], vec![50, 40, 0]]
}

fn four_leaves_with_a_tie() -> Vec<Vec<Distance>> {
    vec![vec![0, 10, 30, 40], vec![10, 0, 20, 50], vec![30, 20, 0, 10], vec![40, 50, 10, 0]]
}

fn children(object: &HierarchyObject) -> (&HierarchyObject, &HierarchyObject, Distance) {
    match &object.inner {
        InnerHierarchyObject::Node(node) => (&node.0, &node.1, node.2),
        InnerHierarchyObject::Leaf => panic!("node {} is a leaf", object.id),
    }
}

fn leaves(object: &HierarchyObject) -> Vec<ElementId> {
    match &object.inner {
        InnerHierarchyObject::Node(node) => {
            let mut all = leaves(&node.0);
            all.extend(leaves(&node.1));
            all
        }
        InnerHierarchyObject::Leaf => vec![object.id],
    }
}

fn is_leaf(object: &HierarchyObject) -> bool {
    matches!(object.inner, InnerHierarchyObject::Leaf)
}

fn distances_of(hierarchy: &Hierarchy, id: ElementId) -> Vec<(ElementId, Distance)> {
    hierarchy.objects[&id].distances.iter().map(|(k, d)| (*k, *d)).collect()
}

fn assert_symmetric_and_complete(hierarchy: &Hierarchy) {
    let ids: Vec<ElementId> = hierarchy.objects.keys().copied().collect();
    for a in &ids {
        let row = &hierarchy.objects[a].distances;
        assert_eq!(hierarchy.objects[a].id, *a);
        assert_eq!(row.len(), ids.len() - 1);
        for b in &ids {
            if a == b {
                assert!(!row.contains_key(b));
            } else {
                assert_eq!(row[b], hierarchy.objects[b].distances[a]);
            }
        }
    }
}

#[test]
fn new_hierarchy_is_empty() {
    let hierarchy = Hierarchy::new();
    assert!(hierarchy.objects.is_empty());
    assert_eq!(hierarchy.element_count, 0);
    assert!(hierarchy.root().is_none());
    assert_eq!(hierarchy.find_closest_pair(), None);
}

#[test]
fn populate_puts_in_the_leaves() {
    let mut hierarchy = Hierarchy::new();
    hierarchy.populate(4);
    assert_eq!(hierarchy.element_count, 4);
    assert_eq!(hierarchy.objects.keys().copied().collect::<Vec<_>>(), vec![1, 2, 3, 4]);
    for (id, object) in &hierarchy.objects {
        assert_eq!(object.id, *id);
        assert!(is_leaf(object));
        assert!(object.distances.is_empty());
    }
}

#[test]
fn leaf_and_fold_build_nodes() {
    let mut first = HierarchyObject::leaf(1);
    let mut second = HierarchyObject::leaf(2);
    first.distances.insert(2, 35);
    second.distances.insert(1, 35);
    assert!(is_leaf(&first));
    let node = HierarchyObject::fold(3, first, second);
    assert_eq!(node.id, 3);
    assert!(node.distances.is_empty());
    let (left, right, distance) = children(&node);
    assert_eq!((left.id, right.id, distance), (1, 2, 35));
}

#[test]
fn calculate_distance_to_takes_the_smaller_distance() {
    let mut first = HierarchyObject::leaf(1);
    let mut second = HierarchyObject::leaf(2);
    let mut other = HierarchyObject::leaf(3);
    first.distances.insert(2, 10);
    first.distances.insert(3, 70);
    second.distances.insert(1, 10);
    second.distances.insert(3, 45);
    other.distances.insert(1, 70);
    other.distances.insert(2, 45);
    assert_eq!(first.calculate_distance_to(&other), 70);
    let node = HierarchyObject::fold(4, first, second);
    assert_eq!(node.calculate_distance_to(&other), 45);
}

#[test]
fn calculate_all_distances_records_both_sides() {
    let hierarchy = seeded(&three_leaves());
    let mut objects = hierarchy.objects;
    let first = objects.remove(&1).unwrap();
    let second = objects.remove(&2).unwrap();
    let mut node = HierarchyObject::fold(4, first, second);
    node.calculate_all_distances(&mut objects);
    assert_eq!(node.distances.iter().map(|(k, d)| (*k, *d)).collect::<Vec<_>>(), vec![(3, 40)]);
    assert_eq!(objects[&3].distances[&4], 40);
}

#[test]
fn three_leaves_merge_closest_first() {
    let mut hierarchy = seeded(&three_leaves());
    assert_eq!(hierarchy.find_closest_pair(), Some((1, 2, 20)));
    hierarchy.merge(1, 2);
    assert_eq!(hierarchy.element_count, 4);
    assert_eq!(hierarchy.objects.keys().copied().collect::<Vec<_>>(), vec![3, 4]);
    assert_eq!(distances_of(&hierarchy, 4), vec![(3, 40)]);
    assert_eq!(distances_of(&hierarchy, 3), vec![(4, 40)]);
    assert_eq!(hierarchy.find_closest_pair(), Some((3, 4, 40)));
    hierarchy.assemble();
    assert_eq!(hierarchy.element_count, 5);
    assert_eq!(hierarchy.objects.len(), 1);
    let root = hierarchy.root().unwrap();
    assert_eq!(root.id, 5);
    assert!(root.distances.is_empty());
    let (left, right, distance) = children(root);
    assert_eq!(distance, 40);
    assert_eq!(left.id, 3);
    assert!(is_leaf(left));
    assert_eq!(right.id, 4);
    let (one, two, inner_distance) = children(right);
    assert_eq!(inner_distance, 20);
    assert_eq!((one.id, two.id), (1, 2));
    assert!(is_leaf(one) && is_leaf(two));
}

#[test]
fn three_leaves_assemble_in_one_call() {
    let mut hierarchy = seeded(&three_leaves());
    hierarchy.assemble();
    let root = hierarchy.root().unwrap();
    assert_eq!(
        root.tree_display(),
        vec![
            MergeReport {
                id: 5,
                distance: 40,
                first_is_node: false,
                first_id: 3,
                second_is_node: true,
                second_id: 4,
            },
            MergeReport {
                id: 4,
                distance: 20,
                first_is_node: false,
                first_id: 1,
                second_is_node: false,
                second_id: 2,
            },
        ]
    );
    let text: Vec<String> = root.tree_display().iter().map(|line| line.text()).collect();
    assert_eq!(
        text,
        vec![
            "NODE: 5 - distance: 4; members: LEAF 3 - NODE 4".to_string(),
            "NODE: 4 - distance: 2; members: LEAF 1 - LEAF 2".to_string(),
        ]
    );
}

#[test]
fn tie_goes_to_the_pair_that_comes_first() {
    let mut hierarchy = seeded(&four_leaves_with_a_tie());
    assert_eq!(hierarchy.find_closest_pair(), Some((1, 2, 10)));
    hierarchy.assemble();
    let lines = hierarchy.root().unwrap().tree_display();
    let merges: Vec<(ElementId, ElementId, ElementId, Distance)> =
        lines.iter().map(|line| (line.id, line.first_id, line.second_id, line.distance)).collect();
    assert_eq!(merges, vec![(7, 5, 6, 20), (5, 1, 2, 10), (6, 3, 4, 10)]);
}

#[test]
fn tie_is_resolved_the_same_way_every_time() {
    let mut first = seeded(&four_leaves_with_a_tie());
    first.assemble();
    let expected = first.root().unwrap().tree_display();
    for _ in 0..5 {
        let mut again = seeded(&four_leaves_with_a_tie());
        again.assemble();
        assert_eq!(again.root().unwrap().tree_display(), expected);
        assert_eq!(again.element_count, first.element_count);
    }
}

#[test]
fn zero_distance_between_leaves_is_merged_first() {
    let table = vec![vec![0, 30, 30], vec![30, 0, 0], vec![30, 0, 0]];
    let mut hierarchy = seeded(&table);
    assert_eq!(hierarchy.find_closest_pair(), Some((2, 3, 0)));
    hierarchy.assemble();
    let lines = hierarchy.root().unwrap().tree_display();
    assert_eq!(lines[1].distance, 0);
    assert_eq!((lines[1].first_id, lines[1].second_id), (2, 3));
}

#[test]
fn greatest_distance_can_be_the_closest() {
    let far = Distance::MAX;
    let table = vec![vec![0, far], vec![far, 0]];
    let mut hierarchy = seeded(&table);
    assert_eq!(hierarchy.find_closest_pair(), Some((1, 2, far)));
    hierarchy.assemble();
    assert_eq!(children(hierarchy.root().unwrap()).2, far);
}

#[test]
fn one_leaf_is_its_own_root() {
    let mut hierarchy = Hierarchy::new();
    hierarchy.populate(1);
    assert_eq!(hierarchy.init_distances(&vec![vec![0]]), Ok(()));
    hierarchy.assemble();
    assert_eq!(hierarchy.element_count, 1);
    let root = hierarchy.root().unwrap();
    assert_eq!(root.id, 1);
    assert!(is_leaf(root));
    assert!(root.tree_display().is_empty());
}

#[test]
fn no_leaves_give_no_root() {
    let mut hierarchy = Hierarchy::new();
    hierarchy.populate(0);
    assert_eq!(hierarchy.init_distances(&Vec::new()), Ok(()));
    hierarchy.assemble();
    assert!(hierarchy.root().is_none());
    assert!(hierarchy.objects.is_empty());
    assert_eq!(hierarchy.element_count, 0);
}

#[test]
fn root_waits_for_the_merge_loop() {
    let hierarchy = seeded(&three_leaves());
    assert!(hierarchy.root().is_none());
}

#[test]
fn each_merge_takes_one_node_away() {
    for count in 2..9usize {
        let table: Vec<Vec<Distance>> = (0..count)
            .map(|i| {
                (0..count).map(|j| if i == j { 0 } else { ((i * j) % 7 + i + j) as u64 }).collect()
            })
            .collect();
        let mut hierarchy = seeded(&table);
        let mut merges = 0;
        while let Some((a, b, _)) = hierarchy.find_closest_pair() {
            hierarchy.merge(a, b);
            merges += 1;
            assert_eq!(hierarchy.objects.len(), count - merges);
            assert_eq!(hierarchy.element_count, count + merges);
            assert_symmetric_and_complete(&hierarchy);
        }
        assert_eq!(merges, count - 1);
        assert_eq!(hierarchy.objects.len(), 1);
        assert_eq!(hierarchy.root().unwrap().id, 2 * count - 1);
    }
}

#[test]
fn merged_node_is_as_close_as_its_closer_child() {
    let table = vec![
        vec![0, 15, 90, 25, 60],
        vec![15, 0, 35, 80, 60],
        vec![90, 35, 0, 45, 70],
        vec![25, 80, 45, 0, 55],
        vec![60, 60, 70, 55, 0],
    ];
    let mut hierarchy = seeded(&table);
    hierarchy.merge(1, 2);
    assert_eq!(distances_of(&hierarchy, 6), vec![(3, 35), (4, 25), (5, 60)]);
    assert_eq!(distances_of(&hierarchy, 3), vec![(4, 45), (5, 70), (6, 35)]);
    assert_eq!(distances_of(&hierarchy, 4), vec![(3, 45), (5, 55), (6, 25)]);
    assert_eq!(distances_of(&hierarchy, 5), vec![(3, 70), (4, 55), (6, 60)]);
}

#[test]
fn traversal_can_be_repeated() {
    let mut hierarchy = seeded(&four_leaves_with_a_tie());
    hierarchy.assemble();
    let root = hierarchy.root().unwrap();
    assert_eq!(root.tree_display(), root.tree_display());
    assert_eq!(root.tree_display().len(), 3);
}

#[test]
fn report_lines_read_as_text() {
    let mut hierarchy = seeded(&vec![vec![0, 5, 50], vec![5, 0, 125], vec![50, 125, 0]]);
    hierarchy.assemble();
    let lines: Vec<String> =
        hierarchy.root().unwrap().tree_display().iter().map(|line| line.text()).collect();
    assert_eq!(
        lines,
        vec![
            "NODE: 5 - distance: 5; members: LEAF 3 - NODE 4".to_string(),
            "NODE: 4 - distance: 0.5; members: LEAF 1 - LEAF 2".to_string(),
        ]
    );
    let line = MergeReport {
        id: 120,
        distance: 1234,
        first_is_node: true,
        first_id: 100,
        second_is_node: true,
        second_id: 119,
    };
    assert_eq!(line.text(), "NODE: 120 - distance: 123.4; members: NODE 100 - NODE 119");
}

#[test]
fn table_text_has_a_row_and_a_column_for_each_node() {
    let hierarchy = seeded(&vec![vec![0, 5, 50], vec![5, 0, 25], vec![50, 25, 0]]);
    assert_eq!(
        hierarchy.to_text(),
        "   1    2    3    \n1  0    0.5  5    \n2  0.5  0    2.5  \n3  5    2.5  0    \n"
    );
    assert_eq!(Hierarchy::new().to_text(), "   \n");
}

#[test]
fn table_text_narrows_the_padding_from_ten_on() {
    let count = 11usize;
    let table: Vec<Vec<Distance>> =
        (0..count).map(|i| (0..count).map(|j| if i == j { 0 } else { 10 }).collect()).collect();
    let text = seeded(&table).to_text();
    let lines: Vec<&str> = text.lines().collect();
    assert_eq!(lines.len(), 12);
    assert_eq!(lines[0], "   1    2    3    4    5    6    7    8    9    10   11   ");
    assert_eq!(lines[1], "1  0    1    1    1    1    1    1    1    1    1    1    ");
    assert_eq!(lines[10], "10 1    1    1    1    1    1    1    1    1    0    1    ");
}

#[test]
fn table_text_skips_merged_nodes() {
    let mut hierarchy = seeded(&three_leaves());
    hierarchy.merge(1, 2);
    assert_eq!(hierarchy.to_text(), "   3    4    \n3  0    4    \n4  4    0    \n");
}

#[test]
fn init_distances_takes_a_table_of_distances() {
    let hierarchy = seeded(&three_leaves());
    assert_eq!(distances_of(&hierarchy, 1), vec![(2, 20), (3, 50)]);
    assert_eq!(distances_of(&hierarchy, 2), vec![(1, 20), (3, 40)]);
    assert_eq!(distances_of(&hierarchy, 3), vec![(1, 50), (2, 40)]);
    assert_symmetric_and_complete(&hierarchy);
}

#[test]
fn init_distances_refuses_a_table_of_the_wrong_size() {
    let mut hierarchy = Hierarchy::new();
    hierarchy.populate(3);
    assert_eq!(
        hierarchy.init_distances(&vec![vec![0, 1], vec![1, 0]]),
        Err(DistanceError::Rows { found: 2 })
    );
    assert_eq!(
        hierarchy.init_distances(&vec![vec![0, 1, 2], vec![1, 0], vec![2, 3, 0]]),
        Err(DistanceError::RowLength { id: 2, found: 2 })
    );
    assert!(hierarchy.objects.values().all(|object| object.distances.is_empty()));
}

#[test]
fn init_distances_refuses_a_distance_to_itself() {
    let mut hierarchy = Hierarchy::new();
    hierarchy.populate(2);
    assert_eq!(
        hierarchy.init_distances(&vec![vec![0, 1], vec![1, 7]]),
        Err(DistanceError::Diagonal { id: 2 })
    );
    assert!(hierarchy.objects.values().all(|object| object.distances.is_empty()));
}

#[test]
fn init_distances_refuses_a_table_that_is_not_symmetric() {
    let mut hierarchy = Hierarchy::new();
    hierarchy.populate(3);
    assert_eq!(
        hierarchy.init_distances(&vec![vec![0, 1, 2], vec![1, 0, 3], vec![2, 4, 0]]),
        Err(DistanceError::Asymmetric { first: 2, second: 3 })
    );
    assert_eq!(
        hierarchy.init_distances(&vec![vec![0, 1, 2], vec![1, 0, 3], vec![9, 4, 0]]),
        Err(DistanceError::Asymmetric { first: 1, second: 3 })
    );
    assert!(hierarchy.objects.values().all(|object| object.distances.is_empty()));
}

#[test]
fn object_init_distances_leaves_itself_out() {
    let mut object = HierarchyObject::leaf(2);
    object.init_distances(&vec![11, 22, 33]);
    assert_eq!(
        object.distances.iter().map(|(k, d)| (*k, *d)).collect::<Vec<_>>(),
        vec![(1, 11), (3, 33)]
    );
}

#[test]
fn pair_key_puts_the_smaller_first() {
    assert_eq!(pair_key(2, 7), (2, 7));
    assert_eq!(pair_key(7, 2), (2, 7));
    assert_eq!(pair_key(4, 4), (4, 4));
}

#[test]
fn object_init_rand_distances_reads_the_cache() {
    let mut cache: BTreeMap<(ElementId, ElementId), Distance> = BTreeMap::new();
    cache.insert((1, 2), 777);
    let mut object = HierarchyObject::leaf(2);
    object.init_rand_distances(&vec![1, 2, 3], &mut cache);
    assert_eq!(object.distances[&1], 777);
    assert!(!object.distances.contains_key(&2));
    let drawn = object.distances[&3];
    assert!((MIN_POINTS_DISTANCE..=MAX_POINTS_DISTANCE).contains(&drawn));
    assert_eq!(cache[&(2, 3)], drawn);
    assert_eq!(cache.len(), 2);
}

#[test]
fn init_rand_distances_fills_a_symmetric_table() {
    for count in 0..12usize {
        let mut hierarchy = Hierarchy::new();
        hierarchy.populate(count);
        hierarchy.init_rand_distances();
        assert_eq!(hierarchy.objects.len(), count);
        assert_symmetric_and_complete(&hierarchy);
        for object in hierarchy.objects.values() {
            for distance in object.distances.values() {
                assert!((MIN_POINTS_DISTANCE..=MAX_POINTS_DISTANCE).contains(distance));
                assert_eq!((distance - MIN_POINTS_DISTANCE) % DISTANCE_BETWEEN_VALUES, 0);
            }
        }
    }
}

#[test]
fn init_rand_distances_draws_more_than_one_value() {
    let mut hierarchy = Hierarchy::new();
    hierarchy.populate(12);
    hierarchy.init_rand_distances();
    let mut seen: Vec<Distance> =
        hierarchy.objects.values().flat_map(|object| object.distances.values().copied()).collect();
    seen.sort();
    seen.dedup();
    assert!(seen.len() > 1);
}

#[test]
fn random_table_assembles_into_one_tree() {
    let mut hierarchy = Hierarchy::new();
    hierarchy.populate(9);
    hierarchy.init_rand_distances();
    hierarchy.assemble();
    assert_eq!(hierarchy.element_count, 17);
    let root = hierarchy.root().unwrap();
    assert_eq!(root.id, 17);
    let lines = root.tree_display();
    assert_eq!(lines.len(), 8);
    let mut ids: Vec<ElementId> = lines.iter().map(|line| line.id).collect();
    ids.sort();
    assert_eq!(ids, (10..=17).collect::<Vec<_>>());
    for line in &lines {
        assert!(line.first_id < line.id && line.second_id < line.id);
        assert_eq!(line.first_is_node, line.first_id > 9);
        assert_eq!(line.second_is_node, line.second_id > 9);
    }
}

#[test]
fn init_distances_with_asks_once_for_each_pair() {
    let asked = Cell::new(0usize);
    let mut hierarchy = Hierarchy::new();
    hierarchy.populate(5);
    hierarchy.init_distances_with(|a, b| {
        assert!(a < b);
        asked.set(asked.get() + 1);
        (a * 10 + b) as Distance
    });
    assert_eq!(asked.get(), 10);
    assert_symmetric_and_complete(&hierarchy);
    assert_eq!(distances_of(&hierarchy, 1), vec![(2, 12), (3, 13), (4, 14), (5, 15)]);
    assert_eq!(distances_of(&hierarchy, 4), vec![(1, 14), (2, 24), (3, 34), (5, 45)]);
}

#[test]
fn init_distances_with_keeps_one_answer_for_both_directions() {
    let next = Cell::new(0u64);
    let mut hierarchy = Hierarchy::new();
    hierarchy.populate(6);
    hierarchy.init_distances_with(|_, _| {
        next.set(next.get() + 7);
        next.get()
    });
    assert_symmetric_and_complete(&hierarchy);
    assert_eq!(hierarchy.validate(), Ok(()));
}

#[test]
fn object_init_distances_with_asks_for_what_the_cache_lacks() {
    let mut cache: BTreeMap<(ElementId, ElementId), Distance> = BTreeMap::new();
    cache.insert((2, 3), 90);
    let mut object = HierarchyObject::leaf(3);
    object.init_distances_with(&vec![1, 2, 3, 4], &mut cache, &|a, b| (100 * a + b) as Distance);
    assert_eq!(
        object.distances.iter().map(|(k, d)| (*k, *d)).collect::<Vec<_>>(),
        vec![(1, 103), (2, 90), (4, 304)]
    );
    assert_eq!(cache.len(), 3);
    assert_eq!(cache[&(1, 3)], 103);
    assert_eq!(cache[&(3, 4)], 304);
}

#[test]
fn validate_accepts_what_the_library_builds() {
    assert_eq!(Hierarchy::new().validate(), Ok(()));
    let mut hierarchy = seeded(&four_leaves_with_a_tie());
    assert_eq!(hierarchy.validate(), Ok(()));
    hierarchy.merge(1, 2);
    assert_eq!(hierarchy.validate(), Ok(()));
    hierarchy.assemble();
    assert_eq!(hierarchy.validate(), Ok(()));
    let mut single = Hierarchy::new();
    single.populate(1);
    assert_eq!(single.validate(), Ok(()));
}

#[test]
fn validate_finds_a_node_under_a_wrong_identifier() {
    let mut hierarchy = seeded(&three_leaves());
    hierarchy.element_count = 2;
    assert_eq!(hierarchy.validate(), Err(TableFault::Identifier { id: 3 }));
    let mut hierarchy = seeded(&three_leaves());
    hierarchy.objects.get_mut(&2).unwrap().id = 7;
    assert_eq!(hierarchy.validate(), Err(TableFault::Identifier { id: 2 }));
    let mut hierarchy = Hierarchy::new();
    hierarchy.objects.insert(0, HierarchyObject::leaf(0));
    hierarchy.element_count = 3;
    assert_eq!(hierarchy.validate(), Err(TableFault::Identifier { id: 0 }));
}

#[test]
fn validate_finds_a_tree_out_of_order() {
    let mut first = HierarchyObject::leaf(5);
    let second = HierarchyObject::leaf(2);
    first.distances.insert(2, 10);
    let mut hierarchy = Hierarchy::new();
    hierarchy.objects.insert(3, HierarchyObject::fold(3, first, second));
    hierarchy.element_count = 5;
    assert!(!hierarchy.objects[&3].is_ordered());
    assert_eq!(hierarchy.validate(), Err(TableFault::Identifier { id: 3 }));
}

#[test]
fn validate_finds_a_missing_distance() {
    let mut hierarchy = Hierarchy::new();
    hierarchy.populate(3);
    assert_eq!(hierarchy.validate(), Err(TableFault::Missing { first: 1, second: 2 }));
    let mut hierarchy = seeded(&three_leaves());
    hierarchy.objects.get_mut(&2).unwrap().distances.remove(&3);
    assert_eq!(hierarchy.validate(), Err(TableFault::Missing { first: 2, second: 3 }));
}

#[test]
fn validate_finds_a_stray_distance() {
    let mut hierarchy = seeded(&three_leaves());
    hierarchy.objects.get_mut(&1).unwrap().distances.insert(1, 0);
    assert_eq!(hierarchy.validate(), Err(TableFault::Stray { id: 1 }));
    let mut hierarchy = seeded(&three_leaves());
    hierarchy.objects.get_mut(&3).unwrap().distances.insert(9, 5);
    assert_eq!(hierarchy.validate(), Err(TableFault::Stray { id: 3 }));
}

#[test]
fn validate_finds_two_distances_for_one_pair() {
    let mut hierarchy = seeded(&three_leaves());
    hierarchy.objects.get_mut(&3).unwrap().distances.insert(2, 41);
    assert_eq!(hierarchy.validate(), Err(TableFault::Asymmetric { first: 2, second: 3 }));
}

#[test]
fn is_ordered_follows_the_merges() {
    let mut hierarchy = seeded(&four_leaves_with_a_tie());
    hierarchy.assemble();
    assert!(hierarchy.root().unwrap().is_ordered());
    assert!(HierarchyObject::leaf(4).is_ordered());
}

#[test]
fn try_assemble_runs_the_merge_loop() {
    let mut hierarchy = seeded(&three_leaves());
    assert_eq!(hierarchy.try_assemble(), Ok(()));
    assert_eq!(hierarchy.root().unwrap().id, 5);
    assert_eq!(hierarchy.try_assemble(), Ok(()));
    assert_eq!(hierarchy.root().unwrap().id, 5);
    assert_eq!(Hierarchy::new().try_assemble(), Ok(()));
}

#[test]
fn try_assemble_refuses_a_table_at_fault() {
    let mut hierarchy = seeded(&three_leaves());
    hierarchy.objects.get_mut(&1).unwrap().distances.insert(3, 51);
    assert_eq!(
        hierarchy.try_assemble(),
        Err(AssembleError::Fault(TableFault::Asymmetric { first: 1, second: 3 }))
    );
    assert_eq!(hierarchy.objects.len(), 3);
    assert_eq!(hierarchy.element_count, 3);
}

#[test]
fn try_assemble_refuses_to_run_out_of_identifiers() {
    let mut first = HierarchyObject::leaf(usize::MAX - 1);
    let mut second = HierarchyObject::leaf(usize::MAX);
    first.distances.insert(usize::MAX, 5);
    second.distances.insert(usize::MAX - 1, 5);
    let mut hierarchy = Hierarchy::new();
    hierarchy.objects.insert(first.id, first);
    hierarchy.objects.insert(second.id, second);
    hierarchy.element_count = usize::MAX;
    assert_eq!(hierarchy.validate(), Ok(()));
    assert_eq!(hierarchy.try_assemble(), Err(AssembleError::Overflow));
    assert_eq!(hierarchy.objects.len(), 2);
    hierarchy.objects.remove(&usize::MAX);
    hierarchy.objects.get_mut(&(usize::MAX - 1)).unwrap().distances.clear();
    assert_eq!(hierarchy.try_assemble(), Ok(()));
    assert_eq!(hierarchy.root().unwrap().id, usize::MAX - 1);
}

#[test]
fn distance_between_clusters_is_the_least_between_their_leaves() {
    let count = 7usize;
    let table: Vec<Vec<Distance>> = (0..count)
        .map(|i| {
            (0..count)
                .map(|j| if i == j { 0 } else { ((i + 1) * (j + 1) * 37 % 101 + 3) as u64 })
                .collect()
        })
        .collect();
    let mut hierarchy = seeded(&table);
    while let Some((a, b, _)) = hierarchy.find_closest_pair() {
        hierarchy.merge(a, b);
        for (first_id, first) in &hierarchy.objects {
            for (second_id, second) in &hierarchy.objects {
                if first_id == second_id {
                    continue;
                }
                let mut least = Distance::MAX;
                for u in leaves(first) {
                    for x in leaves(second) {
                        least = least.min(table[u - 1][x - 1]);
                    }
                }
                assert_eq!(first.distances[second_id], least);
            }
        }
    }
}

#[test]
fn root_holds_every_leaf_once() {
    for count in 1..10usize {
        let mut hierarchy = Hierarchy::new();
        hierarchy.populate(count);
        hierarchy.init_rand_distances();
        hierarchy.assemble();
        let mut all = leaves(hierarchy.root().unwrap());
        all.sort();
        assert_eq!(all, (1..=count).collect::<Vec<_>>());
        assert_eq!(hierarchy.root().unwrap().tree_display().len(), count - 1);
    }
}
