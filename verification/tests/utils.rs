use clustering_labs::utils::{
    count_or_default, index_in, isize_in_range, rand_isize_in_range, rand_u64_in_range_with_distance,
    u64_in_range_with_distance, RandGet,
};

#[test]
fn isize_in_range_counts_off_from_min() {
    assert_eq!(isize_in_range(0, -3, 3), -3);
    assert_eq!(isize_in_range(6, -3, 3), 3);
    assert_eq!(isize_in_range(7, -3, 3), -3);
    assert_eq!(isize_in_range(12, 5, 5), 5);
    assert_eq!(isize_in_range(u64::MAX, isize::MIN, isize::MAX), isize::MAX);
    assert_eq!(isize_in_range(0, isize::MIN, isize::MAX), isize::MIN);
}

#[test]
fn rand_isize_in_range_stays_within_bounds() {
    for _ in 0..200 {
        let number = rand_isize_in_range(-2, 4);
        assert!((-2..=4).contains(&number));
    }
    assert_eq!(rand_isize_in_range(9, 9), 9);
}

#[test]
fn rand_isize_in_range_is_not_constant() {
    let first = rand_isize_in_range(isize::MIN, isize::MAX);
    assert!((0..64).any(|_| rand_isize_in_range(isize::MIN, isize::MAX) != first));
}

#[test]
fn u64_in_range_with_distance_walks_the_steps() {
    assert_eq!(u64_in_range_with_distance(0, 5, 50, 5), 5);
    assert_eq!(u64_in_range_with_distance(1, 5, 50, 5), 10);
    assert_eq!(u64_in_range_with_distance(9, 5, 50, 5), 50);
    assert_eq!(u64_in_range_with_distance(10, 5, 50, 5), 5);
    assert_eq!(u64_in_range_with_distance(1, 0, 10, 4), 4);
    assert_eq!(u64_in_range_with_distance(2, 0, 10, 4), 8);
    assert_eq!(u64_in_range_with_distance(3, 0, 10, 4), 0);
    assert_eq!(u64_in_range_with_distance(u64::MAX, 0, u64::MAX, 1), u64::MAX);
    assert_eq!(u64_in_range_with_distance(77, 8, 8, 0), 8);
    assert_eq!(u64_in_range_with_distance(77, 8, 20, 0), 8);
    assert_eq!(u64_in_range_with_distance(77, 8, 20, 12), 20);
}

#[test]
fn rand_u64_in_range_with_distance_lands_on_a_step() {
    for _ in 0..200 {
        let number = rand_u64_in_range_with_distance(5, 50, 5);
        assert!((5..=50).contains(&number));
        assert_eq!((number - 5) % 5, 0);
    }
}

#[test]
fn index_in_wraps_at_the_length() {
    assert_eq!(index_in(0, 3), 0);
    assert_eq!(index_in(5, 3), 2);
    assert_eq!(index_in(u64::MAX, 1), 0);
}

#[test]
fn rand_get_picks_an_element() {
    let empty: Vec<u8> = Vec::new();
    assert_eq!(empty.rand_get(), None);
    assert_eq!(empty.rand_index(), None);
    let values = vec![3u8, 5, 8];
    for _ in 0..50 {
        assert!(values.contains(values.rand_get().unwrap()));
        assert!(values.rand_index().unwrap() < 3);
    }
    assert_eq!(vec![7u8].rand_get(), Some(&7));
}

#[test]
fn rand_get_mut_hands_out_one_element() {
    let mut values = vec![1u8, 2, 3];
    *values.rand_get_mut().unwrap() = 9;
    assert_eq!(values.iter().filter(|value| **value == 9).count(), 1);
    assert_eq!(values.len(), 3);
    let mut empty: Vec<u8> = Vec::new();
    assert!(empty.rand_get_mut().is_none());
}

#[test]
fn count_or_default_takes_what_was_asked_for() {
    assert_eq!(count_or_default(Some(12), 5), 12);
    assert_eq!(count_or_default(Some(0), 5), 5);
    assert_eq!(count_or_default(None, 5), 5);
}
