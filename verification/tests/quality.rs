use kmeans_core::quality::{group_sizes, numerator_terms};

#[test]
fn sizes_count_points_per_group() {
    assert_eq!(group_sizes(&vec![1, 0, 1, 2, 1], 4), vec![1, 3, 1, 0]);
    assert_eq!(group_sizes(&vec![], 2), vec![0, 0]);
}

#[test]
fn sizes_add_up_to_points() {
    let groups = vec![0, 3, 3, 1, 0, 2, 3];
    let sizes = group_sizes(&groups, 5);
    assert_eq!(sizes.iter().sum::<usize>(), groups.len());
}

#[test]
fn terms_pair_each_centroid_with_later_ones() {
    assert_eq!(numerator_terms(&vec![2, 3, 1]), vec![(0, 1, 2), (0, 2, 2), (1, 2, 3)]);
    assert_eq!(numerator_terms(&vec![4]), vec![]);
    assert_eq!(numerator_terms(&vec![]), vec![]);
    assert_eq!(numerator_terms(&vec![1, 1, 1, 1]).len(), 6);
}
