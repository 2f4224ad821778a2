use kmeans_core::membership::{assign_memberships, cluster_members, get_dem_groups, zero_membership};
use kmeans_core::quality::group_sizes;

#[test]
fn groups_are_positions_of_first_one() {
    let p = vec![vec![0, 1, 0], vec![1, 0, 0], vec![0, 0, 1]];
    assert_eq!(get_dem_groups(&p), vec![1, 0, 2]);
}

#[test]
fn groups_take_the_first_of_several_ones() {
    let p = vec![vec![0, 1, 1], vec![2, 1, 1]];
    assert_eq!(get_dem_groups(&p), vec![1, 1]);
}

#[test]
fn groups_of_no_rows() {
    let p: Vec<Vec<i32>> = vec![];
    assert_eq!(get_dem_groups(&p), Vec::<usize>::new());
}

#[test]
fn zero_membership_shape() {
    let p = zero_membership(3, 2);
    assert_eq!(p, vec![vec![0, 0], vec![0, 0], vec![0, 0]]);
    assert_eq!(zero_membership(2, 0), vec![Vec::<i32>::new(), Vec::new()]);
}

#[test]
fn assign_marks_nearest_and_copies_the_rest() {
    let base = zero_membership(3, 3);
    let p = assign_memberships(&base, &vec![2, 0]);
    assert_eq!(p, vec![vec![0, 0, 1], vec![1, 0, 0], vec![0, 0, 0]]);
    assert_eq!(base, zero_membership(3, 3));
}

#[test]
fn marked_rows_read_back() {
    let nearest = vec![1, 0, 3, 3, 2];
    let p = assign_memberships(&zero_membership(5, 4), &nearest);
    assert_eq!(get_dem_groups(&p), nearest);
}

#[test]
fn members_and_divisor() {
    let p = vec![vec![1, 0], vec![0, 1], vec![1, 0], vec![0, -1]];
    assert_eq!(cluster_members(&p, 0), (vec![0, 2], 3));
    // any nonzero entry counts as membership
    assert_eq!(cluster_members(&p, 1), (vec![1, 3], 3));
}

#[test]
fn empty_cluster_divisor_is_one() {
    let p = vec![vec![1, 0], vec![1, 0]];
    assert_eq!(cluster_members(&p, 1), (vec![], 1));
}

#[test]
fn members_count_matches_group_size() {
    let nearest = vec![2, 0, 2, 1, 2];
    let p = assign_memberships(&zero_membership(5, 3), &nearest);
    let sizes = group_sizes(&get_dem_groups(&p), 3);
    for c in 0..3 {
        let (members, divisor) = cluster_members(&p, c);
        assert_eq!(members.len(), sizes[c]);
        assert_eq!(divisor, sizes[c] + 1);
        assert!(members.iter().all(|i| nearest[*i] == c));
    }
}
