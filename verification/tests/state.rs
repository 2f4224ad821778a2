use kmeans_core::state::KmeansState;

#[test]
fn new_state() {
    let s = KmeansState::new(2, 3);
    assert_eq!(s.membership(), &vec![vec![0, 0, 0], vec![0, 0, 0]]);
    assert_eq!(s.rounds(), 0);
    assert!(!s.is_converged());
}

#[test]
fn round_without_settling_keeps_zero_membership() {
    let mut s = KmeansState::new(2, 2);
    let round = s.assign(&vec![1, 0]);
    assert_eq!(round, vec![vec![0, 1], vec![1, 0]]);
    s.finish_round(round, &vec![true, false]);
    assert!(!s.is_converged());
    assert_eq!(s.rounds(), 1);
    assert_eq!(s.membership(), &vec![vec![0, 0], vec![0, 0]]);
}

#[test]
fn settling_round_is_reported() {
    let mut s = KmeansState::new(3, 2);
    let r1 = s.assign(&vec![0, 0, 1]);
    s.finish_round(r1, &vec![false, false]);
    let r2 = s.assign(&vec![0, 1, 1]);
    s.finish_round(r2, &vec![true, true]);
    assert!(s.is_converged());
    assert_eq!(s.rounds(), 2);
    assert_eq!(s.membership(), &vec![vec![1, 0], vec![0, 1], vec![0, 1]]);
}

#[test]
fn no_centroids_never_settle() {
    let mut s = KmeansState::new(1, 0);
    s.finish_round(vec![vec![]], &vec![]);
    assert!(!s.is_converged());
    assert_eq!(s.rounds(), 1);
}
