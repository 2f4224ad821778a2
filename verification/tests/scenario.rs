use kmeans_core::assignment::{is_nan, nearest_centroid};
use kmeans_core::membership::{cluster_members, get_dem_groups};
use kmeans_core::quality::{group_sizes, numerator_terms};
use kmeans_core::state::KmeansState;

fn dist(a: (f64, f64), b: (f64, f64)) -> f64 {
    ((a.0 - b.0) * (a.0 - b.0) + (a.1 - b.1) * (a.1 - b.1)).sqrt()
}

/// Two well separated blobs with fixed starting centroids settle into the
/// two blobs, and the reported membership is the one of the settling round.
#[test]
fn two_blobs_settle() {
    let pts = vec![(0.0, 0.0), (0.0, 1.0), (1.0, 0.0), (10.0, 10.0), (10.0, 11.0), (11.0, 10.0)];
    let mut centroids = vec![(0.0, 0.5), (9.0, 9.0)];
    let mut state = KmeansState::new(pts.len(), centroids.len());
    let mut quality = 0.0;
    while !state.is_converged() {
        let mut nearest = Vec::new();
        for p in &pts {
            let bits: Vec<u64> = centroids.iter().map(|c| dist(*p, *c).to_bits()).collect();
            assert!(bits.iter().all(|b| !is_nan(*b)));
            nearest.push(nearest_centroid(&bits));
        }
        let round = state.assign(&nearest);
        let groups = get_dem_groups(&round);
        assert_eq!(groups, nearest);
        let sizes = group_sizes(&groups, centroids.len());
        let denum: f64 = pts.iter().zip(&groups).map(|(p, g)| dist(*p, centroids[*g])).sum();
        let num: f64 = numerator_terms(&sizes)
            .iter()
            .map(|(a, b, w)| dist(centroids[*a], centroids[*b]) * *w as f64)
            .sum();
        quality = num / denum;
        let mut close = Vec::new();
        for c in 0..centroids.len() {
            let (members, divisor) = cluster_members(&round, c);
            let sx: f64 = members.iter().map(|i| pts[*i].0).sum();
            let sy: f64 = members.iter().map(|i| pts[*i].1).sum();
            let mean = (sx / divisor as f64, sy / divisor as f64);
            close.push((centroids[c].0 - mean.0).abs() <= 10e-9 || (centroids[c].1 - mean.1).abs() <= 10e-9);
            centroids[c] = mean;
        }
        state.finish_round(round, &close);
        assert!(state.rounds() < 100);
    }
    assert_eq!(get_dem_groups(state.membership()), vec![0, 0, 0, 1, 1, 1]);
    assert!(quality > 0.0);
}
