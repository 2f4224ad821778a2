use kmeans_core::assignment::{is_nan, key_of, nearest_centroid, MAX_FINITE_BITS};

fn bits(v: &[f64]) -> Vec<u64> {
    v.iter().map(|d| d.to_bits()).collect()
}

#[test]
fn nearest_is_first_least_distance() {
    assert_eq!(nearest_centroid(&bits(&[3.0, 1.0, 1.0, 2.0])), 1);
    assert_eq!(nearest_centroid(&bits(&[0.5])), 0);
    assert_eq!(nearest_centroid(&bits(&[7.0, 6.0, 5.5])), 2);
}

#[test]
fn nearest_without_finite_distance_is_zero() {
    assert_eq!(nearest_centroid(&bits(&[f64::INFINITY, f64::INFINITY])), 0);
    assert_eq!(nearest_centroid(&bits(&[f64::MAX, f64::INFINITY, f64::MAX])), 0);
    assert_eq!(nearest_centroid(&Vec::new()), 0);
}

#[test]
fn nearest_ignores_distances_at_the_bound() {
    assert_eq!(nearest_centroid(&bits(&[f64::MAX, 4.0])), 1);
}

#[test]
fn signed_zeros_tie() {
    assert_eq!(nearest_centroid(&bits(&[1.0, 0.0, -0.0])), 1);
    assert_eq!(nearest_centroid(&bits(&[1.0, -0.0, 0.0])), 1);
    assert_eq!(key_of((-0.0f64).to_bits()), key_of(0.0f64.to_bits()));
}

#[test]
fn keys_follow_double_order() {
    let values = [f64::NEG_INFINITY, -1e300, -2.5, -1.0, -1e-300, 0.0, 1e-300, 1.0, 2.5, f64::MAX, f64::INFINITY];
    for w in values.windows(2) {
        assert!(key_of(w[0].to_bits()) < key_of(w[1].to_bits()), "{} {}", w[0], w[1]);
    }
    assert_eq!(MAX_FINITE_BITS, f64::MAX.to_bits());
}

#[test]
fn nan_detection() {
    assert!(is_nan(f64::NAN.to_bits()));
    assert!(!is_nan(f64::INFINITY.to_bits()));
    assert!(!is_nan(1.0f64.to_bits()));
}
