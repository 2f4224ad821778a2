//! Integer core of a k-means clustering run: cluster membership matrices,
//! nearest-centroid selection over order keys, group sizes, the pairs that make
//! up the cluster-quality numerator, and the round-by-round convergence state.

pub mod membership;
pub mod assignment;
pub mod quality;
pub mod state;
pub mod laws;
pub mod bounds;
