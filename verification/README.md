# kmeans_core

The verified integer core of a small k-means clustering program over 2-D
points (price against fuel use of cars, read from a CSV file).

- `src/membership.rs`: membership matrices (one row per point, a `1` in the
  column of its centroid), reading each point's group back, and the members of
  a centroid with the divisor of their mean.
- `src/assignment.rs`: the nearest centroid of a point, from its distances as
  bit patterns of doubles ordered by an integer key.
- `src/bounds.rs`: the bounding box of the points, on the same bit patterns.
- `src/quality.rs`: group sizes and the centroid pairs of the quality ratio.
- `src/state.rs`: the state carried between rounds and the convergence rule.
- `src/laws.rs`: properties that relate these functions.

`app/` is the program itself: CSV reading, the floating-point distances and
means, random starting centroids, and plotting.
