# spatial_query

A spatial query engine over an arbitrary set of objects in any dimension,
with its core verified by Verus.

You describe your objects once and the library builds a bounding-volume
hierarchy over them; then you ask ray, shape-cast and overlap queries. Results
are fully determined: nearest selection and all-hits sorting go by the time of
impact in the IEEE total order, then by leaf index, so the tree answers exactly
as a linear scan does.

## Layout

- `src/` is the verified library. It is generic over the bounding-volume type
  and the hit payload: the tree topology, the median-split builder, the refit,
  the stack traversals, the naive scans, the hit order, the backend choice, the
  device-side buffer layout and the generator are proved against their
  contracts. The caller's geometry (box and ray maths in floating point)
  reaches it as closures over scalar bit patterns.
  - `tree.rs`: node storage, build, refit, structural read-out.
  - `traverse.rs`: nearest, all-hits and overlap traversals.
  - `bvh.rs`, `tlas.rs`: the single-level and two-level structures.
  - `naive.rs`: the linear-scan baseline.
  - `probe.rs`: what the traversals ask of the caller's closures.
  - `laws.rs`: properties that span queries and structures.
  - `hit.rs`, `order.rs`, `dispatch.rs`, `gpu.rs`, `rng.rs`, `stats.rs`,
    `filter.rs`: results and their order, backend choice, device layout,
    SplitMix64, statistics, filters.
- `app/` is the `f32` surface around it: points, boxes, rays, rigid
  transforms, the provider traits, the `wgpu` compute backend and the `glam`
  conversions.
- `tests/` exercise the library with the float geometry written alongside.

Times of impact are `f32` bit patterns ordered by their 32-bit total-order
keys, so there is no `f64` build. The viewport-lib adapter and the older
`wgpu` 27 device leg are not part of this crate.
