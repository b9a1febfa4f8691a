//! Tests for the two-level tree: end-to-end hits, tree-vs-naive parity,
//! refit-vs-rebuild on moving and deforming scenes, the rebuild metric, and
//! shape casts and overlaps over transformed instances.
//!
//! The float geometry (points, boxes, rays, rigid transforms) lives here, with
//! the caller, and reaches the library as closures over scalar bit patterns.

use spatial_query::filter::QueryFilter;
use spatial_query::hit::Hit;
use spatial_query::naive;
use spatial_query::order::total_key_f32;
use spatial_query::rng::splitmix64;
use spatial_query::tlas::Tlas;
use spatial_query::tree::{Node, Tree};

type Scalar = f32;

/// A tiny deterministic RNG (SplitMix64, from the library).
struct Rng(u64);

impl Rng {
    fn new(seed: u64) -> Self {
        Rng(seed)
    }
    fn next_u64(&mut self) -> u64 {
        let (s, out) = splitmix64(self.0);
        self.0 = s;
        out
    }
    fn range(&mut self, lo: Scalar, hi: Scalar) -> Scalar {
        let u = (self.next_u64() >> 11) as Scalar / (1u64 << 53) as Scalar;
        lo + u * (hi - lo)
    }
    fn point<const D: usize>(&mut self, lo: Scalar, hi: Scalar) -> Point<D> {
        let mut a = [0.0; D];
        for x in a.iter_mut() {
            *x = self.range(lo, hi);
        }
        Point(a)
    }
}

#[derive(Clone, Copy, Debug, PartialEq)]
struct Point<const D: usize>([Scalar; D]);

impl<const D: usize> Point<D> {
    const ZERO: Self = Point([0.0; D]);
    fn splat(v: Scalar) -> Self {
        Point([v; D])
    }
    fn zip(self, o: Self, f: impl Fn(Scalar, Scalar) -> Scalar) -> Self {
        let mut out = self.0;
        for i in 0..D {
            out[i] = f(self.0[i], o.0[i]);
        }
        Point(out)
    }
    fn add(self, o: Self) -> Self {
        self.zip(o, |a, b| a + b)
    }
    fn sub(self, o: Self) -> Self {
        self.zip(o, |a, b| a - b)
    }
    fn scale(self, s: Scalar) -> Self {
        self.zip(self, |a, _| a * s)
    }
    fn min(self, o: Self) -> Self {
        self.zip(o, |a, b| a.min(b))
    }
    fn max(self, o: Self) -> Self {
        self.zip(o, |a, b| a.max(b))
    }
    fn dot(self, o: Self) -> Scalar {
        let mut acc = 0.0;
        for i in 0..D {
            acc += self.0[i] * o.0[i];
        }
        acc
    }
    fn length_squared(self) -> Scalar {
        self.dot(self)
    }
    fn normalize_or_zero(self) -> Self {
        let len = self.length_squared().sqrt();
        if len > Scalar::EPSILON {
            self.scale(1.0 / len)
        } else {
            Self::ZERO
        }
    }
}

#[derive(Clone, Copy, Debug, PartialEq)]
struct Aabb<const D: usize> {
    min: Point<D>,
    max: Point<D>,
}

impl<const D: usize> Aabb<D> {
    const EMPTY: Self = Aabb { min: Point([Scalar::INFINITY; D]), max: Point([Scalar::NEG_INFINITY; D]) };
    fn new(min: Point<D>, max: Point<D>) -> Self {
        Aabb { min, max }
    }
    fn union(self, o: Self) -> Self {
        Aabb { min: self.min.min(o.min), max: self.max.max(o.max) }
    }
    fn union_point(self, p: Point<D>) -> Self {
        Aabb { min: self.min.min(p), max: self.max.max(p) }
    }
    fn center(self) -> Point<D> {
        self.min.add(self.max).scale(0.5)
    }
    fn extents(self) -> Point<D> {
        self.max.sub(self.min)
    }
    fn longest_axis(self) -> usize {
        let e = self.extents();
        let mut best = 0;
        for i in 1..D {
            if e.0[i] > e.0[best] {
                best = i;
            }
        }
        best
    }
    fn half_surface(self) -> Scalar {
        let e = self.extents();
        let mut sum = 0.0;
        for i in 0..D {
            let mut prod = 1.0;
            for j in 0..D {
                if j != i {
                    prod *= e.0[j];
                }
            }
            sum += prod;
        }
        sum
    }
    fn ray_intersect(self, ray: &Ray<D>, max_toi: Scalar) -> Option<(Scalar, Scalar)> {
        let mut t_min: Scalar = 0.0;
        let mut t_max: Scalar = max_toi;
        for i in 0..D {
            let o = ray.origin.0[i];
            let d = ray.dir.0[i];
            if d.abs() < Scalar::EPSILON {
                if o < self.min.0[i] || o > self.max.0[i] {
                    return None;
                }
            } else {
                let inv = 1.0 / d;
                let mut t1 = (self.min.0[i] - o) * inv;
                let mut t2 = (self.max.0[i] - o) * inv;
                if t1 > t2 {
                    core::mem::swap(&mut t1, &mut t2);
                }
                if t1 > t_min {
                    t_min = t1;
                }
                if t2 < t_max {
                    t_max = t2;
                }
                if t_min > t_max {
                    return None;
                }
            }
        }
        Some((t_min, t_max))
    }
}

#[derive(Clone, Copy, Debug)]
struct Ray<const D: usize> {
    origin: Point<D>,
    dir: Point<D>,
}

impl<const D: usize> Ray<D> {
    fn new(origin: Point<D>, dir: Point<D>) -> Self {
        Ray { origin, dir: dir.normalize_or_zero() }
    }
    fn at(&self, t: Scalar) -> Point<D> {
        self.origin.add(self.dir.scale(t))
    }
}

/// What a provider's narrow test reports for one leaf.
#[derive(Clone, Copy, Debug)]
struct LeafHit<const D: usize, S> {
    toi: Scalar,
    normal: Point<D>,
    sub_object: Option<S>,
}


impl<const D: usize> Aabb<D> {
    fn intersects(self, o: Self) -> bool {
        for i in 0..D {
            if self.min.0[i] > o.max.0[i] || self.max.0[i] < o.min.0[i] {
                return false;
            }
        }
        true
    }
}

impl<const D: usize> Ray<D> {
    fn new_unnormalized(origin: Point<D>, dir: Point<D>) -> Self {
        Ray { origin, dir }
    }
}

impl<const D: usize> Point<D> {
    fn neg(self) -> Self {
        self.scale(-1.0)
    }
    fn length(self) -> Scalar {
        self.length_squared().sqrt()
    }
}

/// A rigid transform: an orthonormal rotation followed by a translation.
#[derive(Clone, Copy, Debug)]
struct Isometry<const D: usize> {
    rotation: [[Scalar; D]; D],
    translation: Point<D>,
}

impl<const D: usize> Isometry<D> {
    fn identity() -> Self {
        let mut rotation = [[0.0; D]; D];
        for i in 0..D {
            rotation[i][i] = 1.0;
        }
        Isometry { rotation, translation: Point::ZERO }
    }
    fn new(rotation: [[Scalar; D]; D], translation: Point<D>) -> Self {
        Isometry { rotation, translation }
    }
    fn from_translation(translation: Point<D>) -> Self {
        Isometry { translation, ..Self::identity() }
    }
    fn rotate(&self, v: Point<D>) -> Point<D> {
        let mut out = [0.0; D];
        for i in 0..D {
            let mut acc = 0.0;
            for j in 0..D {
                acc += self.rotation[i][j] * v.0[j];
            }
            out[i] = acc;
        }
        Point(out)
    }
    fn rotate_transpose(&self, v: Point<D>) -> Point<D> {
        let mut out = [0.0; D];
        for i in 0..D {
            let mut acc = 0.0;
            for j in 0..D {
                acc += self.rotation[j][i] * v.0[j];
            }
            out[i] = acc;
        }
        Point(out)
    }
    fn transform_point(&self, p: Point<D>) -> Point<D> {
        self.rotate(p).add(self.translation)
    }
    fn transform_vector(&self, v: Point<D>) -> Point<D> {
        self.rotate(v)
    }
    fn inverse_transform_point(&self, p: Point<D>) -> Point<D> {
        self.rotate_transpose(p.sub(self.translation))
    }
    fn inverse_transform_vector(&self, v: Point<D>) -> Point<D> {
        self.rotate_transpose(v)
    }
    fn transform_aabb(&self, local: Aabb<D>) -> Aabb<D> {
        let center = self.transform_point(local.center());
        let h = local.extents().scale(0.5);
        let mut world_h = [0.0; D];
        for i in 0..D {
            let mut acc = 0.0;
            for j in 0..D {
                acc += self.rotation[i][j].abs() * h.0[j];
            }
            world_h[i] = acc;
        }
        let world_h = Point(world_h);
        Aabb::new(center.sub(world_h), center.add(world_h))
    }
}

/// A rotation by `angle` in the plane of axes `a` and `b`.
fn plane_rotation<const D: usize>(a: usize, b: usize, angle: Scalar) -> [[Scalar; D]; D] {
    let mut r = [[0.0; D]; D];
    for i in 0..D {
        r[i][i] = 1.0;
    }
    let (sin, cos) = angle.sin_cos();
    r[a][a] = cos;
    r[a][b] = -sin;
    r[b][a] = sin;
    r[b][b] = cos;
    r
}

/// A probe box swept along a direction.
#[derive(Clone, Copy, Debug)]
struct ShapeCast<const D: usize> {
    origin: Point<D>,
    dir: Point<D>,
    aabb: Aabb<D>,
}

impl<const D: usize> ShapeCast<D> {
    fn new(origin: Point<D>, dir: Point<D>, aabb: Aabb<D>) -> Self {
        ShapeCast { origin, dir: dir.normalize_or_zero(), aabb }
    }
    fn at(&self, t: Scalar) -> Point<D> {
        self.origin.add(self.dir.scale(t))
    }
    /// The conservative broad phase: a ray-slab test against the target grown
    /// by the probe box.
    fn broadphase(&self, target: Aabb<D>, max_toi: Scalar) -> Option<(Scalar, Scalar)> {
        let grown = Aabb::new(target.min.sub(self.aabb.max), target.max.sub(self.aabb.min));
        grown.ray_intersect(&Ray::new_unnormalized(self.origin, self.dir), max_toi)
    }
}

/// A set of transformed instances.
trait Instanced<const D: usize> {
    type Sub: Copy;
    fn instance_count(&self) -> usize;
    fn transform(&self, i: usize) -> Isometry<D>;
    fn local_aabb(&self, i: usize) -> Aabb<D>;
    fn test_ray_local(&self, i: usize, ray: &Ray<D>, max_toi: Scalar) -> Option<LeafHit<D, Self::Sub>>;
    fn test_shape_cast(&self, _i: usize, _cast: &ShapeCast<D>, _max_toi: Scalar) -> Option<LeafHit<D, Self::Sub>> {
        None
    }
    fn test_overlap(&self, _i: usize, _region: &Aabb<D>) -> bool {
        true
    }
    fn accepts(&self, _i: usize, _filter: &QueryFilter) -> bool {
        true
    }
}

/// A hit as a caller reads it.
#[derive(Clone, Copy, Debug)]
struct Found<const D: usize, S> {
    leaf: usize,
    time_of_impact: Scalar,
    point: Point<D>,
    normal: Point<D>,
    sub_object: Option<S>,
}

fn world_aabbs<const D: usize, S: Instanced<D>>(scene: &S) -> Vec<Aabb<D>> {
    (0..scene.instance_count()).map(|i| scene.transform(i).transform_aabb(scene.local_aabb(i))).collect()
}

/// The interior-surface quality metric over a node array.
fn interior_surface_sum<const D: usize>(nodes: &[Node<Aabb<D>>]) -> Scalar {
    nodes.iter().filter(|n| !n.is_leaf()).map(|n| n.bounds.half_surface()).sum()
}

fn quality<const D: usize>(t: &Tree<Aabb<D>>) -> Scalar {
    interior_surface_sum(t.nodes())
}

fn union<const D: usize>(a: Aabb<D>, b: Aabb<D>) -> Aabb<D> {
    a.union(b)
}

/// Median-split build over the instances' world bounds.
fn build_tlas<const D: usize, S: Instanced<D>>(scene: &S) -> Tlas<Aabb<D>, Scalar> {
    let bounds = world_aabbs(scene);
    let centroids: Vec<Point<D>> = bounds.iter().map(|b| b.center()).collect();
    let keys: Vec<Vec<u32>> =
        (0..D).map(|a| centroids.iter().map(|c| total_key_f32(c.0[a].to_bits())).collect()).collect();
    let split = |idx: &Vec<u32>, s: usize, e: usize| -> Option<usize> {
        let mut cb = Aabb::<D>::EMPTY;
        for &p in &idx[s..e] {
            cb = cb.union_point(centroids[p as usize]);
        }
        let axis = cb.longest_axis();
        if cb.extents().0[axis] <= Scalar::EPSILON {
            None
        } else {
            Some(axis)
        }
    };
    Tlas::build(bounds, &keys, &split, Aabb::EMPTY, &union::<D>, &quality::<D>)
}

fn refit_tlas<const D: usize, S: Instanced<D>>(tlas: &mut Tlas<Aabb<D>, Scalar>, scene: &S) {
    let world_of = |i: usize| scene.transform(i).transform_aabb(scene.local_aabb(i));
    tlas.refit(&world_of, Aabb::EMPTY, &union::<D>);
}

fn needs_rebuild<const D: usize>(tlas: &Tlas<Aabb<D>, Scalar>, factor: Scalar) -> bool {
    let baseline = tlas.baseline();
    baseline > 0.0 && quality(tlas.tree()) > factor * baseline
}

/// Move the world ray into instance `i`'s local space, test it there, and lift
/// the normal back to world.
fn test_instance<const D: usize, S: Instanced<D>>(
    scene: &S,
    i: usize,
    ray: &Ray<D>,
    max_toi: Scalar,
) -> Option<(u32, (Point<D>, Option<S::Sub>))> {
    let iso = scene.transform(i);
    let local = Ray::new_unnormalized(iso.inverse_transform_point(ray.origin), iso.inverse_transform_vector(ray.dir));
    let lh = scene.test_ray_local(i, &local, max_toi)?;
    Some((lh.toi.to_bits(), (iso.transform_vector(lh.normal), lh.sub_object)))
}

fn lift<const D: usize, S: Copy>(at: Point<D>, dir: Point<D>, h: Hit<(Point<D>, Option<S>)>) -> Found<D, S> {
    let t = f32::from_bits(h.toi);
    Found { leaf: h.leaf, time_of_impact: t, point: at.add(dir.scale(t)), normal: h.payload.0, sub_object: h.payload.1 }
}

fn tlas_nearest<const D: usize, S: Instanced<D>>(
    tlas: &Tlas<Aabb<D>, Scalar>,
    scene: &S,
    ray: &Ray<D>,
    max_toi: Scalar,
    filter: &QueryFilter,
) -> Option<Found<D, S::Sub>> {
    let node_test = |b: Aabb<D>, lim: u32| {
        let l = f32::from_bits(lim);
        matches!(b.ray_intersect(ray, l), Some((t_enter, _)) if t_enter <= l)
    };
    let accepts = |i: usize| scene.accepts(i, filter);
    let leaf_test = |i: usize, lim: u32| test_instance(scene, i, ray, f32::from_bits(lim));
    tlas.raycast_nearest(max_toi.to_bits(), &node_test, &accepts, &leaf_test).map(|h| lift(ray.origin, ray.dir, h))
}

fn tlas_all<const D: usize, S: Instanced<D>>(
    tlas: &Tlas<Aabb<D>, Scalar>,
    scene: &S,
    ray: &Ray<D>,
    max_toi: Scalar,
    filter: &QueryFilter,
) -> Vec<Found<D, S::Sub>> {
    let node_test = |b: Aabb<D>, lim: u32| b.ray_intersect(ray, f32::from_bits(lim)).is_some();
    let accepts = |i: usize| scene.accepts(i, filter);
    let leaf_test = |i: usize, lim: u32| test_instance(scene, i, ray, f32::from_bits(lim));
    tlas.raycast_all(max_toi.to_bits(), &node_test, &accepts, &leaf_test)
        .into_iter()
        .map(|h| lift(ray.origin, ray.dir, h))
        .collect()
}

fn cast_test<const D: usize, S: Instanced<D>>(
    scene: &S,
    i: usize,
    cast: &ShapeCast<D>,
    max_toi: Scalar,
) -> Option<(u32, (Point<D>, Option<S::Sub>))> {
    scene.test_shape_cast(i, cast, max_toi).map(|lh| (lh.toi.to_bits(), (lh.normal, lh.sub_object)))
}

fn tlas_cast_nearest<const D: usize, S: Instanced<D>>(
    tlas: &Tlas<Aabb<D>, Scalar>,
    scene: &S,
    cast: &ShapeCast<D>,
    max_toi: Scalar,
    filter: &QueryFilter,
) -> Option<Found<D, S::Sub>> {
    let node_test = |b: Aabb<D>, lim: u32| {
        let l = f32::from_bits(lim);
        matches!(cast.broadphase(b, l), Some((t_enter, _)) if t_enter <= l)
    };
    let accepts = |i: usize| scene.accepts(i, filter);
    let leaf_test = |i: usize, lim: u32| cast_test(scene, i, cast, f32::from_bits(lim));
    tlas.shapecast_nearest(max_toi.to_bits(), &node_test, &accepts, &leaf_test).map(|h| lift(cast.origin, cast.dir, h))
}

fn tlas_cast_all<const D: usize, S: Instanced<D>>(
    tlas: &Tlas<Aabb<D>, Scalar>,
    scene: &S,
    cast: &ShapeCast<D>,
    max_toi: Scalar,
    filter: &QueryFilter,
) -> Vec<Found<D, S::Sub>> {
    let node_test = |b: Aabb<D>, lim: u32| cast.broadphase(b, f32::from_bits(lim)).is_some();
    let accepts = |i: usize| scene.accepts(i, filter);
    let leaf_test = |i: usize, lim: u32| cast_test(scene, i, cast, f32::from_bits(lim));
    tlas.shapecast_all(max_toi.to_bits(), &node_test, &accepts, &leaf_test)
        .into_iter()
        .map(|h| lift(cast.origin, cast.dir, h))
        .collect()
}

fn tlas_overlap<const D: usize, S: Instanced<D>>(
    tlas: &Tlas<Aabb<D>, Scalar>,
    scene: &S,
    region: &Aabb<D>,
    filter: &QueryFilter,
) -> Vec<usize> {
    let region_test = |b: Aabb<D>| b.intersects(*region);
    let accepts = |i: usize| scene.accepts(i, filter);
    let overlap_test = |i: usize| if scene.test_overlap(i, region) { Some(i) } else { None };
    tlas.overlap(&region_test, &accepts, &overlap_test).iter().map(|o| {
        assert_eq!(o.id, o.leaf);
        o.leaf
    }).collect()
}

// ---------------------------------------------------------------------------
// An oriented-box instance provider.
// ---------------------------------------------------------------------------

struct OrientedBoxes<const D: usize> {
    transforms: Vec<Isometry<D>>,
    halves: Vec<Point<D>>,
}

impl<const D: usize> Instanced<D> for OrientedBoxes<D> {
    type Sub = ();
    fn instance_count(&self) -> usize {
        self.transforms.len()
    }
    fn transform(&self, i: usize) -> Isometry<D> {
        self.transforms[i]
    }
    fn local_aabb(&self, i: usize) -> Aabb<D> {
        Aabb::new(self.halves[i].neg(), self.halves[i])
    }
    fn test_ray_local(&self, i: usize, ray: &Ray<D>, max_toi: Scalar) -> Option<LeafHit<D, ()>> {
        ray_local_box(ray, self.halves[i], max_toi)
    }
}

/// Ray against a local axis-aligned box `[-half, half]`: the entry distance and
/// the outward face normal, or `None`.
fn ray_local_box<const D: usize>(ray: &Ray<D>, half: Point<D>, max_toi: Scalar) -> Option<LeafHit<D, ()>> {
    let mut t_min: Scalar = 0.0;
    let mut t_max: Scalar = max_toi;
    let mut axis: Option<usize> = None;
    for i in 0..D {
        let o = ray.origin.0[i];
        let d = ray.dir.0[i];
        if d.abs() < 1.0e-9 {
            if o < -half.0[i] || o > half.0[i] {
                return None;
            }
        } else {
            let inv = 1.0 / d;
            let mut t1 = (-half.0[i] - o) * inv;
            let mut t2 = (half.0[i] - o) * inv;
            if t1 > t2 {
                core::mem::swap(&mut t1, &mut t2);
            }
            if t1 > t_min {
                t_min = t1;
                axis = Some(i);
            }
            if t2 < t_max {
                t_max = t2;
            }
            if t_min > t_max {
                return None;
            }
        }
    }
    let axis = match axis {
        Some(a) if t_min > 1.0e-6 && t_min <= max_toi => a,
        _ => return None,
    };
    let sign = if ray.dir.0[axis] > 0.0 { -1.0 } else { 1.0 };
    let mut n = [0.0; D];
    n[axis] = sign;
    Some(LeafHit { toi: t_min, normal: Point(n), sub_object: None })
}

fn random_boxes<const D: usize>(rng: &mut Rng, n: usize) -> OrientedBoxes<D> {
    let mut transforms = Vec::with_capacity(n);
    let mut halves = Vec::with_capacity(n);
    for _ in 0..n {
        let t = rng.point::<D>(-40.0, 40.0);
        let a = (rng.next_u64() as usize) % D;
        let mut b = (rng.next_u64() as usize) % D;
        if b == a {
            b = (b + 1) % D;
        }
        let rot = plane_rotation::<D>(a, b, rng.range(0.0, std::f32::consts::TAU));
        transforms.push(Isometry::new(rot, t));
        halves.push(rng.point::<D>(0.5, 2.5).max(Point::splat(0.5)));
    }
    OrientedBoxes { transforms, halves }
}

/// A ground-truth scan over all instances, with the tree's tie-break.
fn naive_nearest<const D: usize, S: Instanced<D>>(scene: &S, ray: &Ray<D>, max_toi: Scalar) -> Option<(usize, Scalar)> {
    let mut best: Option<(Scalar, usize)> = None;
    for i in 0..scene.instance_count() {
        let iso = scene.transform(i);
        let local = Ray::new_unnormalized(iso.inverse_transform_point(ray.origin), iso.inverse_transform_vector(ray.dir));
        if let Some(lh) = scene.test_ray_local(i, &local, max_toi) {
            let key = (lh.toi, i);
            if best.is_none_or(|b| key < b) {
                best = Some(key);
            }
        }
    }
    best.map(|(t, i)| (i, t))
}

fn naive_all<const D: usize, S: Instanced<D>>(scene: &S, ray: &Ray<D>, max_toi: Scalar) -> Vec<(usize, Scalar)> {
    let mut hits = Vec::new();
    for i in 0..scene.instance_count() {
        let iso = scene.transform(i);
        let local = Ray::new_unnormalized(iso.inverse_transform_point(ray.origin), iso.inverse_transform_vector(ray.dir));
        if let Some(lh) = scene.test_ray_local(i, &local, max_toi) {
            hits.push((i, lh.toi));
        }
    }
    hits.sort_by(|a, b| a.1.total_cmp(&b.1).then(a.0.cmp(&b.0)));
    hits
}

fn assert_tree_matches_naive<const D: usize>(scene: &OrientedBoxes<D>, ray: &Ray<D>, max_toi: Scalar) {
    let tlas = build_tlas(scene);
    let filter = QueryFilter::default();

    match (naive_nearest(scene, ray, max_toi), tlas_nearest(&tlas, scene, ray, max_toi, &filter)) {
        (None, None) => {}
        (Some((li, lt)), Some(h)) => {
            assert_eq!(li, h.leaf, "nearest instance");
            assert_eq!(lt, h.time_of_impact, "nearest toi");
        }
        (a, b) => panic!("nearest presence mismatch: {} vs {}", a.is_some(), b.is_some()),
    }

    let na = naive_all(scene, ray, max_toi);
    let ta = tlas_all(&tlas, scene, ray, max_toi, &filter);
    assert_eq!(na.len(), ta.len(), "all-hits count");
    for (x, y) in na.iter().zip(ta.iter()) {
        assert_eq!(x.0, y.leaf, "all-hits order");
        assert_eq!(x.1, y.time_of_impact, "all-hits toi");
    }
}

#[test]
fn end_to_end_hit_point_and_normal() {
    // One unit box at x = 5, no rotation. A ray from the origin along +x enters
    // the near face at x = 4 with an outward normal of -x.
    let scene = OrientedBoxes::<3> {
        transforms: vec![Isometry::from_translation(Point([5.0, 0.0, 0.0]))],
        halves: vec![Point([1.0, 1.0, 1.0])],
    };
    let tlas = build_tlas(&scene);
    let ray = Ray::new(Point([0.0, 0.0, 0.0]), Point([1.0, 0.0, 0.0]));
    let hit = tlas_nearest(&tlas, &scene, &ray, 100.0, &QueryFilter::default()).unwrap();
    assert_eq!(hit.leaf, 0);
    assert!((hit.time_of_impact - 4.0).abs() < 1e-4);
    assert!((hit.point.0[0] - 4.0).abs() < 1e-4);
    assert!((hit.normal.0[0] - -1.0).abs() < 1e-4);
}

#[test]
fn rotated_instance_reports_world_normal() {
    // A box turned a quarter turn in x-y: its local +y face now faces world -x.
    let rot = plane_rotation::<3>(0, 1, std::f32::consts::FRAC_PI_2);
    let scene = OrientedBoxes::<3> {
        transforms: vec![Isometry::new(rot, Point([5.0, 0.0, 0.0]))],
        halves: vec![Point([2.0, 1.0, 1.0])],
    };
    let tlas = build_tlas(&scene);
    let ray = Ray::new(Point([0.0, 0.0, 0.0]), Point([1.0, 0.0, 0.0]));
    let hit = tlas_nearest(&tlas, &scene, &ray, 100.0, &QueryFilter::default()).unwrap();
    assert!((hit.time_of_impact - 4.0).abs() < 1e-4, "toi {}", hit.time_of_impact);
    assert!((hit.normal.0[0] + 1.0).abs() < 1e-4, "normal {:?}", hit.normal);
    assert_eq!(tlas.world_aabbs().len(), 1);
}

#[test]
fn tlas_matches_naive_3d() {
    let mut rng = Rng::new(0x7ABC_1234);
    for _ in 0..200 {
        let scene = random_boxes::<3>(&mut rng, 64);
        let ray = Ray::new(rng.point::<3>(-60.0, 60.0), rng.point::<3>(-1.0, 1.0));
        if ray.dir == Point::<3>::ZERO {
            continue;
        }
        assert_tree_matches_naive(&scene, &ray, 500.0);
    }
}

#[test]
fn tlas_matches_naive_2d() {
    let mut rng = Rng::new(0x2020_2020);
    for _ in 0..200 {
        let scene = random_boxes::<2>(&mut rng, 48);
        let ray = Ray::new(rng.point::<2>(-60.0, 60.0), rng.point::<2>(-1.0, 1.0));
        if ray.dir == Point::<2>::ZERO {
            continue;
        }
        assert_tree_matches_naive(&scene, &ray, 500.0);
    }
}

#[test]
fn refit_matches_rebuild_when_instances_move() {
    let mut rng = Rng::new(0xF00D_5EED);
    let mut scene = random_boxes::<3>(&mut rng, 200);
    let mut tlas = build_tlas(&scene);
    let filter = QueryFilter::default();

    for frame in 0..10 {
        // Move every instance and deform a few, then refit rather than rebuild.
        for i in 0..scene.transforms.len() {
            let d = rng.point::<3>(-1.5, 1.5);
            scene.transforms[i].translation = scene.transforms[i].translation.add(d);
            if i % 7 == 0 {
                scene.halves[i] = scene.halves[i].scale(1.05);
            }
        }
        refit_tlas(&mut tlas, &scene);
        let rebuilt = build_tlas(&scene);
        assert_eq!(tlas.world_aabbs(), &world_aabbs(&scene));

        for _ in 0..40 {
            let ray = Ray::new(rng.point::<3>(-60.0, 60.0), rng.point::<3>(-1.0, 1.0));
            if ray.dir == Point::<3>::ZERO {
                continue;
            }
            let a = tlas_nearest(&tlas, &scene, &ray, 500.0, &filter);
            let b = tlas_nearest(&rebuilt, &scene, &ray, 500.0, &filter);
            let n = naive_nearest(&scene, &ray, 500.0);
            let key = |h: &Found<3, ()>| (h.leaf, h.time_of_impact);
            assert_eq!(a.as_ref().map(key), b.as_ref().map(key), "refit vs rebuild, frame {frame}");
            assert_eq!(a.as_ref().map(|h| (h.leaf, h.time_of_impact)), n, "refit vs naive, frame {frame}");
        }
    }
}

#[test]
fn needs_rebuild_triggers_after_spreading_instances() {
    let mut rng = Rng::new(0xCAFE_1111);
    // Start tightly clustered so the initial tree is high quality.
    let n = 128;
    let scene0 = OrientedBoxes::<3> {
        transforms: (0..n).map(|_| Isometry::from_translation(rng.point::<3>(-2.0, 2.0))).collect(),
        halves: (0..n).map(|_| Point([0.5, 0.5, 0.5])).collect(),
    };
    let mut tlas = build_tlas(&scene0);
    assert!(!needs_rebuild(&tlas, 2.0), "fresh tree should not want a rebuild");

    // Fling the instances far apart without rebuilding.
    let mut scene = scene0;
    for i in 0..n {
        scene.transforms[i].translation = rng.point::<3>(-500.0, 500.0);
    }
    refit_tlas(&mut tlas, &scene);
    assert!(needs_rebuild(&tlas, 2.0), "spread-out refit tree should want a rebuild");
}

#[test]
fn refit_keeps_the_baseline_and_topology() {
    let mut rng = Rng::new(0x0DD_BA11);
    let mut scene = random_boxes::<3>(&mut rng, 40);
    let mut tlas = build_tlas(&scene);
    let baseline = tlas.baseline();
    assert_eq!(baseline, quality(tlas.tree()));
    let shape: Vec<(u32, u32, u32)> = tlas.tree().nodes().iter().map(|n| (n.child_a, n.child_b, n.prim_count)).collect();
    for t in scene.transforms.iter_mut() {
        t.translation = t.translation.add(Point([3.0, -2.0, 1.0]));
    }
    refit_tlas(&mut tlas, &scene);
    assert_eq!(tlas.baseline(), baseline);
    let after: Vec<(u32, u32, u32)> = tlas.tree().nodes().iter().map(|n| (n.child_a, n.child_b, n.prim_count)).collect();
    assert_eq!(shape, after);
    assert_eq!(tlas.node_count(), shape.len());
    let st = tlas.stats(quality(tlas.tree()));
    assert_eq!(st.prim_count, 40);
    assert_eq!(st.node_count, tlas.node_count());
    assert_eq!(2 * st.leaf_count, st.node_count + 1);
    assert!(st.quality > 0.0);
}

#[test]
fn empty_tlas_answers_nothing() {
    let scene = OrientedBoxes::<3> { transforms: vec![], halves: vec![] };
    let tlas = build_tlas(&scene);
    let ray = Ray::new(Point([0.0, 0.0, 0.0]), Point([1.0, 0.0, 0.0]));
    let filter = QueryFilter::default();
    assert_eq!(tlas.node_count(), 0);
    assert!(tlas_nearest(&tlas, &scene, &ray, 100.0, &filter).is_none());
    assert!(tlas_all(&tlas, &scene, &ray, 100.0, &filter).is_empty());
    assert!(!needs_rebuild(&tlas, 2.0));
}

// ---------------------------------------------------------------------------
// Shape casts and overlaps over ball instances.
// ---------------------------------------------------------------------------

const PROBE_RADIUS: Scalar = 0.75;

fn point_to_aabb(p: Point<3>, min: Point<3>, max: Point<3>) -> Scalar {
    let mut d2 = 0.0;
    for i in 0..3 {
        let v = if p.0[i] < min.0[i] {
            min.0[i] - p.0[i]
        } else if p.0[i] > max.0[i] {
            p.0[i] - max.0[i]
        } else {
            0.0
        };
        d2 += v * v;
    }
    d2.sqrt()
}

fn ray_ball(ray: &Ray<3>, center: Point<3>, radius: Scalar, max_toi: Scalar) -> Option<(Scalar, Point<3>)> {
    let oc = ray.origin.sub(center);
    let b = oc.dot(ray.dir);
    let c = oc.length_squared() - radius * radius;
    let disc = b * b - c;
    if disc < 0.0 {
        return None;
    }
    let sq = disc.sqrt();
    let mut t = -b - sq;
    if t < 0.0 {
        t = -b + sq;
    }
    if t < 0.0 || t > max_toi {
        return None;
    }
    Some((t, ray.at(t).sub(center).normalize_or_zero()))
}

fn ball_cast(origin: Point<3>, dir: Point<3>) -> ShapeCast<3> {
    ShapeCast::new(origin, dir, Aabb::new(Point::splat(-PROBE_RADIUS), Point::splat(PROBE_RADIUS)))
}

/// A provider-defined sub-object identity.
#[derive(Clone, Copy, PartialEq, Eq, Debug)]
struct Face(u32);

fn face_of(leaf: usize) -> Face {
    Face(leaf as u32 * 10 + 1)
}

/// Ball instances: rotation does not move a ball, so they are a clean case for
/// world-space shape casts and overlaps.
struct BallInstances {
    transforms: Vec<Isometry<3>>,
    radii: Vec<Scalar>,
}

impl BallInstances {
    fn random(rng: &mut Rng, n: usize) -> Self {
        let transforms = (0..n).map(|_| Isometry::from_translation(rng.point::<3>(-30.0, 30.0))).collect();
        let radii = (0..n).map(|_| rng.range(0.5, 2.0)).collect();
        BallInstances { transforms, radii }
    }
    fn center(&self, i: usize) -> Point<3> {
        self.transforms[i].translation
    }
}

impl Instanced<3> for BallInstances {
    type Sub = Face;
    fn instance_count(&self) -> usize {
        self.transforms.len()
    }
    fn transform(&self, i: usize) -> Isometry<3> {
        self.transforms[i]
    }
    fn local_aabb(&self, i: usize) -> Aabb<3> {
        Aabb::new(Point::splat(-self.radii[i]), Point::splat(self.radii[i]))
    }
    fn test_ray_local(&self, i: usize, ray: &Ray<3>, max_toi: Scalar) -> Option<LeafHit<3, Face>> {
        let (t, n) = ray_ball(ray, Point::<3>::ZERO, self.radii[i], max_toi)?;
        Some(LeafHit { toi: t, normal: n, sub_object: Some(face_of(i)) })
    }
    fn test_shape_cast(&self, i: usize, cast: &ShapeCast<3>, max_toi: Scalar) -> Option<LeafHit<3, Face>> {
        let c = self.center(i);
        let sum = self.radii[i] + PROBE_RADIUS;
        let ray = Ray::new_unnormalized(cast.origin, cast.dir);
        let (t, _) = ray_ball(&ray, c, sum, max_toi)?;
        Some(LeafHit { toi: t, normal: cast.at(t).sub(c).normalize_or_zero(), sub_object: Some(face_of(i)) })
    }
    fn test_overlap(&self, i: usize, region: &Aabb<3>) -> bool {
        point_to_aabb(self.center(i), region.min, region.max) <= self.radii[i]
    }
}

/// The oracle for shape casts: the same balls scanned by the library's naive
/// scan, broad phase against each ball's box.
fn naive_cast(inst: &BallInstances, cast: &ShapeCast<3>, max_toi: Scalar) -> (Option<(usize, Scalar)>, Vec<(usize, Scalar)>) {
    let n = inst.instance_count();
    let boxes: Vec<Aabb<3>> = world_aabbs(inst);
    let box_test = |leaf: usize, lim: u32| cast.broadphase(boxes[leaf], f32::from_bits(lim)).is_some();
    let accepts = |_leaf: usize| true;
    let leaf_test = |leaf: usize, lim: u32| inst.test_shape_cast(leaf, cast, f32::from_bits(lim)).map(|lh| (lh.toi.to_bits(), ()));
    let near = naive::raycast_nearest(n, max_toi.to_bits(), &box_test, &accepts, &leaf_test)
        .map(|h| (h.leaf, f32::from_bits(h.toi)));
    let all = naive::raycast_all(n, max_toi.to_bits(), &box_test, &accepts, &leaf_test)
        .iter()
        .map(|h| (h.leaf, f32::from_bits(h.toi)))
        .collect();
    (near, all)
}

#[test]
fn tlas_shapecast_matches_naive_via_ball_bvh() {
    let mut rng = Rng::new(0x1234_ABCD);
    for _ in 0..150 {
        let n = 48;
        let inst = BallInstances::random(&mut rng, n);
        let tlas = build_tlas(&inst);
        let filter = QueryFilter::default();

        let cast = ball_cast(rng.point::<3>(-50.0, 50.0), rng.point::<3>(-1.0, 1.0));
        if cast.dir == Point::<3>::ZERO {
            continue;
        }

        let (want, want_all) = naive_cast(&inst, &cast, 500.0);
        let got = tlas_cast_nearest(&tlas, &inst, &cast, 500.0, &filter);
        assert_eq!(want, got.map(|h| (h.leaf, h.time_of_impact)), "tlas shapecast nearest");

        let got_all = tlas_cast_all(&tlas, &inst, &cast, 500.0, &filter);
        assert_eq!(want_all.len(), got_all.len(), "tlas shapecast all count");
        for (x, y) in want_all.iter().zip(got_all.iter()) {
            assert_eq!(x.0, y.leaf, "tlas shapecast all order");
            assert_eq!(x.1, y.time_of_impact, "tlas shapecast all toi");
        }
    }
}

#[test]
fn swept_ball_instance_stops_at_nearest_surface() {
    // One ball at x = 10, radius 1: a radius-0.75 probe from the origin touches
    // it when its centre reaches x = 8.25.
    let inst = BallInstances { transforms: vec![Isometry::from_translation(Point([10.0, 0.0, 0.0]))], radii: vec![1.0] };
    let tlas = build_tlas(&inst);
    let cast = ball_cast(Point([0.0, 0.0, 0.0]), Point([1.0, 0.0, 0.0]));
    let hit = tlas_cast_nearest(&tlas, &inst, &cast, 100.0, &QueryFilter::default()).expect("the swept ball should hit");
    assert!((hit.time_of_impact - 8.25).abs() < 1e-4, "toi {}", hit.time_of_impact);
    assert!((hit.normal.0[0] - -1.0).abs() < 1e-4, "normal {:?}", hit.normal);
    assert!((hit.point.0[0] - 8.25).abs() < 1e-4);
    assert!((cast.at(hit.time_of_impact).sub(inst.center(0)).length() - 1.75).abs() < 1e-4);
}

#[test]
fn tlas_overlap_matches_naive_via_ball_bvh() {
    let mut rng = Rng::new(0x9999_5555);
    for _ in 0..150 {
        let n = 64;
        let inst = BallInstances::random(&mut rng, n);
        let tlas = build_tlas(&inst);
        let filter = QueryFilter::default();

        let c = rng.point::<3>(-30.0, 30.0);
        let h = rng.point::<3>(1.0, 6.0);
        let region = Aabb::new(c.sub(h), c.add(h));

        let boxes = world_aabbs(&inst);
        let want: Vec<usize> =
            (0..n).filter(|&i| boxes[i].intersects(region) && inst.test_overlap(i, &region)).collect();
        let got = tlas_overlap(&tlas, &inst, &region, &filter);
        assert_eq!(want, got, "tlas overlap leaves");
    }
}

#[test]
fn overlap_returns_exactly_intersecting_ball_instances() {
    let inst = BallInstances {
        transforms: vec![
            Isometry::from_translation(Point([0.0, 0.0, 0.0])),
            Isometry::from_translation(Point([5.0, 0.0, 0.0])),
            Isometry::from_translation(Point([100.0, 0.0, 0.0])),
        ],
        radii: vec![1.0, 1.0, 1.0],
    };
    let tlas = build_tlas(&inst);
    let filter = QueryFilter::default();
    let region = Aabb::new(Point([-1.5, -1.5, -1.5]), Point([1.5, 1.5, 1.5]));
    assert_eq!(tlas_overlap(&tlas, &inst, &region, &filter), vec![0], "only the ball at the origin overlaps");
    let region = Aabb::new(Point([-1.5, -1.5, -1.5]), Point([4.0, 1.5, 1.5]));
    assert_eq!(tlas_overlap(&tlas, &inst, &region, &filter), vec![0, 1], "the near two balls overlap");
}

#[test]
fn sub_object_survives_tlas_ray() {
    let inst = BallInstances {
        transforms: (0..6).map(|i| Isometry::from_translation(Point([2.0 * (i as f32 + 1.0), 0.0, 0.0]))).collect(),
        radii: (0..6).map(|_| 0.6).collect(),
    };
    let tlas = build_tlas(&inst);
    let filter = QueryFilter::default();
    let ray = Ray::new(Point([0.0, 0.0, 0.0]), Point([1.0, 0.0, 0.0]));

    let near = tlas_nearest(&tlas, &inst, &ray, 100.0, &filter).unwrap();
    assert_eq!(near.sub_object, Some(face_of(near.leaf)), "tlas nearest");

    for h in tlas_all(&tlas, &inst, &ray, 100.0, &filter) {
        assert_eq!(h.sub_object, Some(face_of(h.leaf)), "tlas all-hits");
    }
}

#[test]
fn default_overlap_test_reports_instances_whose_box_meets_region() {
    // Two unit boxes, one at the origin and one at x = 10: both sit in one
    // leaf node, whose box meets the region. Only the first instance's own box
    // does, so the always-yes default test must report it alone.
    let s = OrientedBoxes::<3> {
        transforms: vec![
            Isometry::from_translation(Point([0.0, 0.0, 0.0])),
            Isometry::from_translation(Point([10.0, 0.0, 0.0])),
        ],
        halves: vec![Point([1.0, 1.0, 1.0]); 2],
    };
    let tlas = build_tlas(&s);
    assert_eq!(tlas.node_count(), 1, "both instances share the root leaf");
    let region = Aabb::new(Point([-0.5, -0.5, -0.5]), Point([0.5, 0.5, 0.5]));
    assert_eq!(tlas_overlap(&tlas, &s, &region, &QueryFilter::default()), vec![0]);
    let region = Aabb::new(Point([9.5, -0.5, -0.5]), Point([10.5, 0.5, 0.5]));
    assert_eq!(tlas_overlap(&tlas, &s, &region, &QueryFilter::default()), vec![1]);
    let region = Aabb::new(Point([4.0, -0.5, -0.5]), Point([6.0, 0.5, 0.5]));
    assert_eq!(tlas_overlap(&tlas, &s, &region, &QueryFilter::default()), Vec::<usize>::new());
}
