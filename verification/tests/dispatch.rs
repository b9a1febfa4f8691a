//! The cost model picks CPU for headless or deterministic batches, the cheapest
//! serving backend otherwise, and a forced backend above all.

use spatial_query::dispatch::{find_backend, select_backend, BackendKind, BackendOffer, QueryContext};
use spatial_query::order::total_key_f64;

/// A registered backend as the dispatcher sees it: its kind, whether it needs
/// a device, and its cost shape.
struct Registered {
    kind: BackendKind,
    needs_device: bool,
    cost: fn(&QueryContext) -> f64,
}

fn cpu_cost(ctx: &QueryContext) -> f64 {
    // One tree walk per ray, roughly the tree depth in node tests.
    let per_ray = ((ctx.scene_leaves + 1) as f64).log2().max(1.0);
    ctx.batch_size as f64 * per_ray
}

fn draw_pass_cost(ctx: &QueryContext) -> f64 {
    // Nearly free for one view, a scene pass per extra direction.
    (ctx.distinct_directions.saturating_sub(1)) as f64 * ctx.scene_leaves as f64 * 0.01 + 1.0
}

fn gpu_cost(ctx: &QueryContext) -> f64 {
    // A fixed dispatch and readback plus a cheap per-ray term.
    2_000.0 + ctx.batch_size as f64 * 0.05
}

/// A dispatcher over registered backends, CPU first.
struct Dispatcher {
    backends: Vec<Registered>,
    forced: Option<BackendKind>,
}

impl Dispatcher {
    fn new() -> Self {
        Dispatcher { backends: vec![Registered { kind: BackendKind::Cpu, needs_device: false, cost: cpu_cost }], forced: None }
    }
    fn register(&mut self, r: Registered) {
        self.backends.push(r);
    }
    fn force(&mut self, kind: Option<BackendKind>) {
        self.forced = kind;
    }
    fn select(&self, ctx: &QueryContext) -> BackendKind {
        let offers: Vec<BackendOffer> = self
            .backends
            .iter()
            .map(|b| BackendOffer {
                kind: b.kind,
                can_serve: !b.needs_device || ctx.device_available,
                cost_key: total_key_f64((b.cost)(ctx).to_bits()),
            })
            .collect();
        select_backend(self.forced, ctx, &offers)
    }
}

fn full_dispatcher() -> Dispatcher {
    let mut d = Dispatcher::new();
    d.register(Registered { kind: BackendKind::DrawPass, needs_device: true, cost: draw_pass_cost });
    d.register(Registered { kind: BackendKind::Gpu, needs_device: true, cost: gpu_cost });
    d
}

#[test]
fn deterministic_request_pins_cpu() {
    let d = full_dispatcher();
    // A scattered batch that would otherwise pick GPU, but determinism pins CPU.
    let ctx = QueryContext::new(100_000, 100_000, 100_000).with_device(true).deterministic(true);
    assert_eq!(d.select(&ctx), BackendKind::Cpu);
}

#[test]
fn no_device_falls_back_to_cpu() {
    let d = full_dispatcher();
    // Single view, huge scene: draw-pass would win, but no device is present.
    let ctx = QueryContext::new(1, 1, 100_000).with_device(false);
    assert_eq!(d.select(&ctx), BackendKind::Cpu);
}

#[test]
fn small_batch_stays_cpu_without_alternates_winning() {
    // A dispatcher with only CPU registered always selects CPU.
    let d = Dispatcher::new();
    let ctx = QueryContext::new(1, 1, 100_000).with_device(true);
    assert_eq!(d.select(&ctx), BackendKind::Cpu);
}

#[test]
fn force_override_wins_over_everything() {
    let mut d = full_dispatcher();
    d.force(Some(BackendKind::Gpu));
    // Even a deterministic request now reports the forced backend.
    let ctx = QueryContext::new(1, 1, 10).deterministic(true);
    assert_eq!(d.select(&ctx), BackendKind::Gpu);
    d.force(None);
    assert_eq!(d.select(&ctx), BackendKind::Cpu);
}

#[test]
fn single_view_large_scene_picks_draw_pass() {
    let d = full_dispatcher();
    // One cursor click on a huge scene.
    let click = QueryContext::new(1, 1, 100_000).with_device(true);
    assert_eq!(d.select(&click), BackendKind::DrawPass);
    // A rectangle select: many rays, still one view direction.
    let rect = QueryContext::new(5_000, 1, 100_000).with_device(true);
    assert_eq!(d.select(&rect), BackendKind::DrawPass);
}

#[test]
fn scattered_large_batch_picks_gpu() {
    let d = full_dispatcher();
    // Thousands of rays from thousands of directions: GPU compute wins.
    let ctx = QueryContext::new(100_000, 100_000, 100_000).with_device(true);
    assert_eq!(d.select(&ctx), BackendKind::Gpu);
}

#[test]
fn cheapest_serving_backend_wins() {
    let d = full_dispatcher();
    // One click on a huge scene: the draw pass is nearly free.
    let click = QueryContext::new(1, 1, 100_000).with_device(true);
    assert_eq!(d.select(&click), BackendKind::DrawPass);
    // A scattered large batch: GPU amortizes its fixed cost.
    let scattered = QueryContext::new(100_000, 100_000, 100_000).with_device(true);
    assert_eq!(d.select(&scattered), BackendKind::Gpu);
}

#[test]
fn equal_costs_go_to_the_first_registered() {
    let offers = vec![
        BackendOffer { kind: BackendKind::Gpu, can_serve: false, cost_key: 1 },
        BackendOffer { kind: BackendKind::DrawPass, can_serve: true, cost_key: 7 },
        BackendOffer { kind: BackendKind::Cpu, can_serve: true, cost_key: 7 },
    ];
    let ctx = QueryContext::new(10, 10, 10);
    assert_eq!(select_backend(None, &ctx, &offers), BackendKind::DrawPass);
    // No offer that can serve: CPU.
    let none = vec![BackendOffer { kind: BackendKind::Gpu, can_serve: false, cost_key: 0 }];
    assert_eq!(select_backend(None, &ctx, &none), BackendKind::Cpu);
    assert_eq!(select_backend(None, &ctx, &Vec::new()), BackendKind::Cpu);
}

#[test]
fn cost_keys_order_like_the_costs() {
    // The total-order key of an f64 cost orders costs as numbers do.
    let costs = [-3.5f64, -0.0, 0.0, 1.0e-300, 2.0, 1.0e300, f64::INFINITY];
    for w in costs.windows(2) {
        assert!(total_key_f64(w[0].to_bits()) < total_key_f64(w[1].to_bits()));
    }
}

#[test]
fn find_backend_finds_the_first_of_a_kind() {
    let kinds = vec![BackendKind::Cpu, BackendKind::Gpu, BackendKind::DrawPass, BackendKind::Gpu];
    assert_eq!(find_backend(&kinds, BackendKind::Gpu), Some(1));
    assert_eq!(find_backend(&kinds, BackendKind::Cpu), Some(0));
    assert_eq!(find_backend(&vec![BackendKind::Cpu], BackendKind::DrawPass), None);
}

#[test]
fn context_builders_set_their_fields() {
    let ctx = QueryContext::new(5, 2, 9);
    assert_eq!((ctx.batch_size, ctx.distinct_directions, ctx.scene_leaves), (5, 2, 9));
    assert!(!ctx.device_available && !ctx.require_deterministic);
    let ctx = ctx.with_device(true).deterministic(true);
    assert!(ctx.device_available && ctx.require_deterministic);
    assert_eq!(ctx.batch_size, 5);
}

/// The calibrated GPU cost: a fixed dispatch and readback that only a batch of
/// several hundred scattered rays amortizes on a large scene.
fn calibrated_gpu_cost(ctx: &QueryContext) -> f64 {
    10_000.0 + ctx.batch_size as f64 * 0.05
}

fn calibrated_dispatcher() -> Dispatcher {
    let mut d = Dispatcher::new();
    d.register(Registered { kind: BackendKind::DrawPass, needs_device: true, cost: draw_pass_cost });
    d.register(Registered { kind: BackendKind::Gpu, needs_device: true, cost: calibrated_gpu_cost });
    d
}

#[test]
fn calibrated_model_crosses_over_in_the_measured_band() {
    let d = calibrated_dispatcher();
    let scattered = |batch: usize, leaves: usize| QueryContext::new(batch, batch, leaves).with_device(true);

    // Large scene, tiny batch: the GPU's fixed cost dominates, so CPU wins.
    assert_eq!(d.select(&scattered(64, 100_000)), BackendKind::Cpu);
    // Large scene, large batch: GPU amortizes and wins.
    assert_eq!(d.select(&scattered(8_000, 100_000)), BackendKind::Gpu);

    // The crossover batch (smallest scattered power-of-two batch routed to GPU)
    // at 100k leaves falls in the measured band.
    let crossover = (1..)
        .map(|k| 1usize << k)
        .find(|&batch| d.select(&scattered(batch, 100_000)) == BackendKind::Gpu)
        .unwrap();
    assert!((256..=2048).contains(&crossover), "crossover batch {crossover} outside the measured band");
}
