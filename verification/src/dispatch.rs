//! Cost-model dispatch for batched queries.
//!
//! For a batch of queries the dispatcher picks the cheapest registered backend
//! that can serve the request. CPU traversal is always available and always
//! deterministic. Two guardrails make a wrong cost model safe: a deterministic
//! request always pins to CPU, and the caller can force a backend outright.
use vstd::prelude::*;

verus! {

/// The three backend classes the cost model reasons about.
#[derive(Clone, Copy, PartialEq, Eq, Debug, Structural)]
pub enum BackendKind {
    /// Deterministic CPU traversal, the always-available fallback.
    Cpu,
    /// A consumer-registered draw-pass picker (one view direction per pass).
    DrawPass,
    /// A GPU-compute batched traversal.
    Gpu,
}

/// The shape and environment of a batch request, read by the cost model.
#[derive(Clone, Copy, Debug)]
pub struct QueryContext {
    /// Number of queries in the batch.
    pub batch_size: usize,
    /// Distinct ray directions in the batch.
    pub distinct_directions: usize,
    /// Number of leaves in the scene.
    pub scene_leaves: usize,
    /// Whether a GPU device is available for device-side backends.
    pub device_available: bool,
    /// Whether the caller requires the deterministic path (e.g. replay).
    pub require_deterministic: bool,
}

impl QueryContext {
    /// A context for `batch_size` rays spanning `distinct_directions`
    /// directions over a scene of `scene_leaves` leaves, with no device and no
    /// determinism requirement.
    pub fn new(batch_size: usize, distinct_directions: usize, scene_leaves: usize) -> (c: Self)
        ensures
            c.batch_size == batch_size,
            c.distinct_directions == distinct_directions,
            c.scene_leaves == scene_leaves,
            !c.device_available,
            !c.require_deterministic,
    {
        QueryContext {
            batch_size,
            distinct_directions,
            scene_leaves,
            device_available: false,
            require_deterministic: false,
        }
    }

    /// Mark whether a GPU device is available.
    pub fn with_device(self, available: bool) -> (c: Self)
        ensures
            c == (QueryContext { device_available: available, ..self }),
    {
        QueryContext { device_available: available, ..self }
    }

    /// Mark whether the deterministic path is required.
    pub fn deterministic(self, required: bool) -> (c: Self)
        ensures
            c == (QueryContext { require_deterministic: required, ..self }),
    {
        QueryContext { require_deterministic: required, ..self }
    }
}

/// What one registered backend says about a request: its kind, whether it
/// can serve the request, and its estimated cost as a key in the total order
/// of costs (lower is cheaper).
#[derive(Clone, Copy, Debug)]
pub struct BackendOffer {
    pub kind: BackendKind,
    pub can_serve: bool,
    pub cost_key: u64,
}

/// Offer `i` is the first of the cheapest offers that can serve.
pub open spec fn is_cheapest(offers: Seq<BackendOffer>, i: int) -> bool {
    &&& 0 <= i < offers.len()
    &&& offers[i].can_serve
    &&& forall|j: int| 0 <= j < offers.len() && offers[j].can_serve ==> offers[i].cost_key <= offers[j].cost_key
    &&& forall|j: int| 0 <= j < i && offers[j].can_serve ==> offers[i].cost_key < offers[j].cost_key
}

/// At most one offer is the first of the cheapest, so the choice among the
/// offers is determined by them.
pub proof fn lemma_cheapest_unique(offers: Seq<BackendOffer>, i: int, j: int)
    requires
        is_cheapest(offers, i),
        is_cheapest(offers, j),
    ensures
        i == j,
{
}

/// The backend the cost model picks: a forced backend wins outright; a
/// deterministic request pins to CPU; otherwise the first cheapest offer that
/// can serve, or CPU when none can.
pub open spec fn spec_select(
    forced: Option<BackendKind>,
    require_deterministic: bool,
    offers: Seq<BackendOffer>,
    k: BackendKind,
) -> bool {
    match forced {
        Some(f) => k == f,
        None => if require_deterministic {
            k == BackendKind::Cpu
        } else if exists|i: int| 0 <= i < offers.len() && (#[trigger] offers[i]).can_serve {
            exists|i: int| #[trigger] is_cheapest(offers, i) && k == offers[i].kind
        } else {
            k == BackendKind::Cpu
        },
    }
}

/// The backend the cost model would pick for `ctx`, without running it.
pub fn select_backend(
    forced: Option<BackendKind>,
    ctx: &QueryContext,
    offers: &Vec<BackendOffer>,
) -> (k: BackendKind)
    ensures
        spec_select(forced, ctx.require_deterministic, offers@, k),
{
    if let Some(kind) = forced {
        return kind;
    }
    if ctx.require_deterministic {
        return BackendKind::Cpu;
    }
    let mut best: Option<usize> = None;
    let mut i: usize = 0;
    while i < offers.len()
        invariant
            0 <= i <= offers@.len(),
            best is None ==> forall|j: int| 0 <= j < i ==> !(#[trigger] offers@[j]).can_serve,
            best matches Some(b) ==> {
                &&& b < i
                &&& offers@[b as int].can_serve
                &&& forall|j: int| 0 <= j < i && (#[trigger] offers@[j]).can_serve ==> offers@[b as int].cost_key <= offers@[j].cost_key
                &&& forall|j: int| 0 <= j < b && (#[trigger] offers@[j]).can_serve ==> offers@[b as int].cost_key < offers@[j].cost_key
            },
        decreases offers@.len() - i,
    {
        let o = offers[i];
        if o.can_serve {
            match best {
                None => {
                    best = Some(i);
                },
                Some(b) => {
                    if o.cost_key < offers[b].cost_key {
                        best = Some(i);
                    }
                },
            }
        }
        i = i + 1;
    }
    match best {
        Some(b) => {
            proof {
                assert(is_cheapest(offers@, b as int));
            }
            offers[b].kind
        },
        None => BackendKind::Cpu,
    }
}

/// The first registered backend of kind `k`, if any.
pub fn find_backend(kinds: &Vec<BackendKind>, k: BackendKind) -> (r: Option<usize>)
    ensures
        match r {
            Some(i) => i < kinds@.len() && kinds@[i as int] == k && forall|j: int|
                0 <= j < i ==> kinds@[j] != k,
            None => forall|j: int| 0 <= j < kinds@.len() ==> kinds@[j] != k,
        },
{
    let mut i: usize = 0;
    while i < kinds.len()
        invariant
            0 <= i <= kinds@.len(),
            forall|j: int| 0 <= j < i ==> kinds@[j] != k,
        decreases kinds@.len() - i,
    {
        if kinds[i] == k {
            return Some(i);
        }
        i = i + 1;
    }
    None
}

} // verus!
