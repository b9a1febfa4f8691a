//! Query filtering.
//!
//! The core does not interpret a [`QueryFilter`]; it hands it to the
//! provider's acceptance test, which decides what a filter means for its own
//! data (collision layers, sensors, exclusion, ...). The fields here are a
//! neutral starting vocabulary; providers may ignore them.
use vstd::prelude::*;

verus! {

/// A filter passed through every query to the provider's acceptance test.
#[derive(Clone, Copy, Debug)]
pub struct QueryFilter {
    /// A layer bitmask. Its meaning is the provider's; the core only carries it.
    pub layer_mask: u64,
    /// A single leaf id the caller wants excluded (e.g. the querying object
    /// itself). Interpreted by the provider.
    pub exclude: Option<u64>,
}

impl Default for QueryFilter {
    /// Every layer, nothing excluded.
    fn default() -> (f: Self)
        ensures
            f.layer_mask == u64::MAX,
            f.exclude is None,
    {
        QueryFilter { layer_mask: u64::MAX, exclude: None }
    }
}

} // verus!
