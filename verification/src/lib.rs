pub mod cluster;
pub mod ensemble;
pub mod feature_selection;
pub mod graph;
pub mod hyperband;
pub mod manifold;
pub mod metrics;
pub mod model_selection;
pub mod neighbors;
pub mod order;
pub mod preprocessing;
pub mod rng;
pub mod sparse;
pub mod survival;
pub mod table;
pub mod text;
pub mod tree;

use vstd::prelude::*;

verus! {

/// Health check of the library: answers a fixed word.
pub fn core_ping() -> (s: &'static str)
    ensures
        s@ == "core_pong"@,
{
    "core_pong"
}

} // verus!
