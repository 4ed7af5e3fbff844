//! The settings of the manifold learners, and the shape check of their input.
use vstd::prelude::*;

verus! {

/// Isomap: an embedding that keeps the geodesic distances of the nearest-neighbour graph.
pub struct Isomap {
    pub n_neighbors: usize,
    pub n_components: usize,
}

impl Isomap {
    pub fn new(n_neighbors: usize, n_components: usize) -> (r: Self)
        ensures
            r.n_neighbors == n_neighbors,
            r.n_components == n_components,
    {
        Self { n_neighbors, n_components }
    }
}

/// Locally linear embedding: each sample kept as the same mix of its neighbours.
pub struct LocallyLinearEmbedding {
    pub n_neighbors: usize,
    pub n_components: usize,
    pub method: String,
}

impl LocallyLinearEmbedding {
    pub fn new(n_neighbors: usize, n_components: usize, method: String) -> (r: Self)
        ensures
            r.n_neighbors == n_neighbors,
            r.n_components == n_components,
            r.method == method,
    {
        Self { n_neighbors, n_components, method }
    }
}

/// UMAP: an embedding that keeps the fuzzy nearest-neighbour graph.
pub struct UMAP {
    pub n_components: usize,
    pub n_neighbors: usize,
}

impl UMAP {
    pub fn new(n_components: usize, n_neighbors: usize) -> (r: Self)
        ensures
            r.n_components == n_components,
            r.n_neighbors == n_neighbors,
    {
        Self { n_components, n_neighbors }
    }
}

/// Whether a flat buffer of `len` values holds exactly `n_samples` rows of `n_features`
/// values (the check each learner makes before it reads the buffer).
pub fn shape_matches(len: usize, n_samples: usize, n_features: usize) -> (r: bool)
    ensures
        r == (len == n_samples * n_features),
{
    match n_samples.checked_mul(n_features) {
        Some(p) => p == len,
        None => {
            proof {
                assert(len < n_samples * n_features);
            }
            false
        },
    }
}

} // verus!
