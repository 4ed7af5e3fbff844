//! The options of the nearest-neighbour estimators and the checks their fitting makes.
use vstd::prelude::*;

verus! {

/// How neighbours are searched for.
#[derive(Clone, Copy, Debug, PartialEq, Eq, Structural)]
pub enum Algorithm {
    Brute,
    KDTree,
}

/// How the votes of the neighbours are weighted.
#[derive(Clone, Copy, Debug, PartialEq, Eq, Structural)]
pub enum WeightType {
    Uniform,
    Distance,
}

/// Why a nearest-neighbour request was refused.
#[derive(Debug)]
pub enum NeighborsError {
    /// The name is none of `brute`, `kd_tree`, `ball_tree`, `auto`.
    UnknownAlgorithm(String),
    /// The name is neither `uniform` nor `distance`.
    UnknownWeightType(String),
    /// The training table has no cell.
    EmptyInput,
    /// Some training value is NaN or infinite.
    NotFinite,
    /// The training table has `n_samples` rows and `n_labels` labels.
    LengthMismatch { n_samples: usize, n_labels: usize },
    /// More neighbours are asked for than there are samples.
    TooFewSamples { n_neighbors: usize, n_samples: usize },
}

/// Whether two texts are equal.
fn text_is(s: &str, word: &str) -> (r: bool)
    ensures
        r == (s@ == word@),
{
    let a = String::from_str(s);
    let b = String::from_str(word);
    a == b
}

impl Algorithm {
    /// Reads an algorithm name: `brute` and `auto` search exhaustively, `kd_tree` and
    /// `ball_tree` with a k-d tree.
    pub fn from_str(s: &str) -> (r: Result<Algorithm, NeighborsError>)
        ensures
            (s@ == "brute"@ || s@ == "auto"@) ==> r == Ok::<Algorithm, NeighborsError>(Algorithm::Brute),
            (s@ == "kd_tree"@ || s@ == "ball_tree"@) ==> r == Ok::<Algorithm, NeighborsError>(Algorithm::KDTree),
            !(s@ == "brute"@ || s@ == "auto"@ || s@ == "kd_tree"@ || s@ == "ball_tree"@) ==> (r matches Err(
                NeighborsError::UnknownAlgorithm(name),
            ) && name@ == s@),
    {
        proof {
            reveal_strlit("brute");
            reveal_strlit("auto");
            reveal_strlit("kd_tree");
            reveal_strlit("ball_tree");
            assert("brute"@.len() == 5 && "auto"@.len() == 4 && "kd_tree"@.len() == 7 && "ball_tree"@.len() == 9);
            assert("brute"@ != "kd_tree"@ && "brute"@ != "ball_tree"@);
            assert("auto"@ != "kd_tree"@ && "auto"@ != "ball_tree"@);
        }
        if text_is(s, "brute") || text_is(s, "auto") {
            Ok(Algorithm::Brute)
        } else if text_is(s, "kd_tree") || text_is(s, "ball_tree") {
            Ok(Algorithm::KDTree)
        } else {
            Err(NeighborsError::UnknownAlgorithm(String::from_str(s)))
        }
    }
}

impl WeightType {
    /// Reads a weighting name: `uniform` or `distance`.
    pub fn from_str(s: &str) -> (r: Result<WeightType, NeighborsError>)
        ensures
            s@ == "uniform"@ ==> r == Ok::<WeightType, NeighborsError>(WeightType::Uniform),
            s@ == "distance"@ ==> r == Ok::<WeightType, NeighborsError>(WeightType::Distance),
            !(s@ == "uniform"@ || s@ == "distance"@) ==> (r matches Err(NeighborsError::UnknownWeightType(name))
                && name@ == s@),
    {
        proof {
            reveal_strlit("uniform");
            reveal_strlit("distance");
            assert("uniform"@[0] != "distance"@[0]);
            assert("uniform"@ != "distance"@);
        }
        if text_is(s, "uniform") {
            Ok(WeightType::Uniform)
        } else if text_is(s, "distance") {
            Ok(WeightType::Distance)
        } else {
            Err(NeighborsError::UnknownWeightType(String::from_str(s)))
        }
    }
}

/// The checks of fitting a nearest-neighbour estimator on `n_samples` rows of
/// `n_features` values (`finite` when none is NaN or infinite) with `n_labels` labels,
/// in the order they are made.
pub open spec fn fit_check(n_samples: usize, n_features: usize, finite: bool, n_labels: usize, n_neighbors: usize) -> Result<
    (),
    NeighborsError,
> {
    if n_samples == 0 || n_features == 0 {
        Err(NeighborsError::EmptyInput)
    } else if !finite {
        Err(NeighborsError::NotFinite)
    } else if n_samples != n_labels {
        Err(NeighborsError::LengthMismatch { n_samples, n_labels })
    } else if n_samples < n_neighbors {
        Err(NeighborsError::TooFewSamples { n_neighbors, n_samples })
    } else {
        Ok(())
    }
}

/// Fitting is accepted exactly when the data are non-empty and finite, there is one
/// label per sample, and there are at least as many samples as neighbours asked for;
/// it is refused for too few samples only when the neighbours outnumber the samples.
pub proof fn law_fit_accepts_enough_samples(
    n_samples: usize,
    n_features: usize,
    finite: bool,
    n_labels: usize,
    n_neighbors: usize,
)
    ensures
        fit_check(n_samples, n_features, finite, n_labels, n_neighbors) is Ok <==> (n_samples > 0 && n_features > 0
            && finite && n_labels == n_samples && n_neighbors <= n_samples),
        fit_check(n_samples, n_features, finite, n_labels, n_neighbors) matches Err(
            NeighborsError::TooFewSamples { n_neighbors: k, n_samples: m },
        ) ==> k == n_neighbors && m == n_samples && k > m,
{
}

/// Checks the shape of the training data of a nearest-neighbour estimator.
pub fn check_fit(n_samples: usize, n_features: usize, finite: bool, n_labels: usize, n_neighbors: usize) -> (r: Result<
    (),
    NeighborsError,
>)
    ensures
        r == fit_check(n_samples, n_features, finite, n_labels, n_neighbors),
        r is Ok <==> (n_samples > 0 && n_features > 0 && finite && n_labels == n_samples && n_neighbors <= n_samples),
        r matches Err(NeighborsError::TooFewSamples { n_neighbors: k, n_samples: m }) ==> k == n_neighbors && m
            == n_samples && k > m,
{
    if n_samples == 0 || n_features == 0 {
        Err(NeighborsError::EmptyInput)
    } else if !finite {
        Err(NeighborsError::NotFinite)
    } else if n_samples != n_labels {
        Err(NeighborsError::LengthMismatch { n_samples, n_labels })
    } else if n_samples < n_neighbors {
        Err(NeighborsError::TooFewSamples { n_neighbors, n_samples })
    } else {
        Ok(())
    }
}

} // verus!
