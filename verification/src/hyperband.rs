//! The schedule of successive halving: how many samples each round trains on and how
//! many candidates survive it. It depends on the sizes alone; which candidates survive
//! is decided by their scores.
use vstd::prelude::*;

verus! {

/// One round: all `n_active` candidates are trained and scored on the first `resources`
/// samples, and the best `keep` go on.
#[derive(Clone, Copy, Debug, PartialEq, Eq, Structural)]
pub struct HalvingRound {
    pub resources: usize,
    pub n_active: usize,
    pub keep: usize,
}

/// The candidates kept after a round of `n_active`: a `factor`-th of them, at least one.
pub open spec fn kept(n_active: int, factor: int) -> int {
    if n_active / factor >= 1 {
        n_active / factor
    } else {
        1
    }
}

/// The rounds, as `(resources, n_active, keep)`: rounds go on while more than one
/// candidate is active and the resources do not exceed the samples; each round
/// multiplies the resources by `factor`.
pub open spec fn halving_rounds(n_active: int, resources: int, factor: int, n_samples: int) -> Seq<(int, int, int)>
    decreases n_active,
{
    if n_active > 1 && resources <= n_samples && factor >= 2 {
        proof {
            lemma_kept_less(n_active, factor);
        }
        seq![(resources, n_active, kept(n_active, factor))] + halving_rounds(
            kept(n_active, factor),
            resources * factor,
            factor,
            n_samples,
        )
    } else {
        Seq::empty()
    }
}

/// The rounds as triples of integers.
pub open spec fn round_triples(r: Seq<HalvingRound>) -> Seq<(int, int, int)> {
    r.map_values(|x: HalvingRound| (x.resources as int, x.n_active as int, x.keep as int))
}

/// Halving keeps at least one candidate and fewer than it had.
pub proof fn lemma_kept_less(n_active: int, factor: int)
    requires
        n_active > 1,
        factor >= 2,
    ensures
        1 <= kept(n_active, factor) < n_active,
{
    assert(n_active / factor < n_active) by (nonlinear_arith)
        requires
            n_active > 1,
            factor >= 2,
    ;
}

/// Every round's resources times `factor` fits in a `usize` (the resources are
/// multiplied after each round).
pub open spec fn products_fit(rounds: Seq<(int, int, int)>, factor: int) -> bool {
    forall|k: int| 0 <= k < rounds.len() ==> #[trigger] rounds[k].0 * factor <= usize::MAX
}

/// The rounds of successive halving over `n_candidates` candidates, starting from
/// `min_resources` samples; `None` when a round's resources times `factor` would
/// overflow a `usize`.
pub fn halving_schedule(n_candidates: usize, min_resources: usize, factor: usize, n_samples: usize) -> (r: Option<
    Vec<HalvingRound>,
>)
    requires
        factor >= 2 || n_candidates <= 1 || min_resources > n_samples,
    ensures
        ({
            let rounds = halving_rounds(n_candidates as int, min_resources as int, factor as int, n_samples as int);
            &&& r is Some <==> products_fit(rounds, factor as int)
            &&& r matches Some(v) ==> round_triples(v@) == rounds
        }),
{
    let ghost all = halving_rounds(n_candidates as int, min_resources as int, factor as int, n_samples as int);
    let mut r: Vec<HalvingRound> = Vec::new();
    let mut n_active = n_candidates;
    let mut resources = min_resources;
    while n_active > 1 && resources <= n_samples
        invariant
            factor >= 2 || n_active <= 1 || resources > n_samples,
            all == halving_rounds(n_candidates as int, min_resources as int, factor as int, n_samples as int),
            round_triples(r@) + halving_rounds(n_active as int, resources as int, factor as int, n_samples as int) == all,
            products_fit(round_triples(r@), factor as int),
        decreases n_active,
    {
        proof {
            lemma_kept_less(n_active as int, factor as int);
        }
        let q = n_active / factor;
        let keep = if q >= 1 {
            q
        } else {
            1
        };
        let ghost rest = halving_rounds(keep as int, resources * factor, factor as int, n_samples as int);
        proof {
            assert(halving_rounds(n_active as int, resources as int, factor as int, n_samples as int) == seq![
                (resources as int, n_active as int, keep as int),
            ] + rest);
        }
        let next = match resources.checked_mul(factor) {
            Some(x) => x,
            None => {
                proof {
                    let k = round_triples(r@).len() as int;
                    assert(all[k] == (resources as int, n_active as int, keep as int));
                    assert(all[k].0 * factor > usize::MAX);
                }
                return None;
            },
        };
        let ghost before = r@;
        r.push(HalvingRound { resources, n_active, keep });
        proof {
            assert(round_triples(r@) =~= round_triples(before).push((resources as int, n_active as int, keep as int)));
            assert(round_triples(before) + (seq![(resources as int, n_active as int, keep as int)] + rest)
                =~= round_triples(r@) + rest);
            assert forall|k: int| 0 <= k < round_triples(r@).len() implies #[trigger] round_triples(r@)[k].0 * factor
                <= usize::MAX by {
                if k < before.len() {
                    assert(round_triples(r@)[k] == round_triples(before)[k]);
                }
            }
        }
        n_active = keep;
        resources = next;
    }
    proof {
        assert(halving_rounds(n_active as int, resources as int, factor as int, n_samples as int) =~= Seq::<
            (int, int, int),
        >::empty());
        assert(round_triples(r@) + Seq::<(int, int, int)>::empty() =~= round_triples(r@));
    }
    Some(r)
}

/// Successive halving narrows the field: in every round fewer candidates are kept than
/// were trained, at least one is kept, and the next round trains exactly the kept ones
/// on `factor` times the samples.
pub proof fn law_halving_narrows(n_active: int, resources: int, factor: int, n_samples: int, i: int)
    requires
        0 <= i < halving_rounds(n_active, resources, factor, n_samples).len(),
    ensures
        ({
            let rounds = halving_rounds(n_active, resources, factor, n_samples);
            &&& 1 <= rounds[i].2 < rounds[i].1
            &&& rounds[i].0 <= n_samples
            &&& i + 1 < rounds.len() ==> rounds[i + 1].1 == rounds[i].2 && rounds[i + 1].0 == rounds[i].0 * factor
        }),
    decreases n_active,
{
    let rounds = halving_rounds(n_active, resources, factor, n_samples);
    lemma_kept_less(n_active, factor);
    let k = kept(n_active, factor);
    let rest = halving_rounds(k, resources * factor, factor, n_samples);
    if i == 0 {
        if rest.len() > 0 {
            assert(rounds[1] == rest[0]);
        }
    } else {
        law_halving_narrows(k, resources * factor, factor, n_samples, i - 1);
        assert(rounds[i] == rest[i - 1]);
        if i + 1 < rounds.len() {
            assert(rounds[i + 1] == rest[i]);
        }
    }
}

} // verus!
