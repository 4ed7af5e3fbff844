//! Density-based clustering (DBSCAN) over precomputed neighbourhoods.
use vstd::prelude::*;

verus! {

/// `q` is in the neighbourhood of `p`.
pub open spec fn adjacent(nbhd: Seq<Vec<usize>>, p: int, q: int) -> bool {
    exists|k: int| 0 <= k < nbhd[p]@.len() && #[trigger] nbhd[p]@[k] == q
}

/// Every listed neighbour is a sample.
pub open spec fn neighbours_in_range(nbhd: Seq<Vec<usize>>) -> bool {
    forall|p: int, k: int|
        0 <= p < nbhd.len() && 0 <= k < nbhd[p]@.len() ==> #[trigger] nbhd[p]@[k] < nbhd.len()
}

/// `q` is a neighbour of `p` exactly when `p` is a neighbour of `q` (as for distances).
pub open spec fn symmetric(nbhd: Seq<Vec<usize>>) -> bool {
    forall|p: int, q: int|
        0 <= p < nbhd.len() && 0 <= q < nbhd.len() ==> (adjacent(nbhd, p, q) <==> adjacent(
            nbhd,
            q,
            p,
        ))
}

/// A core sample has at least `min_samples` samples in its neighbourhood.
pub open spec fn is_core(nbhd: Seq<Vec<usize>>, min_samples: usize, p: int) -> bool {
    nbhd[p]@.len() >= min_samples
}

/// Indices of the core samples, in increasing order.
pub open spec fn core_indices_of(nbhd: Seq<Vec<usize>>, min_samples: usize, out: Seq<usize>) -> bool {
    &&& forall|a: int, b: int| 0 <= a < b < out.len() ==> #[trigger] out[a] < #[trigger] out[b]
    &&& forall|a: int| 0 <= a < out.len() ==> #[trigger] out[a] < nbhd.len() && is_core(nbhd, min_samples, out[a] as int)
    &&& forall|p: int| 0 <= p < nbhd.len() && is_core(nbhd, min_samples, p) ==> #[trigger] out.contains(p as usize)
}

/// A sample is reached when it is a core sample or a neighbour of one.
pub open spec fn reached(nbhd: Seq<Vec<usize>>, min_samples: usize, q: int) -> bool {
    is_core(nbhd, min_samples, q) || exists|p: int|
        0 <= p < nbhd.len() && is_core(nbhd, min_samples, p) && #[trigger] adjacent(nbhd, p, q)
}

/// A labelled sample belongs to its cluster: it is a core sample, or a neighbour of a
/// core sample with the same label.
pub open spec fn joined(nbhd: Seq<Vec<usize>>, min_samples: usize, labels: Seq<i64>, q: int) -> bool {
    is_core(nbhd, min_samples, q) || exists|p: int|
        0 <= p < nbhd.len() && is_core(nbhd, min_samples, p) && #[trigger] adjacent(nbhd, p, q) && labels[p] == labels[q]
}

/// `path` walks from sample to sample, each step from a core sample into its
/// neighbourhood.
pub open spec fn core_chain(nbhd: Seq<Vec<usize>>, min_samples: usize, path: Seq<int>) -> bool {
    &&& path.len() >= 1
    &&& forall|k: int| 0 <= k < path.len() ==> 0 <= #[trigger] path[k] < nbhd.len()
    &&& forall|k: int|
        0 <= k < path.len() - 1 ==> is_core(nbhd, min_samples, #[trigger] path[k]) && adjacent(nbhd, path[k], path[k + 1])
}

/// `q` is density-reachable from `s`: a chain of core samples leads from `s` to `q`.
pub open spec fn density_reachable(nbhd: Seq<Vec<usize>>, min_samples: usize, s: int, q: int) -> bool {
    exists|path: Seq<int>| #[trigger] core_chain(nbhd, min_samples, path) && path[0] == s && path.last() == q
}

/// `p` and `q` are density-connected: both are density-reachable from one core sample.
pub open spec fn density_connected(nbhd: Seq<Vec<usize>>, min_samples: usize, p: int, q: int) -> bool {
    exists|s: int|
        0 <= s < nbhd.len() && is_core(nbhd, min_samples, s) && #[trigger] density_reachable(nbhd, min_samples, s, p)
            && density_reachable(nbhd, min_samples, s, q)
}

proof fn lemma_reach_self(g: Seq<Vec<usize>>, min_samples: usize, s: int)
    requires
        0 <= s < g.len(),
    ensures
        density_reachable(g, min_samples, s, s),
{
    let path = seq![s];
    assert(core_chain(g, min_samples, path));
}

proof fn lemma_reach_step(g: Seq<Vec<usize>>, min_samples: usize, s: int, p: int, q: int)
    requires
        density_reachable(g, min_samples, s, p),
        is_core(g, min_samples, p),
        adjacent(g, p, q),
        0 <= q < g.len(),
    ensures
        density_reachable(g, min_samples, s, q),
{
    let path = choose|path: Seq<int>| #[trigger] core_chain(g, min_samples, path) && path[0] == s && path.last() == p;
    let longer = path.push(q);
    assert forall|k: int| 0 <= k < longer.len() - 1 implies is_core(g, min_samples, #[trigger] longer[k]) && adjacent(
        g,
        longer[k],
        longer[k + 1],
    ) by {
        if k < path.len() - 1 {
            assert(longer[k] == path[k] && longer[k + 1] == path[k + 1]);
        }
    }
    assert(core_chain(g, min_samples, longer));
}

/// What the cluster being grown keeps of every labelled sample: it is density-reachable
/// from the seed of its cluster, and a labelled core sample lies at or after its seed.
pub open spec fn seeded(g: Seq<Vec<usize>>, min_samples: usize, labels: Seq<i64>, seeds: Seq<int>) -> bool {
    &&& forall|q: int|
        0 <= q < labels.len() && #[trigger] labels[q] != -1 ==> density_reachable(g, min_samples, seeds[labels[q] as int], q)
    &&& forall|p: int|
        0 <= p < labels.len() && is_core(g, min_samples, p) && #[trigger] labels[p] != -1 ==> seeds[labels[p] as int] <= p
}

proof fn lemma_seeded_after_label(
    g: Seq<Vec<usize>>,
    min_samples: usize,
    old: Seq<i64>,
    new: Seq<i64>,
    seeds: Seq<int>,
    x: int,
    c: i64,
)
    requires
        0 <= x < old.len(),
        0 <= c < seeds.len(),
        new == old.update(x, c),
        seeded(g, min_samples, old, seeds),
        density_reachable(g, min_samples, seeds[c as int], x),
        is_core(g, min_samples, x) ==> seeds[c as int] <= x,
    ensures
        seeded(g, min_samples, new, seeds),
{
    assert forall|q: int| 0 <= q < new.len() && #[trigger] new[q] != -1 implies density_reachable(
        g,
        min_samples,
        seeds[new[q] as int],
        q,
    ) by {
        if q != x {
            assert(old[q] != -1);
        }
    }
    assert forall|p: int| 0 <= p < new.len() && is_core(g, min_samples, p) && #[trigger] new[p] != -1 implies seeds[new[p] as int]
        <= p by {
        if p != x {
            assert(old[p] != -1);
        }
    }
}

proof fn lemma_seeded_push(g: Seq<Vec<usize>>, min_samples: usize, labels: Seq<i64>, seeds: Seq<int>, s: int)
    requires
        seeded(g, min_samples, labels, seeds),
        forall|q: int| 0 <= q < labels.len() ==> -1 <= #[trigger] labels[q] < seeds.len(),
    ensures
        seeded(g, min_samples, labels, seeds.push(s)),
{
    let longer = seeds.push(s);
    assert forall|q: int| 0 <= q < labels.len() && #[trigger] labels[q] != -1 implies density_reachable(
        g,
        min_samples,
        longer[labels[q] as int],
        q,
    ) by {
        assert(longer[labels[q] as int] == seeds[labels[q] as int]);
    }
    assert forall|p: int| 0 <= p < labels.len() && is_core(g, min_samples, p) && #[trigger] labels[p] != -1 implies longer[labels[p] as int]
        <= p by {
        assert(longer[labels[p] as int] == seeds[labels[p] as int]);
    }
}

/// Labelling a sample that had no label keeps every other labelled sample joined.
proof fn lemma_joined_after_label(g: Seq<Vec<usize>>, min_samples: usize, old: Seq<i64>, new: Seq<i64>, x: int, c: i64)
    requires
        0 <= x < old.len(),
        old.len() == g.len(),
        old[x] == -1,
        new == old.update(x, c),
        forall|q: int| 0 <= q < old.len() && #[trigger] old[q] != -1 ==> joined(g, min_samples, old, q),
    ensures
        forall|q: int| 0 <= q < new.len() && q != x && #[trigger] new[q] != -1 ==> joined(g, min_samples, new, q),
{
    assert forall|q: int| 0 <= q < new.len() && q != x && #[trigger] new[q] != -1 implies joined(g, min_samples, new, q) by {
        assert(old[q] != -1);
        assert(joined(g, min_samples, old, q));
        if !is_core(g, min_samples, q) {
            let p = choose|p: int|
                0 <= p < g.len() && is_core(g, min_samples, p) && #[trigger] adjacent(g, p, q) && old[p] == old[q];
            assert(p != x);
            assert(new[p] == new[q]);
        }
    }
}

/// Labels samples by cluster given each sample's neighbourhood (the samples within
/// `eps` of it, itself included): clusters are numbered from 0 in the order of their
/// first core sample, and samples that no cluster reaches are labelled -1. Samples of
/// one cluster are density-connected; adjacent core samples (for symmetric
/// neighbourhoods) share their cluster; a sample in the neighbourhood of several
/// clusters' core samples joins the first of those clusters. Returns the labels and the indices of the core
/// samples.
pub fn dbscan_labels(nbhd: &Vec<Vec<usize>>, min_samples: usize) -> (r: (Vec<i64>, Vec<usize>))
    requires
        neighbours_in_range(nbhd@),
        nbhd@.len() < i64::MAX,
    ensures
        r.0@.len() == nbhd@.len(),
        core_indices_of(nbhd@, min_samples, r.1@),
        forall|q: int| 0 <= q < nbhd@.len() ==> #[trigger] r.0@[q] >= -1,
        forall|q: int|
            0 <= q < nbhd@.len() ==> (#[trigger] r.0@[q] == -1 <==> !reached(nbhd@, min_samples, q)),
        forall|q: int| 0 <= q < nbhd@.len() && #[trigger] r.0@[q] != -1 ==> joined(nbhd@, min_samples, r.0@, q),
        symmetric(nbhd@) ==> forall|p: int, q: int|
            0 <= p < nbhd@.len() && 0 <= q < nbhd@.len() && is_core(nbhd@, min_samples, p)
                && is_core(nbhd@, min_samples, q) && #[trigger] adjacent(nbhd@, p, q) ==> r.0@[p]
                == r.0@[q],
        forall|p: int, q: int|
            0 <= p < nbhd@.len() && 0 <= q < nbhd@.len() && #[trigger] r.0@[p] != -1 && r.0@[p] == #[trigger] r.0@[q]
                ==> density_connected(nbhd@, min_samples, p, q),
        forall|p: int, q: int|
            0 <= p < nbhd@.len() && 0 <= q < nbhd@.len() && is_core(nbhd@, min_samples, p) && #[trigger] adjacent(nbhd@, p, q)
                ==> r.0@[q] != -1 && r.0@[q] <= r.0@[p],
        forall|p: int|
            0 <= p < nbhd@.len() && is_core(nbhd@, min_samples, p) && #[trigger] r.0@[p] > 0 ==> exists|q: int|
                0 <= q < p && is_core(nbhd@, min_samples, q) && #[trigger] r.0@[q] == r.0@[p] - 1,
{
    let n = nbhd.len();
    let ghost g = nbhd@;
    let mut core: Vec<bool> = Vec::new();
    let mut core_indices: Vec<usize> = Vec::new();
    let mut i: usize = 0;
    while i < n
        invariant
            n == g.len(),
            g == nbhd@,
            i <= n,
            core@.len() == i,
            forall|p: int| 0 <= p < i ==> #[trigger] core@[p] == is_core(g, min_samples, p),
            forall|a: int, b: int| 0 <= a < b < core_indices@.len() ==> #[trigger] core_indices@[a] < #[trigger] core_indices@[b],
            forall|a: int| 0 <= a < core_indices@.len() ==> #[trigger] core_indices@[a] < i && is_core(g, min_samples, core_indices@[a] as int),
            forall|p: int| 0 <= p < i && is_core(g, min_samples, p) ==> #[trigger] core_indices@.contains(p as usize),
        decreases n - i,
    {
        let c = nbhd[i].len() >= min_samples;
        core.push(c);
        if c {
            let ghost old_ci = core_indices@;
            core_indices.push(i);
            proof {
                assert forall|p: int| 0 <= p < i + 1 && is_core(g, min_samples, p) implies #[trigger] core_indices@.contains(p as usize) by {
                    if p == i {
                        assert(core_indices@[core_indices@.len() - 1] == i);
                    } else {
                        assert(old_ci.contains(p as usize));
                        let k = choose|k: int| 0 <= k < old_ci.len() && old_ci[k] == p as usize;
                        assert(core_indices@[k] == p as usize);
                    }
                }
            }
        } else {
            proof {
                assert forall|p: int| 0 <= p < i + 1 && is_core(g, min_samples, p) implies #[trigger] core_indices@.contains(p as usize) by {
                }
            }
        }
        i = i + 1;
    }

    let mut labels: Vec<i64> = Vec::new();
    let mut t: usize = 0;
    while t < n
        invariant
            t <= n,
            labels@.len() == t,
            forall|q: int| 0 <= q < t ==> #[trigger] labels@[q] == -1,
        decreases n - t,
    {
        labels.push(-1);
        t = t + 1;
    }

    let mut cluster_id: i64 = 0;
    let ghost mut done: Set<int> = Set::empty();
    let ghost mut seeds: Seq<int> = Seq::empty();
    proof {
        assert(done.len() == 0);
    }
    let mut i: usize = 0;
    while i < n
        invariant
            n == g.len(),
            g == nbhd@,
            neighbours_in_range(g),
            i <= n,
            0 <= cluster_id <= i,
            core@.len() == n,
            forall|p: int| 0 <= p < n ==> #[trigger] core@[p] == is_core(g, min_samples, p),
            labels@.len() == n,
            forall|q: int| 0 <= q < n ==> -1 <= #[trigger] labels@[q] < cluster_id,
            // every core sample before i is labelled and processed
            forall|p: int| 0 <= p < i && is_core(g, min_samples, p) ==> #[trigger] done.contains(p),
            // processed samples are labelled core samples
            forall|p: int| #[trigger] done.contains(p) ==> 0 <= p < n && is_core(g, min_samples, p) && labels@[p] != -1,
            // labelled core samples are processed
            forall|p: int| 0 <= p < n && is_core(g, min_samples, p) && #[trigger] labels@[p] != -1 ==> done.contains(p),
            // a labelled sample is reached
            forall|q: int| 0 <= q < n && #[trigger] labels@[q] != -1 ==> reached(g, min_samples, q),
            forall|q: int| 0 <= q < n && #[trigger] labels@[q] != -1 ==> joined(g, min_samples, labels@, q),
            // every neighbour of a processed sample is labelled; core ones like it
            forall|p: int, q: int|
                #[trigger] done.contains(p) && 0 <= q < n && #[trigger] adjacent(g, p, q) ==> labels@[q] != -1 && labels@[q] <= labels@[p]
                    && (symmetric(g) && is_core(g, min_samples, q) ==> labels@[q] == labels@[p]),
            done.finite(),
            done.len() <= n,
            n < i64::MAX,
            seeds.len() == cluster_id,
            forall|c: int| 0 <= c < cluster_id ==> 0 <= #[trigger] seeds[c] < i && is_core(g, min_samples, seeds[c]) && labels@[seeds[c]] == c,
            forall|c1: int, c2: int| 0 <= c1 < c2 < cluster_id ==> #[trigger] seeds[c1] < #[trigger] seeds[c2],
            seeded(g, min_samples, labels@, seeds),
        decreases n - i,
    {
        if labels[i] != -1 || !core[i] {
            i = i + 1;
            continue;
        }
        let ghost labels_before = labels@;
        labels.set(i, cluster_id);
        let mut stack: Vec<usize> = Vec::new();
        stack.push(i);
        proof {
            let old_seeds = seeds;
            seeds = seeds.push(i as int);
            lemma_seeded_push(g, min_samples, labels_before, old_seeds, i as int);
            lemma_reach_self(g, min_samples, i as int);
            lemma_seeded_after_label(g, min_samples, labels_before, labels@, seeds, i as int, cluster_id);
            assert forall|c: int| 0 <= c < cluster_id implies 0 <= #[trigger] seeds[c] < i && is_core(g, min_samples, seeds[c])
                && labels@[seeds[c]] == c by {
                assert(seeds[c] == old_seeds[c]);
            }
            assert(stack@[0] == i);
            assert forall|p: int| 0 <= p < n && is_core(g, min_samples, p) && #[trigger] labels@[p] != -1 implies done.contains(p)
                || stack@.contains(p as usize) by {
                if p != i {
                    assert(labels_before[p] != -1);
                }
            }
            assert forall|q: int| 0 <= q < n && #[trigger] labels@[q] != -1 implies reached(g, min_samples, q) by {
                if q != i {
                    assert(labels_before[q] != -1);
                }
            }
            lemma_joined_after_label(g, min_samples, labels_before, labels@, i as int, cluster_id);
            assert forall|q: int| 0 <= q < n && #[trigger] labels@[q] != -1 implies joined(g, min_samples, labels@, q) by {
                if q == i {
                    assert(is_core(g, min_samples, q));
                }
            }
        }
        while stack.len() > 0
            invariant
                n == g.len(),
                g == nbhd@,
                neighbours_in_range(g),
                i < n,
                0 <= cluster_id <= i,
                core@.len() == n,
                forall|p: int| 0 <= p < n ==> #[trigger] core@[p] == is_core(g, min_samples, p),
                labels@.len() == n,
                forall|q: int| 0 <= q < n ==> -1 <= #[trigger] labels@[q] <= cluster_id,
                labels@[i as int] == cluster_id,
                forall|p: int| 0 <= p < i && is_core(g, min_samples, p) ==> #[trigger] done.contains(p),
                forall|p: int| #[trigger] done.contains(p) ==> 0 <= p < n && is_core(g, min_samples, p) && labels@[p] != -1,
                // stacked samples: distinct labelled core samples of this cluster, not processed
                forall|a: int| 0 <= a < stack@.len() ==> (#[trigger] stack@[a] as int) < n && is_core(g, min_samples, stack@[a] as int)
                    && labels@[stack@[a] as int] == cluster_id && !done.contains(stack@[a] as int),
                forall|a: int, b: int| 0 <= a < b < stack@.len() ==> #[trigger] stack@[a] != #[trigger] stack@[b],
                // a labelled core sample is processed or stacked
                forall|p: int| 0 <= p < n && is_core(g, min_samples, p) && #[trigger] labels@[p] != -1 ==> done.contains(p)
                    || stack@.contains(p as usize),
                forall|q: int| 0 <= q < n && #[trigger] labels@[q] != -1 ==> reached(g, min_samples, q),
                forall|q: int| 0 <= q < n && #[trigger] labels@[q] != -1 ==> joined(g, min_samples, labels@, q),
                forall|p: int, q: int|
                    #[trigger] done.contains(p) && 0 <= q < n && #[trigger] adjacent(g, p, q) ==> labels@[q] != -1 && labels@[q] <= labels@[p]
                        && (symmetric(g) && is_core(g, min_samples, q) ==> labels@[q] == labels@[p]),
                done.finite(),
                done.len() <= n,
                seeds.len() == cluster_id + 1,
                seeds[cluster_id as int] == i,
                forall|c: int| 0 <= c < cluster_id ==> 0 <= #[trigger] seeds[c] < i && is_core(g, min_samples, seeds[c]) && labels@[seeds[c]] == c,
                forall|c1: int, c2: int| 0 <= c1 < c2 < cluster_id ==> #[trigger] seeds[c1] < #[trigger] seeds[c2],
                seeded(g, min_samples, labels@, seeds),
            decreases n - done.len(), stack@.len(),
        {
            let ghost stack_before = stack@;
            let current = stack.pop().unwrap();
            proof {
                assert(stack_before.last() == current);
                assert(stack@ =~= stack_before.drop_last());
                assert forall|a: int| 0 <= a < stack@.len() implies #[trigger] stack@[a] != current by {
                    assert(stack_before[a] != stack_before[stack_before.len() - 1]);
                }
                assert forall|p: int| 0 <= p < n && is_core(g, min_samples, p) && #[trigger] labels@[p] != -1 implies done.contains(p)
                    || stack@.contains(p as usize) || p == current by {
                    if stack_before.contains(p as usize) && p != current {
                        let a = choose|a: int| 0 <= a < stack_before.len() && stack_before[a] == p as usize;
                        assert(a != stack_before.len() - 1);
                        assert(stack@[a] == p as usize);
                    }
                }
            }
            let neighbours = &nbhd[current];
            let mut k: usize = 0;
            while k < neighbours.len()
                invariant
                    n == g.len(),
                    g == nbhd@,
                    neighbours_in_range(g),
                    i < n,
                    0 <= cluster_id <= i,
                    (current as int) < n,
                    neighbours@ == g[current as int]@,
                    is_core(g, min_samples, current as int),
                    labels@[current as int] == cluster_id,
                    !done.contains(current as int),
                    !stack@.contains(current),
                    k <= neighbours@.len(),
                    core@.len() == n,
                    forall|p: int| 0 <= p < n ==> #[trigger] core@[p] == is_core(g, min_samples, p),
                    labels@.len() == n,
                    forall|q: int| 0 <= q < n ==> -1 <= #[trigger] labels@[q] <= cluster_id,
                    labels@[i as int] == cluster_id,
                    forall|p: int| 0 <= p < i && is_core(g, min_samples, p) ==> #[trigger] done.contains(p),
                    forall|p: int| #[trigger] done.contains(p) ==> 0 <= p < n && is_core(g, min_samples, p) && labels@[p] != -1,
                    forall|a: int| 0 <= a < stack@.len() ==> (#[trigger] stack@[a] as int) < n && is_core(g, min_samples, stack@[a] as int)
                        && labels@[stack@[a] as int] == cluster_id && !done.contains(stack@[a] as int),
                    forall|a: int, b: int| 0 <= a < b < stack@.len() ==> #[trigger] stack@[a] != #[trigger] stack@[b],
                    forall|p: int| 0 <= p < n && is_core(g, min_samples, p) && #[trigger] labels@[p] != -1 ==> done.contains(p)
                        || stack@.contains(p as usize) || p == current,
                    forall|q: int| 0 <= q < n && #[trigger] labels@[q] != -1 ==> reached(g, min_samples, q),
                    forall|q: int| 0 <= q < n && #[trigger] labels@[q] != -1 ==> joined(g, min_samples, labels@, q),
                    forall|p: int, q: int|
                        #[trigger] done.contains(p) && 0 <= q < n && #[trigger] adjacent(g, p, q) ==> labels@[q] != -1 && labels@[q] <= labels@[p]
                            && (symmetric(g) && is_core(g, min_samples, q) ==> labels@[q] == labels@[p]),
                    forall|kk: int| 0 <= kk < k ==> labels@[#[trigger] neighbours@[kk] as int] != -1
                        && (symmetric(g) && is_core(g, min_samples, neighbours@[kk] as int) ==> labels@[neighbours@[kk] as int] == cluster_id),
                    seeds.len() == cluster_id + 1,
                    seeds[cluster_id as int] == i,
                    forall|c: int| 0 <= c < cluster_id ==> 0 <= #[trigger] seeds[c] < i && is_core(g, min_samples, seeds[c]) && labels@[seeds[c]] == c,
                    forall|c1: int, c2: int| 0 <= c1 < c2 < cluster_id ==> #[trigger] seeds[c1] < #[trigger] seeds[c2],
                    seeded(g, min_samples, labels@, seeds),
                decreases neighbours@.len() - k,
            {
                let q = neighbours[k];
                proof {
                    assert(g[current as int]@[k as int] == q);
                    assert(adjacent(g, current as int, q as int));
                }
                if labels[q] == -1 {
                    let ghost old_labels = labels@;
                    let ghost old_stack = stack@;
                    labels.set(q, cluster_id);
                    proof {
                        assert(labels@[current as int] == cluster_id);
                        assert(old_labels[current as int] != -1);
                        lemma_reach_step(g, min_samples, i as int, current as int, q as int);
                        if is_core(g, min_samples, q as int) && (q as int) < i {
                            assert(done.contains(q as int));
                        }
                        lemma_seeded_after_label(g, min_samples, old_labels, labels@, seeds, q as int, cluster_id);
                        assert forall|c: int| 0 <= c < cluster_id implies 0 <= #[trigger] seeds[c] < i && is_core(g, min_samples, seeds[c])
                            && labels@[seeds[c]] == c by {
                            assert(old_labels[seeds[c]] == c);
                        }
                        assert(reached(g, min_samples, q as int));
                        lemma_joined_after_label(g, min_samples, old_labels, labels@, q as int, cluster_id);
                        assert(labels@[current as int] == labels@[q as int]);
                        assert forall|qq: int| 0 <= qq < n && #[trigger] labels@[qq] != -1 implies joined(g, min_samples, labels@, qq) by {
                            if qq == q {
                                assert(adjacent(g, current as int, qq));
                            }
                        }
                        assert forall|qq: int| 0 <= qq < n && #[trigger] labels@[qq] != -1 implies reached(g, min_samples, qq) by {
                            if qq != q {
                                assert(old_labels[qq] != -1);
                            }
                        }
                    }
                    if core[q] {
                        stack.push(q);
                        proof {
                            assert forall|a: int, b: int| 0 <= a < b < stack@.len() implies #[trigger] stack@[a] != #[trigger] stack@[b] by {
                                if b == stack@.len() - 1 {
                                    assert(old_labels[old_stack[a] as int] == cluster_id);
                                }
                            }
                            assert forall|p: int| 0 <= p < n && is_core(g, min_samples, p) && #[trigger] labels@[p] != -1 implies done.contains(p)
                                || stack@.contains(p as usize) || p == current by {
                                if p == q {
                                    assert(stack@[stack@.len() - 1] == q);
                                } else if old_stack.contains(p as usize) {
                                    let a = choose|a: int| 0 <= a < old_stack.len() && old_stack[a] == p as usize;
                                    assert(stack@[a] == p as usize);
                                }
                            }
                        }
                    } else {
                        proof {
                            assert forall|p: int| 0 <= p < n && is_core(g, min_samples, p) && #[trigger] labels@[p] != -1 implies done.contains(p)
                                || stack@.contains(p as usize) || p == current by {
                                if p != q {
                                    assert(old_labels[p] != -1);
                                }
                            }
                        }
                    }
                } else {
                    proof {
                        if symmetric(g) && is_core(g, min_samples, q as int) {
                            if done.contains(q as int) {
                                assert(adjacent(g, q as int, current as int));
                            } else if stack@.contains(q) {
                                let a = choose|a: int| 0 <= a < stack@.len() && stack@[a] == q;
                                assert(labels@[stack@[a] as int] == cluster_id);
                            }
                        }
                    }
                }
                k = k + 1;
            }
            proof {
                let old_done = done;
                done = done.insert(current as int);
                assert forall|p: int, q: int|
                    #[trigger] done.contains(p) && 0 <= q < n && #[trigger] adjacent(g, p, q) implies labels@[q] != -1 && labels@[q] <= labels@[p]
                        && (symmetric(g) && is_core(g, min_samples, q) ==> labels@[q] == labels@[p]) by {
                    if p == current {
                        let kk = choose|kk: int| 0 <= kk < g[p]@.len() && #[trigger] g[p]@[kk] == q;
                        assert(neighbours@[kk] == q);
                    } else {
                        assert(old_done.contains(p));
                    }
                }
                assert forall|p: int| 0 <= p < n && is_core(g, min_samples, p) && #[trigger] labels@[p] != -1 implies done.contains(p)
                    || stack@.contains(p as usize) by {
                }
                assert(done.subset_of(vstd::set_lib::set_int_range(0, n as int)));
                vstd::set_lib::lemma_int_range(0, n as int);
                vstd::set_lib::lemma_len_subset(done, vstd::set_lib::set_int_range(0, n as int));
                vstd::set_lib::lemma_len_subset(old_done, vstd::set_lib::set_int_range(0, n as int));
            }
        }
        cluster_id = cluster_id + 1;
        i = i + 1;
    }
    proof {
        assert forall|q: int| 0 <= q < n implies (#[trigger] labels@[q] == -1 <==> !reached(g, min_samples, q)) by {
            if is_core(g, min_samples, q) {
                assert(done.contains(q));
            }
            if reached(g, min_samples, q) && !is_core(g, min_samples, q) {
                let p = choose|p: int| 0 <= p < g.len() && is_core(g, min_samples, p) && #[trigger] adjacent(g, p, q);
                assert(done.contains(p));
            }
        }
    }
    proof {
        assert forall|p: int, q: int|
            0 <= p < n && 0 <= q < n && is_core(g, min_samples, p) && #[trigger] adjacent(g, p, q) implies labels@[q] != -1
                && labels@[q] <= labels@[p] by {
            assert(done.contains(p));
        }
        assert forall|p: int, q: int|
            0 <= p < n && 0 <= q < n && #[trigger] labels@[p] != -1 && labels@[p] == #[trigger] labels@[q] implies density_connected(
            g,
            min_samples,
            p,
            q,
        ) by {
            let s = seeds[labels@[p] as int];
            assert(0 <= s < n && is_core(g, min_samples, s));
            assert(density_reachable(g, min_samples, s, p) && density_reachable(g, min_samples, s, q));
        }
        assert forall|p: int| 0 <= p < n && is_core(g, min_samples, p) && #[trigger] labels@[p] > 0 implies exists|q: int|
            0 <= q < p && is_core(g, min_samples, q) && #[trigger] labels@[q] == labels@[p] - 1 by {
            let c = labels@[p] as int;
            let q = seeds[c - 1];
            assert(seeds[c - 1] < seeds[c]);
            assert(labels@[q] == c - 1);
        }
    }
    (labels, core_indices)
}

} // verus!
