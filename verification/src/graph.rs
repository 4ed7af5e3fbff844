//! The random walks of Node2Vec over an adjacency list.
use vstd::prelude::*;
use std::collections::HashMap;
use rand::rngs::ThreadRng;
use crate::rng::{choose_thread, shuffle_thread, thread_rng};
use vstd::std_specs::iter::IteratorSpec;

verus! {

broadcast use vstd::std_specs::hash::group_hash_axioms;

/// Why walks could not be drawn.
#[derive(Debug)]
pub enum GraphError {
    /// The adjacency list has no node.
    EmptyGraph,
}

/// The nodes of the adjacency list (its keys), in the map's own order.
fn node_list(adjacency: &HashMap<usize, Vec<usize>>) -> (r: Vec<usize>)
    ensures
        r@.to_set() == adjacency@.dom(),
        r@.no_duplicates(),
{
    let ghost keys = vstd::std_specs::hash::spec_keys_iter(adjacency).remaining();
    let mut r: Vec<usize> = Vec::new();
    for k in it: adjacency.keys()
        invariant
            it.seq() == keys,
            r@.len() == it.index(),
            forall|i: int| 0 <= i < it.index() ==> r@[i] == *it.seq()[i],
    {
        r.push(*k);
    }
    proof {
        assert(r@ =~= keys.map_values(|x: &usize| *x));
        assert(keys.unref().to_set() == adjacency@.dom());
        assert(r@ =~= keys.unref());
    }
    r
}


/// `w` is a walk of Node2Vec: it starts at a node of the list, each step goes to a
/// neighbour of the current node, it has at most `walk_length` nodes (at least one), and
/// it stops short only at a node that is not in the list or has no neighbour.
pub open spec fn valid_walk(adj: Map<usize, Vec<usize>>, walk_length: int, w: Seq<usize>) -> bool {
    &&& 1 <= w.len()
    &&& w.len() <= walk_length || w.len() == 1
    &&& adj.contains_key(w[0])
    &&& forall|k: int| 0 <= k < w.len() - 1 ==> adj.contains_key(#[trigger] w[k]) && adj[w[k]]@.contains(w[k + 1])
    &&& w.len() < walk_length ==> !adj.contains_key(w.last()) || adj[w.last()]@.len() == 0
}

/// The start nodes of the walks of round `r`, each round having `m` walks.
pub open spec fn round_starts(walks: Seq<Vec<usize>>, m: int, r: int) -> Seq<usize> {
    Seq::new(m as nat, |j: int| walks[r * m + j]@[0])
}

/// The walks of Node2Vec and the number of node ids they range over (the largest node
/// of the list, plus one).
#[derive(Debug)]
pub struct Walks {
    pub walks: Vec<Vec<usize>>,
    pub n_nodes: usize,
}

/// A walk from `start`.
fn walk_from(adjacency: &HashMap<usize, Vec<usize>>, start: usize, walk_length: usize, rng: &mut ThreadRng) -> (w: Vec<
    usize,
>)
    requires
        adjacency@.contains_key(start),
    ensures
        valid_walk(adjacency@, walk_length as int, w@),
        w@[0] == start,
{
    let mut walk: Vec<usize> = Vec::new();
    walk.push(start);
    let mut step: usize = 1;
    while step < walk_length
        invariant
            adjacency@.contains_key(start),
            walk@.len() == step,
            1 <= step,
            step <= walk_length || step == 1,
            walk@[0] == start,
            forall|k: int| 0 <= k < walk@.len() - 1 ==> adjacency@.contains_key(#[trigger] walk@[k]) && adjacency@[walk@[k]]@.contains(walk@[k + 1]),
        ensures
            valid_walk(adjacency@, walk_length as int, walk@),
            walk@[0] == start,
        decreases walk_length - step,
    {
        let curr = walk[walk.len() - 1];
        match adjacency.get(&curr) {
            Some(neighbors) => {
                if neighbors.len() == 0 {
                    break;
                }
                let next = choose_thread(neighbors, rng);
                match next {
                    Some(n) => {
                        let ghost before = walk@;
                        walk.push(n);
                        proof {
                            assert forall|k: int| 0 <= k < walk@.len() - 1 implies adjacency@.contains_key(#[trigger] walk@[k])
                                && adjacency@[walk@[k]]@.contains(walk@[k + 1]) by {
                                if k < before.len() - 1 {
                                    assert(walk@[k] == before[k] && walk@[k + 1] == before[k + 1]);
                                } else {
                                    assert(walk@[k] == curr);
                                }
                            }
                        }
                    },
                    None => {
                        break;
                    },
                }
            },
            None => {
                break;
            },
        }
        step = step + 1;
    }
    walk
}

proof fn lemma_round_index(r: int, m: int, j: int, total: int)
    requires
        0 <= j < m,
        0 <= r,
        (r + 1) * m <= total,
    ensures
        0 <= r * m + j < total,
        r * m + j < (r + 1) * m,
{
    assert(r * m + j < (r + 1) * m) by (nonlinear_arith)
        requires
            j < m,
    ;
    assert(0 <= r * m) by (nonlinear_arith)
        requires
            0 <= r,
            0 <= j < m,
    ;
}

/// Draws the random walks of Node2Vec with the thread's generator: `num_walks` rounds,
/// each of which walks once from every node of the list, in a shuffled order.
pub fn random_walks(adjacency: &HashMap<usize, Vec<usize>>, walk_length: usize, num_walks: usize) -> (r:
    Result<Walks, GraphError>)
    requires
        forall|k: usize| #[trigger] adjacency@.contains_key(k) ==> k < usize::MAX,
    ensures
        adjacency@.dom().len() == 0 <==> r is Err,
        r matches Ok(w) ==> {
            &&& adjacency@.contains_key((w.n_nodes - 1) as usize)
            &&& forall|k: usize| #[trigger] adjacency@.contains_key(k) ==> k < w.n_nodes
            &&& w.walks@.len() == num_walks * adjacency@.dom().len()
            &&& forall|i: int| 0 <= i < w.walks@.len() ==> valid_walk(adjacency@, walk_length as int, #[trigger] w.walks@[i]@)
            &&& forall|round: int|
                0 <= round < num_walks ==> (#[trigger] round_starts(w.walks@, adjacency@.dom().len() as int, round)).no_duplicates()
                    && round_starts(w.walks@, adjacency@.dom().len() as int, round).to_set() == adjacency@.dom()
        },
{
    let mut rng = thread_rng();
    let nodes = node_list(adjacency);
    proof {
        nodes@.unique_seq_to_set();
    }
    if nodes.len() == 0 {
        proof {
            assert(nodes@.to_set().len() == 0);
        }
        return Err(GraphError::EmptyGraph);
    }
    let m = nodes.len();
    let mut max_id = nodes[0];
    let mut i: usize = 1;
    while i < m
        invariant
            1 <= i <= m,
            m == nodes@.len(),
            nodes@.contains(max_id),
            forall|k: int| 0 <= k < i ==> #[trigger] nodes@[k] <= max_id,
        decreases m - i,
    {
        if nodes[i] > max_id {
            max_id = nodes[i];
        }
        i = i + 1;
    }
    proof {
        assert(nodes@.to_set().contains(max_id));
        assert forall|k: usize| #[trigger] adjacency@.contains_key(k) implies k < max_id + 1 by {
            assert(nodes@.to_set().contains(k));
            let j = choose|j: int| 0 <= j < nodes@.len() && nodes@[j] == k;
            assert(nodes@[j] <= max_id);
        }
    }
    let n_nodes = max_id + 1;
    let ghost dom = adjacency@.dom();
    let mut walks: Vec<Vec<usize>> = Vec::new();
    let mut round: usize = 0;
    while round < num_walks
        invariant
            m == nodes@.len(),
            m == dom.len(),
            dom == adjacency@.dom(),
            nodes@.to_set() == dom,
            nodes@.no_duplicates(),
            round <= num_walks,
            walks@.len() == round * m,
            forall|w: int| 0 <= w < walks@.len() ==> valid_walk(adjacency@, walk_length as int, #[trigger] walks@[w]@),
            forall|rr: int|
                0 <= rr < round ==> (#[trigger] round_starts(walks@, m as int, rr)).no_duplicates() && round_starts(
                    walks@,
                    m as int,
                    rr,
                ).to_set() == dom,
        decreases num_walks - round,
    {
        let mut order: Vec<usize> = Vec::new();
        let mut c: usize = 0;
        while c < m
            invariant
                m == nodes@.len(),
                c <= m,
                order@ == nodes@.take(c as int),
            decreases m - c,
        {
            order.push(nodes[c]);
            c = c + 1;
            proof {
                assert(order@ =~= nodes@.take(c as int));
            }
        }
        proof {
            assert(order@ =~= nodes@);
        }
        let ghost before_order = order@;
        shuffle_thread(&mut order, &mut rng);
        proof {
            crate::model_selection::lemma_permutation_keeps(before_order, order@, usize::MAX as int + 1);
            assert forall|x: usize| order@.contains(x) <==> nodes@.contains(x) by {
                crate::model_selection::lemma_permutation_contains(before_order, order@, x);
            }
            assert(order@.to_set() =~= dom);
        }
        let ghost start = walks@.len() as int;
        let ghost prev = walks@;
        let mut j: usize = 0;
        while j < m
            invariant
                m == nodes@.len(),
                m == order@.len(),
                dom == adjacency@.dom(),
                order@.to_set() == dom,
                j <= m,
                start == round * m,
                walks@.len() == start + j,
                walks@.subrange(0, start) == prev,
                forall|w: int| 0 <= w < walks@.len() ==> valid_walk(adjacency@, walk_length as int, #[trigger] walks@[w]@),
                forall|k: int| 0 <= k < j ==> (#[trigger] walks@[start + k])@[0] == order@[k],
            decreases m - j,
        {
            let node = order[j];
            proof {
                assert(order@.to_set().contains(node));
            }
            let w = walk_from(adjacency, node, walk_length, &mut rng);
            let ghost before = walks@;
            walks.push(w);
            proof {
                assert(walks@.subrange(0, start) =~= before.subrange(0, start));
                assert forall|k: int| 0 <= k < j + 1 implies (#[trigger] walks@[start + k])@[0] == order@[k] by {
                    if k < j {
                        assert(walks@[start + k] == before[start + k]);
                    }
                }
            }
            j = j + 1;
        }
        proof {
            assert(walks@.len() == (round + 1) * m) by (nonlinear_arith)
                requires
                    walks@.len() == round * m + m,
            ;
            assert(round_starts(walks@, m as int, round as int) =~= order@) by {
                assert(round as int * m as int == start);
            }
            assert forall|rr: int|
                0 <= rr < round + 1 implies (#[trigger] round_starts(walks@, m as int, rr)).no_duplicates() && round_starts(
                walks@,
                m as int,
                rr,
            ).to_set() == dom by {
                if rr < round {
                    assert forall|jj: int| 0 <= jj < m implies #[trigger] walks@[rr * m + jj] == prev[rr * m + jj] by {
                        assert((rr + 1) * m <= start) by (nonlinear_arith)
                            requires
                                rr + 1 <= round,
                                start == round * m,
                                m >= 0,
                        ;
                        lemma_round_index(rr, m as int, jj, start);
                        assert(walks@.subrange(0, start)[rr * m + jj] == walks@[rr * m + jj]);
                    }
                    assert(round_starts(walks@, m as int, rr) =~= round_starts(prev, m as int, rr));
                }
            }
        }
        round = round + 1;
    }
    Ok(Walks { walks, n_nodes })
}

} // verus!
