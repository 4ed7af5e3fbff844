use std::collections::HashMap;
use thermite_core::graph::{random_walks, GraphError};

#[test]
fn walks_follow_edges_and_cover_every_node() {
    let mut adj: HashMap<usize, Vec<usize>> = HashMap::new();
    adj.insert(0, vec![1, 2]);
    adj.insert(1, vec![2]);
    adj.insert(2, vec![0]);
    adj.insert(3, vec![]);
    let w = random_walks(&adj, 4, 2).unwrap();
    assert_eq!(w.n_nodes, 4);
    assert_eq!(w.walks.len(), 8);
    for round in 0..2 {
        let mut starts: Vec<usize> = (0..4).map(|j| w.walks[round * 4 + j][0]).collect();
        starts.sort();
        assert_eq!(starts, vec![0, 1, 2, 3]);
    }
    for walk in &w.walks {
        if walk[0] == 3 {
            assert_eq!(walk.len(), 1);
        } else {
            assert_eq!(walk.len(), 4);
        }
        for k in 0..walk.len() - 1 {
            assert!(adj[&walk[k]].contains(&walk[k + 1]));
        }
    }
}

#[test]
fn walks_stop_at_nodes_outside_the_list() {
    let mut adj: HashMap<usize, Vec<usize>> = HashMap::new();
    adj.insert(5, vec![9]);
    let w = random_walks(&adj, 3, 1).unwrap();
    assert_eq!(w.n_nodes, 6);
    assert_eq!(w.walks, vec![vec![5, 9]]);
    let empty: HashMap<usize, Vec<usize>> = HashMap::new();
    assert!(matches!(random_walks(&empty, 3, 1), Err(GraphError::EmptyGraph)));
}
