use thermite_core::cluster::dbscan_labels;

/// The points within `eps` of each point (itself included).
fn neighbourhoods(x: &[[f64; 2]], eps: f64) -> Vec<Vec<usize>> {
    let eps_sq = eps * eps;
    (0..x.len())
        .map(|i| {
            (0..x.len())
                .filter(|&j| {
                    let dx = x[i][0] - x[j][0];
                    let dy = x[i][1] - x[j][1];
                    dx * dx + dy * dy <= eps_sq
                })
                .collect()
        })
        .collect()
}

#[test]
fn test_dbscan_basic() {
    let x = [
        [1.0, 1.0],
        [1.1, 1.0],
        [1.0, 1.1],
        [10.0, 10.0],
        [10.1, 10.0],
        [10.0, 10.1],
        [100.0, 100.0], // noise point
    ];
    let (labels, cores) = dbscan_labels(&neighbourhoods(&x, 0.5), 2);

    // First cluster
    assert_eq!(labels[0], labels[1]);
    assert_eq!(labels[0], labels[2]);
    // Second cluster
    assert_eq!(labels[3], labels[4]);
    assert_eq!(labels[3], labels[5]);
    // Two clusters differ
    assert_ne!(labels[0], labels[3]);
    // Noise point
    assert_eq!(labels[6], -1);

    // Core samples should not include the noise point
    assert!(!cores.contains(&6));
}

#[test]
fn test_dbscan_all_noise() {
    let x = [[0.0, 0.0], [100.0, 100.0], [200.0, 200.0]];
    let (labels, _) = dbscan_labels(&neighbourhoods(&x, 0.5), 2);
    assert!(labels.iter().all(|&l| l == -1));
}

#[test]
fn test_dbscan_single_cluster() {
    let x = [[0.0, 0.0], [0.1, 0.0], [0.0, 0.1], [0.1, 0.1]];
    let (labels, _) = dbscan_labels(&neighbourhoods(&x, 0.5), 2);
    // All should be in same cluster
    let first = labels[0];
    assert!(first >= 0);
    assert!(labels.iter().all(|&l| l == first));
}

#[test]
fn dbscan_border_points_join_the_first_cluster_to_reach_them() {
    // 0 - 1 - 2 - 3 with min_samples 3: 1 and 2 are cores, 0 and 3 border points,
    // 4 is alone.
    let nb = vec![vec![0, 1], vec![0, 1, 2], vec![1, 2, 3], vec![2, 3], vec![4]];
    let (labels, cores) = dbscan_labels(&nb, 3);
    assert_eq!(cores, vec![1, 2]);
    assert_eq!(labels, vec![0, 0, 0, 0, -1]);
}

#[test]
fn dbscan_numbers_clusters_by_their_first_core_sample() {
    // Two chains of core samples interleaved by index: {0, 2, 4} and {1, 3}, and a
    // lone sample 5. The chain holding sample 0 is cluster 0, the other cluster 1.
    let nb = vec![
        vec![0, 2],
        vec![1, 3],
        vec![0, 2, 4],
        vec![1, 3],
        vec![2, 4],
        vec![5],
    ];
    let (labels, cores) = dbscan_labels(&nb, 2);
    assert_eq!(cores, vec![0, 1, 2, 3, 4]);
    assert_eq!(labels, vec![0, 1, 0, 1, 0, -1]);
}
