use patient_graph::builder::{createadj, recommend, AttributeVector, SimilarityMetric};
use patient_graph::graph::Graph;
use patient_graph::{GraphError, Ratio};

fn record(i: usize, features: Vec<u64>, flag: bool) -> AttributeVector {
    AttributeVector { id: format!("Patient_{}", i), features, flag }
}

/// Builds an undirected graph over `n` featureless records from an edge
/// list, with a consistent adjacency matrix (diagonal true).
fn graph_from_edges(n: usize, edges: &[(usize, usize)], flags: &[bool]) -> Graph {
    let mut adj: Vec<Vec<usize>> = vec![Vec::new(); n];
    for &(u, v) in edges {
        if !adj[u].contains(&v) {
            adj[u].push(v);
        }
        if !adj[v].contains(&u) {
            adj[v].push(u);
        }
    }
    for row in adj.iter_mut() {
        row.sort();
    }
    let mut matrix: Vec<Vec<bool>> = Vec::new();
    for i in 0..n {
        let mut row = Vec::new();
        for j in 0..n {
            row.push(i == j || adj[i].contains(&j));
        }
        matrix.push(row);
    }
    let nodes: Vec<AttributeVector> =
        (0..n).map(|i| record(i, Vec::new(), flags.get(i).copied().unwrap_or(false))).collect();
    Graph::new(n, nodes, adj, matrix)
}

#[test]
fn bfs_line_graph_distances() {
    // Nodes {A, B, C} with edges A-B and B-C but no A-C:
    // distances from A are {A: 0, B: 1, C: 2}.
    let g = graph_from_edges(3, &[(0, 1), (1, 2)], &[false, false, false]);
    let d = g.node_distance(0).expect("node 0 is in the graph");
    assert_eq!(d, vec![Some(0), Some(1), Some(2)]);
}

#[test]
fn bfs_unreachable_is_none() {
    let g = graph_from_edges(3, &[(0, 1)], &[false, false, false]);
    let d = g.node_distance(0).expect("node 0 is in the graph");
    assert_eq!(d, vec![Some(0), Some(1), None]);
}

#[test]
fn node_distance_not_found() {
    let g = graph_from_edges(2, &[(0, 1)], &[false, false]);
    assert_eq!(g.node_distance(2), Err(GraphError::NotFound));
}

#[test]
fn distances_all_rows() {
    let g = graph_from_edges(2, &[(0, 1)], &[false, false]);
    let all = g.distances();
    assert_eq!(all.len(), 2);
    assert_eq!(all[0], vec![Some(0), Some(1)]);
    assert_eq!(all[1], vec![Some(1), Some(0)]);
}

#[test]
fn components_two_groups() {
    // Disjoint {A-B} and {C}: two components, A and B share a label, C is
    // alone with a different one.
    let g = graph_from_edges(3, &[(0, 1)], &[false, false, false]);
    let (labels, count) = g.components();
    assert_eq!(count, 2);
    assert_eq!(labels.len(), 3);
    assert_eq!(labels[0], labels[1]);
    assert_ne!(labels[0], labels[2]);
    assert!(labels.iter().all(|&c| c >= 1 && c <= count));
}

#[test]
fn components_connected_graph_is_one() {
    let g = graph_from_edges(4, &[(0, 1), (1, 2), (2, 3)], &[false; 4]);
    let (labels, count) = g.components();
    assert_eq!(count, 1);
    assert!(labels.iter().all(|&c| c == 1));
}

#[test]
fn density_path_graph() {
    // Path on 3 nodes: 2 undirected edges of 3 possible.
    let g = graph_from_edges(3, &[(0, 1), (1, 2)], &[false; 3]);
    let d = g.edge_density().expect("defined for n >= 2");
    assert_eq!((d.num, d.den), (2, 3));
}

#[test]
fn density_complete_graph_is_one() {
    let g = graph_from_edges(3, &[(0, 1), (1, 2), (0, 2)], &[false; 3]);
    let d = g.edge_density().expect("defined for n >= 2");
    assert_eq!((d.num, d.den), (3, 3));
}

#[test]
fn density_undefined_below_two_nodes() {
    let g0 = graph_from_edges(0, &[], &[]);
    assert!(g0.edge_density().is_none());
    let g1 = graph_from_edges(1, &[], &[false]);
    assert!(g1.edge_density().is_none());
}

#[test]
fn clustering_triangle_is_one() {
    // Triangle {A-B, B-C, A-C}: each node has degree 2 with its 1 possible
    // neighbor pair connected, so every node scores 1 and the mean is 1.
    let g = graph_from_edges(3, &[(0, 1), (1, 2), (0, 2)], &[false; 3]);
    let c = g.clustering_coefficient().expect("small exact values");
    assert_eq!((c.num, c.den), (1, 1));
}

#[test]
fn clustering_path_graph_is_zero() {
    let g = graph_from_edges(3, &[(0, 1), (1, 2)], &[false; 3]);
    let c = g.clustering_coefficient().expect("small exact values");
    assert_eq!(c.num, 0);
    assert!(c.den > 0);
}

#[test]
fn clustering_mixed_graph_exact_value() {
    // Triangle 0-1-2 plus a pendant node 3 on node 0.
    // Node 0: degree 3, 1 connected pair of 3 -> 1/3; nodes 1, 2: 1/1;
    // node 3: degree 1 -> 0. Sum 7/3, over 4 nodes: 7/12.
    let g = graph_from_edges(4, &[(0, 1), (1, 2), (0, 2), (0, 3)], &[false; 4]);
    let c = g.clustering_coefficient().expect("small exact values");
    assert_eq!((c.num, c.den), (7, 12));
}

#[test]
fn clustering_empty_graph_undefined() {
    let g = graph_from_edges(0, &[], &[]);
    assert!(g.clustering_coefficient().is_none());
}

#[test]
fn average_path_length_line_graph() {
    // Ordered pairs of the path 0-1-2: four at distance 1 (0,1),(1,0),
    // (1,2),(2,1) and two at distance 2: total 8 over 6 pairs.
    let g = graph_from_edges(3, &[(0, 1), (1, 2)], &[false; 3]);
    let a = g.average_path_length().expect("connected pairs exist");
    assert_eq!((a.num, a.den), (8, 6));
}

#[test]
fn average_path_length_disconnected_undefined() {
    let g = graph_from_edges(2, &[], &[false, false]);
    assert!(g.average_path_length().is_none());
    let g1 = graph_from_edges(1, &[], &[false]);
    assert!(g1.average_path_length().is_none());
}

#[test]
fn predict_angina_threshold_behavior() {
    // A node with 3 neighbors, 2 of them positive: ratio 2/3 exceeds 0.5,
    // so threshold 1/2 predicts positive and threshold 7/10 predicts
    // negative.
    let flags = [false, true, true, false];
    let g = graph_from_edges(4, &[(0, 1), (0, 2), (0, 3)], &flags);
    assert_eq!(g.predict_angina(0, Ratio::new(1, 2)), Some(true));
    assert_eq!(g.predict_angina(0, Ratio::new(7, 10)), Some(false));
}

#[test]
fn predict_angina_no_neighbors_or_absent() {
    let g = graph_from_edges(2, &[], &[true, true]);
    assert_eq!(g.predict_angina(0, Ratio::new(1, 2)), None);
    assert_eq!(g.predict_angina(5, Ratio::new(1, 2)), None);
}

#[test]
fn high_risk_pts_membership_and_order() {
    // Star around node 0 with flagged leaves: node 0 sees 3/3 flagged,
    // each leaf sees 0/1. At threshold 1/2 only node 0 qualifies.
    let flags = [false, true, true, true];
    let g = graph_from_edges(4, &[(0, 1), (0, 2), (0, 3)], &flags);
    assert_eq!(g.high_risk_pts(Ratio::new(1, 2)), vec![0]);
    // Every leaf of a flagged center meets any threshold up to 1.
    let flags2 = [true, false, false, false];
    let g2 = graph_from_edges(4, &[(0, 1), (0, 2), (0, 3)], &flags2);
    assert_eq!(g2.high_risk_pts(Ratio::new(1, 1)), vec![1, 2, 3]);
}

#[test]
fn high_risk_pts_meets_is_inclusive() {
    // Node 0 sees exactly 1 of 2 flagged: it meets 1/2 (so it is in the
    // high-risk set) without exceeding it (so the strict prediction says
    // no). Nodes 1 and 2 see only the unflagged node 0.
    let flags = [false, true, false];
    let g = graph_from_edges(3, &[(0, 1), (0, 2)], &flags);
    assert_eq!(g.high_risk_pts(Ratio::new(1, 2)), vec![0]);
    assert_eq!(g.predict_angina(0, Ratio::new(1, 2)), Some(false));
}

#[test]
fn recommend_strict_majority() {
    let nodes = vec![
        record(0, Vec::new(), false),
        record(1, Vec::new(), true),
        record(2, Vec::new(), true),
        record(3, Vec::new(), false),
    ];
    // Node 0 sees 2/3 flagged (> 1/2), node 1 sees 0/1, node 2 sees 0/1,
    // node 3 has no neighbors (never recommended).
    let edges = vec![vec![1, 2, 3], vec![0], vec![0], Vec::new()];
    let r = recommend(&edges, &nodes, Ratio::new(1, 2));
    assert_eq!(r, vec![true, false, false, false]);
}

#[test]
fn symmetrize_adds_reverse_edges() {
    // A directed-only edge 0 -> 1 gains its reverse, and nothing else.
    let nodes = vec![record(0, Vec::new(), false), record(1, Vec::new(), false)];
    let adj = vec![vec![1], Vec::new()];
    let matrix = vec![vec![true, true], vec![false, true]];
    let mut g = Graph::new(2, nodes, adj, matrix);
    g.undirected();
    assert_eq!(g.analyze_neighborhoods(), vec![vec![1], vec![0]]);
}

#[test]
fn symmetrize_is_idempotent() {
    let nodes: Vec<AttributeVector> = (0..3).map(|i| record(i, Vec::new(), false)).collect();
    let adj = vec![vec![1], vec![2], Vec::new()];
    let matrix = vec![
        vec![true, true, false],
        vec![false, true, true],
        vec![false, false, true],
    ];
    let mut g = Graph::new(3, nodes, adj, matrix);
    g.undirected();
    let once = g.analyze_neighborhoods();
    g.undirected();
    let twice = g.analyze_neighborhoods();
    let as_sets = |rows: &Vec<Vec<usize>>| -> Vec<std::collections::BTreeSet<usize>> {
        rows.iter().map(|r| r.iter().copied().collect()).collect()
    };
    assert_eq!(as_sets(&once), as_sets(&twice));
    for row in twice.iter() {
        let mut sorted = row.clone();
        sorted.dedup();
        assert_eq!(sorted.len(), row.len(), "no duplicate neighbor entries");
    }
}

#[test]
fn symmetrize_symmetry_law() {
    let nodes: Vec<AttributeVector> = (0..3).map(|i| record(i, Vec::new(), false)).collect();
    let adj = vec![vec![1, 2], Vec::new(), vec![1]];
    let matrix = vec![
        vec![true, true, true],
        vec![false, true, false],
        vec![false, true, true],
    ];
    let mut g = Graph::new(3, nodes, adj, matrix);
    g.undirected();
    let rows = g.analyze_neighborhoods();
    for u in 0..3 {
        for &v in &rows[u] {
            assert!(rows[v].contains(&u), "{} and {} must both list each other", u, v);
        }
    }
}

#[test]
fn empty_input_yields_empty_graph() {
    // GraphBuilder on no records: empty edges map, 0x0 matrix, and the
    // ratio metrics report undefined.
    let nodes: Vec<AttributeVector> = Vec::new();
    let metric = SimilarityMetric::Euclid { features: Vec::new(), threshold_milli: 450 };
    let (edges, matrix) = createadj(&nodes, &metric);
    assert!(edges.is_empty());
    assert!(matrix.is_empty());
    let g = Graph::new(0, nodes, edges, matrix);
    assert!(g.edge_density().is_none());
    assert!(g.average_path_length().is_none());
}

#[test]
fn createadj_euclid_exact_threshold() {
    // One feature, values 0 and 100; the dataset maximum is 100, so the
    // normalized difference is exactly 1000 thousandths and the pair is
    // connected at threshold 1000 but not at 999.
    let nodes = vec![record(0, vec![0], false), record(1, vec![100], false)];
    let metric = SimilarityMetric::Euclid { features: vec![0], threshold_milli: 1000 };
    let (edges, matrix) = createadj(&nodes, &metric);
    assert_eq!(edges, vec![vec![1], vec![0]]);
    assert_eq!(matrix, vec![vec![true, true], vec![true, true]]);
    let tight = SimilarityMetric::Euclid { features: vec![0], threshold_milli: 999 };
    let (edges2, matrix2) = createadj(&nodes, &tight);
    assert_eq!(edges2, vec![Vec::<usize>::new(), Vec::<usize>::new()]);
    assert_eq!(matrix2, vec![vec![true, false], vec![false, true]]);
}

#[test]
fn createadj_euclid_two_features() {
    // Both features differ by half their maximum of 100, so each
    // contributes 500 thousandths: 500^2 + 500^2 = 500000, within a
    // threshold of 0.71 (squared 504100) but not 0.70 (squared 490000).
    let nodes = vec![record(0, vec![50, 100], false), record(1, vec![100, 50], false)];
    let metric = SimilarityMetric::Euclid { features: vec![0, 1], threshold_milli: 710 };
    let (edges, _) = createadj(&nodes, &metric);
    assert_eq!(edges[0], vec![1]);
    let tight = SimilarityMetric::Euclid { features: vec![0, 1], threshold_milli: 700 };
    let (edges2, _) = createadj(&nodes, &tight);
    assert!(edges2[0].is_empty());
}

#[test]
fn createadj_zero_maximum_contributes_nothing() {
    // A feature that is zero everywhere has normalization bound zero and
    // contributes zero to every distance by policy.
    let nodes = vec![record(0, vec![0], false), record(1, vec![0], false)];
    let metric = SimilarityMetric::Euclid { features: vec![0], threshold_milli: 0 };
    let (edges, _) = createadj(&nodes, &metric);
    assert_eq!(edges, vec![vec![1], vec![0]]);
}

#[test]
fn createadj_weighted_metric() {
    // Score = 2 * |10 - 4| - 5 (flags agree) = 7: connected at threshold 7,
    // not at 6; with disagreeing flags the score is 12.
    let agree = vec![record(0, vec![10], true), record(1, vec![4], true)];
    let m7 = SimilarityMetric::Weighted { weights: vec![2], flag_bonus: 5, threshold: 7 };
    let (edges, _) = createadj(&agree, &m7);
    assert_eq!(edges[0], vec![1]);
    let m6 = SimilarityMetric::Weighted { weights: vec![2], flag_bonus: 5, threshold: 6 };
    let (edges2, _) = createadj(&agree, &m6);
    assert!(edges2[0].is_empty());
    let disagree = vec![record(0, vec![10], true), record(1, vec![4], false)];
    let m11 = SimilarityMetric::Weighted { weights: vec![2], flag_bonus: 5, threshold: 11 };
    let (edges3, _) = createadj(&disagree, &m11);
    assert!(edges3[0].is_empty());
}

#[test]
fn createadj_diagonal_and_no_self_loops() {
    let nodes = vec![record(0, vec![1], false), record(1, vec![1], false)];
    let metric = SimilarityMetric::Euclid { features: vec![0], threshold_milli: 1000 };
    let (edges, matrix) = createadj(&nodes, &metric);
    for i in 0..2 {
        assert!(matrix[i][i]);
        assert!(!edges[i].contains(&i));
    }
}

#[test]
fn graph_initialization_holds_parts() {
    let nodes = vec![record(0, vec![5], true), record(1, vec![6], false)];
    let metric = SimilarityMetric::Euclid { features: vec![0], threshold_milli: 1000 };
    let n = nodes.len();
    let (adj_map, adj_matrix) = createadj(&nodes, &metric);
    let g = Graph::new(n, nodes, adj_map, adj_matrix);
    assert_eq!(g.n, n, "Graph should initialize with the correct number of nodes.");
}
