use ngrammatic::vec_bipartite_graph::WeightedVecBipartiteGraph;

/// Two keys and three grams: key 0 has grams 0 (twice) and 1, key 1 has grams
/// 1 and 2.
fn small_graph() -> WeightedVecBipartiteGraph {
    WeightedVecBipartiteGraph::new(
        vec![2, 1, 1, 1],
        vec![0, 2, 4],
        vec![0, 1, 3, 4],
        vec![0, 0, 1, 1],
        vec![0, 1, 1, 2],
    )
}

#[test]
fn sizes_and_degrees() {
    let g = small_graph();
    assert_eq!(g.number_of_source_nodes(), 2);
    assert_eq!(g.number_of_destination_nodes(), 3);
    assert_eq!(g.number_of_edges(), 4);
    assert_eq!(g.src_degree(0), 2);
    assert_eq!(g.src_degree(1), 2);
    assert_eq!(g.dst_degree(1), 2);
    assert_eq!(g.degrees(), vec![2, 2, 1, 2, 1]);
    assert_eq!(g.src_comulative_outbound_degree(1), 2);
    assert_eq!(g.dst_comulative_inbound_degree(2), 3);
}

#[test]
fn neighbours_and_weights() {
    let g = small_graph();
    assert_eq!(g.dsts_from_src(0), vec![0, 1]);
    assert_eq!(g.dsts_from_src(1), vec![1, 2]);
    assert_eq!(g.weights_from_src(0), vec![2, 1]);
    assert_eq!(g.srcs_from_dst(1), vec![0, 1]);
    assert_eq!(g.weights(), vec![2, 1, 1, 1]);
}

#[test]
fn ids_from_edge_ids() {
    let g = small_graph();
    // Each edge id gives the node whose range of edges holds it.
    assert_eq!(g.src_id_from_edge_id(0), 0);
    assert_eq!(g.src_id_from_edge_id(1), 0);
    assert_eq!(g.src_id_from_edge_id(2), 1);
    assert_eq!(g.src_id_from_edge_id(3), 1);
    assert_eq!(g.dst_id_from_edge_id(0), 0);
    assert_eq!(g.dst_id_from_edge_id(1), 1);
    assert_eq!(g.dst_id_from_edge_id(2), 1);
    assert_eq!(g.dst_id_from_edge_id(3), 2);
    // Past the edges: the index of the last offset when equal to it, the
    // insertion point beyond it.
    assert_eq!(g.src_id_from_edge_id(4), 2);
    assert_eq!(g.src_id_from_edge_id(5), 3);
}

#[test]
fn ids_from_edge_ids_of_wider_ranges() {
    // Source 0 owns edges 0..2, source 1 owns edges 2..5.
    let g = WeightedVecBipartiteGraph::new(
        vec![1; 5],
        vec![0, 2, 5],
        vec![0, 5],
        vec![0; 5],
        vec![0, 0, 1, 1, 1],
    );
    assert_eq!(g.src_id_from_edge_id(0), 0);
    assert_eq!(g.src_id_from_edge_id(1), 0);
    assert_eq!(g.src_id_from_edge_id(2), 1);
    assert_eq!(g.src_id_from_edge_id(3), 1);
    assert_eq!(g.src_id_from_edge_id(4), 1);
    assert_eq!(g.dst_id_from_edge_id(4), 0);
}

#[test]
fn ids_from_edge_ids_skip_empty_ranges() {
    // Key 0 has no edge: edge 0 belongs to key 1.
    let g = WeightedVecBipartiteGraph::new(
        vec![1, 1],
        vec![0, 0, 2],
        vec![0, 1, 2],
        vec![0, 1],
        vec![1, 1],
    );
    assert_eq!(g.src_id_from_edge_id(0), 1);
    assert_eq!(g.src_id_from_edge_id(1), 1);
}

#[test]
fn all_edges_in_order() {
    let g = small_graph();
    let edges = g.edges();
    assert_eq!(edges.len(), 8);
    let listed: Vec<(usize, usize, Option<usize>)> =
        edges.iter().map(|e| (e.src(), e.dst(), e.weight())).collect();
    assert_eq!(
        listed,
        vec![
            (0, 2, Some(2)),
            (0, 3, Some(1)),
            (1, 3, Some(1)),
            (1, 4, Some(1)),
            (2, 0, None),
            (3, 0, None),
            (3, 1, None),
            (4, 1, None),
        ]
    );
    assert_eq!(edges[1].endpoints(), (0, 3));
}
