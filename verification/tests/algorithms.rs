use fast_transit_network::atomic_union_find::AtomicUnionFind;
use fast_transit_network::bfs::{bfs_parallel, bfs_sequential};
use fast_transit_network::edge_list::{parse_edge_line, parse_edge_list, LineParse, ParseError};
use fast_transit_network::graph::{build_csr, Graph};
use fast_transit_network::pagerank::{chunk_ranges, sink_nodes};
use fast_transit_network::union_find::UnionFind;
use fast_transit_network::wcc::{wcc_parallel, wcc_sequential, wcc_stats};

fn graph_3_node_path() -> (Graph, Vec<(usize, usize)>) {
    let edges = vec![(0, 1), (1, 2)];
    let g = build_csr(3, edges.clone());
    (g, edges)
}

fn graph_4_node_diamond() -> Graph {
    let edges = vec![(0, 1), (0, 2), (1, 3), (2, 3)];
    build_csr(4, edges)
}

fn graph_two_components() -> Graph {
    let edges = vec![(0, 1), (1, 0), (2, 3)];
    build_csr(4, edges)
}

fn graph_single_node() -> Graph {
    build_csr(1, vec![])
}

fn graph_empty() -> Graph {
    build_csr(0, vec![])
}

fn graph_two_nodes_one_edge() -> Graph {
    build_csr(2, vec![(0, 1)])
}

fn graph_two_node_cycle() -> Graph {
    build_csr(2, vec![(0, 1), (1, 0)])
}

fn graph_three_node_cycle() -> Graph {
    build_csr(3, vec![(0, 1), (1, 2), (2, 0)])
}

fn graph_5_node_path() -> Graph {
    let edges = vec![(0, 1), (1, 2), (2, 3), (3, 4)];
    build_csr(5, edges)
}

/// Star: 0 -> 1, 0 -> 2, 0 -> 3 (center 0)
fn graph_star_4() -> Graph {
    build_csr(4, vec![(0, 1), (0, 2), (0, 3)])
}

/// One isolated node (0), path 1->2->3
fn graph_isolated_plus_path() -> Graph {
    build_csr(4, vec![(1, 2), (2, 3)])
}

/// Four isolated nodes (no edges)
fn graph_four_isolated() -> Graph {
    build_csr(4, vec![])
}

/// Sink: 0 -> 1 -> 2, node 2 has no outgoing edges
fn graph_with_sink() -> Graph {
    build_csr(3, vec![(0, 1), (1, 2)])
}

/// Duplicate edges: 0->1, 0->1 (both kept in CSR)
fn graph_duplicate_edges() -> Graph {
    build_csr(2, vec![(0, 1), (0, 1)])
}

/// Large chain (100_001 nodes) for seq vs par correctness.
fn large_chain_graph() -> Graph {
    let n = 100_001_usize;
    let edges: Vec<(usize, usize)> = (0..n - 1).map(|i| (i, i + 1)).collect();
    build_csr(n, edges)
}

#[test]
fn bfs_small_path_distances() {
    let (graph, _) = graph_3_node_path();
    let dist = bfs_sequential(&graph, 0);
    assert_eq!(dist.len(), 3);
    assert_eq!(dist[0], 0);
    assert_eq!(dist[1], 1);
    assert_eq!(dist[2], 2);
}

#[test]
fn bfs_small_path_from_middle() {
    let (graph, _) = graph_3_node_path();
    let dist = bfs_sequential(&graph, 1);
    assert_eq!(dist[0], -1);
    assert_eq!(dist[1], 0);
    assert_eq!(dist[2], 1);
}

#[test]
fn bfs_diamond_distances() {
    let graph = graph_4_node_diamond();
    let dist = bfs_sequential(&graph, 0);
    assert_eq!(dist[0], 0);
    assert_eq!(dist[1], 1);
    assert_eq!(dist[2], 1);
    assert_eq!(dist[3], 2);
}

#[test]
fn bfs_single_node() {
    let graph = graph_single_node();
    let dist = bfs_sequential(&graph, 0);
    assert_eq!(dist.len(), 1);
    assert_eq!(dist[0], 0);
}

#[test]
fn bfs_invalid_source() {
    let (graph, _) = graph_3_node_path();
    let dist = bfs_sequential(&graph, 99);
    assert_eq!(dist.len(), 3);
    assert!(dist.iter().all(|&d| d == -1));
}

#[test]
fn bfs_empty_graph() {
    let graph = graph_empty();
    let dist = bfs_sequential(&graph, 0);
    assert_eq!(dist.len(), 0);
}

#[test]
fn bfs_two_nodes_one_edge() {
    let graph = graph_two_nodes_one_edge();
    let dist = bfs_sequential(&graph, 0);
    assert_eq!(dist[0], 0);
    assert_eq!(dist[1], 1);
}

#[test]
fn bfs_two_nodes_from_sink() {
    let graph = graph_two_nodes_one_edge();
    let dist = bfs_sequential(&graph, 1);
    assert_eq!(dist[0], -1);
    assert_eq!(dist[1], 0);
}

#[test]
fn bfs_two_node_cycle() {
    let graph = graph_two_node_cycle();
    let dist = bfs_sequential(&graph, 0);
    assert_eq!(dist[0], 0);
    assert_eq!(dist[1], 1);
}

#[test]
fn bfs_5_node_path() {
    let graph = graph_5_node_path();
    let dist = bfs_sequential(&graph, 0);
    for i in 0..5 {
        assert_eq!(dist[i], i as i32);
    }
}

#[test]
fn bfs_star_from_center() {
    let graph = graph_star_4();
    let dist = bfs_sequential(&graph, 0);
    assert_eq!(dist[0], 0);
    assert_eq!(dist[1], 1);
    assert_eq!(dist[2], 1);
    assert_eq!(dist[3], 1);
}

#[test]
fn bfs_star_from_leaf() {
    let graph = graph_star_4();
    let dist = bfs_sequential(&graph, 1);
    assert_eq!(dist[0], -1);
    assert_eq!(dist[1], 0);
    assert_eq!(dist[2], -1);
    assert_eq!(dist[3], -1);
}

#[test]
fn bfs_isolated_plus_path() {
    let graph = graph_isolated_plus_path();
    let dist = bfs_sequential(&graph, 1);
    assert_eq!(dist[0], -1);
    assert_eq!(dist[1], 0);
    assert_eq!(dist[2], 1);
    assert_eq!(dist[3], 2);
}

#[test]
fn bfs_deterministic_same_twice() {
    let (graph, _) = graph_3_node_path();
    let a = bfs_sequential(&graph, 0);
    let b = bfs_sequential(&graph, 0);
    assert_eq!(a, b);
}

#[test]
fn graph_neighbors_out_of_range() {
    let graph = graph_single_node();
    let n = graph.neighbors(0);
    assert!(n.is_empty());
    let n = graph.neighbors(1);
    assert!(n.is_empty());
}

#[test]
fn graph_empty_num_edges_zero() {
    let graph = graph_empty();
    assert_eq!(graph.num_nodes, 0);
    assert_eq!(graph.num_edges, 0);
}

#[test]
fn graph_duplicate_edges_kept() {
    let graph = graph_duplicate_edges();
    assert_eq!(graph.num_edges, 2);
    assert_eq!(graph.neighbors(0).len(), 2);
}

#[test]
fn graph_build_csr_no_edges() {
    let g = build_csr(3, vec![]);
    assert_eq!(g.num_nodes, 3);
    assert_eq!(g.num_edges, 0);
    assert!(g.neighbors(0).is_empty());
}

#[test]
fn graph_is_valid_node() {
    let graph = graph_3_node_path().0;
    assert!(graph.is_valid_node(0));
    assert!(graph.is_valid_node(2));
    assert!(!graph.is_valid_node(3));
}

#[test]
fn bfs_from_sink_only_self() {
    let graph = graph_with_sink();
    let dist = bfs_sequential(&graph, 2);
    assert_eq!(dist[0], -1);
    assert_eq!(dist[1], -1);
    assert_eq!(dist[2], 0);
}

#[test]
fn wcc_small_path_one_component() {
    let (graph, _) = graph_3_node_path();
    let comp = wcc_sequential(&graph);
    assert_eq!(comp.len(), 3);
    assert_eq!(comp[0], comp[1]);
    assert_eq!(comp[1], comp[2]);
    let stats = wcc_stats(&comp);
    assert_eq!(stats.num_components, 1);
    assert_eq!(stats.largest_component, 3);
}

#[test]
fn wcc_two_components() {
    let graph = graph_two_components();
    let comp = wcc_sequential(&graph);
    assert_eq!(comp.len(), 4);
    assert_eq!(comp[0], comp[1]);
    assert_eq!(comp[2], comp[3]);
    assert_ne!(comp[0], comp[2]);
    let stats = wcc_stats(&comp);
    assert_eq!(stats.num_components, 2);
}

#[test]
fn wcc_single_node() {
    let graph = graph_single_node();
    let comp = wcc_sequential(&graph);
    assert_eq!(comp.len(), 1);
    let stats = wcc_stats(&comp);
    assert_eq!(stats.num_components, 1);
}

#[test]
fn wcc_empty_graph() {
    let graph = graph_empty();
    let comp = wcc_sequential(&graph);
    assert_eq!(comp.len(), 0);
}

#[test]
fn wcc_two_node_cycle_one_component() {
    let graph = graph_two_node_cycle();
    let comp = wcc_sequential(&graph);
    assert_eq!(comp[0], comp[1]);
    assert_eq!(wcc_stats(&comp).num_components, 1);
}

#[test]
fn wcc_three_node_cycle_one_component() {
    let graph = graph_three_node_cycle();
    let comp = wcc_sequential(&graph);
    assert_eq!(comp[0], comp[1]);
    assert_eq!(comp[1], comp[2]);
    assert_eq!(wcc_stats(&comp).num_components, 1);
}

#[test]
fn wcc_diamond_one_component() {
    let graph = graph_4_node_diamond();
    let comp = wcc_sequential(&graph);
    let stats = wcc_stats(&comp);
    assert_eq!(stats.num_components, 1);
    assert_eq!(stats.largest_component, 4);
}

#[test]
fn wcc_four_isolated_four_components() {
    let graph = graph_four_isolated();
    let comp = wcc_sequential(&graph);
    let stats = wcc_stats(&comp);
    assert_eq!(stats.num_components, 4);
    assert_eq!(stats.largest_component, 1);
}

#[test]
fn wcc_star_one_component() {
    let graph = graph_star_4();
    let comp = wcc_sequential(&graph);
    assert_eq!(wcc_stats(&comp).num_components, 1);
}

#[test]
fn wcc_5_node_path_one_component() {
    let graph = graph_5_node_path();
    let comp = wcc_sequential(&graph);
    assert_eq!(wcc_stats(&comp).num_components, 1);
}

#[test]
fn wcc_isolated_plus_path_two_components() {
    let graph = graph_isolated_plus_path();
    let comp = wcc_sequential(&graph);
    assert_eq!(wcc_stats(&comp).num_components, 2);
}

#[test]
fn wcc_component_sizes_sum_to_nodes() {
    let graph = graph_two_components();
    let comp = wcc_sequential(&graph);
    let stats = wcc_stats(&comp);
    let sum: usize = stats.component_sizes.values().sum();
    assert_eq!(sum, 4);
}

#[test]
fn wcc_stats_smallest_largest() {
    let graph = graph_two_components();
    let comp = wcc_sequential(&graph);
    let stats = wcc_stats(&comp);
    assert_eq!(stats.smallest_component, 2);
    assert_eq!(stats.largest_component, 2);
}

#[test]
fn graph_star_out_degree() {
    let graph = graph_star_4();
    assert_eq!(graph.neighbors(0).len(), 3);
    assert!(graph.neighbors(1).is_empty());
}

#[test]
fn wcc_duplicate_edges_still_one_component() {
    let graph = graph_duplicate_edges();
    let comp = wcc_sequential(&graph);
    assert_eq!(comp[0], comp[1]);
}

#[test]
fn bfs_seq_par_same_distances() {
    let graph = large_chain_graph();
    let dist_seq = bfs_sequential(&graph, 0);
    let dist_par = bfs_parallel(&graph, 0, 4);
    assert_eq!(dist_seq.len(), dist_par.len());
    assert_eq!(dist_seq, dist_par, "BFS sequential and parallel must produce the same distances");
}

#[test]
fn wcc_seq_par_same_partition() {
    let graph = large_chain_graph();
    let comp_seq = wcc_sequential(&graph);
    let comp_par = wcc_parallel(&graph, 4);
    assert_eq!(comp_seq.len(), comp_par.len());

    let stats_seq = wcc_stats(&comp_seq);
    let stats_par = wcc_stats(&comp_par);
    assert_eq!(stats_seq.num_components, stats_par.num_components);

    let mut sizes_seq: Vec<usize> = stats_seq.component_sizes.values().copied().collect();
    let mut sizes_par: Vec<usize> = stats_par.component_sizes.values().copied().collect();
    sizes_seq.sort();
    sizes_par.sort();
    assert_eq!(sizes_seq, sizes_par, "WCC: same component size distribution");
}

#[test]
fn bfs_seq_par_agree_small_graphs() {
    for (n, edges, src) in [
        (3usize, vec![(0usize, 1usize), (1, 2)], 0usize),
        (4, vec![(0, 1), (0, 2), (1, 3), (2, 3)], 0),
        (4, vec![(1, 2), (2, 3)], 1),
        (2, vec![(0, 1), (0, 1)], 0),
    ] {
        let g = build_csr(n, edges);
        for threads in [1, 2, 4] {
            assert_eq!(bfs_sequential(&g, src), bfs_parallel(&g, src, threads));
        }
    }
}

#[test]
fn bfs_edge_property_diamond() {
    let graph = graph_4_node_diamond();
    let dist = bfs_sequential(&graph, 0);
    for u in 0..graph.num_nodes {
        if dist[u] >= 0 {
            for &v in graph.neighbors(u) {
                assert!(dist[v] >= 0);
                assert!(dist[v] <= dist[u] + 1);
            }
        }
    }
    assert_eq!(dist[0], 0);
}

#[test]
fn bfs_parallel_invalid_source() {
    let (graph, _) = graph_3_node_path();
    let dist = bfs_parallel(&graph, 7, 2);
    assert!(dist.iter().all(|&d| d == -1));
}

#[test]
fn wcc_seq_par_agree_small_graphs() {
    for (n, edges) in [
        (3usize, vec![(0usize, 1usize), (1, 2)]),
        (4, vec![(0, 1), (0, 2), (1, 3), (2, 3)]),
        (4, vec![(1, 2), (2, 3)]),
        (4, vec![]),
    ] {
        let g = build_csr(n, edges);
        let seq = wcc_stats(&wcc_sequential(&g));
        let par = wcc_stats(&wcc_parallel(&g, 4));
        assert_eq!(seq.num_components, par.num_components);
        assert_eq!(seq.largest_component, par.largest_component);
        assert_eq!(seq.smallest_component, par.smallest_component);
    }
}

#[test]
fn union_find_idempotent_find() {
    let mut uf = UnionFind::new(6);
    assert!(uf.union(0, 1));
    assert!(uf.union(1, 2));
    assert!(!uf.union(0, 2));
    let r = uf.find(0);
    assert_eq!(uf.find(r), r);
    assert_eq!(uf.find(0), uf.find(1));
    assert_eq!(uf.find(1), uf.find(2));
    assert_ne!(uf.find(0), uf.find(3));
    assert_eq!(uf.count_components(), 4);
    let comps = uf.get_components();
    assert_eq!(comps.len(), 6);
    assert_eq!(comps[0], comps[1]);
    assert_eq!(comps[1], comps[2]);
}

#[test]
fn atomic_union_find_merge_direction() {
    let mut uf = AtomicUnionFind::new(5);
    uf.union(0, 1);
    // the smaller root goes below the larger one
    assert_eq!(uf.find(0), 1);
    assert_eq!(uf.find(1), 1);
    uf.union(1, 4);
    assert_eq!(uf.find(0), 4);
    let r = uf.find(2);
    assert_eq!(uf.find(r), r);
    let comps = uf.get_components();
    assert_eq!(comps, vec![4, 4, 2, 3, 4]);
}

#[test]
fn graph_neighbors_keep_insertion_order() {
    let g = build_csr(4, vec![(0, 3), (0, 1), (1, 2), (0, 1)]);
    assert_eq!(g.neighbors(0), &[3, 1, 1]);
    assert_eq!(g.neighbors(1), &[2]);
    assert_eq!(g.neighbors(2), &[] as &[usize]);
    assert_eq!(g.out_degree, vec![3, 1, 0, 0]);
    assert_eq!(g.offsets, vec![0, 3, 4, 4, 4]);
}

#[test]
fn parse_line_valid_edge() {
    assert!(matches!(parse_edge_line(b"0 1"), LineParse::Edge(0, 1)));
    assert!(matches!(parse_edge_line(b"  12\t34  "), LineParse::Edge(12, 34)));
    assert!(matches!(parse_edge_line(b"+5 7 extra"), LineParse::Edge(5, 7)));
}

#[test]
fn parse_line_skipped() {
    assert!(matches!(parse_edge_line(b""), LineParse::Skip));
    assert!(matches!(parse_edge_line(b"   \t"), LineParse::Skip));
    assert!(matches!(parse_edge_line(b"# comment 1 2"), LineParse::Skip));
    assert!(matches!(parse_edge_line(b"// comment 1 2"), LineParse::Skip));
    assert!(matches!(parse_edge_line(b"42"), LineParse::Skip));
}

#[test]
fn parse_line_malformed() {
    match parse_edge_line(b"x 1") {
        LineParse::BadSource(t) => assert_eq!(t, b"x".to_vec()),
        _ => panic!("expected a bad source"),
    }
    match parse_edge_line(b"1 y2") {
        LineParse::BadTarget(t) => assert_eq!(t, b"y2".to_vec()),
        _ => panic!("expected a bad target"),
    }
    assert!(matches!(parse_edge_line(b"/ 1"), LineParse::BadSource(_)));
    assert!(matches!(parse_edge_line(b"+ 1"), LineParse::BadSource(_)));
    assert!(matches!(
        parse_edge_line(b"99999999999999999999999999 1"),
        LineParse::BadSource(_)
    ));
}

#[test]
fn parse_edge_list_valid() {
    let lines: Vec<Vec<u8>> = vec![b"0 1".to_vec(), b"1 2".to_vec(), b"2 0".to_vec()];
    let el = parse_edge_list(&lines).unwrap();
    assert_eq!(el.num_nodes, 3);
    assert_eq!(el.edges, vec![(0, 1), (1, 2), (2, 0)]);
}

#[test]
fn parse_edge_list_with_comments() {
    let lines: Vec<Vec<u8>> = vec![
        b"// comment".to_vec(),
        b"0 1".to_vec(),
        b"# another".to_vec(),
        b"1 0".to_vec(),
    ];
    let el = parse_edge_list(&lines).unwrap();
    assert_eq!(el.num_nodes, 2);
    assert_eq!(el.edges.len(), 2);
}

#[test]
fn parse_edge_list_empty_input() {
    let lines: Vec<Vec<u8>> = vec![];
    let el = parse_edge_list(&lines).unwrap();
    assert_eq!(el.num_nodes, 1);
    assert!(el.edges.is_empty());
}

#[test]
fn parse_edge_list_errors() {
    let bad_src: Vec<Vec<u8>> = vec![b"0 1".to_vec(), b"a 2".to_vec()];
    assert!(matches!(parse_edge_list(&bad_src), Err(ParseError::InvalidSource(_))));
    let bad_dst: Vec<Vec<u8>> = vec![b"0 1".to_vec(), b"2 -3".to_vec()];
    assert!(matches!(parse_edge_list(&bad_dst), Err(ParseError::InvalidTarget(_))));
    let huge: Vec<Vec<u8>> = vec![format!("{} 0", usize::MAX).into_bytes()];
    assert!(matches!(parse_edge_list(&huge), Err(ParseError::TooManyNodes)));
}

#[test]
fn parse_edge_list_feeds_csr() {
    let lines: Vec<Vec<u8>> = vec![b"0 1".to_vec(), b"0 1".to_vec()];
    let el = parse_edge_list(&lines).unwrap();
    assert_eq!(el.num_nodes, 2);
    let g = build_csr(el.num_nodes, el.edges);
    assert_eq!(g.num_edges, 2);
    assert_eq!(g.neighbors(0).len(), 2);
    let comp = wcc_sequential(&g);
    assert_eq!(comp[0], comp[1]);
}

#[test]
fn sink_nodes_of_sink_graph() {
    let g = graph_with_sink();
    assert_eq!(sink_nodes(&g), vec![2]);
    let g2 = graph_four_isolated();
    assert_eq!(sink_nodes(&g2), vec![0, 1, 2, 3]);
    let g3 = graph_two_node_cycle();
    assert_eq!(sink_nodes(&g3), Vec::<usize>::new());
}

#[test]
fn chunk_ranges_cover_exactly() {
    for (n, c) in [(10usize, 3usize), (0, 4), (5, 1), (7, 10), (100, 8)] {
        let r = chunk_ranges(n, c);
        assert!(!r.is_empty());
        assert_eq!(r[0].0, 0);
        assert_eq!(r[r.len() - 1].1, n);
        for w in r.windows(2) {
            assert_eq!(w[0].1, w[1].0);
        }
        for &(a, b) in &r {
            assert!(a <= b);
        }
        let total: usize = r.iter().map(|&(a, b)| b - a).sum();
        assert_eq!(total, n);
    }
}
