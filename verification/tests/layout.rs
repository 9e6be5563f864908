use zestbay::dummy_nodes::insert_dummy_nodes;
use zestbay::layout::LayoutNodeKind;
use zestbay::layout_graph::LayoutGraph;
use zestbay::y_coords::mark_conflicts;
use zestbay::ranking::{compute_ranks, initial_ranking, iteration_cap, network_simplex, normalize_and_balance};

/// A graph of `n` plugin nodes with ids `1..=n` and the given links
/// between node indices.
fn graph(n: usize, links: &[(usize, usize)]) -> LayoutGraph {
    let nodes: Vec<(u32, String, &str)> = (0..n).map(|i| ((i + 1) as u32, format!("n{}", i), "Plugin")).collect();
    let mut ports = Vec::new();
    let mut ls = Vec::new();
    for (k, &(a, b)) in links.iter().enumerate() {
        let out_port = 100 + 2 * k as u32;
        let in_port = 101 + 2 * k as u32;
        ports.push((out_port, (a + 1) as u32, k, true));
        ports.push((in_port, (b + 1) as u32, k, false));
        ls.push((1000 + k as u32, (a + 1) as u32, out_port, (b + 1) as u32, in_port));
    }
    LayoutGraph::new(nodes, ports, ls)
}

fn ranks(g: &LayoutGraph) -> Vec<i32> {
    g.nodes.iter().map(|n| n.rank).collect()
}

fn set_ranks(g: &mut LayoutGraph, rs: &[i32]) {
    for (i, r) in rs.iter().enumerate() {
        g.nodes[i].rank = *r;
    }
}

#[test]
fn layout_graph_new_builds_lists() {
    let nodes = vec![
        (10u32, "src".to_string(), "Source"),
        (20u32, "fx".to_string(), "Plugin"),
        (30u32, "odd".to_string(), "Something"),
    ];
    let ports = vec![(1u32, 10u32, 0usize, true), (2, 20, 0, false), (3, 99, 0, true)];
    let links = vec![(7u32, 10u32, 1u32, 20u32, 2u32), (8, 10, 1, 99, 5), (9, 20, 4, 30, 6)];
    let g = LayoutGraph::new(nodes, ports, links);
    assert_eq!(g.nodes.len(), 3);
    assert_eq!(g.nodes[0].kind, LayoutNodeKind::Source);
    assert_eq!(g.nodes[1].kind, LayoutNodeKind::Plugin);
    assert_eq!(g.nodes[2].kind, LayoutNodeKind::Unknown);
    assert_eq!(g.nodes[2].idx, 2);
    assert!(!g.nodes[0].is_dummy);
    assert_eq!(g.nodes[1].rank, 0);
    assert_eq!(g.id_to_idx.get(&20), Some(&1));
    assert_eq!(g.port_map.get(&1), Some(&(0, 0, true)));
    assert_eq!(g.port_map.get(&3), None);
    // the link to the unknown node 99 is left out
    assert_eq!(g.edges.len(), 2);
    assert_eq!(g.edges[0].id, 7);
    assert_eq!((g.edges[1].from_node, g.edges[1].to_node), (1, 2));
    assert_eq!(g.edges[1].from_port, Some(4));
    assert_eq!(g.out_edges[0], vec![0]);
    assert_eq!(g.in_edges[1], vec![0]);
    assert_eq!(g.out_edges[1], vec![1]);
    assert_eq!(g.in_edges[2], vec![1]);
    assert!(g.columns.is_empty());
}

#[test]
fn layout_graph_duplicate_id_maps_to_later_node() {
    let nodes = vec![(5u32, "a".to_string(), "Sink"), (5u32, "b".to_string(), "Sink")];
    let g = LayoutGraph::new(nodes, vec![], vec![]);
    assert_eq!(g.nodes.len(), 2);
    assert_eq!(g.id_to_idx.get(&5), Some(&1));
}

#[test]
fn layout_graph_dummy_node_and_edge() {
    let mut g = graph(2, &[(0, 1)]);
    let d = g.add_dummy_node(3);
    assert_eq!(d, 2);
    assert!(g.nodes[d].is_dummy);
    assert_eq!(g.nodes[d].kind, LayoutNodeKind::Dummy);
    assert_eq!(g.nodes[d].rank, 3);
    assert_eq!(g.nodes[d].id, 0);
    let e = g.add_dummy_edge(0, d);
    assert_eq!(e, 1);
    assert_eq!(g.edges[e].id, 0);
    assert_eq!(g.edges[e].from_port, None);
    assert_eq!(g.out_edges[0], vec![0, 1]);
    assert_eq!(g.in_edges[d], vec![1]);
    assert_eq!(g.real_node_count(), 2);
}

#[test]
fn layout_graph_successors_and_predecessors() {
    let g = graph(3, &[(0, 1), (0, 2), (2, 1)]);
    assert_eq!(g.successors(0), vec![1, 2]);
    assert_eq!(g.predecessors(1), vec![0, 2]);
    assert_eq!(g.successors(1), Vec::<usize>::new());
}

#[test]
fn layout_graph_build_columns_by_rank() {
    let mut g = graph(4, &[]);
    set_ranks(&mut g, &[2, 0, 2, 1]);
    g.build_columns();
    assert_eq!(g.columns, vec![vec![1], vec![3], vec![0, 2]]);
    assert_eq!(g.nodes[0].order, 0);
    assert_eq!(g.nodes[2].order, 1);
    assert_eq!(g.column(2), &[0, 2]);
    assert_eq!(g.column(7), &[] as &[usize]);
}

#[test]
fn layout_graph_build_columns_shifts_lowest_rank() {
    let mut g = graph(2, &[]);
    set_ranks(&mut g, &[-1, 1]);
    g.build_columns();
    assert_eq!(g.columns, vec![vec![0], vec![], vec![1]]);
    let mut empty = graph(0, &[]);
    empty.build_columns();
    assert!(empty.columns.is_empty());
}

#[test]
fn layout_graph_connected_components() {
    let g = graph(5, &[(0, 1), (3, 2)]);
    assert_eq!(g.connected_components(), vec![vec![0, 1], vec![2, 3], vec![4]]);
    let h = graph(3, &[(0, 1), (0, 2)]);
    assert_eq!(h.connected_components(), vec![vec![0, 2, 1]]);
}

#[test]
fn layout_graph_crossings() {
    let mut g = graph(4, &[(0, 3), (1, 2)]);
    set_ranks(&mut g, &[0, 0, 1, 1]);
    g.build_columns();
    assert_eq!(g.count_crossings_between(0, 1), 1);
    assert_eq!(g.count_all_crossings(), 1);
    let mut h = graph(4, &[(0, 2), (1, 3)]);
    set_ranks(&mut h, &[0, 0, 1, 1]);
    h.build_columns();
    assert_eq!(h.count_crossings_between(0, 1), 0);
    assert_eq!(h.count_crossings_between(0, 5), 0);
}

#[test]
fn layout_graph_topological_generations() {
    let g = graph(3, &[(0, 2), (1, 2)]);
    assert_eq!(g.topological_generations(), vec![vec![0, 1], vec![2]]);
    let c = graph(3, &[(0, 1), (1, 2), (2, 1)]);
    assert_eq!(c.topological_generations(), vec![vec![0], vec![1, 2]]);
    let chain = graph(3, &[(0, 1), (1, 2), (0, 2)]);
    assert_eq!(chain.topological_generations(), vec![vec![0], vec![1], vec![2]]);
}

#[test]
fn layout_graph_topological_sort() {
    let g = graph(3, &[(0, 2), (1, 2)]);
    assert_eq!(g.topological_sort(), vec![1, 0, 2]);
    let c = graph(3, &[(0, 1), (1, 2), (2, 1)]);
    assert_eq!(c.topological_sort(), vec![0, 1, 2]);
    let chain = graph(3, &[(1, 0), (2, 1)]);
    assert_eq!(chain.topological_sort(), vec![2, 1, 0]);
}

#[test]
fn ranking_initial_ranks_are_generations() {
    let mut g = graph(4, &[(0, 1), (1, 2), (0, 2)]);
    initial_ranking(&mut g);
    assert_eq!(ranks(&g), vec![0, 1, 2, 0]);
}

#[test]
fn ranking_iteration_cap_is_floor_of_fifty_root_n() {
    assert_eq!(iteration_cap(0), 0);
    assert_eq!(iteration_cap(1), 50);
    assert_eq!(iteration_cap(2), 70);
    assert_eq!(iteration_cap(3), 86);
    assert_eq!(iteration_cap(4), 100);
    assert_eq!(iteration_cap(100), 500);
}

#[test]
fn ranking_network_simplex_pulls_target_to_its_source() {
    let mut g = graph(2, &[(0, 1)]);
    set_ranks(&mut g, &[0, 5]);
    network_simplex(&mut g);
    assert_eq!(ranks(&g), vec![0, 1]);
}

#[test]
fn ranking_network_simplex_keeps_tight_ranks() {
    let mut g = graph(3, &[(0, 1), (1, 2), (0, 2)]);
    set_ranks(&mut g, &[0, 1, 2]);
    network_simplex(&mut g);
    assert_eq!(ranks(&g), vec![0, 1, 2]);
}

#[test]
fn ranking_normalize_lowers_each_component() {
    let mut g = graph(3, &[(0, 1)]);
    set_ranks(&mut g, &[3, 4, 2]);
    normalize_and_balance(&mut g);
    assert_eq!(ranks(&g), vec![0, 1, 0]);
}

#[test]
fn ranking_balance_moves_node_to_emptier_column() {
    // A -> M -> Z with a gap before Z; P alone.
    let mut g = graph(4, &[(0, 1), (1, 2)]);
    set_ranks(&mut g, &[0, 1, 3, 1]);
    normalize_and_balance(&mut g);
    assert_eq!(ranks(&g), vec![0, 2, 3, 0]);
}

#[test]
fn ranking_compute_ranks_linear_chain() {
    let mut g = graph(3, &[(0, 1), (1, 2)]);
    compute_ranks(&mut g);
    assert_eq!(ranks(&g), vec![0, 1, 2]);
}

#[test]
fn ranking_compute_ranks_cycle_shares_a_rank() {
    let mut g = graph(2, &[(0, 1), (1, 0)]);
    compute_ranks(&mut g);
    assert_eq!(ranks(&g), vec![0, 0]);
}

#[test]
fn ranking_compute_ranks_empty_graph() {
    let mut g = graph(0, &[]);
    compute_ranks(&mut g);
    assert!(g.nodes.is_empty());
}

#[test]
fn dummy_nodes_split_long_edge() {
    // A -> B -> C and A -> C: the last edge spans two ranks.
    let mut g = graph(3, &[(0, 1), (1, 2), (0, 2)]);
    compute_ranks(&mut g);
    assert_eq!(ranks(&g), vec![0, 1, 2]);
    insert_dummy_nodes(&mut g);
    assert_eq!(g.nodes.len(), 4);
    assert!(g.nodes[3].is_dummy);
    assert_eq!(g.nodes[3].rank, 1);
    assert_eq!(g.edges.len(), 5);
    assert_eq!((g.edges[3].from_node, g.edges[3].to_node), (0, 3));
    assert_eq!(g.edges[3].from_port, Some(104));
    assert_eq!(g.edges[3].to_port, None);
    assert_eq!((g.edges[4].from_node, g.edges[4].to_node), (3, 2));
    assert_eq!(g.edges[4].from_port, None);
    assert_eq!(g.edges[4].to_port, Some(105));
    assert_eq!(g.out_edges[0], vec![0, 3]);
    assert_eq!(g.in_edges[2], vec![1, 4]);
    assert_eq!(g.out_edges[3], vec![4]);
    assert_eq!(g.in_edges[3], vec![3]);
    assert_eq!(g.real_node_count(), 3);
}

#[test]
fn dummy_nodes_leave_every_listed_edge_within_one_rank() {
    let mut g = graph(4, &[(0, 3), (0, 1), (1, 2), (2, 3), (3, 1)]);
    set_ranks(&mut g, &[0, 1, 2, 5]);
    insert_dummy_nodes(&mut g);
    for v in 0..g.nodes.len() {
        for &e in &g.out_edges[v] {
            let span = g.nodes[g.edges[e].to_node].rank - g.nodes[g.edges[e].from_node].rank;
            assert!(span <= 1);
        }
    }
    // 0 -> 3 spans five ranks (four dummies), 2 -> 3 three (two dummies)
    assert_eq!(g.nodes.len(), 10);
}

/// Column 0 holds a dummy then node 0; column 1 node 1 then a dummy fed by
/// the first dummy; node 0 feeds node 1, crossing that inner segment.
fn crossed_inner_segment() -> LayoutGraph {
    let mut g = graph(2, &[(0, 1)]);
    let d0 = g.add_dummy_node(0);
    let d1 = g.add_dummy_node(1);
    g.add_dummy_edge(d0, d1);
    g.columns = vec![vec![d0, 0], vec![1, d1]];
    g.nodes[d0].order = 0;
    g.nodes[0].order = 1;
    g.nodes[1].order = 0;
    g.nodes[d1].order = 1;
    g
}

#[test]
fn mark_conflicts_marks_edge_crossing_inner_segment() {
    let g = crossed_inner_segment();
    assert_eq!(mark_conflicts(&g, &[0, 1], false), vec![(0, 1)]);
}

#[test]
fn mark_conflicts_needs_edges_into_the_later_column() {
    let g = crossed_inner_segment();
    assert_eq!(mark_conflicts(&g, &[1, 0], false), Vec::<(usize, usize)>::new());
    assert_eq!(mark_conflicts(&g, &[0], false), Vec::<(usize, usize)>::new());
}

#[test]
fn mark_conflicts_leaves_uncrossed_edges() {
    let mut g = graph(4, &[(0, 2), (1, 3)]);
    g.columns = vec![vec![0, 1], vec![2, 3]];
    g.nodes[0].order = 0;
    g.nodes[1].order = 1;
    g.nodes[2].order = 0;
    g.nodes[3].order = 1;
    assert_eq!(mark_conflicts(&g, &[0, 1], false), Vec::<(usize, usize)>::new());
}
