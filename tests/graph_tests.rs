use graph::text::{parse_number, read_graph, write_graph};
use graph::{Graph, GraphMap};

fn sorted<T: Ord>(mut v: Vec<T>) -> Vec<T> {
    v.sort();
    v
}

#[test]
fn it_works() {
    assert_eq!(2 + 2, 4);
}

#[test]
fn dijkstra_prefers_lighter_detour() {
    let mut g = GraphMap::new();
    g.add_edge((1, 2), 1);
    g.add_edge((2, 3), 2);
    g.add_edge((1, 3), 10);
    assert_eq!(g.dijkstra(1, 3), Some((vec![1, 2, 3], 3)));
}

#[test]
fn dijkstra_isolated_target_has_no_path() {
    let mut g = GraphMap::new();
    g.add_edge((1, 2), 1);
    g.add_edge((2, 3), 2);
    g.add_vertex(4);
    assert_eq!(g.dijkstra(1, 4), None);
}

#[test]
fn dijkstra_start_equals_end() {
    let mut g = GraphMap::new();
    g.add_edge((1, 2), 5);
    assert_eq!(g.dijkstra(2, 2), Some((vec![2], 0)));
}

#[test]
fn dijkstra_unknown_start_has_no_path() {
    let mut g = GraphMap::new();
    g.add_edge((1, 2), 5);
    assert_eq!(g.dijkstra(9, 2), None);
}

#[test]
fn dijkstra_follows_edge_direction() {
    let mut g = GraphMap::new();
    g.add_edge((1, 2), 5);
    assert_eq!(g.dijkstra(2, 1), None);
    assert_eq!(g.dijkstra(1, 2), Some((vec![1, 2], 5)));
}

#[test]
fn dijkstra_saturates_huge_weights() {
    let mut g = GraphMap::new();
    g.add_edge((1, 2), u32::MAX);
    g.add_edge((2, 3), 7);
    assert_eq!(g.dijkstra(1, 3), Some((vec![1, 2, 3], u32::MAX)));
}

#[test]
fn added_edge_is_in_both_adjacencies() {
    let mut g = GraphMap::new();
    g.add_edge((1, 2), 7);
    assert_eq!(g.adj_out(1), Some(vec![(2, 7)]));
    assert_eq!(g.adj_in(2), Some(vec![(1, 7)]));
    assert_eq!(g.get_edge((1, 2)), Some(7));
    assert!(g.contains_edge((1, 2)));
    assert!(!g.contains_edge((2, 1)));
}

#[test]
fn add_edge_overwrites_payload() {
    let mut g = GraphMap::new();
    g.add_edge((1, 2), 7);
    g.add_edge((1, 2), 9);
    assert_eq!(g.get_edge((1, 2)), Some(9));
    assert_eq!(g.edge_count(), 1);
    assert_eq!(g.vertex_count(), 2);
}

#[test]
fn new_vertex_is_isolated() {
    let mut g = GraphMap::new();
    g.add_edge((1, 2), 7);
    g.add_vertex(5);
    assert_eq!(g.indegree(5), 0);
    assert_eq!(g.outdegree(5), 0);
    assert_eq!(g.adj_out(5), Some(vec![]));
    assert_eq!(g.adj_in(5), Some(vec![]));
}

#[test]
fn add_vertex_twice_is_idempotent() {
    let mut g = GraphMap::new();
    g.add_vertex(3);
    assert_eq!(g.vertex_count(), 1);
    g.add_vertex(3);
    assert_eq!(g.vertex_count(), 1);
    assert_eq!(g.vertices(), vec![3]);
}

#[test]
fn remove_vertex_cascades() {
    let mut g = GraphMap::new();
    g.add_edge((1, 2), 1);
    g.add_edge((2, 3), 2);
    g.add_edge((3, 2), 4);
    g.add_edge((1, 3), 3);
    assert!(g.remove_vertex(2));
    assert!(!g.remove_vertex(2));
    assert_eq!(g.get_edge((1, 2)), None);
    assert_eq!(g.get_edge((2, 3)), None);
    assert_eq!(g.get_edge((3, 2)), None);
    assert_eq!(g.get_edge((1, 3)), Some(3));
    assert_eq!(g.vertex_count(), 2);
    assert_eq!(g.edge_count(), 1);
    assert_eq!(g.adj_out(1), Some(vec![(3, 3)]));
    assert_eq!(g.adj_in(3), Some(vec![(1, 3)]));
    assert_eq!(g.adj_out(2), None);
}

#[test]
fn remove_edge_reports_unknown_ends() {
    let mut g = GraphMap::new();
    g.add_edge((1, 2), 1);
    assert!(!g.remove_edge((1, 9)));
    assert!(!g.remove_edge((9, 1)));
    assert!(g.remove_edge((2, 1)));
    assert_eq!(g.edge_count(), 1);
    assert!(g.remove_edge((1, 2)));
    assert_eq!(g.edge_count(), 0);
    assert_eq!(g.vertex_count(), 2);
    assert_eq!(g.outdegree(1), 0);
}

#[test]
fn degrees_count_edges() {
    let mut g = GraphMap::new();
    g.add_edge((1, 2), 1);
    g.add_edge((1, 3), 1);
    g.add_edge((3, 1), 1);
    assert_eq!(g.outdegree(1), 2);
    assert_eq!(g.indegree(1), 1);
    assert_eq!(g.indegree(2), 1);
    assert_eq!(g.outdegree(2), 0);
}

#[test]
fn edges_and_vertices_list_everything_once() {
    let mut g = GraphMap::new();
    g.add_edge((1, 2), 4);
    g.add_edge((2, 3), 5);
    g.add_vertex(7);
    assert_eq!(sorted(g.vertices()), vec![1, 2, 3, 7]);
    assert_eq!(sorted(g.edges()), vec![((1, 2), 4), ((2, 3), 5)]);
}

#[test]
fn bfs_visits_reachable_in_order() {
    let mut g = GraphMap::new();
    g.add_edge((1, 2), 1);
    g.add_edge((1, 3), 1);
    g.add_edge((2, 4), 1);
    g.add_edge((3, 4), 1);
    g.add_edge((4, 1), 1);
    g.add_edge((5, 1), 1);
    let order = g.bfs(&1);
    assert_eq!(order.len(), 4);
    assert_eq!(order[0], 1);
    assert_eq!(sorted(order[1..3].to_vec()), vec![2, 3]);
    assert_eq!(order[3], 4);
    assert_eq!(g.bfs(&5).len(), 5);
    assert_eq!(g.bfs(&4)[..2].to_vec(), vec![4, 1]);
}

#[test]
fn bfs_is_breadth_first_not_depth_first() {
    let mut g = GraphMap::new();
    g.add_edge((1, 2), 1);
    g.add_edge((1, 3), 1);
    g.add_edge((2, 4), 1);
    let order = g.bfs(&1);
    assert_eq!(order[0], 1);
    assert_eq!(sorted(order[1..3].to_vec()), vec![2, 3]);
    assert_eq!(order[3], 4);
}

#[test]
fn bfs_of_isolated_vertex() {
    let mut g = GraphMap::new();
    g.add_vertex(8);
    g.add_edge((1, 2), 1);
    assert_eq!(g.bfs(&8), vec![8]);
}

#[test]
fn components_of_symmetric_graph_partition() {
    let mut g = GraphMap::new();
    for (a, b) in [(1, 2), (2, 3), (4, 5)] {
        g.add_edge((a, b), 1);
        g.add_edge((b, a), 1);
    }
    g.add_vertex(6);
    let comps = g.connected_components();
    let mut sets: Vec<Vec<u32>> = comps.iter().map(|c| sorted(c.vertices())).collect();
    sets.sort();
    assert_eq!(sets, vec![vec![1, 2, 3], vec![4, 5], vec![6]]);
    let total_edges: usize = comps.iter().map(|c| c.edge_count()).sum();
    assert_eq!(total_edges, g.edge_count());
}

fn assert_partition(g: &GraphMap, comps: &[GraphMap]) {
    let mut all: Vec<u32> = comps.iter().flat_map(|c| c.vertices()).collect();
    all.sort();
    let n = all.len();
    all.dedup();
    assert_eq!(n, all.len(), "components share a vertex");
    assert_eq!(all, sorted(g.vertices()));
}

#[test]
fn components_cover_every_vertex() {
    let mut g = GraphMap::new();
    g.add_edge((1, 2), 1);
    g.add_edge((3, 2), 1);
    let comps = g.connected_components();
    assert_partition(&g, &comps);
    for c in comps.iter() {
        for ((a, b), w) in c.edges() {
            assert_eq!(g.get_edge((a, b)), Some(w));
        }
    }
}

#[test]
fn components_are_disjoint_for_directed_edges() {
    let mut g = GraphMap::new();
    g.add_vertex(1);
    g.add_edge((2, 1), 4);
    g.add_edge((3, 1), 6);
    let comps = g.connected_components();
    assert_partition(&g, &comps);
    assert_eq!(comps.len(), 3);
    let total_edges: usize = comps.iter().map(|c| c.edge_count()).sum();
    assert_eq!(total_edges, 0);
}

#[test]
fn read_graph_undirected_mirrors_each_line_in_order() {
    let h = read_graph(&b"2 2\n1 2 5\n2 1 7\n".to_vec(), true).unwrap();
    assert_eq!(h.get_edge((1, 2)), Some(7));
    assert_eq!(h.get_edge((2, 1)), Some(7));
    let d = read_graph(&b"2 2\n1 2 5\n2 1 7\n".to_vec(), false).unwrap();
    assert_eq!(d.get_edge((1, 2)), Some(5));
    assert_eq!(d.get_edge((2, 1)), Some(7));
}

#[test]
fn dijkstra_path_has_no_repeats_with_zero_cycle() {
    let mut g = GraphMap::new();
    g.add_edge((0, 1), 0);
    g.add_edge((1, 0), 0);
    g.add_edge((0, 2), 5);
    assert_eq!(g.dijkstra(0, 2), Some((vec![0, 2], 5)));
    assert_eq!(g.dijkstra(2, 2), Some((vec![2], 0)));
    assert_eq!(g.dijkstra(0, 0), Some((vec![0], 0)));
}

#[test]
fn identity_graph_basic_operations() {
    let mut g = Graph::new();
    let a = g.add_vertex(10);
    let b = g.add_vertex(20);
    assert_ne!(a, b);
    assert_eq!(g.get_vertex(a), Some(10));
    assert_eq!(g.get_vertex(b), Some(20));
    g.add_edge((a, b), 5);
    assert_eq!(g.get_edge((a, b)), Some(5));
    assert_eq!(g.get_edge((b, a)), None);
    assert_eq!(g.adj_out(a), Some(vec![(b, 5)]));
    assert_eq!(g.adj_in(b), Some(vec![(a, 5)]));
    assert_eq!(g.outdegree(a), 1);
    assert_eq!(g.indegree(b), 1);
    assert_eq!(g.vertex_count(), 2);
    assert_eq!(g.edge_count(), 1);
    assert_eq!(sorted(g.vertices()), sorted(vec![(a, 10), (b, 20)]));
    assert_eq!(g.edges(), vec![((a, b), 5)]);
}

#[test]
fn identity_graph_removal_cascade_and_stale_ids() {
    let mut g = Graph::new();
    let a = g.add_vertex(1);
    let b = g.add_vertex(2);
    let c = g.add_vertex(3);
    g.add_edge((a, b), 1);
    g.add_edge((b, c), 2);
    g.add_edge((c, b), 3);
    g.remove_vertex(b);
    assert_eq!(g.get_vertex(b), None);
    assert_eq!(g.get_edge((a, b)), None);
    assert_eq!(g.get_edge((b, c)), None);
    assert_eq!(g.get_edge((c, b)), None);
    assert_eq!(g.outdegree(a), 0);
    assert_eq!(g.indegree(c), 0);
    assert_eq!(g.indegree(b), 0);
    assert_eq!(g.adj_out(b), None);
    assert_eq!(g.edge_count(), 0);
    assert_eq!(g.vertex_count(), 2);
    let d = g.add_vertex(4);
    assert_ne!(d, b);
    assert_eq!(g.get_vertex(b), None);
    assert_eq!(g.get_vertex(d), Some(4));
}

#[test]
fn identity_graph_remove_edge() {
    let mut g = Graph::new();
    let a = g.add_vertex(1);
    let b = g.add_vertex(2);
    g.add_edge((a, b), 1);
    g.add_edge((b, a), 2);
    g.remove_edge((a, b));
    assert_eq!(g.get_edge((a, b)), None);
    assert_eq!(g.get_edge((b, a)), Some(2));
    assert_eq!(g.edge_count(), 1);
    g.remove_edge((a, b));
    assert_eq!(g.edge_count(), 1);
}

#[test]
fn write_graph_exact_text() {
    let mut g = GraphMap::new();
    g.add_edge((1, 2), 5);
    g.add_vertex(7);
    assert_eq!(write_graph(&g), b"3 1\n1 2 5\n7\n".to_vec());
}

#[test]
fn write_then_read_round_trip() {
    let mut g = GraphMap::new();
    g.add_edge((10, 20), 5);
    g.add_edge((20, 10), 0);
    g.add_edge((20, 4000000000), 123456);
    g.add_vertex(0);
    g.add_vertex(99);
    let text = write_graph(&g);
    let h = read_graph(&text, false).unwrap();
    assert_eq!(sorted(h.vertices()), sorted(g.vertices()));
    assert_eq!(sorted(h.edges()), sorted(g.edges()));
}

#[test]
fn read_graph_later_line_replaces_edge() {
    let h = read_graph(&b"2 2\n1 2 3\n1 2 9\n".to_vec(), false).unwrap();
    assert_eq!(h.get_edge((1, 2)), Some(9));
    assert_eq!(h.edge_count(), 1);
    assert_eq!(sorted(h.vertices()), vec![1, 2]);
}

#[test]
fn read_graph_rejects_malformed_text() {
    assert!(read_graph(&b"".to_vec(), false).is_none());
    assert!(read_graph(&b"1 0".to_vec(), false).is_none());
    assert!(read_graph(&b"2 1\n1 x\n".to_vec(), false).is_none());
    assert!(read_graph(&b"2 1\n1 2\n".to_vec(), false).is_none());
    assert!(read_graph(&b"1 0\n4294967296\n".to_vec(), false).is_none());
}

#[test]
fn read_graph_of_header_only_is_empty() {
    let h = read_graph(&b"0 0\n".to_vec(), false).unwrap();
    assert_eq!(h.vertex_count(), 0);
    assert_eq!(h.edge_count(), 0);
}

#[test]
fn parse_number_reads_digit_runs() {
    assert_eq!(parse_number(&b"123 4".to_vec(), 0), Some((123, 3)));
    assert_eq!(parse_number(&b"123 4".to_vec(), 4), Some((4, 5)));
    assert_eq!(parse_number(&b"123 4".to_vec(), 3), None);
    assert_eq!(parse_number(&b"4294967295".to_vec(), 0), Some((u32::MAX, 10)));
    assert_eq!(parse_number(&b"4294967296".to_vec(), 0), None);
}
