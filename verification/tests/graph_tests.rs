use bund_blobstore::graph::{bidirectional_search, detect_cycles, find_edge, incoming, in_degrees, number_graph, parallel_cycle_detection, topological_sort, Digraph};
use bund_blobstore::traversal::{node_matches, traverse, DistributedGraphQuery, NodeInfo, TraversalGraph};

fn graph(out: Vec<Vec<usize>>) -> Digraph {
    Digraph { out }
}

fn cyclic() -> Digraph {
    graph(vec![vec![1], vec![2], vec![0, 3], vec![], vec![]])
}

#[test]
fn cycle_found_with_closing_node() {
    let g = cyclic();
    let r = detect_cycles(&g, &vec![0, 1, 2, 3, 4]);
    assert!(r.has_cycle);
    assert_eq!(r.cycle_count, 1);
    assert_eq!(r.cycles, vec![vec![0, 1, 2]]);
    assert_eq!(r.affected_nodes, vec![2]);
}

#[test]
fn no_cycle_in_dag() {
    let g = graph(vec![vec![1, 2], vec![3], vec![3], vec![]]);
    let r = detect_cycles(&g, &vec![0, 1, 2, 3]);
    assert!(!r.has_cycle);
    assert_eq!(r.cycle_count, 0);
    assert!(r.cycles.is_empty());
}

#[test]
fn cycle_outside_reach_is_not_seen() {
    let g = graph(vec![vec![], vec![2], vec![1]]);
    assert!(!detect_cycles(&g, &vec![0]).has_cycle);
    assert!(detect_cycles(&g, &vec![1]).has_cycle);
}

#[test]
fn self_loop_is_a_cycle() {
    let g = graph(vec![vec![0]]);
    let r = detect_cycles(&g, &vec![0]);
    assert_eq!(r.cycles, vec![vec![0]]);
}

#[test]
fn per_node_searches_repeat_cycles() {
    let g = cyclic();
    let r = parallel_cycle_detection(&g, &vec![0, 1]);
    assert_eq!(r.cycles, vec![vec![0, 1, 2], vec![1, 2, 0]]);
    assert!(r.affected_nodes.is_empty());
    assert!(r.has_cycle);
}

#[test]
fn kahn_order() {
    let g = graph(vec![vec![1, 2], vec![3], vec![3], vec![]]);
    assert_eq!(in_degrees(&g), vec![0, 1, 1, 2]);
    assert_eq!(topological_sort(&g), vec![0, 1, 2, 3]);
}

#[test]
fn kahn_leaves_out_cycles() {
    let g = cyclic();
    assert_eq!(topological_sort(&g), vec![4]);
    let g2 = graph(vec![vec![1], vec![2], vec![1]]);
    assert_eq!(topological_sort(&g2), vec![0]);
}

#[test]
fn two_sided_search_meets() {
    let g = graph(vec![vec![1], vec![2], vec![3], vec![]]);
    let m = bidirectional_search(&g, 0, 3).unwrap();
    assert_eq!(m.path, vec![0, 1, 2, 3]);
    assert_eq!(m.meet, 2);
    assert!(bidirectional_search(&g, 3, 0).is_none());
    let same = bidirectional_search(&g, 2, 2).unwrap();
    assert_eq!(same.path, vec![2]);
    assert_eq!(same.meet, 0);
}

#[test]
fn edges_in_and_out() {
    let g = cyclic();
    assert_eq!(incoming(&g, 0), vec![2]);
    assert_eq!(incoming(&g, 3), vec![2]);
    assert_eq!(find_edge(&g, 2, 3), Some(1));
    assert_eq!(find_edge(&g, 3, 2), None);
}

fn info(t: &str, props: &[(&str, &str)]) -> Option<NodeInfo> {
    Some(NodeInfo {
        node_type: t.to_string(),
        properties: props.iter().map(|(a, b)| (a.to_string(), b.to_string())).collect(),
    })
}

fn chain() -> TraversalGraph {
    TraversalGraph {
        graph: graph(vec![vec![1], vec![2], vec![]]),
        edge_types: vec![vec!["a".to_string()], vec!["b".to_string()], vec![]],
        nodes: vec![info("x", &[]), info("y", &[("k", "1")]), info("y", &[("k", "2")])],
    }
}

#[test]
fn traversal_reports_paths_in_order() {
    let tg = chain();
    let q = DistributedGraphQuery::default();
    assert_eq!(traverse(&tg, 0, &q), vec![vec![0, 1], vec![0, 1, 2]]);
    let mut q1 = DistributedGraphQuery::default();
    q1.traverse_depth = Some(1);
    assert_eq!(traverse(&tg, 0, &q1), vec![vec![0, 1]]);
}

#[test]
fn traversal_filters() {
    let tg = chain();
    let mut q = DistributedGraphQuery::default();
    q.edge_type = Some("a".to_string());
    assert_eq!(traverse(&tg, 0, &q), vec![vec![0, 1]]);
    let mut q2 = DistributedGraphQuery::default();
    q2.properties = Some(vec![("k".to_string(), "2".to_string())]);
    assert_eq!(traverse(&tg, 0, &q2), vec![vec![0, 1, 2]]);
    let mut q3 = DistributedGraphQuery::default();
    q3.node_type = Some("x".to_string());
    assert!(traverse(&tg, 0, &q3).is_empty());
    assert!(node_matches(&NodeInfo { node_type: "x".to_string(), properties: vec![] }, &q3));
}

#[test]
fn traversal_stops_at_missing_nodes() {
    let mut tg = chain();
    tg.nodes[1] = None;
    assert!(traverse(&tg, 0, &DistributedGraphQuery::default()).is_empty());
    let cyc = TraversalGraph {
        graph: graph(vec![vec![1], vec![0]]),
        edge_types: vec![vec!["e".to_string()], vec!["e".to_string()]],
        nodes: vec![info("n", &[]), info("n", &[])],
    };
    assert_eq!(traverse(&cyc, 0, &DistributedGraphQuery::default()), vec![vec![0, 1]]);
}

#[test]
fn graph_names_are_numbered_once_in_order_of_mention() {
    let nodes = vec!["a".to_string(), "b".to_string(), "a".to_string()];
    let edges = vec![
        ("a".to_string(), "c".to_string()),
        ("c".to_string(), "b".to_string()),
        ("a".to_string(), "b".to_string()),
    ];
    let g = number_graph(&nodes, &edges);
    assert_eq!(g.ids, vec!["a".to_string(), "b".to_string(), "c".to_string()]);
    assert_eq!(g.queried, vec![0, 1, 0]);
    assert_eq!(g.ends, vec![(0, 2), (2, 1), (0, 1)]);
    assert_eq!(g.graph.out, vec![vec![2, 1], vec![], vec![1]]);
    let empty = number_graph(&Vec::new(), &Vec::new());
    assert!(empty.ids.is_empty() && empty.graph.out.is_empty());
}
