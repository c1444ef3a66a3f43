use reap::graph::HeapGraph;
use reap::object::Object;
use reap::prune::relevant_subgraph;
use reap::stats::Stats;

fn node(address: usize, bytes: usize) -> Object {
    Object { address, bytes, kind: "OBJECT".to_string(), label: None }
}

fn sample() -> (HeapGraph, Vec<Stats>) {
    let g = HeapGraph {
        nodes: vec![node(0, 0), node(16, 100), node(32, 5)],
        edges: vec![(0, 1), (1, 2), (1, 2), (2, 2), (0, 2)],
    };
    let sizes = vec![
        Stats { count: 3, bytes: 105 },
        Stats { count: 2, bytes: 105 },
        Stats { count: 1, bytes: 5 },
    ];
    (g, sizes)
}

#[test]
fn zero_threshold_keeps_every_node() {
    let (g, sizes) = sample();
    let out = relevant_subgraph(0, &g, &sizes, 0, 1000);
    assert_eq!(out.node_count(), 3);
}

#[test]
fn full_threshold_keeps_only_root_and_ties() {
    let (g, sizes) = sample();
    // Node 1 retains exactly as much as the root, so it survives too.
    let out = relevant_subgraph(0, &g, &sizes, 1, 1);
    assert_eq!(out.node_count(), 2);
    assert_eq!(out.nodes[0].address, 0);
    assert_eq!(out.nodes[1].address, 16);
}

#[test]
fn self_loops_and_duplicate_edges_are_removed() {
    let (g, sizes) = sample();
    let out = relevant_subgraph(0, &g, &sizes, 0, 1000);
    // (1,2) collapses to one edge, (2,2) disappears, the rest stay.
    assert_eq!(out.edges, vec![(0, 1), (1, 2), (0, 2)]);
    for e in out.edges.iter() {
        assert!(e.0 != e.1);
    }
}

#[test]
fn surviving_nodes_are_relabeled_with_retained_totals() {
    let (g, sizes) = sample();
    let out = relevant_subgraph(0, &g, &sizes, 0, 1000);
    assert_eq!(out.nodes[1].label.as_deref(), Some("OBJECT[16]: 100b self, 5b refs, 2 objects"));
}
