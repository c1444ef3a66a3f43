use reap::dominator::dominator_subtree_sizes;
use reap::graph::HeapGraph;
use reap::object::Object;
use reap::stats::Stats;

fn node(address: usize, bytes: usize) -> Object {
    Object { address, bytes, kind: "OBJECT".to_string(), label: None }
}

#[test]
fn diamond_retains_through_the_fork() {
    // 0 -> 1, 1 -> 2, 1 -> 3, 2 -> 4, 3 -> 4: node 4 is reachable two
    // ways, so only 1 (and the root) dominate it.
    let g = HeapGraph {
        nodes: vec![node(0, 0), node(16, 100), node(32, 10), node(48, 20), node(64, 5)],
        edges: vec![(0, 1), (1, 2), (1, 3), (2, 4), (3, 4)],
    };
    let sizes = dominator_subtree_sizes(&g, 0);
    assert_eq!(sizes[4], Stats { count: 1, bytes: 5 });
    assert_eq!(sizes[2], Stats { count: 1, bytes: 10 });
    assert_eq!(sizes[3], Stats { count: 1, bytes: 20 });
    assert_eq!(sizes[1], Stats { count: 4, bytes: 135 });
    assert_eq!(sizes[0], Stats { count: 5, bytes: 135 });
}

#[test]
fn root_entry_counts_each_reachable_node_once() {
    // Two paths to node 2; its stats still count once at the root.
    let g = HeapGraph {
        nodes: vec![node(0, 0), node(16, 7), node(32, 9)],
        edges: vec![(0, 1), (0, 2), (1, 2)],
    };
    let sizes = dominator_subtree_sizes(&g, 0);
    assert_eq!(sizes[0], Stats { count: 3, bytes: 16 });
}

#[test]
fn unreachable_node_keeps_its_own_stats() {
    let g = HeapGraph {
        nodes: vec![node(0, 0), node(16, 7), node(32, 1000)],
        edges: vec![(0, 1)],
    };
    let sizes = dominator_subtree_sizes(&g, 0);
    assert_eq!(sizes[0], Stats { count: 2, bytes: 7 });
    assert_eq!(sizes[2], Stats { count: 1, bytes: 1000 });
}
