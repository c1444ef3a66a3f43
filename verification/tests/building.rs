use reap::graph::build_graph;
use reap::line::ParsedLine;
use reap::object::Object;

fn rec(address: usize, bytes: usize, kind: &str, references: Vec<usize>) -> ParsedLine {
    ParsedLine {
        object: Object { address, bytes, kind: kind.to_string(), label: None },
        references,
        module: None,
        name: None,
    }
}

#[test]
fn nodes_follow_records_with_root_first() {
    let records = vec![rec(16, 10, "OBJECT", vec![]), rec(32, 20, "STRING", vec![])];
    let (root, g) = build_graph(records);
    assert_eq!(root, 0);
    assert_eq!(g.node_count(), 3);
    assert_eq!(g.nodes[0].address, 0);
    assert_eq!(g.nodes[0].kind, "ROOT");
    assert_eq!(g.nodes[1].address, 16);
    assert_eq!(g.nodes[2].address, 32);
    assert_eq!(g.edge_count(), 0);
}

#[test]
fn dangling_reference_is_dropped_silently() {
    // The second record points at an address never declared: the graph
    // simply lacks that edge.
    let records = vec![rec(16, 10, "OBJECT", vec![32, 999]), rec(32, 20, "STRING", vec![])];
    let (_, g) = build_graph(records);
    assert_eq!(g.node_count(), 3);
    assert_eq!(g.edges, vec![(1, 2)]);
}

#[test]
fn root_records_merge_into_one_node() {
    let mut r1 = rec(0, 0, "ROOT", vec![16]);
    r1.object.kind = "ROOT".to_string();
    let r2 = rec(0, 0, "ROOT", vec![32]);
    let records = vec![r1, rec(16, 1, "A", vec![]), r2, rec(32, 2, "B", vec![])];
    let (root, g) = build_graph(records);
    assert_eq!(root, 0);
    assert_eq!(g.node_count(), 3);
    assert_eq!(g.edges, vec![(0, 1), (0, 2)]);
}

#[test]
fn parallel_edges_are_kept_in_the_full_graph() {
    let records = vec![rec(16, 10, "OBJECT", vec![32, 32]), rec(32, 20, "STRING", vec![])];
    let (_, g) = build_graph(records);
    assert_eq!(g.edges, vec![(1, 2), (1, 2)]);
}

#[test]
fn kind_is_rewritten_from_class_name() {
    let mut instance = rec(16, 10, "OBJECT", vec![]);
    instance.module = Some(80);
    let mut class = rec(80, 5, "CLASS", vec![]);
    class.name = Some("Widget".to_string());
    let (_, g) = build_graph(vec![instance, class]);
    assert_eq!(g.nodes[1].kind, "Widget");
    assert_eq!(g.nodes[2].kind, "CLASS");
}
