use reap::dominator::dominator_subtree_sizes;
use reap::json::parse_lines;
use reap::kinds::stats_by_kind;
use reap::prune::relevant_subgraph;

fn dump() -> Vec<String> {
    vec![
        r#"{"type":"ROOT","references":["0x10","0x20"]}"#.to_string(),
        r#"{"address":"0x10","type":"OBJECT","memsize":100,"references":["0x30","0x30","0x40"],"class":"0x50"}"#.to_string(),
        r#"{"address":"0x20","type":"STRING","memsize":1,"value":"hi"}"#.to_string(),
        r#"{"address":"0x30","type":"STRING","memsize":200,"references":["0x99"]}"#.to_string(),
        r#"{"address":"0x40","type":"ARRAY","memsize":300,"length":2,"references":["0x30","0x40"]}"#.to_string(),
        r#"{"address":"0x50","type":"CLASS","memsize":20,"name":"Widget"}"#.to_string(),
        r#"{"address":"0x60","type":"STRING","memsize":1000}"#.to_string(),
    ]
}

#[test]
fn integration() {
    let (root, graph) = parse_lines(&dump()).unwrap();

    assert_eq!(7, graph.node_count());
    assert_eq!(7, graph.edge_count());
    assert_eq!(graph.nodes[1].kind, "Widget");

    let by_kind = stats_by_kind(&graph);
    let strings = by_kind.iter().find(|(k, _)| k == "STRING").unwrap().1;
    assert_eq!(3, strings.count);
    assert_eq!(1201, strings.bytes);

    let subtree_sizes = dominator_subtree_sizes(&graph, root);
    assert_eq!(5, subtree_sizes[root].count);
    assert_eq!(601, subtree_sizes[root].bytes);

    let dom_graph = relevant_subgraph(root, &graph, &subtree_sizes, 5, 1000);
    assert_eq!(6, dom_graph.node_count());
    assert_eq!(4, dom_graph.edge_count());
}

#[test]
fn malformed_line_aborts_with_the_line() {
    let lines = vec![r#"{"address":"0x10""#.to_string()];
    let err = parse_lines(&lines).unwrap_err();
    let reap::line::ParseError::Malformed(s) = err;
    assert_eq!(s, lines[0]);
}

#[test]
fn bad_address_text_aborts() {
    let lines = vec![r#"{"address":"banana","type":"OBJECT"}"#.to_string()];
    assert!(parse_lines(&lines).is_err());
}

#[test]
fn wrong_field_shape_aborts() {
    let lines = vec![r#"{"address":17,"type":"OBJECT"}"#.to_string()];
    assert!(parse_lines(&lines).is_err());
}
