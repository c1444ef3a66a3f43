use reap::graph::HeapGraph;
use reap::kinds::{largest, stats_by_kind};
use reap::object::Object;
use reap::stats::Stats;

fn node(address: usize, bytes: usize, kind: &str) -> Object {
    Object { address, bytes, kind: kind.to_string(), label: None }
}

fn kinds_graph() -> HeapGraph {
    HeapGraph {
        nodes: vec![
            node(0, 0, "ROOT"),
            node(16, 100, "STRING"),
            node(32, 40, "STRING"),
            node(48, 300, "ARRAY"),
            node(64, 25, "HASH"),
        ],
        edges: vec![],
    }
}

fn entry(r: &Vec<(String, Stats)>, key: &str) -> Stats {
    for (k, s) in r.iter() {
        if k == key {
            return *s;
        }
    }
    panic!("missing kind");
}

#[test]
fn kinds_are_grouped_exactly() {
    let g = kinds_graph();
    let by_kind = stats_by_kind(&g);
    assert_eq!(by_kind.len(), 4);
    assert_eq!(entry(&by_kind, "STRING"), Stats { count: 2, bytes: 140 });
    assert_eq!(entry(&by_kind, "ARRAY"), Stats { count: 1, bytes: 300 });
    assert_eq!(entry(&by_kind, "HASH"), Stats { count: 1, bytes: 25 });
    assert_eq!(entry(&by_kind, "ROOT"), Stats { count: 1, bytes: 0 });
}

#[test]
fn largest_ranks_by_bytes_and_sums_the_rest() {
    let entries = vec![
        ("a".to_string(), Stats { count: 1, bytes: 10 }),
        ("b".to_string(), Stats { count: 2, bytes: 500 }),
        ("c".to_string(), Stats { count: 3, bytes: 40 }),
        ("d".to_string(), Stats { count: 4, bytes: 200 }),
    ];
    let (picks, rest) = largest(&entries, 2);
    assert_eq!(picks, vec![1, 3]);
    assert_eq!(rest, Stats { count: 4, bytes: 50 });
}

#[test]
fn largest_with_few_entries_reports_zero_rest() {
    let entries = vec![("a".to_string(), Stats { count: 1, bytes: 10 })];
    let (picks, rest) = largest(&entries, 5);
    assert_eq!(picks, vec![0]);
    assert_eq!(rest, Stats { count: 0, bytes: 0 });
}
