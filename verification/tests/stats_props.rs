use reap::stats::Stats;

#[test]
fn add_is_pointwise() {
    let a = Stats { count: 2, bytes: 100 };
    let b = Stats { count: 3, bytes: 50 };
    let c = a.add(b);
    assert_eq!(c.count, 5);
    assert_eq!(c.bytes, 150);
}

#[test]
fn add_commutes() {
    let a = Stats { count: 7, bytes: 11 };
    let b = Stats { count: 13, bytes: 17 };
    assert_eq!(a.add(b), b.add(a));
}

#[test]
fn add_associates() {
    let a = Stats { count: 1, bytes: 2 };
    let b = Stats { count: 3, bytes: 4 };
    let c = Stats { count: 5, bytes: 6 };
    assert_eq!(a.add(b).add(c), a.add(b.add(c)));
}

#[test]
fn zero_is_neutral() {
    let a = Stats { count: 9, bytes: 40 };
    let z = Stats::zero();
    assert_eq!(a.add(z), a);
    assert_eq!(z.add(a), a);
    assert_eq!(Stats::default(), z);
}
