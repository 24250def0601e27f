use gj::relation::aggregate;

#[test]
fn aggregate_counts_and_collects() {
    let g: Vec<(u64, u64)> = vec![(1, 2), (2, 3), (3, 1)];
    let ts = gj::hashed::triangle(&g, &g, &g);
    let count: u64 = aggregate(&ts, 0u64, |n: u64, _t: (u64, u64, u64)| n + 1);
    assert_eq!(count, 3);
    let mut firsts: Vec<u64> = aggregate(&ts, Vec::new(), |mut v: Vec<u64>, t: (u64, u64, u64)| {
        v.push(t.0);
        v
    });
    firsts.sort();
    assert_eq!(firsts, vec![1, 2, 3]);
    let sum: u64 = aggregate(&ts, 100u64, |n: u64, t: (u64, u64, u64)| n + t.0 * t.1 * t.2);
    assert_eq!(sum, 118);
}

#[test]
fn aggregate_of_nothing_is_the_start() {
    let empty: Vec<(u64, u64, u64)> = vec![];
    assert_eq!(aggregate(&empty, 42u64, |n: u64, _t: (u64, u64, u64)| n + 1), 42);
}
