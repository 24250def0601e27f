use gj::trie::Trie;
use gj::Val;

fn t(vals: &[u64]) -> Vec<Val> {
    vals.iter().map(|v| Val::Int(*v)).collect()
}

#[test]
fn round_trip_of_inserted_tuples() {
    let ts = vec![t(&[1, 2, 3]), t(&[1, 2, 4]), t(&[2, 2, 2]), t(&[1, 5, 3])];
    let trie = Trie::from_iter(&ts);
    for tup in &ts {
        assert!(trie.contains_tuple(tup));
    }
    assert!(!trie.contains_tuple(&t(&[1, 2])));
    assert!(!trie.contains_tuple(&t(&[1, 2, 5])));
    assert!(!trie.contains_tuple(&t(&[3, 2, 2])));
    assert!(!trie.contains_tuple(&t(&[1, 2, 3, 4])));
    assert_eq!(trie.len(), 2);
}

#[test]
fn mixed_values() {
    let ts = vec![
        vec![Val::Str("a".to_string()), Val::Boo(true)],
        vec![Val::Str("b".to_string()), Val::Int(3)],
    ];
    let trie = Trie::from_iter(&ts);
    assert!(trie.contains_tuple(&ts[0]));
    assert!(trie.contains_tuple(&ts[1]));
    assert!(!trie.contains_tuple(&[Val::Str("a".to_string()), Val::Boo(false)]));
    assert!(trie.get(&Val::Str("b".to_string())).is_some());
    assert!(trie.get(&Val::Int(3)).is_none());
}

#[test]
fn add_prefix_replaces_longer_tuples() {
    let mut trie = Trie::new();
    trie.add(&t(&[1, 2]));
    trie.add(&t(&[1, 3]));
    trie.add(&t(&[1]));
    assert!(trie.contains_tuple(&t(&[1])));
    assert!(!trie.contains_tuple(&t(&[1, 2])));
    assert!(!trie.contains_tuple(&t(&[1, 3])));
}

#[test]
fn inter_min_pairs_children_in_input_order() {
    let a = Trie::from_iter(&[t(&[1, 10]), t(&[2, 20]), t(&[3, 30])]);
    let b = Trie::from_iter(&[t(&[2, 21]), t(&[3, 31]), t(&[4, 41]), t(&[5, 51])]);
    let c = Trie::from_iter(&[t(&[3, 32]), t(&[2, 22])]);
    let ts = vec![&b, &a, &c];
    let mut out: Vec<(u64, Vec<bool>)> = Trie::inter_min(&ts)
        .into_iter()
        .map(|(k, ch)| {
            let key = match k {
                Val::Int(n) => *n,
                _ => panic!("not an integer"),
            };
            let marks = vec![
                ch[0].contains_tuple(&t(&[key * 10 + 1])),
                ch[1].contains_tuple(&t(&[key * 10])),
                ch[2].contains_tuple(&t(&[key * 10 + 2])),
            ];
            (key, marks)
        })
        .collect();
    out.sort();
    assert_eq!(out, vec![(2, vec![true, true, true]), (3, vec![true, true, true])]);
}

#[test]
fn intersect_driven_by_self() {
    let a = Trie::from_iter(&[t(&[1, 10]), t(&[2, 20])]);
    let b = Trie::from_iter(&[t(&[2, 21]), t(&[7, 71])]);
    let out = a.intersect(&[&b]);
    assert_eq!(out.len(), 1);
    assert_eq!(*out[0].0, Val::Int(2));
    assert!(out[0].1[0].contains_tuple(&t(&[21])));
}

#[test]
fn empty_trie_holds_nothing() {
    let trie = Trie::new();
    assert_eq!(trie.len(), 0);
    assert!(!trie.contains_tuple(&t(&[1])));
    assert!(!trie.contains_tuple(&[]));
}

#[test]
fn values_compare_by_content() {
    assert_eq!(Val::Str("x".to_string()), Val::Str("x".to_string()));
    assert_ne!(Val::Int(1), Val::Boo(true));
    assert!(Val::Int(4).same(&Val::Int(4)));
    assert!(!Val::Int(4).same(&Val::Int(5)));
    assert_eq!(Val::Str("q".to_string()).copy_val(), Val::Str("q".to_string()));
}

#[test]
fn values_are_ordered() {
    let s = |x: &str| Val::Str(x.to_string());
    assert!(Val::Int(3).less_than(&Val::Int(4)));
    assert!(!Val::Int(4).less_than(&Val::Int(4)));
    assert!(Val::Int(u64::MAX).less_than(&s("")));
    assert!(s("zzz").less_than(&Val::Boo(false)));
    assert!(Val::Boo(false).less_than(&Val::Boo(true)));
    assert!(!Val::Boo(true).less_than(&Val::Int(0)));
    assert!(s("ab").less_than(&s("abc")));
    assert!(s("abc").less_than(&s("abd")));
    assert!(!s("abd").less_than(&s("abc")));
    assert!(s("").less_than(&s("a")));
    assert!(!s("a").less_than(&s("a")));
    assert!(s("Z").less_than(&s("a")));
}
