use gj::hashed::{build_hash, create, inter, intersect, lookup, triangle, triangle_ht, triangle_index};
use std::collections::HashMap;

fn sorted_triples(mut v: Vec<(u64, u64, u64)>) -> Vec<(u64, u64, u64)> {
    v.sort();
    v
}

#[test]
fn create_keeps_residual_order() {
    let m = create(&[(1, 5), (2, 7), (1, 3), (1, 5)]);
    assert_eq!(m.len(), 2);
    assert_eq!(m.get(&1), Some(&vec![5, 3, 5]));
    assert_eq!(m.get(&2), Some(&vec![7]));
    assert_eq!(m.get(&3), None);
}

#[test]
fn intersect_indexes_both_ways() {
    let a = create(&[(1, 10), (2, 20), (3, 30), (4, 40), (5, 50)]);
    let b = create(&[(2, 200), (5, 500), (9, 900)]);
    let mut ab: Vec<(u64, Vec<u64>, Vec<u64>)> =
        intersect(&a, &b).into_iter().map(|(k, x, y)| (k, x.clone(), y.clone())).collect();
    ab.sort();
    assert_eq!(ab, vec![(2, vec![20], vec![200]), (5, vec![50], vec![500])]);
    let mut ba: Vec<(u64, Vec<u64>, Vec<u64>)> =
        intersect(&b, &a).into_iter().map(|(k, x, y)| (k, x.clone(), y.clone())).collect();
    ba.sort();
    assert_eq!(ba, vec![(2, vec![200], vec![20]), (5, vec![500], vec![50])]);
}

#[test]
fn intersect_ignores_key_order() {
    let keys: Vec<u64> = vec![5, 1, 9, 3, 7, 2];
    let mut shuffled = keys.clone();
    shuffled.reverse();
    let pairs: Vec<(u64, u64)> = keys.iter().map(|k| (*k, *k * 10)).collect();
    let pairs2: Vec<(u64, u64)> = shuffled.iter().map(|k| (*k, *k * 10)).collect();
    let other = create(&[(1, 0), (2, 0), (4, 0), (9, 0)]);
    let a = create(&pairs);
    let a2 = create(&pairs2);
    let mut k1: Vec<u64> = intersect(&a, &other).into_iter().map(|e| e.0).collect();
    let mut k2: Vec<u64> = intersect(&a2, &other).into_iter().map(|e| e.0).collect();
    k1.sort();
    k2.sort();
    assert_eq!(k1, vec![1, 2, 9]);
    assert_eq!(k1, k2);
}

#[test]
fn build_hash_turns_pairs_round() {
    let (m, keys) = build_hash(&[(1, 2), (1, 3), (4, 1)], false);
    assert_eq!(keys.len(), 2);
    assert!(keys.contains(&1) && keys.contains(&4));
    assert!(m[&1].contains(&2) && m[&1].contains(&3));
    let (m, keys) = build_hash(&[(1, 2), (1, 3), (4, 1)], true);
    assert_eq!(keys.len(), 3);
    assert!(m[&2].contains(&1));
    assert!(m[&1].contains(&4));
    assert_eq!(lookup(&m, 3).len(), 1);
}

#[test]
fn inter_of_sets() {
    let (m, _) = build_hash(&[(0, 1), (0, 2), (0, 3), (1, 2), (1, 3), (1, 4)], false);
    let mut got = inter(&m[&0], &m[&1]);
    got.sort();
    assert_eq!(got, vec![2, 3]);
}

#[test]
fn hash_single_triangle() {
    let out = triangle(&[(1, 2)], &[(2, 3)], &[(3, 1)]);
    assert_eq!(out, vec![(1, 2, 3)]);
}

#[test]
fn hash_empty() {
    let e: [(u64, u64); 0] = [];
    assert_eq!(triangle(&e, &e, &e).len(), 0);
    assert_eq!(triangle_ht(&e, &e, &e).len(), 0);
}

#[test]
fn hash_open_path() {
    assert_eq!(triangle(&[(1, 2)], &[(2, 3)], &[(3, 4)]).len(), 0);
    assert_eq!(triangle_ht(&[(1, 2)], &[(2, 3)], &[(3, 4)]).len(), 0);
}

#[test]
fn triangle_index_on_built_indexes() {
    let g: Vec<(u64, u64)> = vec![(1, 2), (2, 3), (3, 1), (1, 3)];
    let (r, rk) = build_hash(&g, false);
    let (s, sk) = build_hash(&g, false);
    let (t, tk) = build_hash(&g, true);
    let out = sorted_triples(triangle_index(r, rk, s, sk, t, tk));
    assert_eq!(out, vec![(1, 2, 3), (2, 3, 1), (3, 1, 2)]);
}

#[test]
fn realizations_agree() {
    let g: Vec<(u64, u64)> = vec![(1, 2), (2, 3), (3, 1), (1, 3), (3, 4), (4, 1), (2, 4), (4, 2), (5, 5), (2, 3)];
    let h = sorted_triples(triangle(&g, &g, &g));
    let s = sorted_triples(gj::sorted::triangle(&g, &g, &g));
    let v = sorted_triples(triangle_ht(&g, &g, &g));
    assert_eq!(h.len(), 13);
    assert_eq!(h, s);
    assert_eq!(h, v);
}

#[test]
fn triangle_ht_single() {
    assert_eq!(triangle_ht(&[(1, 2)], &[(2, 3)], &[(3, 1)]), vec![(1, 2, 3)]);
}

#[test]
fn create_empty() {
    let m: HashMap<u64, Vec<u64>> = create(&[]);
    assert!(m.is_empty());
}
