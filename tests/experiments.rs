use gj::experiments::{covered, divide_hom, summary_join, triangle};
use gj::trie::Trie;
use gj::Val;
use std::collections::HashMap;

fn edges_trie(es: &[(u64, u64)], flip: bool) -> Trie {
    let ts: Vec<Vec<Val>> = es
        .iter()
        .map(|(x, y)| if flip { vec![Val::Int(*y), Val::Int(*x)] } else { vec![Val::Int(*x), Val::Int(*y)] })
        .collect();
    Trie::from_iter(&ts)
}

fn graph() -> Vec<(u64, u64)> {
    vec![(1, 2), (2, 3), (3, 1), (1, 3), (3, 4), (4, 1), (2, 4), (4, 2), (5, 5)]
}

#[test]
fn trie_join_single_triangle() {
    let rx = edges_trie(&[(1, 2)], false);
    let sy = edges_trie(&[(2, 3)], false);
    let tx = edges_trie(&[(3, 1)], true);
    let out = triangle(&rx, &sy, &tx);
    assert_eq!(out, vec![(Val::Int(1), Val::Int(2), Val::Int(3))]);
}

#[test]
fn trie_join_counts_graph_triangles() {
    let g = graph();
    let rx = edges_trie(&g, false);
    let tx = edges_trie(&g, true);
    assert_eq!(triangle(&rx, &rx, &tx).len(), 13);
}

#[test]
fn summary_with_identity_matches_plain_count() {
    let g = graph();
    let mut hom: HashMap<u64, u64> = HashMap::new();
    for v in 1..=5u64 {
        hom.insert(v, v);
    }
    let plain = gj::hashed::triangle(&g, &g, &g).len();
    assert_eq!(summary_join(&g, &hom), Some(plain));
    assert_eq!(plain, 13);
}

#[test]
fn summary_with_clusters_counts_all_triangles() {
    let g = graph();
    let mut hom: HashMap<u64, u64> = HashMap::new();
    hom.insert(1, 0);
    hom.insert(2, 0);
    hom.insert(3, 1);
    hom.insert(4, 1);
    hom.insert(5, 0);
    assert_eq!(summary_join(&g, &hom), Some(13));
    let mut one: HashMap<u64, u64> = HashMap::new();
    for v in 1..=5u64 {
        one.insert(v, 7);
    }
    assert_eq!(summary_join(&g, &one), Some(13));
}

#[test]
fn summary_without_cluster_for_a_vertex() {
    let g = graph();
    let mut hom: HashMap<u64, u64> = HashMap::new();
    for v in 1..=4u64 {
        hom.insert(v, v);
    }
    assert!(!covered(&g, &hom));
    assert_eq!(summary_join(&g, &hom), None);
}

#[test]
fn divided_copies() {
    let g: Vec<(u64, u64)> = vec![(1, 2), (2, 3), (3, 1), (11, 12), (12, 13), (13, 11), (11, 3)];
    let hom = divide_hom(&g, 10);
    assert_eq!(hom[&12], 1);
    assert_eq!(hom[&3], 0);
    assert_eq!(summary_join(&g, &hom), Some(6));
}

#[test]
fn summary_of_empty_graph() {
    let hom: HashMap<u64, u64> = HashMap::new();
    assert_eq!(summary_join(&[], &hom), Some(0));
}

#[test]
fn five_relation_query() {
    let int = |v: u64| Val::Int(v);
    // company types, info types
    let ct = Trie::from_iter(&[vec![int(1)], vec![int(2)]]);
    let it = Trie::from_iter(&[vec![int(7)]]);
    // movie companies: (company type, movie, note)
    let mc = Trie::from_iter(&[
        vec![int(1), int(100), Val::Str("co".to_string())],
        vec![int(1), int(101), Val::Str("presents".to_string())],
        vec![int(3), int(100), Val::Str("other".to_string())],
    ]);
    // movie info: (movie, info type)
    let mi_idx = Trie::from_iter(&[vec![int(100), int(7)], vec![int(101), int(8)], vec![int(102), int(7)]]);
    // titles: (movie, title)
    let t = Trie::from_iter(&[
        vec![int(100), Val::Str("A".to_string())],
        vec![int(101), Val::Str("B".to_string())],
    ]);
    let out = gj::experiments::query(&ct, &it, &mc, &mi_idx, &t);
    assert_eq!(out.len(), 1);
    assert_eq!(out[0].0, (int(1), int(100), int(7)));
    assert!(out[0].1 .0.contains_tuple(&[Val::Str("co".to_string())]));
    assert!(out[0].1 .1.contains_tuple(&[Val::Str("A".to_string())]));
}
