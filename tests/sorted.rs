use gj::sorted::{
    create, gallop, intersect_e_e, intersect_e_e_v, intersect_e_v, intersect_v_e, intersect_v_e_v,
    intersect_v_v, intersect_v_v_v, oriented, sorted, to_trie, triangle, triangle_index_xyz,
    triangle_index_xzy, triangle_index_yxz, triangle_index_yzx, triangle_index_zxy,
    triangle_index_zyx,
};

fn linear_boundary(s: &[u64], target: u64) -> usize {
    let mut i = 0;
    while i < s.len() && s[i] < target {
        i += 1;
    }
    i
}

fn trie_of(pairs: &[(u64, u64)], flip: bool) -> Vec<(u64, Vec<u64>)> {
    create(oriented(pairs, flip))
}

fn sorted_triples(mut v: Vec<(u64, u64, u64)>) -> Vec<(u64, u64, u64)> {
    v.sort();
    v
}

fn all_orders(r: &[(u64, u64)], s: &[(u64, u64)], t: &[(u64, u64)]) -> Vec<Vec<(u64, u64, u64)>> {
    let r_xy = trie_of(r, false);
    let r_yx = trie_of(r, true);
    let s_yz = trie_of(s, false);
    let s_zy = trie_of(s, true);
    let t_zx = trie_of(t, false);
    let t_xz = trie_of(t, true);
    vec![
        triangle_index_xyz(&r_xy, &s_yz, &t_xz),
        triangle_index_xzy(&r_xy, &s_zy, &t_xz),
        triangle_index_yxz(&r_yx, &s_yz, &t_xz),
        triangle_index_yzx(&r_yx, &s_yz, &t_zx),
        triangle_index_zxy(&r_xy, &s_zy, &t_zx),
        triangle_index_zyx(&r_yx, &s_zy, &t_zx),
    ]
}

#[test]
fn gallop_finds_first_not_below() {
    let s: Vec<u64> = vec![1, 3, 3, 5, 8, 13, 21, 34, 55, 89];
    assert_eq!(gallop(&s[..], 0), 0);
    assert_eq!(gallop(&s[..], 1), 0);
    assert_eq!(gallop(&s[..], 2), 1);
    assert_eq!(gallop(&s[..], 4), 3);
    assert_eq!(gallop(&s[..], 34), 7);
    assert_eq!(gallop(&s[..], 90), 10);
    let empty: Vec<u64> = vec![];
    assert_eq!(gallop(&empty[..], 7), 0);
}

#[test]
fn gallop_matches_linear_scan() {
    let s: Vec<u64> = (0..200u64).map(|i| i * 3 + (i % 4)).collect();
    let mut sorted_s = s.clone();
    sorted_s.sort();
    for target in 0..700u64 {
        assert_eq!(gallop(&sorted_s[..], target), linear_boundary(&sorted_s[..], target));
    }
}

#[test]
fn gallop_on_trie_entries() {
    let t = to_trie(&[(2, 1), (4, 1), (4, 2), (9, 0)]);
    assert_eq!(gallop(&t[..], 3), 1);
    assert_eq!(gallop(&t[..], 4), 1);
    assert_eq!(gallop(&t[..], 5), 2);
    assert_eq!(gallop(&t[..], 10), 3);
}

#[test]
fn sorted_checks_order() {
    assert!(sorted(&[1, 2, 2, 7]));
    assert!(sorted(&[]));
    assert!(!sorted(&[3, 1]));
}

#[test]
fn intersect_values_is_set_intersection() {
    let a: Vec<u64> = vec![1, 4, 6, 9, 12, 30];
    let b: Vec<u64> = vec![2, 4, 9, 10, 30];
    assert_eq!(intersect_v_v(&a, &b), vec![4, 9, 30]);
    assert_eq!(intersect_v_v(&b, &a), vec![4, 9, 30]);
    let small: Vec<u64> = vec![9];
    assert_eq!(intersect_v_v(&a, &small), vec![9]);
    assert_eq!(intersect_v_v(&small, &a), vec![9]);
    let none: Vec<u64> = vec![];
    assert_eq!(intersect_v_v(&a, &none), Vec::<u64>::new());
}

#[test]
fn intersect_values_random_sets() {
    let mut seed: u64 = 7;
    for _ in 0..50 {
        let mut a = Vec::new();
        let mut b = Vec::new();
        for v in 0..100u64 {
            seed = seed.wrapping_mul(6364136223846793005).wrapping_add(1442695040888963407);
            if (seed >> 33) % 3 == 0 {
                a.push(v);
            }
            if (seed >> 40) % 5 == 0 {
                b.push(v);
            }
        }
        let expected: Vec<u64> = a.iter().copied().filter(|x| b.contains(x)).collect();
        assert_eq!(intersect_v_v(&a, &b), expected);
        assert_eq!(intersect_v_v(&b, &a), expected);
    }
}

#[test]
fn intersect_with_entries() {
    let t = to_trie(&[(1, 10), (3, 30), (3, 31), (5, 50), (8, 80)]);
    let v: Vec<u64> = vec![3, 4, 8];
    let got = intersect_v_e(&v, &t);
    assert_eq!(got.len(), 2);
    assert_eq!((got[0].0, got[0].1.clone()), (3, vec![30, 31]));
    assert_eq!((got[1].0, got[1].1.clone()), (8, vec![80]));
    let got = intersect_e_v(&t, &v);
    assert_eq!(got.iter().map(|e| e.0).collect::<Vec<_>>(), vec![3, 8]);
    let long: Vec<u64> = (0..20).collect();
    let got = intersect_v_e(&long, &t);
    assert_eq!(got.iter().map(|e| e.0).collect::<Vec<_>>(), vec![1, 3, 5, 8]);
}

#[test]
fn intersect_two_levels() {
    let r = to_trie(&[(1, 1), (2, 2), (4, 4), (4, 5)]);
    let s = to_trie(&[(2, 20), (3, 30), (4, 40)]);
    let got = intersect_e_e(&r, &s);
    assert_eq!(got.len(), 2);
    assert_eq!((got[0].0, got[0].1.clone(), got[0].2.clone()), (2, vec![2], vec![20]));
    assert_eq!((got[1].0, got[1].1.clone(), got[1].2.clone()), (4, vec![4, 5], vec![40]));
    let got = intersect_e_e(&s, &r);
    assert_eq!((got[1].0, got[1].1.clone(), got[1].2.clone()), (4, vec![40], vec![4, 5]));
}

#[test]
fn intersect_three_ways() {
    let a: Vec<u64> = vec![1, 2, 3, 4, 5, 6];
    let b: Vec<u64> = vec![2, 4, 6];
    let c: Vec<u64> = vec![4, 5, 6, 7];
    assert_eq!(intersect_v_v_v(&a, &b, &c), vec![4, 6]);
    assert_eq!(intersect_v_v_v(&c, &a, &b), vec![4, 6]);
    let r = to_trie(&[(4, 1), (6, 2), (7, 3)]);
    let s = to_trie(&[(4, 9), (5, 9), (6, 8)]);
    let got = intersect_e_e_v(&r, &s, &b);
    assert_eq!(got.len(), 2);
    assert_eq!((got[0].0, got[0].1.clone(), got[0].2.clone()), (4, vec![1], vec![9]));
    assert_eq!((got[1].0, got[1].1.clone(), got[1].2.clone()), (6, vec![2], vec![8]));
    let got = intersect_v_e_v(&a, &s, &c);
    assert_eq!(got.iter().map(|e| (e.0, e.1.clone())).collect::<Vec<_>>(), vec![(4, vec![9]), (5, vec![9]), (6, vec![8])]);
}

#[test]
fn to_trie_groups_and_drops_repeats() {
    let t = to_trie(&[(1, 2), (1, 2), (1, 5), (3, 0), (7, 7), (7, 8)]);
    assert_eq!(t, vec![(1, vec![2, 5]), (3, vec![0]), (7, vec![7, 8])]);
    assert_eq!(to_trie(&[]), Vec::<(u64, Vec<u64>)>::new());
}

#[test]
fn create_sorts_before_grouping() {
    let t = create(vec![(7, 8), (1, 5), (3, 0), (1, 2), (7, 7), (1, 2)]);
    assert_eq!(t, vec![(1, vec![2, 5]), (3, vec![0]), (7, vec![7, 8])]);
}

#[test]
fn single_triangle() {
    let r = [(1, 2)];
    let s = [(2, 3)];
    let t = [(3, 1)];
    let out = triangle(&r, &s, &t);
    assert_eq!(out, vec![(1, 2, 3)]);
    assert_eq!(out.len(), 1);
}

#[test]
fn empty_relations_have_no_triangle() {
    let e: [(u64, u64); 0] = [];
    assert_eq!(triangle(&e, &e, &e).len(), 0);
    for out in all_orders(&e, &e, &e) {
        assert_eq!(out.len(), 0);
    }
}

#[test]
fn open_path_has_no_triangle_in_any_order() {
    let r = [(1, 2)];
    let s = [(2, 3)];
    let t = [(3, 4)];
    assert_eq!(triangle(&r, &s, &t).len(), 0);
    for out in all_orders(&r, &s, &t) {
        assert_eq!(out.len(), 0);
    }
}

#[test]
fn six_orders_agree() {
    let g: Vec<(u64, u64)> = vec![(1, 2), (2, 3), (3, 1), (1, 3), (3, 4), (4, 1), (2, 4), (4, 2), (5, 5)];
    let expected = sorted_triples(triangle(&g, &g, &g));
    assert_eq!(expected.len(), 13);
    for out in all_orders(&g, &g, &g) {
        assert_eq!(out.len(), expected.len());
        assert_eq!(sorted_triples(out), expected);
    }
}

#[test]
fn single_triangle_in_every_order() {
    let r = [(1, 2)];
    let s = [(2, 3)];
    let t = [(3, 1)];
    for out in all_orders(&r, &s, &t) {
        assert_eq!(out, vec![(1, 2, 3)]);
    }
}
