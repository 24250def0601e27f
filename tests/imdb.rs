use gj::sorted::{create, imdb_ckm, imdb_cmk, imdb_kcm, imdb_kmc, imdb_mck, imdb_mkc, oriented};

fn sorted_triples(mut v: Vec<(u64, u64, u64)>) -> Vec<(u64, u64, u64)> {
    v.sort();
    v
}

// keyword-movie and movie-company pairs, and the sets of ids kept
fn data() -> (Vec<u64>, Vec<u64>, Vec<(u64, u64)>, Vec<(u64, u64)>, Vec<u64>) {
    let k = vec![1, 2, 5];
    let cn = vec![10, 30];
    let mk = vec![(1, 100), (1, 101), (2, 101), (3, 100), (5, 102), (5, 103)];
    let mc = vec![(100, 10), (100, 20), (101, 30), (102, 10), (103, 30), (104, 10)];
    let t = vec![100, 101, 103, 104];
    (k, cn, mk, mc, t)
}

fn expected() -> Vec<(u64, u64, u64)> {
    let (k, cn, mk, mc, t) = data();
    let mut out = vec![];
    for (kw, m) in &mk {
        for (m2, c) in &mc {
            if m == m2 && k.contains(kw) && t.contains(m) && cn.contains(c) {
                out.push((*kw, *m, *c));
            }
        }
    }
    out.sort();
    out
}

#[test]
fn movie_query_in_six_orders() {
    let (k, cn, mk, mc, t) = data();
    let mk_by_keyword = create(oriented(&mk, false));
    let mk_by_movie = create(oriented(&mk, true));
    let mc_by_movie = create(oriented(&mc, false));
    let mc_by_company = create(oriented(&mc, true));
    let want = expected();
    assert_eq!(want, vec![(1, 100, 10), (1, 101, 30), (2, 101, 30), (5, 103, 30)]);
    assert_eq!(sorted_triples(imdb_kmc(&k, &cn, &mc_by_movie, &mk_by_keyword, &t)), want);
    assert_eq!(sorted_triples(imdb_kcm(&k, &cn, &mc_by_company, &mk_by_keyword, &t)), want);
    assert_eq!(sorted_triples(imdb_mkc(&k, &cn, &mc_by_movie, &mk_by_movie, &t)), want);
    assert_eq!(sorted_triples(imdb_mck(&k, &cn, &mc_by_movie, &mk_by_movie, &t)), want);
    assert_eq!(sorted_triples(imdb_cmk(&k, &cn, &mc_by_company, &mk_by_movie, &t)), want);
    assert_eq!(sorted_triples(imdb_ckm(&k, &cn, &mc_by_company, &mk_by_keyword, &t)), want);
}

#[test]
fn movie_query_with_no_keywords() {
    let (_k, cn, mk, mc, t) = data();
    let none: Vec<u64> = vec![];
    let mk_by_keyword = create(oriented(&mk, false));
    let mc_by_movie = create(oriented(&mc, false));
    assert_eq!(imdb_kmc(&none, &cn, &mc_by_movie, &mk_by_keyword, &t).len(), 0);
}
