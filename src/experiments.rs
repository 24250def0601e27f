//! The generic-join driver on relation tries, and the summary join that
//! runs it twice: once on a summary of the graph, then once for each
//! triangle of the summary.
use vstd::prelude::*;
use crate::trie::{all_have, lemma_child_entry, lists_key, meets_all, Trie};
use crate::relation::{lemma_listings_agree, lists, triangle_of};
use crate::value::{Val, ValView};
use std::collections::HashMap;

verus! {

/// The views of the three values.
pub open spec fn view3(tr: (Val, Val, Val)) -> (ValView, ValView, ValView) {
    (tr.0@, tr.1@, tr.2@)
}

/// The views of each triple of values.
pub open spec fn views3(out: Seq<(Val, Val, Val)>) -> Seq<(ValView, ValView, ValView)> {
    out.map_values(|tr: (Val, Val, Val)| view3(tr))
}

/// A well-formed inner node whose children are inner nodes: a trie of a
/// relation of two attributes or more.
pub open spec fn two_level(t: Trie) -> bool {
    &&& t.wf()
    &&& t.is_node()
    &&& forall|i: int| 0 <= i < t.entries().len() ==> (#[trigger] t.entries()[i]).1.is_node()
}

/// The trie relates `a` to `b`: it has `b` under `a`.
pub open spec fn has2(t: Trie, a: ValView, b: ValView) -> bool {
    match t.child(a) {
        Some(c) => c.is_node() && c.child(b) is Some,
        None => false,
    }
}

/// `out` lists, once each, the triples of values that `R(x, y)`, `S(y, z)`
/// and `T(x, z)` bind, given as tries `rx`, `sy` and `tx`.
pub open spec fn lists_triangles(out: Seq<(Val, Val, Val)>, rx: Trie, sy: Trie, tx: Trie) -> bool {
    &&& views3(out).no_duplicates()
    &&& forall|v: (ValView, ValView, ValView)|
        #[trigger] views3(out).contains(v) <==> has2(rx, v.0, v.1)
            && has2(sy, v.1, v.2) && has2(tx, v.0, v.2)
}

proof fn lemma_child_is_node(t: Trie, k: ValView)
    requires
        two_level(t),
        t.child(k) is Some,
    ensures
        (t.child(k)->0).is_node(),
        (t.child(k)->0).wf(),
{
    lemma_child_entry(t, k);
    let i = choose|i: int|
        0 <= i < t.entries().len() && (#[trigger] t.entries()[i]).0@ == k && t.entries()[i].1 == t.child(k)->0;
    assert(t.entries()[i].1.wf());
}

/// Triangle query `R(x, y), S(y, z), T(z, x)` by generic join on tries:
/// `rx` holds `R` keyed on x, `sy` holds `S` keyed on y, `tx` holds `T`
/// keyed on x. At each attribute the tries that bind it are intersected,
/// the one with fewest keys driving.
pub fn triangle(rx: &Trie, sy: &Trie, tx: &Trie) -> (out: Vec<(Val, Val, Val)>)
    requires
        two_level(*rx),
        two_level(*sy),
        two_level(*tx),
    ensures
        lists_triangles(out@, *rx, *sy, *tx),
{
    let mut out: Vec<(Val, Val, Val)> = Vec::new();
    let ghost vs: Seq<(ValView, ValView, ValView)> = Seq::empty();
    let first = vec![rx, tx];
    let xs = Trie::inter_min(first.as_slice());
    for i in 0..xs.len()
        invariant
            two_level(*rx),
            two_level(*sy),
            two_level(*tx),
            first@ == seq![rx, tx],
            meets_all(xs@, first@),
            vs == views3(out@),
            vs.no_duplicates(),
            forall|v: (ValView, ValView, ValView)|
                #[trigger] vs.contains(v) <==> has2(*rx, v.0, v.1) && has2(*sy, v.1, v.2) && has2(*tx, v.0, v.2)
                    && exists|m: int| 0 <= m < i && (#[trigger] xs@[m]).0@ == v.0,
    {
        let a = xs[i].0;
        let ra = xs[i].1[0];
        let ta = xs[i].1[1];
        proof {
            assert(first@[0] == rx && first@[1] == tx);
            assert(rx.child(a@) == Some(*ra));
            assert(tx.child(a@) == Some(*ta));
            lemma_child_is_node(*rx, a@);
            lemma_child_is_node(*tx, a@);
        }
        let second = vec![ra, sy];
        let ys = Trie::inter_min(second.as_slice());
        for j in 0..ys.len()
            invariant
                two_level(*rx),
                two_level(*sy),
                two_level(*tx),
                first@ == seq![rx, tx],
                meets_all(xs@, first@),
                0 <= i < xs@.len(),
                xs@[i as int].0 == a,
                rx.child(a@) == Some(*ra),
                tx.child(a@) == Some(*ta),
                ra.is_node() && ra.wf(),
                ta.is_node() && ta.wf(),
                second@ == seq![ra, sy],
                meets_all(ys@, second@),
                vs == views3(out@),
                vs.no_duplicates(),
                forall|v: (ValView, ValView, ValView)|
                    #[trigger] vs.contains(v) <==> has2(*rx, v.0, v.1) && has2(*sy, v.1, v.2) && has2(*tx, v.0, v.2)
                        && ((exists|m: int| 0 <= m < i && (#[trigger] xs@[m]).0@ == v.0) || (v.0 == a@
                        && exists|n: int| 0 <= n < j && (#[trigger] ys@[n]).0@ == v.1)),
        {
            let b = ys[j].0;
            let sb = ys[j].1[1];
            proof {
                assert(second@[1] == sy);
                assert(sy.child(b@) == Some(*sb));
                lemma_child_is_node(*sy, b@);
            }
            let third = vec![sb, ta];
            let zs = Trie::inter_min(third.as_slice());
            for l in 0..zs.len()
                invariant
                    two_level(*rx),
                    two_level(*sy),
                    two_level(*tx),
                    first@ == seq![rx, tx],
                    meets_all(xs@, first@),
                    0 <= i < xs@.len(),
                    xs@[i as int].0 == a,
                    rx.child(a@) == Some(*ra),
                    tx.child(a@) == Some(*ta),
                    ra.is_node(),
                    ta.is_node(),
                    second@ == seq![ra, sy],
                    meets_all(ys@, second@),
                    0 <= j < ys@.len(),
                    ys@[j as int].0 == b,
                    sy.child(b@) == Some(*sb),
                    sb.is_node(),
                    third@ == seq![sb, ta],
                    meets_all(zs@, third@),
                    vs == views3(out@),
                    vs.no_duplicates(),
                    forall|v: (ValView, ValView, ValView)|
                        #[trigger] vs.contains(v) <==> has2(*rx, v.0, v.1) && has2(*sy, v.1, v.2) && has2(
                            *tx,
                            v.0,
                            v.2,
                        ) && ((exists|m: int| 0 <= m < i && (#[trigger] xs@[m]).0@ == v.0) || (v.0 == a@
                            && ((exists|n: int| 0 <= n < j && (#[trigger] ys@[n]).0@ == v.1) || (v.1 == b@
                            && exists|n: int| 0 <= n < l && (#[trigger] zs@[n]).0@ == v.2)))),
            {
                let c = zs[l].0;
                let ghost before = vs;
                let ghost v_new = (a@, b@, c@);
                proof {
                    assert(lists_key(zs@, c@));
                    assert(lists_key(ys@, b@));
                    assert(all_have(third@, c@));
                    assert(third@[0] == sb && third@[1] == ta);
                    assert(all_have(second@, b@));
                    assert(second@[0] == ra);
                    assert(has2(*rx, a@, b@));
                    assert(has2(*sy, b@, c@));
                    assert(has2(*tx, a@, c@));
                    if before.contains(v_new) {
                        if exists|m: int| 0 <= m < i && (#[trigger] xs@[m]).0@ == a@ {
                            let m = choose|m: int| 0 <= m < i && (#[trigger] xs@[m]).0@ == a@;
                            assert(xs@[m].0@ != xs@[i as int].0@);
                        } else if exists|n: int| 0 <= n < j && (#[trigger] ys@[n]).0@ == b@ {
                            let n = choose|n: int| 0 <= n < j && (#[trigger] ys@[n]).0@ == b@;
                            assert(ys@[n].0@ != ys@[j as int].0@);
                        } else {
                            let n = choose|n: int| 0 <= n < l && (#[trigger] zs@[n]).0@ == c@;
                            assert(zs@[n].0@ != zs@[l as int].0@);
                        }
                    }
                }
                out.push((a.copy_val(), b.copy_val(), c.copy_val()));
                proof {
                    vs = vs.push(v_new);
                    assert(vs =~= views3(out@));
                    assert forall|v: (ValView, ValView, ValView)|
                        #[trigger] vs.contains(v) <==> before.contains(v) || v == v_new by {
                        if vs.contains(v) {
                            let k = choose|k: int| 0 <= k < vs.len() && vs[k] == v;
                            if k < before.len() {
                                assert(before[k] == v);
                            }
                        }
                        if before.contains(v) {
                            let k = choose|k: int| 0 <= k < before.len() && before[k] == v;
                            assert(vs[k] == v);
                        }
                        if v == v_new {
                            assert(vs[before.len() as int] == v);
                        }
                    }
                    assert(zs@[l as int].0@ == c@);
                }
            }
            proof {
                assert forall|v: (ValView, ValView, ValView)|
                    #[trigger] has2(*sy, v.1, v.2) && has2(*tx, v.0, v.2) && v.0 == a@ && v.1 == b@ implies exists|n: int|
                        0 <= n < zs@.len() && (#[trigger] zs@[n]).0@ == v.2 by {
                    assert(third@[0] == sb && third@[1] == ta);
                    assert(all_have(third@, v.2));
                    assert(lists_key(zs@, v.2));
                }
            }
        }
        proof {
            assert forall|v: (ValView, ValView, ValView)|
                #[trigger] has2(*rx, v.0, v.1) && has2(*sy, v.1, v.2) && v.0 == a@ implies exists|n: int|
                    0 <= n < ys@.len() && (#[trigger] ys@[n]).0@ == v.1 by {
                assert(second@[0] == ra && second@[1] == sy);
                assert(all_have(second@, v.1));
                assert(lists_key(ys@, v.1));
            }
        }
    }
    proof {
        assert forall|v: (ValView, ValView, ValView)|
            #[trigger] has2(*rx, v.0, v.1) && has2(*tx, v.0, v.2) implies exists|m: int|
                0 <= m < xs@.len() && (#[trigger] xs@[m]).0@ == v.0 by {
            assert(first@[0] == rx && first@[1] == tx);
            assert(all_have(first@, v.0));
            assert(lists_key(xs@, v.0));
        }
    }
    out
}


broadcast use vstd::std_specs::hash::group_hash_axioms;

/// Every endpoint of every edge has an image under `hom`.
pub open spec fn covers(hom: Map<u64, u64>, es: Seq<(u64, u64)>) -> bool {
    forall|i: int| 0 <= i < es.len() ==> hom.contains_key((#[trigger] es[i]).0) && hom.contains_key(es[i].1)
}

/// The edge `e` of `es` maps onto the summary edge `(a, b)`.
pub open spec fn in_group(es: Seq<(u64, u64)>, hom: Map<u64, u64>, a: u64, b: u64, e: (u64, u64)) -> bool {
    es.contains(e) && hom[e.0] == a && hom[e.1] == b
}

/// The image of a triple of vertices.
pub open spec fn image3(hom: Map<u64, u64>, tr: (u64, u64, u64)) -> (u64, u64, u64) {
    (hom[tr.0], hom[tr.1], hom[tr.2])
}

/// One integer for the summary edge `(a, b)`: `a` in the high half, `b`
/// in the low half.
pub open spec fn edge_key(a: u64, b: u64) -> u128 {
    ((a as u128) * 0x1_0000_0000_0000_0000u128 + (b as u128)) as u128
}

proof fn lemma_edge_key_injective(a: u64, b: u64, c: u64, d: u64)
    requires
        edge_key(a, b) == edge_key(c, d),
    ensures
        a == c && b == d,
{
    let k: int = 0x1_0000_0000_0000_0000;
    let (ai, bi, ci, di) = (a as int, b as int, c as int, d as int);
    assert(ai * k + bi < k * k) by (nonlinear_arith)
        requires
            0 <= ai < k,
            0 <= bi < k,
    ;
    assert(ci * k + di < k * k) by (nonlinear_arith)
        requires
            0 <= ci < k,
            0 <= di < k,
    ;
    assert(k * k - 1 == 0xffff_ffff_ffff_ffff_ffff_ffff_ffff_ffffu128 as int);
    assert(ai * k + bi == ci * k + di);
    assert(ai == ci) by (nonlinear_arith)
        requires
            ai * k + bi == ci * k + di,
            0 <= bi < k,
            0 <= di < k,
            k > 0,
    ;
}

/// The group of the summary edge `(a, b)` holds the edge `e`.
pub open spec fn group_has(groups: Map<u128, Vec<(u64, u64)>>, a: u64, b: u64, e: (u64, u64)) -> bool {
    groups.contains_key(edge_key(a, b)) && groups[edge_key(a, b)]@.contains(e)
}

/// The groups hold, under the key of each summary edge, exactly the edges
/// of `es` that map onto it.
pub open spec fn groups_of(groups: Map<u128, Vec<(u64, u64)>>, es: Seq<(u64, u64)>, hom: Map<u64, u64>) -> bool {
    forall|a: u64, b: u64, e: (u64, u64)|
        #[trigger] group_has(groups, a, b, e)
            <==> #[trigger] in_group(es, hom, a, b, e)
}

/// Whether every endpoint of every edge has an image under `hom`.
pub fn covered(es: &[(u64, u64)], hom: &HashMap<u64, u64>) -> (r: bool)
    ensures
        r == covers(hom@, es@),
{
    for i in 0..es.len()
        invariant
            forall|k: int| 0 <= k < i ==> hom@.contains_key((#[trigger] es@[k]).0) && hom@.contains_key(es@[k].1),
    {
        if !hom.contains_key(&es[i].0) || !hom.contains_key(&es[i].1) {
            return false;
        }
    }
    true
}

/// The key of a summary edge.
fn key_of(a: u64, b: u64) -> (r: u128)
    ensures
        r == edge_key(a, b),
{
    let k: u128 = 0x1_0000_0000_0000_0000u128;
    assert((a as u128) * k + (b as u128) <= 0xffff_ffff_ffff_ffff_ffff_ffff_ffff_ffffu128) by (nonlinear_arith)
        requires
            a <= 0xffff_ffff_ffff_ffffu64,
            b <= 0xffff_ffff_ffff_ffffu64,
            k == 0x1_0000_0000_0000_0000u128,
    ;
    (a as u128) * k + (b as u128)
}

/// Groups the edges by the summary edge they map onto, and lists the
/// summary edges.
fn group_edges(es: &[(u64, u64)], hom: &HashMap<u64, u64>) -> (res: (
    HashMap<u128, Vec<(u64, u64)>>,
    Vec<(u64, u64)>,
))
    requires
        covers(hom@, es@),
    ensures
        groups_of(res.0@, es@, hom@),
        res.1@.len() == es@.len(),
        forall|i: int| 0 <= i < es@.len() ==> #[trigger] res.1@[i] == (hom@[es@[i].0], hom@[es@[i].1]),
{
    let mut groups: HashMap<u128, Vec<(u64, u64)>> = HashMap::new();
    let mut sum: Vec<(u64, u64)> = Vec::new();
    for i in 0..es.len()
        invariant
            covers(hom@, es@),
            sum@.len() == i,
            forall|k: int| 0 <= k < i ==> #[trigger] sum@[k] == (hom@[es@[k].0], hom@[es@[k].1]),
            forall|a: u64, b: u64, e: (u64, u64)|
                #[trigger] group_has(groups@, a, b, e)
                    <==> (exists|k: int| 0 <= k < i && es@[k] == e) && hom@[e.0] == a && hom@[e.1] == b,
    {
        let (x, y) = es[i];
        assert(hom@.contains_key((#[trigger] es@[i as int]).0));
        let a = *hom.get(&x).unwrap();
        let b = *hom.get(&y).unwrap();
        let key = key_of(a, b);
        let ghost before = groups@;
        let mut list = match groups.remove(&key) {
            Some(l) => l,
            None => Vec::new(),
        };
        let ghost list0 = list@;
        list.push((x, y));
        groups.insert(key, list);
        sum.push((a, b));
        proof {
            assert forall|a2: u64, b2: u64, e: (u64, u64)|
                #[trigger] group_has(groups@, a2, b2, e)
                    <==> (exists|k: int| 0 <= k < i + 1 && es@[k] == e) && hom@[e.0] == a2 && hom@[e.1] == b2 by {
                let k2 = edge_key(a2, b2);
                let was = group_has(before, a2, b2, e);
                assert(was <==> (exists|k: int| 0 <= k < i && es@[k] == e) && hom@[e.0] == a2 && hom@[e.1] == b2);
                if k2 == key {
                    lemma_edge_key_injective(a2, b2, a, b);
                    assert(groups@[k2]@ == list0.push((x, y)));
                    assert(was <==> list0.contains(e));
                    if e == (x, y) {
                        assert(list0.push((x, y))[list0.len() as int] == e);
                        assert(es@[i as int] == e);
                    }
                    if list0.push((x, y)).contains(e) && e != (x, y) {
                        let k = choose|k: int| 0 <= k < list0.len() + 1 && list0.push((x, y))[k] == e;
                        assert(list0[k] == e);
                    }
                    if list0.contains(e) {
                        let k = choose|k: int| 0 <= k < list0.len() && list0[k] == e;
                        assert(list0.push((x, y))[k] == e);
                    }
                    if (exists|k: int| 0 <= k < i + 1 && es@[k] == e) && e != (x, y) {
                        let k = choose|k: int| 0 <= k < i + 1 && es@[k] == e;
                        assert(k != i);
                        assert(exists|k3: int| 0 <= k3 < i && es@[k3] == e);
                    }
                } else {
                    assert(groups@.contains_key(k2) == before.contains_key(k2));
                    if e == (x, y) && hom@[e.0] == a2 && hom@[e.1] == b2 {
                        assert(false);
                    }
                    if exists|k: int| 0 <= k < i + 1 && es@[k] == e {
                        let k = choose|k: int| 0 <= k < i + 1 && es@[k] == e;
                        if k < i {
                            assert(exists|k3: int| 0 <= k3 < i && es@[k3] == e);
                        }
                    }
                }
            }
        }
    }
    proof {
        assert forall|a: u64, b: u64, e: (u64, u64)|
            #[trigger] group_has(groups@, a, b, e)
                <==> #[trigger] in_group(es@, hom@, a, b, e) by {
            if es@.contains(e) {
                let k = choose|k: int| 0 <= k < es@.len() && es@[k] == e;
            }
        }
    }
    (groups, sum)
}

/// The fiber of one summary triangle: the triangles of the graph whose
/// image is `(a, b, c)` are the triangles of its three groups.
proof fn lemma_fiber(
    groups: Map<u128, Vec<(u64, u64)>>,
    es: Seq<(u64, u64)>,
    hom: Map<u64, u64>,
    a: u64,
    b: u64,
    c: u64,
    tr: (u64, u64, u64),
)
    requires
        groups_of(groups, es, hom),
        groups.contains_key(edge_key(a, b)),
        groups.contains_key(edge_key(b, c)),
        groups.contains_key(edge_key(c, a)),
    ensures
        triangle_of(
            groups[edge_key(a, b)]@,
            groups[edge_key(b, c)]@,
            groups[edge_key(c, a)]@,
            tr,
        ) <==> triangle_of(es, es, es, tr) && image3(hom, tr) == (a, b, c),
{
    assert(group_has(groups, a, b, (tr.0, tr.1)) <==> in_group(es, hom, a, b, (tr.0, tr.1)));
    assert(group_has(groups, b, c, (tr.1, tr.2)) <==> in_group(es, hom, b, c, (tr.1, tr.2)));
    assert(group_has(groups, c, a, (tr.2, tr.0)) <==> in_group(es, hom, c, a, (tr.2, tr.0)));
}

/// Summary join on a graph `es` and a homomorphism `hom` from vertices to
/// clusters: joins the summary graph of the cluster edges to find the
/// summary triangles, then for each of them joins the three groups of
/// edges that map onto its sides, and counts all the triangles found.
/// Each side of a summary triangle `(a, b, c)` takes its role in order:
/// `(a, b)` for `R`, `(b, c)` for `S`, `(c, a)` for `T`. There is no
/// result when a vertex has no cluster.
pub fn summary_join(es: &[(u64, u64)], hom: &HashMap<u64, u64>) -> (r: Option<usize>)
    ensures
        r is None <==> !covers(hom@, es@),
        r matches Some(n) ==> exists|ts: Seq<(u64, u64, u64)>|
            lists(ts, |tr: (u64, u64, u64)| triangle_of(es@, es@, es@, tr)) && ts.len() == n,
{
    if !covered(es, hom) {
        return None;
    }
    let (groups, sum) = group_edges(es, hom);
    let st = crate::hashed::triangle(sum.as_slice(), sum.as_slice(), sum.as_slice());
    let mut all: Vec<(u64, u64, u64)> = Vec::new();
    for i in 0..st.len()
        invariant
            covers(hom@, es@),
            groups_of(groups@, es@, hom@),
            sum@.len() == es@.len(),
            forall|k: int| 0 <= k < es@.len() ==> #[trigger] sum@[k] == (hom@[es@[k].0], hom@[es@[k].1]),
            lists(st@, |tr: (u64, u64, u64)| triangle_of(sum@, sum@, sum@, tr)),
            all@.no_duplicates(),
            forall|tr: (u64, u64, u64)|
                #[trigger] all@.contains(tr) <==> triangle_of(es@, es@, es@, tr) && exists|m: int|
                    0 <= m < i && st@[m] == image3(hom@, tr),
    {
        let (a, b, c) = st[i];
        let ghost before = all@;
        proof {
            assert forall|tr: (u64, u64, u64)| #[trigger] before.contains(tr) implies image3(hom@, tr) != (a, b, c) by {
                let m = choose|m: int| 0 <= m < i && st@[m] == image3(hom@, tr);
                assert(st@[m] != st@[i as int]);
            }
        }
        match (groups.get(&key_of(a, b)), groups.get(&key_of(b, c)), groups.get(&key_of(c, a))) {
            (Some(x), Some(y), Some(z)) => {
                let mut local = crate::hashed::triangle(x.as_slice(), y.as_slice(), z.as_slice());
                let ghost loc = local@;
                proof {
                    assert forall|tr: (u64, u64, u64)| #[trigger] loc.contains(tr) <==> triangle_of(es@, es@, es@, tr)
                        && image3(hom@, tr) == (a, b, c) by {
                        lemma_fiber(groups@, es@, hom@, a, b, c, tr);
                    }
                }
                all.append(&mut local);
                proof {
                    assert(all@ == before + loc);
                    assert forall|p: int, q: int| 0 <= p < all@.len() && 0 <= q < all@.len() && p != q implies all@[p] != all@[q] by {
                        if p < before.len() && q >= before.len() {
                            assert(before.contains(all@[p]));
                            assert(loc.contains(loc[q - before.len()]));
                        } else if q < before.len() && p >= before.len() {
                            assert(before.contains(all@[q]));
                            assert(loc.contains(loc[p - before.len()]));
                        } else if p >= before.len() {
                            assert(loc[p - before.len()] != loc[q - before.len()]);
                        }
                    }
                    assert forall|tr: (u64, u64, u64)| #[trigger] all@.contains(tr) <==> before.contains(tr) || loc.contains(tr) by {
                        if all@.contains(tr) {
                            let p = choose|p: int| 0 <= p < all@.len() && all@[p] == tr;
                            if p < before.len() {
                                assert(before[p] == tr);
                            } else {
                                assert(loc[p - before.len()] == tr);
                            }
                        }
                        if before.contains(tr) {
                            let p = choose|p: int| 0 <= p < before.len() && before[p] == tr;
                            assert(all@[p] == tr);
                        }
                        if loc.contains(tr) {
                            let p = choose|p: int| 0 <= p < loc.len() && loc[p] == tr;
                            assert(all@[before.len() + p] == tr);
                        }
                    }
                    assert forall|tr: (u64, u64, u64)|
                        #[trigger] all@.contains(tr) <==> triangle_of(es@, es@, es@, tr) && exists|m: int|
                            0 <= m < i + 1 && st@[m] == image3(hom@, tr) by {
                        if before.contains(tr) {
                            let m = choose|m: int| 0 <= m < i && st@[m] == image3(hom@, tr);
                            assert(0 <= m < i + 1);
                        }
                        if loc.contains(tr) {
                            assert(st@[i as int] == image3(hom@, tr));
                        }
                        if triangle_of(es@, es@, es@, tr) && exists|m: int| 0 <= m < i + 1 && st@[m] == image3(hom@, tr) {
                            let m = choose|m: int| 0 <= m < i + 1 && st@[m] == image3(hom@, tr);
                            if m == i {
                                assert(loc.contains(tr));
                            } else {
                                assert(before.contains(tr));
                            }
                        }
                    }
                }
            },
            _ => {
                proof {
                    assert forall|tr: (u64, u64, u64)|
                        #[trigger] all@.contains(tr) <==> triangle_of(es@, es@, es@, tr) && exists|m: int|
                            0 <= m < i + 1 && st@[m] == image3(hom@, tr) by {
                        if triangle_of(es@, es@, es@, tr) && exists|m: int| 0 <= m < i + 1 && st@[m] == image3(hom@, tr) {
                            let m = choose|m: int| 0 <= m < i + 1 && st@[m] == image3(hom@, tr);
                            if m == i {
                                assert(in_group(es@, hom@, a, b, (tr.0, tr.1)));
                                assert(in_group(es@, hom@, b, c, (tr.1, tr.2)));
                                assert(in_group(es@, hom@, c, a, (tr.2, tr.0)));
                                assert(group_has(groups@, a, b, (tr.0, tr.1)));
                                assert(group_has(groups@, b, c, (tr.1, tr.2)));
                                assert(group_has(groups@, c, a, (tr.2, tr.0)));
                                assert(false);
                            } else {
                                assert(0 <= m < i);
                            }
                        }
                        if all@.contains(tr) {
                            let m = choose|m: int| 0 <= m < i && st@[m] == image3(hom@, tr);
                            assert(0 <= m < i + 1);
                        }
                    }
                }
            },
        }
    }
    proof {
        assert forall|tr: (u64, u64, u64)| #[trigger] all@.contains(tr) <==> triangle_of(es@, es@, es@, tr) by {
            if triangle_of(es@, es@, es@, tr) {
                let p = choose|p: int| 0 <= p < es@.len() && es@[p] == (tr.0, tr.1);
                let q = choose|q: int| 0 <= q < es@.len() && es@[q] == (tr.1, tr.2);
                let w = choose|w: int| 0 <= w < es@.len() && es@[w] == (tr.2, tr.0);
                assert(sum@[p] == (hom@[tr.0], hom@[tr.1]));
                assert(sum@[q] == (hom@[tr.1], hom@[tr.2]));
                assert(sum@[w] == (hom@[tr.2], hom@[tr.0]));
                assert(triangle_of(sum@, sum@, sum@, image3(hom@, tr)));
                assert(st@.contains(image3(hom@, tr)));
                let m = choose|m: int| 0 <= m < st@.len() && st@[m] == image3(hom@, tr);
            }
        }
        assert(lists(all@, |tr: (u64, u64, u64)| triangle_of(es@, es@, es@, tr)));
    }
    Some(all.len())
}

/// The summary join counts the triangles of the graph, whatever the
/// homomorphism, so long as it gives every vertex a cluster; with the
/// identity, whose summary graph is the graph itself, this is the count of
/// the plain generic join.
pub proof fn lemma_summary_counts_triangles(es: Seq<(u64, u64)>, plain: Seq<(u64, u64, u64)>, n: usize)
    requires
        lists(plain, |tr: (u64, u64, u64)| triangle_of(es, es, es, tr)),
        exists|ts: Seq<(u64, u64, u64)>| lists(ts, |tr: (u64, u64, u64)| triangle_of(es, es, es, tr)) && ts.len() == n,
    ensures
        n == plain.len(),
{
    let ts = choose|ts: Seq<(u64, u64, u64)>| lists(ts, |tr: (u64, u64, u64)| triangle_of(es, es, es, tr)) && ts.len() == n;
    lemma_listings_agree(
        ts,
        plain,
        |tr: (u64, u64, u64)| triangle_of(es, es, es, tr),
        |tr: (u64, u64, u64)| triangle_of(es, es, es, tr),
    );
}

/// The homomorphism that maps each endpoint `v` of the edges to the
/// cluster `v / fac`: the copies of a graph laid side by side in blocks of
/// `fac` vertex ids fall together.
pub fn divide_hom(es: &[(u64, u64)], fac: u64) -> (hom: HashMap<u64, u64>)
    requires
        fac > 0,
    ensures
        covers(hom@, es@),
        forall|v: u64| #[trigger] hom@.contains_key(v) ==> hom@[v] == v / fac,
{
    let mut hom: HashMap<u64, u64> = HashMap::new();
    for i in 0..es.len()
        invariant
            fac > 0,
            forall|k: int| 0 <= k < i ==> hom@.contains_key((#[trigger] es@[k]).0) && hom@.contains_key(es@[k].1),
            forall|v: u64| #[trigger] hom@.contains_key(v) ==> hom@[v] == v / fac,
    {
        let (x, y) = es[i];
        hom.insert(x, x / fac);
        hom.insert(y, y / fac);
    }
    hom
}


/// The bindings of a match of the five-relation query, with the two
/// residuals that the output aggregates read.
pub type QueryMatch<'a> = ((Val, Val, Val), (&'a Trie, &'a Trie));

/// The key views of each match.
pub open spec fn match_keys<'a>(out: Seq<QueryMatch<'a>>) -> Seq<(ValView, ValView, ValView)> {
    out.map_values(|e: QueryMatch<'a>| view3(e.0))
}

/// `(a, b, c)` binds the query `ct(a), mc(a, b), t(b), mi_idx(b, c), it(c)`:
/// a company type, a movie and an info type.
pub open spec fn query_rel(
    ct: Trie,
    it: Trie,
    mc: Trie,
    mi_idx: Trie,
    t: Trie,
    v: (ValView, ValView, ValView),
) -> bool {
    &&& ct.child(v.0) is Some
    &&& has2(mc, v.0, v.1)
    &&& t.child(v.1) is Some
    &&& has2(mi_idx, v.1, v.2)
    &&& it.child(v.2) is Some
}

/// Five-relation query by generic join: the company type `a` from `ct` and
/// `mc`, the movie `b` from `t`, `mc` under `a` and `mi_idx`, the info type
/// `c` from `it` and `mi_idx` under `b`. Each match comes with the residual
/// of `mc` under `a` and `b` and the residual of `t` under `b`.
pub fn query<'a>(ct: &'a Trie, it: &'a Trie, mc: &'a Trie, mi_idx: &'a Trie, t: &'a Trie) -> (out: Vec<
    QueryMatch<'a>,
>)
    requires
        ct.wf() && ct.is_node(),
        it.wf() && it.is_node(),
        t.wf() && t.is_node(),
        two_level(*mc),
        two_level(*mi_idx),
    ensures
        match_keys(out@).no_duplicates(),
        forall|v: (ValView, ValView, ValView)|
            #[trigger] match_keys(out@).contains(v) <==> query_rel(*ct, *it, *mc, *mi_idx, *t, v),
        forall|m: int|
            0 <= m < out@.len() ==> {
                let ((a, b, _c), (mc_ab, t_b)) = #[trigger] out@[m];
                &&& (mc.child(a@)->0).child(b@) == Some(*mc_ab)
                &&& t.child(b@) == Some(*t_b)
            },
{
    let mut out: Vec<QueryMatch<'a>> = Vec::new();
    let ghost vs: Seq<(ValView, ValView, ValView)> = Seq::empty();
    let first = vec![ct, mc];
    let xs = Trie::inter_min(first.as_slice());
    for i in 0..xs.len()
        invariant
            ct.wf() && ct.is_node(),
            it.wf() && it.is_node(),
            t.wf() && t.is_node(),
            two_level(*mc),
            two_level(*mi_idx),
            first@ == seq![ct, mc],
            meets_all(xs@, first@),
            vs == match_keys(out@),
            vs.no_duplicates(),
            forall|v: (ValView, ValView, ValView)|
                #[trigger] vs.contains(v) <==> query_rel(*ct, *it, *mc, *mi_idx, *t, v) && exists|m: int|
                    0 <= m < i && (#[trigger] xs@[m]).0@ == v.0,
            forall|m: int|
                0 <= m < out@.len() ==> {
                    let ((a, b, _c), (mc_ab, t_b)) = #[trigger] out@[m];
                    &&& (mc.child(a@)->0).child(b@) == Some(*mc_ab)
                    &&& t.child(b@) == Some(*t_b)
                },
    {
        let a = xs[i].0;
        let mc_a = xs[i].1[1];
        proof {
            assert(first@[0] == ct && first@[1] == mc);
            assert(mc.child(a@) == Some(*mc_a));
            lemma_child_is_node(*mc, a@);
        }
        let second = vec![t, mc_a, mi_idx];
        let ys = Trie::inter_min(second.as_slice());
        for j in 0..ys.len()
            invariant
                ct.wf() && ct.is_node(),
                it.wf() && it.is_node(),
                t.wf() && t.is_node(),
                two_level(*mc),
                two_level(*mi_idx),
                first@ == seq![ct, mc],
                meets_all(xs@, first@),
                0 <= i < xs@.len(),
                xs@[i as int].0 == a,
                mc.child(a@) == Some(*mc_a),
                mc_a.is_node() && mc_a.wf(),
                second@ == seq![t, mc_a, mi_idx],
                meets_all(ys@, second@),
                vs == match_keys(out@),
                vs.no_duplicates(),
                forall|v: (ValView, ValView, ValView)|
                    #[trigger] vs.contains(v) <==> query_rel(*ct, *it, *mc, *mi_idx, *t, v) && ((exists|m: int|
                        0 <= m < i && (#[trigger] xs@[m]).0@ == v.0) || (v.0 == a@ && exists|n: int|
                        0 <= n < j && (#[trigger] ys@[n]).0@ == v.1)),
                forall|m: int|
                    0 <= m < out@.len() ==> {
                        let ((a2, b2, _c2), (mc_ab, t_b)) = #[trigger] out@[m];
                        &&& (mc.child(a2@)->0).child(b2@) == Some(*mc_ab)
                        &&& t.child(b2@) == Some(*t_b)
                    },
        {
            let b = ys[j].0;
            let t_b = ys[j].1[0];
            let mc_ab = ys[j].1[1];
            let mi_idx_b = ys[j].1[2];
            proof {
                assert(second@[0] == t && second@[1] == mc_a && second@[2] == mi_idx);
                assert(t.child(b@) == Some(*t_b));
                assert(mc_a.child(b@) == Some(*mc_ab));
                assert(mi_idx.child(b@) == Some(*mi_idx_b));
                lemma_child_is_node(*mi_idx, b@);
            }
            let third = vec![it, mi_idx_b];
            let zs = Trie::inter_min(third.as_slice());
            for l in 0..zs.len()
                invariant
                    first@ == seq![ct, mc],
                    meets_all(xs@, first@),
                    0 <= i < xs@.len(),
                    xs@[i as int].0 == a,
                    mc.child(a@) == Some(*mc_a),
                    mc_a.is_node(),
                    second@ == seq![t, mc_a, mi_idx],
                    meets_all(ys@, second@),
                    0 <= j < ys@.len(),
                    ys@[j as int].0 == b,
                    t.child(b@) == Some(*t_b),
                    mc_a.child(b@) == Some(*mc_ab),
                    mi_idx.child(b@) == Some(*mi_idx_b),
                    mi_idx_b.is_node(),
                    third@ == seq![it, mi_idx_b],
                    meets_all(zs@, third@),
                    vs == match_keys(out@),
                    vs.no_duplicates(),
                    forall|v: (ValView, ValView, ValView)|
                        #[trigger] vs.contains(v) <==> query_rel(*ct, *it, *mc, *mi_idx, *t, v) && ((exists|m: int|
                            0 <= m < i && (#[trigger] xs@[m]).0@ == v.0) || (v.0 == a@ && ((exists|n: int|
                            0 <= n < j && (#[trigger] ys@[n]).0@ == v.1) || (v.1 == b@ && exists|n: int|
                            0 <= n < l && (#[trigger] zs@[n]).0@ == v.2)))),
                    forall|m: int|
                        0 <= m < out@.len() ==> {
                            let ((a2, b2, _c2), (mc_ab2, t_b2)) = #[trigger] out@[m];
                            &&& (mc.child(a2@)->0).child(b2@) == Some(*mc_ab2)
                            &&& t.child(b2@) == Some(*t_b2)
                        },
            {
                let c = zs[l].0;
                let ghost before = vs;
                let ghost v_new = (a@, b@, c@);
                proof {
                    assert(lists_key(zs@, c@));
                    assert(lists_key(ys@, b@));
                    assert(lists_key(xs@, a@));
                    assert(all_have(third@, c@));
                    assert(third@[0] == it && third@[1] == mi_idx_b);
                    assert(all_have(second@, b@));
                    assert(second@[0] == t && second@[1] == mc_a && second@[2] == mi_idx);
                    assert(all_have(first@, a@));
                    assert(first@[0] == ct && first@[1] == mc);
                    assert(query_rel(*ct, *it, *mc, *mi_idx, *t, v_new));
                    if before.contains(v_new) {
                        if exists|m: int| 0 <= m < i && (#[trigger] xs@[m]).0@ == a@ {
                            let m = choose|m: int| 0 <= m < i && (#[trigger] xs@[m]).0@ == a@;
                            assert(xs@[m].0@ != xs@[i as int].0@);
                        } else if exists|n: int| 0 <= n < j && (#[trigger] ys@[n]).0@ == b@ {
                            let n = choose|n: int| 0 <= n < j && (#[trigger] ys@[n]).0@ == b@;
                            assert(ys@[n].0@ != ys@[j as int].0@);
                        } else {
                            let n = choose|n: int| 0 <= n < l && (#[trigger] zs@[n]).0@ == c@;
                            assert(zs@[n].0@ != zs@[l as int].0@);
                        }
                    }
                }
                let ghost old_out = out@;
                out.push(((a.copy_val(), b.copy_val(), c.copy_val()), (mc_ab, t_b)));
                proof {
                    vs = vs.push(v_new);
                    assert(vs =~= match_keys(out@));
                    assert forall|v: (ValView, ValView, ValView)|
                        #[trigger] vs.contains(v) <==> before.contains(v) || v == v_new by {
                        if vs.contains(v) {
                            let k = choose|k: int| 0 <= k < vs.len() && vs[k] == v;
                            if k < before.len() {
                                assert(before[k] == v);
                            }
                        }
                        if before.contains(v) {
                            let k = choose|k: int| 0 <= k < before.len() && before[k] == v;
                            assert(vs[k] == v);
                        }
                        if v == v_new {
                            assert(vs[before.len() as int] == v);
                        }
                    }
                    assert(zs@[l as int].0@ == c@);
                    assert forall|m: int| 0 <= m < out@.len() implies {
                        let ((a2, b2, _c2), (mc_ab2, t_b2)) = #[trigger] out@[m];
                        &&& (mc.child(a2@)->0).child(b2@) == Some(*mc_ab2)
                        &&& t.child(b2@) == Some(*t_b2)
                    } by {
                        if m < old_out.len() {
                            assert(out@[m] == old_out[m]);
                        }
                    }
                }
            }
            proof {
                assert forall|v: (ValView, ValView, ValView)|
                    #[trigger] has2(*mi_idx, v.1, v.2) && query_rel(*ct, *it, *mc, *mi_idx, *t, v) && v.0 == a@ && v.1 == b@ implies exists|n: int|
                        0 <= n < zs@.len() && (#[trigger] zs@[n]).0@ == v.2 by {
                    assert(third@[0] == it && third@[1] == mi_idx_b);
                    assert(all_have(third@, v.2));
                    assert(lists_key(zs@, v.2));
                }
            }
        }
        proof {
            assert forall|v: (ValView, ValView, ValView)|
                #[trigger] has2(*mc, v.0, v.1) && query_rel(*ct, *it, *mc, *mi_idx, *t, v) && v.0 == a@ implies exists|n: int|
                    0 <= n < ys@.len() && (#[trigger] ys@[n]).0@ == v.1 by {
                assert(second@[0] == t && second@[1] == mc_a && second@[2] == mi_idx);
                assert(all_have(second@, v.1));
                assert(lists_key(ys@, v.1));
            }
        }
    }
    proof {
        assert forall|v: (ValView, ValView, ValView)|
            #[trigger] has2(*mc, v.0, v.1) && query_rel(*ct, *it, *mc, *mi_idx, *t, v) implies exists|m: int|
                0 <= m < xs@.len() && (#[trigger] xs@[m]).0@ == v.0 by {
            assert(first@[0] == ct && first@[1] == mc);
            assert(all_have(first@, v.0));
            assert(lists_key(xs@, v.0));
        }
    }
    out
}

} // verus!
