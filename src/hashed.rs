//! The hash realization: relations as hash maps from a key to its residual
//! values.
use vstd::prelude::*;
use std::collections::{HashMap, HashSet};
use vstd::std_specs::iter::IteratorSpec;
use crate::experiments::{has2, two_level, view3, views3};
use crate::relation::{lemma_listings_agree, lists, triangle_of};
use crate::trie::{
    lemma_child_at, lemma_holds_cons, lemma_nonempty_holds, prefix_free, tuples_of, view_tuple, Trie,
};
use crate::value::ValView;

pub use crate::value::Val;

verus! {

broadcast use vstd::std_specs::hash::group_hash_axioms;

/// The second components of the pairs whose first component is `x`, in
/// order.
pub open spec fn residuals(pairs: Seq<(u64, u64)>, x: u64) -> Seq<u64>
    decreases pairs.len(),
{
    if pairs.len() == 0 {
        Seq::empty()
    } else {
        let rest = residuals(pairs.drop_last(), x);
        if pairs.last().0 == x {
            rest.push(pairs.last().1)
        } else {
            rest
        }
    }
}

/// `out` holds, once each, the keys that `a` and `b` share, each with its
/// value on both sides.
pub open spec fn joins_maps<V, W>(out: Seq<(u64, &V, &W)>, a: Map<u64, V>, b: Map<u64, W>) -> bool {
    &&& forall|i: int, j: int| 0 <= i < j < out.len() ==> out[i].0 != out[j].0
    &&& forall|k: u64|
        (exists|i: int| 0 <= i < out.len() && #[trigger] out[i].0 == k) <==> a.contains_key(k)
            && b.contains_key(k)
    &&& forall|i: int|
        0 <= i < out.len() ==> {
            &&& a.contains_key((#[trigger] out[i]).0)
            &&& b.contains_key(out[i].0)
            &&& *out[i].1 == a[out[i].0]
            &&& *out[i].2 == b[out[i].0]
        }
}

/// Groups pairs by their first component; each group keeps the second
/// components in the order of the input.
pub fn create(pairs: &[(u64, u64)]) -> (m: HashMap<u64, Vec<u64>>)
    ensures
        forall|x: u64| #[trigger] m@.contains_key(x) <==> residuals(pairs@, x).len() > 0,
        forall|x: u64| #[trigger] m@.contains_key(x) ==> m@[x]@ == residuals(pairs@, x),
{
    let mut m: HashMap<u64, Vec<u64>> = HashMap::new();
    for i in 0..pairs.len()
        invariant
            forall|x: u64|
                #[trigger] m@.contains_key(x) <==> residuals(pairs@.subrange(0, i as int), x).len()
                    > 0,
            forall|x: u64|
                #[trigger] m@.contains_key(x) ==> m@[x]@ == residuals(pairs@.subrange(0, i as int), x),
    {
        let (x, y) = pairs[i];
        let mut ys = match m.remove(&x) {
            Some(v) => v,
            None => Vec::new(),
        };
        ys.push(y);
        m.insert(x, ys);
        proof {
            let pre = pairs@.subrange(0, i as int);
            let post = pairs@.subrange(0, i + 1);
            assert(post.drop_last() =~= pre);
            assert(post.last() == (x, y));
            assert forall|x2: u64| #[trigger] residuals(post, x2) == if x2 == x {
                residuals(pre, x2).push(y)
            } else {
                residuals(pre, x2)
            } by {}
        }
    }
    assert(pairs@.subrange(0, pairs@.len() as int) =~= pairs@);
    m
}

/// The entries of `m`, in the order of iteration.
fn entries<V>(m: &HashMap<u64, V>) -> (out: Vec<(u64, &V)>)
    ensures
        forall|k: u64|
            m@.contains_key(k) <==> exists|i: int| 0 <= i < out@.len() && #[trigger] out@[i].0 == k,
        forall|i: int|
            0 <= i < out@.len() ==> m@.contains_key((#[trigger] out@[i]).0) && m@[out@[i].0]
                == *out@[i].1,
        forall|i: int, j: int| 0 <= i < j < out@.len() ==> out@[i].0 != out@[j].0,
{
    let mut out: Vec<(u64, &V)> = Vec::new();
    let iter = m.iter();
    let ghost items = iter.remaining();
    for (k, v) in it: iter
        invariant
            it.seq() == items,
            items.no_duplicates(),
            items.len() == m@.dom().len(),
            forall|i: int|
                #![trigger m@.contains_key(*items[i].0)]
                0 <= i < items.len() ==> m@.contains_key(*items[i].0) && m@[*items[i].0] == *items[i].1,
            forall|k: u64| #[trigger] m@.contains_key(k) ==> items.contains((&k, &m@[k])),
            out@.len() == it.index(),
            forall|i: int|
                0 <= i < it.index() ==> (#[trigger] out@[i]).0 == *it.seq()[i].0 && out@[i].1
                    == it.seq()[i].1,
    {
        out.push((*k, v));
    }
    proof {
        assert forall|i: int, j: int| 0 <= i < j < out@.len() implies out@[i].0 != out@[j].0 by {
            if out@[i].0 == out@[j].0 {
                assert(m@[*items[i].0] == *items[i].1);
                assert(m@[*items[j].0] == *items[j].1);
                assert(items[i] == items[j]);
            }
        }
        assert forall|k: u64| m@.contains_key(k) implies exists|i: int|
            0 <= i < out@.len() && #[trigger] out@[i].0 == k by {
            assert(items.contains((&k, &m@[k])));
            let i = choose|i: int| 0 <= i < items.len() && items[i] == (&k, &m@[k]);
            assert(out@[i].0 == k);
        }
    }
    out
}

/// Walks the entries of `a` and looks each key up in `b`.
fn probe<'a, V, W>(a: &'a HashMap<u64, V>, b: &'a HashMap<u64, W>) -> (out: Vec<(u64, &'a V, &'a W)>)
    ensures
        joins_maps(out@, a@, b@),
{
    let es = entries(a);
    let mut out: Vec<(u64, &'a V, &'a W)> = Vec::new();
    for n in 0..es.len()
        invariant
            forall|k: u64|
                a@.contains_key(k) <==> exists|i: int| 0 <= i < es@.len() && #[trigger] es@[i].0 == k,
            forall|i: int|
                0 <= i < es@.len() ==> a@.contains_key((#[trigger] es@[i]).0) && a@[es@[i].0]
                    == *es@[i].1,
            forall|i: int, j: int| 0 <= i < j < es@.len() ==> es@[i].0 != es@[j].0,
            forall|i: int, j: int| 0 <= i < j < out@.len() ==> out@[i].0 != out@[j].0,
            forall|k: u64|
                (exists|i: int| 0 <= i < out@.len() && #[trigger] out@[i].0 == k) <==> (exists|i: int|
                    0 <= i < n && #[trigger] es@[i].0 == k) && b@.contains_key(k),
            forall|i: int|
                0 <= i < out@.len() ==> {
                    &&& a@.contains_key((#[trigger] out@[i]).0)
                    &&& b@.contains_key(out@[i].0)
                    &&& *out@[i].1 == a@[out@[i].0]
                    &&& *out@[i].2 == b@[out@[i].0]
                },
    {
        let (k, v) = es[n];
        let ghost before = out@;
        match b.get(&k) {
            Some(w) => {
                proof {
                    assert forall|i: int| 0 <= i < before.len() implies before[i].0 != k by {
                        let i2 = choose|i2: int| 0 <= i2 < n && #[trigger] es@[i2].0 == before[i].0;
                        assert(es@[i2].0 != es@[n as int].0);
                    }
                }
                out.push((k, v, w));
                proof {
                    assert forall|k2: u64|
                        (exists|i: int| 0 <= i < out@.len() && #[trigger] out@[i].0 == k2) <==> (exists|
                            i: int,
                        | 0 <= i < n + 1 && #[trigger] es@[i].0 == k2) && b@.contains_key(k2) by {
                        if exists|i: int| 0 <= i < out@.len() && #[trigger] out@[i].0 == k2 {
                            let i = choose|i: int| 0 <= i < out@.len() && #[trigger] out@[i].0 == k2;
                            if i < before.len() {
                                assert(before[i].0 == k2);
                            } else {
                                assert(es@[n as int].0 == k2);
                            }
                        }
                        if (exists|i: int| 0 <= i < n + 1 && #[trigger] es@[i].0 == k2) && b@.contains_key(k2) {
                            let i = choose|i: int| 0 <= i < n + 1 && #[trigger] es@[i].0 == k2;
                            if i < n {
                                let i3 = choose|i3: int| 0 <= i3 < before.len() && #[trigger] before[i3].0 == k2;
                                assert(out@[i3].0 == k2);
                            } else {
                                assert(out@[before.len() as int].0 == k2);
                            }
                        }
                    }
                }
            },
            None => {
                proof {
                    assert forall|k2: u64|
                        (exists|i: int| 0 <= i < out@.len() && #[trigger] out@[i].0 == k2) <==> (exists|
                            i: int,
                        | 0 <= i < n + 1 && #[trigger] es@[i].0 == k2) && b@.contains_key(k2) by {
                        if (exists|i: int| 0 <= i < n + 1 && #[trigger] es@[i].0 == k2) && b@.contains_key(k2) {
                            let i = choose|i: int| 0 <= i < n + 1 && #[trigger] es@[i].0 == k2;
                            assert(i < n);
                        }
                    }
                }
            },
        }
    }
    out
}

/// The keys that two indexes share, each with its value on both sides. The
/// index with fewer keys drives the walk and the other is probed, which
/// leaves the result unchanged.
pub fn intersect<'a, V, W>(a: &'a HashMap<u64, V>, b: &'a HashMap<u64, W>) -> (out: Vec<
    (u64, &'a V, &'a W),
>)
    ensures
        joins_maps(out@, a@, b@),
{
    if a.len() <= b.len() {
        probe(a, b)
    } else {
        let v = probe(b, a);
        let mut out: Vec<(u64, &'a V, &'a W)> = Vec::new();
        for n in 0..v.len()
            invariant
                joins_maps(v@, b@, a@),
                out@.len() == n,
                forall|i: int|
                    0 <= i < n ==> (#[trigger] out@[i]).0 == v@[i].0 && out@[i].1 == v@[i].2
                        && out@[i].2 == v@[i].1,
        {
            let (k, w, x) = v[n];
            out.push((k, x, w));
        }
        proof {
            assert forall|k: u64|
                (exists|i: int| 0 <= i < out@.len() && #[trigger] out@[i].0 == k) <==> a@.contains_key(k)
                    && b@.contains_key(k) by {
                if exists|i: int| 0 <= i < out@.len() && #[trigger] out@[i].0 == k {
                    let i = choose|i: int| 0 <= i < out@.len() && #[trigger] out@[i].0 == k;
                    assert(v@[i].0 == k);
                }
                if a@.contains_key(k) && b@.contains_key(k) {
                    let i = choose|i: int| 0 <= i < v@.len() && #[trigger] v@[i].0 == k;
                    assert(out@[i].0 == k);
                }
            }
        }
        out
    }
}


/// The pair `p`, turned round when `flip` is set.
pub open spec fn orient(p: (u64, u64), flip: bool) -> (u64, u64) {
    if flip {
        (p.1, p.0)
    } else {
        p
    }
}

/// The index `m` relates `x` to `y`.
pub open spec fn hrel(m: Map<u64, HashSet<u64>>, x: u64, y: u64) -> bool {
    m.contains_key(x) && m[x]@.contains(y)
}

/// `r` indexed on x (to y), `s` on y (to z) and `t` on x (to z) bind the
/// triple `(x, y, z)`.
pub open spec fn hjoined(
    r: Map<u64, HashSet<u64>>,
    s: Map<u64, HashSet<u64>>,
    t: Map<u64, HashSet<u64>>,
    tr: (u64, u64, u64),
) -> bool {
    hrel(r, tr.0, tr.1) && hrel(s, tr.1, tr.2) && hrel(t, tr.0, tr.2)
}

/// Indexes the pairs of `r`, each turned round when `flip` is set, on their
/// first component; also returns the set of keys.
pub fn build_hash(r: &[(u64, u64)], flip: bool) -> (res: (HashMap<u64, HashSet<u64>>, HashSet<u64>))
    ensures
        forall|x: u64, y: u64|
            #[trigger] hrel(res.0@, x, y) <==> exists|i: int|
                0 <= i < r@.len() && orient(#[trigger] r@[i], flip) == (x, y),
        res.1@ == res.0@.dom(),
{
    let mut m: HashMap<u64, HashSet<u64>> = HashMap::new();
    let mut keys: HashSet<u64> = HashSet::new();
    for i in 0..r.len()
        invariant
            keys@ == m@.dom(),
            forall|x: u64, y: u64|
                #[trigger] hrel(m@, x, y) <==> exists|k: int|
                    0 <= k < i && orient(#[trigger] r@[k], flip) == (x, y),
    {
        let (x, y) = if flip {
            (r[i].1, r[i].0)
        } else {
            r[i]
        };
        let ghost before = m@;
        let mut ys = match m.remove(&x) {
            Some(v) => v,
            None => HashSet::new(),
        };
        ys.insert(y);
        m.insert(x, ys);
        keys.insert(x);
        proof {
            assert(keys@ =~= m@.dom());
            assert forall|x2: u64, y2: u64| #[trigger] hrel(m@, x2, y2) <==> exists|k: int|
                0 <= k < i + 1 && orient(#[trigger] r@[k], flip) == (x2, y2) by {
                if x2 == x && y2 == y {
                    assert(orient(r@[i as int], flip) == (x2, y2));
                }
                if hrel(m@, x2, y2) && !(x2 == x && y2 == y) {
                    assert(hrel(before, x2, y2));
                }
                if exists|k: int| 0 <= k < i + 1 && orient(#[trigger] r@[k], flip) == (x2, y2) {
                    let k = choose|k: int| 0 <= k < i + 1 && orient(#[trigger] r@[k], flip) == (x2, y2);
                    if k < i {
                        assert(hrel(before, x2, y2));
                    }
                }
            }
        }
    }
    (m, keys)
}

/// The set that `m` holds under the key `n`, which it must have.
pub fn lookup(m: &HashMap<u64, HashSet<u64>>, n: u64) -> (r: &HashSet<u64>)
    requires
        m@.contains_key(n),
    ensures
        *r == m@[n],
{
    m.get(&n).unwrap()
}

/// Walks the values of `x` and keeps those that `y` holds.
fn keep_members(x: &HashSet<u64>, y: &HashSet<u64>) -> (out: Vec<u64>)
    ensures
        out@.no_duplicates(),
        forall|k: u64| #[trigger] out@.contains(k) <==> x@.contains(k) && y@.contains(k),
{
    let mut out: Vec<u64> = Vec::new();
    let iter = x.iter();
    let ghost items = iter.remaining();
    for k in it: iter
        invariant
            it.seq() == items,
            items.unref().to_set() == x@,
            items.no_duplicates(),
            out@.no_duplicates(),
            forall|k2: u64|
                #[trigger] out@.contains(k2) <==> (exists|n: int| 0 <= n < it.index() && *items[n] == k2)
                    && y@.contains(k2),
    {
        let ghost before = out@;
        let ghost idx = it.index();
        assert(*k == *items[idx]);
        if y.contains(k) {
            proof {
                if before.contains(*k) {
                    let n = choose|n: int| 0 <= n < idx && *items[n] == *k;
                    assert(items[n] == items[idx]);
                }
            }
            out.push(*k);
            proof {
                assert forall|k2: u64| #[trigger] out@.contains(k2) <==> (exists|n: int|
                    0 <= n < idx + 1 && *items[n] == k2) && y@.contains(k2) by {
                    if out@.contains(k2) {
                        let n = choose|n: int| 0 <= n < out@.len() && out@[n] == k2;
                        if n < before.len() {
                            assert(before[n] == k2);
                            assert(before.contains(k2));
                            let n2 = choose|n2: int| 0 <= n2 < idx && *items[n2] == k2;
                            assert(0 <= n2 < idx + 1 && *items[n2] == k2);
                        } else {
                            assert(*items[idx] == k2);
                            assert(y@.contains(*k));
                        }
                    }
                    if (exists|n: int| 0 <= n < idx + 1 && *items[n] == k2) && y@.contains(k2) {
                        let n = choose|n: int| 0 <= n < idx + 1 && *items[n] == k2;
                        if n < idx {
                            assert(before.contains(k2));
                            let m = choose|m: int| 0 <= m < before.len() && before[m] == k2;
                            assert(out@[m] == k2);
                        } else {
                            assert(out@[before.len() as int] == k2);
                        }
                    }
                }
            }
        } else {
            proof {
                assert(!y@.contains(*k));
                assert(out@ == before);
                assert forall|k2: u64| #[trigger] out@.contains(k2) <==> (exists|n: int|
                    0 <= n < idx + 1 && *items[n] == k2) && y@.contains(k2) by {
                    if (exists|n: int| 0 <= n < idx + 1 && *items[n] == k2) && y@.contains(k2) {
                        let n = choose|n: int| 0 <= n < idx + 1 && *items[n] == k2;
                        assert(*items[idx] == *k);
                        assert(n != idx);
                        assert(0 <= n < idx && *items[n] == k2);
                        assert(out@.contains(k2));
                    }
                    if out@.contains(k2) {
                        let n = choose|n: int| 0 <= n < idx && *items[n] == k2;
                        assert(0 <= n < idx + 1 && *items[n] == k2);
                    }
                }
            }
        }
    }
    proof {
        assert forall|k: u64| #[trigger] out@.contains(k) <==> x@.contains(k) && y@.contains(k) by {
            if x@.contains(k) {
                assert(items.unref().to_set().contains(k));
                let n = choose|n: int| 0 <= n < items.unref().len() && items.unref()[n] == k;
                assert(*items[n] == k);
            }
            if exists|n: int| 0 <= n < items.len() && *items[n] == k {
                let n = choose|n: int| 0 <= n < items.len() && *items[n] == k;
                assert(items.unref()[n] == k);
                assert(items.unref().to_set().contains(k));
            }
        }
    }
    out
}

/// The values that two sets share, once each; the smaller set is walked.
pub fn inter(x: &HashSet<u64>, y: &HashSet<u64>) -> (out: Vec<u64>)
    ensures
        out@.no_duplicates(),
        forall|k: u64| #[trigger] out@.contains(k) <==> x@.contains(k) && y@.contains(k),
{
    if x.len() <= y.len() {
        keep_members(x, y)
    } else {
        keep_members(y, x)
    }
}


/// Triangle join on hash indexes: `r` indexed on x (to y), `s` on y (to z),
/// `t` on x (to z), each with the set of its keys. Values of x come from
/// the keys that `r` and `t` share, values of y from what `r` relates x to
/// that `s` has as a key, values of z from what both `s` and `t` relate to.
pub fn triangle_index(
    r: HashMap<u64, HashSet<u64>>,
    r_keys: HashSet<u64>,
    s: HashMap<u64, HashSet<u64>>,
    s_keys: HashSet<u64>,
    t: HashMap<u64, HashSet<u64>>,
    t_keys: HashSet<u64>,
) -> (out: Vec<(u64, u64, u64)>)
    requires
        r_keys@ == r@.dom(),
        s_keys@ == s@.dom(),
        t_keys@ == t@.dom(),
    ensures
        lists(out@, |tr: (u64, u64, u64)| hjoined(r@, s@, t@, tr)),
{
    let mut out: Vec<(u64, u64, u64)> = Vec::new();
    let big_a = inter(&r_keys, &t_keys);
    for i in 0..big_a.len()
        invariant
            r_keys@ == r@.dom(),
            s_keys@ == s@.dom(),
            t_keys@ == t@.dom(),
            big_a@.no_duplicates(),
            forall|k: u64| #[trigger] big_a@.contains(k) <==> r_keys@.contains(k) && t_keys@.contains(k),
            out@.no_duplicates(),
            forall|tr: (u64, u64, u64)|
                #[trigger] out@.contains(tr) <==> hjoined(r@, s@, t@, tr) && exists|m: int|
                    0 <= m < i && big_a@[m] == tr.0,
    {
        let a = big_a[i];
        assert(big_a@.contains(a));
        let r_a = lookup(&r, a);
        let t_a = lookup(&t, a);
        let big_b = inter(r_a, &s_keys);
        for j in 0..big_b.len()
            invariant
                r_keys@ == r@.dom(),
                s_keys@ == s@.dom(),
                t_keys@ == t@.dom(),
                big_a@.no_duplicates(),
                0 <= i < big_a@.len(),
                big_a@[i as int] == a,
                r@.contains_key(a),
                t@.contains_key(a),
                *r_a == r@[a],
                *t_a == t@[a],
                big_b@.no_duplicates(),
                forall|k: u64| #[trigger] big_b@.contains(k) <==> r_a@.contains(k) && s_keys@.contains(k),
                out@.no_duplicates(),
                forall|tr: (u64, u64, u64)|
                    #[trigger] out@.contains(tr) <==> hjoined(r@, s@, t@, tr) && ((exists|m: int|
                        0 <= m < i && big_a@[m] == tr.0) || (tr.0 == a && exists|n: int|
                        0 <= n < j && big_b@[n] == tr.1)),
        {
            let b = big_b[j];
            assert(big_b@.contains(b));
            let s_b = lookup(&s, b);
            let big_c = inter(s_b, t_a);
            for l in 0..big_c.len()
                invariant
                    big_a@.no_duplicates(),
                    0 <= i < big_a@.len(),
                    big_a@[i as int] == a,
                    r@.contains_key(a),
                    t@.contains_key(a),
                    *r_a == r@[a],
                    *t_a == t@[a],
                    big_b@.no_duplicates(),
                    forall|k: u64| #[trigger] big_b@.contains(k) <==> r_a@.contains(k) && s_keys@.contains(k),
                    0 <= j < big_b@.len(),
                    big_b@[j as int] == b,
                    s@.contains_key(b),
                    *s_b == s@[b],
                    big_c@.no_duplicates(),
                    forall|k: u64| #[trigger] big_c@.contains(k) <==> s_b@.contains(k) && t_a@.contains(k),
                    out@.no_duplicates(),
                    forall|tr: (u64, u64, u64)|
                        #[trigger] out@.contains(tr) <==> hjoined(r@, s@, t@, tr) && ((exists|m: int|
                            0 <= m < i && big_a@[m] == tr.0) || (tr.0 == a && ((exists|n: int|
                            0 <= n < j && big_b@[n] == tr.1) || (tr.1 == b && exists|n: int|
                            0 <= n < l && big_c@[n] == tr.2)))),
            {
                let c = big_c[l];
                let ghost before = out@;
                proof {
                    assert(big_c@.contains(c));
                    assert(big_b@.contains(b));
                    assert(r_a@.contains(b));
                    assert(s_b@.contains(c));
                    assert(t_a@.contains(c));
                    assert(hjoined(r@, s@, t@, (a, b, c)));
                    if before.contains((a, b, c)) {
                        if exists|m: int| 0 <= m < i && big_a@[m] == a {
                            let m = choose|m: int| 0 <= m < i && big_a@[m] == a;
                            assert(big_a@[m] == big_a@[i as int]);
                        } else if exists|n: int| 0 <= n < j && big_b@[n] == b {
                            let n = choose|n: int| 0 <= n < j && big_b@[n] == b;
                            assert(big_b@[n] == big_b@[j as int]);
                        } else {
                            let n = choose|n: int| 0 <= n < l && big_c@[n] == c;
                            assert(big_c@[n] == big_c@[l as int]);
                        }
                    }
                }
                out.push((a, b, c));
                proof {
                    assert forall|tr: (u64, u64, u64)|
                        #[trigger] out@.contains(tr) <==> before.contains(tr) || tr == (a, b, c) by {
                        if out@.contains(tr) {
                            let k = choose|k: int| 0 <= k < out@.len() && out@[k] == tr;
                            if k < before.len() {
                                assert(before[k] == tr);
                            }
                        }
                        if before.contains(tr) {
                            let k = choose|k: int| 0 <= k < before.len() && before[k] == tr;
                            assert(out@[k] == tr);
                        }
                        if tr == (a, b, c) {
                            assert(out@[before.len() as int] == tr);
                        }
                    }
                }
            }
            proof {
                assert forall|tr: (u64, u64, u64)|
                    #[trigger] hjoined(r@, s@, t@, tr) && tr.0 == a && tr.1 == b implies exists|n: int|
                        0 <= n < big_c@.len() && big_c@[n] == tr.2 by {
                    assert(big_c@.contains(tr.2));
                }
            }
        }
        proof {
            assert forall|tr: (u64, u64, u64)| #[trigger] hjoined(r@, s@, t@, tr) && tr.0 == a implies exists|n: int|
                0 <= n < big_b@.len() && big_b@[n] == tr.1 by {
                assert(s_keys@.contains(tr.1));
                assert(big_b@.contains(tr.1));
            }
        }
    }
    proof {
        assert forall|tr: (u64, u64, u64)| #[trigger] hjoined(r@, s@, t@, tr) implies exists|m: int|
            0 <= m < big_a@.len() && big_a@[m] == tr.0 by {
            assert(r_keys@.contains(tr.0));
            assert(t_keys@.contains(tr.0));
            assert(big_a@.contains(tr.0));
        }
    }
    out
}

/// Triangle query `R(x, y), S(y, z), T(z, x)` on the hash realization:
/// indexes `R` and `T` on x and `S` on y, then joins in order x, y, z.
pub fn triangle(r: &[(u64, u64)], s: &[(u64, u64)], t: &[(u64, u64)]) -> (out: Vec<
    (u64, u64, u64),
>)
    ensures
        lists(out@, |tr: (u64, u64, u64)| triangle_of(r@, s@, t@, tr)),
{
    let (r_x, r_keys) = build_hash(r, false);
    let (s_y, s_keys) = build_hash(s, false);
    let (t_x, t_keys) = build_hash(t, true);
    let ghost (rm, sm, tm) = (r_x@, s_y@, t_x@);
    let out = triangle_index(r_x, r_keys, s_y, s_keys, t_x, t_keys);
    proof {
        assert forall|tr: (u64, u64, u64)| #[trigger] out@.contains(tr) <==> triangle_of(r@, s@, t@, tr) by {
            assert(hrel(rm, tr.0, tr.1) <==> r@.contains((tr.0, tr.1))) by {
                if r@.contains((tr.0, tr.1)) {
                    let i = choose|i: int| 0 <= i < r@.len() && r@[i] == (tr.0, tr.1);
                    assert(orient(r@[i], false) == (tr.0, tr.1));
                }
            }
            assert(hrel(sm, tr.1, tr.2) <==> s@.contains((tr.1, tr.2))) by {
                if s@.contains((tr.1, tr.2)) {
                    let i = choose|i: int| 0 <= i < s@.len() && s@[i] == (tr.1, tr.2);
                    assert(orient(s@[i], false) == (tr.1, tr.2));
                }
            }
            assert(hrel(tm, tr.0, tr.2) <==> t@.contains((tr.2, tr.0))) by {
                if t@.contains((tr.2, tr.0)) {
                    let i = choose|i: int| 0 <= i < t@.len() && t@[i] == (tr.2, tr.0);
                    assert(orient(t@[i], true) == (tr.0, tr.2));
                }
            }
        }
    }
    out
}

/// The hash and the sorted realization agree: on the same relations their
/// triangle listings hold the same triples, as many times each, so a count
/// and a collection of the triples come out equal.
pub proof fn lemma_realizations_agree(
    r: Seq<(u64, u64)>,
    s: Seq<(u64, u64)>,
    t: Seq<(u64, u64)>,
    hash_out: Seq<(u64, u64, u64)>,
    sorted_out: Seq<(u64, u64, u64)>,
)
    requires
        lists(hash_out, |tr: (u64, u64, u64)| triangle_of(r, s, t, tr)),
        lists(sorted_out, |tr: (u64, u64, u64)| triangle_of(r, s, t, tr)),
    ensures
        hash_out.len() == sorted_out.len(),
        hash_out.to_multiset() == sorted_out.to_multiset(),
{
    lemma_listings_agree(
        hash_out,
        sorted_out,
        |tr: (u64, u64, u64)| triangle_of(r, s, t, tr),
        |tr: (u64, u64, u64)| triangle_of(r, s, t, tr),
    );
}


/// The relation trie, under the name the hash-based drivers use.
pub type HTrie = Trie;

/// A pair of integers as a tuple of two values.
pub open spec fn pair_view(p: (u64, u64)) -> Seq<ValView> {
    seq![ValView::Int(p.0), ValView::Int(p.1)]
}

/// The pairs as tuples of two integer values, each turned round when
/// `flip` is set.
fn pair_tuples(r: &[(u64, u64)], flip: bool) -> (out: Vec<Vec<Val>>)
    ensures
        out@.len() == r@.len(),
        forall|i: int| 0 <= i < r@.len() ==> #[trigger] tuples_of(out@)[i] == pair_view(orient(r@[i], flip)),
{
    let mut out: Vec<Vec<Val>> = Vec::new();
    for i in 0..r.len()
        invariant
            out@.len() == i,
            forall|k: int| 0 <= k < i ==> #[trigger] view_tuple(out@[k]@) == pair_view(orient(r@[k], flip)),
    {
        let (x, y) = if flip {
            (r[i].1, r[i].0)
        } else {
            r[i]
        };
        let mut v: Vec<Val> = Vec::new();
        v.push(Val::Int(x));
        v.push(Val::Int(y));
        assert(view_tuple(v@) =~= pair_view(orient(r@[i as int], flip)));
        out.push(v);
    }
    proof {
        assert forall|i: int| 0 <= i < r@.len() implies #[trigger] tuples_of(out@)[i] == pair_view(orient(r@[i], flip)) by {
            assert(view_tuple(out@[i]@) == pair_view(orient(r@[i], flip)));
        }
    }
    out
}

/// A trie built from pairs: it has two levels, and relates `a` to `b`
/// exactly when it holds the pair.
proof fn lemma_pair_trie(t: Trie, r: Seq<(u64, u64)>, flip: bool)
    requires
        t.wf(),
        t.is_node(),
        forall|u: Seq<ValView>|
            #[trigger] t.holds(u) <==> exists|i: int| 0 <= i < r.len() && u == pair_view(orient(r[i], flip)),
    ensures
        two_level(t),
        forall|a: ValView, b: ValView| #[trigger] has2(t, a, b) <==> t.holds(seq![a, b]),
{
    assert forall|u: Seq<ValView>| #[trigger] t.holds(u) implies u.len() == 2 by {
        let i = choose|i: int| 0 <= i < r.len() && u == pair_view(orient(r[i], flip));
    }
    let es = t.entries();
    assert forall|i: int| 0 <= i < es.len() implies (#[trigger] es[i]).1.is_node() by {
        if es[i].1 is Leaf {
            assert(es[i].1.holds(Seq::<ValView>::empty()));
            lemma_holds_cons(t, i, Seq::<ValView>::empty());
            assert(t.holds(seq![es[i].0@].add(Seq::<ValView>::empty())));
        }
    }
    assert forall|a: ValView, b: ValView| #[trigger] has2(t, a, b) <==> t.holds(seq![a, b]) by {
        let ab = seq![a, b];
        if t.holds(ab) {
            let i = choose|i: int| 0 <= i < es.len() && (#[trigger] es[i]).0@ == ab[0] && es[i].1.holds(ab.drop_first());
            lemma_child_at(t, i);
            let c = es[i].1;
            assert(ab.drop_first() =~= seq![b]);
            let ces = c.entries();
            let j = choose|j: int| 0 <= j < ces.len() && (#[trigger] ces[j]).0@ == b && ces[j].1.holds(seq![b].drop_first());
            lemma_child_at(c, j);
        }
        if has2(t, a, b) {
            let c = t.child(a)->0;
            let i = choose|i: int| 0 <= i < es.len() && (#[trigger] es[i]).0@ == a;
            lemma_child_at(t, i);
            let ces = c.entries();
            let d = c.child(b)->0;
            let j = choose|j: int| 0 <= j < ces.len() && (#[trigger] ces[j]).0@ == b;
            assert(c == es[i].1);
            assert(c.wf() && c.is_node());
            lemma_child_at(c, j);
            assert(d == ces[j].1);
            assert(ces[j].1.wf() && ces[j].1.nonempty());
            let w = lemma_nonempty_holds(d);
            lemma_holds_cons(c, j, w);
            lemma_holds_cons(t, i, seq![b].add(w));
            let full = seq![a].add(seq![b].add(w));
            assert(t.holds(full));
            assert(full.len() == 2);
            assert(w.len() == 0);
            assert(full =~= ab);
        }
    }
}

/// Every tuple of `ts` has two values, so none is a proper prefix of
/// another.
proof fn lemma_pairs_prefix_free(ts: Seq<Vec<Val>>, r: Seq<(u64, u64)>, flip: bool)
    requires
        ts.len() == r.len(),
        forall|i: int| 0 <= i < r.len() ==> #[trigger] tuples_of(ts)[i] == pair_view(orient(r[i], flip)),
    ensures
        prefix_free(tuples_of(ts)),
        forall|i: int| 0 <= i < ts.len() ==> (#[trigger] tuples_of(ts)[i]).len() > 0,
        forall|u: Seq<ValView>|
            tuples_of(ts).contains(u) <==> exists|i: int| 0 <= i < r.len() && u == pair_view(orient(r[i], flip)),
{
    let tv = tuples_of(ts);
    assert forall|u: Seq<ValView>|
        tv.contains(u) <==> exists|i: int| 0 <= i < r.len() && u == pair_view(orient(r[i], flip)) by {
        if tv.contains(u) {
            let i = choose|i: int| 0 <= i < tv.len() && tv[i] == u;
            assert(tv[i] == pair_view(orient(r[i], flip)));
        }
        if exists|i: int| 0 <= i < r.len() && u == pair_view(orient(r[i], flip)) {
            let i = choose|i: int| 0 <= i < r.len() && u == pair_view(orient(r[i], flip));
            assert(tv[i] == u);
        }
    }
}

/// Triangle query `R(x, y), S(y, z), T(z, x)` through general-value tries:
/// the pairs become tuples of two integer values, the tries are joined by
/// the generic-join driver, and the values of each triple are read back as
/// integers.
pub fn triangle_ht(r: &[(u64, u64)], s: &[(u64, u64)], t: &[(u64, u64)]) -> (out: Vec<
    (u64, u64, u64),
>)
    ensures
        lists(out@, |tr: (u64, u64, u64)| triangle_of(r@, s@, t@, tr)),
{
    let rv = pair_tuples(r, false);
    let sv = pair_tuples(s, false);
    let tv = pair_tuples(t, true);
    proof {
        lemma_pairs_prefix_free(rv@, r@, false);
        lemma_pairs_prefix_free(sv@, s@, false);
        lemma_pairs_prefix_free(tv@, t@, true);
    }
    let rx = Trie::from_iter(rv.as_slice());
    let sy = Trie::from_iter(sv.as_slice());
    let tx = Trie::from_iter(tv.as_slice());
    proof {
        lemma_pair_trie(rx, r@, false);
        lemma_pair_trie(sy, s@, false);
        lemma_pair_trie(tx, t@, true);
    }
    let vals = crate::experiments::triangle(&rx, &sy, &tx);
    let ghost vw = views3(vals@);
    proof {
        assert forall|v: (ValView, ValView, ValView)| #[trigger] vw.contains(v) <==> (exists|x: u64, y: u64, z: u64|
            v == (ValView::Int(x), ValView::Int(y), ValView::Int(z)) && triangle_of(r@, s@, t@, (x, y, z))) by {
            if vw.contains(v) {
                assert(rx.holds(seq![v.0, v.1]));
                assert(sy.holds(seq![v.1, v.2]));
                assert(tx.holds(seq![v.0, v.2]));
                let i = choose|i: int| 0 <= i < r@.len() && seq![v.0, v.1] == pair_view(orient(r@[i], false));
                let j = choose|j: int| 0 <= j < s@.len() && seq![v.1, v.2] == pair_view(orient(s@[j], false));
                let k = choose|k: int| 0 <= k < t@.len() && seq![v.0, v.2] == pair_view(orient(t@[k], true));
                assert(seq![v.0, v.1][0] == pair_view(orient(r@[i], false))[0]);
                assert(seq![v.0, v.1][1] == pair_view(orient(r@[i], false))[1]);
                assert(seq![v.1, v.2][1] == pair_view(orient(s@[j], false))[1]);
                assert(seq![v.0, v.2][0] == pair_view(orient(t@[k], true))[0]);
                assert(seq![v.0, v.2][1] == pair_view(orient(t@[k], true))[1]);
                assert(seq![v.1, v.2][0] == pair_view(orient(s@[j], false))[0]);
                let (x, y, z) = (r@[i].0, r@[i].1, s@[j].1);
                assert(r@[i] == (x, y));
                assert(s@[j] == (y, z));
                assert(t@[k] == (z, x));
                assert(triangle_of(r@, s@, t@, (x, y, z)));
            }
            if exists|x: u64, y: u64, z: u64|
                v == (ValView::Int(x), ValView::Int(y), ValView::Int(z)) && triangle_of(r@, s@, t@, (x, y, z)) {
                let (x, y, z) = choose|x: u64, y: u64, z: u64|
                    v == (ValView::Int(x), ValView::Int(y), ValView::Int(z)) && triangle_of(r@, s@, t@, (x, y, z));
                let i = choose|i: int| 0 <= i < r@.len() && r@[i] == (x, y);
                let j = choose|j: int| 0 <= j < s@.len() && s@[j] == (y, z);
                let k = choose|k: int| 0 <= k < t@.len() && t@[k] == (z, x);
                assert(seq![v.0, v.1] =~= pair_view(orient(r@[i], false)));
                assert(seq![v.1, v.2] =~= pair_view(orient(s@[j], false)));
                assert(seq![v.0, v.2] =~= pair_view(orient(t@[k], true)));
                assert(has2(rx, v.0, v.1));
                assert(has2(sy, v.1, v.2));
                assert(has2(tx, v.0, v.2));
            }
        }
    }
    let mut out: Vec<(u64, u64, u64)> = Vec::new();
    for i in 0..vals.len()
        invariant
            vw == views3(vals@),
            vw.no_duplicates(),
            forall|v: (ValView, ValView, ValView)| #[trigger] vw.contains(v) <==> (exists|x: u64, y: u64, z: u64|
                v == (ValView::Int(x), ValView::Int(y), ValView::Int(z)) && triangle_of(r@, s@, t@, (x, y, z))),
            out@.len() == i,
            forall|k: int| 0 <= k < i ==> vw[k] == (ValView::Int((#[trigger] out@[k]).0), ValView::Int(out@[k].1), ValView::Int(out@[k].2)),
    {
        proof {
            assert(vw[i as int] == view3(vals@[i as int]));
            assert(vw.contains(vw[i as int]));
        }
        match (&vals[i].0, &vals[i].1, &vals[i].2) {
            (Val::Int(a), Val::Int(b), Val::Int(c)) => {
                out.push((*a, *b, *c));
            },
            _ => {
                proof {
                    let (x, y, z) = choose|x: u64, y: u64, z: u64|
                        vw[i as int] == (ValView::Int(x), ValView::Int(y), ValView::Int(z)) && triangle_of(r@, s@, t@, (x, y, z));
                }
                out.push((0, 0, 0));
            },
        }
    }
    proof {
        assert forall|m: int, n: int| 0 <= m < out@.len() && 0 <= n < out@.len() && m != n implies out@[m] != out@[n] by {
            assert(vw[m] != vw[n]);
        }
        assert forall|tr: (u64, u64, u64)| #[trigger] out@.contains(tr) <==> triangle_of(r@, s@, t@, tr) by {
            let v = (ValView::Int(tr.0), ValView::Int(tr.1), ValView::Int(tr.2));
            if out@.contains(tr) {
                let k = choose|k: int| 0 <= k < out@.len() && out@[k] == tr;
                assert(vw[k] == v);
                assert(vw.contains(v));
            }
            if triangle_of(r@, s@, t@, tr) {
                assert(vw.contains(v));
                let k = choose|k: int| 0 <= k < vw.len() && vw[k] == v;
                assert(out@[k] == tr);
            }
        }
    }
    out
}

} // verus!
