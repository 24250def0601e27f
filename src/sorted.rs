//! The sorted realization: relations as arrays sorted by key, intersected
//! by galloping search.
use vstd::prelude::*;
use crate::relation::{lemma_listings_agree, lists, triangle_of};

verus! {

/// An element of a sorted array: a bare value, or a trie entry holding a
/// key and its residual values.
pub trait Keyed {
    spec fn key_spec(&self) -> u64;

    fn key(&self) -> (k: u64)
        ensures
            k == self.key_spec(),
    ;
}

impl Keyed for u64 {
    open spec fn key_spec(&self) -> u64 {
        *self
    }

    fn key(&self) -> (k: u64) {
        *self
    }
}

impl Keyed for (u64, Vec<u64>) {
    open spec fn key_spec(&self) -> u64 {
        self.0
    }

    fn key(&self) -> (k: u64) {
        self.0
    }
}

impl<'a> Keyed for (u64, &'a Vec<u64>) {
    open spec fn key_spec(&self) -> u64 {
        self.0
    }

    fn key(&self) -> (k: u64) {
        self.0
    }
}

impl<'a> Keyed for (u64, &'a Vec<u64>, &'a Vec<u64>) {
    open spec fn key_spec(&self) -> u64 {
        self.0
    }

    fn key(&self) -> (k: u64) {
        self.0
    }
}

/// Keys never decrease along `s`.
pub open spec fn ascending<T: Keyed>(s: Seq<T>) -> bool {
    forall|i: int, j: int| 0 <= i <= j < s.len() ==> s[i].key_spec() <= s[j].key_spec()
}

/// Keys strictly increase along `s`: a sorted set, or a trie level.
pub open spec fn strictly_ascending<T: Keyed>(s: Seq<T>) -> bool {
    forall|i: int, j: int| 0 <= i < j < s.len() ==> s[i].key_spec() < s[j].key_spec()
}

/// Some element of `s` has key `k`.
pub open spec fn has_key<T: Keyed>(s: Seq<T>, k: u64) -> bool {
    exists|i: int| 0 <= i < s.len() && s[i].key_spec() == k
}

/// `out` is the intersection of the key sets of `r` and `s`, in increasing
/// order.
pub open spec fn meets<A: Keyed, B: Keyed, C: Keyed>(out: Seq<A>, r: Seq<B>, s: Seq<C>) -> bool {
    &&& strictly_ascending(out)
    &&& forall|k: u64| #[trigger] has_key(out, k) <==> has_key(r, k) && has_key(s, k)
}

/// The trie level `t` holds the entry `(k, v)`.
pub open spec fn entry_of(t: Seq<(u64, Vec<u64>)>, k: u64, v: Vec<u64>) -> bool {
    exists|i: int| 0 <= i < t.len() && t[i].0 == k && t[i].1 == v
}

proof fn lemma_strict_is_ascending<T: Keyed>(s: Seq<T>)
    requires
        strictly_ascending(s),
    ensures
        ascending(s),
{
    assert forall|i: int, j: int| 0 <= i <= j < s.len() implies s[i].key_spec()
        <= s[j].key_spec() by {
        if i < j {
            assert(s[i].key_spec() < s[j].key_spec());
        }
    }
}

/// Index pairs `(i, j)` with `r[i]` and `s[j]` of one key: all of them, in
/// increasing order of `i`.
spec fn pairs_match<T: Keyed, U: Keyed>(r: Seq<T>, s: Seq<U>, out: Seq<(usize, usize)>) -> bool {
    &&& forall|m: int|
        0 <= m < out.len() ==> {
            &&& (#[trigger] out[m]).0 < r.len()
            &&& out[m].1 < s.len()
            &&& r[out[m].0 as int].key_spec() == s[out[m].1 as int].key_spec()
        }
    &&& forall|m: int, n: int| 0 <= m < n < out.len() ==> out[m].0 < out[n].0
    &&& forall|i: int, j: int|
        0 <= i < r.len() && 0 <= j < s.len() && #[trigger] r[i].key_spec()
            == #[trigger] s[j].key_spec() ==> exists|m: int|
            0 <= m < out.len() && out[m].0 == i && out[m].1 == j
}

/// Walks `r` in order and gallops through `s` for each of its keys.
fn matches<T: Keyed, U: Keyed>(r: &[T], s: &[U]) -> (out: Vec<(usize, usize)>)
    requires
        strictly_ascending(r@),
        strictly_ascending(s@),
    ensures
        pairs_match(r@, s@, out@),
{
    proof {
        lemma_strict_is_ascending(s@);
    }
    let mut out: Vec<(usize, usize)> = Vec::new();
    let mut c: usize = 0;
    let mut i: usize = 0;
    while i < r.len()
        invariant
            i <= r@.len(),
            c <= s@.len(),
            strictly_ascending(r@),
            strictly_ascending(s@),
            ascending(s@),
            i == 0 ==> c == 0,
            i > 0 ==> forall|j: int| 0 <= j < c ==> s@[j].key_spec() < r@[i - 1].key_spec(),
            forall|m: int|
                0 <= m < out@.len() ==> {
                    &&& (#[trigger] out@[m]).0 < i
                    &&& out@[m].1 < s@.len()
                    &&& r@[out@[m].0 as int].key_spec() == s@[out@[m].1 as int].key_spec()
                },
            forall|m: int, n: int| 0 <= m < n < out@.len() ==> out@[m].0 < out@[n].0,
            forall|i2: int, j: int|
                0 <= i2 < i && 0 <= j < s@.len() && #[trigger] r@[i2].key_spec()
                    == #[trigger] s@[j].key_spec() ==> exists|m: int|
                    0 <= m < out@.len() && out@[m].0 == i2 && out@[m].1 == j,
        decreases r@.len() - i,
    {
        let k = r[i].key();
        let c0 = c;
        c = gallop_from(s, c, k);
        let ghost before = out@;
        if c < s.len() && s[c].key() == k {
            out.push((i, c));
        }
        proof {
            assert forall|j: int| 0 <= j < c implies s@[j].key_spec() < k by {
                if j < c0 {
                    assert(r@[i - 1].key_spec() < r@[i as int].key_spec());
                }
            }
            assert forall|i2: int, j: int|
                0 <= i2 <= i && 0 <= j < s@.len() && #[trigger] r@[i2].key_spec()
                    == #[trigger] s@[j].key_spec() implies exists|m: int|
                0 <= m < out@.len() && out@[m].0 == i2 && out@[m].1 == j by {
                if i2 < i {
                    let m = choose|m: int|
                        0 <= m < before.len() && before[m].0 == i2 && before[m].1 == j;
                    assert(out@[m] == before[m]);
                } else {
                    if j > c {
                        assert(s@[c as int].key_spec() < s@[j].key_spec());
                    }
                    assert(j == c);
                    assert(out@[before.len() as int].0 == i2);
                }
            }
        }
        i = i + 1;
    }
    out
}

/// An output that follows the matched pairs, one element for each, with the
/// key of the matched element of `r`, is the intersection of the key sets.
proof fn lemma_meets_from_pairs<A: Keyed, T: Keyed, U: Keyed>(
    out: Seq<A>,
    r: Seq<T>,
    s: Seq<U>,
    pairs: Seq<(usize, usize)>,
)
    requires
        pairs_match(r, s, pairs),
        strictly_ascending(r),
        out.len() == pairs.len(),
        forall|n: int|
            0 <= n < out.len() ==> (#[trigger] out[n]).key_spec() == r[pairs[n].0 as int].key_spec()
                || out[n].key_spec() == s[pairs[n].1 as int].key_spec(),
    ensures
        meets(out, r, s),
{
    assert forall|n: int| 0 <= n < out.len() implies (#[trigger] out[n]).key_spec() == r[pairs[n].0 as int].key_spec() by {
        assert(pairs[n].0 < r.len());
    }
    assert forall|m: int, n: int| 0 <= m < n < out.len() implies out[m].key_spec()
        < out[n].key_spec() by {
        assert(pairs[m].0 < pairs[n].0);
        assert(out[m].key_spec() == r[pairs[m].0 as int].key_spec());
        assert(out[n].key_spec() == r[pairs[n].0 as int].key_spec());
    }
    assert forall|k: u64| #[trigger] has_key(out, k) implies has_key(r, k) && has_key(s, k) by {
        let n = choose|n: int| 0 <= n < out.len() && out[n].key_spec() == k;
        assert(out[n].key_spec() == r[pairs[n].0 as int].key_spec());
        assert(pairs[n].1 < s.len());
    }
    assert forall|k: u64| has_key(r, k) && has_key(s, k) implies #[trigger] has_key(out, k) by {
        let i = choose|i: int| 0 <= i < r.len() && r[i].key_spec() == k;
        let j = choose|j: int| 0 <= j < s.len() && s[j].key_spec() == k;
        assert(r[i].key_spec() == s[j].key_spec());
        let m = choose|m: int| 0 <= m < pairs.len() && pairs[m].0 == i && pairs[m].1 == j;
        assert(out[m].key_spec() == r[pairs[m].0 as int].key_spec());
    }
}

/// Intersection of two sorted sets of values; the shorter one drives the
/// walk, which leaves the result unchanged.
pub fn intersect_v_v(r: &[u64], s: &[u64]) -> (out: Vec<u64>)
    requires
        strictly_ascending(r@),
        strictly_ascending(s@),
    ensures
        meets(out@, r@, s@),
{
    let (a, b) = if r.len() > s.len() {
        (s, r)
    } else {
        (r, s)
    };
    let pairs = matches(a, b);
    let mut out: Vec<u64> = Vec::new();
    for m in 0..pairs.len()
        invariant
            pairs_match(a@, b@, pairs@),
            out@.len() == m,
            forall|n: int| 0 <= n < m ==> out@[n] == a@[(#[trigger] pairs@[n]).0 as int],
    {
        out.push(a[pairs[m].0]);
    }
    proof {
        lemma_meets_from_pairs(out@, a@, b@, pairs@);
    }
    out
}

/// The number of leading elements of `s` whose key is below `target`, as a
/// linear scan from the front finds it.
pub open spec fn scan_boundary<T: Keyed>(s: Seq<T>, target: u64) -> nat
    decreases s.len(),
{
    if s.len() == 0 {
        0
    } else if s[0].key_spec() < target {
        1 + scan_boundary(s.drop_first(), target)
    } else {
        0
    }
}

/// A position that splits `s` into keys below `target` and the rest is the
/// boundary that a linear scan finds.
proof fn lemma_boundary_is_scan<T: Keyed>(s: Seq<T>, target: u64, b: int)
    requires
        0 <= b <= s.len(),
        forall|j: int| 0 <= j < b ==> s[j].key_spec() < target,
        b < s.len() ==> s[b].key_spec() >= target,
    ensures
        scan_boundary(s, target) == b,
    decreases s.len(),
{
    if s.len() > 0 && b > 0 {
        let t = s.drop_first();
        assert forall|j: int| 0 <= j < b - 1 implies t[j].key_spec() < target by {
            assert(t[j] == s[j + 1]);
        }
        if b - 1 < t.len() {
            assert(t[b - 1] == s[b]);
        }
        lemma_boundary_is_scan(t, target, b - 1);
    }
}

/// `n` is a power of two.
spec fn power_of_two(n: nat) -> bool
    decreases n,
{
    if n <= 1 {
        n == 1
    } else {
        n % 2 == 0 && power_of_two(n / 2)
    }
}

/// Galloping search from position `lo`: steps of 1, 2, 4, ... overshoot
/// the first key not below `target`, then halving steps come back to it.
fn gallop_from<T: Keyed>(slice: &[T], lo: usize, target: u64) -> (r: usize)
    requires
        lo <= slice@.len(),
        ascending(slice@),
    ensures
        lo <= r <= slice@.len(),
        forall|j: int| lo <= j < r ==> slice@[j].key_spec() < target,
        r < slice@.len() ==> slice@[r as int].key_spec() >= target,
{
    let len = slice.len();
    let mut base = lo;
    if base < len && slice[base].key() < target {
        let mut step: usize = 1;
        while step < len - base && slice[base + step].key() < target
            invariant
                lo <= base < len,
                len == slice@.len(),
                step >= 1,
                power_of_two(step as nat),
                ascending(slice@),
                slice@[base as int].key_spec() < target,
            decreases len - base,
        {
            base = base + step;
            if step <= usize::MAX / 2 {
                assert(power_of_two((step * 2) as nat)) by {
                    assert((step * 2) as nat / 2 == step as nat);
                }
                step = step * 2;
            }
        }
        let ghost mut hi: int = if step >= len - base {
            len as int
        } else {
            (base + step) as int
        };
        assert(step >= 2 ==> step % 2 == 0);
        step = step / 2;
        while step > 0
            invariant
                lo <= base < hi <= len,
                len == slice@.len(),
                ascending(slice@),
                slice@[base as int].key_spec() < target,
                hi < len ==> slice@[hi].key_spec() >= target,
                step > 0 ==> hi - base <= 2 * step && power_of_two(step as nat),
                step == 0 ==> hi - base <= 1,
            decreases step,
        {
            if step < len - base {
                if slice[base + step].key() < target {
                    base = base + step;
                } else {
                    proof {
                        hi = base + step;
                    }
                }
            }
            assert(step >= 2 ==> step % 2 == 0);
            step = step / 2;
        }
        base = base + 1;
    }
    base
}

/// The position of the first element of `slice` whose key is not below
/// `target`: the suffix from there is what remains after galloping past
/// the smaller keys.
pub fn gallop<T: Keyed>(slice: &[T], target: u64) -> (r: usize)
    requires
        ascending(slice@),
    ensures
        r == scan_boundary(slice@, target),
        r <= slice@.len(),
        forall|j: int| 0 <= j < r ==> slice@[j].key_spec() < target,
        r < slice@.len() ==> slice@[r as int].key_spec() >= target,
{
    let r = gallop_from(slice, 0, target);
    proof {
        lemma_boundary_is_scan(slice@, target, r as int);
    }
    r
}

/// Whether the values never decrease.
pub fn sorted(s: &[u64]) -> (r: bool)
    ensures
        r == ascending(s@),
{
    let mut prev: u64 = 0;
    let mut i: usize = 0;
    while i < s.len()
        invariant
            i <= s@.len(),
            ascending(s@.subrange(0, i as int)),
            i > 0 ==> prev == s@[i - 1],
            i == 0 ==> prev == 0,
        decreases s@.len() - i,
    {
        if s[i] < prev {
            assert(s@[i - 1] > s@[i as int]);
            return false;
        }
        prev = s[i];
        i = i + 1;
        assert forall|a: int, b: int| 0 <= a <= b < i implies s@.subrange(0, i as int)[a]
            <= s@.subrange(0, i as int)[b] by {
            if b < i - 1 {
                assert(s@.subrange(0, i - 1)[a] <= s@.subrange(0, i - 1)[b]);
            } else if a < i - 1 {
                assert(s@.subrange(0, i - 1)[a] <= s@.subrange(0, i - 1)[i - 2]);
            }
        }
    }
    assert(s@.subrange(0, i as int) =~= s@);
    true
}


/// Index triples of `r`, `s` and `t` on one key: all of them, in
/// increasing order of the index into `r`.
spec fn triples_match<T: Keyed, U: Keyed, W: Keyed>(
    r: Seq<T>,
    s: Seq<U>,
    t: Seq<W>,
    out: Seq<(usize, usize, usize)>,
) -> bool {
    &&& forall|m: int|
        0 <= m < out.len() ==> {
            &&& (#[trigger] out[m]).0 < r.len()
            &&& out[m].1 < s.len()
            &&& out[m].2 < t.len()
            &&& r[out[m].0 as int].key_spec() == s[out[m].1 as int].key_spec()
            &&& r[out[m].0 as int].key_spec() == t[out[m].2 as int].key_spec()
        }
    &&& forall|m: int, n: int| 0 <= m < n < out.len() ==> out[m].0 < out[n].0
    &&& forall|i: int, j: int, l: int|
        0 <= i < r.len() && 0 <= j < s.len() && 0 <= l < t.len() && #[trigger] r[i].key_spec()
            == #[trigger] s[j].key_spec() && r[i].key_spec() == #[trigger] t[l].key_spec()
            ==> exists|m: int| 0 <= m < out.len() && out[m].0 == i && out[m].1 == j && out[m].2 == l
}

/// `out` is the intersection of the key sets of `r`, `s` and `t`, in
/// increasing order.
pub open spec fn meets3<A: Keyed, B: Keyed, C: Keyed, D: Keyed>(
    out: Seq<A>,
    r: Seq<B>,
    s: Seq<C>,
    t: Seq<D>,
) -> bool {
    &&& strictly_ascending(out)
    &&& forall|k: u64| #[trigger] has_key(out, k) <==> has_key(r, k) && has_key(s, k) && has_key(t, k)
}

/// Walks `r` in order and gallops through both `s` and `t` for each key.
fn matches3<T: Keyed, U: Keyed, W: Keyed>(r: &[T], s: &[U], t: &[W]) -> (out: Vec<(usize, usize, usize)>)
    requires
        strictly_ascending(r@),
        strictly_ascending(s@),
        strictly_ascending(t@),
    ensures
        triples_match(r@, s@, t@, out@),
{
    proof {
        lemma_strict_is_ascending(s@);
        lemma_strict_is_ascending(t@);
    }
    let mut out: Vec<(usize, usize, usize)> = Vec::new();
    let mut c: usize = 0;
    let mut d: usize = 0;
    let mut i: usize = 0;
    while i < r.len()
        invariant
            i <= r@.len(),
            c <= s@.len(),
            d <= t@.len(),
            strictly_ascending(r@),
            strictly_ascending(s@),
            strictly_ascending(t@),
            ascending(s@),
            ascending(t@),
            i == 0 ==> c == 0 && d == 0,
            i > 0 ==> forall|j: int| 0 <= j < c ==> s@[j].key_spec() < r@[i - 1].key_spec(),
            i > 0 ==> forall|j: int| 0 <= j < d ==> t@[j].key_spec() < r@[i - 1].key_spec(),
            forall|m: int|
                0 <= m < out@.len() ==> {
                    &&& (#[trigger] out@[m]).0 < i
                    &&& out@[m].1 < s@.len()
                    &&& out@[m].2 < t@.len()
                    &&& r@[out@[m].0 as int].key_spec() == s@[out@[m].1 as int].key_spec()
                    &&& r@[out@[m].0 as int].key_spec() == t@[out@[m].2 as int].key_spec()
                },
            forall|m: int, n: int| 0 <= m < n < out@.len() ==> out@[m].0 < out@[n].0,
            forall|i2: int, j: int, l: int|
                0 <= i2 < i && 0 <= j < s@.len() && 0 <= l < t@.len() && #[trigger] r@[i2].key_spec()
                    == #[trigger] s@[j].key_spec() && r@[i2].key_spec() == #[trigger] t@[l].key_spec()
                    ==> exists|m: int|
                    0 <= m < out@.len() && out@[m].0 == i2 && out@[m].1 == j && out@[m].2 == l,
        decreases r@.len() - i,
    {
        let k = r[i].key();
        let c0 = c;
        let d0 = d;
        c = gallop_from(s, c, k);
        d = gallop_from(t, d, k);
        let ghost before = out@;
        if c < s.len() && d < t.len() && s[c].key() == k && t[d].key() == k {
            out.push((i, c, d));
        }
        proof {
            assert forall|j: int| 0 <= j < c implies s@[j].key_spec() < k by {
                if j < c0 {
                    assert(r@[i - 1].key_spec() < r@[i as int].key_spec());
                }
            }
            assert forall|j: int| 0 <= j < d implies t@[j].key_spec() < k by {
                if j < d0 {
                    assert(r@[i - 1].key_spec() < r@[i as int].key_spec());
                }
            }
            assert forall|i2: int, j: int, l: int|
                0 <= i2 <= i && 0 <= j < s@.len() && 0 <= l < t@.len() && #[trigger] r@[i2].key_spec()
                    == #[trigger] s@[j].key_spec() && r@[i2].key_spec() == #[trigger] t@[l].key_spec()
                    implies exists|m: int|
                0 <= m < out@.len() && out@[m].0 == i2 && out@[m].1 == j && out@[m].2 == l by {
                if i2 < i {
                    let m = choose|m: int|
                        0 <= m < before.len() && before[m].0 == i2 && before[m].1 == j && before[m].2 == l;
                    assert(out@[m] == before[m]);
                } else {
                    if j > c {
                        assert(s@[c as int].key_spec() < s@[j].key_spec());
                    }
                    if l > d {
                        assert(t@[d as int].key_spec() < t@[l].key_spec());
                    }
                    assert(out@[before.len() as int].0 == i2);
                }
            }
        }
        i = i + 1;
    }
    out
}

/// An output that follows the matched triples, one element for each, with
/// their key, is the intersection of the three key sets.
proof fn lemma_meets3_from_triples<A: Keyed, T: Keyed, U: Keyed, W: Keyed>(
    out: Seq<A>,
    r: Seq<T>,
    s: Seq<U>,
    t: Seq<W>,
    triples: Seq<(usize, usize, usize)>,
)
    requires
        triples_match(r, s, t, triples),
        strictly_ascending(r),
        out.len() == triples.len(),
        forall|n: int|
            0 <= n < out.len() ==> (#[trigger] out[n]).key_spec() == r[triples[n].0 as int].key_spec()
                || out[n].key_spec() == s[triples[n].1 as int].key_spec(),
    ensures
        meets3(out, r, s, t),
{
    assert forall|n: int| 0 <= n < out.len() implies (#[trigger] out[n]).key_spec() == r[triples[n].0 as int].key_spec() by {
        assert(triples[n].0 < r.len());
    }
    assert forall|m: int, n: int| 0 <= m < n < out.len() implies out[m].key_spec()
        < out[n].key_spec() by {
        assert(triples[m].0 < triples[n].0);
        assert(out[m].key_spec() == r[triples[m].0 as int].key_spec());
        assert(out[n].key_spec() == r[triples[n].0 as int].key_spec());
    }
    assert forall|k: u64| #[trigger] has_key(out, k) implies has_key(r, k) && has_key(s, k)
        && has_key(t, k) by {
        let n = choose|n: int| 0 <= n < out.len() && out[n].key_spec() == k;
        assert(out[n].key_spec() == r[triples[n].0 as int].key_spec());
        assert(triples[n].1 < s.len());
        assert(triples[n].2 < t.len());
    }
    assert forall|k: u64| has_key(r, k) && has_key(s, k) && has_key(t, k) implies #[trigger] has_key(
        out,
        k,
    ) by {
        let i = choose|i: int| 0 <= i < r.len() && r[i].key_spec() == k;
        let j = choose|j: int| 0 <= j < s.len() && s[j].key_spec() == k;
        let l = choose|l: int| 0 <= l < t.len() && t[l].key_spec() == k;
        assert(r[i].key_spec() == s[j].key_spec() && r[i].key_spec() == t[l].key_spec());
        let m = choose|m: int|
            0 <= m < triples.len() && triples[m].0 == i && triples[m].1 == j && triples[m].2 == l;
        assert(out[m].key_spec() == r[triples[m].0 as int].key_spec());
    }
}

/// Values that a sorted set of values and a trie level share, each with its
/// residual in the trie; the shorter side drives the walk.
pub fn intersect_v_e<'a>(r: &'a [u64], s: &'a [(u64, Vec<u64>)]) -> (out: Vec<(u64, &'a Vec<u64>)>)
    requires
        strictly_ascending(r@),
        strictly_ascending(s@),
    ensures
        meets(out@, r@, s@),
        forall|m: int| 0 <= m < out@.len() ==> entry_of(s@, (#[trigger] out@[m]).0, *out@[m].1),
{
    let mut out: Vec<(u64, &'a Vec<u64>)> = Vec::new();
    if r.len() <= s.len() {
        let pairs = matches(r, s);
        for m in 0..pairs.len()
            invariant
                pairs_match(r@, s@, pairs@),
                out@.len() == m,
                forall|n: int|
                    0 <= n < m ==> out@[n].0 == s@[(#[trigger] pairs@[n]).1 as int].0 && *out@[n].1
                        == s@[pairs@[n].1 as int].1,
        {
            let j = pairs[m].1;
            out.push((s[j].0, &s[j].1));
        }
        proof {
            lemma_meets_from_pairs(out@, r@, s@, pairs@);
            assert forall|m: int| 0 <= m < out@.len() implies entry_of(s@, (#[trigger] out@[m]).0, *out@[m].1) by {
                assert(pairs@[m].1 < s@.len());
            }
        }
    } else {
        let pairs = matches(s, r);
        for m in 0..pairs.len()
            invariant
                pairs_match(s@, r@, pairs@),
                out@.len() == m,
                forall|n: int|
                    0 <= n < m ==> out@[n].0 == s@[(#[trigger] pairs@[n]).0 as int].0 && *out@[n].1
                        == s@[pairs@[n].0 as int].1,
        {
            let i = pairs[m].0;
            out.push((s[i].0, &s[i].1));
        }
        proof {
            lemma_meets_from_pairs(out@, s@, r@, pairs@);
            assert forall|m: int| 0 <= m < out@.len() implies entry_of(s@, (#[trigger] out@[m]).0, *out@[m].1) by {
                assert(pairs@[m].0 < s@.len());
            }
        }
    }
    out
}

/// Keys that a trie level and a sorted set of values share, each with its
/// residual in the trie; the shorter side drives the walk.
pub fn intersect_e_v<'a>(r: &'a [(u64, Vec<u64>)], s: &'a [u64]) -> (out: Vec<(u64, &'a Vec<u64>)>)
    requires
        strictly_ascending(r@),
        strictly_ascending(s@),
    ensures
        meets(out@, r@, s@),
        forall|m: int| 0 <= m < out@.len() ==> entry_of(r@, (#[trigger] out@[m]).0, *out@[m].1),
{
    intersect_v_e(s, r)
}

/// Keys that two trie levels share, each with its residual on both sides;
/// the shorter side drives the walk.
pub fn intersect_e_e<'a>(r: &'a [(u64, Vec<u64>)], s: &'a [(u64, Vec<u64>)]) -> (out: Vec<
    (u64, &'a Vec<u64>, &'a Vec<u64>),
>)
    requires
        strictly_ascending(r@),
        strictly_ascending(s@),
    ensures
        meets(out@, r@, s@),
        forall|m: int|
            0 <= m < out@.len() ==> entry_of(r@, (#[trigger] out@[m]).0, *out@[m].1) && entry_of(
                s@,
                out@[m].0,
                *out@[m].2,
            ),
{
    let mut out: Vec<(u64, &'a Vec<u64>, &'a Vec<u64>)> = Vec::new();
    let swapped = r.len() > s.len();
    let (a, b) = if swapped {
        (s, r)
    } else {
        (r, s)
    };
    let pairs = matches(a, b);
    for m in 0..pairs.len()
        invariant
            pairs_match(a@, b@, pairs@),
            swapped ==> a@ == s@ && b@ == r@,
            !swapped ==> a@ == r@ && b@ == s@,
            out@.len() == m,
            forall|n: int|
                0 <= n < m ==> {
                    let (i, j) = #[trigger] pairs@[n];
                    &&& out@[n].0 == a@[i as int].0
                    &&& !swapped ==> *out@[n].1 == a@[i as int].1 && *out@[n].2 == b@[j as int].1
                    &&& swapped ==> *out@[n].1 == b@[j as int].1 && *out@[n].2 == a@[i as int].1
                },
    {
        let (i, j) = pairs[m];
        if swapped {
            out.push((a[i].0, &b[j].1, &a[i].1));
        } else {
            out.push((a[i].0, &a[i].1, &b[j].1));
        }
    }
    proof {
        lemma_meets_from_pairs(out@, a@, b@, pairs@);
        assert forall|m: int| 0 <= m < out@.len() implies entry_of(r@, (#[trigger] out@[m]).0, *out@[m].1)
            && entry_of(s@, out@[m].0, *out@[m].2) by {
            let (i, j) = pairs@[m];
            assert(i < a@.len() && j < b@.len());
            assert(a@[i as int].0 == b@[j as int].0);
        }
    }
    out
}

/// Values that three sorted sets share; the shortest drives the walk.
pub fn intersect_v_v_v(r: &[u64], s: &[u64], t: &[u64]) -> (out: Vec<u64>)
    requires
        strictly_ascending(r@),
        strictly_ascending(s@),
        strictly_ascending(t@),
    ensures
        meets3(out@, r@, s@, t@),
{
    let (a, b) = if r.len() > s.len() {
        (s, r)
    } else {
        (r, s)
    };
    let (a, c) = if a.len() > t.len() {
        (t, a)
    } else {
        (a, t)
    };
    let triples = matches3(a, b, c);
    let mut out: Vec<u64> = Vec::new();
    for m in 0..triples.len()
        invariant
            triples_match(a@, b@, c@, triples@),
            out@.len() == m,
            forall|n: int| 0 <= n < m ==> out@[n] == a@[(#[trigger] triples@[n]).0 as int],
    {
        out.push(a[triples[m].0]);
    }
    proof {
        lemma_meets3_from_triples(out@, a@, b@, c@, triples@);
    }
    out
}

/// Keys that two trie levels and a sorted set of values share, each with
/// its residual in both levels; `r` drives the walk.
pub fn intersect_e_e_v<'a>(
    r: &'a [(u64, Vec<u64>)],
    s: &'a [(u64, Vec<u64>)],
    t: &'a [u64],
) -> (out: Vec<(u64, &'a Vec<u64>, &'a Vec<u64>)>)
    requires
        strictly_ascending(r@),
        strictly_ascending(s@),
        strictly_ascending(t@),
    ensures
        meets3(out@, r@, s@, t@),
        forall|m: int|
            0 <= m < out@.len() ==> entry_of(r@, (#[trigger] out@[m]).0, *out@[m].1) && entry_of(
                s@,
                out@[m].0,
                *out@[m].2,
            ),
{
    let triples = matches3(r, s, t);
    let mut out: Vec<(u64, &'a Vec<u64>, &'a Vec<u64>)> = Vec::new();
    for m in 0..triples.len()
        invariant
            triples_match(r@, s@, t@, triples@),
            out@.len() == m,
            forall|n: int|
                0 <= n < m ==> {
                    let (i, j, l) = #[trigger] triples@[n];
                    &&& out@[n].0 == r@[i as int].0
                    &&& *out@[n].1 == r@[i as int].1
                    &&& *out@[n].2 == s@[j as int].1
                },
    {
        let (i, j, _l) = triples[m];
        out.push((r[i].0, &r[i].1, &s[j].1));
    }
    proof {
        lemma_meets3_from_triples(out@, r@, s@, t@, triples@);
        assert forall|m: int| 0 <= m < out@.len() implies entry_of(r@, (#[trigger] out@[m]).0, *out@[m].1)
            && entry_of(s@, out@[m].0, *out@[m].2) by {
            let (i, j, l) = triples@[m];
            assert(i < r@.len() && j < s@.len());
            assert(r@[i as int].0 == s@[j as int].0);
        }
    }
    out
}

/// Values that a sorted set, a trie level and another sorted set share,
/// each with its residual in the trie level; `r` drives the walk.
pub fn intersect_v_e_v<'a>(r: &'a [u64], s: &'a [(u64, Vec<u64>)], t: &'a [u64]) -> (out: Vec<
    (u64, &'a Vec<u64>),
>)
    requires
        strictly_ascending(r@),
        strictly_ascending(s@),
        strictly_ascending(t@),
    ensures
        meets3(out@, r@, s@, t@),
        forall|m: int| 0 <= m < out@.len() ==> entry_of(s@, (#[trigger] out@[m]).0, *out@[m].1),
{
    let triples = matches3(r, s, t);
    let mut out: Vec<(u64, &'a Vec<u64>)> = Vec::new();
    for m in 0..triples.len()
        invariant
            triples_match(r@, s@, t@, triples@),
            out@.len() == m,
            forall|n: int|
                0 <= n < m ==> out@[n].0 == s@[(#[trigger] triples@[n]).1 as int].0 && *out@[n].1
                    == s@[triples@[n].1 as int].1,
    {
        let j = triples[m].1;
        out.push((s[j].0, &s[j].1));
    }
    proof {
        lemma_meets3_from_triples(out@, r@, s@, t@, triples@);
        assert forall|m: int| 0 <= m < out@.len() implies entry_of(s@, (#[trigger] out@[m]).0, *out@[m].1) by {
            assert(triples@[m].1 < s@.len());
        }
    }
    out
}


/// A trie level: keys strictly increase, and so does each residual.
pub open spec fn is_trie(t: Seq<(u64, Vec<u64>)>) -> bool {
    &&& strictly_ascending(t)
    &&& forall|i: int| 0 <= i < t.len() ==> strictly_ascending((#[trigger] t[i]).1@)
}

/// The trie level `t` relates `x` to `y`.
pub open spec fn has(t: Seq<(u64, Vec<u64>)>, x: u64, y: u64) -> bool {
    exists|i: int| 0 <= i < t.len() && t[i].0 == x && has_key(t[i].1@, y)
}

/// The residual of an entry is what the level relates its key to.
proof fn lemma_residual(t: Seq<(u64, Vec<u64>)>, k: u64, v: Vec<u64>)
    requires
        is_trie(t),
        entry_of(t, k, v),
    ensures
        strictly_ascending(v@),
        forall|y: u64| #[trigger] has(t, k, y) <==> has_key(v@, y),
{
    let i = choose|i: int| 0 <= i < t.len() && t[i].0 == k && t[i].1 == v;
    assert(strictly_ascending(t[i].1@));
    assert forall|y: u64| #[trigger] has(t, k, y) implies has_key(v@, y) by {
        let i2 = choose|i2: int| 0 <= i2 < t.len() && t[i2].0 == k && has_key(t[i2].1@, y);
        if i2 < i {
            assert(t[i2].key_spec() < t[i].key_spec());
        } else if i2 > i {
            assert(t[i].key_spec() < t[i2].key_spec());
        }
    }
}

/// `p` relates X to Y, `q` relates X to Z and `u` relates Y to Z.
pub open spec fn joined(
    p: Seq<(u64, Vec<u64>)>,
    q: Seq<(u64, Vec<u64>)>,
    u: Seq<(u64, Vec<u64>)>,
    tr: (u64, u64, u64),
) -> bool {
    has(p, tr.0, tr.1) && has(q, tr.0, tr.2) && has(u, tr.1, tr.2)
}

/// Generic join of `p` (indexed X to Y), `q` (X to Z) and `u` (Y to Z): X
/// ranges over the keys that `p` and `q` share, Y over what `p` relates X
/// to that `u` has as a key, Z over what both `u` and `q` relate to.
fn join_levels(p: &[(u64, Vec<u64>)], q: &[(u64, Vec<u64>)], u: &[(u64, Vec<u64>)]) -> (out: Vec<
    (u64, u64, u64),
>)
    requires
        is_trie(p@),
        is_trie(q@),
        is_trie(u@),
    ensures
        lists(out@, |tr: (u64, u64, u64)| joined(p@, q@, u@, tr)),
{
    let xs = intersect_e_e(p, q);
    let mut out: Vec<(u64, u64, u64)> = Vec::new();
    for i in 0..xs.len()
        invariant
            is_trie(p@),
            is_trie(q@),
            is_trie(u@),
            meets(xs@, p@, q@),
            forall|m: int|
                0 <= m < xs@.len() ==> entry_of(p@, (#[trigger] xs@[m]).0, *xs@[m].1) && entry_of(
                    q@,
                    xs@[m].0,
                    *xs@[m].2,
                ),
            out@.no_duplicates(),
            forall|tr: (u64, u64, u64)|
                #[trigger] out@.contains(tr) <==> joined(p@, q@, u@, tr) && exists|m: int|
                    0 <= m < i && xs@[m].0 == tr.0,
    {
        let (a, pa, qa) = xs[i];
        proof {
            lemma_residual(p@, a, *pa);
            lemma_residual(q@, a, *qa);
        }
        let ys = intersect_e_v(u, pa.as_slice());
        for j in 0..ys.len()
            invariant
                is_trie(p@),
                is_trie(q@),
                is_trie(u@),
                meets(xs@, p@, q@),
                0 <= i < xs@.len(),
                xs@[i as int] == (a, pa, qa),
                strictly_ascending(pa@),
                strictly_ascending(qa@),
                forall|y: u64| #[trigger] has(p@, a, y) <==> has_key(pa@, y),
                forall|z: u64| #[trigger] has(q@, a, z) <==> has_key(qa@, z),
                meets(ys@, u@, pa@),
                forall|m: int| 0 <= m < ys@.len() ==> entry_of(u@, (#[trigger] ys@[m]).0, *ys@[m].1),
                out@.no_duplicates(),
                forall|tr: (u64, u64, u64)|
                    #[trigger] out@.contains(tr) <==> joined(p@, q@, u@, tr) && ((exists|m: int|
                        0 <= m < i && xs@[m].0 == tr.0) || (tr.0 == a && exists|n: int|
                        0 <= n < j && ys@[n].0 == tr.1)),
        {
            let (b, ub) = ys[j];
            proof {
                lemma_residual(u@, b, *ub);
            }
            let zs = intersect_v_v(ub.as_slice(), qa.as_slice());
            for l in 0..zs.len()
                invariant
                    is_trie(u@),
                    meets(xs@, p@, q@),
                    0 <= i < xs@.len(),
                    xs@[i as int] == (a, pa, qa),
                    forall|y: u64| #[trigger] has(p@, a, y) <==> has_key(pa@, y),
                    forall|z: u64| #[trigger] has(q@, a, z) <==> has_key(qa@, z),
                    forall|z: u64| #[trigger] has(u@, b, z) <==> has_key(ub@, z),
                    meets(ys@, u@, pa@),
                    0 <= j < ys@.len(),
                    ys@[j as int] == (b, ub),
                    meets(zs@, ub@, qa@),
                    out@.no_duplicates(),
                    forall|tr: (u64, u64, u64)|
                        #[trigger] out@.contains(tr) <==> joined(p@, q@, u@, tr) && ((exists|m: int|
                            0 <= m < i && xs@[m].0 == tr.0) || (tr.0 == a && ((exists|n: int|
                            0 <= n < j && ys@[n].0 == tr.1) || (tr.1 == b && exists|n: int|
                            0 <= n < l && zs@[n] == tr.2)))),
            {
                let c = zs[l];
                let ghost before = out@;
                proof {
                    assert(has_key(zs@, c));
                    assert(has_key(ys@, b));
                    assert(has_key(xs@, a));
                    assert(has_key(pa@, b));
                    assert(has_key(qa@, c));
                    assert(has_key(ub@, c));
                    assert(joined(p@, q@, u@, (a, b, c)));
                    if before.contains((a, b, c)) {
                        if exists|m: int| 0 <= m < i && xs@[m].0 == a {
                            let m = choose|m: int| 0 <= m < i && xs@[m].0 == a;
                            assert(xs@[m].key_spec() < xs@[i as int].key_spec());
                        } else if exists|n: int| 0 <= n < j && ys@[n].0 == b {
                            let n = choose|n: int| 0 <= n < j && ys@[n].0 == b;
                            assert(ys@[n].key_spec() < ys@[j as int].key_spec());
                        } else {
                            let n = choose|n: int| 0 <= n < l && zs@[n] == c;
                            assert(zs@[n].key_spec() < zs@[l as int].key_spec());
                        }
                    }
                }
                out.push((a, b, c));
                proof {
                    assert forall|tr: (u64, u64, u64)|
                        #[trigger] out@.contains(tr) <==> before.contains(tr) || tr == (a, b, c) by {
                        if out@.contains(tr) {
                            let k = choose|k: int| 0 <= k < out@.len() && out@[k] == tr;
                            if k < before.len() {
                                assert(before[k] == tr);
                            }
                        }
                        if before.contains(tr) {
                            let k = choose|k: int| 0 <= k < before.len() && before[k] == tr;
                            assert(out@[k] == tr);
                        }
                        if tr == (a, b, c) {
                            assert(out@[before.len() as int] == tr);
                        }
                    }
                }
            }
            proof {
                assert forall|tr: (u64, u64, u64)|
                    #[trigger] has(u@, tr.1, tr.2) && joined(p@, q@, u@, tr) && tr.0 == a && tr.1 == b implies exists|n: int|
                        0 <= n < zs@.len() && zs@[n] == tr.2 by {
                    assert(has(u@, b, tr.2));
                    assert(has(q@, a, tr.2));
                    assert(has_key(zs@, tr.2));
                }
            }
        }
        proof {
            assert forall|tr: (u64, u64, u64)| #[trigger] has(u@, tr.1, tr.2) && joined(p@, q@, u@, tr) && tr.0 == a implies exists|n: int|
                0 <= n < ys@.len() && ys@[n].0 == tr.1 by {
                assert(has(p@, a, tr.1));
                let k = choose|k: int| 0 <= k < u@.len() && u@[k].0 == tr.1 && has_key(u@[k].1@, tr.2);
                assert(has_key(u@, tr.1));
                assert(has_key(ys@, tr.1));
            }
        }
    }
    proof {
        assert forall|tr: (u64, u64, u64)| #[trigger] has(u@, tr.1, tr.2) && joined(p@, q@, u@, tr) implies exists|m: int|
            0 <= m < xs@.len() && xs@[m].0 == tr.0 by {
            let k = choose|k: int| 0 <= k < p@.len() && p@[k].0 == tr.0 && has_key(p@[k].1@, tr.1);
            let k2 = choose|k2: int| 0 <= k2 < q@.len() && q@[k2].0 == tr.0 && has_key(q@[k2].1@, tr.2);
            assert(has_key(p@, tr.0));
            assert(has_key(q@, tr.0));
            assert(has_key(xs@, tr.0));
        }
    }
    out
}


/// Component `i` of a triple.
pub open spec fn pick(tr: (u64, u64, u64), i: u8) -> u64 {
    if i == 0 {
        tr.0
    } else if i == 1 {
        tr.1
    } else {
        tr.2
    }
}

/// The triple whose components are components `ord.0`, `ord.1`, `ord.2`
/// of `tr`.
pub open spec fn arranged(tr: (u64, u64, u64), ord: (u8, u8, u8)) -> (u64, u64, u64) {
    (pick(tr, ord.0), pick(tr, ord.1), pick(tr, ord.2))
}

/// Rearranges the components of each triple.
fn arrange(v: Vec<(u64, u64, u64)>, ord: (u8, u8, u8)) -> (out: Vec<(u64, u64, u64)>)
    ensures
        out@.len() == v@.len(),
        forall|n: int| 0 <= n < v@.len() ==> out@[n] == arranged(#[trigger] v@[n], ord),
{
    let mut out: Vec<(u64, u64, u64)> = Vec::new();
    for n in 0..v.len()
        invariant
            out@.len() == n,
            forall|m: int| 0 <= m < n ==> out@[m] == arranged(#[trigger] v@[m], ord),
    {
        let tr = v[n];
        let x = if ord.0 == 0 { tr.0 } else if ord.0 == 1 { tr.1 } else { tr.2 };
        let y = if ord.1 == 0 { tr.0 } else if ord.1 == 1 { tr.1 } else { tr.2 };
        let z = if ord.2 == 0 { tr.0 } else if ord.2 == 1 { tr.1 } else { tr.2 };
        out.push((x, y, z));
    }
    out
}

/// Rearranging a listing by a bijection `arranged(_, ord)` with inverse
/// `inv` lists the triples whose preimage satisfies the relation.
proof fn lemma_lists_arranged(
    v: Seq<(u64, u64, u64)>,
    out: Seq<(u64, u64, u64)>,
    ord: (u8, u8, u8),
    rel: spec_fn((u64, u64, u64)) -> bool,
    inv: spec_fn((u64, u64, u64)) -> (u64, u64, u64),
)
    requires
        lists(v, rel),
        out.len() == v.len(),
        forall|n: int| 0 <= n < v.len() ==> out[n] == arranged(#[trigger] v[n], ord),
        forall|x: (u64, u64, u64)| #[trigger] inv(arranged(x, ord)) == x,
        forall|tr: (u64, u64, u64)| #[trigger] arranged(inv(tr), ord) == tr,
    ensures
        lists(out, |tr: (u64, u64, u64)| rel(inv(tr))),
{
    assert forall|m: int, n: int| 0 <= m < out.len() && 0 <= n < out.len() && m != n implies out[m]
        != out[n] by {
        assert(inv(arranged(v[m], ord)) == v[m]);
        assert(inv(arranged(v[n], ord)) == v[n]);
    }
    assert forall|tr: (u64, u64, u64)| #[trigger] out.contains(tr) <==> rel(inv(tr)) by {
        if out.contains(tr) {
            let n = choose|n: int| 0 <= n < out.len() && out[n] == tr;
            assert(inv(arranged(v[n], ord)) == v[n]);
            assert(v.contains(v[n]));
        }
        if rel(inv(tr)) {
            assert(v.contains(inv(tr)));
            let n = choose|n: int| 0 <= n < v.len() && v[n] == inv(tr);
            assert(out[n] == tr);
        }
    }
}

/// Triangle join in attribute order x, y, z: `r` indexed on x (to y), `s`
/// on y (to z), `t` on x (to z).
pub fn triangle_index_xyz(
    r: &[(u64, Vec<u64>)],
    s: &[(u64, Vec<u64>)],
    t: &[(u64, Vec<u64>)],
) -> (out: Vec<(u64, u64, u64)>)
    requires
        is_trie(r@),
        is_trie(s@),
        is_trie(t@),
    ensures
        lists(
            out@,
            |tr: (u64, u64, u64)| has(r@, tr.0, tr.1) && has(s@, tr.1, tr.2) && has(t@, tr.0, tr.2),
        ),
{
    join_levels(r, t, s)
}

/// Triangle join in attribute order x, z, y: `r` indexed on x (to y), `s`
/// on z (to y), `t` on x (to z).
pub fn triangle_index_xzy(
    r: &[(u64, Vec<u64>)],
    s: &[(u64, Vec<u64>)],
    t: &[(u64, Vec<u64>)],
) -> (out: Vec<(u64, u64, u64)>)
    requires
        is_trie(r@),
        is_trie(s@),
        is_trie(t@),
    ensures
        lists(
            out@,
            |tr: (u64, u64, u64)| has(r@, tr.0, tr.1) && has(s@, tr.2, tr.1) && has(t@, tr.0, tr.2),
        ),
{
    let v = join_levels(t, r, s);
    let out = arrange(v, (0, 2, 1));
    proof {
        lemma_lists_arranged(
            v@,
            out@,
            (0, 2, 1),
            |x: (u64, u64, u64)| joined(t@, r@, s@, x),
            |tr: (u64, u64, u64)| (tr.0, tr.2, tr.1),
        );
    }
    out
}

/// Triangle join in attribute order y, x, z: `r` indexed on y (to x), `s`
/// on y (to z), `t` on x (to z).
pub fn triangle_index_yxz(
    r: &[(u64, Vec<u64>)],
    s: &[(u64, Vec<u64>)],
    t: &[(u64, Vec<u64>)],
) -> (out: Vec<(u64, u64, u64)>)
    requires
        is_trie(r@),
        is_trie(s@),
        is_trie(t@),
    ensures
        lists(
            out@,
            |tr: (u64, u64, u64)| has(r@, tr.1, tr.0) && has(s@, tr.1, tr.2) && has(t@, tr.0, tr.2),
        ),
{
    let v = join_levels(r, s, t);
    let out = arrange(v, (1, 0, 2));
    proof {
        lemma_lists_arranged(
            v@,
            out@,
            (1, 0, 2),
            |x: (u64, u64, u64)| joined(r@, s@, t@, x),
            |tr: (u64, u64, u64)| (tr.1, tr.0, tr.2),
        );
    }
    out
}

/// Triangle join in attribute order y, z, x: `r` indexed on y (to x), `s`
/// on y (to z), `t` on z (to x).
pub fn triangle_index_yzx(
    r: &[(u64, Vec<u64>)],
    s: &[(u64, Vec<u64>)],
    t: &[(u64, Vec<u64>)],
) -> (out: Vec<(u64, u64, u64)>)
    requires
        is_trie(r@),
        is_trie(s@),
        is_trie(t@),
    ensures
        lists(
            out@,
            |tr: (u64, u64, u64)| has(r@, tr.1, tr.0) && has(s@, tr.1, tr.2) && has(t@, tr.2, tr.0),
        ),
{
    let v = join_levels(s, r, t);
    let out = arrange(v, (2, 0, 1));
    proof {
        lemma_lists_arranged(
            v@,
            out@,
            (2, 0, 1),
            |x: (u64, u64, u64)| joined(s@, r@, t@, x),
            |tr: (u64, u64, u64)| (tr.1, tr.2, tr.0),
        );
    }
    out
}

/// Triangle join in attribute order z, x, y: `r` indexed on x (to y), `s`
/// on z (to y), `t` on z (to x).
pub fn triangle_index_zxy(
    r: &[(u64, Vec<u64>)],
    s: &[(u64, Vec<u64>)],
    t: &[(u64, Vec<u64>)],
) -> (out: Vec<(u64, u64, u64)>)
    requires
        is_trie(r@),
        is_trie(s@),
        is_trie(t@),
    ensures
        lists(
            out@,
            |tr: (u64, u64, u64)| has(r@, tr.0, tr.1) && has(s@, tr.2, tr.1) && has(t@, tr.2, tr.0),
        ),
{
    let v = join_levels(t, s, r);
    let out = arrange(v, (1, 2, 0));
    proof {
        lemma_lists_arranged(
            v@,
            out@,
            (1, 2, 0),
            |x: (u64, u64, u64)| joined(t@, s@, r@, x),
            |tr: (u64, u64, u64)| (tr.2, tr.0, tr.1),
        );
    }
    out
}

/// Triangle join in attribute order z, y, x: `r` indexed on y (to x), `s`
/// on z (to y), `t` on z (to x).
pub fn triangle_index_zyx(
    r: &[(u64, Vec<u64>)],
    s: &[(u64, Vec<u64>)],
    t: &[(u64, Vec<u64>)],
) -> (out: Vec<(u64, u64, u64)>)
    requires
        is_trie(r@),
        is_trie(s@),
        is_trie(t@),
    ensures
        lists(
            out@,
            |tr: (u64, u64, u64)| has(r@, tr.1, tr.0) && has(s@, tr.2, tr.1) && has(t@, tr.2, tr.0),
        ),
{
    let v = join_levels(s, t, r);
    let out = arrange(v, (2, 1, 0));
    proof {
        lemma_lists_arranged(
            v@,
            out@,
            (2, 1, 0),
            |x: (u64, u64, u64)| joined(s@, t@, r@, x),
            |tr: (u64, u64, u64)| (tr.2, tr.1, tr.0),
        );
    }
    out
}


/// `a` comes before `b`, or equals it, in lexicographic order.
pub open spec fn lex_le(a: (u64, u64), b: (u64, u64)) -> bool {
    a.0 < b.0 || (a.0 == b.0 && a.1 <= b.1)
}

/// The pairs are in lexicographic order.
pub open spec fn lex_sorted(r: Seq<(u64, u64)>) -> bool {
    forall|i: int, j: int| 0 <= i <= j < r.len() ==> lex_le(r[i], r[j])
}

proof fn lemma_has_push(s: Seq<(u64, Vec<u64>)>, e: (u64, Vec<u64>), x: u64, y: u64)
    ensures
        has(s.push(e), x, y) <==> has(s, x, y) || (e.0 == x && has_key(e.1@, y)),
{
    if has(s.push(e), x, y) {
        let i = choose|i: int| 0 <= i < s.len() + 1 && s.push(e)[i].0 == x && has_key(s.push(e)[i].1@, y);
        if i < s.len() {
            assert(s.push(e)[i] == s[i]);
        }
    }
    if has(s, x, y) {
        let i = choose|i: int| 0 <= i < s.len() && s[i].0 == x && has_key(s[i].1@, y);
        assert(s.push(e)[i] == s[i]);
    }
    if e.0 == x && has_key(e.1@, y) {
        assert(s.push(e)[s.len() as int] == e);
    }
}

proof fn lemma_has_key_push(s: Seq<u64>, v: u64, k: u64)
    ensures
        has_key(s.push(v), k) <==> has_key(s, k) || v == k,
{
    if has_key(s.push(v), k) {
        let i = choose|i: int| 0 <= i < s.len() + 1 && s.push(v)[i].key_spec() == k;
        if i < s.len() {
            assert(s.push(v)[i] == s[i]);
        }
    }
    if has_key(s, k) {
        let i = choose|i: int| 0 <= i < s.len() && s[i].key_spec() == k;
        assert(s.push(v)[i] == s[i]);
    }
    if v == k {
        assert(s.push(v)[s.len() as int] == v);
    }
}

/// Groups pairs sorted lexicographically into a trie level: one entry for
/// each first component, holding the second components once each.
pub fn to_trie(r: &[(u64, u64)]) -> (out: Vec<(u64, Vec<u64>)>)
    requires
        lex_sorted(r@),
    ensures
        is_trie(out@),
        forall|x: u64, y: u64| #[trigger] has(out@, x, y) <==> r@.contains((x, y)),
{
    let mut out: Vec<(u64, Vec<u64>)> = Vec::new();
    for i in 0..r.len()
        invariant
            lex_sorted(r@),
            is_trie(out@),
            i == 0 ==> out@.len() == 0,
            i > 0 ==> out@.len() > 0 && out@.last().0 == r@[i - 1].0 && out@.last().1@.len() > 0
                && out@.last().1@.last() == r@[i - 1].1,
            forall|x: u64, y: u64|
                #[trigger] has(out@, x, y) <==> exists|k: int| 0 <= k < i && r@[k] == (x, y),
    {
        let (x, y) = r[i];
        let n = out.len();
        let ghost before = out@;
        if n > 0 && out[n - 1].0 == x {
            let (k, mut vs) = out.pop().unwrap();
            let ghost vs_orig = vs;
            let ghost vs0 = vs@;
            let ghost prefix = out@;
            assert(before == prefix.push((k, vs)));
            assert(lex_le(r@[i - 1], r@[i as int]));
            let vn = vs.len();
            if vs[vn - 1] != y {
                vs.push(y);
                proof {
                    assert forall|a: int, b: int| 0 <= a < b < vs@.len() implies vs@[a] < vs@[b] by {
                        if b < vn {
                            assert(vs0[a] < vs0[b]);
                        } else if a < vn - 1 {
                            assert(vs0[a] < vs0[vn - 1]);
                        }
                    }
                    assert forall|k2: u64| #[trigger] has_key(vs@, k2) <==> has_key(vs0, k2) || k2 == y by {
                        lemma_has_key_push(vs0, y, k2);
                    }
                }
            } else {
                proof {
                    assert(vs0[vn - 1] == y);
                    assert(has_key(vs0, y));
                }
            }
            out.push((k, vs));
            proof {
                assert forall|m: int| 0 <= m < out@.len() implies strictly_ascending(
                    (#[trigger] out@[m]).1@,
                ) by {
                    if m < prefix.len() {
                        assert(out@[m] == before[m]);
                    }
                }
                assert forall|a: int, b: int| 0 <= a < b < out@.len() implies out@[a].key_spec()
                    < out@[b].key_spec() by {
                    assert(before[a].key_spec() < before[b].key_spec());
                }
                assert forall|x2: u64, y2: u64| #[trigger] has(out@, x2, y2) <==> exists|k3: int|
                    0 <= k3 < i + 1 && r@[k3] == (x2, y2) by {
                    lemma_has_push(prefix, (k, vs), x2, y2);
                    lemma_has_push(prefix, (k, vs_orig), x2, y2);
                    if x2 == x && y2 == y {
                        assert(r@[i as int] == (x2, y2));
                    }
                    if exists|k3: int| 0 <= k3 < i + 1 && r@[k3] == (x2, y2) {
                        let k3 = choose|k3: int| 0 <= k3 < i + 1 && r@[k3] == (x2, y2);
                        if k3 < i {
                            assert(has(before, x2, y2));
                        }
                    }
                }
            }
        } else {
            let mut vs: Vec<u64> = Vec::new();
            vs.push(y);
            out.push((x, vs));
            proof {
                if n > 0 {
                    assert(lex_le(r@[i - 1], r@[i as int]));
                }
                assert forall|m: int| 0 <= m < out@.len() implies strictly_ascending(
                    (#[trigger] out@[m]).1@,
                ) by {
                    if m < n {
                        assert(out@[m] == before[m]);
                    }
                }
                assert forall|a: int, b: int| 0 <= a < b < out@.len() implies out@[a].key_spec()
                    < out@[b].key_spec() by {
                    if b < n {
                        assert(before[a].key_spec() < before[b].key_spec());
                    } else if a < n - 1 {
                        assert(before[a].key_spec() < before[n - 1].key_spec());
                    }
                }
                assert(vs@.len() == 1 && vs@[0] == y);
                assert forall|k2: u64| #[trigger] has_key(vs@, k2) <==> k2 == y by {
                    if k2 == y {
                        assert(vs@[0] == k2);
                    }
                }
                assert forall|x2: u64, y2: u64| #[trigger] has(out@, x2, y2) <==> exists|k3: int|
                    0 <= k3 < i + 1 && r@[k3] == (x2, y2) by {
                    lemma_has_push(before, (x, vs), x2, y2);
                    if x2 == x && y2 == y {
                        assert(r@[i as int] == (x2, y2));
                    }
                    if exists|k3: int| 0 <= k3 < i + 1 && r@[k3] == (x2, y2) {
                        let k3 = choose|k3: int| 0 <= k3 < i + 1 && r@[k3] == (x2, y2);
                        if k3 < i {
                            assert(has(before, x2, y2));
                        }
                    }
                }
            }
        }
    }
    proof {
        assert forall|x: u64, y: u64| #[trigger] has(out@, x, y) <==> r@.contains((x, y)) by {
            if r@.contains((x, y)) {
                let k = choose|k: int| 0 <= k < r@.len() && r@[k] == (x, y);
                assert(exists|k: int| 0 <= k < r@.len() && r@[k] == (x, y));
            }
        }
    }
    out
}


/// Relies on `slice::sort_unstable` on pairs of integers: afterwards the
/// pairs are in ascending order, which for tuples is lexicographic, and the
/// vector holds the same pairs as before, as many times each.
#[verifier::external_body]
fn sort_pairs(v: &mut Vec<(u64, u64)>)
    ensures
        final(v)@.to_multiset() == old(v)@.to_multiset(),
        lex_sorted(final(v)@),
{
    v.sort_unstable();
}

/// The pairs of `r` in order, each turned round when `flip` is set.
pub fn oriented(r: &[(u64, u64)], flip: bool) -> (out: Vec<(u64, u64)>)
    ensures
        out@.len() == r@.len(),
        forall|i: int|
            0 <= i < r@.len() ==> out@[i] == if flip {
                ((#[trigger] r@[i]).1, r@[i].0)
            } else {
                r@[i]
            },
{
    let mut out: Vec<(u64, u64)> = Vec::new();
    for i in 0..r.len()
        invariant
            out@.len() == i,
            forall|k: int|
                0 <= k < i ==> out@[k] == if flip {
                    ((#[trigger] r@[k]).1, r@[k].0)
                } else {
                    r@[k]
                },
    {
        let (x, y) = r[i];
        if flip {
            out.push((y, x));
        } else {
            out.push((x, y));
        }
    }
    out
}

/// Builds a trie level from pairs in any order: sorts them, then groups.
pub fn create(pairs: Vec<(u64, u64)>) -> (out: Vec<(u64, Vec<u64>)>)
    ensures
        is_trie(out@),
        forall|x: u64, y: u64| #[trigger] has(out@, x, y) <==> pairs@.contains((x, y)),
{
    let mut v = pairs;
    sort_pairs(&mut v);
    let out = to_trie(v.as_slice());
    proof {
        broadcast use vstd::seq_lib::to_multiset_contains;
        assert forall|x: u64, y: u64| #[trigger] has(out@, x, y) <==> pairs@.contains((x, y)) by {
            assert(v@.contains((x, y)) <==> v@.to_multiset().contains((x, y)));
            assert(pairs@.contains((x, y)) <==> pairs@.to_multiset().contains((x, y)));
        }
    }
    out
}

/// Triangle query `R(x, y), S(y, z), T(z, x)` on the sorted realization:
/// sorts the three relations into trie levels keyed on x, y and x, then
/// joins in order x, y, z.
pub fn triangle(r: &[(u64, u64)], s: &[(u64, u64)], t: &[(u64, u64)]) -> (out: Vec<
    (u64, u64, u64),
>)
    ensures
        lists(out@, |tr: (u64, u64, u64)| triangle_of(r@, s@, t@, tr)),
{
    let r_x = create(oriented(r, false));
    let s_y = create(oriented(s, false));
    let t_x = create(oriented(t, true));
    let out = triangle_index_xyz(r_x.as_slice(), s_y.as_slice(), t_x.as_slice());
    proof {
        assert forall|tr: (u64, u64, u64)| #[trigger] out@.contains(tr) <==> triangle_of(r@, s@, t@, tr) by {
            lemma_oriented_contains(r@, false, tr.0, tr.1);
            lemma_oriented_contains(s@, false, tr.1, tr.2);
            lemma_oriented_contains(t@, true, tr.0, tr.2);
        }
    }
    out
}

/// What `oriented` returns holds a pair exactly when the relation holds
/// it, or its reverse when `flip` is set.
proof fn lemma_oriented_contains(r: Seq<(u64, u64)>, flip: bool, x: u64, y: u64)
    ensures
        forall|o: Seq<(u64, u64)>|
            o.len() == r.len() && (forall|i: int|
                0 <= i < r.len() ==> o[i] == if flip {
                    ((#[trigger] r[i]).1, r[i].0)
                } else {
                    r[i]
                }) ==> (#[trigger] o.contains((x, y)) <==> if flip {
                r.contains((y, x))
            } else {
                r.contains((x, y))
            }),
{
    assert forall|o: Seq<(u64, u64)>|
        o.len() == r.len() && (forall|i: int|
            0 <= i < r.len() ==> o[i] == if flip {
                ((#[trigger] r[i]).1, r[i].0)
            } else {
                r[i]
            }) implies (#[trigger] o.contains((x, y)) <==> if flip {
        r.contains((y, x))
    } else {
        r.contains((x, y))
    }) by {
        if o.contains((x, y)) {
            let i = choose|i: int| 0 <= i < o.len() && o[i] == (x, y);
            assert(o[i] == if flip { (r[i].1, r[i].0) } else { r[i] });
        }
        if flip && r.contains((y, x)) {
            let i = choose|i: int| 0 <= i < r.len() && r[i] == (y, x);
            assert(o[i] == (x, y));
        }
        if !flip && r.contains((x, y)) {
            let i = choose|i: int| 0 <= i < r.len() && r[i] == (x, y);
            assert(o[i] == (x, y));
        }
    }
}


/// The six attribute orders give the same result: for tries that index the
/// same relations `R(x, y)`, `S(y, z)`, `T(z, x)` each way round, the six
/// listings hold the same triangles and so have the same count.
pub proof fn lemma_orders_agree(
    r_xy: Seq<(u64, Vec<u64>)>,
    r_yx: Seq<(u64, Vec<u64>)>,
    s_yz: Seq<(u64, Vec<u64>)>,
    s_zy: Seq<(u64, Vec<u64>)>,
    t_xz: Seq<(u64, Vec<u64>)>,
    t_zx: Seq<(u64, Vec<u64>)>,
    o_xyz: Seq<(u64, u64, u64)>,
    o_xzy: Seq<(u64, u64, u64)>,
    o_yxz: Seq<(u64, u64, u64)>,
    o_yzx: Seq<(u64, u64, u64)>,
    o_zxy: Seq<(u64, u64, u64)>,
    o_zyx: Seq<(u64, u64, u64)>,
)
    requires
        forall|x: u64, y: u64| #[trigger] has(r_xy, x, y) <==> has(r_yx, y, x),
        forall|y: u64, z: u64| #[trigger] has(s_yz, y, z) <==> has(s_zy, z, y),
        forall|x: u64, z: u64| #[trigger] has(t_xz, x, z) <==> has(t_zx, z, x),
        lists(
            o_xyz,
            |tr: (u64, u64, u64)| has(r_xy, tr.0, tr.1) && has(s_yz, tr.1, tr.2) && has(t_xz, tr.0, tr.2),
        ),
        lists(
            o_xzy,
            |tr: (u64, u64, u64)| has(r_xy, tr.0, tr.1) && has(s_zy, tr.2, tr.1) && has(t_xz, tr.0, tr.2),
        ),
        lists(
            o_yxz,
            |tr: (u64, u64, u64)| has(r_yx, tr.1, tr.0) && has(s_yz, tr.1, tr.2) && has(t_xz, tr.0, tr.2),
        ),
        lists(
            o_yzx,
            |tr: (u64, u64, u64)| has(r_yx, tr.1, tr.0) && has(s_yz, tr.1, tr.2) && has(t_zx, tr.2, tr.0),
        ),
        lists(
            o_zxy,
            |tr: (u64, u64, u64)| has(r_xy, tr.0, tr.1) && has(s_zy, tr.2, tr.1) && has(t_zx, tr.2, tr.0),
        ),
        lists(
            o_zyx,
            |tr: (u64, u64, u64)| has(r_yx, tr.1, tr.0) && has(s_zy, tr.2, tr.1) && has(t_zx, tr.2, tr.0),
        ),
    ensures
        o_xzy.len() == o_xyz.len(),
        o_yxz.len() == o_xyz.len(),
        o_yzx.len() == o_xyz.len(),
        o_zxy.len() == o_xyz.len(),
        o_zyx.len() == o_xyz.len(),
        o_xzy.to_multiset() == o_xyz.to_multiset(),
        o_yxz.to_multiset() == o_xyz.to_multiset(),
        o_yzx.to_multiset() == o_xyz.to_multiset(),
        o_zxy.to_multiset() == o_xyz.to_multiset(),
        o_zyx.to_multiset() == o_xyz.to_multiset(),
{
    let base = |tr: (u64, u64, u64)|
        has(r_xy, tr.0, tr.1) && has(s_yz, tr.1, tr.2) && has(t_xz, tr.0, tr.2);
    lemma_listings_agree(
        o_xzy,
        o_xyz,
        |tr: (u64, u64, u64)| has(r_xy, tr.0, tr.1) && has(s_zy, tr.2, tr.1) && has(t_xz, tr.0, tr.2),
        base,
    );
    lemma_listings_agree(
        o_yxz,
        o_xyz,
        |tr: (u64, u64, u64)| has(r_yx, tr.1, tr.0) && has(s_yz, tr.1, tr.2) && has(t_xz, tr.0, tr.2),
        base,
    );
    lemma_listings_agree(
        o_yzx,
        o_xyz,
        |tr: (u64, u64, u64)| has(r_yx, tr.1, tr.0) && has(s_yz, tr.1, tr.2) && has(t_zx, tr.2, tr.0),
        base,
    );
    lemma_listings_agree(
        o_zxy,
        o_xyz,
        |tr: (u64, u64, u64)| has(r_xy, tr.0, tr.1) && has(s_zy, tr.2, tr.1) && has(t_zx, tr.2, tr.0),
        base,
    );
    lemma_listings_agree(
        o_zyx,
        o_xyz,
        |tr: (u64, u64, u64)| has(r_yx, tr.1, tr.0) && has(s_zy, tr.2, tr.1) && has(t_zx, tr.2, tr.0),
        base,
    );
}


/// `x` in `a`, `p` relates `x` to `y`, `y` in `b`, `q` relates `y` to `z`,
/// `z` in `c`, for the triple `(x, y, z)`.
pub open spec fn path_rel(
    a: Seq<u64>,
    p: Seq<(u64, Vec<u64>)>,
    b: Seq<u64>,
    q: Seq<(u64, Vec<u64>)>,
    c: Seq<u64>,
    tr: (u64, u64, u64),
) -> bool {
    has_key(a, tr.0) && has(p, tr.0, tr.1) && has_key(b, tr.1) && has(q, tr.1, tr.2) && has_key(c, tr.2)
}

/// Joins along a path `a(x), p(x, y), b(y), q(y, z), c(z)`, attribute by
/// attribute in that order.
fn path_join(
    a: &[u64],
    p: &[(u64, Vec<u64>)],
    b: &[u64],
    q: &[(u64, Vec<u64>)],
    c: &[u64],
) -> (out: Vec<(u64, u64, u64)>)
    requires
        strictly_ascending(a@),
        is_trie(p@),
        strictly_ascending(b@),
        is_trie(q@),
        strictly_ascending(c@),
    ensures
        lists(out@, |tr: (u64, u64, u64)| path_rel(a@, p@, b@, q@, c@, tr)),
{
    let xs = intersect_v_e(a, p);
    let mut out: Vec<(u64, u64, u64)> = Vec::new();
    for i in 0..xs.len()
        invariant
            strictly_ascending(a@),
            is_trie(p@),
            strictly_ascending(b@),
            is_trie(q@),
            strictly_ascending(c@),
            meets(xs@, a@, p@),
            forall|m: int| 0 <= m < xs@.len() ==> entry_of(p@, (#[trigger] xs@[m]).0, *xs@[m].1),
            out@.no_duplicates(),
            forall|tr: (u64, u64, u64)|
                #[trigger] out@.contains(tr) <==> path_rel(a@, p@, b@, q@, c@, tr) && exists|m: int|
                    0 <= m < i && xs@[m].0 == tr.0,
    {
        let (x, px) = xs[i];
        proof {
            lemma_residual(p@, x, *px);
        }
        let ys = intersect_v_e_v(px.as_slice(), q, b);
        for j in 0..ys.len()
            invariant
                strictly_ascending(a@),
                is_trie(p@),
                strictly_ascending(b@),
                is_trie(q@),
                strictly_ascending(c@),
                meets(xs@, a@, p@),
                0 <= i < xs@.len(),
                xs@[i as int] == (x, px),
                forall|y: u64| #[trigger] has(p@, x, y) <==> has_key(px@, y),
                meets3(ys@, px@, q@, b@),
                forall|m: int| 0 <= m < ys@.len() ==> entry_of(q@, (#[trigger] ys@[m]).0, *ys@[m].1),
                out@.no_duplicates(),
                forall|tr: (u64, u64, u64)|
                    #[trigger] out@.contains(tr) <==> path_rel(a@, p@, b@, q@, c@, tr) && ((exists|m: int|
                        0 <= m < i && xs@[m].0 == tr.0) || (tr.0 == x && exists|n: int|
                        0 <= n < j && ys@[n].0 == tr.1)),
        {
            let (y, qy) = ys[j];
            proof {
                lemma_residual(q@, y, *qy);
            }
            let zs = intersect_v_v(c, qy.as_slice());
            for l in 0..zs.len()
                invariant
                    meets(xs@, a@, p@),
                    0 <= i < xs@.len(),
                    xs@[i as int] == (x, px),
                    forall|y2: u64| #[trigger] has(p@, x, y2) <==> has_key(px@, y2),
                    forall|z: u64| #[trigger] has(q@, y, z) <==> has_key(qy@, z),
                    meets3(ys@, px@, q@, b@),
                    0 <= j < ys@.len(),
                    ys@[j as int] == (y, qy),
                    meets(zs@, c@, qy@),
                    out@.no_duplicates(),
                    forall|tr: (u64, u64, u64)|
                        #[trigger] out@.contains(tr) <==> path_rel(a@, p@, b@, q@, c@, tr) && ((exists|m: int|
                            0 <= m < i && xs@[m].0 == tr.0) || (tr.0 == x && ((exists|n: int|
                            0 <= n < j && ys@[n].0 == tr.1) || (tr.1 == y && exists|n: int|
                            0 <= n < l && zs@[n] == tr.2)))),
            {
                let z = zs[l];
                let ghost before = out@;
                proof {
                    assert(has_key(zs@, z));
                    assert(has_key(ys@, y));
                    assert(has_key(xs@, x));
                    assert(has_key(px@, y));
                    assert(has_key(qy@, z));
                    assert(path_rel(a@, p@, b@, q@, c@, (x, y, z)));
                    if before.contains((x, y, z)) {
                        if exists|m: int| 0 <= m < i && xs@[m].0 == x {
                            let m = choose|m: int| 0 <= m < i && xs@[m].0 == x;
                            assert(xs@[m].key_spec() < xs@[i as int].key_spec());
                        } else if exists|n: int| 0 <= n < j && ys@[n].0 == y {
                            let n = choose|n: int| 0 <= n < j && ys@[n].0 == y;
                            assert(ys@[n].key_spec() < ys@[j as int].key_spec());
                        } else {
                            let n = choose|n: int| 0 <= n < l && zs@[n] == z;
                            assert(zs@[n].key_spec() < zs@[l as int].key_spec());
                        }
                    }
                }
                out.push((x, y, z));
                proof {
                    lemma_contains_push(before, (x, y, z));
                }
            }
            proof {
                assert forall|tr: (u64, u64, u64)|
                    #[trigger] has(q@, tr.1, tr.2) && path_rel(a@, p@, b@, q@, c@, tr) && tr.0 == x && tr.1 == y implies exists|n: int|
                        0 <= n < zs@.len() && zs@[n] == tr.2 by {
                    assert(has_key(zs@, tr.2));
                }
            }
        }
        proof {
            assert forall|tr: (u64, u64, u64)|
                #[trigger] has(q@, tr.1, tr.2) && path_rel(a@, p@, b@, q@, c@, tr) && tr.0 == x implies exists|n: int|
                    0 <= n < ys@.len() && ys@[n].0 == tr.1 by {
                let k = choose|k: int| 0 <= k < q@.len() && q@[k].0 == tr.1 && has_key(q@[k].1@, tr.2);
                assert(has_key(q@, tr.1));
                assert(has_key(ys@, tr.1));
            }
        }
    }
    proof {
        assert forall|tr: (u64, u64, u64)| #[trigger] has(q@, tr.1, tr.2) && path_rel(a@, p@, b@, q@, c@, tr) implies exists|m: int|
            0 <= m < xs@.len() && xs@[m].0 == tr.0 by {
            let k = choose|k: int| 0 <= k < p@.len() && p@[k].0 == tr.0 && has_key(p@[k].1@, tr.1);
            assert(has_key(p@, tr.0));
            assert(has_key(xs@, tr.0));
        }
    }
    out
}

/// Pushing `x` adds `x` to what the sequence contains, and nothing else.
proof fn lemma_contains_push(s: Seq<(u64, u64, u64)>, x: (u64, u64, u64))
    ensures
        forall|tr: (u64, u64, u64)| #[trigger] s.push(x).contains(tr) <==> s.contains(tr) || tr == x,
{
    assert forall|tr: (u64, u64, u64)| #[trigger] s.push(x).contains(tr) <==> s.contains(tr) || tr == x by {
        if s.push(x).contains(tr) {
            let k = choose|k: int| 0 <= k < s.len() + 1 && s.push(x)[k] == tr;
            if k < s.len() {
                assert(s[k] == tr);
            }
        }
        if s.contains(tr) {
            let k = choose|k: int| 0 <= k < s.len() && s[k] == tr;
            assert(s.push(x)[k] == tr);
        }
        if tr == x {
            assert(s.push(x)[s.len() as int] == tr);
        }
    }
}


/// `y` in `b`, `p` relates `y` to `x`, `x` in `a`, `q` relates `y` to `z`,
/// `z` in `c`, for the triple `(y, x, z)`.
pub open spec fn star_rel(
    p: Seq<(u64, Vec<u64>)>,
    q: Seq<(u64, Vec<u64>)>,
    b: Seq<u64>,
    a: Seq<u64>,
    c: Seq<u64>,
    tr: (u64, u64, u64),
) -> bool {
    has_key(b, tr.0) && has(p, tr.0, tr.1) && has_key(a, tr.1) && has(q, tr.0, tr.2) && has_key(c, tr.2)
}

/// Joins a star around `y`: `p(y, x)`, `q(y, z)`, `b(y)`, then `a(x)`,
/// then `c(z)`.
fn star_join(
    p: &[(u64, Vec<u64>)],
    q: &[(u64, Vec<u64>)],
    b: &[u64],
    a: &[u64],
    c: &[u64],
) -> (out: Vec<(u64, u64, u64)>)
    requires
        is_trie(p@),
        is_trie(q@),
        strictly_ascending(b@),
        strictly_ascending(a@),
        strictly_ascending(c@),
    ensures
        lists(out@, |tr: (u64, u64, u64)| star_rel(p@, q@, b@, a@, c@, tr)),
{
    let ys = intersect_e_e_v(p, q, b);
    let mut out: Vec<(u64, u64, u64)> = Vec::new();
    for i in 0..ys.len()
        invariant
            is_trie(p@),
            is_trie(q@),
            strictly_ascending(b@),
            strictly_ascending(a@),
            strictly_ascending(c@),
            meets3(ys@, p@, q@, b@),
            forall|m: int|
                0 <= m < ys@.len() ==> entry_of(p@, (#[trigger] ys@[m]).0, *ys@[m].1) && entry_of(
                    q@,
                    ys@[m].0,
                    *ys@[m].2,
                ),
            out@.no_duplicates(),
            forall|tr: (u64, u64, u64)|
                #[trigger] out@.contains(tr) <==> star_rel(p@, q@, b@, a@, c@, tr) && exists|m: int|
                    0 <= m < i && ys@[m].0 == tr.0,
    {
        let (y, py, qy) = ys[i];
        proof {
            lemma_residual(p@, y, *py);
            lemma_residual(q@, y, *qy);
        }
        let xs = intersect_v_v(a, py.as_slice());
        for j in 0..xs.len()
            invariant
                strictly_ascending(c@),
                strictly_ascending(qy@),
                meets3(ys@, p@, q@, b@),
                0 <= i < ys@.len(),
                ys@[i as int] == (y, py, qy),
                forall|x: u64| #[trigger] has(p@, y, x) <==> has_key(py@, x),
                forall|z: u64| #[trigger] has(q@, y, z) <==> has_key(qy@, z),
                meets(xs@, a@, py@),
                out@.no_duplicates(),
                forall|tr: (u64, u64, u64)|
                    #[trigger] out@.contains(tr) <==> star_rel(p@, q@, b@, a@, c@, tr) && ((exists|m: int|
                        0 <= m < i && ys@[m].0 == tr.0) || (tr.0 == y && exists|n: int|
                        0 <= n < j && xs@[n] == tr.1)),
        {
            let x = xs[j];
            let zs = intersect_v_v(c, qy.as_slice());
            for l in 0..zs.len()
                invariant
                    meets3(ys@, p@, q@, b@),
                    0 <= i < ys@.len(),
                    ys@[i as int] == (y, py, qy),
                    forall|x2: u64| #[trigger] has(p@, y, x2) <==> has_key(py@, x2),
                    forall|z: u64| #[trigger] has(q@, y, z) <==> has_key(qy@, z),
                    meets(xs@, a@, py@),
                    0 <= j < xs@.len(),
                    xs@[j as int] == x,
                    meets(zs@, c@, qy@),
                    out@.no_duplicates(),
                    forall|tr: (u64, u64, u64)|
                        #[trigger] out@.contains(tr) <==> star_rel(p@, q@, b@, a@, c@, tr) && ((exists|m: int|
                            0 <= m < i && ys@[m].0 == tr.0) || (tr.0 == y && ((exists|n: int|
                            0 <= n < j && xs@[n] == tr.1) || (tr.1 == x && exists|n: int|
                            0 <= n < l && zs@[n] == tr.2)))),
            {
                let z = zs[l];
                let ghost before = out@;
                proof {
                    assert(has_key(zs@, z));
                    assert(has_key(xs@, x));
                    assert(has_key(ys@, y));
                    assert(has_key(py@, x));
                    assert(has_key(qy@, z));
                    assert(star_rel(p@, q@, b@, a@, c@, (y, x, z)));
                    if before.contains((y, x, z)) {
                        if exists|m: int| 0 <= m < i && ys@[m].0 == y {
                            let m = choose|m: int| 0 <= m < i && ys@[m].0 == y;
                            assert(ys@[m].key_spec() < ys@[i as int].key_spec());
                        } else if exists|n: int| 0 <= n < j && xs@[n] == x {
                            let n = choose|n: int| 0 <= n < j && xs@[n] == x;
                            assert(xs@[n].key_spec() < xs@[j as int].key_spec());
                        } else {
                            let n = choose|n: int| 0 <= n < l && zs@[n] == z;
                            assert(zs@[n].key_spec() < zs@[l as int].key_spec());
                        }
                    }
                }
                out.push((y, x, z));
                proof {
                    lemma_contains_push(before, (y, x, z));
                }
            }
            proof {
                assert forall|tr: (u64, u64, u64)|
                    #[trigger] has(q@, tr.0, tr.2) && star_rel(p@, q@, b@, a@, c@, tr) && tr.0 == y && tr.1 == x implies exists|n: int|
                        0 <= n < zs@.len() && zs@[n] == tr.2 by {
                    assert(has_key(zs@, tr.2));
                }
            }
        }
        proof {
            assert forall|tr: (u64, u64, u64)|
                #[trigger] has(p@, tr.0, tr.1) && star_rel(p@, q@, b@, a@, c@, tr) && tr.0 == y implies exists|n: int|
                    0 <= n < xs@.len() && xs@[n] == tr.1 by {
                assert(has_key(xs@, tr.1));
            }
        }
    }
    proof {
        assert forall|tr: (u64, u64, u64)| #[trigger] has(q@, tr.0, tr.2) && star_rel(p@, q@, b@, a@, c@, tr) implies exists|m: int|
            0 <= m < ys@.len() && ys@[m].0 == tr.0 by {
            let k = choose|k: int| 0 <= k < p@.len() && p@[k].0 == tr.0 && has_key(p@[k].1@, tr.1);
            let k2 = choose|k2: int| 0 <= k2 < q@.len() && q@[k2].0 == tr.0 && has_key(q@[k2].1@, tr.2);
            assert(has_key(p@, tr.0));
            assert(has_key(q@, tr.0));
            assert(has_key(ys@, tr.0));
        }
    }
    out
}

/// `x` in `a`, `p` relates `x` to `y`, `z` in `c`, `q` relates `z` to `y`,
/// `y` in `b`, for the triple `(x, z, y)`.
pub open spec fn meet_rel(
    a: Seq<u64>,
    p: Seq<(u64, Vec<u64>)>,
    c: Seq<u64>,
    q: Seq<(u64, Vec<u64>)>,
    b: Seq<u64>,
    tr: (u64, u64, u64),
) -> bool {
    has_key(a, tr.0) && has(p, tr.0, tr.2) && has_key(c, tr.1) && has(q, tr.1, tr.2) && has_key(b, tr.2)
}

/// Joins two paths that meet in `y`: `a(x), p(x, y)`, then `c(z), q(z, y)`,
/// then `y` in both residuals and in `b`.
fn meet_join(
    a: &[u64],
    p: &[(u64, Vec<u64>)],
    c: &[u64],
    q: &[(u64, Vec<u64>)],
    b: &[u64],
) -> (out: Vec<(u64, u64, u64)>)
    requires
        strictly_ascending(a@),
        is_trie(p@),
        strictly_ascending(c@),
        is_trie(q@),
        strictly_ascending(b@),
    ensures
        lists(out@, |tr: (u64, u64, u64)| meet_rel(a@, p@, c@, q@, b@, tr)),
{
    let xs = intersect_v_e(a, p);
    let mut out: Vec<(u64, u64, u64)> = Vec::new();
    for i in 0..xs.len()
        invariant
            strictly_ascending(a@),
            is_trie(p@),
            strictly_ascending(c@),
            is_trie(q@),
            strictly_ascending(b@),
            meets(xs@, a@, p@),
            forall|m: int| 0 <= m < xs@.len() ==> entry_of(p@, (#[trigger] xs@[m]).0, *xs@[m].1),
            out@.no_duplicates(),
            forall|tr: (u64, u64, u64)|
                #[trigger] out@.contains(tr) <==> meet_rel(a@, p@, c@, q@, b@, tr) && exists|m: int|
                    0 <= m < i && xs@[m].0 == tr.0,
    {
        let (x, px) = xs[i];
        proof {
            lemma_residual(p@, x, *px);
        }
        let zs = intersect_v_e(c, q);
        for j in 0..zs.len()
            invariant
                is_trie(q@),
                strictly_ascending(b@),
                strictly_ascending(px@),
                meets(xs@, a@, p@),
                0 <= i < xs@.len(),
                xs@[i as int] == (x, px),
                forall|y: u64| #[trigger] has(p@, x, y) <==> has_key(px@, y),
                meets(zs@, c@, q@),
                forall|m: int| 0 <= m < zs@.len() ==> entry_of(q@, (#[trigger] zs@[m]).0, *zs@[m].1),
                out@.no_duplicates(),
                forall|tr: (u64, u64, u64)|
                    #[trigger] out@.contains(tr) <==> meet_rel(a@, p@, c@, q@, b@, tr) && ((exists|m: int|
                        0 <= m < i && xs@[m].0 == tr.0) || (tr.0 == x && exists|n: int|
                        0 <= n < j && zs@[n].0 == tr.1)),
        {
            let (z, qz) = zs[j];
            proof {
                lemma_residual(q@, z, *qz);
            }
            let ys = intersect_v_v_v(px.as_slice(), qz.as_slice(), b);
            for l in 0..ys.len()
                invariant
                    meets(xs@, a@, p@),
                    0 <= i < xs@.len(),
                    xs@[i as int] == (x, px),
                    forall|y2: u64| #[trigger] has(p@, x, y2) <==> has_key(px@, y2),
                    forall|y2: u64| #[trigger] has(q@, z, y2) <==> has_key(qz@, y2),
                    meets(zs@, c@, q@),
                    0 <= j < zs@.len(),
                    zs@[j as int] == (z, qz),
                    meets3(ys@, px@, qz@, b@),
                    out@.no_duplicates(),
                    forall|tr: (u64, u64, u64)|
                        #[trigger] out@.contains(tr) <==> meet_rel(a@, p@, c@, q@, b@, tr) && ((exists|m: int|
                            0 <= m < i && xs@[m].0 == tr.0) || (tr.0 == x && ((exists|n: int|
                            0 <= n < j && zs@[n].0 == tr.1) || (tr.1 == z && exists|n: int|
                            0 <= n < l && ys@[n] == tr.2)))),
            {
                let y = ys[l];
                let ghost before = out@;
                proof {
                    assert(has_key(ys@, y));
                    assert(has_key(zs@, z));
                    assert(has_key(xs@, x));
                    assert(has_key(px@, y));
                    assert(has_key(qz@, y));
                    assert(meet_rel(a@, p@, c@, q@, b@, (x, z, y)));
                    if before.contains((x, z, y)) {
                        if exists|m: int| 0 <= m < i && xs@[m].0 == x {
                            let m = choose|m: int| 0 <= m < i && xs@[m].0 == x;
                            assert(xs@[m].key_spec() < xs@[i as int].key_spec());
                        } else if exists|n: int| 0 <= n < j && zs@[n].0 == z {
                            let n = choose|n: int| 0 <= n < j && zs@[n].0 == z;
                            assert(zs@[n].key_spec() < zs@[j as int].key_spec());
                        } else {
                            let n = choose|n: int| 0 <= n < l && ys@[n] == y;
                            assert(ys@[n].key_spec() < ys@[l as int].key_spec());
                        }
                    }
                }
                out.push((x, z, y));
                proof {
                    lemma_contains_push(before, (x, z, y));
                }
            }
            proof {
                assert forall|tr: (u64, u64, u64)|
                    #[trigger] has(q@, tr.1, tr.2) && meet_rel(a@, p@, c@, q@, b@, tr) && tr.0 == x && tr.1 == z implies exists|n: int|
                        0 <= n < ys@.len() && ys@[n] == tr.2 by {
                    assert(has_key(ys@, tr.2));
                }
            }
        }
        proof {
            assert forall|tr: (u64, u64, u64)|
                #[trigger] has(q@, tr.1, tr.2) && meet_rel(a@, p@, c@, q@, b@, tr) && tr.0 == x implies exists|n: int|
                    0 <= n < zs@.len() && zs@[n].0 == tr.1 by {
                let k = choose|k: int| 0 <= k < q@.len() && q@[k].0 == tr.1 && has_key(q@[k].1@, tr.2);
                assert(has_key(q@, tr.1));
                assert(has_key(zs@, tr.1));
            }
        }
    }
    proof {
        assert forall|tr: (u64, u64, u64)| #[trigger] has(p@, tr.0, tr.2) && meet_rel(a@, p@, c@, q@, b@, tr) implies exists|m: int|
            0 <= m < xs@.len() && xs@[m].0 == tr.0 by {
            let k = choose|k: int| 0 <= k < p@.len() && p@[k].0 == tr.0 && has_key(p@[k].1@, tr.2);
            assert(has_key(p@, tr.0));
            assert(has_key(xs@, tr.0));
        }
    }
    out
}


/// Keyword, movie, company triples of the movie query, keywords walked
/// first, then movies, then companies. `k`, `cn` and `t` are sets of
/// keyword, company and movie ids; `mc` is indexed on movie (to company),
/// `mk` on keyword (to movie).
pub fn imdb_kmc(
    k: &[u64],
    cn: &[u64],
    mc: &[(u64, Vec<u64>)],
    mk: &[(u64, Vec<u64>)],
    t: &[u64],
) -> (out: Vec<(u64, u64, u64)>)
    requires
        strictly_ascending(k@),
        strictly_ascending(cn@),
        is_trie(mc@),
        is_trie(mk@),
        strictly_ascending(t@),
    ensures
        lists(
            out@,
            |tr: (u64, u64, u64)|
                has_key(k@, tr.0) && has(mk@, tr.0, tr.1) && has_key(t@, tr.1) && has(mc@, tr.1, tr.2)
                    && has_key(cn@, tr.2),
        ),
{
    path_join(k, mk, t, mc, cn)
}

/// The movie query walked keywords, companies, then movies: `mc` is
/// indexed on company (to movie), `mk` on keyword (to movie).
pub fn imdb_kcm(
    k: &[u64],
    cn: &[u64],
    mc: &[(u64, Vec<u64>)],
    mk: &[(u64, Vec<u64>)],
    t: &[u64],
) -> (out: Vec<(u64, u64, u64)>)
    requires
        strictly_ascending(k@),
        strictly_ascending(cn@),
        is_trie(mc@),
        is_trie(mk@),
        strictly_ascending(t@),
    ensures
        lists(
            out@,
            |tr: (u64, u64, u64)|
                has_key(k@, tr.0) && has(mk@, tr.0, tr.1) && has_key(t@, tr.1) && has(mc@, tr.2, tr.1)
                    && has_key(cn@, tr.2),
        ),
{
    let v = meet_join(k, mk, cn, mc, t);
    let out = arrange(v, (0, 2, 1));
    proof {
        lemma_lists_arranged(
            v@,
            out@,
            (0, 2, 1),
            |x: (u64, u64, u64)| meet_rel(k@, mk@, cn@, mc@, t@, x),
            |tr: (u64, u64, u64)| (tr.0, tr.2, tr.1),
        );
    }
    out
}

/// The movie query walked movies, keywords, then companies: `mc` is
/// indexed on movie (to company), `mk` on movie (to keyword).
pub fn imdb_mkc(
    k: &[u64],
    cn: &[u64],
    mc: &[(u64, Vec<u64>)],
    mk: &[(u64, Vec<u64>)],
    t: &[u64],
) -> (out: Vec<(u64, u64, u64)>)
    requires
        strictly_ascending(k@),
        strictly_ascending(cn@),
        is_trie(mc@),
        is_trie(mk@),
        strictly_ascending(t@),
    ensures
        lists(
            out@,
            |tr: (u64, u64, u64)|
                has_key(k@, tr.0) && has(mk@, tr.1, tr.0) && has_key(t@, tr.1) && has(mc@, tr.1, tr.2)
                    && has_key(cn@, tr.2),
        ),
{
    let v = star_join(mk, mc, t, k, cn);
    let out = arrange(v, (1, 0, 2));
    proof {
        lemma_lists_arranged(
            v@,
            out@,
            (1, 0, 2),
            |x: (u64, u64, u64)| star_rel(mk@, mc@, t@, k@, cn@, x),
            |tr: (u64, u64, u64)| (tr.1, tr.0, tr.2),
        );
    }
    out
}

/// The movie query walked movies, companies, then keywords: `mc` is
/// indexed on movie (to company), `mk` on movie (to keyword).
pub fn imdb_mck(
    k: &[u64],
    cn: &[u64],
    mc: &[(u64, Vec<u64>)],
    mk: &[(u64, Vec<u64>)],
    t: &[u64],
) -> (out: Vec<(u64, u64, u64)>)
    requires
        strictly_ascending(k@),
        strictly_ascending(cn@),
        is_trie(mc@),
        is_trie(mk@),
        strictly_ascending(t@),
    ensures
        lists(
            out@,
            |tr: (u64, u64, u64)|
                has_key(k@, tr.0) && has(mk@, tr.1, tr.0) && has_key(t@, tr.1) && has(mc@, tr.1, tr.2)
                    && has_key(cn@, tr.2),
        ),
{
    let v = star_join(mc, mk, t, cn, k);
    let out = arrange(v, (2, 0, 1));
    proof {
        lemma_lists_arranged(
            v@,
            out@,
            (2, 0, 1),
            |x: (u64, u64, u64)| star_rel(mc@, mk@, t@, cn@, k@, x),
            |tr: (u64, u64, u64)| (tr.1, tr.2, tr.0),
        );
    }
    out
}

/// The movie query walked companies, movies, then keywords: `mc` is
/// indexed on company (to movie), `mk` on movie (to keyword).
pub fn imdb_cmk(
    k: &[u64],
    cn: &[u64],
    mc: &[(u64, Vec<u64>)],
    mk: &[(u64, Vec<u64>)],
    t: &[u64],
) -> (out: Vec<(u64, u64, u64)>)
    requires
        strictly_ascending(k@),
        strictly_ascending(cn@),
        is_trie(mc@),
        is_trie(mk@),
        strictly_ascending(t@),
    ensures
        lists(
            out@,
            |tr: (u64, u64, u64)|
                has_key(k@, tr.0) && has(mk@, tr.1, tr.0) && has_key(t@, tr.1) && has(mc@, tr.2, tr.1)
                    && has_key(cn@, tr.2),
        ),
{
    let v = path_join(cn, mc, t, mk, k);
    let out = arrange(v, (2, 1, 0));
    proof {
        lemma_lists_arranged(
            v@,
            out@,
            (2, 1, 0),
            |x: (u64, u64, u64)| path_rel(cn@, mc@, t@, mk@, k@, x),
            |tr: (u64, u64, u64)| (tr.2, tr.1, tr.0),
        );
    }
    out
}

/// The movie query walked companies, keywords, then movies: `mc` is
/// indexed on company (to movie), `mk` on keyword (to movie).
pub fn imdb_ckm(
    k: &[u64],
    cn: &[u64],
    mc: &[(u64, Vec<u64>)],
    mk: &[(u64, Vec<u64>)],
    t: &[u64],
) -> (out: Vec<(u64, u64, u64)>)
    requires
        strictly_ascending(k@),
        strictly_ascending(cn@),
        is_trie(mc@),
        is_trie(mk@),
        strictly_ascending(t@),
    ensures
        lists(
            out@,
            |tr: (u64, u64, u64)|
                has_key(k@, tr.0) && has(mk@, tr.0, tr.1) && has_key(t@, tr.1) && has(mc@, tr.2, tr.1)
                    && has_key(cn@, tr.2),
        ),
{
    let v = meet_join(cn, mc, k, mk, t);
    let out = arrange(v, (1, 2, 0));
    proof {
        lemma_lists_arranged(
            v@,
            out@,
            (1, 2, 0),
            |x: (u64, u64, u64)| meet_rel(cn@, mc@, k@, mk@, t@, x),
            |tr: (u64, u64, u64)| (tr.2, tr.0, tr.1),
        );
    }
    out
}

} // verus!
