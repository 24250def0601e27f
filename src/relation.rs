//! Relations as sequences of pairs, and what it means to list the result
//! of a join.
use vstd::prelude::*;

verus! {

/// `out` lists, once each, exactly the triples that satisfy `rel`.
pub open spec fn lists(out: Seq<(u64, u64, u64)>, rel: spec_fn((u64, u64, u64)) -> bool) -> bool {
    &&& out.no_duplicates()
    &&& forall|tr: (u64, u64, u64)| #[trigger] out.contains(tr) <==> rel(tr)
}

/// `(x, y, z)` is a triangle of `R(x, y)`, `S(y, z)`, `T(z, x)`: each
/// relation holds the pair that the triple binds.
pub open spec fn triangle_of(
    r: Seq<(u64, u64)>,
    s: Seq<(u64, u64)>,
    t: Seq<(u64, u64)>,
    tr: (u64, u64, u64),
) -> bool {
    r.contains((tr.0, tr.1)) && s.contains((tr.1, tr.2)) && t.contains((tr.2, tr.0))
}

/// Two listings of one relation hold the same triples, as many times each.
pub proof fn lemma_listings_agree(
    a: Seq<(u64, u64, u64)>,
    b: Seq<(u64, u64, u64)>,
    rel_a: spec_fn((u64, u64, u64)) -> bool,
    rel_b: spec_fn((u64, u64, u64)) -> bool,
)
    requires
        lists(a, rel_a),
        lists(b, rel_b),
        forall|tr: (u64, u64, u64)| #[trigger] rel_a(tr) == rel_b(tr),
    ensures
        a.len() == b.len(),
        a.to_multiset() =~= b.to_multiset(),
{
    assert(a.to_set() =~= b.to_set());
    a.unique_seq_to_set();
    b.unique_seq_to_set();
    a.lemma_multiset_has_no_duplicates();
    b.lemma_multiset_has_no_duplicates();
    assert forall|tr: (u64, u64, u64)| a.to_multiset().count(tr) == b.to_multiset().count(tr) by {
        broadcast use vstd::seq_lib::to_multiset_contains;
        if a.contains(tr) {
            assert(a.to_multiset().contains(tr));
            assert(b.to_multiset().contains(tr));
        } else {
            assert(!a.to_multiset().contains(tr));
            assert(!b.to_multiset().contains(tr));
        }
    }
}

/// `r` is an outcome of folding `f` over `ts` from `init`: some run of
/// accumulators starts at `init`, ends at `r`, and each step is what `f`
/// gives for the accumulator so far and the next triple.
pub open spec fn folds<R, F: Fn(R, (u64, u64, u64)) -> R>(
    f: F,
    init: R,
    ts: Seq<(u64, u64, u64)>,
    r: R,
) -> bool {
    exists|accs: Seq<R>|
        {
            &&& accs.len() == ts.len() + 1
            &&& accs[0] == init
            &&& accs[ts.len() as int] == r
            &&& forall|k: int| 0 <= k < ts.len() ==> f.ensures((#[trigger] accs[k], ts[k]), accs[k + 1])
        }
}

/// Aggregates a join result with a caller's reduction: starts from `init`
/// and folds `f` over the triples in order (a count, a collection, a
/// nested join).
pub fn aggregate<R, F: Fn(R, (u64, u64, u64)) -> R>(ts: &Vec<(u64, u64, u64)>, init: R, f: F) -> (r: R)
    requires
        forall|acc: R, tr: (u64, u64, u64)| f.requires((acc, tr)),
    ensures
        folds(f, init, ts@, r),
{
    let ghost start = init;
    let ghost mut accs: Seq<R> = seq![init];
    let mut acc = init;
    for i in 0..ts.len()
        invariant
            forall|a: R, tr: (u64, u64, u64)| f.requires((a, tr)),
            accs.len() == i + 1,
            accs[0] == start,
            accs[i as int] == acc,
            forall|k: int| 0 <= k < i ==> f.ensures((#[trigger] accs[k], ts@[k]), accs[k + 1]),
    {
        let ghost before = accs;
        acc = f(acc, ts[i]);
        proof {
            accs = accs.push(acc);
            assert forall|k: int| 0 <= k < i + 1 implies f.ensures((#[trigger] accs[k], ts@[k]), accs[k + 1]) by {
                if k < i {
                    assert(accs[k] == before[k] && accs[k + 1] == before[k + 1]);
                }
            }
        }
    }
    assert(accs.len() == ts@.len() + 1 && accs[0] == start && accs[ts@.len() as int] == acc);
    acc
}

} // verus!
