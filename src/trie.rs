//! Relation tries over general values: one level per attribute, used by
//! the generic-join driver on relations of any arity.
use vstd::prelude::*;
use crate::value::{Val, ValView};

verus! {

/// A trie node: a leaf ends a tuple, an inner node maps each value of the
/// next attribute to the trie of the rest.
pub enum Trie {
    Leaf,
    Node(Vec<(Val, Trie)>),
}

/// The values of a tuple, seen through their views.
pub open spec fn view_tuple(t: Seq<Val>) -> Seq<ValView> {
    t.map_values(|v: Val| v@)
}

/// `p` is a prefix of `u`, or equal to it.
pub open spec fn is_prefix(p: Seq<ValView>, u: Seq<ValView>) -> bool {
    p.len() <= u.len() && u.subrange(0, p.len() as int) == p
}

impl Trie {
    /// Keys of each inner node are distinct and no inner node below the root
    /// is empty, all the way down.
    pub open spec fn wf(self) -> bool
        decreases self,
    {
        match self {
            Trie::Leaf => true,
            Trie::Node(es) => {
                &&& forall|i: int, j: int| 0 <= i < j < es.len() ==> es[i].0@ != es[j].0@
                &&& forall|i: int| 0 <= i < es.len() ==> (#[trigger] es[i]).1.wf() && es[i].1.nonempty()
            },
        }
    }

    /// A leaf, or an inner node with at least one entry.
    pub open spec fn nonempty(self) -> bool {
        match self {
            Trie::Leaf => true,
            Trie::Node(es) => es.len() > 0,
        }
    }

    /// The trie holds the tuple `u`.
    pub open spec fn holds(self, u: Seq<ValView>) -> bool
        decreases u.len(),
    {
        match self {
            Trie::Leaf => u.len() == 0,
            Trie::Node(es) => u.len() > 0 && exists|i: int|
                0 <= i < es.len() && (#[trigger] es[i]).0@ == u[0] && es[i].1.holds(u.drop_first()),
        }
    }

    /// Adding `u` meets no leaf before its end.
    pub open spec fn addable(self, u: Seq<ValView>) -> bool
        decreases u.len(),
    {
        if u.len() == 0 {
            true
        } else {
            match self {
                Trie::Leaf => false,
                Trie::Node(es) => forall|i: int|
                    0 <= i < es.len() && (#[trigger] es[i]).0@ == u[0] ==> es[i].1.addable(
                        u.drop_first(),
                    ),
            }
        }
    }

    /// The node is an inner node, not a leaf.
    pub open spec fn is_node(self) -> bool {
        self is Node
    }

    /// The entries of an inner node; none for a leaf.
    pub open spec fn entries(self) -> Seq<(Val, Trie)> {
        match self {
            Trie::Leaf => Seq::empty(),
            Trie::Node(es) => es@,
        }
    }

    /// The child under the key `k`, if the node has one.
    pub open spec fn child(self, k: ValView) -> Option<Trie> {
        let es = self.entries();
        if exists|i: int| 0 <= i < es.len() && (#[trigger] es[i]).0@ == k {
            let i = choose|i: int| 0 <= i < es.len() && (#[trigger] es[i]).0@ == k;
            Some(es[i].1)
        } else {
            None
        }
    }

    /// An empty inner node.
    pub fn new() -> (r: Trie)
        ensures
            r.wf(),
            r.is_node(),
            r.entries().len() == 0,
            forall|u: Seq<ValView>| !r.holds(u),
    {
        Trie::Node(Vec::new())
    }

    /// The number of distinct values of the first attribute.
    pub fn len(&self) -> (r: usize)
        requires
            self.is_node(),
        ensures
            r == self.entries().len(),
    {
        match self {
            Trie::Node(es) => es.len(),
            Trie::Leaf => 0,
        }
    }

    /// The position of the entry with key `k`, if any.
    fn find(es: &Vec<(Val, Trie)>, k: &Val) -> (r: Option<usize>)
        ensures
            match r {
                Some(i) => i < es@.len() && es@[i as int].0@ == k@,
                None => forall|i: int| 0 <= i < es@.len() ==> (#[trigger] es@[i]).0@ != k@,
            },
    {
        let mut i: usize = 0;
        while i < es.len()
            invariant
                i <= es@.len(),
                forall|j: int| 0 <= j < i ==> (#[trigger] es@[j]).0@ != k@,
            decreases es@.len() - i,
        {
            if es[i].0.same(k) {
                return Some(i);
            }
            i = i + 1;
        }
        None
    }

    /// The child under the key `k`.
    pub fn get<'a>(&'a self, k: &Val) -> (r: Option<&'a Trie>)
        requires
            self.wf(),
            self.is_node(),
        ensures
            match r {
                Some(c) => self.child(k@) == Some(*c) && c.wf(),
                None => self.child(k@) is None,
            },
    {
        match self {
            Trie::Node(es) => {
                match Self::find(es, k) {
                    Some(i) => {
                        proof {
                            assert(self.child(k@) == Some(es@[i as int].1)) by {
                                assert(self.entries() == es@);
                                assert((#[trigger] es@[i as int]).0@ == k@);
                                let j = choose|j: int| 0 <= j < es@.len() && (#[trigger] es@[j]).0@ == k@;
                                if j != i {
                                    if j < i {
                                        assert(es@[j].0@ != es@[i as int].0@);
                                    } else {
                                        assert(es@[i as int].0@ != es@[j].0@);
                                    }
                                }
                            }
                            assert(es@[i as int].1.wf());
                        }
                        Some(&es[i].1)
                    },
                    None => None,
                }
            },
            Trie::Leaf => None,
        }
    }

    /// Adds the tuple `t`: afterwards the trie holds `t`, and of what it held
    /// before all but the tuples that `t` is a prefix of.
    pub fn add(&mut self, t: &[Val])
        requires
            old(self).wf(),
            old(self).addable(view_tuple(t@)),
        ensures
            final(self).wf(),
            forall|u: Seq<ValView>|
                #[trigger] final(self).holds(u) <==> u == view_tuple(t@) || (old(self).holds(u)
                    && !is_prefix(view_tuple(t@), u)),
        decreases t@.len(),
    {
        let ghost tv = view_tuple(t@);
        let ghost old_self = *self;
        if t.len() == 0 {
            *self = Trie::Leaf;
            proof {
                assert forall|u: Seq<ValView>|
                    #[trigger] Trie::Leaf.holds(u) <==> u == tv || (old_self.holds(u) && !is_prefix(tv, u)) by {
                    assert(u.subrange(0, 0) =~= tv);
                    if u.len() == 0 {
                        assert(u =~= tv);
                    }
                }
            }
        } else {
            let ghost rest = view_tuple(t@.subrange(1, t@.len() as int));
            assert(rest =~= tv.drop_first());
            match self {
                Trie::Node(es) => {
                    let ghost es0 = es@;
                    let found = Self::find(es, &t[0]);
                    let idx = match found {
                        Some(i) => i,
                        None => {
                            es.push((t[0].copy_val(), Trie::new()));
                            es.len() - 1
                        },
                    };
                    let ghost es1 = es@;
                    proof {
                        assert(es1[idx as int].0@ == tv[0]);
                        assert(es1[idx as int].1.wf());
                        assert(es1[idx as int].1.addable(rest));
                    }
                    let (k, mut child) = es.remove(idx);
                    let ghost child0 = child;
                    child.add(&t[1..t.len()]);
                    es.insert(idx, (k, child));
                    proof {
                        let es2 = es@;
                        assert(es2 =~= es1.update(idx as int, (k, child)));
                        let new_self = Trie::Node(*es);
                        assert forall|i: int, j: int| 0 <= i < j < es2.len() implies es2[i].0@ != es2[j].0@ by {
                            if found is None {
                                if j == es1.len() - 1 {
                                    assert(es1[i] == es0[i]);
                                } else {
                                    assert(es1[i] == es0[i] && es1[j] == es0[j]);
                                }
                            }
                        }
                        assert(child.holds(rest));
                        assert forall|i: int| 0 <= i < es2.len() implies (#[trigger] es2[i]).1.wf()
                            && es2[i].1.nonempty() by {
                            if i != idx && found is None && i < es0.len() {
                                assert(es1[i] == es0[i]);
                            }
                        }
                        assert(new_self.wf());
                        assert forall|u: Seq<ValView>|
                            #[trigger] new_self.holds(u) <==> u == tv || (old_self.holds(u) && !is_prefix(tv, u)) by {
                            if u.len() > 0 && u[0] == tv[0] {
                                lemma_holds_at(new_self, idx as int, u);
                                if found is Some {
                                    lemma_holds_at(old_self, idx as int, u);
                                } else {
                                    lemma_holds_none(old_self, u);
                                }
                                assert(u == tv <==> u.drop_first() == rest) by {
                                    if u.drop_first() == rest {
                                        assert(u.len() == tv.len());
                                        assert forall|j: int| 0 <= j < u.len() implies u[j] == tv[j] by {
                                            if j > 0 {
                                                assert(u[j] == u.drop_first()[j - 1]);
                                                assert(tv[j] == tv.drop_first()[j - 1]);
                                            }
                                        }
                                        assert(u =~= tv);
                                    }
                                }
                                assert(is_prefix(tv, u) <==> is_prefix(rest, u.drop_first())) by {
                                    if is_prefix(rest, u.drop_first()) {
                                        assert forall|j: int| 0 <= j < tv.len() implies u.subrange(
                                            0,
                                            tv.len() as int,
                                        )[j] == tv[j] by {
                                            if j > 0 {
                                                assert(u[j] == u.drop_first()[j - 1]);
                                                assert(u.drop_first()[j - 1] == u.drop_first().subrange(
                                                    0,
                                                    rest.len() as int,
                                                )[j - 1]);
                                                assert(tv[j] == tv.drop_first()[j - 1]);
                                            }
                                        }
                                        assert(u.subrange(0, tv.len() as int) =~= tv);
                                    }
                                    if is_prefix(tv, u) {
                                        assert(u.drop_first().subrange(0, rest.len() as int) =~= rest);
                                    }
                                }
                            } else if u.len() > 0 {
                                assert(!is_prefix(tv, u)) by {
                                    if is_prefix(tv, u) {
                                        assert(u.subrange(0, tv.len() as int)[0] == u[0]);
                                    }
                                }
                                if new_self.holds(u) {
                                    let i = choose|i: int|
                                        0 <= i < es2.len() && (#[trigger] es2[i]).0@ == u[0] && es2[i].1.holds(
                                            u.drop_first(),
                                        );
                                    assert(i != idx);
                                    assert(es2[i] == es1[i]);
                                    assert(i < es0.len());
                                    assert(es1[i] == es0[i]);
                                    assert(old_self.holds(u));
                                }
                                if old_self.holds(u) {
                                    let i = choose|i: int|
                                        0 <= i < es0.len() && (#[trigger] es0[i]).0@ == u[0] && es0[i].1.holds(
                                            u.drop_first(),
                                        );
                                    assert(es1[i] == es0[i]);
                                    assert(i != idx);
                                    assert(es2[i] == es1[i]);
                                    assert(new_self.holds(u));
                                }
                            } else {
                                assert(u != tv);
                            }
                        }
                    }
                },
                Trie::Leaf => {
                    proof {
                        assert(!old_self.addable(tv));
                    }
                },
            }
        }
    }
}

/// The tuples of `ts`, each seen through the views of its values.
pub open spec fn tuples_of(ts: Seq<Vec<Val>>) -> Seq<Seq<ValView>> {
    ts.map_values(|t: Vec<Val>| view_tuple(t@))
}

/// No tuple of `ts` is a proper prefix of another.
pub open spec fn prefix_free(ts: Seq<Seq<ValView>>) -> bool {
    forall|i: int, j: int|
        0 <= i < ts.len() && 0 <= j < ts.len() && #[trigger] is_prefix(ts[i], ts[j]) ==> ts[i].len()
            == ts[j].len()
}

/// A trie that holds no proper prefix of `u` can take `u`.
proof fn lemma_addable(n: Trie, u: Seq<ValView>)
    requires
        n.wf(),
        forall|v: Seq<ValView>| #[trigger] n.holds(v) ==> !(is_prefix(v, u) && v.len() < u.len()),
    ensures
        n.addable(u),
    decreases u.len(),
{
    if u.len() > 0 {
        match n {
            Trie::Leaf => {
                assert(n.holds(Seq::<ValView>::empty()));
                assert(is_prefix(Seq::<ValView>::empty(), u)) by {
                    assert(u.subrange(0, 0) =~= Seq::<ValView>::empty());
                }
            },
            Trie::Node(es) => {
                assert forall|i: int| 0 <= i < es@.len() && (#[trigger] es@[i]).0@ == u[0] implies es@[i].1.addable(
                    u.drop_first(),
                ) by {
                    let c = es@[i].1;
                    assert(c.wf());
                    assert forall|v: Seq<ValView>| #[trigger] c.holds(v) implies !(is_prefix(v, u.drop_first())
                        && v.len() < u.drop_first().len()) by {
                        let w = seq![u[0]].add(v);
                        assert(w.drop_first() =~= v);
                        assert(n.holds(w));
                        if is_prefix(v, u.drop_first()) && v.len() < u.drop_first().len() {
                            assert(w.len() < u.len());
                            assert forall|j: int| 0 <= j < w.len() implies u.subrange(0, w.len() as int)[j]
                                == w[j] by {
                                if j > 0 {
                                    assert(w[j] == v[j - 1]);
                                    assert(u.drop_first().subrange(0, v.len() as int)[j - 1] == v[j - 1]);
                                }
                            }
                            assert(u.subrange(0, w.len() as int) =~= w);
                        }
                    }
                    lemma_addable(c, u.drop_first());
                }
            },
        }
    }
}

impl Trie {
    /// Builds a trie from tuples of which none is a proper prefix of
    /// another: it holds exactly those tuples.
    pub fn from_iter(ts: &[Vec<Val>]) -> (r: Trie)
        requires
            prefix_free(tuples_of(ts@)),
        ensures
            r.wf(),
            (forall|i: int| 0 <= i < ts@.len() ==> (#[trigger] tuples_of(ts@)[i]).len() > 0)
                ==> r.is_node(),
            forall|u: Seq<ValView>| #[trigger] r.holds(u) <==> tuples_of(ts@).contains(u),
    {
        let ghost tv = tuples_of(ts@);
        let mut r = Trie::new();
        for n in 0..ts.len()
            invariant
                tv == tuples_of(ts@),
                prefix_free(tv),
                r.wf(),
                n > 0 || r.is_node(),
                forall|u: Seq<ValView>|
                    #[trigger] r.holds(u) <==> exists|i: int| 0 <= i < n && tv[i] == u,
        {
            let ghost before = r;
            let ghost t = tv[n as int];
            assert(view_tuple(ts@[n as int]@) == t);
            proof {
                assert forall|v: Seq<ValView>| #[trigger] before.holds(v) implies !(is_prefix(v, t)
                    && v.len() < t.len()) by {
                    let i = choose|i: int| 0 <= i < n && tv[i] == v;
                    if is_prefix(v, t) {
                        assert(is_prefix(tv[i], tv[n as int]));
                    }
                }
                lemma_addable(before, t);
            }
            r.add(ts[n].as_slice());
            proof {
                assert forall|u: Seq<ValView>| #[trigger] r.holds(u) <==> exists|i: int|
                    0 <= i < n + 1 && tv[i] == u by {
                    if u == t {
                        assert(tv[n as int] == u);
                    }
                    if before.holds(u) && is_prefix(t, u) {
                        let i = choose|i: int| 0 <= i < n && tv[i] == u;
                        assert(is_prefix(tv[n as int], tv[i]));
                        assert(u.subrange(0, t.len() as int) == t);
                        assert(u =~= t);
                    }
                    if exists|i: int| 0 <= i < n + 1 && tv[i] == u {
                        let i = choose|i: int| 0 <= i < n + 1 && tv[i] == u;
                        if i < n {
                            assert(before.holds(u));
                        }
                    }
                }
            }
        }
        proof {
            if ts@.len() > 0 {
                assert(r.holds(tv[0]));
            }
            assert forall|u: Seq<ValView>| #[trigger] r.holds(u) <==> tv.contains(u) by {
                if tv.contains(u) {
                    let i = choose|i: int| 0 <= i < tv.len() && tv[i] == u;
                    assert(r.holds(tv[i]));
                }
            }
        }
        r
    }
}

/// Every trie of `ts` has a child under `k`.
pub open spec fn all_have<'a>(ts: Seq<&'a Trie>, k: ValView) -> bool {
    forall|j: int| 0 <= j < ts.len() ==> (#[trigger] ts[j].child(k)) is Some
}

/// Some entry of `out` has the key `k`.
pub open spec fn lists_key<'a>(out: Seq<(&'a Val, Vec<&'a Trie>)>, k: ValView) -> bool {
    exists|m: int| 0 <= m < out.len() && (#[trigger] out[m]).0@ == k
}

/// `out` pairs each key that `ts` all have, once, with the child of each.
pub open spec fn meets_all<'a>(out: Seq<(&'a Val, Vec<&'a Trie>)>, ts: Seq<&'a Trie>) -> bool {
    &&& forall|m: int, n: int| 0 <= m < n < out.len() ==> out[m].0@ != out[n].0@
    &&& forall|k: ValView| #[trigger] lists_key(out, k) <==> all_have(ts, k)
    &&& forall|m: int, j: int|
        0 <= m < out.len() && 0 <= j < ts.len() ==> (#[trigger] out[m]).1@.len() == ts.len()
            && #[trigger] ts[j].child(out[m].0@) == Some(*out[m].1@[j]) && out[m].1@[j].wf()
}

impl Trie {
    /// Whether the trie holds the tuple `t`, found by looking up one value
    /// after another.
    pub fn contains_tuple(&self, t: &[Val]) -> (r: bool)
        requires
            self.wf(),
        ensures
            r == self.holds(view_tuple(t@)),
        decreases t@.len(),
    {
        let ghost tv = view_tuple(t@);
        if t.len() == 0 {
            match self {
                Trie::Leaf => true,
                Trie::Node(_) => false,
            }
        } else {
            match self {
                Trie::Leaf => false,
                Trie::Node(es) => {
                    match self.get(&t[0]) {
                        Some(c) => {
                            proof {
                                let es_s = self.entries();
                                let i = choose|i: int| 0 <= i < es_s.len() && (#[trigger] es_s[i]).0@ == t@[0]@;
                                lemma_holds_at(*self, i, tv);
                                assert(view_tuple(t@.subrange(1, t@.len() as int)) =~= tv.drop_first());
                            }
                            c.contains_tuple(&t[1..t.len()])
                        },
                        None => {
                            proof {
                                lemma_holds_none(*self, tv);
                            }
                            false
                        },
                    }
                },
            }
        }
    }

    /// The keys of this node that every trie of `ts` has too, each with the
    /// child of each trie of `ts`; this node drives the walk.
    pub fn intersect<'a>(&'a self, ts: &[&'a Trie]) -> (out: Vec<(&'a Val, Vec<&'a Trie>)>)
        requires
            self.wf(),
            self.is_node(),
            forall|j: int| 0 <= j < ts@.len() ==> (#[trigger] ts@[j]).wf() && ts@[j].is_node(),
        ensures
            forall|m: int, n: int| 0 <= m < n < out@.len() ==> out@[m].0@ != out@[n].0@,
            forall|k: ValView| #[trigger] lists_key(out@, k) <==> self.child(k) is Some && all_have(ts@, k),
            forall|m: int, j: int|
                0 <= m < out@.len() && 0 <= j < ts@.len() ==> (#[trigger] out@[m]).1@.len() == ts@.len()
                    && #[trigger] ts@[j].child(out@[m].0@) == Some(*out@[m].1@[j]) && out@[m].1@[j].wf(),
    {
        let mut out: Vec<(&'a Val, Vec<&'a Trie>)> = Vec::new();
        match self {
            Trie::Leaf => {},
            Trie::Node(es) => {
                assert(forall|x: int, y: int| 0 <= x < y < es@.len() ==> es@[x].0@ != es@[y].0@);
                for i in 0..es.len()
                    invariant
                        self == Trie::Node(*es),
                        self.wf(),
                        forall|x: int, y: int| 0 <= x < y < es@.len() ==> es@[x].0@ != es@[y].0@,
                        forall|j: int| 0 <= j < ts@.len() ==> (#[trigger] ts@[j]).wf() && ts@[j].is_node(),
                        forall|m: int, n: int| 0 <= m < n < out@.len() ==> out@[m].0@ != out@[n].0@,
                        forall|k: ValView|
                            #[trigger] lists_key(out@, k) <==> (exists|i2: int|
                                0 <= i2 < i && (#[trigger] es@[i2]).0@ == k) && all_have(ts@, k),
                        forall|m: int, j: int|
                            0 <= m < out@.len() && 0 <= j < ts@.len() ==> (#[trigger] out@[m]).1@.len()
                                == ts@.len() && #[trigger] ts@[j].child(out@[m].0@) == Some(*out@[m].1@[j])
                                && out@[m].1@[j].wf(),
                {
                    let a = &es[i].0;
                    let mut children: Vec<&'a Trie> = Vec::new();
                    let mut all = true;
                    let mut j: usize = 0;
                    while j < ts.len() && all
                        invariant
                            j <= ts@.len(),
                            forall|j2: int| 0 <= j2 < ts@.len() ==> (#[trigger] ts@[j2]).wf() && ts@[j2].is_node(),
                            all ==> children@.len() == j,
                            all ==> forall|j2: int|
                                0 <= j2 < j ==> #[trigger] ts@[j2].child(a@) == Some(*children@[j2])
                                    && children@[j2].wf(),
                            !all ==> exists|j2: int| 0 <= j2 < ts@.len() && (#[trigger] ts@[j2].child(a@)) is None,
                        decreases ts@.len() - j,
                    {
                        match ts[j].get(a) {
                            Some(c) => children.push(c),
                            None => {
                                all = false;
                            },
                        }
                        j = j + 1;
                    }
                    let ghost before = out@;
                    if all {
                        proof {
                            assert forall|m: int| 0 <= m < before.len() implies before[m].0@ != a@ by {
                                assert(lists_key(before, before[m].0@));
                                let i2 = choose|i2: int| 0 <= i2 < i && (#[trigger] es@[i2]).0@ == before[m].0@;
                                assert(es@[i2].0@ != es@[i as int].0@);
                            }
                        }
                        out.push((a, children));
                    }
                    proof {
                        assert forall|k: ValView|
                            #[trigger] lists_key(out@, k) <==> (exists|i2: int|
                                0 <= i2 < i + 1 && (#[trigger] es@[i2]).0@ == k) && all_have(ts@, k) by {
                            if exists|m: int| 0 <= m < out@.len() && (#[trigger] out@[m]).0@ == k {
                                let m = choose|m: int| 0 <= m < out@.len() && (#[trigger] out@[m]).0@ == k;
                                if m < before.len() {
                                    assert(out@[m] == before[m]);
                                    assert(lists_key(before, k));
                                    let i2 = choose|i2: int| 0 <= i2 < i && (#[trigger] es@[i2]).0@ == k;
                                    assert(0 <= i2 < i + 1 && es@[i2].0@ == k);
                                } else {
                                    assert(es@[i as int].0@ == k);
                                    assert forall|j2: int| 0 <= j2 < ts@.len() implies (#[trigger] ts@[j2].child(k)) is Some by {
                                        assert(ts@[j2].child(a@) == Some(*children@[j2]));
                                    }
                                }
                            }
                            if (exists|i2: int| 0 <= i2 < i + 1 && (#[trigger] es@[i2]).0@ == k) && all_have(ts@, k) {
                                let i2 = choose|i2: int| 0 <= i2 < i + 1 && (#[trigger] es@[i2]).0@ == k;
                                if i2 < i {
                                    assert(lists_key(before, k));
                                    let m = choose|m: int| 0 <= m < before.len() && (#[trigger] before[m]).0@ == k;
                                    assert(out@[m] == before[m]);
                                    assert(lists_key(out@, k));
                                } else {
                                    assert(k == a@);
                                    assert(all);
                                    assert(out@[before.len() as int].0@ == k);
                                    assert(lists_key(out@, k));
                                }
                            }
                        }
                    }
                }
                proof {
                    assert forall|k: ValView| self.child(k) is Some <==> exists|i2: int| 0 <= i2 < es@.len() && (#[trigger] es@[i2]).0@ == k by {
                        assert(self.entries() == es@);
                    }
                }
            },
        }
        out
    }

    /// The keys that all tries of `ts` share, each with the child of each;
    /// the trie with the fewest keys drives the walk.
    pub fn inter_min<'a>(ts: &[&'a Trie]) -> (out: Vec<(&'a Val, Vec<&'a Trie>)>)
        requires
            ts@.len() > 0,
            forall|j: int| 0 <= j < ts@.len() ==> (#[trigger] ts@[j]).wf() && ts@[j].is_node(),
        ensures
            meets_all(out@, ts@),
    {
        let mut best: usize = 0;
        let mut j: usize = 1;
        while j < ts.len()
            invariant
                best < ts@.len(),
                1 <= j <= ts@.len(),
                forall|j2: int| 0 <= j2 < ts@.len() ==> (#[trigger] ts@[j2]).wf() && ts@[j2].is_node(),
            decreases ts@.len() - j,
        {
            if ts[j].len() < ts[best].len() {
                best = j;
            }
            j = j + 1;
        }
        let out = ts[best].intersect(ts);
        proof {
            assert forall|k: ValView| #[trigger] lists_key(out@, k) <==> all_have(ts@, k) by {
                if all_have(ts@, k) {
                    assert(ts@[best as int].child(k) is Some);
                }
            }
        }
        out
    }
}

/// Building a trie from tuples of which none is a proper prefix of another,
/// then looking a tuple up value by value, finds exactly the tuples that
/// were put in: each of them, and nothing else.
pub proof fn lemma_round_trip(ts: Seq<Vec<Val>>, trie: Trie, u: Seq<Val>, found: bool)
    requires
        prefix_free(tuples_of(ts)),
        forall|v: Seq<ValView>| #[trigger] trie.holds(v) <==> tuples_of(ts).contains(v),
        found == trie.holds(view_tuple(u)),
    ensures
        found <==> tuples_of(ts).contains(view_tuple(u)),
{
}

/// A child found under a key is the child of one of the entries.
pub proof fn lemma_child_entry(n: Trie, k: ValView)
    requires
        n.child(k) is Some,
    ensures
        exists|i: int|
            0 <= i < n.entries().len() && (#[trigger] n.entries()[i]).0@ == k && n.entries()[i].1
                == n.child(k)->0,
{
}

/// A well-formed trie that is a leaf or a non-empty node holds a tuple.
pub proof fn lemma_nonempty_holds(t: Trie) -> (u: Seq<ValView>)
    requires
        t.wf(),
        t.nonempty(),
    ensures
        t.holds(u),
    decreases t,
{
    match t {
        Trie::Leaf => Seq::empty(),
        Trie::Node(es) => {
            let e = es@[0];
            assert(e.1.wf() && e.1.nonempty());
            let w = lemma_nonempty_holds(e.1);
            let u = seq![e.0@].add(w);
            assert(u.drop_first() =~= w);
            assert(es@[0].0@ == u[0]);
            u
        },
    }
}

/// In a well-formed inner node, the child under the key of an entry is
/// that entry's child.
pub proof fn lemma_child_at(n: Trie, i: int)
    requires
        n.wf(),
        n.is_node(),
        0 <= i < n.entries().len(),
    ensures
        n.child(n.entries()[i].0@) == Some(n.entries()[i].1),
{
    let es = n.entries();
    let k = es[i].0@;
    assert((#[trigger] es[i]).0@ == k);
    let j = choose|j: int| 0 <= j < es.len() && (#[trigger] es[j]).0@ == k;
    if j < i {
        assert(es[j].0@ != es[i].0@);
    } else if j > i {
        assert(es[i].0@ != es[j].0@);
    }
}

/// A node holds each tuple of a child, behind the child's key.
pub proof fn lemma_holds_cons(n: Trie, i: int, w: Seq<ValView>)
    requires
        n.is_node(),
        0 <= i < n.entries().len(),
        n.entries()[i].1.holds(w),
    ensures
        n.holds(seq![n.entries()[i].0@].add(w)),
{
    let u = seq![n.entries()[i].0@].add(w);
    assert(u.drop_first() =~= w);
    assert((#[trigger] n.entries()[i]).0@ == u[0]);
}

/// In a well-formed inner node, a tuple goes through the one entry that
/// has its first value.
pub proof fn lemma_holds_at(n: Trie, i: int, u: Seq<ValView>)
    requires
        n.wf(),
        n.is_node(),
        0 <= i < n.entries().len(),
        u.len() > 0,
        n.entries()[i].0@ == u[0],
    ensures
        n.holds(u) == n.entries()[i].1.holds(u.drop_first()),
{
    let es = n.entries();
    if n.holds(u) {
        let j = choose|j: int| 0 <= j < es.len() && (#[trigger] es[j]).0@ == u[0] && es[j].1.holds(u.drop_first());
        if j < i {
            assert(es[j].0@ != es[i].0@);
        } else if j > i {
            assert(es[i].0@ != es[j].0@);
        }
    }
    if es[i].1.holds(u.drop_first()) {
        assert((#[trigger] es[i]).0@ == u[0]);
    }
}

/// An inner node with no entry for the first value of `u` does not hold it.
pub proof fn lemma_holds_none(n: Trie, u: Seq<ValView>)
    requires
        n.is_node(),
        forall|i: int| 0 <= i < n.entries().len() ==> (#[trigger] n.entries()[i]).0@ != u[0],
    ensures
        !n.holds(u),
{
    if n.holds(u) {
        let es = n.entries();
        let i = choose|i: int| 0 <= i < es.len() && (#[trigger] es[i]).0@ == u[0] && es[i].1.holds(u.drop_first());
        assert(n.entries()[i].0@ != u[0]);
    }
}

} // verus!