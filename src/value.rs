//! The scalar domain that relations hold.
use vstd::prelude::*;
use vstd::std_specs::iter::IteratorSpec;

verus! {

/// Attribute values of the binary relations: plain integers.
pub type Value = u64;

/// A general attribute value, for tries over tuples of mixed type.
#[derive(Debug, Clone, Hash)]
pub enum Val {
    Int(u64),
    Str(String),
    Boo(bool),
}

/// What a `Val` stands for: the string payload seen as its characters.
pub enum ValView {
    Int(u64),
    Str(Seq<char>),
    Boo(bool),
}

impl View for Val {
    type V = ValView;

    open spec fn view(&self) -> ValView {
        match self {
            Val::Int(n) => ValView::Int(*n),
            Val::Str(s) => ValView::Str(s@),
            Val::Boo(b) => ValView::Boo(*b),
        }
    }
}

impl Val {
    /// Whether two values are equal.
    pub fn same(&self, other: &Val) -> (r: bool)
        ensures
            r == (self@ == other@),
    {
        match (self, other) {
            (Val::Int(a), Val::Int(b)) => *a == *b,
            (Val::Str(a), Val::Str(b)) => *a == *b,
            (Val::Boo(a), Val::Boo(b)) => *a == *b,
            _ => false,
        }
    }

    /// A copy of the value.
    pub fn copy_val(&self) -> (r: Val)
        ensures
            r@ == self@,
    {
        match self {
            Val::Int(n) => Val::Int(*n),
            Val::Str(s) => Val::Str(s.clone()),
            Val::Boo(b) => Val::Boo(*b),
        }
    }
}

impl PartialEq for Val {
    fn eq(&self, other: &Val) -> (r: bool) {
        self.same(other)
    }
}

impl vstd::std_specs::cmp::PartialEqSpecImpl for Val {
    open spec fn obeys_eq_spec() -> bool {
        true
    }

    open spec fn eq_spec(&self, other: &Val) -> bool {
        self@ == other@
    }
}

impl Eq for Val {
}

/// Strings in lexicographic order of their characters: a proper prefix
/// comes first, else the first differing character decides.
pub open spec fn chars_lt(a: Seq<char>, b: Seq<char>) -> bool
    decreases a.len(),
{
    if a.len() == 0 {
        b.len() > 0
    } else if b.len() == 0 {
        false
    } else if a[0] != b[0] {
        a[0] < b[0]
    } else {
        chars_lt(a.drop_first(), b.drop_first())
    }
}

/// The order of values: every integer before every string, every string
/// before every boolean; integers by number, strings by `chars_lt`, `false`
/// before `true`.
pub open spec fn val_lt(a: ValView, b: ValView) -> bool {
    match (a, b) {
        (ValView::Int(x), ValView::Int(y)) => x < y,
        (ValView::Str(x), ValView::Str(y)) => chars_lt(x, y),
        (ValView::Boo(x), ValView::Boo(y)) => !x && y,
        (ValView::Int(_), _) => true,
        (ValView::Str(_), ValView::Boo(_)) => true,
        _ => false,
    }
}

/// Of two strings exactly one comes first, unless they are equal.
pub proof fn lemma_chars_trichotomy(a: Seq<char>, b: Seq<char>)
    ensures
        a == b || chars_lt(a, b) || chars_lt(b, a),
        !(chars_lt(a, b) && chars_lt(b, a)),
        !chars_lt(a, a),
    decreases a.len(),
{
    if a.len() > 0 && b.len() > 0 {
        lemma_chars_trichotomy(a.drop_first(), b.drop_first());
        lemma_chars_trichotomy(a.drop_first(), a.drop_first());
        if a[0] == b[0] && a.drop_first() == b.drop_first() {
            assert(a =~= seq![a[0]].add(a.drop_first()));
            assert(b =~= seq![b[0]].add(b.drop_first()));
        }
    } else if a.len() > 0 {
        lemma_chars_trichotomy(a.drop_first(), a.drop_first());
    } else if b.len() == 0 {
        assert(a =~= b);
    }
}

/// The order of values is total: of two different values exactly one comes
/// first, and no value comes before itself.
pub proof fn lemma_val_order_total(a: ValView, b: ValView)
    ensures
        a == b || val_lt(a, b) || val_lt(b, a),
        !(val_lt(a, b) && val_lt(b, a)),
        !val_lt(a, a),
{
    match (a, b) {
        (ValView::Str(x), ValView::Str(y)) => {
            lemma_chars_trichotomy(x, y);
        },
        (ValView::Str(x), _) => {
            lemma_chars_trichotomy(x, x);
        },
        _ => {},
    }
}

/// The characters of a string.
fn chars_of(s: &String) -> (v: Vec<char>)
    ensures
        v@ == s@,
{
    broadcast use vstd::string::axiom_spec_iter;
    let mut v: Vec<char> = Vec::new();
    let iter = s.as_str().chars();
    let ghost items = iter.remaining();
    assert(items == s@);
    for ch in it: iter
        invariant
            it.seq() == items,
            v@ == items.subrange(0, it.index()),
    {
        v.push(ch);
        assert(v@ =~= items.subrange(0, it.index() + 1));
    }
    assert(v@ =~= items);
    v
}

/// Whether the characters `a` come before `b`.
fn chars_less(a: &Vec<char>, b: &Vec<char>) -> (r: bool)
    ensures
        r == chars_lt(a@, b@),
{
    let mut i: usize = 0;
    assert(a@.skip(0) =~= a@);
    assert(b@.skip(0) =~= b@);
    while i < a.len() && i < b.len() && a[i] == b[i]
        invariant
            i <= a@.len(),
            i <= b@.len(),
            chars_lt(a@, b@) == chars_lt(a@.skip(i as int), b@.skip(i as int)),
        decreases a@.len() - i,
    {
        assert(a@.skip(i as int).drop_first() =~= a@.skip(i + 1));
        assert(b@.skip(i as int).drop_first() =~= b@.skip(i + 1));
        i = i + 1;
    }
    if i == a.len() {
        i < b.len()
    } else if i == b.len() {
        false
    } else {
        a[i] < b[i]
    }
}

impl Val {
    /// Whether this value comes before `other` in the order of values.
    pub fn less_than(&self, other: &Val) -> (r: bool)
        ensures
            r == val_lt(self@, other@),
    {
        match (self, other) {
            (Val::Int(x), Val::Int(y)) => *x < *y,
            (Val::Str(x), Val::Str(y)) => {
                let xs = chars_of(x);
                let ys = chars_of(y);
                chars_less(&xs, &ys)
            },
            (Val::Boo(x), Val::Boo(y)) => !*x && *y,
            (Val::Int(_), _) => true,
            (Val::Str(_), Val::Boo(_)) => true,
            _ => false,
        }
    }
}

} // verus!
