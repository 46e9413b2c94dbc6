//! Bindings: what a match assigns to the variables of a pattern.

use vstd::prelude::*;
use crate::expression::{Expression, ExprView, Variable, canonical};

verus! {

/// Pairs of a variable and the expression bound to it; a later pair for the
/// same variable hides an earlier one.
#[derive(Debug)]
pub struct Bindings {
    pub entries: Vec<(Variable, Expression)>,
}

pub open spec fn bind_map(s: Seq<(Variable, Expression)>) -> Map<Seq<char>, ExprView>
    decreases s.len(),
{
    if s.len() == 0 {
        Map::empty()
    } else {
        bind_map(s.subrange(0, s.len() - 1)).insert(s[s.len() - 1].0.id.0@, s[s.len() - 1].1@)
    }
}

/// Every bound expression is well formed.
pub open spec fn values_canonical(m: Map<Seq<char>, ExprView>) -> bool {
    forall|k: Seq<char>| m.contains_key(k) ==> canonical(#[trigger] m[k])
}

impl View for Bindings {
    type V = Map<Seq<char>, ExprView>;

    open spec fn view(&self) -> Map<Seq<char>, ExprView> {
        bind_map(self.entries@)
    }
}

proof fn lemma_bind_map_push(s: Seq<(Variable, Expression)>, p: (Variable, Expression))
    ensures
        bind_map(s.push(p)) == bind_map(s).insert(p.0.id.0@, p.1@),
{
    assert(s.push(p).subrange(0, s.len() as int) =~= s);
}

/// A name is bound exactly when some pair names it.
proof fn lemma_bind_map_domain(s: Seq<(Variable, Expression)>, k: Seq<char>)
    ensures
        bind_map(s).contains_key(k) <==> exists|j: int| 0 <= j < s.len() && #[trigger] s[j].0.id.0@ == k,
    decreases s.len(),
{
    if s.len() > 0 {
        let t = s.subrange(0, s.len() - 1);
        lemma_bind_map_domain(t, k);
        if bind_map(t).contains_key(k) {
            let j = choose|j: int| 0 <= j < t.len() && #[trigger] t[j].0.id.0@ == k;
            assert(s[j].0.id.0@ == k);
        }
        if exists|j: int| 0 <= j < s.len() && #[trigger] s[j].0.id.0@ == k {
            let j = choose|j: int| 0 <= j < s.len() && #[trigger] s[j].0.id.0@ == k;
            if j < s.len() - 1 {
                assert(t[j].0.id.0@ == k);
            }
        }
    }
}

impl Bindings {
    pub fn new() -> (r: Bindings)
        ensures
            r@ == Map::<Seq<char>, ExprView>::empty(),
    {
        Bindings { entries: Vec::new() }
    }

    /// Bindings that hold the given pairs; a later pair for a variable wins.
    pub fn from_pairs(entries: Vec<(Variable, Expression)>) -> (r: Bindings)
        ensures
            r@ == bind_map(entries@),
    {
        Bindings { entries }
    }

    /// The expression bound to `v`, if any.
    pub fn get(&self, v: &Variable) -> (r: Option<&Expression>)
        ensures
            match r {
                Some(e) => self@.contains_key(v.id.0@) && self@[v.id.0@] == e@,
                None => !self@.contains_key(v.id.0@),
            },
    {
        let ghost k = v.id.0@;
        let mut i: usize = self.entries.len();
        assert(self.entries@.subrange(0, i as int) =~= self.entries@);
        while i > 0
            invariant
                i <= self.entries@.len(),
                k == v.id.0@,
                bind_map(self.entries@).contains_key(k) == bind_map(self.entries@.subrange(0, i as int)).contains_key(k),
                bind_map(self.entries@).contains_key(k) ==> bind_map(self.entries@)[k] == bind_map(
                    self.entries@.subrange(0, i as int),
                )[k],
            decreases i,
        {
            let ghost t = self.entries@.subrange(0, i as int);
            assert(t.subrange(0, i - 1) =~= self.entries@.subrange(0, i - 1));
            assert(t.len() == i);
            assert(bind_map(t) == bind_map(t.subrange(0, i - 1)).insert(t[i - 1].0.id.0@, t[i - 1].1@));
            if self.entries[i - 1].0.id.0 == v.id.0 {
                return Some(&self.entries[i - 1].1);
            }
            i = i - 1;
        }
        None
    }

    /// Binds `v` to `e`, hiding any earlier binding of `v`.
    pub fn insert(&mut self, v: Variable, e: Expression)
        ensures
            final(self)@ == old(self)@.insert(v.id.0@, e@),
    {
        proof {
            lemma_bind_map_push(self.entries@, (v, e));
        }
        self.entries.push((v, e));
    }

    pub fn len(&self) -> (r: usize)
        ensures
            r as nat >= self@.dom().len(),
    {
        proof {
            lemma_bind_map_finite(self.entries@);
        }
        self.entries.len()
    }

    /// A copy of the bindings.
    pub fn duplicate(&self) -> (r: Bindings)
        ensures
            r@ == self@,
    {
        let mut out: Vec<(Variable, Expression)> = Vec::new();
        let mut i: usize = 0;
        while i < self.entries.len()
            invariant
                i <= self.entries@.len(),
                out@.len() == i,
                forall|m: int| 0 <= m < i ==> #[trigger] out@[m].0 == self.entries@[m].0 && out@[m].1@ == self.entries@[m].1@,
            decreases self.entries@.len() - i,
        {
            let p = (self.entries[i].0.duplicate(), self.entries[i].1.duplicate());
            out.push(p);
            i = i + 1;
        }
        proof {
            lemma_bind_map_pointwise(out@, self.entries@);
        }
        Bindings { entries: out }
    }

    /// Whether both bind the same variables to equal expressions.
    pub fn same(&self, other: &Bindings) -> (r: bool)
        ensures
            r == (self@ == other@),
    {
        let mut i: usize = 0;
        while i < self.entries.len()
            invariant
                i <= self.entries@.len(),
                forall|m: int| 0 <= m < i ==> {
                    let k = #[trigger] self.entries@[m].0.id.0@;
                    &&& other@.contains_key(k)
                    &&& self@.contains_key(k)
                    &&& other@[k] == self@[k]
                },
            decreases self.entries@.len() - i,
        {
            proof {
                lemma_bind_map_domain(self.entries@, self.entries@[i as int].0.id.0@);
            }
            let a = self.get(&self.entries[i].0);
            let b = other.get(&self.entries[i].0);
            match (a, b) {
                (Some(x), Some(y)) => {
                    if !x.same(y) {
                        return false;
                    }
                },
                _ => {
                    return false;
                },
            }
            i = i + 1;
        }
        let mut j: usize = 0;
        while j < other.entries.len()
            invariant
                j <= other.entries@.len(),
                forall|m: int| 0 <= m < j ==> self@.contains_key(#[trigger] other.entries@[m].0.id.0@),
            decreases other.entries@.len() - j,
        {
            if self.get(&other.entries[j].0).is_none() {
                proof {
                    lemma_bind_map_domain(other.entries@, other.entries@[j as int].0.id.0@);
                }
                return false;
            }
            j = j + 1;
        }
        proof {
            assert forall|k: Seq<char>| #[trigger] self@.contains_key(k) <==> other@.contains_key(k)
                && (self@.contains_key(k) ==> self@[k] == other@[k]) by {
                lemma_bind_map_domain(self.entries@, k);
                lemma_bind_map_domain(other.entries@, k);
                if other@.contains_key(k) {
                    let m = choose|m: int| 0 <= m < other.entries@.len() && #[trigger] other.entries@[m].0.id.0@ == k;
                }
                if self@.contains_key(k) {
                    let m = choose|m: int| 0 <= m < self.entries@.len() && #[trigger] self.entries@[m].0.id.0@ == k;
                }
            }
            assert(self@ =~= other@);
        }
        true
    }
}

proof fn lemma_bind_map_finite(s: Seq<(Variable, Expression)>)
    ensures
        bind_map(s).dom().finite(),
        bind_map(s).dom().len() <= s.len(),
    decreases s.len(),
{
    if s.len() > 0 {
        lemma_bind_map_finite(s.subrange(0, s.len() - 1));
    }
}

proof fn lemma_bind_map_pointwise(s: Seq<(Variable, Expression)>, t: Seq<(Variable, Expression)>)
    requires
        s.len() == t.len(),
        forall|m: int| 0 <= m < s.len() ==> #[trigger] s[m].0 == t[m].0 && s[m].1@ == t[m].1@,
    ensures
        bind_map(s) == bind_map(t),
    decreases s.len(),
{
    if s.len() > 0 {
        lemma_bind_map_pointwise(s.subrange(0, s.len() - 1), t.subrange(0, t.len() - 1));
        assert(s[s.len() - 1].0 == t[t.len() - 1].0);
    }
}

impl PartialEq for Bindings {
    fn eq(&self, other: &Bindings) -> bool {
        self.same(other)
    }
}

impl vstd::std_specs::cmp::PartialEqSpecImpl for Bindings {
    open spec fn obeys_eq_spec() -> bool {
        true
    }

    open spec fn eq_spec(&self, other: &Bindings) -> bool {
        self@ == other@
    }
}

} // verus!
