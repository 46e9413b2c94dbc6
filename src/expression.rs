//! Expressions: variables, literals, unary operators and associative-commutative
//! variadic operators whose children are kept as a sorted multiset.

use vstd::prelude::*;
use vstd::multiset::Multiset;
use crate::order::{lex_lt, lemma_lex_irreflexive, lemma_lex_asymmetric, lemma_lex_total, lemma_lex_lt_le, lemma_lex_antisymmetric, lex_less};

verus! {

broadcast use vstd::std_specs::vec::group_vec_axioms;

/// The mathematical value of an expression. The children of a variadic are a
/// sequence that, in a well-formed expression, is sorted by `code`, so that
/// equal multisets of children give equal values.
pub enum ExprView {
    Var(Seq<char>),
    Int(i32),
    Const(Seq<char>),
    Unary(UnaryView, Box<ExprView>),
    Variadic(VariadicKind, Seq<ExprView>),
}

pub enum UnaryView {
    Negation,
    Reciprocal,
    Named(Seq<char>),
}

#[derive(Debug, Hash)]
pub enum Expression {
    Concrete(Concrete),
    Variable(Variable),
}

#[derive(Debug, Hash)]
pub enum Concrete {
    Variadic(Variadic),
    Unary(Unary),
    Literal(Literal),
}

#[derive(Debug, Hash)]
pub struct Variadic {
    pub terms: MultiSet,
    pub kind: VariadicKind,
}

#[derive(Clone, Copy, Debug, PartialEq, Eq, Structural, PartialOrd, Ord, Hash)]
pub enum VariadicKind {
    Addition,
    Multiplication,
}

#[derive(Debug, Hash)]
pub struct Unary {
    pub argument: Box<Expression>,
    pub kind: UnaryKind,
}

#[derive(Debug, Hash)]
pub enum UnaryKind {
    Negation,
    Reciprocal,
    Named { id: FuncId },
}

#[derive(Debug, Hash)]
pub struct FuncId(pub String);

#[derive(Debug, Hash)]
pub struct Literal {
    pub value: LiteralValue,
}

#[derive(Debug, Hash)]
pub enum LiteralValue {
    Integer(i32),
    Constant(String),
}

#[derive(Debug, Hash)]
pub struct Variable {
    pub id: VarId,
}

#[derive(Debug, Hash)]
pub struct VarId(pub String);

/// The children of a variadic, in the order of their codes.
#[derive(Debug, Hash)]
pub struct MultiSet {
    pub items: Vec<Expression>,
}

pub open spec fn unary_view(k: UnaryKind) -> UnaryView {
    match k {
        UnaryKind::Negation => UnaryView::Negation,
        UnaryKind::Reciprocal => UnaryView::Reciprocal,
        UnaryKind::Named { id } => UnaryView::Named(id.0@),
    }
}

pub open spec fn literal_view(v: LiteralValue) -> ExprView {
    match v {
        LiteralValue::Integer(i) => ExprView::Int(i),
        LiteralValue::Constant(s) => ExprView::Const(s@),
    }
}

pub open spec fn expr_view(e: Expression) -> ExprView
    decreases e,
{
    match e {
        Expression::Variable(v) => ExprView::Var(v.id.0@),
        Expression::Concrete(Concrete::Literal(l)) => literal_view(l.value),
        Expression::Concrete(Concrete::Unary(u)) => ExprView::Unary(
            unary_view(u.kind),
            Box::new(expr_view(*u.argument)),
        ),
        Expression::Concrete(Concrete::Variadic(v)) => ExprView::Variadic(
            v.kind,
            views_of(v.terms.items@),
        ),
    }
}

pub open spec fn views_of(s: Seq<Expression>) -> Seq<ExprView>
    decreases s,
{
    if s.len() == 0 {
        Seq::empty()
    } else {
        views_of(s.subrange(0, s.len() - 1)).push(expr_view(s[s.len() - 1]))
    }
}

impl View for Expression {
    type V = ExprView;

    open spec fn view(&self) -> ExprView {
        expr_view(*self)
    }
}

impl View for UnaryKind {
    type V = UnaryView;

    open spec fn view(&self) -> UnaryView {
        unary_view(*self)
    }
}

impl View for LiteralValue {
    type V = ExprView;

    open spec fn view(&self) -> ExprView {
        literal_view(*self)
    }
}

impl View for MultiSet {
    type V = Seq<ExprView>;

    open spec fn view(&self) -> Seq<ExprView> {
        views_of(self.items@)
    }
}

impl View for Variadic {
    type V = ExprView;

    open spec fn view(&self) -> ExprView {
        ExprView::Variadic(self.kind, self.terms@)
    }
}

impl View for Unary {
    type V = ExprView;

    open spec fn view(&self) -> ExprView {
        ExprView::Unary(self.kind@, Box::new((*self.argument)@))
    }
}

impl View for Literal {
    type V = ExprView;

    open spec fn view(&self) -> ExprView {
        self.value@
    }
}

impl View for Variable {
    type V = ExprView;

    open spec fn view(&self) -> ExprView {
        ExprView::Var(self.id.0@)
    }
}

pub proof fn lemma_views_of(s: Seq<Expression>)
    ensures
        views_of(s).len() == s.len(),
        forall|i: int| 0 <= i < s.len() ==> #[trigger] views_of(s)[i] == s[i]@,
    decreases s.len(),
{
    if s.len() > 0 {
        lemma_views_of(s.subrange(0, s.len() - 1));
    }
}

pub proof fn lemma_views_of_push(s: Seq<Expression>, e: Expression)
    ensures
        views_of(s.push(e)) == views_of(s).push(e@),
{
    assert(s.push(e).subrange(0, s.len() as int) =~= s);
}

// ---------------------------------------------------------------------------
// Codes: a prefix-free encoding of expressions into integers. Expressions are
// ordered by comparing their codes with `lex_lt`.

pub open spec fn char_code(c: char) -> i64 {
    ((c as u32) as int + 1) as i64
}

pub open spec fn str_code(s: Seq<char>) -> Seq<i64>
    decreases s.len(),
{
    if s.len() == 0 {
        seq![0i64]
    } else {
        seq![char_code(s[0])] + str_code(s.drop_first())
    }
}

pub open spec fn kind_code(k: VariadicKind) -> i64 {
    match k {
        VariadicKind::Addition => 0,
        VariadicKind::Multiplication => 1,
    }
}

pub open spec fn unary_code(u: UnaryView) -> Seq<i64> {
    match u {
        UnaryView::Negation => seq![0i64],
        UnaryView::Reciprocal => seq![1i64],
        UnaryView::Named(s) => seq![2i64] + str_code(s),
    }
}

pub open spec fn code(e: ExprView) -> Seq<i64>
    decreases e,
{
    match e {
        ExprView::Variadic(k, ts) => seq![0i64] + (codes(ts) + seq![kind_code(k)]),
        ExprView::Unary(u, a) => seq![1i64] + (code(*a) + unary_code(u)),
        ExprView::Int(i) => seq![2i64, i as i64],
        ExprView::Const(s) => seq![3i64] + str_code(s),
        ExprView::Var(s) => seq![4i64] + str_code(s),
    }
}

/// Each child is announced by a 1; the list ends with a 0.
pub open spec fn codes(ts: Seq<ExprView>) -> Seq<i64>
    decreases ts,
{
    if ts.len() == 0 {
        seq![0i64]
    } else {
        seq![1i64] + (code(ts[0]) + codes(ts.subrange(1, ts.len() as int)))
    }
}

proof fn lemma_head(h: i64, z: Seq<i64>, x: Seq<i64>)
    ensures
        (seq![h] + z + x)[0] == h,
        (seq![h] + z + x).drop_first() == z + x,
{
    assert((seq![h] + z + x).drop_first() =~= z + x);
}

proof fn lemma_str_code_prefix(s: Seq<char>, t: Seq<char>, x: Seq<i64>, y: Seq<i64>)
    requires
        str_code(s) + x == str_code(t) + y,
    ensures
        s == t,
        x == y,
    decreases s.len(),
{
    if s.len() == 0 {
        assert((seq![0i64] + x).drop_first() =~= x);
        if t.len() > 0 {
            lemma_head(char_code(t[0]), str_code(t.drop_first()), y);
            assert((str_code(t) + y)[0] > 0);
            assert(false);
        }
        assert((seq![0i64] + y).drop_first() =~= y);
        assert(s =~= t);
    } else {
        lemma_head(char_code(s[0]), str_code(s.drop_first()), x);
        if t.len() == 0 {
            assert((str_code(s) + x)[0] > 0);
            assert(false);
        }
        lemma_head(char_code(t[0]), str_code(t.drop_first()), y);
        assert(char_code(s[0]) == char_code(t[0]));
        assert(s[0] == t[0]) by {
            vstd::utf8::char_u32_cast(s[0], s[0] as u32);
            vstd::utf8::char_u32_cast(t[0], t[0] as u32);
        }
        assert(str_code(s.drop_first()) + x == str_code(t.drop_first()) + y);
        lemma_str_code_prefix(s.drop_first(), t.drop_first(), x, y);
        assert(s =~= seq![s[0]] + s.drop_first());
        assert(t =~= seq![t[0]] + t.drop_first());
    }
}

proof fn lemma_unary_code_prefix(u: UnaryView, v: UnaryView, x: Seq<i64>, y: Seq<i64>)
    requires
        unary_code(u) + x == unary_code(v) + y,
    ensures
        u == v,
        x == y,
{
    let z: Seq<i64> = Seq::empty();
    let a = unary_code(u) + x;
    match u {
        UnaryView::Negation => lemma_head(0, z, x),
        UnaryView::Reciprocal => lemma_head(1, z, x),
        UnaryView::Named(s) => lemma_head(2, str_code(s), x),
    }
    match v {
        UnaryView::Negation => lemma_head(0, z, y),
        UnaryView::Reciprocal => lemma_head(1, z, y),
        UnaryView::Named(s) => lemma_head(2, str_code(s), y),
    }
    assert(seq![0i64] =~= seq![0i64] + z);
    assert(seq![1i64] =~= seq![1i64] + z);
    assert(z + x =~= x);
    assert(z + y =~= y);
    if let UnaryView::Named(s) = u {
        if let UnaryView::Named(t) = v {
            lemma_str_code_prefix(s, t, x, y);
        }
    }
}

/// The code of an expression is never a proper prefix of another's, and
/// different expressions have different codes.
pub proof fn lemma_code_prefix(a: ExprView, b: ExprView, x: Seq<i64>, y: Seq<i64>)
    requires
        code(a) + x == code(b) + y,
    ensures
        a == b,
        x == y,
    decreases a,
{
    match a {
        ExprView::Variadic(k, ts) => {
            lemma_head(0, codes(ts) + seq![kind_code(k)], x);
            if let ExprView::Variadic(k2, us) = b {
                lemma_head(0, codes(us) + seq![kind_code(k2)], y);
                assert(codes(ts) + (seq![kind_code(k)] + x) == codes(us) + (seq![kind_code(k2)] + y)) by {
                    assert(codes(ts) + seq![kind_code(k)] + x =~= codes(ts) + (seq![kind_code(k)] + x));
                    assert(codes(us) + seq![kind_code(k2)] + y =~= codes(us) + (seq![kind_code(k2)] + y));
                }
                lemma_codes_prefix(ts, us, seq![kind_code(k)] + x, seq![kind_code(k2)] + y);
                let z: Seq<i64> = Seq::empty();
                lemma_head(kind_code(k), z, x);
                lemma_head(kind_code(k2), z, y);
                assert(z + x =~= x);
                assert(z + y =~= y);
                assert(seq![kind_code(k)] + z =~= seq![kind_code(k)]);
                assert(seq![kind_code(k2)] + z =~= seq![kind_code(k2)]);
                assert(k == k2);
            } else {
                lemma_head_of_code(b, y);
            }
        },
        ExprView::Unary(u, arg) => {
            lemma_head(1, code(*arg) + unary_code(u), x);
            if let ExprView::Unary(u2, arg2) = b {
                lemma_head(1, code(*arg2) + unary_code(u2), y);
                assert(code(*arg) + (unary_code(u) + x) == code(*arg2) + (unary_code(u2) + y)) by {
                    assert(code(*arg) + unary_code(u) + x =~= code(*arg) + (unary_code(u) + x));
                    assert(code(*arg2) + unary_code(u2) + y =~= code(*arg2) + (unary_code(u2) + y));
                }
                lemma_code_prefix(*arg, *arg2, unary_code(u) + x, unary_code(u2) + y);
                lemma_unary_code_prefix(u, u2, x, y);
            } else {
                lemma_head_of_code(b, y);
            }
        },
        ExprView::Int(i) => {
            lemma_head(2, seq![i as i64], x);
            assert(seq![2i64, i as i64] =~= seq![2i64] + seq![i as i64]);
            if let ExprView::Int(j) = b {
                lemma_head(2, seq![j as i64], y);
                assert(seq![2i64, j as i64] =~= seq![2i64] + seq![j as i64]);
                let z: Seq<i64> = Seq::empty();
                lemma_head(i as i64, z, x);
                lemma_head(j as i64, z, y);
                assert(seq![i as i64] + z =~= seq![i as i64]);
                assert(seq![j as i64] + z =~= seq![j as i64]);
                assert(z + x =~= x);
                assert(z + y =~= y);
            } else {
                lemma_head_of_code(b, y);
            }
        },
        ExprView::Const(s) => {
            lemma_head(3, str_code(s), x);
            if let ExprView::Const(t) = b {
                lemma_head(3, str_code(t), y);
                lemma_str_code_prefix(s, t, x, y);
            } else {
                lemma_head_of_code(b, y);
            }
        },
        ExprView::Var(s) => {
            lemma_head(4, str_code(s), x);
            if let ExprView::Var(t) = b {
                lemma_head(4, str_code(t), y);
                lemma_str_code_prefix(s, t, x, y);
            } else {
                lemma_head_of_code(b, y);
            }
        },
    }
}

/// The first number of a code names the variant.
proof fn lemma_head_of_code(b: ExprView, y: Seq<i64>)
    ensures
        (code(b) + y)[0] == match b {
            ExprView::Variadic(..) => 0i64,
            ExprView::Unary(..) => 1i64,
            ExprView::Int(..) => 2i64,
            ExprView::Const(..) => 3i64,
            ExprView::Var(..) => 4i64,
        },
{
    match b {
        ExprView::Variadic(k, ts) => lemma_head(0, codes(ts) + seq![kind_code(k)], y),
        ExprView::Unary(u, arg) => lemma_head(1, code(*arg) + unary_code(u), y),
        ExprView::Int(i) => {
            assert(seq![2i64, i as i64] =~= seq![2i64] + seq![i as i64]);
            lemma_head(2, seq![i as i64], y);
        },
        ExprView::Const(s) => lemma_head(3, str_code(s), y),
        ExprView::Var(s) => lemma_head(4, str_code(s), y),
    }
}

proof fn lemma_codes_prefix(ts: Seq<ExprView>, us: Seq<ExprView>, x: Seq<i64>, y: Seq<i64>)
    requires
        codes(ts) + x == codes(us) + y,
    ensures
        ts == us,
        x == y,
    decreases ts,
{
    let z: Seq<i64> = Seq::empty();
    if ts.len() == 0 {
        lemma_head(0, z, x);
        assert(seq![0i64] + z =~= seq![0i64]);
        if us.len() > 0 {
            lemma_head(1, code(us[0]) + codes(us.subrange(1, us.len() as int)), y);
            assert(false);
        }
        lemma_head(0, z, y);
        assert(z + x =~= x);
        assert(z + y =~= y);
        assert(ts =~= us);
    } else {
        let tr = ts.subrange(1, ts.len() as int);
        lemma_head(1, code(ts[0]) + codes(tr), x);
        if us.len() == 0 {
            lemma_head(0, z, y);
            assert(seq![0i64] + z =~= seq![0i64]);
            assert(false);
        }
        let ur = us.subrange(1, us.len() as int);
        lemma_head(1, code(us[0]) + codes(ur), y);
        assert(code(ts[0]) + (codes(tr) + x) == code(us[0]) + (codes(ur) + y)) by {
            assert(code(ts[0]) + codes(tr) + x =~= code(ts[0]) + (codes(tr) + x));
            assert(code(us[0]) + codes(ur) + y =~= code(us[0]) + (codes(ur) + y));
        }
        lemma_code_prefix(ts[0], us[0], codes(tr) + x, codes(ur) + y);
        lemma_codes_prefix(tr, ur, x, y);
        assert(ts =~= seq![ts[0]] + tr);
        assert(us =~= seq![us[0]] + ur);
    }
}

pub proof fn lemma_code_injective(a: ExprView, b: ExprView)
    requires
        code(a) == code(b),
    ensures
        a == b,
{
    let z: Seq<i64> = Seq::empty();
    assert(code(a) + z =~= code(a));
    assert(code(b) + z =~= code(b));
    lemma_code_prefix(a, b, z, z);
}

// ---------------------------------------------------------------------------
// Canonical order of the children of a variadic.

/// No child comes, by its code, before one that precedes it.
pub open spec fn sorted(s: Seq<ExprView>) -> bool {
    forall|i: int, j: int| 0 <= i < j < s.len() ==> !lex_lt(#[trigger] code(s[j]), #[trigger] code(s[i]))
}

/// Every variadic in the expression holds its children in sorted order.
pub open spec fn canonical(e: ExprView) -> bool
    decreases e,
{
    match e {
        ExprView::Variadic(_, ts) => sorted(ts) && forall|i: int| 0 <= i < ts.len() ==> canonical(#[trigger] ts[i]),
        ExprView::Unary(_, a) => canonical(*a),
        _ => true,
    }
}

pub open spec fn all_canonical(s: Seq<ExprView>) -> bool {
    forall|i: int| 0 <= i < s.len() ==> canonical(#[trigger] s[i])
}

/// The sorted sequence that holds exactly the elements of `m`.
pub open spec fn arrange(m: Multiset<ExprView>) -> Seq<ExprView> {
    choose|s: Seq<ExprView>| sorted(s) && s.to_multiset() == m
}

/// The variadic of kind `k` whose children are the elements of `s`, in any order.
pub open spec fn variadic_of(k: VariadicKind, s: Seq<ExprView>) -> ExprView {
    ExprView::Variadic(k, arrange(s.to_multiset()))
}

/// Two sorted sequences with the same elements are equal.
pub proof fn lemma_sorted_unique(s: Seq<ExprView>, t: Seq<ExprView>)
    requires
        sorted(s),
        sorted(t),
        s.to_multiset() == t.to_multiset(),
    ensures
        s == t,
    decreases s.len(),
{
    broadcast use vstd::seq_lib::group_to_multiset_ensures;

    assert(s.len() == s.to_multiset().len());
    assert(t.len() == t.to_multiset().len());
    if s.len() == 0 {
        assert(s =~= t);
    } else {
        assert(s.to_multiset().count(s[0]) > 0);
        assert(t.contains(s[0]));
        let j = choose|j: int| 0 <= j < t.len() && t[j] == s[0];
        assert(t.to_multiset().count(t[0]) > 0);
        assert(s.contains(t[0]));
        let i = choose|i: int| 0 <= i < s.len() && s[i] == t[0];
        if i > 0 {
            assert(!lex_lt(code(s[i]), code(s[0])));
        } else {
            lemma_lex_irreflexive(code(s[0]));
        }
        if j > 0 {
            assert(!lex_lt(code(t[j]), code(t[0])));
        } else {
            lemma_lex_irreflexive(code(t[0]));
        }
        lemma_lex_antisymmetric(code(s[0]), code(t[0]));
        lemma_code_injective(s[0], t[0]);
        vstd::seq_lib::to_multiset_remove(s, 0);
        vstd::seq_lib::to_multiset_remove(t, 0);
        assert(s.remove(0) =~= s.drop_first());
        assert(t.remove(0) =~= t.drop_first());
        lemma_sorted_unique(s.drop_first(), t.drop_first());
        assert(s =~= seq![s[0]] + s.drop_first());
        assert(t =~= seq![t[0]] + t.drop_first());
    }
}

/// A sorted sequence is the arrangement of its own elements.
pub proof fn lemma_arrange(s: Seq<ExprView>)
    requires
        sorted(s),
    ensures
        arrange(s.to_multiset()) == s,
{
    let a = arrange(s.to_multiset());
    assert(sorted(a) && a.to_multiset() == s.to_multiset());
    lemma_sorted_unique(a, s);
}

/// Inserting `x` before the first element that comes after it keeps a
/// sequence sorted.
pub proof fn lemma_insert_sorted(s: Seq<ExprView>, x: ExprView, j: int)
    requires
        sorted(s),
        0 <= j <= s.len(),
        forall|m: int| 0 <= m < j ==> !lex_lt(code(x), #[trigger] code(s[m])),
        j < s.len() ==> lex_lt(code(x), code(s[j])),
    ensures
        sorted(s.insert(j, x)),
{
    let r = s.insert(j, x);
    assert forall|a: int, b: int| 0 <= a < b < r.len() implies !lex_lt(#[trigger] code(r[b]), #[trigger] code(r[a])) by {
        if b < j {
            assert(r[a] == s[a] && r[b] == s[b]);
        } else if b == j {
            assert(r[a] == s[a]);
        } else if a == j {
            assert(r[b] == s[b - 1]);
            if b - 1 > j {
                assert(!lex_lt(code(s[b - 1]), code(s[j])));
            } else {
                lemma_lex_irreflexive(code(s[j]));
            }
            lemma_lex_lt_le(code(x), code(s[j]), code(s[b - 1]));
            lemma_lex_asymmetric(code(x), code(s[b - 1]));
        } else if a < j {
            assert(r[a] == s[a] && r[b] == s[b - 1]);
        } else {
            assert(r[a] == s[a - 1] && r[b] == s[b - 1]);
        }
    }
}

/// Variadics equal up to the order of their children are the same value, and
/// children are counted with their multiplicity.
pub proof fn lemma_ac_equality(a: ExprView, b: ExprView, k: VariadicKind)
    ensures
        variadic_of(k, seq![a, b]) == variadic_of(k, seq![b, a]),
        variadic_of(k, seq![a, a, b]) != variadic_of(k, seq![a, b]),
{
    broadcast use vstd::seq_lib::group_to_multiset_ensures;
    broadcast use vstd::multiset::group_multiset_axioms;

    let ab = seq![a, b];
    let ba = seq![b, a];
    let aab = seq![a, a, b];
    assert(ab.to_multiset() =~= ba.to_multiset()) by {
        assert(ab =~= seq![a].push(b));
        assert(ba =~= seq![b].push(a));
        assert(seq![a] =~= Seq::<ExprView>::empty().push(a));
        assert(seq![b] =~= Seq::<ExprView>::empty().push(b));
    }
    lemma_lex_irreflexive(code(a));
    lemma_lex_irreflexive(code(b));
    lemma_lex_asymmetric(code(a), code(b));
    lemma_lex_total(code(a), code(b));
    // a sorted arrangement of each multiset exists
    let (s2, s3) = if lex_lt(code(b), code(a)) {
        (seq![b, a], seq![b, a, a])
    } else {
        (seq![a, b], seq![a, a, b])
    };
    assert(sorted(s2));
    assert(sorted(s3));
    assert(s2.to_multiset() =~= ab.to_multiset()) by {
        assert(ab =~= seq![a].push(b));
        assert(ba =~= seq![b].push(a));
        assert(seq![a] =~= Seq::<ExprView>::empty().push(a));
        assert(seq![b] =~= Seq::<ExprView>::empty().push(b));
    }
    assert(s3.to_multiset() =~= aab.to_multiset()) by {
        assert(aab =~= seq![a].push(a).push(b));
        assert(seq![b, a, a] =~= seq![b].push(a).push(a));
        assert(seq![a] =~= Seq::<ExprView>::empty().push(a));
        assert(seq![b] =~= Seq::<ExprView>::empty().push(b));
    }
    lemma_arrange(s2);
    lemma_arrange(s3);
    assert(s2.len() != s3.len());
}

// ---------------------------------------------------------------------------
// Executable encoding and ordering.

fn encode_str(s: &String, out: &mut Vec<i64>)
    ensures
        final(out)@ == old(out)@ + str_code(s@),
{
    let st = s.as_str();
    let n = st.unicode_len();
    let mut i: usize = 0;
    assert(s@.subrange(0, n as int) =~= s@);
    while i < n
        invariant
            i <= n,
            n == s@.len(),
            st@ == s@,
            out@ + str_code(s@.subrange(i as int, n as int)) == old(out)@ + str_code(s@),
        decreases n - i,
    {
        let c = st.get_char(i);
        let ghost rest = s@.subrange(i as int, n as int);
        let ghost prev = out@;
        assert(rest.drop_first() =~= s@.subrange(i + 1, n as int));
        out.push((c as u32) as i64 + 1);
        assert(out@ + str_code(s@.subrange(i + 1, n as int)) =~= prev + str_code(rest));
        i = i + 1;
    }
    out.push(0);
    assert(out@ =~= old(out)@ + str_code(s@));
}

fn encode_into(e: &Expression, out: &mut Vec<i64>)
    ensures
        final(out)@ == old(out)@ + code(e@),
    decreases e,
{
    match e {
        Expression::Variable(v) => {
            out.push(4);
            encode_str(&v.id.0, out);
            assert(out@ =~= old(out)@ + code(e@));
        },
        Expression::Concrete(Concrete::Literal(l)) => {
            match &l.value {
                LiteralValue::Integer(i) => {
                    out.push(2);
                    out.push(*i as i64);
                    assert(out@ =~= old(out)@ + code(e@));
                },
                LiteralValue::Constant(c) => {
                    out.push(3);
                    encode_str(c, out);
                    assert(out@ =~= old(out)@ + code(e@));
                },
            }
        },
        Expression::Concrete(Concrete::Unary(u)) => {
            out.push(1);
            encode_into(&u.argument, out);
            match &u.kind {
                UnaryKind::Negation => out.push(0),
                UnaryKind::Reciprocal => out.push(1),
                UnaryKind::Named { id } => {
                    out.push(2);
                    encode_str(&id.0, out);
                },
            }
            assert(out@ =~= old(out)@ + code(e@));
        },
        Expression::Concrete(Concrete::Variadic(v)) => {
            let ghost ts = v.terms@;
            proof {
                lemma_views_of(v.terms.items@);
            }
            out.push(0);
            let ghost start = out@;
            let items = &v.terms.items;
            let n = items.len();
            let mut i: usize = 0;
            assert(ts.subrange(0, n as int) =~= ts);
            assert(decreases_to!(*e => v.terms.items));
            while i < n
                invariant
                    decreases_to!(*e => v.terms.items),
                    i <= n,
                    n == items@.len(),
                    items@ == v.terms.items@,
                    ts == v.terms@,
                    ts.len() == n,
                    forall|m: int| 0 <= m < n ==> #[trigger] ts[m] == items@[m]@,
                    out@ + codes(ts.subrange(i as int, n as int)) == start + codes(ts),
                decreases n - i,
            {
                let ghost rest = ts.subrange(i as int, n as int);
                let ghost prev = out@;
                assert(rest.subrange(1, rest.len() as int) =~= ts.subrange(i + 1, n as int));
                out.push(1);
                proof {
                    assert(decreases_to!(v.terms.items => v.terms.items[i as int]));
                    assert(decreases_to!(*e => v.terms.items[i as int]));
                }
                encode_into(&items[i], out);
                assert(out@ + codes(ts.subrange(i + 1, n as int)) =~= prev + codes(rest));
                i = i + 1;
            }
            assert(ts.subrange(n as int, n as int) =~= Seq::<ExprView>::empty());
            out.push(0);
            assert(out@ =~= start + codes(ts));
            out.push(match v.kind {
                VariadicKind::Addition => 0,
                VariadicKind::Multiplication => 1,
            });
            assert(out@ =~= old(out)@ + code(e@));
        },
    }
}

/// The code of an expression, as a vector.
pub fn encode(e: &Expression) -> (r: Vec<i64>)
    ensures
        r@ == code(e@),
{
    let mut out: Vec<i64> = Vec::new();
    encode_into(e, &mut out);
    assert(out@ =~= code(e@));
    out
}

/// Whether `a` comes strictly before `b` in the order of expressions.
pub fn precedes(a: &Expression, b: &Expression) -> (r: bool)
    ensures
        r == lex_lt(code(a@), code(b@)),
{
    lex_less(&encode(a), &encode(b))
}

pub proof fn lemma_views_of_add(a: Seq<Expression>, b: Seq<Expression>)
    ensures
        views_of(a + b) == views_of(a) + views_of(b),
{
    lemma_views_of(a);
    lemma_views_of(b);
    lemma_views_of(a + b);
    assert(views_of(a + b) =~= views_of(a) + views_of(b));
}

/// Each element of a sequence is an element of any sequence with the same
/// elements.
pub proof fn lemma_same_elements(t: Seq<ExprView>, s: Seq<ExprView>, i: int)
    requires
        t.to_multiset() == s.to_multiset(),
        0 <= i < t.len(),
    ensures
        s.contains(t[i]),
{
    broadcast use vstd::seq_lib::group_to_multiset_ensures;

    assert(t.contains(t[i]));
    assert(t.to_multiset().count(t[i]) > 0);
}

proof fn lemma_views_of_insert(s: Seq<Expression>, j: int, e: Expression)
    requires
        0 <= j <= s.len(),
    ensures
        views_of(s.insert(j, e)) == views_of(s).insert(j, e@),
{
    lemma_views_of(s);
    lemma_views_of(s.insert(j, e));
    assert(views_of(s.insert(j, e)) =~= views_of(s).insert(j, e@));
}

impl MultiSet {
    /// Sorts the given expressions into a multiset.
    pub fn from_vec(v: Vec<Expression>) -> (r: MultiSet)
        requires
            all_canonical(views_of(v@)),
        ensures
            sorted(r@),
            all_canonical(r@),
            r@.to_multiset() == views_of(v@).to_multiset(),
    {
        broadcast use vstd::seq_lib::group_to_multiset_ensures;
        broadcast use vstd::multiset::group_multiset_axioms;

        let ghost orig = views_of(v@);
        let mut rest = v;
        let mut items: Vec<Expression> = Vec::new();
        let mut keys: Vec<Vec<i64>> = Vec::new();
        proof {
            lemma_views_of(rest@);
            lemma_views_of(items@);
        }
        while rest.len() > 0
            invariant
                sorted(views_of(items@)),
                all_canonical(views_of(items@)),
                all_canonical(views_of(rest@)),
                keys@.len() == items@.len(),
                forall|m: int| 0 <= m < keys@.len() ==> #[trigger] keys@[m]@ == code(items@[m]@),
                views_of(items@).to_multiset().add(views_of(rest@).to_multiset()) == orig.to_multiset(),
            decreases rest.len(),
        {
            let ghost before = rest@;
            let x = rest.pop().unwrap();
            proof {
                assert(before.subrange(0, before.len() - 1) =~= rest@);
                lemma_views_of(before);
                lemma_views_of(rest@);
                lemma_views_of(items@);
                assert(views_of(before) == views_of(rest@).push(x@));
                assert(canonical(views_of(before)[before.len() - 1]));
                assert forall|m: int| 0 <= m < rest@.len() implies canonical(#[trigger] views_of(rest@)[m]) by {
                    assert(views_of(rest@)[m] == views_of(before)[m]);
                }
                vstd::seq_lib::to_multiset_build(views_of(rest@), x@);
            }
            let key = encode(&x);
            let mut j: usize = 0;
            while j < items.len() && !lex_less(&key, &keys[j])
                invariant
                    j <= items@.len(),
                    keys@.len() == items@.len(),
                    forall|m: int| 0 <= m < keys@.len() ==> #[trigger] keys@[m]@ == code(items@[m]@),
                    key@ == code(x@),
                    views_of(items@).len() == items@.len(),
                    forall|m: int| 0 <= m < j ==> !lex_lt(code(x@), #[trigger] code(views_of(items@)[m])),
                decreases items@.len() - j,
            {
                proof {
                    lemma_views_of(items@);
                }
                j = j + 1;
            }
            proof {
                lemma_views_of(items@);
                lemma_insert_sorted(views_of(items@), x@, j as int);
                lemma_views_of_insert(items@, j as int, x);
                vstd::seq_lib::to_multiset_insert(views_of(items@), j as int, x@);
            }
            let ghost old_items = items@;
            let ghost old_keys = keys@;
            items.insert(j, x);
            keys.insert(j, key);
            proof {
                lemma_views_of(items@);
                assert forall|m: int| 0 <= m < keys@.len() implies #[trigger] keys@[m]@ == code(items@[m]@) by {
                    if m < j {
                        assert(keys@[m] == old_keys[m] && items@[m] == old_items[m]);
                    } else if m > j {
                        assert(keys@[m] == old_keys[m - 1] && items@[m] == old_items[m - 1]);
                    }
                }
                assert(views_of(items@) == views_of(old_items).insert(j as int, x@));
                assert forall|m: int| 0 <= m < items@.len() implies canonical(#[trigger] views_of(items@)[m]) by {
                    if m < j {
                        assert(views_of(items@)[m] == views_of(old_items)[m]);
                    } else if m > j {
                        assert(views_of(items@)[m] == views_of(old_items)[m - 1]);
                    }
                }
                assert(views_of(items@).to_multiset().add(views_of(rest@).to_multiset()) =~= orig.to_multiset());
            }
        }
        proof {
            lemma_views_of(rest@);
            assert(views_of(rest@).to_multiset() =~= Multiset::empty());
        }
        let r = MultiSet { items };
        assert(r@.to_multiset() =~= orig.to_multiset());
        r
    }
}

// ---------------------------------------------------------------------------
// Constructors.

impl Variadic {
    /// A variadic of `kind` over the given children, in any order.
    pub fn new(terms: Vec<Expression>, kind: VariadicKind) -> (r: Variadic)
        requires
            all_canonical(views_of(terms@)),
        ensures
            r@ == variadic_of(kind, views_of(terms@)),
            r.terms@.to_multiset() == views_of(terms@).to_multiset(),
            canonical(r@),
    {
        let ms = MultiSet::from_vec(terms);
        proof {
            lemma_arrange(ms@);
        }
        Variadic { terms: ms, kind }
    }
}

impl Unary {
    pub fn new(argument: Expression, kind: UnaryKind) -> (r: Unary)
        ensures
            r@ == ExprView::Unary(kind@, Box::new(argument@)),
    {
        Unary { argument: Box::new(argument), kind }
    }
}

impl UnaryKind {
    /// Application of the function called `id`.
    pub fn named(id: &str) -> (r: UnaryKind)
        ensures
            r@ == UnaryView::Named(id@),
    {
        UnaryKind::Named { id: FuncId::new(id) }
    }

    pub fn duplicate(&self) -> (r: UnaryKind)
        ensures
            r == *self,
    {
        match self {
            UnaryKind::Negation => UnaryKind::Negation,
            UnaryKind::Reciprocal => UnaryKind::Reciprocal,
            UnaryKind::Named { id } => UnaryKind::Named { id: FuncId(id.0.clone()) },
        }
    }
}

impl FuncId {
    pub fn new(id: &str) -> (r: FuncId)
        ensures
            r.0@ == id@,
    {
        FuncId(String::from_str(id))
    }
}

impl Literal {
    /// An integer literal.
    pub fn new(value: i32) -> (r: Literal)
        ensures
            r@ == ExprView::Int(value),
    {
        Literal { value: LiteralValue::Integer(value) }
    }

    /// A named constant.
    pub fn constant(name: &str) -> (r: Literal)
        ensures
            r@ == ExprView::Const(name@),
    {
        Literal { value: LiteralValue::Constant(String::from_str(name)) }
    }
}

impl LiteralValue {
    pub fn duplicate(&self) -> (r: LiteralValue)
        ensures
            r == *self,
    {
        match self {
            LiteralValue::Integer(i) => LiteralValue::Integer(*i),
            LiteralValue::Constant(c) => LiteralValue::Constant(c.clone()),
        }
    }
}

impl Variable {
    pub fn new(id: &str) -> (r: Variable)
        ensures
            r@ == ExprView::Var(id@),
    {
        Variable { id: VarId::new(id) }
    }

    pub fn duplicate(&self) -> (r: Variable)
        ensures
            r == *self,
    {
        Variable { id: VarId(self.id.0.clone()) }
    }
}

impl VarId {
    pub fn new(id: &str) -> (r: VarId)
        ensures
            r.0@ == id@,
    {
        VarId(String::from_str(id))
    }
}

impl MultiSet {
    /// The elements, in order.
    pub fn into_iter(self) -> (r: Vec<Expression>)
        ensures
            views_of(r@) == self@,
    {
        self.items
    }

    /// The elements, in order.
    pub fn iter(&self) -> (r: &Vec<Expression>)
        ensures
            views_of(r@) == self@,
    {
        &self.items
    }

    pub fn is_empty(&self) -> (r: bool)
        ensures
            r == (self@.len() == 0),
    {
        proof {
            lemma_views_of(self.items@);
        }
        self.items.len() == 0
    }

    pub fn len(&self) -> (r: usize)
        ensures
            r == self@.len(),
    {
        proof {
            lemma_views_of(self.items@);
        }
        self.items.len()
    }
}

impl From<Variadic> for Expression {
    fn from(value: Variadic) -> Expression {
        Expression::Concrete(Concrete::Variadic(value))
    }
}

impl vstd::std_specs::convert::FromSpecImpl<Variadic> for Expression {
    open spec fn obeys_from_spec() -> bool {
        true
    }

    open spec fn from_spec(v: Variadic) -> Expression {
        Expression::Concrete(Concrete::Variadic(v))
    }
}

impl From<Unary> for Expression {
    fn from(value: Unary) -> Expression {
        Expression::Concrete(Concrete::Unary(value))
    }
}

impl vstd::std_specs::convert::FromSpecImpl<Unary> for Expression {
    open spec fn obeys_from_spec() -> bool {
        true
    }

    open spec fn from_spec(v: Unary) -> Expression {
        Expression::Concrete(Concrete::Unary(v))
    }
}

impl From<Literal> for Expression {
    fn from(value: Literal) -> Expression {
        Expression::Concrete(Concrete::Literal(value))
    }
}

impl vstd::std_specs::convert::FromSpecImpl<Literal> for Expression {
    open spec fn obeys_from_spec() -> bool {
        true
    }

    open spec fn from_spec(v: Literal) -> Expression {
        Expression::Concrete(Concrete::Literal(v))
    }
}

impl From<Variable> for Expression {
    fn from(value: Variable) -> Expression {
        Expression::Variable(value)
    }
}

impl vstd::std_specs::convert::FromSpecImpl<Variable> for Expression {
    open spec fn obeys_from_spec() -> bool {
        true
    }

    open spec fn from_spec(v: Variable) -> Expression {
        Expression::Variable(v)
    }
}

// ---------------------------------------------------------------------------
// Copies and equality.

impl Expression {
    /// A copy of the expression.
    pub fn duplicate(&self) -> (r: Expression)
        ensures
            r@ == self@,
        decreases self,
    {
        match self {
            Expression::Variable(v) => Expression::Variable(v.duplicate()),
            Expression::Concrete(Concrete::Literal(l)) => Expression::Concrete(
                Concrete::Literal(Literal { value: l.value.duplicate() }),
            ),
            Expression::Concrete(Concrete::Unary(u)) => {
                let a = u.argument.duplicate();
                Expression::Concrete(Concrete::Unary(Unary { argument: Box::new(a), kind: u.kind.duplicate() }))
            },
            Expression::Concrete(Concrete::Variadic(v)) => {
                let items = &v.terms.items;
                let n = items.len();
                let mut out: Vec<Expression> = Vec::new();
                let mut i: usize = 0;
                assert(decreases_to!(*self => v.terms.items));
                while i < n
                    invariant
                        decreases_to!(*self => v.terms.items),
                        items@ == v.terms.items@,
                        n == items@.len(),
                        i <= n,
                        out@.len() == i,
                        forall|m: int| 0 <= m < i ==> #[trigger] out@[m]@ == items@[m]@,
                    decreases n - i,
                {
                    proof {
                        assert(decreases_to!(v.terms.items => v.terms.items[i as int]));
                    }
                    let c = items[i].duplicate();
                    out.push(c);
                    i = i + 1;
                }
                proof {
                    lemma_views_of(out@);
                    lemma_views_of(items@);
                    assert(views_of(out@) =~= views_of(items@));
                }
                Expression::Concrete(Concrete::Variadic(Variadic { terms: MultiSet { items: out }, kind: v.kind }))
            },
        }
    }

    /// Structural equality of the values.
    pub fn same(&self, other: &Expression) -> (r: bool)
        ensures
            r == (self@ == other@),
        decreases self,
    {
        match (self, other) {
            (Expression::Variable(a), Expression::Variable(b)) => a.id.0 == b.id.0,
            (Expression::Concrete(Concrete::Literal(a)), Expression::Concrete(Concrete::Literal(b))) => a.value.same(&b.value),
            (Expression::Concrete(Concrete::Unary(a)), Expression::Concrete(Concrete::Unary(b))) => {
                a.kind.same(&b.kind) && a.argument.same(&b.argument)
            },
            (Expression::Concrete(Concrete::Variadic(a)), Expression::Concrete(Concrete::Variadic(b))) => {
                proof {
                    lemma_views_of(a.terms.items@);
                    lemma_views_of(b.terms.items@);
                }
                if a.kind != b.kind || a.terms.items.len() != b.terms.items.len() {
                    return false;
                }
                let xs = &a.terms.items;
                let ys = &b.terms.items;
                let n = xs.len();
                let mut i: usize = 0;
                assert(decreases_to!(*self => a.terms.items));
                while i < n
                    invariant
                        decreases_to!(*self => a.terms.items),
                        xs@ == a.terms.items@,
                        ys@ == b.terms.items@,
                        self@ == ExprView::Variadic(a.kind, views_of(xs@)),
                        other@ == ExprView::Variadic(b.kind, views_of(ys@)),
                        n == xs@.len(),
                        n == ys@.len(),
                        i <= n,
                        forall|m: int| 0 <= m < i ==> #[trigger] xs@[m]@ == ys@[m]@,
                    decreases n - i,
                {
                    proof {
                        assert(decreases_to!(a.terms.items => a.terms.items[i as int]));
                    }
                    if !xs[i].same(&ys[i]) {
                        proof {
                            lemma_views_of(xs@);
                            lemma_views_of(ys@);
                        }
                        assert(views_of(xs@)[i as int] != views_of(ys@)[i as int]);
                        return false;
                    }
                    i = i + 1;
                }
                proof {
                    lemma_views_of(xs@);
                    lemma_views_of(ys@);
                }
                assert(views_of(xs@) =~= views_of(ys@));
                true
            },
            _ => false,
        }
    }
}

impl LiteralValue {
    pub fn same(&self, other: &LiteralValue) -> (r: bool)
        ensures
            r == (self@ == other@),
    {
        match (self, other) {
            (LiteralValue::Integer(a), LiteralValue::Integer(b)) => *a == *b,
            (LiteralValue::Constant(a), LiteralValue::Constant(b)) => *a == *b,
            _ => false,
        }
    }
}

impl UnaryKind {
    pub fn same(&self, other: &UnaryKind) -> (r: bool)
        ensures
            r == (self@ == other@),
    {
        match (self, other) {
            (UnaryKind::Negation, UnaryKind::Negation) => true,
            (UnaryKind::Reciprocal, UnaryKind::Reciprocal) => true,
            (UnaryKind::Named { id: a }, UnaryKind::Named { id: b }) => a.0 == b.0,
            _ => false,
        }
    }
}

impl Clone for Expression {
    fn clone(&self) -> Expression {
        self.duplicate()
    }
}

impl PartialEq for Expression {
    fn eq(&self, other: &Expression) -> bool {
        self.same(other)
    }
}

impl vstd::std_specs::cmp::PartialEqSpecImpl for Expression {
    open spec fn obeys_eq_spec() -> bool {
        true
    }

    open spec fn eq_spec(&self, other: &Expression) -> bool {
        self@ == other@
    }
}

impl PartialEq for LiteralValue {
    fn eq(&self, other: &LiteralValue) -> bool {
        self.same(other)
    }
}

impl vstd::std_specs::cmp::PartialEqSpecImpl for LiteralValue {
    open spec fn obeys_eq_spec() -> bool {
        true
    }

    open spec fn eq_spec(&self, other: &LiteralValue) -> bool {
        self@ == other@
    }
}

impl PartialEq for UnaryKind {
    fn eq(&self, other: &UnaryKind) -> bool {
        self.same(other)
    }
}

impl vstd::std_specs::cmp::PartialEqSpecImpl for UnaryKind {
    open spec fn obeys_eq_spec() -> bool {
        true
    }

    open spec fn eq_spec(&self, other: &UnaryKind) -> bool {
        self@ == other@
    }
}

} // verus!
