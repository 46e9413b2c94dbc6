//! Instantiating a pattern under bindings, with the flattening of nested
//! variadics of one kind.

use vstd::prelude::*;
use crate::binding::{Bindings, values_canonical};
use crate::expression::{
    Concrete, Expression, ExprView, Literal, Unary, Variadic, VariadicKind, all_canonical, canonical,
    lemma_same_elements, lemma_views_of, lemma_views_of_add, variadic_of, views_of,
};

verus! {

/// `x` can stand as a child of a variadic of kind `k` without being spliced:
/// it is not a variadic of the same kind, nor an empty variadic.
pub open spec fn fits(x: ExprView, k: VariadicKind) -> bool {
    match x {
        ExprView::Variadic(k2, cs) => k2 != k && cs.len() > 0,
        _ => true,
    }
}

/// No variadic in `e` has a child that is a variadic of its own kind or an
/// empty variadic.
pub open spec fn flat(e: ExprView) -> bool
    decreases e,
{
    match e {
        ExprView::Variadic(k, ts) => forall|i: int| 0 <= i < ts.len() ==> fits(#[trigger] ts[i], k) && flat(ts[i]),
        ExprView::Unary(_, a) => flat(*a),
        _ => true,
    }
}

pub open spec fn values_flat(m: Map<Seq<char>, ExprView>) -> bool {
    forall|k: Seq<char>| m.contains_key(k) ==> flat(#[trigger] m[k])
}

/// What `x` contributes to the children of a variadic of kind `k`.
pub open spec fn splice(x: ExprView, k: VariadicKind) -> Seq<ExprView> {
    if fits(x, k) {
        seq![x]
    } else {
        match x {
            ExprView::Variadic(_, cs) => cs,
            _ => seq![x],
        }
    }
}

/// `p` with every variable replaced by its binding in `b`; `None` when a
/// variable of `p` is unbound.
pub open spec fn replace_spec(p: ExprView, b: Map<Seq<char>, ExprView>) -> Option<ExprView>
    decreases p,
{
    match p {
        ExprView::Var(v) => if b.contains_key(v) {
            Some(b[v])
        } else {
            None
        },
        ExprView::Unary(u, a) => match replace_spec(*a, b) {
            Some(x) => Some(ExprView::Unary(u, Box::new(x))),
            None => None,
        },
        ExprView::Variadic(k, ts) => match replace_list(ts, k, b) {
            Some(s) => Some(variadic_of(k, s)),
            None => None,
        },
        _ => Some(p),
    }
}

/// The children that the replaced elements of `ts` give inside a variadic of kind `k`.
pub open spec fn replace_list(ts: Seq<ExprView>, k: VariadicKind, b: Map<Seq<char>, ExprView>) -> Option<Seq<ExprView>>
    decreases ts,
{
    if ts.len() == 0 {
        Some(Seq::empty())
    } else {
        match (replace_list(ts.subrange(0, ts.len() - 1), k, b), replace_spec(ts[ts.len() - 1], b)) {
            (Some(s), Some(x)) => Some(s + splice(x, k)),
            _ => None,
        }
    }
}

/// Every variable of `p` is bound in `b`.
pub open spec fn vars_bound(p: ExprView, b: Map<Seq<char>, ExprView>) -> bool
    decreases p,
{
    match p {
        ExprView::Var(v) => b.contains_key(v),
        ExprView::Unary(_, a) => vars_bound(*a, b),
        ExprView::Variadic(_, ts) => forall|i: int| 0 <= i < ts.len() ==> vars_bound(#[trigger] ts[i], b),
        _ => true,
    }
}

/// Replacement succeeds when every variable of the pattern is bound.
pub proof fn lemma_replace_complete(p: ExprView, b: Map<Seq<char>, ExprView>)
    requires
        vars_bound(p, b),
    ensures
        replace_spec(p, b) is Some,
    decreases p,
{
    match p {
        ExprView::Unary(_, a) => lemma_replace_complete(*a, b),
        ExprView::Variadic(k, ts) => lemma_replace_list_complete(ts, k, b),
        _ => {},
    }
}

proof fn lemma_replace_list_complete(ts: Seq<ExprView>, k: VariadicKind, b: Map<Seq<char>, ExprView>)
    requires
        forall|i: int| 0 <= i < ts.len() ==> vars_bound(#[trigger] ts[i], b),
    ensures
        replace_list(ts, k, b) is Some,
    decreases ts,
{
    if ts.len() > 0 {
        let t = ts.subrange(0, ts.len() - 1);
        assert forall|i: int| 0 <= i < t.len() implies vars_bound(#[trigger] t[i], b) by {
            assert(t[i] == ts[i]);
        }
        lemma_replace_list_complete(t, k, b);
        lemma_replace_complete(ts[ts.len() - 1], b);
    }
}

proof fn lemma_replace_list_fails(ts: Seq<ExprView>, k: VariadicKind, b: Map<Seq<char>, ExprView>, i: int)
    requires
        0 <= i <= ts.len(),
        replace_list(ts.subrange(0, i), k, b) is None,
    ensures
        replace_list(ts, k, b) is None,
    decreases ts.len() - i,
{
    if i < ts.len() {
        assert(ts.subrange(0, i + 1).subrange(0, i) =~= ts.subrange(0, i));
        lemma_replace_list_fails(ts, k, b, i + 1);
    } else {
        assert(ts.subrange(0, i) =~= ts);
    }
}

fn replace_ref(expr: &Expression, bind: &Bindings) -> (r: Result<Expression, ()>)
    requires
        values_canonical(bind@),
    ensures
        match replace_spec(expr@, bind@) {
            Some(x) => r is Ok && r->Ok_0@ == x && canonical(x),
            None => r is Err,
        },
        r is Ok && values_flat(bind@) ==> flat(r->Ok_0@),
    decreases expr,
{
    match expr {
        Expression::Variable(v) => match bind.get(v) {
            Some(e) => Ok(e.duplicate()),
            None => Err(()),
        },
        Expression::Concrete(Concrete::Literal(l)) => Ok(
            Expression::Concrete(Concrete::Literal(Literal { value: l.value.duplicate() })),
        ),
        Expression::Concrete(Concrete::Unary(u)) => match replace_ref(&u.argument, bind) {
            Ok(a) => Ok(Expression::Concrete(Concrete::Unary(Unary { argument: Box::new(a), kind: u.kind.duplicate() }))),
            Err(()) => Err(()),
        },
        Expression::Concrete(Concrete::Variadic(v)) => {
            let ghost ts = v.terms@;
            let ghost k = v.kind;
            proof {
                lemma_views_of(v.terms.items@);
            }
            let items = &v.terms.items;
            let n = items.len();
            let mut out: Vec<Expression> = Vec::new();
            let mut i: usize = 0;
            assert(ts.subrange(0, 0) =~= Seq::<ExprView>::empty());
            assert(decreases_to!(*expr => v.terms.items));
            while i < n
                invariant
                    decreases_to!(*expr => v.terms.items),
                    values_canonical(bind@),
                    items@ == v.terms.items@,
                    n == items@.len(),
                    ts == views_of(items@),
                    ts.len() == n,
                    k == v.kind,
                    expr@ == ExprView::Variadic(k, ts),
                    i <= n,
                    replace_list(ts.subrange(0, i as int), k, bind@) == Some(views_of(out@)),
                    all_canonical(views_of(out@)),
                    values_flat(bind@) ==> forall|m: int|
                        0 <= m < views_of(out@).len() ==> fits(#[trigger] views_of(out@)[m], k) && flat(views_of(out@)[m]),
                decreases n - i,
            {
                proof {
                    assert(decreases_to!(v.terms.items => v.terms.items[i as int]));
                    lemma_views_of(items@);
                    assert(ts.subrange(0, i + 1).subrange(0, i as int) =~= ts.subrange(0, i as int));
                    assert(ts.subrange(0, i + 1)[i as int] == items@[i as int]@);
                }
                let x = match replace_ref(&items[i], bind) {
                    Ok(x) => x,
                    Err(()) => {
                        proof {
                            assert(replace_list(ts.subrange(0, i + 1), k, bind@) is None);
                            lemma_replace_list_fails(ts, k, bind@, i + 1);
                        }
                        return Err(());
                    },
                };
                let ghost prev = out@;
                let spliced = match &x {
                    Expression::Concrete(Concrete::Variadic(inner)) => {
                        proof {
                            lemma_views_of(inner.terms.items@);
                        }
                        inner.kind == v.kind || inner.terms.items.len() == 0
                    },
                    _ => false,
                };
                let ghost xv = x@;
                if spliced {
                    match x {
                        Expression::Concrete(Concrete::Variadic(inner)) => {
                            let mut cs = inner.terms.items;
                            proof {
                                lemma_views_of(cs@);
                            }
                            out.append(&mut cs);
                        },
                        _ => {},
                    }
                } else {
                    out.push(x);
                }
                proof {
                    lemma_views_of(prev);
                    lemma_views_of(out@);
                    if spliced {
                        if let ExprView::Variadic(_, cs) = xv {
                            assert(views_of(out@) =~= views_of(prev) + cs);
                        }
                    } else {
                        assert(views_of(out@) =~= views_of(prev) + seq![xv]);
                    }
                    assert(views_of(out@) == views_of(prev) + splice(xv, k));
                }
                i = i + 1;
            }
            assert(ts.subrange(0, n as int) =~= ts);
            let ghost outv = views_of(out@);
            let nv = Variadic::new(out, v.kind);
            proof {
                if values_flat(bind@) {
                    assert forall|m: int| 0 <= m < nv.terms@.len() implies fits(#[trigger] nv.terms@[m], k) && flat(
                        nv.terms@[m],
                    ) by {
                        lemma_same_elements(nv.terms@, outv, m);
                        let j = choose|j: int| 0 <= j < outv.len() && outv[j] == nv.terms@[m];
                        assert(fits(outv[j], k));
                    }
                }
            }
            Ok(Expression::Concrete(Concrete::Variadic(nv)))
        },
    }
}

/// `expr` with each variable replaced by its binding, nested variadics of the
/// same kind spliced into their parent and empty variadics dropped; an error
/// when a variable of `expr` is unbound.
pub fn replace_variable(expr: Expression, bind: &Bindings) -> (r: Result<Expression, ()>)
    requires
        values_canonical(bind@),
    ensures
        match replace_spec(expr@, bind@) {
            Some(x) => r is Ok && r->Ok_0@ == x && canonical(x),
            None => r is Err,
        },
        r is Ok && values_flat(bind@) ==> flat(r->Ok_0@),
{
    replace_ref(&expr, bind)
}

} // verus!
