//! Associative-commutative matching of an expression against a pattern.

use vstd::prelude::*;
use crate::binding::{Bindings, values_canonical};
use crate::expression::{
    Concrete, Expression, ExprView, Unary, Variable, Variadic, VariadicKind, all_canonical, canonical,
    lemma_arrange, lemma_same_elements, lemma_views_of, views_of,
};
use crate::replace::{fits, flat, replace_list, replace_spec, splice, values_flat};

verus! {

/// One obligation of the matcher: an expression against a pattern, or the
/// children of a variadic against the children of a pattern variadic, in any
/// order.
enum MatchGroup {
    Single { expr: Expression, patt: Expression },
    Multiple { expr_list: Vec<Expression>, patt_list: Vec<Expression>, kind: VariadicKind },
}

pub enum GroupView {
    Single(ExprView, ExprView),
    Multiple(Seq<ExprView>, Seq<ExprView>, VariadicKind),
}

spec fn group_view(g: MatchGroup) -> GroupView {
    match g {
        MatchGroup::Single { expr, patt } => GroupView::Single(expr@, patt@),
        MatchGroup::Multiple { expr_list, patt_list, kind } => GroupView::Multiple(
            views_of(expr_list@),
            views_of(patt_list@),
            kind,
        ),
    }
}

spec fn stack_view(s: Seq<MatchGroup>) -> Seq<GroupView> {
    s.map_values(|g: MatchGroup| group_view(g))
}

/// The obligation holds under the binding `b`.
pub open spec fn sat(g: GroupView, b: Map<Seq<char>, ExprView>) -> bool {
    match g {
        GroupView::Single(e, p) => replace_spec(p, b) == Some(e),
        GroupView::Multiple(es, ps, k) => match replace_list(ps, k, b) {
            Some(s) => s.to_multiset() == es.to_multiset(),
            None => false,
        },
    }
}

pub open spec fn sat_all(s: Seq<GroupView>, b: Map<Seq<char>, ExprView>) -> bool {
    forall|i: int| 0 <= i < s.len() ==> sat(#[trigger] s[i], b)
}

/// The expressions of the obligation are well formed and flat; the children of
/// a variadic fit in it.
pub open spec fn wf_group(g: GroupView, strict: bool) -> bool {
    match g {
        GroupView::Single(e, _) => canonical(e) && (strict ==> flat(e)),
        GroupView::Multiple(es, _, k) => elems_ok(es, k, strict),
    }
}

/// The children are well formed and, when `strict`, flat and fit in a
/// variadic of kind `k`.
pub open spec fn elems_ok(es: Seq<ExprView>, k: VariadicKind, strict: bool) -> bool {
    forall|i: int| 0 <= i < es.len() ==> canonical(#[trigger] es[i]) && (strict ==> flat(es[i]) && fits(es[i], k))
}

pub open spec fn wf_stack(s: Seq<GroupView>, strict: bool) -> bool {
    forall|i: int| 0 <= i < s.len() ==> wf_group(#[trigger] s[i], strict)
}

pub open spec fn psize(p: ExprView) -> nat
    decreases p,
{
    match p {
        ExprView::Variadic(_, ts) => 2 + list_size(ts),
        ExprView::Unary(_, a) => 1 + psize(*a),
        _ => 1,
    }
}

pub open spec fn list_size(ts: Seq<ExprView>) -> nat
    decreases ts,
{
    if ts.len() == 0 {
        0
    } else {
        list_size(ts.subrange(0, ts.len() - 1)) + psize(ts[ts.len() - 1]) + 1
    }
}

pub open spec fn group_size(g: GroupView) -> nat {
    match g {
        GroupView::Single(_, p) => psize(p),
        GroupView::Multiple(_, ps, _) => 1 + list_size(ps),
    }
}

pub open spec fn stack_size(s: Seq<GroupView>) -> nat
    decreases s.len(),
{
    if s.len() == 0 {
        0
    } else {
        stack_size(s.subrange(0, s.len() - 1)) + group_size(s[s.len() - 1])
    }
}

/// Every extension of `bind` that meets `cur` meets `orig`.
pub open spec fn leads_to(cur: Seq<GroupView>, bind: Map<Seq<char>, ExprView>, orig: Seq<GroupView>) -> bool {
    forall|b2: Map<Seq<char>, ExprView>| #[trigger] bind.submap_of(b2) && sat_all(cur, b2) ==> sat_all(orig, b2)
}

proof fn lemma_stack_push(s: Seq<MatchGroup>, g: MatchGroup)
    ensures
        stack_view(s.push(g)) == stack_view(s).push(group_view(g)),
        stack_size(stack_view(s).push(group_view(g))) == stack_size(stack_view(s)) + group_size(group_view(g)),
{
    assert(stack_view(s.push(g)) =~= stack_view(s).push(group_view(g)));
    assert(stack_view(s).push(group_view(g)).subrange(0, s.len() as int) =~= stack_view(s));
}

proof fn lemma_stack_pop(s: Seq<MatchGroup>)
    requires
        s.len() > 0,
    ensures
        stack_view(s) == stack_view(s.subrange(0, s.len() - 1)).push(group_view(s[s.len() - 1])),
        stack_size(stack_view(s)) == stack_size(stack_view(s.subrange(0, s.len() - 1))) + group_size(
            group_view(s[s.len() - 1]),
        ),
{
    assert(stack_view(s) =~= stack_view(s.subrange(0, s.len() - 1)).push(group_view(s[s.len() - 1])));
    assert(stack_view(s).subrange(0, s.len() - 1) =~= stack_view(s.subrange(0, s.len() - 1)));
}

fn dup_list(v: &Vec<Expression>) -> (r: Vec<Expression>)
    ensures
        views_of(r@) == views_of(v@),
{
    let mut out: Vec<Expression> = Vec::new();
    let mut i: usize = 0;
    while i < v.len()
        invariant
            i <= v@.len(),
            out@.len() == i,
            forall|m: int| 0 <= m < i ==> #[trigger] out@[m]@ == v@[m]@,
        decreases v@.len() - i,
    {
        out.push(v[i].duplicate());
        i = i + 1;
    }
    proof {
        lemma_views_of(out@);
        lemma_views_of(v@);
        assert(views_of(out@) =~= views_of(v@));
    }
    out
}

fn dup_stack(s: &Vec<MatchGroup>) -> (r: Vec<MatchGroup>)
    ensures
        stack_view(r@) == stack_view(s@),
{
    let mut out: Vec<MatchGroup> = Vec::new();
    let mut i: usize = 0;
    while i < s.len()
        invariant
            i <= s@.len(),
            out@.len() == i,
            forall|m: int| 0 <= m < i ==> #[trigger] group_view(out@[m]) == group_view(s@[m]),
        decreases s@.len() - i,
    {
        let g = match &s[i] {
            MatchGroup::Single { expr, patt } => MatchGroup::Single { expr: expr.duplicate(), patt: patt.duplicate() },
            MatchGroup::Multiple { expr_list, patt_list, kind } => MatchGroup::Multiple {
                expr_list: dup_list(expr_list),
                patt_list: dup_list(patt_list),
                kind: *kind,
            },
        };
        out.push(g);
        i = i + 1;
    }
    assert(stack_view(out@) =~= stack_view(s@));
    out
}

/// Whether element `i` is given to the pattern element: with `all_subsets`,
/// when bit `i` of `mask` is set (so ascending masks try smaller parts
/// first); otherwise exactly when `i` is `mask`.
pub open spec fn chosen(mask: u64, all_subsets: bool, i: int) -> bool {
    if all_subsets {
        (mask >> (i as u64)) & 1u64 == 1u64
    } else {
        mask as int == i
    }
}

/// The elements of `s` that are chosen (`take`) or not, in order.
pub open spec fn part(s: Seq<ExprView>, mask: u64, all_subsets: bool, take: bool) -> Seq<ExprView>
    decreases s.len(),
{
    if s.len() == 0 {
        Seq::empty()
    } else {
        let p = part(s.subrange(0, s.len() - 1), mask, all_subsets, take);
        if chosen(mask, all_subsets, s.len() - 1) == take {
            p.push(s[s.len() - 1])
        } else {
            p
        }
    }
}

/// How many masks are tried for a pattern element against `len` children:
/// every subset (when `all_subsets`, for fewer than 64 children), or each
/// single child.
pub open spec fn limit_of(len: nat, all_subsets: bool) -> int {
    if all_subsets {
        if len < 64 {
            (1u64 << (len as u64)) as int
        } else {
            0
        }
    } else {
        len as int
    }
}

/// The matcher's search: obligations are taken from the end of `s`; a
/// variable binds or must agree with its binding; operators of one kind meet
/// their arguments; a pattern element of a variadic tries the parts of the
/// children in mask order and the first success wins. `fuel` bounds the
/// steps; the matcher always gives more than it needs.
pub open spec fn match_run(s: Seq<GroupView>, b: Map<Seq<char>, ExprView>, fuel: nat) -> Option<
    Map<Seq<char>, ExprView>,
>
    decreases fuel, 0int, 0int,
{
    if fuel == 0 {
        None
    } else if s.len() == 0 {
        Some(b)
    } else {
        let rest = s.subrange(0, s.len() - 1);
        let f = (fuel - 1) as nat;
        match s[s.len() - 1] {
            GroupView::Single(e, p) => match p {
                ExprView::Var(v) => if b.contains_key(v) {
                    if b[v] == e {
                        match_run(rest, b, f)
                    } else {
                        None
                    }
                } else {
                    match_run(rest, b.insert(v, e), f)
                },
                ExprView::Variadic(pk, ps) => match e {
                    ExprView::Variadic(ek, es) => if ek == pk {
                        match_run(rest.push(GroupView::Multiple(es, ps, ek)), b, f)
                    } else {
                        None
                    },
                    _ => None,
                },
                ExprView::Unary(pu, pa) => match e {
                    ExprView::Unary(eu, ea) => if eu == pu {
                        match_run(rest.push(GroupView::Single(*ea, *pa)), b, f)
                    } else {
                        None
                    },
                    _ => None,
                },
                _ => if e == p {
                    match_run(rest, b, f)
                } else {
                    None
                },
            },
            GroupView::Multiple(es, ps, k) => if ps.len() == 0 {
                if es.len() == 0 {
                    match_run(rest, b, f)
                } else {
                    None
                }
            } else {
                try_parts(rest, b, es, ps.subrange(0, ps.len() - 1), ps[ps.len() - 1], k, 0, f)
            },
        }
    }
}

/// The part given to a pattern element: a lone child itself, otherwise the
/// variadic of the part.
pub open spec fn part_value(picked: Seq<ExprView>, k: VariadicKind) -> ExprView {
    if picked.len() == 1 {
        picked[0]
    } else {
        crate::expression::variadic_of(k, picked)
    }
}

/// Masks from `n` on, for the pattern element `p` against the children `es`.
pub open spec fn try_parts(
    s: Seq<GroupView>,
    b: Map<Seq<char>, ExprView>,
    es: Seq<ExprView>,
    ps: Seq<ExprView>,
    p: ExprView,
    k: VariadicKind,
    n: u64,
    fuel: nat,
) -> Option<Map<Seq<char>, ExprView>>
    decreases fuel, 1int, limit_of(es.len(), p is Var) - n,
{
    if es.len() == 0 || n as int >= limit_of(es.len(), p is Var) || n == u64::MAX {
        None
    } else {
        let picked = part(es, n, p is Var, true);
        let other = part(es, n, p is Var, false);
        let next = s.push(GroupView::Multiple(other, ps, k)).push(GroupView::Single(part_value(picked, k), p));
        match match_run(next, b, fuel) {
            Some(b2) => Some(b2),
            None => try_parts(s, b, es, ps, p, k, (n + 1) as u64, fuel),
        }
    }
}

/// The matcher's result for `e` against the pattern `p`.
pub open spec fn match_spec(e: ExprView, p: ExprView) -> Option<Map<Seq<char>, ExprView>> {
    match_run(seq![GroupView::Single(e, p)], Map::empty(), psize(p) + 1)
}

/// The result agrees with the search's outcome.
pub open spec fn agrees(r: Result<Bindings, ()>, o: Option<Map<Seq<char>, ExprView>>) -> bool {
    (r is Ok <==> o is Some) && (r is Ok ==> r->Ok_0@ == o->Some_0)
}

/// Splits `list` in two: the chosen elements and the others, in order.
fn split(
    list: &Vec<Expression>,
    mask: u64,
    all_subsets: bool,
    Ghost(k): Ghost<VariadicKind>,
    Ghost(strict): Ghost<bool>,
) -> (r: (
    Vec<Expression>,
    Vec<Expression>,
))
    requires
        all_subsets ==> list@.len() < 64,
        elems_ok(views_of(list@), k, strict),
    ensures
        views_of(r.0@) == part(views_of(list@), mask, all_subsets, true),
        views_of(r.1@) == part(views_of(list@), mask, all_subsets, false),
        views_of(r.0@).to_multiset().add(views_of(r.1@).to_multiset()) == views_of(list@).to_multiset(),
        forall|i: int|
            0 <= i < r.0@.len() ==> canonical(#[trigger] r.0@[i]@) && (strict ==> flat(r.0@[i]@) && fits(r.0@[i]@, k)),
        forall|i: int|
            0 <= i < r.1@.len() ==> canonical(#[trigger] r.1@[i]@) && (strict ==> flat(r.1@[i]@) && fits(r.1@[i]@, k)),
{
    broadcast use vstd::seq_lib::group_to_multiset_ensures;
    broadcast use vstd::multiset::group_multiset_axioms;

    let mut picked: Vec<Expression> = Vec::new();
    let mut rest: Vec<Expression> = Vec::new();
    let mut i: usize = 0;
    proof {
        lemma_views_of(picked@);
        lemma_views_of(rest@);
        assert(list@.subrange(0, 0) =~= Seq::<Expression>::empty());
    }
    proof {
        lemma_views_of(list@);
        assert forall|j: int| 0 <= j < list@.len() implies canonical(#[trigger] list@[j]@) && (strict ==> flat(list@[j]@) && fits(list@[j]@, k)) by {
            assert(views_of(list@)[j] == list@[j]@);
        }
    }
    while i < list.len()
        invariant
            i <= list@.len(),
            all_subsets ==> list@.len() < 64,
            forall|j: int|
                0 <= j < list@.len() ==> canonical(#[trigger] list@[j]@) && (strict ==> flat(list@[j]@) && fits(list@[j]@, k)),
            views_of(picked@).to_multiset().add(views_of(rest@).to_multiset()) == views_of(
                list@.subrange(0, i as int),
            ).to_multiset(),
            views_of(picked@) == part(views_of(list@.subrange(0, i as int)), mask, all_subsets, true),
            views_of(rest@) == part(views_of(list@.subrange(0, i as int)), mask, all_subsets, false),
            forall|j: int|
                0 <= j < picked@.len() ==> canonical(#[trigger] picked@[j]@) && (strict ==> flat(picked@[j]@) && fits(
                    picked@[j]@,
                    k,
                )),
            forall|j: int|
                0 <= j < rest@.len() ==> canonical(#[trigger] rest@[j]@) && (strict ==> flat(rest@[j]@) && fits(rest@[j]@, k)),
        decreases list@.len() - i,
    {
        let take = if all_subsets {
            (mask >> (i as u64)) & 1u64 == 1u64
        } else {
            mask == i as u64
        };
        assert(take == chosen(mask, all_subsets, i as int));
        let e = list[i].duplicate();
        let ghost ev = e@;
        proof {
            assert(list@.subrange(0, i + 1).subrange(0, i as int) =~= list@.subrange(0, i as int));
            assert(views_of(list@.subrange(0, i + 1)) == views_of(list@.subrange(0, i as int)).push(list@[i as int]@));
            vstd::seq_lib::to_multiset_build(views_of(list@.subrange(0, i as int)), ev);
            let sv = views_of(list@.subrange(0, i + 1));
            let pv = views_of(list@.subrange(0, i as int));
            lemma_views_of(list@.subrange(0, i + 1));
            lemma_views_of(list@.subrange(0, i as int));
            assert(sv.subrange(0, sv.len() - 1) =~= pv);
            assert(sv[sv.len() - 1] == ev);
            assert(part(sv, mask, all_subsets, true) == if take {
                part(pv, mask, all_subsets, true).push(ev)
            } else {
                part(pv, mask, all_subsets, true)
            });
            assert(part(sv, mask, all_subsets, false) == if !take {
                part(pv, mask, all_subsets, false).push(ev)
            } else {
                part(pv, mask, all_subsets, false)
            });
        }
        if take {
            proof {
                crate::expression::lemma_views_of_push(picked@, e);
                vstd::seq_lib::to_multiset_build(views_of(picked@), ev);
            }
            picked.push(e);
        } else {
            proof {
                crate::expression::lemma_views_of_push(rest@, e);
                vstd::seq_lib::to_multiset_build(views_of(rest@), ev);
            }
            rest.push(e);
        }
        proof {
            assert(views_of(picked@).to_multiset().add(views_of(rest@).to_multiset()) =~= views_of(
                list@.subrange(0, i + 1),
            ).to_multiset());
        }
        i = i + 1;
    }
    assert(list@.subrange(0, i as int) =~= list@);
    (picked, rest)
}

/// Tries each way of giving `p` a part of `expr_list`, in order, and matches
/// the rest of the obligations after each.
fn try_subsets(
    stack: &Vec<MatchGroup>,
    bind: &Bindings,
    expr_list: &Vec<Expression>,
    patt_rest: &Vec<Expression>,
    p: &Expression,
    kind: VariadicKind,
    Ghost(strict): Ghost<bool>,
    Ghost(fuel): Ghost<nat>,
) -> (r: Result<Bindings, ()>)
    requires
        fuel > stack_size(stack_view(stack@)) + 1 + list_size(views_of(patt_rest@)) + psize(p@),
        wf_stack(stack_view(stack@), strict),
        wf_group(GroupView::Multiple(views_of(expr_list@), views_of(patt_rest@), kind), strict),
        values_canonical(bind@),
        strict ==> values_flat(bind@),
    ensures
        r is Ok ==> {
            let b2 = r->Ok_0@;
            &&& bind@.submap_of(b2)
            &&& values_canonical(b2)
            &&& strict ==> sat_all(stack_view(stack@), b2)
            &&& strict ==> sat(GroupView::Multiple(views_of(expr_list@), views_of(patt_rest@).push(p@), kind), b2)
            &&& strict ==> values_flat(b2)
        },
        agrees(r, try_parts(stack_view(stack@), bind@, views_of(expr_list@), views_of(patt_rest@), p@, kind, 0, fuel)),
    decreases stack_size(stack_view(stack@)) + 2 + list_size(views_of(patt_rest@)) + psize(p@), 0nat,
{
    broadcast use vstd::seq_lib::group_to_multiset_ensures;
    broadcast use vstd::multiset::group_multiset_axioms;

    let ghost sv = stack_view(stack@);
    let ghost ev = views_of(expr_list@);
    let ghost psv = views_of(patt_rest@);
    proof {
        lemma_views_of(expr_list@);
    }
    let esize = expr_list.len();
    if esize == 0 {
        return Err(());
    }
    let is_var = match p {
        Expression::Variable(_) => true,
        _ => false,
    };
    assert(is_var == (p@ is Var));
    if is_var && esize >= 64 {
        return Err(());
    }
    let limit: u64 = if is_var {
        1u64 << (esize as u64)
    } else {
        esize as u64
    };
    assert(limit as int == limit_of(ev.len(), p@ is Var));
    let mut n: u64 = 0;
    while n < limit
        invariant
            esize == expr_list@.len(),
            esize > 0,
            is_var ==> esize < 64,
            is_var == (p@ is Var),
            sv == stack_view(stack@),
            ev == views_of(expr_list@),
            psv == views_of(patt_rest@),
            limit as int == limit_of(ev.len(), p@ is Var),
            fuel > stack_size(stack_view(stack@)) + 1 + list_size(views_of(patt_rest@)) + psize(p@),
            try_parts(sv, bind@, ev, psv, p@, kind, 0, fuel) == try_parts(sv, bind@, ev, psv, p@, kind, n, fuel),
            wf_stack(stack_view(stack@), strict),
            wf_group(GroupView::Multiple(views_of(expr_list@), views_of(patt_rest@), kind), strict),
            views_of(expr_list@).len() == expr_list@.len(),
            forall|m: int| 0 <= m < expr_list@.len() ==> #[trigger] views_of(expr_list@)[m] == expr_list@[m]@,
            values_canonical(bind@),
            strict ==> values_flat(bind@),
        decreases limit - n,
    {
        let (picked, rest) = split(expr_list, n, is_var, Ghost(kind), Ghost(strict));
        let ghost pv = views_of(picked@);
        let x: Expression = if picked.len() == 1 {
            let mut picked = picked;
            proof {
                lemma_views_of(picked@);
            }
            picked.pop().unwrap()
        } else {
            proof {
                lemma_views_of(picked@);
            }
            let v = Variadic::new(picked, kind);
            proof {
                assert forall|m: int| 0 <= m < v.terms@.len() implies strict ==> fits(#[trigger] v.terms@[m], kind) && flat(
                    v.terms@[m],
                ) by {
                    lemma_same_elements(v.terms@, pv, m);
                    let j = choose|j: int| 0 <= j < pv.len() && pv[j] == v.terms@[m];
                    assert(pv[j] == picked@[j]@);
                }
            }
            Expression::Concrete(Concrete::Variadic(v))
        };
        let ghost xv = x@;
        proof {
            // what `x` contributes to the children is exactly the picked part
            if strict {
                if pv.len() == 1 {
                    assert(pv =~= seq![xv]);
                    assert(fits(xv, kind));
                } else {
                    assert(!fits(xv, kind));
                }
                assert(splice(xv, kind).to_multiset() == pv.to_multiset());
            }
        }
        proof {
            lemma_views_of(rest@);
            if pv.len() == 1 {
                assert(pv[0] == picked@[0]@);
            }
            assert(canonical(xv) && (strict ==> flat(xv)));
        }
        let mut next = dup_stack(stack);
        let g1 = MatchGroup::Multiple { expr_list: rest, patt_list: dup_list(patt_rest), kind };
        let g2 = MatchGroup::Single { expr: x, patt: p.duplicate() };
        proof {
            lemma_stack_push(next@, g1);
            lemma_stack_push(next@.push(g1), g2);
        }
        let ghost g1v = group_view(g1);
        let ghost g2v = group_view(g2);
        proof {
            assert(wf_group(g1v, strict));
            assert(wf_group(g2v, strict));
        }
        next.push(g1);
        next.push(g2);
        proof {
            let s = stack_view(stack@);
            let s2 = stack_view(next@);
            assert(s2 == s.push(g1v).push(g2v));
            assert forall|i: int| 0 <= i < s2.len() implies wf_group(#[trigger] s2[i], strict) by {
                if i < s.len() {
                    assert(s2[i] == s[i]);
                }
            }
        }
        proof {
            assert(part_value(pv, kind) == xv) by {
                if pv.len() == 1 {
                    assert(pv[0] == picked@[0]@);
                }
            }
            assert(stack_size(stack_view(next@)) == stack_size(sv) + 1 + list_size(psv) + psize(p@));
        }
        let bd = bind.duplicate();
        let res = match_pattern_rec(next, bd, Ghost(strict), Ghost(fuel));
        proof {
            assert(stack_view(next@) == sv.push(GroupView::Multiple(views_of(rest@), psv, kind)).push(
                GroupView::Single(part_value(pv, kind), p@),
            ));
        }
        match res {
            Ok(b2) => {
                proof {
                  if strict {
                    let s = stack_view(stack@);
                    let s2 = s.push(g1v).push(g2v);
                    assert forall|i: int| 0 <= i < s.len() implies sat(#[trigger] s[i], b2@) by {
                        assert(s2[i] == s[i]);
                    }
                    assert(sat(s2[s.len() as int], b2@));
                    assert(sat(s2[s.len() as int + 1], b2@));
                    let ps = views_of(patt_rest@).push(p@);
                    assert(ps.subrange(0, ps.len() - 1) =~= views_of(patt_rest@));
                    let s1 = replace_list(views_of(patt_rest@), kind, b2@)->Some_0;
                    vstd::seq_lib::lemma_multiset_commutative(s1, splice(xv, kind));
                    assert(replace_list(ps, kind, b2@) == Some(s1 + splice(xv, kind)));
                    assert((s1 + splice(xv, kind)).to_multiset() =~= views_of(expr_list@).to_multiset());
                  }
                }
                return Ok(b2);
            },
            Err(()) => {},
        }
        n = n + 1;
    }
    Err(())
}


proof fn lemma_submap_get(a: Map<Seq<char>, ExprView>, b: Map<Seq<char>, ExprView>, k: Seq<char>)
    requires
        a.submap_of(b),
        a.contains_key(k),
    ensures
        b.contains_key(k),
        b[k] == a[k],
{
    assert(a.dom().contains(k) && (b.dom().contains(k) || !b.dom().contains(k)));
    assert(a.dom().contains(k) ==> b.dom().contains(k) && a[k] == b[k]);
}

proof fn lemma_submap_trans(a: Map<Seq<char>, ExprView>, b: Map<Seq<char>, ExprView>, c: Map<Seq<char>, ExprView>)
    requires
        a.submap_of(b),
        b.submap_of(c),
    ensures
        a.submap_of(c),
{
    assert forall|k: Seq<char>| #[trigger] a.dom().contains(k) implies c.dom().contains(k) && a[k] == c[k] by {
        lemma_submap_get(a, b, k);
        lemma_submap_get(b, c, k);
    }
}

/// A single obligation: an expression against a variable.
spec fn lone_var(s: Seq<GroupView>) -> bool {
    s.len() == 1 && match s[0] {
        GroupView::Single(_, ExprView::Var(_)) => true,
        _ => false,
    }
}

spec fn lone_binding(s: Seq<GroupView>) -> Map<Seq<char>, ExprView> {
    match s[0] {
        GroupView::Single(e, ExprView::Var(v)) => Map::empty().insert(v, e),
        _ => Map::empty(),
    }
}

proof fn lemma_leads(
    base: Seq<GroupView>,
    gv: GroupView,
    cur: Seq<GroupView>,
    b_before: Map<Seq<char>, ExprView>,
    b_now: Map<Seq<char>, ExprView>,
    orig: Seq<GroupView>,
    strict: bool,
)
    requires
        strict ==> leads_to(base.push(gv), b_before, orig),
        b_before.submap_of(b_now),
        forall|b2: Map<Seq<char>, ExprView>| #[trigger] b_now.submap_of(b2) && sat_all(cur, b2) ==> sat_all(base, b2) && sat(gv, b2),
    ensures
        strict ==> leads_to(cur, b_now, orig),
{
  if strict {
    assert forall|b2: Map<Seq<char>, ExprView>| #[trigger] b_now.submap_of(b2) && sat_all(cur, b2) implies sat_all(orig, b2) by {
        lemma_submap_trans(b_before, b_now, b2);
        let sb = base.push(gv);
        assert forall|i: int| 0 <= i < sb.len() implies sat(#[trigger] sb[i], b2) by {
            if i < base.len() {
                assert(sb[i] == base[i]);
            }
        }
    }
  }
}

fn match_pattern_rec(stack: Vec<MatchGroup>, bind: Bindings, Ghost(strict): Ghost<bool>, Ghost(fuel): Ghost<nat>) -> (r:
    Result<Bindings, ()>)
    requires
        fuel > stack_size(stack_view(stack@)),
        wf_stack(stack_view(stack@), strict),
        values_canonical(bind@),
        strict ==> values_flat(bind@),
    ensures
        r is Ok ==> {
            let b2 = r->Ok_0@;
            &&& bind@.submap_of(b2)
            &&& values_canonical(b2)
            &&& strict ==> sat_all(stack_view(stack@), b2)
            &&& strict ==> values_flat(b2)
        },
        lone_var(stack_view(stack@)) && bind@ == Map::<Seq<char>, ExprView>::empty() ==> r is Ok && r->Ok_0@
            == lone_binding(stack_view(stack@)),
        agrees(r, match_run(stack_view(stack@), bind@, fuel)),
    decreases stack_size(stack_view(stack@)), 1nat,
{
    let ghost orig = stack_view(stack@);
    let ghost bind0 = bind@;
    let ghost entry = stack_size(orig);
    let ghost lone = lone_var(orig) && bind0 == Map::<Seq<char>, ExprView>::empty();
    let mut work = stack;
    let mut acc = bind;
    let ghost mut f: nat = fuel;
    while work.len() > 0
        invariant
            f > stack_size(stack_view(work@)),
            match_run(stack_view(work@), acc@, f) == match_run(orig, bind0, fuel),
            orig == stack_view(stack@),
            bind0 == bind@,
            lone == (lone_var(orig) && bind0 == Map::<Seq<char>, ExprView>::empty()),
            wf_stack(stack_view(work@), strict),
            values_canonical(acc@),
            strict ==> values_flat(acc@),
            bind0.submap_of(acc@),
            strict ==> leads_to(stack_view(work@), acc@, orig),
            stack_size(stack_view(work@)) <= entry,
            entry == stack_size(orig),
            lone ==> lone_var(orig) && bind0 == Map::<Seq<char>, ExprView>::empty(),
            lone ==> (stack_view(work@) == orig && acc@ == bind0) || (work@.len() == 0 && acc@
                == lone_binding(orig)),
        decreases stack_size(stack_view(work@)),
    {
        let ghost before = work@;
        let ghost bind_before = acc@;
        proof {
            lemma_stack_pop(before);
        }
        let g = work.pop().unwrap();
        let ghost gv = group_view(g);
        proof {
            assert(work@ == before.subrange(0, before.len() - 1));
            let s = stack_view(work@);
            assert(stack_view(before) == s.push(gv));
            assert(wf_group(gv, strict)) by {
                assert(stack_view(before)[s.len() as int] == gv);
            }
            assert forall|i: int| 0 <= i < s.len() implies wf_group(#[trigger] s[i], strict) by {
                assert(stack_view(before)[i] == s[i]);
            }
        }
        let ghost base = stack_view(work@);
        let ghost f0 = f;
        proof {
            let bv = stack_view(before);
            assert(bv.subrange(0, bv.len() - 1) =~= base);
            assert(bv[bv.len() - 1] == gv);
            assert(match_run(bv, bind_before, f) == match_run(orig, bind0, fuel));
            if lone {
                assert(stack_view(before) == orig);
                assert(base.len() == 0);
                assert(gv == orig[0]);
                assert(acc@ == Map::<Seq<char>, ExprView>::empty());
            }
        }
        match g {
            MatchGroup::Single { expr, patt } => {
                let ghost ev = expr@;
                match patt {
                    Expression::Variable(pv) => {
                        let ghost v = pv.id.0@;
                        let ok = match acc.get(&pv) {
                            Some(old_e) => old_e.same(&expr),
                            None => true,
                        };
                        if !ok {
                            return Err(());
                        }
                        if acc.get(&pv).is_none() {
                            acc.insert(pv, expr);
                        }
                        proof {
                            assert(acc@.contains_key(v) && acc@[v] == ev);
                            assert forall|b2: Map<Seq<char>, ExprView>| #[trigger] acc@.submap_of(b2) && sat_all(
                                stack_view(work@),
                                b2,
                            ) implies sat_all(base, b2) && sat(gv, b2) by {
                                lemma_submap_get(acc@, b2, v);
                            }
                            lemma_leads(base, gv, stack_view(work@), bind_before, acc@, orig, strict);
                        }
                    },
                    Expression::Concrete(pc) => {
                        match (expr, pc) {
                            (
                                Expression::Concrete(Concrete::Variadic(ev2)),
                                Concrete::Variadic(pvar),
                            ) => {
                                if ev2.kind != pvar.kind {
                                    return Err(());
                                }
                                let ghost et = ev2.terms@;
                                let ghost pt = pvar.terms@;
                                let ghost k = ev2.kind;
                                let g2 = MatchGroup::Multiple {
                                    expr_list: ev2.terms.into_iter(),
                                    patt_list: pvar.terms.into_iter(),
                                    kind: ev2.kind,
                                };
                                let ghost hv = group_view(g2);
                                proof {
                                    lemma_stack_push(work@, g2);
                                    lemma_arrange(et);
                                    assert(hv == GroupView::Multiple(et, pt, k));
                                }
                                work.push(g2);
                                proof {
                                    let cur = stack_view(work@);
                                    assert(cur == base.push(hv));
                                    assert forall|i: int| 0 <= i < cur.len() implies wf_group(#[trigger] cur[i], strict) by {
                                        if i < base.len() {
                                            assert(cur[i] == base[i]);
                                        }
                                    }
                                    assert forall|b2: Map<Seq<char>, ExprView>| #[trigger] acc@.submap_of(b2)
                                        && sat_all(cur, b2) implies sat_all(base, b2) && sat(gv, b2) by {
                                        assert forall|i: int| 0 <= i < base.len() implies sat(#[trigger] base[i], b2) by {
                                            assert(cur[i] == base[i]);
                                        }
                                        assert(sat(cur[base.len() as int], b2));
                                    }
                                    lemma_leads(base, gv, cur, bind_before, acc@, orig, strict);
                                }
                            },
                            (Expression::Concrete(Concrete::Unary(eu)), Concrete::Unary(pu)) => {
                                if !eu.kind.same(&pu.kind) {
                                    return Err(());
                                }
                                let g2 = MatchGroup::Single { expr: *eu.argument, patt: *pu.argument };
                                let ghost hv = group_view(g2);
                                proof {
                                    lemma_stack_push(work@, g2);
                                }
                                work.push(g2);
                                proof {
                                    let cur = stack_view(work@);
                                    assert(cur == base.push(hv));
                                    assert forall|i: int| 0 <= i < cur.len() implies wf_group(#[trigger] cur[i], strict) by {
                                        if i < base.len() {
                                            assert(cur[i] == base[i]);
                                        }
                                    }
                                    assert forall|b2: Map<Seq<char>, ExprView>| #[trigger] acc@.submap_of(b2)
                                        && sat_all(cur, b2) implies sat_all(base, b2) && sat(gv, b2) by {
                                        assert forall|i: int| 0 <= i < base.len() implies sat(#[trigger] base[i], b2) by {
                                            assert(cur[i] == base[i]);
                                        }
                                        assert(sat(cur[base.len() as int], b2));
                                    }
                                    lemma_leads(base, gv, cur, bind_before, acc@, orig, strict);
                                }
                            },
                            (Expression::Concrete(Concrete::Literal(el)), Concrete::Literal(pl)) => {
                                if !el.value.same(&pl.value) {
                                    return Err(());
                                }
                                proof {
                                    assert forall|b2: Map<Seq<char>, ExprView>| #[trigger] acc@.submap_of(b2)
                                        && sat_all(base, b2) implies sat_all(base, b2) && sat(gv, b2) by {}
                                    lemma_leads(base, gv, base, bind_before, acc@, orig, strict);
                                }
                            },
                            _ => {
                                return Err(());
                            },
                        }
                    },
                }
            },
            MatchGroup::Multiple { expr_list, patt_list, kind } => {
                let mut patt_rest = patt_list;
                if patt_rest.len() > 0 {
                    let ghost pl = patt_rest@;
                    let p = patt_rest.pop().unwrap();
                    proof {
                        assert(patt_rest@ == pl.subrange(0, pl.len() - 1));
                        lemma_views_of(pl);
                        lemma_views_of(patt_rest@);
                        assert(views_of(pl) =~= views_of(patt_rest@).push(p@));
                        assert(views_of(pl).subrange(0, views_of(pl).len() - 1) =~= views_of(patt_rest@));
                        assert(gv == GroupView::Multiple(views_of(expr_list@), views_of(pl), kind));
                        assert(list_size(views_of(pl)) == list_size(views_of(patt_rest@)) + psize(p@) + 1);
                        assert(wf_group(gv, strict));
                        assert(wf_group(GroupView::Multiple(views_of(expr_list@), views_of(patt_rest@), kind), strict));
                        assert(stack_size(stack_view(work@)) + 2 + list_size(views_of(patt_rest@)) + psize(p@) <= entry);
                    }
                    match try_subsets(&work, &acc, &expr_list, &patt_rest, &p, kind, Ghost(strict), Ghost((f - 1) as nat)) {
                        Ok(b2) => {
                            proof {
                              if strict {
                                assert(sat_all(base.push(gv), b2@)) by {
                                    assert forall|i: int| 0 <= i < base.push(gv).len() implies sat(
                                        #[trigger] base.push(gv)[i],
                                        b2@,
                                    ) by {
                                        if i < base.len() {
                                            assert(base.push(gv)[i] == base[i]);
                                        }
                                    }
                                }
                                assert(bind_before.submap_of(b2@));
                                assert(sat_all(orig, b2@));
                              }
                              lemma_submap_trans(bind0, bind_before, b2@);
                            }
                            return Ok(b2);
                        },
                        Err(()) => {
                            return Err(());
                        },
                    }
                } else if expr_list.len() != 0 {
                    return Err(());
                }
                proof {
                    lemma_views_of(expr_list@);
                    lemma_views_of(patt_rest@);
                    assert(views_of(expr_list@) =~= Seq::<ExprView>::empty());
                    assert(views_of(patt_rest@) =~= Seq::<ExprView>::empty());
                    assert forall|b2: Map<Seq<char>, ExprView>| #[trigger] acc@.submap_of(b2) && sat_all(base, b2) implies sat_all(base, b2)
                        && sat(gv, b2) by {
                        assert(Seq::<ExprView>::empty().to_multiset() =~= views_of(expr_list@).to_multiset());
                    }
                    lemma_leads(base, gv, base, bind_before, acc@, orig, strict);
                }
            },
        }
        proof {
            f = (f0 - 1) as nat;
        }
    }
    proof {
        assert(acc@.submap_of(acc@));
        assert(sat_all(stack_view(work@), acc@));
    }
    Ok(acc)
}

/// Matches `expr` against the pattern `patt`. On success the bindings give
/// every variable of the pattern a part of `expr`; when `expr` is flat,
/// replacing the variables of `patt` by them gives back `expr`. A pattern that
/// is a single variable always matches, binding the whole expression.
pub fn match_pattern(expr: Expression, patt: Expression) -> (r: Result<Bindings, ()>)
    requires
        canonical(expr@),
    ensures
        r is Ok ==> values_canonical(r->Ok_0@),
        r is Ok && flat(expr@) ==> replace_spec(patt@, r->Ok_0@) == Some(expr@) && values_flat(r->Ok_0@),
        patt@ is Var ==> r is Ok && r->Ok_0@ == Map::<Seq<char>, ExprView>::empty().insert(patt@->Var_0, expr@),
        agrees(r, match_spec(expr@, patt@)),
{
    let ghost strict = flat(expr@);
    let ghost ev = expr@;
    let ghost pv = patt@;
    let mut stack: Vec<MatchGroup> = Vec::new();
    let g = MatchGroup::Single { expr, patt };
    proof {
        lemma_stack_push(stack@, g);
        assert(stack_view(stack@) =~= Seq::<GroupView>::empty());
    }
    stack.push(g);
    proof {
        assert(stack_view(stack@)[0] == GroupView::Single(ev, pv));
    }
    proof {
        assert(stack_view(stack@) =~= seq![GroupView::Single(ev, pv)]);
        assert(stack_size(seq![GroupView::Single(ev, pv)]) == psize(pv)) by {
            assert(seq![GroupView::Single(ev, pv)].subrange(0, 0) =~= Seq::<GroupView>::empty());
        }
    }
    let r = match_pattern_rec(stack, Bindings::new(), Ghost(strict), Ghost(psize(pv) + 1));
    proof {
        if r is Ok && strict {
            assert(sat(stack_view(stack@)[0], r->Ok_0@));
        }
    }
    r
}

} // verus!
