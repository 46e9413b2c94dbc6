//! Rules and the driver that applies them: one rule at the root, one rule
//! everywhere until nothing changes, and a set of rules until a fixed point.

use vstd::prelude::*;
use crate::expression::{Concrete, Expression, ExprView, Unary, Variadic, all_canonical, canonical, lemma_views_of, views_of};
use crate::pattern::{match_pattern, match_spec};
use crate::replace::{flat, replace_spec, replace_variable};

verus! {

/// How many times a loop of the driver may go round before it gives up on
/// reaching a fixed point.
pub const STEP_LIMIT: u64 = 1000;

#[derive(Debug)]
pub struct Rule {
    pub pattern: Expression,
    pub replacement: Expression,
    pub kind: RuleKind,
}

#[derive(Clone, Copy, Debug, PartialEq, Eq, Structural, PartialOrd, Ord)]
pub enum RuleKind {
    Replacement,
    Equality,
}

/// `r` is what the rule with these sides makes of `e` at its root: some
/// bindings turn the pattern into `e` and the replacement into `r`.
pub open spec fn rewrites(e: ExprView, pattern: ExprView, replacement: ExprView, r: ExprView) -> bool {
    exists|b: Map<Seq<char>, ExprView>| replace_spec(pattern, b) == Some(e) && replace_spec(replacement, b) == Some(r)
}

impl Rule {
    pub fn duplicate(&self) -> (r: Rule)
        ensures
            r.pattern@ == self.pattern@,
            r.replacement@ == self.replacement@,
            r.kind == self.kind,
    {
        Rule { pattern: self.pattern.duplicate(), replacement: self.replacement.duplicate(), kind: self.kind }
    }

    pub fn same(&self, other: &Rule) -> (r: bool)
        ensures
            r == (self.pattern@ == other.pattern@ && self.replacement@ == other.replacement@ && self.kind == other.kind),
    {
        self.kind == other.kind && self.pattern.same(&other.pattern) && self.replacement.same(&other.replacement)
    }
}

impl PartialEq for Rule {
    fn eq(&self, other: &Rule) -> bool {
        self.same(other)
    }
}

impl vstd::std_specs::cmp::PartialEqSpecImpl for Rule {
    open spec fn obeys_eq_spec() -> bool {
        true
    }

    open spec fn eq_spec(&self, other: &Rule) -> bool {
        self.pattern@ == other.pattern@ && self.replacement@ == other.replacement@ && self.kind == other.kind
    }
}

/// Applies `rule` at the root of `expr`: the instantiated replacement when the
/// pattern matches, else `expr` itself as the error.
pub fn apply_rule(expr: Expression, rule: &Rule) -> (r: Result<Expression, Expression>)
    requires
        canonical(expr@),
    ensures
        match r {
            Ok(x) => canonical(x@) && (flat(expr@) ==> flat(x@) && rewrites(expr@, rule.pattern@, rule.replacement@, x@)),
            Err(x) => x@ == expr@,
        },
        rule.pattern@ is Var && rule.replacement@ == rule.pattern@ ==> r is Ok && r->Ok_0@ == expr@,
        match match_spec(expr@, rule.pattern@) {
            Some(b) => match replace_spec(rule.replacement@, b) {
                Some(x) => r is Ok && r->Ok_0@ == x,
                None => r is Err && r->Err_0@ == expr@,
            },
            None => r is Err && r->Err_0@ == expr@,
        },
{
    match match_pattern(expr.duplicate(), rule.pattern.duplicate()) {
        Ok(bind) => {
            let ghost b = bind@;
            match replace_variable(rule.replacement.duplicate(), &bind) {
                Ok(x) => {
                    proof {
                        if flat(expr@) {
                            assert(replace_spec(rule.pattern@, b) == Some(expr@));
                        }
                    }
                    Ok(x)
                },
                Err(()) => Err(expr),
            }
        },
        Err(()) => Err(expr),
    }
}

/// What a rule makes of `e` at its root: the instantiated replacement when
/// the matcher succeeds and the replacement's variables are bound, else `e`.
pub open spec fn rule_step(e: ExprView, r: (ExprView, ExprView, RuleKind)) -> ExprView {
    match match_spec(e, r.0) {
        Some(b) => match replace_spec(r.1, b) {
            Some(x) => x,
            None => e,
        },
        None => e,
    }
}

/// Rewriting everywhere, children first, for at most `fuel` rounds at each
/// level: the result, and whether a round changed nothing.
pub open spec fn transform_spec(e: ExprView, r: (ExprView, ExprView, RuleKind), fuel: nat) -> (ExprView, bool)
    decreases fuel, 2int, 0int,
{
    rounds(e, r, fuel, fuel)
}

/// Rounds from `e`, at most `left` of them: rebuild from the transformed
/// children, apply the rule at the root, stop when nothing changed.
pub open spec fn rounds(e: ExprView, r: (ExprView, ExprView, RuleKind), fuel: nat, left: nat) -> (ExprView, bool)
    decreases fuel, 1int, left,
{
    if left == 0 {
        (e, false)
    } else {
        let x = rule_step(rebuild(e, r, fuel), r);
        if x == e {
            (x, true)
        } else {
            rounds(x, r, fuel, (left - 1) as nat)
        }
    }
}

/// `e` with each child transformed (with one less round of fuel).
pub open spec fn rebuild(e: ExprView, r: (ExprView, ExprView, RuleKind), fuel: nat) -> ExprView
    decreases fuel, 0int, 0int,
{
    if fuel == 0 {
        e
    } else {
        match e {
            ExprView::Variadic(k, ts) => crate::expression::variadic_of(k, tmap(ts, r, (fuel - 1) as nat)),
            ExprView::Unary(u, a) => ExprView::Unary(u, Box::new(transform_spec(*a, r, (fuel - 1) as nat).0)),
            _ => e,
        }
    }
}

pub open spec fn tmap(ts: Seq<ExprView>, r: (ExprView, ExprView, RuleKind), fuel: nat) -> Seq<ExprView>
    decreases fuel, 3int, ts.len(),
{
    if ts.len() == 0 {
        Seq::empty()
    } else {
        tmap(ts.subrange(0, ts.len() - 1), r, fuel).push(transform_spec(ts[ts.len() - 1], r, fuel).0)
    }
}

/// One pass: each rule in turn, everywhere.
pub open spec fn pass_spec(e: ExprView, rs: Seq<(ExprView, ExprView, RuleKind)>) -> ExprView
    decreases rs.len(),
{
    if rs.len() == 0 {
        e
    } else {
        transform_spec(pass_spec(e, rs.subrange(0, rs.len() - 1)), rs[rs.len() - 1], STEP_LIMIT as nat).0
    }
}

/// Passes until one changes nothing, at most `left` of them: the result, and
/// whether that fixed point was reached.
pub open spec fn saturate_spec(e: ExprView, rs: Seq<(ExprView, ExprView, RuleKind)>, left: nat) -> (ExprView, bool)
    decreases left,
{
    if left == 0 {
        (e, false)
    } else {
        let x = pass_spec(e, rs);
        if x == e {
            (x, true)
        } else {
            saturate_spec(x, rs, (left - 1) as nat)
        }
    }
}

/// When rewriting everywhere reached a fixed point, one more round changes
/// nothing.
pub proof fn lemma_transform_fixed(e: ExprView, r: (ExprView, ExprView, RuleKind), fuel: nat, left: nat)
    requires
        rounds(e, r, fuel, left).1,
    ensures
        rule_step(rebuild(rounds(e, r, fuel, left).0, r, fuel), r) == rounds(e, r, fuel, left).0,
    decreases left,
{
    if left > 0 {
        let x = rule_step(rebuild(e, r, fuel), r);
        if x != e {
            lemma_transform_fixed(x, r, fuel, (left - 1) as nat);
        }
    }
}

/// When saturation reached a fixed point, one more pass changes nothing.
pub proof fn lemma_saturate_fixed(e: ExprView, rs: Seq<(ExprView, ExprView, RuleKind)>, left: nat)
    requires
        saturate_spec(e, rs, left).1,
    ensures
        pass_spec(saturate_spec(e, rs, left).0, rs) == saturate_spec(e, rs, left).0,
    decreases left,
{
    if left > 0 {
        let x = pass_spec(e, rs);
        if x != e {
            lemma_saturate_fixed(x, rs, (left - 1) as nat);
        }
    }
}

/// Saturating a fixed point of saturation gives it back at once.
pub proof fn lemma_saturate_idempotent(e: ExprView, rs: Seq<(ExprView, ExprView, RuleKind)>, left: nat, again: nat)
    requires
        saturate_spec(e, rs, left).1,
        again > 0,
    ensures
        saturate_spec(saturate_spec(e, rs, left).0, rs, again) == saturate_spec(e, rs, left),
{
    lemma_saturate_fixed(e, rs, left);
}

/// `rule` applied to `expr` where it matches, `expr` itself where it does not.
fn apply_or_keep(expr: Expression, rule: &Rule) -> (r: Expression)
    requires
        canonical(expr@),
    ensures
        canonical(r@),
        r@ == rule_step(expr@, rule_view(*rule)),
{
    match apply_rule(expr, rule) {
        Ok(x) => x,
        Err(x) => x,
    }
}

/// `expr` with its children transformed.
fn rebuild_exec(expr: &Expression, rule: &Rule, fuel: u64) -> (r: Expression)
    requires
        canonical(expr@),
        fuel > 0,
    ensures
        canonical(r@),
        r@ == rebuild(expr@, rule_view(*rule), fuel as nat),
    decreases fuel, 0int,
{
    let ghost rv = rule_view(*rule);
    match expr {
        Expression::Concrete(Concrete::Variadic(v)) => {
            let ghost ts = v.terms@;
            let items = &v.terms.items;
            proof {
                lemma_views_of(items@);
            }
            let mut out: Vec<Expression> = Vec::new();
            let mut i: usize = 0;
            proof {
                lemma_views_of(out@);
                assert(ts.subrange(0, 0) =~= Seq::<ExprView>::empty());
            }
            while i < items.len()
                invariant
                    fuel > 0,
                    rv == rule_view(*rule),
                    i <= items@.len(),
                    items@ == v.terms.items@,
                    ts == views_of(items@),
                    ts.len() == items@.len(),
                    all_canonical(ts),
                    all_canonical(views_of(out@)),
                    views_of(out@) == tmap(ts.subrange(0, i as int), rv, (fuel - 1) as nat),
                decreases items@.len() - i,
            {
                proof {
                    lemma_views_of(items@);
                }
                let c = items[i].duplicate();
                assert(canonical(ts[i as int]));
                let t = transform_limited(c, rule, fuel - 1).0;
                proof {
                    crate::expression::lemma_views_of_push(out@, t);
                    lemma_views_of(out@);
                    lemma_views_of(out@.push(t));
                    assert forall|m: int| 0 <= m < out@.len() + 1 implies canonical(#[trigger] views_of(out@.push(t))[m]) by {
                        if m < out@.len() {
                            assert(views_of(out@.push(t))[m] == views_of(out@)[m]);
                        }
                    }
                    let sub = ts.subrange(0, i + 1);
                    assert(sub.subrange(0, sub.len() - 1) =~= ts.subrange(0, i as int));
                    assert(sub[sub.len() - 1] == ts[i as int]);
                    assert(ts[i as int] == items@[i as int]@);
                    assert(tmap(sub, rv, (fuel - 1) as nat) == tmap(ts.subrange(0, i as int), rv, (fuel - 1) as nat).push(t@));
                }
                out.push(t);
                i = i + 1;
            }
            assert(ts.subrange(0, i as int) =~= ts);
            Expression::Concrete(Concrete::Variadic(Variadic::new(out, v.kind)))
        },
        Expression::Concrete(Concrete::Unary(u)) => {
            let a = transform_limited(u.argument.duplicate(), rule, fuel - 1).0;
            Expression::Concrete(Concrete::Unary(Unary { argument: Box::new(a), kind: u.kind.duplicate() }))
        },
        _ => expr.duplicate(),
    }
}

/// Rewrites the children, then the root, and repeats while anything changes,
/// for at most `fuel` rounds at each level. The flag tells whether a round
/// that changed nothing was reached.
pub fn transform_limited(input: Expression, rule: &Rule, fuel: u64) -> (r: (Expression, bool))
    requires
        canonical(input@),
    ensures
        canonical(r.0@),
        (r.0@, r.1) == transform_spec(input@, rule_view(*rule), fuel as nat),
    decreases fuel, 1int,
{
    let ghost rv = rule_view(*rule);
    let mut expr = input;
    let mut round: u64 = 0;
    while round < fuel
        invariant
            canonical(expr@),
            rv == rule_view(*rule),
            round <= fuel,
            rounds(expr@, rv, fuel as nat, (fuel - round) as nat) == transform_spec(input@, rv, fuel as nat),
        decreases fuel - round,
    {
        let previous = expr.duplicate();
        let rebuilt = rebuild_exec(&expr, rule, fuel);
        expr = apply_or_keep(rebuilt, rule);
        if expr.same(&previous) {
            return (expr, true);
        }
        round = round + 1;
    }
    (expr, false)
}

/// Applies `rule` at every position of `expr`, children first, until a round
/// changes nothing (or the step limit is reached; `transform_limited` reports
/// which).
pub fn transform_recursive(expr: Expression, rule: &Rule) -> (r: Expression)
    requires
        canonical(expr@),
    ensures
        canonical(r@),
        r@ == transform_spec(expr@, rule_view(*rule), STEP_LIMIT as nat).0,
{
    transform_limited(expr, rule, STEP_LIMIT).0
}

/// Saturates `expr` under `ruleset`: passes that apply each rule in turn
/// everywhere, until a pass changes nothing or the step limit is reached. The
/// flag tells whether the fixed point was reached.
pub fn saturate(input: Expression, ruleset: &Vec<Rule>) -> (r: (Expression, bool))
    requires
        canonical(input@),
    ensures
        canonical(r.0@),
        (r.0@, r.1) == saturate_spec(input@, rule_views(ruleset@), STEP_LIMIT as nat),
{
    let ghost rs = rule_views(ruleset@);
    let mut expr = input;
    let mut pass: u64 = 0;
    while pass < STEP_LIMIT
        invariant
            canonical(expr@),
            pass <= STEP_LIMIT,
            rs == rule_views(ruleset@),
            saturate_spec(expr@, rs, (STEP_LIMIT - pass) as nat) == saturate_spec(input@, rs, STEP_LIMIT as nat),
        decreases STEP_LIMIT - pass,
    {
        let previous = expr.duplicate();
        let mut i: usize = 0;
        assert(rs.subrange(0, 0) =~= Seq::<(ExprView, ExprView, RuleKind)>::empty());
        while i < ruleset.len()
            invariant
                canonical(expr@),
                i <= ruleset@.len(),
                rs == rule_views(ruleset@),
                expr@ == pass_spec(previous@, rs.subrange(0, i as int)),
            decreases ruleset@.len() - i,
        {
            expr = transform_recursive(expr, &ruleset[i]);
            proof {
                let sub = rs.subrange(0, i + 1);
                assert(sub.subrange(0, sub.len() - 1) =~= rs.subrange(0, i as int));
                assert(sub[sub.len() - 1] == rule_view(ruleset@[i as int]));
            }
            i = i + 1;
        }
        assert(rs.subrange(0, i as int) =~= rs);
        if expr.same(&previous) {
            return (expr, true);
        }
        pass = pass + 1;
    }
    (expr, false)
}

/// Saturates `expr` under `ruleset` (see `saturate`).
pub fn apply_ruleset(input: Expression, ruleset: &Vec<Rule>) -> (r: Expression)
    requires
        canonical(input@),
    ensures
        canonical(r@),
        r@ == saturate_spec(input@, rule_views(ruleset@), STEP_LIMIT as nat).0,
{
    saturate(input, ruleset).0
}

/// What a rule says: its two sides and its kind.
pub open spec fn rule_view(r: Rule) -> (ExprView, ExprView, RuleKind) {
    (r.pattern@, r.replacement@, r.kind)
}

pub open spec fn rule_views(s: Seq<Rule>) -> Seq<(ExprView, ExprView, RuleKind)> {
    s.map_values(|r: Rule| rule_view(r))
}

/// The rules of the sets one after another.
pub open spec fn all_rules(s: Seq<&Vec<Rule>>) -> Seq<(ExprView, ExprView, RuleKind)>
    decreases s.len(),
{
    if s.len() == 0 {
        Seq::empty()
    } else {
        all_rules(s.subrange(0, s.len() - 1)) + rule_views(s[s.len() - 1]@)
    }
}

/// The rules of all the given sets, in order.
pub fn ruleset_combiner(rule_sources: &Vec<&Vec<Rule>>) -> (r: Vec<Rule>)
    ensures
        rule_views(r@) == all_rules(rule_sources@),
{
    let mut out: Vec<Rule> = Vec::new();
    let mut i: usize = 0;
    assert(rule_views(out@) =~= all_rules(rule_sources@.subrange(0, 0)));
    while i < rule_sources.len()
        invariant
            i <= rule_sources@.len(),
            rule_views(out@) == all_rules(rule_sources@.subrange(0, i as int)),
        decreases rule_sources@.len() - i,
    {
        let src: &Vec<Rule> = rule_sources[i];
        let mut j: usize = 0;
        let ghost base = rule_views(out@);
        assert(rule_views(src@).subrange(0, 0) =~= Seq::<(ExprView, ExprView, RuleKind)>::empty());
        assert(base + rule_views(src@).subrange(0, 0) =~= base);
        while j < src.len()
            invariant
                j <= src@.len(),
                rule_views(out@) == base + rule_views(src@).subrange(0, j as int),
            decreases src@.len() - j,
        {
            let ghost before = out@;
            let d = src[j].duplicate();
            assert(rule_view(d) == rule_view(src@[j as int]));
            out.push(d);
            assert(rule_views(out@) =~= rule_views(before).push(rule_view(src@[j as int])));
            assert(rule_views(src@).subrange(0, j + 1) =~= rule_views(src@).subrange(0, j as int).push(
                rule_view(src@[j as int]),
            ));
            assert(rule_views(out@) =~= base + rule_views(src@).subrange(0, j + 1));
            j = j + 1;
        }
        proof {
            assert(rule_views(src@).subrange(0, j as int) =~= rule_views(src@));
            assert(rule_sources@.subrange(0, i + 1).subrange(0, i as int) =~= rule_sources@.subrange(0, i as int));
        }
        i = i + 1;
    }
    proof {
        assert(rule_sources@.subrange(0, i as int) =~= rule_sources@);
    }
    out
}

/// Both sides of every rule saturated under `by`, kinds kept: what a ruleset
/// becomes when it is written in terms of other rulesets' normal forms.
pub fn map_ruleset(rules: Vec<Rule>, by: &Vec<Rule>) -> (r: Vec<Rule>)
    requires
        forall|i: int| 0 <= i < rules@.len() ==> canonical(#[trigger] rules@[i].pattern@) && canonical(
            rules@[i].replacement@,
        ),
    ensures
        r@.len() == rules@.len(),
        forall|i: int| 0 <= i < r@.len() ==> (#[trigger] r@[i]).kind == rules@[i].kind && canonical(r@[i].pattern@)
            && canonical(r@[i].replacement@),
        forall|i: int| 0 <= i < r@.len() ==> (#[trigger] r@[i]).pattern@ == saturate_spec(rules@[i].pattern@, rule_views(by@), STEP_LIMIT as nat).0
            && r@[i].replacement@ == saturate_spec(rules@[i].replacement@, rule_views(by@), STEP_LIMIT as nat).0,
{
    let ghost orig = rules@;
    let mut rest = rules;
    let mut out: Vec<Rule> = Vec::new();
    while rest.len() > 0
        invariant
            out@.len() + rest@.len() == orig.len(),
            rest@ == orig.subrange(0, rest@.len() as int),
            forall|i: int| 0 <= i < orig.len() ==> canonical(#[trigger] orig[i].pattern@) && canonical(
                orig[i].replacement@,
            ),
            forall|i: int|
                0 <= i < out@.len() ==> (#[trigger] out@[i]).kind == orig[orig.len() - 1 - i].kind && canonical(
                    out@[i].pattern@,
                ) && canonical(out@[i].replacement@),
            forall|i: int|
                0 <= i < out@.len() ==> (#[trigger] out@[i]).pattern@ == saturate_spec(orig[orig.len() - 1 - i].pattern@, rule_views(by@), STEP_LIMIT as nat).0
                    && out@[i].replacement@ == saturate_spec(orig[orig.len() - 1 - i].replacement@, rule_views(by@), STEP_LIMIT as nat).0,
        decreases rest@.len(),
    {
        let ghost k = rest@.len() - 1;
        let rule = rest.pop().unwrap();
        assert(rule == orig[k]);
        assert(0 <= k < orig.len());
        assert(canonical(orig[k].pattern@) && canonical(orig[k].replacement@));
        assert(canonical(rule.pattern@) && canonical(rule.replacement@));
        let Rule { pattern, replacement, kind } = rule;
        let pattern = apply_ruleset(pattern, by);
        let replacement = apply_ruleset(replacement, by);
        out.push(Rule { pattern, replacement, kind });
        assert(rest@ =~= orig.subrange(0, rest@.len() as int));
    }
    // the rules were taken from the back: put them back in order
    let mut result: Vec<Rule> = Vec::new();
    while out.len() > 0
        invariant
            result@.len() + out@.len() == orig.len(),
            forall|i: int|
                0 <= i < out@.len() ==> (#[trigger] out@[i]).kind == orig[orig.len() - 1 - i].kind && canonical(
                    out@[i].pattern@,
                ) && canonical(out@[i].replacement@),
            forall|i: int|
                0 <= i < out@.len() ==> (#[trigger] out@[i]).pattern@ == saturate_spec(orig[orig.len() - 1 - i].pattern@, rule_views(by@), STEP_LIMIT as nat).0
                    && out@[i].replacement@ == saturate_spec(orig[orig.len() - 1 - i].replacement@, rule_views(by@), STEP_LIMIT as nat).0,
            forall|i: int|
                0 <= i < result@.len() ==> (#[trigger] result@[i]).kind == orig[i].kind && canonical(
                    result@[i].pattern@,
                ) && canonical(result@[i].replacement@),
            forall|i: int|
                0 <= i < result@.len() ==> (#[trigger] result@[i]).pattern@ == saturate_spec(orig[i].pattern@, rule_views(by@), STEP_LIMIT as nat).0
                    && result@[i].replacement@ == saturate_spec(orig[i].replacement@, rule_views(by@), STEP_LIMIT as nat).0,
        decreases out@.len(),
    {
        let ghost k = out@.len() - 1;
        let rule = out.pop().unwrap();
        result.push(rule);
    }
    result
}

} // verus!
