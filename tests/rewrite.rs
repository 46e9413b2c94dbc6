use reducer::binding::Bindings;
use reducer::expression::{Expression, Literal, Unary, UnaryKind, Variable, Variadic, VariadicKind};
use reducer::pattern::match_pattern;
use reducer::replace::replace_variable;
use reducer::rewrite::{apply_rule, apply_ruleset, map_ruleset, ruleset_combiner, transform_recursive, Rule, RuleKind};
use reducer::text::Lisp;

fn parse(s: &str) -> Expression {
    Lisp::parse(s).unwrap()
}

#[test]
fn test_rewrite() {
    let exp = parse("(+ 1 2)");
    println!("expression: {}", exp.to_text());
    let pattern = parse("(+ 1 a)");
    println!("pattern: {}", pattern.to_text());
    let replacement = parse("(func a)");
    println!("replacement: {}", replacement.to_text());

    let result = apply_rule(
        exp,
        &Rule {
            pattern,
            replacement,
            kind: RuleKind::Replacement,
        },
    );

    assert_eq!(result, Ok(parse("(func 2)")));
}

#[test]
fn test_rule_parser_2() {
    let rules_string = "
        (=> (+ 1 2) 3)

        ( =>
            (+ a (+ b))
            (+ b a)
        )
    ";

    let rules = Lisp::parse_ruleset(rules_string).unwrap();

    assert_eq!(
        rules,
        vec![
            Rule {
                pattern: parse("(+ 1 2)"),
                replacement: parse("3"),
                kind: RuleKind::Replacement
            },
            Rule {
                pattern: parse("(+ a (+ b))"),
                replacement: parse("(+ a b)"),
                kind: RuleKind::Replacement
            }
        ]
    );

    println!("rules:");
    for rule in rules {
        println!("{}", rule.to_text());
    }
}

#[test]
fn test_recursive_transformer() {
    let exp = parse("(* 1 (* 2 (* 3)))");
    let rule = Lisp::parse_ruleset("(=> (* a (* b)) (* a b))")
        .unwrap()
        .pop()
        .unwrap();

    println!("rule: {}", rule.to_text());
    println!("before: {}", exp.to_text());

    let result = transform_recursive(exp, &rule);

    assert_eq!(result, parse("(* 1 2 3)"));
    println!("after: {}", result.to_text());
}

#[test]
fn basic_test() {
    let pat = parse("(func2 (/ (- var0)))");
    let exp = parse("(func2 (/ (- (* 2 2))))");

    let results = match_pattern(exp, pat.clone());

    assert_eq!(
        results,
        Ok(Bindings::from_pairs(vec![(Variable::new("var0"), parse("(* 2 2)"))]))
    );

    let exp = parse("(+ 3 1)");
    let results = match_pattern(exp, pat);
    assert_eq!(results, Err(()));
}

#[test]
fn basic_variadic_test() {
    let pat = parse("(* (+ a 4))");
    let exp = parse("(* (+ 4 10))");

    let results = match_pattern(exp, pat.clone());
    assert_eq!(
        results,
        Ok(Bindings::from_pairs(vec![(Variable::new("a"), parse("10"))]))
    );

    let exp = parse("(* (+ 4))");
    let results = match_pattern(exp, pat);
    assert_eq!(
        results,
        Ok(Bindings::from_pairs(vec![(Variable::new("a"), parse("(+)"))]))
    );
}

#[test]
fn advanced_variadic_test() {
    let pat = parse("(+ 1 a)");
    let exp = parse("(+ 1 2 3 4 (* var7 var8))");

    let results = match_pattern(exp, pat);
    assert_eq!(
        results,
        Ok(Bindings::from_pairs(vec![(
            Variable::new("a"),
            parse("(+ 2 3 4 (* var7 var8))")
        )]))
    );
}

#[test]
fn test_replace() {
    let exp = parse("(+ var9 (* var7 (+ var5 var9)))");
    let bind = Bindings::from_pairs(vec![
        (Variable::new("var5"), parse("42")),
        (Variable::new("var7"), parse("65")),
        (Variable::new("var9"), parse("3")),
    ]);

    let result = replace_variable(exp, &bind);
    assert_eq!(result, Ok(parse("(+ 3 (* 65 (+ 42 3)))")));
}

#[test]
fn ac_equality_of_variadics() {
    for kind in [VariadicKind::Addition, VariadicKind::Multiplication] {
        let a = parse("(sin x)");
        let b = parse("7");
        let ab: Expression = Variadic::new(vec![a.clone(), b.clone()], kind).into();
        let ba: Expression = Variadic::new(vec![b.clone(), a.clone()], kind).into();
        let aab: Expression = Variadic::new(vec![a.clone(), a.clone(), b.clone()], kind).into();
        assert_eq!(ab, ba);
        assert_ne!(aab, ab);
    }
}

#[test]
fn identity_rule_keeps_expression() {
    let x: Expression = Variable::new("x").into();
    let rule = Rule {
        pattern: x.clone(),
        replacement: x,
        kind: RuleKind::Replacement,
    };
    for text in ["(+ 1 (* a b) (- c))", "PI", "q", "(+)"] {
        let e = parse(text);
        assert_eq!(apply_rule(e.clone(), &rule), Ok(e));
    }
}

#[test]
fn match_then_replace_gives_back_expression() {
    let pat = parse("(+ (* a b) c)");
    let exp = parse("(+ (* 2 y) 5 (- z))");
    let bind = match_pattern(exp.clone(), pat.clone()).unwrap();
    assert_eq!(replace_variable(pat, &bind), Ok(exp));
}

#[test]
fn replace_with_unbound_variable_fails() {
    let bind = Bindings::from_pairs(vec![(Variable::new("a"), parse("1"))]);
    assert_eq!(replace_variable(parse("(+ a b)"), &bind), Err(()));
    assert_eq!(replace_variable(parse("(+ a 2)"), &bind), Ok(parse("(+ 1 2)")));
}

#[test]
fn replacement_flattens_same_kind_and_drops_empty() {
    let bind = Bindings::from_pairs(vec![
        (Variable::new("a"), parse("(+ 1 2)")),
        (Variable::new("b"), parse("(*)")),
        (Variable::new("c"), parse("(* 3 4)")),
    ]);
    let result = replace_variable(parse("(+ a b c 5)"), &bind).unwrap();
    assert_eq!(result, parse("(+ 1 2 5 (* 3 4))"));
    assert_eq!(Lisp::format(&result), "(+ (* 3 4) 1 2 5)");
}

#[test]
fn pattern_failure() {
    let pat = parse("(func2 (/ (- var0)))");
    assert_eq!(match_pattern(parse("(+ 3 1)"), pat), Err(()));
    assert_eq!(match_pattern(parse("(+ 1 2)"), parse("(* 1 a)")), Err(()));
    assert_eq!(match_pattern(parse("(+ 1 1)"), parse("(+ a a)")), Ok(Bindings::from_pairs(vec![(Variable::new("a"), parse("1"))])));
    assert_eq!(match_pattern(parse("(+ 1 2)"), parse("(+ a a)")), Err(()));
}

#[test]
fn saturation_is_a_fixed_point() {
    let rules = Lisp::parse_ruleset(
        "(=> (* a (* b)) (* a b)) ; flatten products
         (=> (- (- a)) a)",
    )
    .unwrap();
    let once = apply_ruleset(parse("(* 1 (* 2 (- (- (* 3)))))"), &rules);
    assert_eq!(once, parse("(* 1 2 3)"));
    let twice = apply_ruleset(once.clone(), &rules);
    assert_eq!(twice, once);
}

#[test]
fn repeated_application_is_deterministic() {
    let rule = Lisp::parse_ruleset("(=> (+ a b) (f a))").unwrap().pop().unwrap();
    let first = apply_rule(parse("(+ 1 2 3)"), &rule);
    let second = apply_rule(parse("(+ 3 2 1)"), &rule);
    assert_eq!(first, second);
    assert_eq!(first, Ok(parse("(f (+ 1 2 3))")));
}

#[test]
fn unary_constructors() {
    let e: Expression = Unary::new(Literal::new(3).into(), UnaryKind::Negation).into();
    assert_eq!(e, parse("(- 3)"));
    let c: Expression = Literal::constant("PI").into();
    assert_eq!(c, parse("PI"));
}

#[test]
fn combined_rulesets_and_mapping() {
    let a = Lisp::parse_ruleset("(=> (- (- x)) x)").unwrap();
    let b = Lisp::parse_ruleset("(=> (/ (/ x)) x) (== (+ p q) (+ q p))").unwrap();
    let combined = ruleset_combiner(&vec![&a, &b]);
    assert_eq!(combined.len(), 3);
    assert_eq!(combined[0], a[0]);
    assert_eq!(combined[2], b[1]);

    let mapped = map_ruleset(Lisp::parse_ruleset("(=> (f (- (- y))) (/ (/ y)))").unwrap(), &combined);
    assert_eq!(mapped.len(), 1);
    assert_eq!(mapped[0].pattern, parse("(f y)"));
    assert_eq!(mapped[0].replacement, parse("y"));
    assert_eq!(mapped[0].kind, RuleKind::Replacement);
}

#[test]
fn identity_rule_changes_nothing_anywhere() {
    let x: Expression = Variable::new("x").into();
    let rule = Rule {
        pattern: x.clone(),
        replacement: x,
        kind: RuleKind::Replacement,
    };
    let e = parse("(* 1 (* 2 (- (* 3))) (f (+ a b)))");
    assert_eq!(transform_recursive(e.clone(), &rule), e);
    assert_eq!(apply_ruleset(e.clone(), &vec![rule]), e);
}

#[test]
fn matcher_scenarios() {
    assert_eq!(
        match_pattern(parse("(+ 1 2)"), parse("(+ 1 a)")),
        Ok(Bindings::from_pairs(vec![(Variable::new("a"), parse("2"))]))
    );
    assert_eq!(match_pattern(parse("(+)"), parse("(+ a)")), Err(()));
    assert_eq!(
        match_pattern(parse("(+ 1 (* 2 PI))"), parse("(+ (* PI 2) 1)")),
        Ok(Bindings::new())
    );
    assert_eq!(
        match_pattern(parse("(+ 1 2)"), parse("(+ a b)")),
        Ok(Bindings::from_pairs(vec![
            (Variable::new("a"), parse("(+ 1 2)")),
            (Variable::new("b"), parse("(+)"))
        ]))
    );
}

#[test]
fn unbound_replacement_variable_leaves_expression() {
    let rule = Lisp::parse_ruleset("(=> (+ 1 a) (f b))").unwrap().pop().unwrap();
    assert_eq!(apply_rule(parse("(+ 1 2)"), &rule), Err(parse("(+ 1 2)")));
}
