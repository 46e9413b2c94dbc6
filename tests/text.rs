use reducer::expression::{Expression, Literal, LiteralValue, Unary, UnaryKind, Variable, Variadic, VariadicKind};
use reducer::rewrite::RuleKind;
use reducer::text::{Lisp, LispParseError, SourceToken};

#[test]
fn test_tokenizer() {
    let tokens: Vec<_> = Lisp::tokenize("(+ 1 ( * )((a (sin 4) (cos 2)))")
        .into_iter()
        .collect();

    assert_eq!(
        vec![
            SourceToken::LGroup,
            SourceToken::VariadicOperator(VariadicKind::Addition),
            SourceToken::Literal(LiteralValue::Integer(1)),
            SourceToken::LGroup,
            SourceToken::VariadicOperator(VariadicKind::Multiplication),
            SourceToken::RGroup,
            SourceToken::LGroup,
            SourceToken::LGroup,
            SourceToken::Text("a".to_string()),
            SourceToken::LGroup,
            SourceToken::Text("sin".to_string()),
            SourceToken::Literal(LiteralValue::Integer(4)),
            SourceToken::RGroup,
            SourceToken::LGroup,
            SourceToken::Text("cos".to_string()),
            SourceToken::Literal(LiteralValue::Integer(2)),
            SourceToken::RGroup,
            SourceToken::RGroup,
            SourceToken::RGroup
        ],
        tokens
    );
}

#[test]
fn test_parser_errors() {
    assert_eq!(Err(LispParseError::EmptyString), Lisp::parse(""));
    assert_eq!(Err(LispParseError::IncorrectBrackets), Lisp::parse(")(+ 1 2)"));
    assert_eq!(Err(LispParseError::NotAFunction), Lisp::parse("(1 2)"));
    assert_eq!(Err(LispParseError::UnclosedBracket), Lisp::parse("(* 4"));
    assert_eq!(Err(LispParseError::IncorrectNumArgs), Lisp::parse("(- 1 2 3)"));
}

#[test]
fn test_parser() {
    let result = Lisp::parse("(* (+ 1 2 (/ a) (sin 0)) (- b))").unwrap();

    assert_eq!(
        Into::<Expression>::into(Variadic::new(
            vec![
                Variadic::new(
                    vec![
                        Literal::new(1).into(),
                        Literal::new(2).into(),
                        Unary::new(Variable::new("a").into(), UnaryKind::Reciprocal).into(),
                        Unary::new(Literal::new(0).into(), UnaryKind::named("sin").into()).into()
                    ],
                    VariadicKind::Addition
                )
                .into(),
                Unary::new(Variable::new("b").into(), UnaryKind::Negation).into()
            ],
            VariadicKind::Multiplication
        )),
        result
    );
}

#[test]
fn test_shared_identifiers() {
    let exp1 = Lisp::parse("(+ a b)").unwrap();
    let exp2 = Lisp::parse("(+ b c)").unwrap();

    assert_eq!(
        exp1,
        Variadic::new(
            vec![Variable::new("a").into(), Variable::new("b").into()],
            VariadicKind::Addition
        )
        .into()
    );
    assert_eq!(
        exp2,
        Variadic::new(
            vec![Variable::new("b").into(), Variable::new("c").into()],
            VariadicKind::Addition
        )
        .into()
    );

    let exp3 = Lisp::parse("(sin 1)").unwrap();
    let exp4 = Lisp::parse("(sin 2)").unwrap();

    assert_eq!(
        exp3,
        Unary::new(Literal::new(1).into(), UnaryKind::named("sin").into()).into()
    );
    assert_eq!(
        exp4,
        Unary::new(Literal::new(2).into(), UnaryKind::named("sin").into()).into()
    )
}

#[test]
fn test_printer() {
    let exp = Variadic::new(
        vec![
            Literal::new(42).into(),
            Variadic::new(
                vec![
                    Unary::new(Variable::new("a").into(), UnaryKind::Negation).into(),
                    Unary::new(Variable::new("b").into(), UnaryKind::Reciprocal).into(),
                    Unary::new(Variable::new("c").into(), UnaryKind::named("func1")).into(),
                ],
                VariadicKind::Multiplication,
            )
            .into(),
        ],
        VariadicKind::Addition,
    )
    .into();

    let result = Lisp::format(&exp);

    assert_eq!(result, "(+ (* (- a) (/ b) (func1 c)) 42)".to_string());
}

#[test]
fn test_inverse() {
    let expr = Lisp::parse("(* (+ 1 2 (/ a) (sin 0)) (- b))").unwrap();
    assert_eq!(expr, Lisp::parse(&Lisp::format(&expr)).unwrap());
}

#[test]
fn round_trip_of_several_expressions() {
    for text in ["(+ (* x y) (- 3) PI)", "(+)", "(*)", "(f (g (h -17)))", "v"] {
        let e = Lisp::parse(text).unwrap();
        assert_eq!(Lisp::parse(&Lisp::format(&e)).unwrap(), e);
    }
}

#[test]
fn other_parse_errors() {
    assert_eq!(Lisp::parse("("), Err(LispParseError::EmptyFuncBody));
    assert_eq!(Lisp::parse("+"), Err(LispParseError::ReservedOperator));
    assert_eq!(Lisp::parse("=>"), Err(LispParseError::ReservedOperator));
    assert_eq!(Lisp::parse_ruleset("a").map(|r| r.len()), Err(LispParseError::ExpectedBracket));
    assert_eq!(Lisp::parse_ruleset("(+ 1 2)").map(|r| r.len()), Err(LispParseError::ExpectedRuleOp));
    assert_eq!(Lisp::parse_ruleset("(=> 1 2 3)").map(|r| r.len()), Err(LispParseError::IncorrectNumArgs));
    assert_eq!(Lisp::parse_ruleset("(=> 1 2").map(|r| r.len()), Err(LispParseError::UnclosedBracket));
    assert_eq!(Lisp::parse_ruleset("(").map(|r| r.len()), Err(LispParseError::EmptyFuncBody));
}

#[test]
fn literals_and_whitespace() {
    assert_eq!(Lisp::parse("-17").unwrap(), Literal::new(-17).into());
    assert_eq!(Lisp::parse("PI").unwrap(), Literal::constant("PI").into());
    assert_eq!(Lisp::parse("Pi").unwrap(), Variable::new("Pi").into());
    assert_eq!(Lisp::parse("\t(+\n1\t2)").unwrap(), Lisp::parse("(+ 1 2)").unwrap());
    assert_eq!(Lisp::format(&Literal::new(-2147483648).into()), "-2147483648");
}

#[test]
fn rule_printing_and_comments() {
    let rules = Lisp::parse_ruleset("; a comment (=> x y)\n(== (+ a b) (+ b a)) ; trailing\n").unwrap();
    assert_eq!(rules.len(), 1);
    assert_eq!(rules[0].kind, RuleKind::Equality);
    assert_eq!(Lisp::format_rule(&rules[0]), "(== (+ a b) (+ a b))");
    assert_eq!(Lisp::comment(), ";");
}
