//! The Lisp-style text format: tokens, parsing and printing of expressions
//! and rules.

use vstd::prelude::*;
use crate::expression::{
    Concrete, ExprView, Expression, Literal, LiteralValue, Unary, UnaryKind, UnaryView, Variable, VarId, Variadic,
    VariadicKind, all_canonical, canonical, lemma_views_of, views_of,
};
use crate::rewrite::{Rule, RuleKind};

verus! {

#[derive(Debug)]
pub enum SourceToken {
    Literal(LiteralValue),
    VariadicOperator(VariadicKind),
    UnaryOperator(UnaryKind),
    RuleOperator(RuleKind),
    Text(String),
    LGroup,
    RGroup,
}

pub enum TokenView {
    Literal(ExprView),
    Variadic(VariadicKind),
    Unary(UnaryView),
    Rule(RuleKind),
    Text(Seq<char>),
    LGroup,
    RGroup,
}

impl View for SourceToken {
    type V = TokenView;

    open spec fn view(&self) -> TokenView {
        match self {
            SourceToken::Literal(l) => TokenView::Literal(l@),
            SourceToken::VariadicOperator(k) => TokenView::Variadic(*k),
            SourceToken::UnaryOperator(u) => TokenView::Unary(u@),
            SourceToken::RuleOperator(k) => TokenView::Rule(*k),
            SourceToken::Text(s) => TokenView::Text(s@),
            SourceToken::LGroup => TokenView::LGroup,
            SourceToken::RGroup => TokenView::RGroup,
        }
    }
}

pub open spec fn token_views(s: Seq<SourceToken>) -> Seq<TokenView> {
    s.map_values(|t: SourceToken| t@)
}

#[derive(Debug, Clone, Copy, PartialEq, Eq, Structural)]
pub enum LispParseError {
    EmptyString,
    IncorrectBrackets,
    EmptyFuncBody,
    UnclosedBracket,
    IncorrectNumArgs,
    ReservedOperator,
    NotAFunction,
    ExpectedBracket,
    ExpectedRuleOp,
}

// ---------------------------------------------------------------------------
// Character classes and integers, as std gives them.

/// Whether `c` has the Unicode White_Space property.
pub uninterp spec fn is_space(c: char) -> bool;

/// Whether `c` has the Unicode Uppercase property.
pub uninterp spec fn is_upper(c: char) -> bool;

/// The character of a decimal digit.
pub open spec fn digit_char(d: int) -> char {
    if d == 0 {
        '0'
    } else if d == 1 {
        '1'
    } else if d == 2 {
        '2'
    } else if d == 3 {
        '3'
    } else if d == 4 {
        '4'
    } else if d == 5 {
        '5'
    } else if d == 6 {
        '6'
    } else if d == 7 {
        '7'
    } else if d == 8 {
        '8'
    } else {
        '9'
    }
}

pub open spec fn is_digit(c: char) -> bool {
    '0' <= c && c <= '9'
}

pub open spec fn digit_value(c: char) -> int {
    (c as u32) as int - ('0' as u32) as int
}

/// The decimal digits of `n`, without leading zeros.
pub open spec fn digits(n: nat) -> Seq<char>
    decreases n,
{
    if n < 10 {
        seq![digit_char(n as int)]
    } else {
        digits(n / 10).push(digit_char((n % 10) as int))
    }
}

/// The value of a sequence of decimal digits.
pub open spec fn digits_value(s: Seq<char>) -> int
    decreases s.len(),
{
    if s.len() == 0 {
        0
    } else {
        digits_value(s.subrange(0, s.len() - 1)) * 10 + digit_value(s[s.len() - 1])
    }
}

/// The decimal text of an integer: a minus sign when negative, then its
/// digits.
pub open spec fn decimal(i: i32) -> Seq<char> {
    if i < 0 {
        seq!['-'] + digits((-(i as int)) as nat)
    } else {
        digits(i as nat)
    }
}

/// The value of an integer text: an optional sign, then one or more decimal
/// digits, the value in the range of `i32`.
pub open spec fn int_parse(s: Seq<char>) -> Option<i32> {
    let signed = s.len() > 0 && (s[0] == '-' || s[0] == '+');
    let body = if signed {
        s.drop_first()
    } else {
        s
    };
    let v = if signed && s[0] == '-' {
        -digits_value(body)
    } else {
        digits_value(body)
    };
    if body.len() > 0 && (forall|j: int| 0 <= j < body.len() ==> is_digit(#[trigger] body[j])) && i32::MIN <= v
        <= i32::MAX {
        Some(v as i32)
    } else {
        None
    }
}

proof fn lemma_digit_char(d: int)
    requires
        0 <= d < 10,
    ensures
        is_digit(digit_char(d)),
        digit_value(digit_char(d)) == d,
{
}

proof fn lemma_digits(n: nat)
    ensures
        digits(n).len() >= 1,
        forall|j: int| 0 <= j < digits(n).len() ==> is_digit(#[trigger] digits(n)[j]),
        digits_value(digits(n)) == n,
    decreases n,
{
    if n < 10 {
        lemma_digit_char(n as int);
        let s = digits(n);
        assert(s.subrange(0, 0) =~= Seq::<char>::empty());
        assert(digits_value(Seq::<char>::empty()) == 0);
        assert(s[0] == digit_char(n as int));
        assert(digits_value(s) == digits_value(s.subrange(0, 0)) * 10 + digit_value(s[0]));
    } else {
        lemma_digits(n / 10);
        lemma_digit_char((n % 10) as int);
        let s = digits(n);
        assert(s.subrange(0, s.len() - 1) =~= digits(n / 10));
        vstd::arithmetic::div_mod::lemma_fundamental_div_mod(n as int, 10);
        let ni = n as int;
        assert(ni / 10 == (n / 10) as int);
        assert(ni % 10 == (n % 10) as int);
        assert(s[s.len() - 1] == digit_char((n % 10) as int));
        assert(digits_value(s) == digits_value(digits(n / 10)) * 10 + digit_value(s[s.len() - 1]));
        assert(digits_value(s) == (ni / 10) * 10 + ni % 10);
        assert(ni == 10 * (ni / 10) + ni % 10);
    }
}

/// The decimal text of an integer is a word that reads back as that integer.
pub proof fn lemma_decimal(i: i32)
    ensures
        word_ok(decimal(i)),
        int_parse(decimal(i)) == Some(i),
        classify(decimal(i)) == TokenView::Literal(ExprView::Int(i)),
{
    let w = decimal(i);
    if i < 0 {
        let n = (-(i as int)) as nat;
        lemma_digits(n);
        let d = digits(n);
        assert(w.drop_first() =~= d);
        assert(w[0] == '-');
        assert forall|j: int| 0 <= j < w.len() implies #[trigger] w[j] != '(' && w[j] != ')' && !blank(w[j]) by {
            if j > 0 {
                assert(w[j] == d[j - 1]);
                assert(is_digit(d[j - 1]));
            }
        }
        assert(w.len() >= 2);
        assert(is_digit(w[1]));
    } else {
        lemma_digits(i as nat);
        assert(is_digit(w[0]));
    }
    assert(w[0] != seq!['('][0]);
    assert(w[0] != seq![')'][0]);
    assert(w[0] != seq!['+'][0]);
    assert(w[0] != seq!['*'][0]);
    assert(w[0] != seq!['/'][0]);
    assert(w[0] != seq!['=', '>'][0]);
    assert(w[0] != seq!['=', '='][0]);
    assert(w != seq!['-']) by {
        if i < 0 {
            assert(w.len() != 1);
        } else {
            assert(w[0] != seq!['-'][0]);
        }
    }
}

/// Relies on char::is_whitespace, which tests the White_Space property.
#[verifier::external_body]
fn space(c: char) -> (r: bool)
    ensures
        r == is_space(c),
{
    c.is_whitespace()
}

/// White space: the ASCII white-space characters (tab, line feed, vertical
/// tab, form feed, carriage return, space) and, beyond ASCII, the characters
/// with the White_Space property.
pub open spec fn blank(c: char) -> bool {
    let u = c as u32;
    if u < 128 {
        u == 32 || (9 <= u && u <= 13)
    } else {
        is_space(c)
    }
}

fn is_blank(c: char) -> (r: bool)
    ensures
        r == blank(c),
{
    let u = c as u32;
    if u < 128 {
        u == 32 || (9 <= u && u <= 13)
    } else {
        space(c)
    }
}

/// Relies on char::is_uppercase, which tests the Uppercase property.
#[verifier::external_body]
fn upper(c: char) -> (r: bool)
    ensures
        r == is_upper(c),
{
    c.is_uppercase()
}

/// Relies on str::parse::<i32>: an optional `+` or `-`, then one or more
/// decimal digits whose value is in range; anything else is an error.
#[verifier::external_body]
fn parse_int(s: &str) -> (r: Option<i32>)
    ensures
        r == int_parse(s@),
{
    s.parse::<i32>().ok()
}

/// Relies on i32::to_string (through Display): a minus sign for a negative
/// value, then the decimal digits without leading zeros.
#[verifier::external_body]
fn int_text(i: i32) -> (r: String)
    ensures
        r@ == decimal(i),
{
    i.to_string()
}

// ---------------------------------------------------------------------------
// Tokens.

/// The token that a word stands for.
pub open spec fn classify(w: Seq<char>) -> TokenView {
    if w == seq!['('] {
        TokenView::LGroup
    } else if w == seq![')'] {
        TokenView::RGroup
    } else if w == seq!['=', '>'] {
        TokenView::Rule(RuleKind::Replacement)
    } else if w == seq!['=', '='] {
        TokenView::Rule(RuleKind::Equality)
    } else if w == seq!['+'] {
        TokenView::Variadic(VariadicKind::Addition)
    } else if w == seq!['*'] {
        TokenView::Variadic(VariadicKind::Multiplication)
    } else if w == seq!['-'] {
        TokenView::Unary(UnaryView::Negation)
    } else if w == seq!['/'] {
        TokenView::Unary(UnaryView::Reciprocal)
    } else if int_parse(w) is Some {
        TokenView::Literal(ExprView::Int(int_parse(w)->Some_0))
    } else if forall|i: int| 0 <= i < w.len() ==> is_upper(#[trigger] w[i]) {
        TokenView::Literal(ExprView::Const(w))
    } else {
        TokenView::Text(w)
    }
}

pub open spec fn flush(cur: Seq<char>) -> Seq<Seq<char>> {
    if cur.len() == 0 {
        Seq::empty()
    } else {
        seq![cur]
    }
}

/// The words of `s`, after the word `cur` that is already under way:
/// brackets stand alone, white space separates, and when `comments` is set a
/// `;` starts a comment that runs to the end of the line.
pub open spec fn words(s: Seq<char>, cur: Seq<char>, comments: bool, skipping: bool) -> Seq<Seq<char>>
    decreases s.len(),
{
    if s.len() == 0 {
        flush(cur)
    } else if skipping {
        if s[0] == '\n' {
            words(s.drop_first(), cur, comments, false)
        } else {
            words(s.drop_first(), cur, comments, true)
        }
    } else if s[0] == '(' || s[0] == ')' {
        flush(cur) + seq![seq![s[0]]] + words(s.drop_first(), Seq::empty(), comments, false)
    } else if comments && s[0] == ';' {
        flush(cur) + words(s.drop_first(), Seq::empty(), comments, true)
    } else if blank(s[0]) {
        flush(cur) + words(s.drop_first(), Seq::empty(), comments, false)
    } else {
        words(s.drop_first(), cur.push(s[0]), comments, false)
    }
}

pub open spec fn lex(s: Seq<char>, comments: bool) -> Seq<TokenView> {
    words(s, Seq::empty(), comments, false).map_values(|w: Seq<char>| classify(w))
}

fn classify_word(w: &str) -> (r: SourceToken)
    ensures
        r@ == classify(w@),
{
    let n = w.unicode_len();
    if n == 1 {
        let c = w.get_char(0);
        proof {
            assert(w@ =~= seq![c]);
        }
        if c == '(' {
            return SourceToken::LGroup;
        } else if c == ')' {
            return SourceToken::RGroup;
        } else if c == '+' {
            return SourceToken::VariadicOperator(VariadicKind::Addition);
        } else if c == '*' {
            return SourceToken::VariadicOperator(VariadicKind::Multiplication);
        } else if c == '-' {
            return SourceToken::UnaryOperator(UnaryKind::Negation);
        } else if c == '/' {
            return SourceToken::UnaryOperator(UnaryKind::Reciprocal);
        }
        proof {
            assert(w@[0] != seq!['('][0]);
            assert(w@[0] != seq![')'][0]);
            assert(w@[0] != seq!['+'][0]);
            assert(w@[0] != seq!['*'][0]);
            assert(w@[0] != seq!['-'][0]);
            assert(w@[0] != seq!['/'][0]);
        }
    }
    if n == 2 {
        let a = w.get_char(0);
        let b = w.get_char(1);
        proof {
            assert(w@ =~= seq![a, b]);
        }
        if a == '=' && b == '>' {
            return SourceToken::RuleOperator(RuleKind::Replacement);
        } else if a == '=' && b == '=' {
            return SourceToken::RuleOperator(RuleKind::Equality);
        }
        proof {
            assert(w@[0] != seq!['=', '>'][0] || w@[1] != seq!['=', '>'][1]);
            assert(w@[0] != seq!['=', '='][0] || w@[1] != seq!['=', '='][1]);
        }
    }
    proof {
        if n != 1 {
            assert(w@.len() != seq!['('].len());
            assert(w@.len() != seq![')'].len());
            assert(w@.len() != seq!['+'].len());
            assert(w@.len() != seq!['*'].len());
            assert(w@.len() != seq!['-'].len());
            assert(w@.len() != seq!['/'].len());
        }
        if n != 2 {
            assert(w@.len() != seq!['=', '>'].len());
            assert(w@.len() != seq!['=', '='].len());
        }
    }
    if let Some(v) = parse_int(w) {
        return SourceToken::Literal(LiteralValue::Integer(v));
    }
    if all_upper(w) {
        SourceToken::Literal(LiteralValue::Constant(String::from_str(w)))
    } else {
        SourceToken::Text(String::from_str(w))
    }
}

fn all_upper(w: &str) -> (r: bool)
    ensures
        r == forall|j: int| 0 <= j < w@.len() ==> is_upper(#[trigger] w@[j]),
{
    let n = w.unicode_len();
    let mut i: usize = 0;
    while i < n
        invariant
            i <= n,
            n == w@.len(),
            forall|j: int| 0 <= j < i ==> is_upper(#[trigger] w@[j]),
        decreases n - i,
    {
        let c = w.get_char(i);
        if !upper(c) {
            assert(!is_upper(w@[i as int]));
            return false;
        }
        i = i + 1;
    }
    true
}

/// Splits `s` into tokens; with `comments`, text from `;` to the end of a
/// line is left out.
fn scan(s: &str, comments: bool) -> (r: Vec<SourceToken>)
    ensures
        token_views(r@) == lex(s@, comments),
{
    let n = s.unicode_len();
    let mut out: Vec<SourceToken> = Vec::new();
    let ghost mut done: Seq<Seq<char>> = Seq::empty();
    let mut start: usize = 0;
    let mut skipping = false;
    let mut i: usize = 0;
    assert(s@.subrange(0, n as int) =~= s@);
    assert(s@.subrange(0, 0) =~= Seq::<char>::empty());
    while i < n
        invariant
            n == s@.len(),
            start <= i <= n,
            skipping ==> start == i,
            done + words(s@.subrange(i as int, n as int), s@.subrange(start as int, i as int), comments, skipping)
                == words(s@, Seq::empty(), comments, false),
            token_views(out@) == done.map_values(|w: Seq<char>| classify(w)),
        decreases n - i,
    {
        let c = s.get_char(i);
        let ghost rest = s@.subrange(i as int, n as int);
        let ghost cur = s@.subrange(start as int, i as int);
        proof {
            assert(rest.drop_first() =~= s@.subrange(i + 1, n as int));
            assert(rest[0] == c);
        }
        if skipping {
            if c == '\n' {
                skipping = false;
            }
            start = i + 1;
            proof {
                assert(cur =~= Seq::<char>::empty());
                assert(s@.subrange(start as int, i + 1) =~= Seq::<char>::empty());
            }
        } else if c == '(' || c == ')' || (comments && c == ';') || is_blank(c) {
            if start < i {
                let w = s.substring_char(start, i);
                let t = classify_word(w);
                proof {
                    done = done.push(w@);
                }
                let ghost before = out@;
                out.push(t);
                proof {
                    assert(token_views(out@) =~= token_views(before).push(t@));
                }
            } else {
                proof {
                    assert(cur =~= Seq::<char>::empty());
                }
            }
            if c == '(' || c == ')' {
                let w = s.substring_char(i, i + 1);
                let t = classify_word(w);
                proof {
                    assert(w@ =~= seq![c]);
                    done = done.push(w@);
                }
                let ghost before = out@;
                out.push(t);
                proof {
                    assert(token_views(out@) =~= token_views(before).push(t@));
                }
            } else if comments && c == ';' {
                skipping = true;
            }
            start = i + 1;
            proof {
                assert(s@.subrange(start as int, i + 1) =~= Seq::<char>::empty());
            }
        } else {
            proof {
                assert(s@.subrange(start as int, i + 1) =~= cur.push(c));
            }
        }
        i = i + 1;
    }
    if start < n {
        let w = s.substring_char(start, n);
        let t = classify_word(w);
        proof {
            done = done.push(w@);
        }
        let ghost before = out@;
        out.push(t);
        proof {
            assert(token_views(out@) =~= token_views(before).push(t@));
        }
    }
    proof {
        assert(s@.subrange(n as int, n as int) =~= Seq::<char>::empty());
        assert(done.map_values(|w: Seq<char>| classify(w)) =~= lex(s@, comments));
    }
    out
}

// ---------------------------------------------------------------------------
// Printing.

pub open spec fn variadic_op(k: VariadicKind) -> Seq<char> {
    match k {
        VariadicKind::Addition => seq!['+'],
        VariadicKind::Multiplication => seq!['*'],
    }
}

pub open spec fn unary_op(u: UnaryView) -> Seq<char> {
    match u {
        UnaryView::Negation => seq!['-'],
        UnaryView::Reciprocal => seq!['/'],
        UnaryView::Named(s) => s,
    }
}

pub open spec fn rule_op(k: RuleKind) -> Seq<char> {
    match k {
        RuleKind::Replacement => seq!['=', '>'],
        RuleKind::Equality => seq!['=', '='],
    }
}

pub open spec fn token_text(t: TokenView) -> Seq<char> {
    match t {
        TokenView::Literal(ExprView::Int(i)) => decimal(i),
        TokenView::Literal(ExprView::Const(s)) => s,
        TokenView::Literal(_) => Seq::empty(),
        TokenView::Variadic(k) => variadic_op(k),
        TokenView::Unary(u) => unary_op(u),
        TokenView::Rule(k) => rule_op(k),
        TokenView::Text(s) => s,
        TokenView::LGroup => seq!['('],
        TokenView::RGroup => seq![')'],
    }
}

/// The text of a sequence of tokens, written one after another.
pub open spec fn text_of(ts: Seq<TokenView>) -> Seq<char>
    decreases ts.len(),
{
    if ts.len() == 0 {
        Seq::empty()
    } else {
        text_of(ts.subrange(0, ts.len() - 1)) + token_text(ts[ts.len() - 1])
    }
}

pub open spec fn space_token() -> TokenView {
    TokenView::Text(seq![' '])
}

/// The tokens that print an expression: prefix form in brackets, one space
/// before each argument.
pub open spec fn tokens_of(e: ExprView) -> Seq<TokenView>
    decreases e,
{
    match e {
        ExprView::Variadic(k, ts) => seq![TokenView::LGroup, TokenView::Variadic(k)] + args_tokens(ts) + seq![
            TokenView::RGroup,
        ],
        ExprView::Unary(u, a) => seq![TokenView::LGroup, TokenView::Unary(u), space_token()] + tokens_of(*a) + seq![
            TokenView::RGroup,
        ],
        ExprView::Var(s) => seq![TokenView::Text(s)],
        _ => seq![TokenView::Literal(e)],
    }
}

pub open spec fn args_tokens(ts: Seq<ExprView>) -> Seq<TokenView>
    decreases ts,
{
    if ts.len() == 0 {
        Seq::empty()
    } else {
        args_tokens(ts.subrange(0, ts.len() - 1)) + seq![space_token()] + tokens_of(ts[ts.len() - 1])
    }
}

pub open spec fn rule_tokens(p: ExprView, r: ExprView, k: RuleKind) -> Seq<TokenView> {
    seq![TokenView::LGroup, TokenView::Rule(k), space_token()] + tokens_of(p) + seq![space_token()] + tokens_of(r)
        + seq![TokenView::RGroup]
}

fn space_text() -> (r: SourceToken)
    ensures
        r@ == space_token(),
{
    proof {
        reveal_strlit(" ");
        assert(" "@ =~= seq![' ']);
    }
    let t = String::from_str(" ");
    SourceToken::Text(t)
}

fn push_token(out: &mut Vec<SourceToken>, t: SourceToken)
    ensures
        token_views(final(out)@) == token_views(old(out)@).push(t@),
{
    let ghost before = out@;
    out.push(t);
    assert(token_views(out@) =~= token_views(before).push(t@));
}

fn format_into(e: &Expression, out: &mut Vec<SourceToken>)
    ensures
        token_views(final(out)@) == token_views(old(out)@) + tokens_of(e@),
    decreases e,
{
    let ghost start = token_views(out@);
    match e {
        Expression::Variable(v) => {
            push_token(out, SourceToken::Text(v.id.0.clone()));
            assert(token_views(out@) =~= start + tokens_of(e@));
        },
        Expression::Concrete(Concrete::Literal(l)) => {
            push_token(out, SourceToken::Literal(l.value.duplicate()));
            assert(token_views(out@) =~= start + tokens_of(e@));
        },
        Expression::Concrete(Concrete::Unary(u)) => {
            push_token(out, SourceToken::LGroup);
            push_token(out, SourceToken::UnaryOperator(u.kind.duplicate()));
            push_token(out, space_text());
            format_into(&u.argument, out);
            push_token(out, SourceToken::RGroup);
            assert(token_views(out@) =~= start + tokens_of(e@));
        },
        Expression::Concrete(Concrete::Variadic(v)) => {
            push_token(out, SourceToken::LGroup);
            push_token(out, SourceToken::VariadicOperator(v.kind));
            let ghost head = token_views(out@);
            let items = &v.terms.items;
            let ghost ts = v.terms@;
            proof {
                lemma_views_of(items@);
                assert(ts.subrange(0, 0) =~= Seq::<ExprView>::empty());
            }
            let n = items.len();
            let mut i: usize = 0;
            assert(decreases_to!(*e => v.terms.items));
            while i < n
                invariant
                    decreases_to!(*e => v.terms.items),
                    items@ == v.terms.items@,
                    n == items@.len(),
                    ts == views_of(items@),
                    ts.len() == n,
                    i <= n,
                    token_views(out@) == head + args_tokens(ts.subrange(0, i as int)),
                decreases n - i,
            {
                proof {
                    assert(decreases_to!(v.terms.items => v.terms.items[i as int]));
                    lemma_views_of(items@);
                    assert(ts.subrange(0, i + 1).subrange(0, i as int) =~= ts.subrange(0, i as int));
                }
                push_token(out, space_text());
                format_into(&items[i], out);
                proof {
                    assert(token_views(out@) =~= head + args_tokens(ts.subrange(0, i + 1)));
                }
                i = i + 1;
            }
            push_token(out, SourceToken::RGroup);
            assert(ts.subrange(0, n as int) =~= ts);
            assert(token_views(out@) =~= start + tokens_of(e@));
        },
    }
}

fn append_literal(out: &mut String, s: &str)
    ensures
        final(out)@ == old(out)@ + s@,
{
    out.append(s);
}

fn token_string(t: &SourceToken) -> (r: String)
    ensures
        r@ == token_text(t@),
{
    match t {
        SourceToken::Literal(LiteralValue::Integer(i)) => int_text(*i),
        SourceToken::Literal(LiteralValue::Constant(c)) => c.clone(),
        SourceToken::VariadicOperator(VariadicKind::Addition) => {
            proof {
                reveal_strlit("+");
            }
            String::from_str("+")
        },
        SourceToken::VariadicOperator(VariadicKind::Multiplication) => {
            proof {
                reveal_strlit("*");
            }
            String::from_str("*")
        },
        SourceToken::UnaryOperator(UnaryKind::Negation) => {
            proof {
                reveal_strlit("-");
            }
            String::from_str("-")
        },
        SourceToken::UnaryOperator(UnaryKind::Reciprocal) => {
            proof {
                reveal_strlit("/");
            }
            String::from_str("/")
        },
        SourceToken::UnaryOperator(UnaryKind::Named { id }) => id.0.clone(),
        SourceToken::RuleOperator(RuleKind::Replacement) => {
            proof {
                reveal_strlit("=>");
            }
            String::from_str("=>")
        },
        SourceToken::RuleOperator(RuleKind::Equality) => {
            proof {
                reveal_strlit("==");
            }
            String::from_str("==")
        },
        SourceToken::Text(s) => s.clone(),
        SourceToken::LGroup => {
            proof {
                reveal_strlit("(");
            }
            String::from_str("(")
        },
        SourceToken::RGroup => {
            proof {
                reveal_strlit(")");
            }
            String::from_str(")")
        },
    }
}

// ---------------------------------------------------------------------------
// Parsing.

/// The well-formed value of `e`: the children of every variadic arranged in
/// order, whatever order they were written in.
pub open spec fn canon(e: ExprView) -> ExprView
    decreases e,
{
    match e {
        ExprView::Variadic(k, ts) => crate::expression::variadic_of(k, canon_list(ts)),
        ExprView::Unary(u, a) => ExprView::Unary(u, Box::new(canon(*a))),
        _ => e,
    }
}

pub open spec fn canon_list(ts: Seq<ExprView>) -> Seq<ExprView>
    decreases ts,
{
    if ts.len() == 0 {
        Seq::empty()
    } else {
        canon_list(ts.subrange(0, ts.len() - 1)).push(canon(ts[ts.len() - 1]))
    }
}

/// A well-formed expression is its own well-formed value.
pub proof fn lemma_canon_of_canonical(e: ExprView)
    requires
        canonical(e),
    ensures
        canon(e) == e,
    decreases e,
{
    match e {
        ExprView::Variadic(k, ts) => {
            lemma_canon_list_of_canonical(ts);
            crate::expression::lemma_arrange(ts);
        },
        ExprView::Unary(_, a) => lemma_canon_of_canonical(*a),
        _ => {},
    }
}

proof fn lemma_canon_list_of_canonical(ts: Seq<ExprView>)
    requires
        forall|i: int| 0 <= i < ts.len() ==> canonical(#[trigger] ts[i]),
    ensures
        canon_list(ts) == ts,
    decreases ts,
{
    if ts.len() > 0 {
        let init = ts.subrange(0, ts.len() - 1);
        assert forall|i: int| 0 <= i < init.len() implies canonical(#[trigger] init[i]) by {
            assert(init[i] == ts[i]);
        }
        lemma_canon_list_of_canonical(init);
        lemma_canon_of_canonical(ts[ts.len() - 1]);
        assert(init.push(ts[ts.len() - 1]) =~= ts);
    }
}

/// The token that heads an application of `u`, as the scanner reads it.
pub open spec fn head_token(u: UnaryView) -> TokenView {
    match u {
        UnaryView::Named(s) => TokenView::Text(s),
        _ => TokenView::Unary(u),
    }
}

/// The tokens that the scanner reads from the printed text of `e`.
pub open spec fn read_tokens(e: ExprView) -> Seq<TokenView>
    decreases e,
{
    match e {
        ExprView::Variadic(k, ts) => seq![TokenView::LGroup, TokenView::Variadic(k)] + args_read(ts) + seq![TokenView::RGroup],
        ExprView::Unary(u, a) => seq![TokenView::LGroup, head_token(u)] + read_tokens(*a) + seq![TokenView::RGroup],
        ExprView::Var(s) => seq![TokenView::Text(s)],
        _ => seq![TokenView::Literal(e)],
    }
}

pub open spec fn args_read(ts: Seq<ExprView>) -> Seq<TokenView>
    decreases ts,
{
    if ts.len() == 0 {
        Seq::empty()
    } else {
        args_read(ts.subrange(0, ts.len() - 1)) + read_tokens(ts[ts.len() - 1])
    }
}

/// `ts` holds `want` from `at` on.
pub open spec fn holds_at(ts: Seq<TokenView>, at: int, want: Seq<TokenView>) -> bool {
    0 <= at && at + want.len() <= ts.len() && ts.subrange(at, at + want.len()) == want
}

/// At most one expression's tokens stand at a given place.
proof fn lemma_holds_unique(tv: Seq<TokenView>, at: int, a: ExprView, b: ExprView)
    requires
        holds_at(tv, at, read_tokens(a)),
        holds_at(tv, at, read_tokens(b)),
    ensures
        a == b,
{
    let ra = read_tokens(a);
    let rb = read_tokens(b);
    let x = tv.subrange(at + ra.len(), tv.len() as int);
    let y = tv.subrange(at + rb.len(), tv.len() as int);
    assert(ra + x =~= tv.subrange(at, tv.len() as int)) by {
        assert(tv.subrange(at, at + ra.len()) == ra);
    }
    assert(rb + y =~= tv.subrange(at, tv.len() as int)) by {
        assert(tv.subrange(at, at + rb.len()) == rb);
    }
    lemma_read_prefix(a, b, x, y);
}

/// The arguments of a compound expression.
pub open spec fn kids_of(e: ExprView) -> Seq<ExprView> {
    match e {
        ExprView::Variadic(_, ts) => ts,
        ExprView::Unary(_, a) => seq![*a],
        _ => Seq::empty(),
    }
}

proof fn lemma_read_first(e: ExprView)
    ensures
        read_tokens(e).len() >= 1,
        read_tokens(e)[0] == match e {
            ExprView::Var(s) => TokenView::Text(s),
            ExprView::Int(_) | ExprView::Const(_) => TokenView::Literal(e),
            _ => TokenView::LGroup,
        },
        (e is Variadic || e is Unary) ==> read_tokens(e).len() >= 3,
{
}

/// A compound expression reads as a bracket, its head, its arguments and a
/// closing bracket.
proof fn lemma_read_compound(e: ExprView)
    requires
        e is Variadic || e is Unary,
    ensures
        read_tokens(e) == seq![TokenView::LGroup, read_tokens(e)[1]] + args_read(kids_of(e)) + seq![TokenView::RGroup],
        e is Variadic ==> read_tokens(e)[1] == TokenView::Variadic(e->Variadic_0),
        e is Unary ==> read_tokens(e)[1] == head_token(e->Unary_0),
        canonical(e) ==> forall|m: int| 0 <= m < kids_of(e).len() ==> canonical(#[trigger] kids_of(e)[m]),
        canonical(e) && e is Variadic ==> crate::expression::sorted(kids_of(e)),
{
    if let ExprView::Unary(u, a) = e {
        let one = seq![*a];
        assert(one.subrange(0, 0) =~= Seq::<ExprView>::empty());
        assert(one[0] == *a);
        assert(args_read(Seq::<ExprView>::empty()) == Seq::<TokenView>::empty());
        assert(args_read(one) =~= read_tokens(*a));
    }
}

/// The tokens of the arguments split at any argument.
proof fn lemma_args_split(ts: Seq<ExprView>, m: int)
    requires
        0 <= m <= ts.len(),
    ensures
        args_read(ts) == args_read(ts.subrange(0, m)) + args_read(ts.subrange(m, ts.len() as int)),
    decreases ts.len(),
{
    if m == ts.len() {
        assert(ts.subrange(0, m) =~= ts);
        assert(ts.subrange(m, ts.len() as int) =~= Seq::<ExprView>::empty());
        assert(args_read(ts) + Seq::<TokenView>::empty() =~= args_read(ts));
    } else {
        let init = ts.subrange(0, ts.len() - 1);
        lemma_args_split(init, m);
        assert(init.subrange(0, m) =~= ts.subrange(0, m));
        let tail = ts.subrange(m, ts.len() as int);
        assert(tail.subrange(0, tail.len() - 1) =~= init.subrange(m, init.len() as int));
        assert(tail[tail.len() - 1] == ts[ts.len() - 1]);
        assert(args_read(ts) =~= args_read(ts.subrange(0, m)) + args_read(tail));
    }
}

/// Where the tokens of the arguments sit, argument `m` stands at `start`
/// plus the length of those before it; after the last comes `)`.
proof fn lemma_args_at(tv: Seq<TokenView>, start: int, kids: Seq<ExprView>, m: int)
    requires
        0 <= m <= kids.len(),
        2 <= start <= tv.len(),
        holds_at(tv, start - 2, seq![TokenView::LGroup, tv[start - 1]] + args_read(kids) + seq![TokenView::RGroup]),
    ensures
        m < kids.len() ==> holds_at(tv, start + args_read(kids.subrange(0, m)).len(), read_tokens(kids[m])),
        m == kids.len() ==> start + args_read(kids).len() < tv.len() && tv[start + args_read(kids).len()] == TokenView::RGroup,
{
    let whole = seq![TokenView::LGroup, tv[start - 1]] + args_read(kids) + seq![TokenView::RGroup];
    assert(tv.subrange(start - 2, start - 2 + whole.len()) == whole);
    if m < kids.len() {
        lemma_args_split(kids, m);
        let rest = kids.subrange(m, kids.len() as int);
        lemma_args_split(rest, 1);
        assert(rest.subrange(0, 1) =~= seq![kids[m]]);
        let one = seq![kids[m]];
        assert(one.subrange(0, 0) =~= Seq::<ExprView>::empty());
        assert(one[0] == kids[m]);
        assert(args_read(Seq::<ExprView>::empty()) == Seq::<TokenView>::empty());
        assert(args_read(one) =~= read_tokens(kids[m]));
        let a = args_read(kids.subrange(0, m));
        let r = read_tokens(kids[m]);
        let at = start + a.len();
        assert forall|j: int| 0 <= j < r.len() implies #[trigger] tv.subrange(at, at + r.len())[j] == r[j] by {
            assert(tv[at + j] == whole[2 + a.len() as int + j]);
        }
        assert(tv.subrange(at, at + r.len()) =~= r);
    } else {
        let at = start + args_read(kids).len();
        assert(tv[at] == whole[2 + args_read(kids).len() as int]);
    }
}

/// What follows a `(`: the head token and the arguments read up to the
/// matching `)`, made into an expression.
fn build(func: SourceToken, args: Vec<Expression>) -> (r: Result<Expression, LispParseError>)
    requires
        all_canonical(views_of(args@)),
    ensures
        r is Ok ==> canonical(r->Ok_0@),
        match func@ {
            TokenView::Variadic(_) => r is Ok,
            TokenView::Unary(_) | TokenView::Text(_) => (r is Ok <==> args@.len() == 1) && (args@.len() != 1
                ==> r == Err::<Expression, LispParseError>(LispParseError::IncorrectNumArgs)),
            _ => r is Err && (args@.len() == 1 ==> r == Err::<Expression, LispParseError>(LispParseError::NotAFunction))
                && (args@.len() != 1 ==> r == Err::<Expression, LispParseError>(LispParseError::IncorrectNumArgs)),
        },
        func@ is Variadic ==> r is Ok && r->Ok_0@ == crate::expression::variadic_of(func@->Variadic_0, views_of(args@)),
        func@ is Unary && args@.len() == 1 ==> r is Ok && r->Ok_0@ == ExprView::Unary(func@->Unary_0, Box::new(args@[0]@)),
        func@ is Text && args@.len() == 1 ==> r is Ok && r->Ok_0@ == ExprView::Unary(
            UnaryView::Named(func@->Text_0),
            Box::new(args@[0]@),
        ),
{
    if let SourceToken::VariadicOperator(kind) = func {
        return Ok(Expression::Concrete(Concrete::Variadic(Variadic::new(args, kind))));
    }
    if args.len() != 1 {
        return Err(LispParseError::IncorrectNumArgs);
    }
    let mut args = args;
    let ghost before = args@;
    proof {
        lemma_views_of(args@);
    }
    let arg = args.pop().unwrap();
    proof {
        assert(arg == before[0]);
        assert(canonical(views_of(before)[0]));
    }
    match func {
        SourceToken::UnaryOperator(kind) => Ok(Expression::Concrete(Concrete::Unary(Unary { argument: Box::new(arg), kind }))),
        SourceToken::Text(name) => Ok(
            Expression::Concrete(Concrete::Unary(Unary { argument: Box::new(arg), kind: UnaryKind::Named { id: crate::expression::FuncId(name) } })),
        ),
        _ => Err(LispParseError::NotAFunction),
    }
}

/// Reads one expression from `tokens` at `*pos`, moving `*pos` past it.
fn parse_at(tokens: &Vec<SourceToken>, pos: &mut usize, Ghost(target): Ghost<Option<ExprView>>) -> (r: Result<Expression, LispParseError>)
    requires
        *old(pos) <= tokens@.len(),
    ensures
        target is Some && holds_at(token_views(tokens@), *old(pos) as int, read_tokens(target->Some_0)) ==> r is Ok
            && r->Ok_0@ == canon(target->Some_0) && *final(pos) == *old(pos) + read_tokens(target->Some_0).len(),
        *old(pos) < tokens@.len() && tokens@[*old(pos) as int]@ == TokenView::RGroup ==> *final(pos) == *old(pos) + 1,
        *old(pos) < tokens@.len() && (tokens@[*old(pos) as int]@ is Variadic || tokens@[*old(pos) as int]@ is Unary
            || tokens@[*old(pos) as int]@ is Rule) ==> r == Err::<Expression, LispParseError>(LispParseError::ReservedOperator),
        *old(pos) + 1 == tokens@.len() && tokens@[*old(pos) as int]@ == TokenView::LGroup ==> r == Err::<
            Expression,
            LispParseError,
        >(LispParseError::EmptyFuncBody),
        r is Ok ==> canonical(r->Ok_0@),
        *old(pos) <= *final(pos) <= tokens@.len(),
        (r == Err::<Expression, LispParseError>(LispParseError::EmptyString)) <==> *old(pos) == tokens@.len(),
        *old(pos) < tokens@.len() ==> *final(pos) > *old(pos),
        *old(pos) < tokens@.len() && tokens@[*old(pos) as int]@ == TokenView::RGroup ==> r == Err::<
            Expression,
            LispParseError,
        >(LispParseError::IncorrectBrackets),
    decreases tokens@.len() - *old(pos),
{
    if *pos >= tokens.len() {
        return Err(LispParseError::EmptyString);
    }
    let i = *pos;
    *pos = i + 1;
    let ghost tv = token_views(tokens@);
    let ghost on = target is Some && holds_at(tv, i as int, read_tokens(target->Some_0));
    let ghost e = target->Some_0;
    proof {
        if on {
            lemma_read_first(e);
            assert(tv[i as int] == read_tokens(e)[0]);
            assert(tv[i as int] == tokens@[i as int]@);
        }
    }
    match &tokens[i] {
        SourceToken::Literal(l) => Ok(Expression::Concrete(Concrete::Literal(Literal { value: l.duplicate() }))),
        SourceToken::Text(t) => Ok(Expression::Variable(Variable { id: VarId(t.clone()) })),
        SourceToken::RGroup => Err(LispParseError::IncorrectBrackets),
        SourceToken::VariadicOperator(_) => Err(LispParseError::ReservedOperator),
        SourceToken::UnaryOperator(_) => Err(LispParseError::ReservedOperator),
        SourceToken::RuleOperator(_) => Err(LispParseError::ReservedOperator),
        SourceToken::LGroup => {
            if *pos >= tokens.len() {
                return Err(LispParseError::EmptyFuncBody);
            }
            let f = *pos;
            *pos = f + 1;
            let func = copy_token(&tokens[f]);
            let mut args: Vec<Expression> = Vec::new();
            let ghost kids = kids_of(e);
            let ghost n = kids.len();
            let ghost mut closed = false;
            proof {
                lemma_views_of(args@);
                if on {
                    lemma_read_compound(e);
                    assert(tv[f as int] == read_tokens(e)[1]);
                    assert(tv[f as int] == tokens@[f as int]@);
                    assert(kids.subrange(0, 0) =~= Seq::<ExprView>::empty());
                }
            }
            loop
                invariant_except_break
                    !closed,
                invariant
                    i < *pos <= tokens@.len(),
                    i == *old(pos),
                    f == i + 1,
                    f < tokens@.len(),
                    tokens@[i as int]@ == TokenView::LGroup,
                    all_canonical(views_of(args@)),
                    tv == token_views(tokens@),
                    kids == kids_of(e),
                    n == kids.len(),
                    on == (target is Some && holds_at(tv, i as int, read_tokens(target->Some_0))),
                    e == target->Some_0,
                    on ==> read_tokens(e) == seq![TokenView::LGroup, tv[f as int]] + args_read(kids) + seq![TokenView::RGroup],
                    on ==> args@.len() <= n && views_of(args@) == canon_list(kids.subrange(0, args@.len() as int)),
                    on && !closed ==> *pos == i + 2 + args_read(kids.subrange(0, args@.len() as int)).len(),
                    on && closed ==> args@.len() == n && *pos == i + 2 + args_read(kids).len() + 1,
                ensures
                    closed,
                decreases tokens@.len() - *pos,
            {
                let before = *pos;
                let ghost m = args@.len() as int;
                proof {
                    if on {
                        assert(holds_at(tv, i as int, read_tokens(e)));
                        lemma_args_at(tv, i as int + 2, kids, m);
                        if m == n {
                            assert(kids.subrange(0, m) =~= kids);
                            assert(tv[before as int] == tokens@[before as int]@);
                        }
                    }
                }
                match parse_at(tokens, pos, Ghost(if on && m < n { Some(kids[m]) } else { None })) {
                    Ok(x) => {
                        proof {
                            crate::expression::lemma_views_of_push(args@, x);
                            lemma_views_of(args@);
                            lemma_views_of(args@.push(x));
                            assert forall|j: int| 0 <= j < args@.len() + 1 implies canonical(#[trigger] views_of(args@.push(x))[j]) by {
                                if j < args@.len() {
                                    assert(views_of(args@.push(x))[j] == views_of(args@)[j]);
                                }
                            }
                            if on && m < n {
                                assert(kids.subrange(0, m + 1) =~= kids.subrange(0, m).push(kids[m]));
                                assert(kids.subrange(0, m + 1).subrange(0, m) =~= kids.subrange(0, m));
                                assert(views_of(args@.push(x)) =~= canon_list(kids.subrange(0, m + 1)));
                            }
                        }
                        args.push(x);
                    },
                    Err(LispParseError::IncorrectBrackets) => {
                        proof {
                            closed = true;
                        }
                        break;
                    },
                    Err(LispParseError::EmptyString) => {
                        return Err(LispParseError::UnclosedBracket);
                    },
                    Err(e) => {
                        return Err(e);
                    },
                }
            }
            proof {
                if on {
                    assert(kids.subrange(0, n as int) =~= kids);
                    assert(views_of(args@) == canon_list(kids));
                    lemma_read_compound(e);
                    lemma_views_of(args@);
                    if let ExprView::Unary(_, a) = e {
                        let one = seq![*a];
                        assert(one.subrange(0, 0) =~= Seq::<ExprView>::empty());
                        assert(canon_list(one) =~= seq![canon(*a)]);
                        assert(kids =~= one);
                        assert(views_of(args@)[0] == canon(*a));
                        assert(args@[0]@ == canon(*a));
                    }
                }
            }
            build(func, args)
        },
    }
}

fn copy_token(t: &SourceToken) -> (r: SourceToken)
    ensures
        r@ == t@,
{
    match t {
        SourceToken::Literal(l) => SourceToken::Literal(l.duplicate()),
        SourceToken::VariadicOperator(k) => SourceToken::VariadicOperator(*k),
        SourceToken::UnaryOperator(u) => SourceToken::UnaryOperator(u.duplicate()),
        SourceToken::RuleOperator(k) => SourceToken::RuleOperator(*k),
        SourceToken::Text(s) => SourceToken::Text(s.clone()),
        SourceToken::LGroup => SourceToken::LGroup,
        SourceToken::RGroup => SourceToken::RGroup,
    }
}

/// Everything the parser reads a rule from, but the closing bracket: `(`, the
/// rule operator, then both sides.
pub open spec fn rule_head(t: (ExprView, ExprView, RuleKind)) -> Seq<TokenView> {
    seq![TokenView::LGroup, TokenView::Rule(t.2)] + read_tokens(t.0) + read_tokens(t.1)
}

/// What reading a rule from `tv` at `at` gives when `tv` holds the head of
/// the rule `t` there: the rule (both sides as the parser reads them) when `)`
/// follows, `UnclosedBracket` when the tokens end, `IncorrectNumArgs` when
/// something else follows.
pub open spec fn rule_outcome(
    tv: Seq<TokenView>,
    at: int,
    t: (ExprView, ExprView, RuleKind),
    r: Result<Rule, LispParseError>,
    end: int,
) -> bool {
    let after = at + rule_head(t).len();
    if after == tv.len() {
        r == Err::<Rule, LispParseError>(LispParseError::UnclosedBracket)
    } else if tv[after] == TokenView::RGroup {
        &&& r is Ok
        &&& r->Ok_0.pattern@ == canon(t.0)
        &&& r->Ok_0.replacement@ == canon(t.1)
        &&& r->Ok_0.kind == t.2
        &&& end == after + 1
    } else {
        r == Err::<Rule, LispParseError>(LispParseError::IncorrectNumArgs)
    }
}

/// The tokens of a ruleset: each rule in brackets, one after another.
pub open spec fn ruleset_read(ts: Seq<(ExprView, ExprView, RuleKind)>) -> Seq<TokenView>
    decreases ts.len(),
{
    if ts.len() == 0 {
        Seq::empty()
    } else {
        rule_head(ts[0]) + seq![TokenView::RGroup] + ruleset_read(ts.drop_first())
    }
}

/// The rules are those written, each side as the parser reads it.
pub open spec fn rules_read_as(rs: Seq<Rule>, ts: Seq<(ExprView, ExprView, RuleKind)>) -> bool {
    &&& rs.len() == ts.len()
    &&& forall|i: int|
        0 <= i < rs.len() ==> (#[trigger] rs[i]).pattern@ == canon(ts[i].0) && rs[i].replacement@ == canon(ts[i].1)
            && rs[i].kind == ts[i].2
}

proof fn lemma_holds_tail(tv: Seq<TokenView>, at: int, a: Seq<TokenView>, b: Seq<TokenView>)
    requires
        0 <= at <= tv.len(),
        tv.subrange(at, tv.len() as int) == a + b,
    ensures
        holds_at(tv, at, a + b),
        tv.subrange(at + a.len(), tv.len() as int) == b,
{
    let w = tv.subrange(at, tv.len() as int);
    assert(tv.subrange(at, at + (a + b).len()) =~= w);
    assert forall|j: int| 0 <= j < b.len() implies tv.subrange(at + a.len(), tv.len() as int)[j] == b[j] by {
        assert(w[a.len() + j] == (a + b)[a.len() + j]);
    }
    assert(tv.subrange(at + a.len(), tv.len() as int) =~= b);
}

/// Different rule lists have different tokens.
proof fn lemma_ruleset_unique(ts: Seq<(ExprView, ExprView, RuleKind)>, us: Seq<(ExprView, ExprView, RuleKind)>)
    requires
        ruleset_read(ts) == ruleset_read(us),
    ensures
        ts == us,
    decreases ts.len(),
{
    let tv = ruleset_read(ts);
    if ts.len() == 0 {
        if us.len() > 0 {
            assert(ruleset_read(us)[0] == TokenView::LGroup);
        }
        assert(ts =~= us);
    } else {
        if us.len() == 0 {
            assert(ruleset_read(ts)[0] == TokenView::LGroup);
            assert(false);
        }
        let a = rule_head(ts[0]) + seq![TokenView::RGroup];
        let b = rule_head(us[0]) + seq![TokenView::RGroup];
        assert(tv.subrange(0, tv.len() as int) =~= tv);
        lemma_holds_tail(tv, 0, a, ruleset_read(ts.drop_first()));
        lemma_holds_tail(tv, 0, b, ruleset_read(us.drop_first()));
        lemma_holds_split(tv, 0, a, ruleset_read(ts.drop_first()));
        lemma_holds_split(tv, 0, b, ruleset_read(us.drop_first()));
        lemma_holds_split(tv, 0, rule_head(ts[0]), seq![TokenView::RGroup]);
        lemma_holds_split(tv, 0, rule_head(us[0]), seq![TokenView::RGroup]);
        lemma_head_unique(tv, 0, ts[0], us[0]);
        lemma_ruleset_unique(ts.drop_first(), us.drop_first());
        assert(ts =~= seq![ts[0]] + ts.drop_first());
        assert(us =~= seq![us[0]] + us.drop_first());
    }
}

proof fn lemma_holds_split(tv: Seq<TokenView>, at: int, a: Seq<TokenView>, b: Seq<TokenView>)
    requires
        holds_at(tv, at, a + b),
    ensures
        holds_at(tv, at, a),
        holds_at(tv, at + a.len(), b),
{
    let w = tv.subrange(at, at + (a + b).len());
    assert(w == a + b);
    assert forall|j: int| 0 <= j < a.len() implies tv.subrange(at, at + a.len())[j] == a[j] by {
        assert(w[j] == (a + b)[j]);
    }
    assert(tv.subrange(at, at + a.len()) =~= a);
    assert forall|j: int| 0 <= j < b.len() implies tv.subrange(at + a.len(), at + a.len() + b.len())[j] == b[j] by {
        assert(w[a.len() + j] == (a + b)[a.len() + j]);
    }
    assert(tv.subrange(at + a.len(), at + a.len() + b.len()) =~= b);
}

proof fn lemma_head_unique(tv: Seq<TokenView>, at: int, a: (ExprView, ExprView, RuleKind), b: (ExprView, ExprView, RuleKind))
    requires
        holds_at(tv, at, rule_head(a)),
        holds_at(tv, at, rule_head(b)),
    ensures
        a == b,
{
    let ha = seq![TokenView::LGroup, TokenView::Rule(a.2)];
    let hb = seq![TokenView::LGroup, TokenView::Rule(b.2)];
    lemma_holds_split(tv, at, ha + read_tokens(a.0), read_tokens(a.1));
    lemma_holds_split(tv, at, ha, read_tokens(a.0));
    lemma_holds_split(tv, at, hb + read_tokens(b.0), read_tokens(b.1));
    lemma_holds_split(tv, at, hb, read_tokens(b.0));
    assert(tv[at + 1] == ha[1]);
    assert(tv[at + 1] == hb[1]);
    lemma_holds_unique(tv, at + 2, a.0, b.0);
    lemma_holds_unique(tv, at + 2 + read_tokens(a.0).len(), a.1, b.1);
}

fn rule_at(tokens: &Vec<SourceToken>, pos: &mut usize, Ghost(target): Ghost<Option<(ExprView, ExprView, RuleKind)>>) -> (r:
    Result<Rule, LispParseError>)
    requires
        *old(pos) <= tokens@.len(),
    ensures
        *old(pos) <= *final(pos) <= tokens@.len(),
        *old(pos) < tokens@.len() ==> *final(pos) > *old(pos),
        r is Ok ==> canonical(r->Ok_0.pattern@) && canonical(r->Ok_0.replacement@),
        *old(pos) == tokens@.len() ==> r == Err::<Rule, LispParseError>(LispParseError::EmptyString),
        *old(pos) < tokens@.len() && tokens@[*old(pos) as int]@ != TokenView::LGroup ==> r == Err::<
            Rule,
            LispParseError,
        >(LispParseError::ExpectedBracket),
        *old(pos) + 1 == tokens@.len() && tokens@[*old(pos) as int]@ == TokenView::LGroup ==> r == Err::<
            Rule,
            LispParseError,
        >(LispParseError::EmptyFuncBody),
        *old(pos) + 1 < tokens@.len() && tokens@[*old(pos) as int]@ == TokenView::LGroup && !(tokens@[*old(pos)
            + 1]@ is Rule) ==> r == Err::<Rule, LispParseError>(LispParseError::ExpectedRuleOp),
        target is Some && holds_at(token_views(tokens@), *old(pos) as int, rule_head(target->Some_0)) ==> rule_outcome(
            token_views(tokens@),
            *old(pos) as int,
            target->Some_0,
            r,
            *final(pos) as int,
        ),
{
    if *pos >= tokens.len() {
        return Err(LispParseError::EmptyString);
    }
    let ghost tv = token_views(tokens@);
    let ghost on = target is Some && holds_at(tv, *pos as int, rule_head(target->Some_0));
    let ghost t = target->Some_0;
    let i = *pos;
    let ghost h = seq![TokenView::LGroup, TokenView::Rule(t.2)];
    proof {
        if on {
            lemma_holds_split(tv, i as int, h + read_tokens(t.0), read_tokens(t.1));
            lemma_holds_split(tv, i as int, h, read_tokens(t.0));
            assert(tv[i as int] == h[0]);
            assert(tv[i as int + 1] == h[1]);
            assert(tv[i as int] == tokens@[i as int]@);
            assert(tv[i as int + 1] == tokens@[i + 1]@);
        }
    }
    *pos = i + 1;
    match &tokens[i] {
        SourceToken::LGroup => {},
        _ => {
            return Err(LispParseError::ExpectedBracket);
        },
    }
    if *pos >= tokens.len() {
        return Err(LispParseError::EmptyFuncBody);
    }
    let j = *pos;
    *pos = j + 1;
    let kind = match &tokens[j] {
        SourceToken::RuleOperator(k) => *k,
        _ => {
            return Err(LispParseError::ExpectedRuleOp);
        },
    };
    let pattern = match parse_at(tokens, pos, Ghost(if on { Some(t.0) } else { None })) {
        Ok(e) => e,
        Err(e) => {
            return Err(e);
        },
    };
    let replacement = match parse_at(tokens, pos, Ghost(if on { Some(t.1) } else { None })) {
        Ok(e) => e,
        Err(e) => {
            return Err(e);
        },
    };
    if *pos >= tokens.len() {
        return Err(LispParseError::UnclosedBracket);
    }
    let k = *pos;
    proof {
        if on {
            assert(tv[k as int] == tokens@[k as int]@);
        }
    }
    *pos = k + 1;
    match &tokens[k] {
        SourceToken::RGroup => Ok(Rule { pattern, replacement, kind }),
        _ => Err(LispParseError::IncorrectNumArgs),
    }
}


// ---------------------------------------------------------------------------
// The format.

/// Both sides of every rule are well formed.
pub open spec fn rules_canonical(s: Seq<Rule>) -> bool {
    forall|i: int| 0 <= i < s.len() ==> canonical(#[trigger] s[i].pattern@) && canonical(s[i].replacement@)
}

/// The Lisp-style text format.
pub struct Lisp;

impl Lisp {
    /// The tokens of an expression text.
    pub fn tokenize(s: &str) -> (r: Vec<SourceToken>)
        ensures
            token_views(r@) == lex(s@, false),
    {
        scan(s, false)
    }

    /// Reads one expression from `tokens` at `*pos`, moving `*pos` past it.
    /// Tokens after the expression are left alone.
    pub fn parse_tokens(tokens: &Vec<SourceToken>, pos: &mut usize) -> (r: Result<Expression, LispParseError>)
        requires
            *old(pos) <= tokens@.len(),
        ensures
            r is Ok ==> canonical(r->Ok_0@),
            *old(pos) <= *final(pos) <= tokens@.len(),
            (r == Err::<Expression, LispParseError>(LispParseError::EmptyString)) <==> *old(pos) == tokens@.len(),
            *old(pos) < tokens@.len() ==> *final(pos) > *old(pos),
            *old(pos) < tokens@.len() && tokens@[*old(pos) as int]@ == TokenView::RGroup ==> r == Err::<
                Expression,
                LispParseError,
            >(LispParseError::IncorrectBrackets),
            forall|e: ExprView| #[trigger] holds_at(token_views(tokens@), *old(pos) as int, read_tokens(e)) ==> r is Ok
                && r->Ok_0@ == canon(e) && *final(pos) == *old(pos) + read_tokens(e).len(),
            *old(pos) < tokens@.len() && (tokens@[*old(pos) as int]@ is Variadic || tokens@[*old(pos) as int]@ is Unary
                || tokens@[*old(pos) as int]@ is Rule) ==> r == Err::<Expression, LispParseError>(
                LispParseError::ReservedOperator,
            ),
            *old(pos) + 1 == tokens@.len() && tokens@[*old(pos) as int]@ == TokenView::LGroup ==> r == Err::<
                Expression,
                LispParseError,
            >(LispParseError::EmptyFuncBody),
    {
        let ghost tv = token_views(tokens@);
        let ghost at = *pos as int;
        let ghost target = if exists|e: ExprView| #[trigger] holds_at(tv, at, read_tokens(e)) {
            Some(choose|e: ExprView| #[trigger] holds_at(tv, at, read_tokens(e)))
        } else {
            None
        };
        let r = parse_at(tokens, pos, Ghost(target));
        proof {
            assert forall|e: ExprView| #[trigger] holds_at(tv, at, read_tokens(e)) implies r is Ok && r->Ok_0@ == canon(e)
                && *pos == at + read_tokens(e).len() by {
                lemma_holds_unique(tv, at, target->Some_0, e);
            }
        }
        r
    }

    /// Parses the first expression of `s`.
    pub fn parse(s: &str) -> (r: Result<Expression, LispParseError>)
        ensures
            r is Ok ==> canonical(r->Ok_0@),
            (r == Err::<Expression, LispParseError>(LispParseError::EmptyString)) <==> lex(s@, false).len() == 0,
            lex(s@, false).len() > 0 && lex(s@, false)[0] == TokenView::RGroup ==> r == Err::<
                Expression,
                LispParseError,
            >(LispParseError::IncorrectBrackets),
            forall|e: ExprView| #[trigger] read_tokens(e) == lex(s@, false) ==> r is Ok && r->Ok_0@ == canon(e),
            forall|e: ExprView| #[trigger] holds_at(lex(s@, false), 0, read_tokens(e)) ==> r is Ok && r->Ok_0@ == canon(e),
            lex(s@, false).len() > 0 && (lex(s@, false)[0] is Variadic || lex(s@, false)[0] is Unary || lex(s@, false)[0]
                is Rule) ==> r == Err::<Expression, LispParseError>(LispParseError::ReservedOperator),
            lex(s@, false).len() == 1 && lex(s@, false)[0] == TokenView::LGroup ==> r == Err::<Expression, LispParseError>(
                LispParseError::EmptyFuncBody,
            ),
    {
        let tokens = scan(s, false);
        let ghost tv = lex(s@, false);
        let mut pos: usize = 0;
        let r = Self::parse_tokens(&tokens, &mut pos);
        proof {
            if tv.len() > 0 {
                assert(tv[0] == tokens@[0]@);
            }
            assert forall|e: ExprView| #[trigger] read_tokens(e) == tv implies r is Ok && r->Ok_0@ == canon(e) by {
                assert(tv.subrange(0, tv.len() as int) =~= tv);
                assert(holds_at(token_views(tokens@), 0, read_tokens(e)));
            }
        }
        r
    }

    /// The tokens that print `expr`.
    pub fn format_expr(expr: &Expression) -> (r: Vec<SourceToken>)
        ensures
            token_views(r@) == tokens_of(expr@),
    {
        let mut out: Vec<SourceToken> = Vec::new();
        assert(token_views(out@) =~= Seq::<TokenView>::empty());
        format_into(expr, &mut out);
        assert(token_views(out@) =~= tokens_of(expr@));
        out
    }

    /// The tokens written one after another.
    pub fn format_tokens(tokens: Vec<SourceToken>) -> (r: String)
        ensures
            r@ == text_of(token_views(tokens@)),
    {
        let mut out = String::new();
        let mut i: usize = 0;
        let ghost ts = token_views(tokens@);
        assert(ts.subrange(0, 0) =~= Seq::<TokenView>::empty());
        while i < tokens.len()
            invariant
                i <= tokens@.len(),
                ts == token_views(tokens@),
                out@ == text_of(ts.subrange(0, i as int)),
            decreases tokens@.len() - i,
        {
            let piece = token_string(&tokens[i]);
            append_literal(&mut out, piece.as_str());
            proof {
                assert(ts.subrange(0, i + 1).subrange(0, i as int) =~= ts.subrange(0, i as int));
            }
            i = i + 1;
        }
        assert(ts.subrange(0, i as int) =~= ts);
        out
    }

    /// The text of `expr`.
    pub fn format(expr: &Expression) -> (r: String)
        ensures
            r@ == text_of(tokens_of(expr@)),
    {
        Self::format_tokens(Self::format_expr(expr))
    }

    /// Reads one rule, `(op pattern replacement)`, from `tokens` at `*pos`.
    pub fn parse_tokens_rule(tokens: &Vec<SourceToken>, pos: &mut usize) -> (r: Result<Rule, LispParseError>)
        requires
            *old(pos) <= tokens@.len(),
        ensures
            *old(pos) <= *final(pos) <= tokens@.len(),
            *old(pos) < tokens@.len() ==> *final(pos) > *old(pos),
            r is Ok ==> canonical(r->Ok_0.pattern@) && canonical(r->Ok_0.replacement@),
            *old(pos) == tokens@.len() ==> r == Err::<Rule, LispParseError>(LispParseError::EmptyString),
            *old(pos) < tokens@.len() && tokens@[*old(pos) as int]@ != TokenView::LGroup ==> r == Err::<
                Rule,
                LispParseError,
            >(LispParseError::ExpectedBracket),
            *old(pos) + 1 == tokens@.len() && tokens@[*old(pos) as int]@ == TokenView::LGroup ==> r == Err::<
                Rule,
                LispParseError,
            >(LispParseError::EmptyFuncBody),
            *old(pos) + 1 < tokens@.len() && tokens@[*old(pos) as int]@ == TokenView::LGroup && !(tokens@[*old(pos)
                + 1]@ is Rule) ==> r == Err::<Rule, LispParseError>(LispParseError::ExpectedRuleOp),
            forall|t: (ExprView, ExprView, RuleKind)| #[trigger] holds_at(token_views(tokens@), *old(pos) as int, rule_head(t))
                ==> rule_outcome(token_views(tokens@), *old(pos) as int, t, r, *final(pos) as int),
    {
        let ghost tv = token_views(tokens@);
        let ghost at = *pos as int;
        let ghost target = if exists|t: (ExprView, ExprView, RuleKind)| #[trigger] holds_at(tv, at, rule_head(t)) {
            Some(choose|t: (ExprView, ExprView, RuleKind)| #[trigger] holds_at(tv, at, rule_head(t)))
        } else {
            None
        };
        let r = rule_at(tokens, pos, Ghost(target));
        proof {
            assert forall|t: (ExprView, ExprView, RuleKind)| #[trigger] holds_at(tv, at, rule_head(t)) implies rule_outcome(
                tv,
                at,
                t,
                r,
                *pos as int,
            ) by {
                lemma_head_unique(tv, at, target->Some_0, t);
            }
        }
        r
    }

    /// Parses every rule of a ruleset text; `;` starts a comment that runs to
    /// the end of the line.
    pub fn parse_ruleset(s: &str) -> (r: Result<Vec<Rule>, LispParseError>)
        ensures
            r is Ok ==> rules_canonical(r->Ok_0@),
            lex(s@, true).len() == 0 ==> r is Ok && r->Ok_0@.len() == 0,
            forall|ts: Seq<(ExprView, ExprView, RuleKind)>| #[trigger] ruleset_read(ts) == lex(s@, true) ==> r is Ok
                && rules_read_as(r->Ok_0@, ts),
    {
        let tokens = scan(s, true);
        let ghost tv = lex(s@, true);
        proof {
            assert(tokens@.len() == token_views(tokens@).len());
        }
        let ghost on = exists|ts: Seq<(ExprView, ExprView, RuleKind)>| #[trigger] ruleset_read(ts) == tv;
        let ghost ts = choose|ts: Seq<(ExprView, ExprView, RuleKind)>| #[trigger] ruleset_read(ts) == tv;
        let ghost n = lex(s@, true).len();
        let mut pos: usize = 0;
        let mut output: Vec<Rule> = Vec::new();
        proof {
            if on {
                assert(tv.subrange(0, tv.len() as int) =~= tv);
                assert(ts.subrange(0, ts.len() as int) =~= ts);
            }
        }
        while pos < tokens.len()
            invariant
                pos <= tokens@.len(),
                tokens@.len() == n,
                n == lex(s@, true).len(),
                tv == lex(s@, true),
                tv == token_views(tokens@),
                pos == 0 ==> output@.len() == 0,
                rules_canonical(output@),
                on == exists|us: Seq<(ExprView, ExprView, RuleKind)>| #[trigger] ruleset_read(us) == tv,
                on ==> ruleset_read(ts) == tv,
                on ==> output@.len() <= ts.len() && rules_read_as(output@, ts.subrange(0, output@.len() as int))
                    && tv.subrange(pos as int, tv.len() as int) == ruleset_read(
                    ts.subrange(output@.len() as int, ts.len() as int),
                ),
            decreases tokens@.len() - pos,
        {
            let ghost m = output@.len() as int;
            let ghost p0 = pos as int;
            proof {
                if on {
                    let rest = ts.subrange(m, ts.len() as int);
                    if rest.len() == 0 {
                        assert(ruleset_read(rest) =~= Seq::<TokenView>::empty());
                        assert(false);
                    }
                    let t = rest[0];
                    assert(ruleset_read(rest) == rule_head(t) + seq![TokenView::RGroup] + ruleset_read(rest.drop_first()));
                    lemma_holds_tail(tv, p0, rule_head(t) + seq![TokenView::RGroup], ruleset_read(rest.drop_first()));
                    lemma_holds_split(tv, p0, rule_head(t) + seq![TokenView::RGroup], ruleset_read(rest.drop_first()));
                    lemma_holds_split(tv, p0, rule_head(t), seq![TokenView::RGroup]);
                    assert(tv.subrange(p0 + rule_head(t).len(), p0 + rule_head(t).len() + 1)[0] == TokenView::RGroup);
                    assert(tv[p0 + rule_head(t).len()] == TokenView::RGroup);
                    assert(holds_at(token_views(tokens@), p0, rule_head(t)));
                }
            }
            let ghost t0 = ts.subrange(m, ts.len() as int)[0];
            match Self::parse_tokens_rule(&tokens, &mut pos) {
                Ok(rule) => {
                    proof {
                        if on {
                            let rest = ts.subrange(m, ts.len() as int);
                            assert(rest.drop_first() =~= ts.subrange(m + 1, ts.len() as int));
                            assert(ts.subrange(0, m + 1) =~= ts.subrange(0, m).push(rest[0]));
                        }
                    }
                    output.push(rule);
                },
                Err(e) => {
                    proof {
                        if on {
                            assert(rule_outcome(token_views(tokens@), p0, t0, Err(e), pos as int));
                            assert(false);
                        }
                    }
                    return Err(e);
                },
            }
        }
        proof {
            if on {
                let rest = ts.subrange(output@.len() as int, ts.len() as int);
                assert(tv.subrange(pos as int, tv.len() as int) =~= Seq::<TokenView>::empty());
                if rest.len() > 0 {
                    assert(ruleset_read(rest) == rule_head(rest[0]) + seq![TokenView::RGroup] + ruleset_read(
                        rest.drop_first(),
                    ));
                    assert(false);
                }
                assert(ts.subrange(0, output@.len() as int) =~= ts);
            }
            assert forall|us: Seq<(ExprView, ExprView, RuleKind)>| #[trigger] ruleset_read(us) == tv implies rules_read_as(
                output@,
                us,
            ) by {
                lemma_ruleset_unique(ts, us);
            }
        }
        Ok(output)
    }

    /// The tokens that print a rule.
    pub fn format_rule_tokens(rule: &Rule) -> (r: Vec<SourceToken>)
        ensures
            token_views(r@) == rule_tokens(rule.pattern@, rule.replacement@, rule.kind),
    {
        let mut out: Vec<SourceToken> = Vec::new();
        assert(token_views(out@) =~= Seq::<TokenView>::empty());
        push_token(&mut out, SourceToken::LGroup);
        push_token(&mut out, SourceToken::RuleOperator(rule.kind));
        push_token(&mut out, space_text());
        format_into(&rule.pattern, &mut out);
        push_token(&mut out, space_text());
        format_into(&rule.replacement, &mut out);
        push_token(&mut out, SourceToken::RGroup);
        assert(token_views(out@) =~= rule_tokens(rule.pattern@, rule.replacement@, rule.kind));
        out
    }

    /// The text of a rule.
    pub fn format_rule(rule: &Rule) -> (r: String)
        ensures
            r@ == text_of(rule_tokens(rule.pattern@, rule.replacement@, rule.kind)),
    {
        Self::format_tokens(Self::format_rule_tokens(rule))
    }

    /// The text that starts a comment in a ruleset.
    pub fn comment() -> (r: &'static str)
        ensures
            r@ == seq![';'],
    {
        proof {
            reveal_strlit(";");
        }
        ";"
    }
}

impl SourceToken {
    pub fn same(&self, other: &SourceToken) -> (r: bool)
        ensures
            r == (self@ == other@),
    {
        match (self, other) {
            (SourceToken::Literal(a), SourceToken::Literal(b)) => a.same(b),
            (SourceToken::VariadicOperator(a), SourceToken::VariadicOperator(b)) => *a == *b,
            (SourceToken::UnaryOperator(a), SourceToken::UnaryOperator(b)) => a.same(b),
            (SourceToken::RuleOperator(a), SourceToken::RuleOperator(b)) => *a == *b,
            (SourceToken::Text(a), SourceToken::Text(b)) => *a == *b,
            (SourceToken::LGroup, SourceToken::LGroup) => true,
            (SourceToken::RGroup, SourceToken::RGroup) => true,
            _ => false,
        }
    }
}

impl PartialEq for SourceToken {
    fn eq(&self, other: &SourceToken) -> bool {
        self.same(other)
    }
}

impl vstd::std_specs::cmp::PartialEqSpecImpl for SourceToken {
    open spec fn obeys_eq_spec() -> bool {
        true
    }

    open spec fn eq_spec(&self, other: &SourceToken) -> bool {
        self@ == other@
    }
}

impl Expression {
    /// The expression in the Lisp-style text format.
    pub fn to_text(&self) -> (r: String)
        ensures
            r@ == text_of(tokens_of(self@)),
    {
        Lisp::format(self)
    }
}

impl Rule {
    /// The rule in the Lisp-style text format.
    pub fn to_text(&self) -> (r: String)
        ensures
            r@ == text_of(rule_tokens(self.pattern@, self.replacement@, self.kind)),
    {
        Lisp::format_rule(self)
    }
}

// ---------------------------------------------------------------------------
// Reading back what was printed.

/// A word that the scanner keeps whole: not empty, no bracket, no white space.
pub open spec fn word_ok(w: Seq<char>) -> bool {
    w.len() > 0 && forall|j: int| 0 <= j < w.len() ==> #[trigger] w[j] != '(' && w[j] != ')' && !blank(w[j])
}

/// Every name in `e` prints as a word that reads back as that name (numbers
/// always do: see `lemma_decimal`).
pub open spec fn printable(e: ExprView) -> bool
    decreases e,
{
    match e {
        ExprView::Var(s) => word_ok(s) && classify(s) == TokenView::Text(s),
        ExprView::Const(s) => word_ok(s) && classify(s) == TokenView::Literal(e),
        ExprView::Int(_) => true,
        ExprView::Unary(u, a) => printable(*a) && match u {
            UnaryView::Named(s) => word_ok(s) && classify(s) == TokenView::Text(s),
            _ => true,
        },
        ExprView::Variadic(_, ts) => forall|i: int| 0 <= i < ts.len() ==> printable(#[trigger] ts[i]),
    }
}

/// The words of the printed text of `e`.
pub open spec fn read_words(e: ExprView) -> Seq<Seq<char>>
    decreases e,
{
    match e {
        ExprView::Variadic(k, ts) => seq![seq!['('], variadic_op(k)] + args_words(ts) + seq![seq![')']],
        ExprView::Unary(u, a) => seq![seq!['('], unary_op(u)] + read_words(*a) + seq![seq![')']],
        ExprView::Int(i) => seq![decimal(i)],
        ExprView::Var(s) => seq![s],
        ExprView::Const(s) => seq![s],
    }
}

pub open spec fn args_words(ts: Seq<ExprView>) -> Seq<Seq<char>>
    decreases ts,
{
    if ts.len() == 0 {
        Seq::empty()
    } else {
        args_words(ts.subrange(0, ts.len() - 1)) + read_words(ts[ts.len() - 1])
    }
}

/// `rest` cannot continue a word.
pub open spec fn delimited(rest: Seq<char>) -> bool {
    rest.len() == 0 || rest[0] == '(' || rest[0] == ')' || blank(rest[0])
}

proof fn lemma_text_of_add(a: Seq<TokenView>, b: Seq<TokenView>)
    ensures
        text_of(a + b) == text_of(a) + text_of(b),
    decreases b.len(),
{
    if b.len() == 0 {
        assert(a + b =~= a);
        assert(text_of(a) + text_of(b) =~= text_of(a));
    } else {
        let b0 = b.subrange(0, b.len() - 1);
        lemma_text_of_add(a, b0);
        assert((a + b).subrange(0, (a + b).len() - 1) =~= a + b0);
        assert(text_of(a) + text_of(b) =~= text_of(a) + text_of(b0) + token_text(b[b.len() - 1]));
    }
}

proof fn lemma_text_of_one(t: TokenView)
    ensures
        text_of(seq![t]) == token_text(t),
{
    let one = seq![t];
    assert(one.subrange(0, 0) =~= Seq::<TokenView>::empty());
    assert(text_of(Seq::<TokenView>::empty()) == Seq::<char>::empty());
    assert(one.len() == 1 && one[0] == t);
    assert(text_of(one) == text_of(one.subrange(0, 0)) + token_text(one[0]));
    assert(Seq::<char>::empty() + token_text(t) =~= token_text(t));
}

proof fn lemma_word(w: Seq<char>, rest: Seq<char>, cur: Seq<char>)
    requires
        forall|j: int| 0 <= j < w.len() ==> #[trigger] w[j] != '(' && w[j] != ')' && !blank(w[j]),
    ensures
        words(w + rest, cur, false, false) == words(rest, cur + w, false, false),
    decreases w.len(),
{
    if w.len() == 0 {
        assert(w + rest =~= rest);
        assert(cur + w =~= cur);
    } else {
        let w1 = w.drop_first();
        assert((w + rest)[0] == w[0]);
        assert((w + rest).drop_first() =~= w1 + rest);
        assert forall|j: int| 0 <= j < w1.len() implies #[trigger] w1[j] != '(' && w1[j] != ')' && !blank(w1[j]) by {
            assert(w1[j] == w[j + 1]);
        }
        lemma_word(w1, rest, cur.push(w[0]));
        assert(cur.push(w[0]) + w1 =~= cur + w);
    }
}

proof fn lemma_flush(rest: Seq<char>, cur: Seq<char>)
    requires
        delimited(rest),
    ensures
        words(rest, cur, false, false) == flush(cur) + words(rest, Seq::empty(), false, false),
{
    let e: Seq<char> = Seq::empty();
    assert(flush(e) =~= Seq::<Seq<char>>::empty());
    if rest.len() == 0 {
        assert(flush(cur) + flush(e) =~= flush(cur));
    } else if rest[0] == '(' || rest[0] == ')' {
        let tail = words(rest.drop_first(), e, false, false);
        assert(flush(e) + seq![seq![rest[0]]] + tail =~= seq![seq![rest[0]]] + tail);
        assert(flush(cur) + seq![seq![rest[0]]] + tail =~= flush(cur) + (seq![seq![rest[0]]] + tail));
    } else {
        let tail = words(rest.drop_first(), e, false, false);
        assert(flush(e) + tail =~= tail);
    }
}

/// Reading a delimiter character that stands first.
proof fn lemma_step(c: char, x: Seq<char>)
    requires
        c == '(' || c == ')' || (blank(c) && c != '(' && c != ')'),
    ensures
        (seq![c] + x)[0] == c,
        (seq![c] + x).drop_first() == x,
        c == '(' || c == ')' ==> words(seq![c] + x, Seq::empty(), false, false) == seq![seq![c]] + words(
            x,
            Seq::empty(),
            false,
            false,
        ),
        c != '(' && c != ')' ==> words(seq![c] + x, Seq::empty(), false, false) == words(x, Seq::empty(), false, false),
{
    assert((seq![c] + x).drop_first() =~= x);
    let e: Seq<char> = Seq::empty();
    assert(flush(e) =~= Seq::<Seq<char>>::empty());
    let tail = words(x, e, false, false);
    assert(flush(e) + seq![seq![c]] + tail =~= seq![seq![c]] + tail);
    assert(flush(e) + tail =~= tail);
}

proof fn lemma_args_text_start(ts: Seq<ExprView>)
    ensures
        text_of(args_tokens(ts)).len() == 0 || text_of(args_tokens(ts))[0] == ' ',
    decreases ts.len(),
{
    if ts.len() > 0 {
        let init = ts.subrange(0, ts.len() - 1);
        lemma_args_text_start(init);
        let a = args_tokens(init);
        lemma_text_of_add(a + seq![space_token()], tokens_of(ts[ts.len() - 1]));
        lemma_text_of_add(a, seq![space_token()]);
        lemma_text_of_one(space_token());
    }
}

/// Scanning the printed text of `e`, followed by text that cannot continue a
/// word, gives the words of `e` first.
#[verifier::rlimit(80)]
proof fn lemma_read(e: ExprView, rest: Seq<char>)
    requires
        printable(e),
        delimited(rest),
    ensures
        words(text_of(tokens_of(e)) + rest, Seq::empty(), false, false) == read_words(e) + words(
            rest,
            Seq::empty(),
            false,
            false,
        ),
    decreases e,
{
    let emp: Seq<char> = Seq::empty();
    let w_rest = words(rest, emp, false, false);
    match e {
        ExprView::Variadic(k, ts) => {
            let a = args_tokens(ts);
            let at = text_of(a);
            let op = variadic_op(k);
            lemma_text_of_add(seq![TokenView::LGroup, TokenView::Variadic(k)] + a, seq![TokenView::RGroup]);
            lemma_text_of_add(seq![TokenView::LGroup, TokenView::Variadic(k)], a);
            lemma_text_of_add(seq![TokenView::LGroup], seq![TokenView::Variadic(k)]);
            assert(seq![TokenView::LGroup] + seq![TokenView::Variadic(k)] =~= seq![TokenView::LGroup, TokenView::Variadic(k)]);
            lemma_text_of_one(TokenView::LGroup);
            lemma_text_of_one(TokenView::Variadic(k));
            lemma_text_of_one(TokenView::RGroup);
            let close = seq![')'] + rest;
            let text = text_of(tokens_of(e));
            assert(text == seq!['('] + op + at + seq![')']);
            assert(text + rest =~= seq!['('] + (op + (at + close)));
            lemma_step('(', op + (at + close));
            lemma_word(op, at + close, emp);
            assert(emp + op =~= op);
            lemma_args_text_start(ts);
            assert(delimited(at + close)) by {
                if at.len() == 0 {
                    assert(at + close =~= close);
                } else {
                    assert((at + close)[0] == ' ');
                }
            }
            lemma_flush(at + close, op);
            lemma_read_args(ts, close);
            lemma_step(')', rest);
            assert(flush(op) =~= seq![op]);
            assert(read_words(e) + w_rest =~= seq![seq!['(']] + (seq![op] + (args_words(ts) + (seq![seq![')']] + w_rest))));
        },
        ExprView::Unary(u, arg) => {
            let pa = text_of(tokens_of(*arg));
            let op = unary_op(u);
            let head = seq![TokenView::LGroup, TokenView::Unary(u), space_token()];
            lemma_text_of_add(head + tokens_of(*arg), seq![TokenView::RGroup]);
            lemma_text_of_add(head, tokens_of(*arg));
            lemma_text_of_add(seq![TokenView::LGroup, TokenView::Unary(u)], seq![space_token()]);
            lemma_text_of_add(seq![TokenView::LGroup], seq![TokenView::Unary(u)]);
            assert(seq![TokenView::LGroup] + seq![TokenView::Unary(u)] =~= seq![TokenView::LGroup, TokenView::Unary(u)]);
            assert(seq![TokenView::LGroup, TokenView::Unary(u)] + seq![space_token()] =~= head);
            lemma_text_of_one(TokenView::LGroup);
            lemma_text_of_one(TokenView::Unary(u));
            lemma_text_of_one(space_token());
            lemma_text_of_one(TokenView::RGroup);
            let close = seq![')'] + rest;
            let text = text_of(tokens_of(e));
            assert(text == seq!['('] + op + seq![' '] + pa + seq![')']);
            assert(text + rest =~= seq!['('] + (op + (seq![' '] + (pa + close))));
            assert(word_ok(op)) by {
                match u {
                    UnaryView::Negation => {
                        assert(op[0] == '-');
                    },
                    UnaryView::Reciprocal => {
                        assert(op[0] == '/');
                    },
                    _ => {},
                }
            }
            lemma_step('(', op + (seq![' '] + (pa + close)));
            lemma_word(op, seq![' '] + (pa + close), emp);
            assert(emp + op =~= op);
            assert(blank(' '));
            assert(delimited(seq![' '] + (pa + close)));
            lemma_flush(seq![' '] + (pa + close), op);
            lemma_step(' ', pa + close);
            lemma_read(*arg, close);
            lemma_step(')', rest);
            assert(flush(op) =~= seq![op]);
            assert(read_words(e) + w_rest =~= seq![seq!['(']] + (seq![op] + (read_words(*arg) + (seq![seq![')']]
                + w_rest))));
        },
        _ => {
            if let ExprView::Int(i) = e {
                lemma_decimal(i);
            }
            let w = text_of(tokens_of(e));
            match e {
                ExprView::Var(s) => lemma_text_of_one(TokenView::Text(s)),
                _ => lemma_text_of_one(TokenView::Literal(e)),
            }
            assert(read_words(e) == seq![w]);
            lemma_word(w, rest, emp);
            assert(emp + w =~= w);
            lemma_flush(rest, w);
            assert(flush(w) =~= seq![w]);
        },
    }
}

proof fn lemma_read_args(ts: Seq<ExprView>, rest: Seq<char>)
    requires
        forall|i: int| 0 <= i < ts.len() ==> printable(#[trigger] ts[i]),
        delimited(rest),
    ensures
        words(text_of(args_tokens(ts)) + rest, Seq::empty(), false, false) == args_words(ts) + words(
            rest,
            Seq::empty(),
            false,
            false,
        ),
    decreases ts,
{
    let emp: Seq<char> = Seq::empty();
    if ts.len() == 0 {
        assert(text_of(args_tokens(ts)) + rest =~= rest);
        assert(args_words(ts) + words(rest, emp, false, false) =~= words(rest, emp, false, false));
    } else {
        let init = ts.subrange(0, ts.len() - 1);
        let last = ts[ts.len() - 1];
        let a0 = text_of(args_tokens(init));
        let p = text_of(tokens_of(last));
        lemma_text_of_add(args_tokens(init) + seq![space_token()], tokens_of(last));
        lemma_text_of_add(args_tokens(init), seq![space_token()]);
        lemma_text_of_one(space_token());
        assert(text_of(args_tokens(ts)) + rest =~= a0 + (seq![' '] + (p + rest)));
        assert(blank(' '));
        assert forall|i: int| 0 <= i < init.len() implies printable(#[trigger] init[i]) by {
            assert(init[i] == ts[i]);
        }
        assert((seq![' '] + (p + rest))[0] == ' ');
        lemma_read_args(init, seq![' '] + (p + rest));
        lemma_step(' ', p + rest);
        lemma_read(last, rest);
        assert(args_words(ts) + words(rest, emp, false, false) =~= args_words(init) + (read_words(last) + words(
            rest,
            emp,
            false,
            false,
        )));
    }
}

/// Scanning the printed text of an expression whose names and numbers print
/// as words gives back exactly its words: brackets, operators, names and
/// numbers, in order.
pub proof fn lemma_print_then_scan(e: ExprView)
    requires
        printable(e),
    ensures
        words(text_of(tokens_of(e)), Seq::empty(), false, false) == read_words(e),
        lex(text_of(tokens_of(e)), false) == read_words(e).map_values(|w: Seq<char>| classify(w)),
{
    let emp: Seq<char> = Seq::empty();
    lemma_read(e, emp);
    assert(text_of(tokens_of(e)) + emp =~= text_of(tokens_of(e)));
    assert(words(emp, emp, false, false) =~= Seq::<Seq<char>>::empty());
    assert(read_words(e) + Seq::<Seq<char>>::empty() =~= read_words(e));
}

proof fn lemma_classify_ops()
    ensures
        classify(seq!['(']) == TokenView::LGroup,
        classify(seq![')']) == TokenView::RGroup,
        classify(seq!['+']) == TokenView::Variadic(VariadicKind::Addition),
        classify(seq!['*']) == TokenView::Variadic(VariadicKind::Multiplication),
        classify(seq!['-']) == TokenView::Unary(UnaryView::Negation),
        classify(seq!['/']) == TokenView::Unary(UnaryView::Reciprocal),
{
    assert(seq!['('][0] == '(' && seq![')'][0] == ')' && seq!['+'][0] == '+');
    assert(seq!['*'][0] == '*' && seq!['-'][0] == '-' && seq!['/'][0] == '/');
    assert(seq!['=', '>'].len() == 2 && seq!['=', '='].len() == 2);
}

/// Classifying the words of the printed text of `e` gives the tokens that
/// the parser reads it from.
proof fn lemma_classify_read(e: ExprView)
    requires
        printable(e),
    ensures
        read_words(e).map_values(|w: Seq<char>| classify(w)) == read_tokens(e),
    decreases e,
{
    lemma_classify_ops();
    match e {
        ExprView::Variadic(k, ts) => {
            lemma_classify_args(ts);
            let head = seq![seq!['('], variadic_op(k)];
            assert(head.map_values(|w: Seq<char>| classify(w)) =~= seq![TokenView::LGroup, TokenView::Variadic(k)]);
            assert(seq![seq![')']].map_values(|w: Seq<char>| classify(w)) =~= seq![TokenView::RGroup]);
            assert(read_words(e).map_values(|w: Seq<char>| classify(w)) =~= head.map_values(|w: Seq<char>| classify(w))
                + args_words(ts).map_values(|w: Seq<char>| classify(w)) + seq![seq![')']].map_values(
                |w: Seq<char>| classify(w),
            ));
        },
        ExprView::Unary(u, a) => {
            lemma_classify_read(*a);
            let head = seq![seq!['('], unary_op(u)];
            assert(head.map_values(|w: Seq<char>| classify(w)) =~= seq![TokenView::LGroup, head_token(u)]);
            assert(seq![seq![')']].map_values(|w: Seq<char>| classify(w)) =~= seq![TokenView::RGroup]);
            assert(read_words(e).map_values(|w: Seq<char>| classify(w)) =~= head.map_values(|w: Seq<char>| classify(w))
                + read_words(*a).map_values(|w: Seq<char>| classify(w)) + seq![seq![')']].map_values(
                |w: Seq<char>| classify(w),
            ));
        },
        _ => {
            if let ExprView::Int(i) = e {
                lemma_decimal(i);
            }
            assert(read_words(e).map_values(|w: Seq<char>| classify(w)) =~= read_tokens(e));
        },
    }
}

proof fn lemma_classify_args(ts: Seq<ExprView>)
    requires
        forall|i: int| 0 <= i < ts.len() ==> printable(#[trigger] ts[i]),
    ensures
        args_words(ts).map_values(|w: Seq<char>| classify(w)) == args_read(ts),
    decreases ts,
{
    if ts.len() == 0 {
        assert(args_words(ts).map_values(|w: Seq<char>| classify(w)) =~= args_read(ts));
    } else {
        let init = ts.subrange(0, ts.len() - 1);
        assert forall|i: int| 0 <= i < init.len() implies printable(#[trigger] init[i]) by {
            assert(init[i] == ts[i]);
        }
        lemma_classify_args(init);
        lemma_classify_read(ts[ts.len() - 1]);
        assert(args_words(ts).map_values(|w: Seq<char>| classify(w)) =~= args_words(init).map_values(
            |w: Seq<char>| classify(w),
        ) + read_words(ts[ts.len() - 1]).map_values(|w: Seq<char>| classify(w)));
    }
}

proof fn lemma_head1(t: TokenView, z: Seq<TokenView>, x: Seq<TokenView>)
    ensures
        (seq![t] + z + x)[0] == t,
        (seq![t] + z + x).drop_first() == z + x,
{
    assert((seq![t] + z + x).drop_first() =~= z + x);
}

/// The tokens of an expression are never a proper prefix of another's, and
/// different expressions have different tokens.
#[verifier::rlimit(60)]
proof fn lemma_read_prefix(a: ExprView, b: ExprView, x: Seq<TokenView>, y: Seq<TokenView>)
    requires
        read_tokens(a) + x == read_tokens(b) + y,
    ensures
        a == b,
        x == y,
    decreases a,
{
    lemma_read_first(a);
    lemma_read_first(b);
    assert((read_tokens(a) + x)[0] == read_tokens(a)[0]);
    assert((read_tokens(b) + y)[0] == read_tokens(b)[0]);
    let emp: Seq<TokenView> = Seq::empty();
    if a is Variadic || a is Unary {
        {
            assert(b is Variadic || b is Unary);
            lemma_read_compound(a);
            lemma_read_compound(b);
            let ha = read_tokens(a)[1];
            let hb = read_tokens(b)[1];
            let la = read_tokens(a);
            let lb = read_tokens(b);
            assert((la + x)[1] == ha);
            assert((lb + y)[1] == hb);
            assert(ha == hb);
            assert(a is Variadic <==> b is Variadic);
            let xa = seq![TokenView::RGroup] + x;
            let yb = seq![TokenView::RGroup] + y;
            assert(la + x =~= seq![TokenView::LGroup, ha] + (args_read(kids_of(a)) + xa));
            assert(lb + y =~= seq![TokenView::LGroup, hb] + (args_read(kids_of(b)) + yb));
            assert(args_read(kids_of(a)) + xa =~= (la + x).subrange(2, (la + x).len() as int));
            assert(args_read(kids_of(b)) + yb =~= (lb + y).subrange(2, (lb + y).len() as int));
            if let ExprView::Unary(u, arg) = a {
                if let ExprView::Unary(v, arg2) = b {
                    let ra = read_tokens(*arg);
                    let rb = read_tokens(*arg2);
                    assert(la + x =~= seq![TokenView::LGroup, ha] + (ra + xa));
                    assert(lb + y =~= seq![TokenView::LGroup, hb] + (rb + yb));
                    assert(ra + xa =~= (la + x).subrange(2, (la + x).len() as int));
                    assert(rb + yb =~= (lb + y).subrange(2, (lb + y).len() as int));
                    lemma_read_prefix(*arg, *arg2, xa, yb);
                    assert(x =~= xa.drop_first());
                    assert(y =~= yb.drop_first());
                    assert(head_token(u) == head_token(v));
                    match u {
                        UnaryView::Named(_) => {},
                        _ => {},
                    }
                }
            } else if let ExprView::Variadic(k, ts) = a {
                if let ExprView::Variadic(k2, us) = b {
                    lemma_args_prefix(ts, us, x, y);
                    assert(TokenView::Variadic(k) == TokenView::Variadic(k2));
                }
            }
        }
    } else {
        assert(read_tokens(a) =~= seq![read_tokens(a)[0]]);
        assert(read_tokens(b) =~= seq![read_tokens(b)[0]]);
        assert(x =~= (read_tokens(a) + x).drop_first());
        assert(y =~= (read_tokens(b) + y).drop_first());
    }
}

proof fn lemma_args_front(ts: Seq<ExprView>)
    requires
        ts.len() > 0,
    ensures
        args_read(ts) == read_tokens(ts[0]) + args_read(ts.subrange(1, ts.len() as int)),
{
    lemma_args_split(ts, 1);
    let one = ts.subrange(0, 1);
    assert(one.subrange(0, 0) =~= Seq::<ExprView>::empty());
    assert(one[0] == ts[0]);
    assert(args_read(Seq::<ExprView>::empty()) == Seq::<TokenView>::empty());
    assert(args_read(one) =~= read_tokens(ts[0]));
}

proof fn lemma_args_prefix(ts: Seq<ExprView>, us: Seq<ExprView>, x: Seq<TokenView>, y: Seq<TokenView>)
    requires
        args_read(ts) + (seq![TokenView::RGroup] + x) == args_read(us) + (seq![TokenView::RGroup] + y),
    ensures
        ts == us,
        x == y,
    decreases ts,
{
    let xa = seq![TokenView::RGroup] + x;
    let yb = seq![TokenView::RGroup] + y;
    if ts.len() == 0 {
        assert(args_read(ts) + xa =~= xa);
        if us.len() > 0 {
            lemma_args_front(us);
            lemma_read_first(us[0]);
            assert((args_read(us) + yb)[0] == read_tokens(us[0])[0]);
            assert(false);
        }
        assert(args_read(us) + yb =~= yb);
        assert(x =~= xa.drop_first());
        assert(y =~= yb.drop_first());
        assert(ts =~= us);
    } else {
        lemma_args_front(ts);
        lemma_read_first(ts[0]);
        if us.len() == 0 {
            assert(args_read(us) + yb =~= yb);
            assert((args_read(ts) + xa)[0] == read_tokens(ts[0])[0]);
            assert(false);
        }
        lemma_args_front(us);
        let tr = ts.subrange(1, ts.len() as int);
        let ur = us.subrange(1, us.len() as int);
        assert(args_read(ts) + xa =~= read_tokens(ts[0]) + (args_read(tr) + xa));
        assert(args_read(us) + yb =~= read_tokens(us[0]) + (args_read(ur) + yb));
        lemma_read_prefix(ts[0], us[0], args_read(tr) + xa, args_read(ur) + yb);
        lemma_args_prefix(tr, ur, x, y);
        assert(ts =~= seq![ts[0]] + tr);
        assert(us =~= seq![us[0]] + ur);
    }
}

/// Printing an expression whose names and numbers print as words, then
/// scanning the text, gives exactly the tokens that the parser reads it from.
pub proof fn lemma_round_trip(e: ExprView)
    requires
        printable(e),
    ensures
        lex(text_of(tokens_of(e)), false) == read_tokens(e),
        canonical(e) ==> canon(e) == e,
{
    if canonical(e) {
        lemma_canon_of_canonical(e);
    }
    lemma_print_then_scan(e);
    lemma_classify_read(e);
}

/// A text format for expressions.
pub trait ExprTextFormat<ErrorType> {
    fn parse(s: &str) -> Result<Expression, ErrorType>;

    fn format(expr: &Expression) -> String;

    fn tokenize(s: &str) -> Vec<SourceToken>;

    fn format_tokens(tokens: Vec<SourceToken>) -> String;

    fn parse_tokens(tokens: &Vec<SourceToken>, pos: &mut usize) -> Result<Expression, ErrorType>
        requires
            *old(pos) <= tokens@.len(),
    ;

    fn format_expr(expr: &Expression) -> Vec<SourceToken>;
}

/// A text format for rules and rulesets.
pub trait RuleTextFormat<ErrorType>: ExprTextFormat<ErrorType> {
    fn parse_ruleset(s: &str) -> Result<Vec<Rule>, ErrorType>;

    fn format_rule(rule: &Rule) -> String;

    fn parse_tokens_rule(tokens: &Vec<SourceToken>, pos: &mut usize) -> Result<Rule, ErrorType>
        requires
            *old(pos) <= tokens@.len(),
    ;

    fn format_rule_tokens(rule: &Rule) -> Vec<SourceToken>;

    fn comment() -> &'static str;
}

impl ExprTextFormat<LispParseError> for Lisp {
    fn parse(s: &str) -> Result<Expression, LispParseError> {
        Lisp::parse(s)
    }

    fn format(expr: &Expression) -> String {
        Lisp::format(expr)
    }

    fn tokenize(s: &str) -> Vec<SourceToken> {
        Lisp::tokenize(s)
    }

    fn format_tokens(tokens: Vec<SourceToken>) -> String {
        Lisp::format_tokens(tokens)
    }

    fn parse_tokens(tokens: &Vec<SourceToken>, pos: &mut usize) -> Result<Expression, LispParseError> {
        Lisp::parse_tokens(tokens, pos)
    }

    fn format_expr(expr: &Expression) -> Vec<SourceToken> {
        Lisp::format_expr(expr)
    }
}

impl RuleTextFormat<LispParseError> for Lisp {
    fn parse_ruleset(s: &str) -> Result<Vec<Rule>, LispParseError> {
        Lisp::parse_ruleset(s)
    }

    fn format_rule(rule: &Rule) -> String {
        Lisp::format_rule(rule)
    }

    fn parse_tokens_rule(tokens: &Vec<SourceToken>, pos: &mut usize) -> Result<Rule, LispParseError> {
        Lisp::parse_tokens_rule(tokens, pos)
    }

    fn format_rule_tokens(rule: &Rule) -> Vec<SourceToken> {
        Lisp::format_rule_tokens(rule)
    }

    fn comment() -> &'static str {
        Lisp::comment()
    }
}

} // verus!
