use vstd::prelude::*;

use crate::lexer::{joined_text, lex, law_lex_is_lossless};
use crate::common::{tokens_model, Expr, SpecExpr, SpecLiteral, SpecToken, Token, TokenLiteral, TokenType};

verus! {

/// Why a sequence of tokens does not form an expression.
#[derive(Debug, PartialEq, Eq, Clone, Copy, Structural)]
pub enum ParseError {
    /// A parenthesised expression is not closed by ')'.
    MissingRparen,
    /// No expression can start here; the kind carried is that of the token just
    /// before the offending position.
    UnexpectedToken(TokenType),
}

/// The name of a token kind, as the parser writes it in its messages.
pub open spec fn kind_name(k: TokenType) -> Seq<char> {
    match k {
        TokenType::Add => "Add"@,
        TokenType::Sub => "Sub"@,
        TokenType::Div => "Div"@,
        TokenType::Mul => "Mul"@,
        TokenType::Lparen => "Lparen"@,
        TokenType::Rparen => "Rparen"@,
        TokenType::Number => "Number"@,
        TokenType::Eof => "Eof"@,
    }
}

/// The text that describes a parse error.
pub open spec fn error_message(e: ParseError) -> Seq<char> {
    match e {
        ParseError::MissingRparen => "Expected ')' after expression"@,
        ParseError::UnexpectedToken(k) => "Unknow TokenType "@ + kind_name(k),
    }
}

fn kind_name_str(k: TokenType) -> (r: &'static str)
    ensures
        r@ == kind_name(k),
{
    match k {
        TokenType::Add => "Add",
        TokenType::Sub => "Sub",
        TokenType::Div => "Div",
        TokenType::Mul => "Mul",
        TokenType::Lparen => "Lparen",
        TokenType::Rparen => "Rparen",
        TokenType::Number => "Number",
        TokenType::Eof => "Eof",
    }
}

impl ParseError {
    /// The text that describes this error.
    pub fn message(&self) -> (r: String)
        ensures
            r@ == error_message(*self),
    {
        match self {
            ParseError::MissingRparen => String::from_str("Expected ')' after expression"),
            ParseError::UnexpectedToken(k) => String::from_str("Unknow TokenType ").concat(
                kind_name_str(*k),
            ),
        }
    }
}

/// What parsing from a position gives: the expression and how many tokens it
/// took, or the error and how many tokens had been read when it was found.
pub type Parsed = Result<(SpecExpr, nat), (ParseError, nat)>;

/// The kind of the token at `p`; past the last token, `Eof`.
pub open spec fn kind_at(ts: Seq<SpecToken>, p: nat) -> TokenType {
    if p < ts.len() {
        ts[p as int].kind
    } else {
        TokenType::Eof
    }
}

/// How many tokens are left from `p` on.
pub open spec fn rest_len(ts: Seq<SpecToken>, p: nat) -> nat {
    if p <= ts.len() {
        (ts.len() - p) as nat
    } else {
        0
    }
}

pub open spec fn is_additive(k: TokenType) -> bool {
    k == TokenType::Add || k == TokenType::Sub
}

pub open spec fn is_multiplicative(k: TokenType) -> bool {
    k == TokenType::Mul || k == TokenType::Div
}

/// expression := term
pub open spec fn parse_expression(ts: Seq<SpecToken>, p: nat) -> Parsed
    decreases rest_len(ts, p), 6nat,
{
    parse_term(ts, p)
}

/// term := factor (('+' | '-') factor)*
pub open spec fn parse_term(ts: Seq<SpecToken>, p: nat) -> Parsed
    decreases rest_len(ts, p), 5nat,
{
    match parse_factor(ts, p) {
        Ok((left, n)) => match parse_term_rest(ts, left, p + n) {
            Ok((e, m)) => Ok((e, n + m)),
            Err((err, m)) => Err((err, n + m)),
        },
        Err((err, n)) => Err((err, n)),
    }
}

/// The repetition in `term`, after `left` has been read, from `p` on; the
/// operators associate to the left.
pub open spec fn parse_term_rest(ts: Seq<SpecToken>, left: SpecExpr, p: nat) -> Parsed
    decreases rest_len(ts, p), 4nat,
{
    let op = kind_at(ts, p);
    if is_additive(op) {
        match parse_factor(ts, p + 1) {
            Ok((right, n)) => match parse_term_rest(
                ts,
                SpecExpr::Binary(Box::new(left), op, Box::new(right)),
                p + 1 + n,
            ) {
                Ok((e, m)) => Ok((e, 1 + n + m)),
                Err((err, m)) => Err((err, 1 + n + m)),
            },
            Err((err, n)) => Err((err, 1 + n)),
        }
    } else {
        Ok((left, 0))
    }
}

/// factor := unary (('*' | '/') unary)*
pub open spec fn parse_factor(ts: Seq<SpecToken>, p: nat) -> Parsed
    decreases rest_len(ts, p), 3nat,
{
    match parse_unary(ts, p) {
        Ok((left, n)) => match parse_factor_rest(ts, left, p + n) {
            Ok((e, m)) => Ok((e, n + m)),
            Err((err, m)) => Err((err, n + m)),
        },
        Err((err, n)) => Err((err, n)),
    }
}

/// The repetition in `factor`, after `left` has been read, from `p` on; the
/// operators associate to the left.
pub open spec fn parse_factor_rest(ts: Seq<SpecToken>, left: SpecExpr, p: nat) -> Parsed
    decreases rest_len(ts, p), 2nat,
{
    let op = kind_at(ts, p);
    if is_multiplicative(op) {
        match parse_unary(ts, p + 1) {
            Ok((right, n)) => match parse_factor_rest(
                ts,
                SpecExpr::Binary(Box::new(left), op, Box::new(right)),
                p + 1 + n,
            ) {
                Ok((e, m)) => Ok((e, 1 + n + m)),
                Err((err, m)) => Err((err, 1 + n + m)),
            },
            Err((err, n)) => Err((err, 1 + n)),
        }
    } else {
        Ok((left, 0))
    }
}

/// unary := '-' unary | primary
pub open spec fn parse_unary(ts: Seq<SpecToken>, p: nat) -> Parsed
    decreases rest_len(ts, p), 1nat,
{
    if kind_at(ts, p) == TokenType::Sub {
        match parse_unary(ts, p + 1) {
            Ok((right, n)) => Ok((SpecExpr::Unary(TokenType::Sub, Box::new(right)), n + 1)),
            Err((err, n)) => Err((err, n + 1)),
        }
    } else {
        parse_primary(ts, p)
    }
}

/// primary := number | '(' expression ')'
pub open spec fn parse_primary(ts: Seq<SpecToken>, p: nat) -> Parsed
    decreases rest_len(ts, p), 0nat,
{
    if kind_at(ts, p) == TokenType::Number {
        Ok((SpecExpr::Literal(ts[p as int].literal), 1))
    } else if kind_at(ts, p) == TokenType::Lparen {
        match parse_expression(ts, p + 1) {
            Ok((e, n)) => if kind_at(ts, p + 1 + n) == TokenType::Rparen {
                Ok((SpecExpr::Grouping(Box::new(e)), n + 2))
            } else {
                Err((ParseError::MissingRparen, n + 1))
            },
            Err((err, n)) => Err((err, n + 1)),
        }
    } else {
        Err((ParseError::UnexpectedToken(ts[p - 1].kind), 0))
    }
}

/// The tokens an expression tree spells out, parentheses included.
pub open spec fn expr_tokens(e: SpecExpr) -> Seq<SpecToken>
    decreases e,
{
    match e {
        SpecExpr::Binary(left, op, right) => expr_tokens(*left) + seq![
            SpecToken { kind: op, literal: SpecLiteral::NoValue },
        ] + expr_tokens(*right),
        SpecExpr::Unary(op, right) => seq![SpecToken { kind: op, literal: SpecLiteral::NoValue }]
            + expr_tokens(*right),
        SpecExpr::Grouping(inner) => seq![
            SpecToken { kind: TokenType::Lparen, literal: SpecLiteral::NoValue },
        ] + expr_tokens(*inner) + seq![
            SpecToken { kind: TokenType::Rparen, literal: SpecLiteral::NoValue },
        ],
        SpecExpr::Literal(value) => seq![SpecToken { kind: TokenType::Number, literal: value }],
    }
}

/// Two tokens read the same to the parser: same kind and, for numbers, the same value.
pub open spec fn same_reading(a: SpecToken, b: SpecToken) -> bool {
    &&& a.kind == b.kind
    &&& a.kind == TokenType::Number ==> a.literal == b.literal
}

/// `toks` reads the same as the tokens of `ts` from `start` on.
pub open spec fn reads_as(toks: Seq<SpecToken>, ts: Seq<SpecToken>, start: nat) -> bool {
    &&& start + toks.len() <= ts.len()
    &&& forall|i: int| 0 <= i < toks.len() ==> same_reading(#[trigger] toks[i], ts[start + i])
}

/// `e` spells out exactly the `n` tokens of `ts` from `start` on.
pub open spec fn spans(e: SpecExpr, ts: Seq<SpecToken>, start: nat, n: nat) -> bool {
    expr_tokens(e).len() == n && reads_as(expr_tokens(e), ts, start)
}

proof fn lemma_reads_as_concat(a: Seq<SpecToken>, b: Seq<SpecToken>, ts: Seq<SpecToken>, start: nat)
    requires
        reads_as(a, ts, start),
        reads_as(b, ts, start + a.len()),
    ensures
        reads_as(a + b, ts, start),
{
    assert forall|i: int| 0 <= i < (a + b).len() implies same_reading(#[trigger] (a + b)[i], ts[start + i]) by {
        if i >= a.len() {
            assert((a + b)[i] == b[i - a.len()]);
            assert(same_reading(b[i - a.len()], ts[(start + a.len()) + (i - a.len())]));
        }
    }
}

proof fn lemma_reads_as_single(t: SpecToken, ts: Seq<SpecToken>, start: nat)
    requires
        start < ts.len(),
        same_reading(t, ts[start as int]),
    ensures
        reads_as(seq![t], ts, start),
{
}

proof fn lemma_spans_expression(ts: Seq<SpecToken>, p: nat)
    ensures
        parse_expression(ts, p) matches Ok((e, n)) ==> n > 0 && spans(e, ts, p, n),
    decreases rest_len(ts, p), 6nat,
{
    lemma_spans_term(ts, p);
}

proof fn lemma_spans_term(ts: Seq<SpecToken>, p: nat)
    ensures
        parse_term(ts, p) matches Ok((e, n)) ==> n > 0 && spans(e, ts, p, n),
    decreases rest_len(ts, p), 5nat,
{
    lemma_spans_factor(ts, p);
    if let Ok((left, n)) = parse_factor(ts, p) {
        lemma_spans_term_rest(ts, left, p, p + n);
    }
}

proof fn lemma_spans_term_rest(ts: Seq<SpecToken>, left: SpecExpr, q: nat, p: nat)
    requires
        q <= p,
        spans(left, ts, q, (p - q) as nat),
    ensures
        parse_term_rest(ts, left, p) matches Ok((e, m)) ==> spans(e, ts, q, (p - q + m) as nat),
    decreases rest_len(ts, p), 4nat,
{
    let op = kind_at(ts, p);
    if is_additive(op) {
        lemma_spans_factor(ts, p + 1);
        if let Ok((right, n)) = parse_factor(ts, p + 1) {
            let joined = SpecExpr::Binary(Box::new(left), op, Box::new(right));
            let op_tok = SpecToken { kind: op, literal: SpecLiteral::NoValue };
            lemma_reads_as_single(op_tok, ts, p);
            lemma_reads_as_concat(expr_tokens(left), seq![op_tok], ts, q);
            lemma_reads_as_concat(expr_tokens(left) + seq![op_tok], expr_tokens(right), ts, q);
            lemma_spans_term_rest(ts, joined, q, p + 1 + n);
        }
    }
}

proof fn lemma_spans_factor(ts: Seq<SpecToken>, p: nat)
    ensures
        parse_factor(ts, p) matches Ok((e, n)) ==> n > 0 && spans(e, ts, p, n),
    decreases rest_len(ts, p), 3nat,
{
    lemma_spans_unary(ts, p);
    if let Ok((left, n)) = parse_unary(ts, p) {
        lemma_spans_factor_rest(ts, left, p, p + n);
    }
}

proof fn lemma_spans_factor_rest(ts: Seq<SpecToken>, left: SpecExpr, q: nat, p: nat)
    requires
        q <= p,
        spans(left, ts, q, (p - q) as nat),
    ensures
        parse_factor_rest(ts, left, p) matches Ok((e, m)) ==> spans(e, ts, q, (p - q + m) as nat),
    decreases rest_len(ts, p), 2nat,
{
    let op = kind_at(ts, p);
    if is_multiplicative(op) {
        lemma_spans_unary(ts, p + 1);
        if let Ok((right, n)) = parse_unary(ts, p + 1) {
            let joined = SpecExpr::Binary(Box::new(left), op, Box::new(right));
            let op_tok = SpecToken { kind: op, literal: SpecLiteral::NoValue };
            lemma_reads_as_single(op_tok, ts, p);
            lemma_reads_as_concat(expr_tokens(left), seq![op_tok], ts, q);
            lemma_reads_as_concat(expr_tokens(left) + seq![op_tok], expr_tokens(right), ts, q);
            lemma_spans_factor_rest(ts, joined, q, p + 1 + n);
        }
    }
}

proof fn lemma_spans_unary(ts: Seq<SpecToken>, p: nat)
    ensures
        parse_unary(ts, p) matches Ok((e, n)) ==> n > 0 && spans(e, ts, p, n),
    decreases rest_len(ts, p), 1nat,
{
    if kind_at(ts, p) == TokenType::Sub {
        lemma_spans_unary(ts, p + 1);
        if let Ok((right, n)) = parse_unary(ts, p + 1) {
            let op_tok = SpecToken { kind: TokenType::Sub, literal: SpecLiteral::NoValue };
            lemma_reads_as_single(op_tok, ts, p);
            lemma_reads_as_concat(seq![op_tok], expr_tokens(right), ts, p);
        }
    } else {
        lemma_spans_primary(ts, p);
    }
}

proof fn lemma_spans_primary(ts: Seq<SpecToken>, p: nat)
    ensures
        parse_primary(ts, p) matches Ok((e, n)) ==> n > 0 && spans(e, ts, p, n),
    decreases rest_len(ts, p), 0nat,
{
    if kind_at(ts, p) == TokenType::Number {
        lemma_reads_as_single(SpecToken { kind: TokenType::Number, literal: ts[p as int].literal }, ts, p);
    } else if kind_at(ts, p) == TokenType::Lparen {
        lemma_spans_expression(ts, p + 1);
        if let Ok((inner, n)) = parse_expression(ts, p + 1) {
            if kind_at(ts, p + 1 + n) == TokenType::Rparen {
                let open = SpecToken { kind: TokenType::Lparen, literal: SpecLiteral::NoValue };
                let close = SpecToken { kind: TokenType::Rparen, literal: SpecLiteral::NoValue };
                lemma_reads_as_single(open, ts, p);
                lemma_reads_as_single(close, ts, p + 1 + n);
                lemma_reads_as_concat(seq![open], expr_tokens(inner), ts, p);
                lemma_reads_as_concat(seq![open] + expr_tokens(inner), seq![close], ts, p);
            }
        }
    }
}

/// A tree that stands as the operand of a unary minus or of '*' and '/': a
/// number, a parenthesised group, or a minus applied to such a tree.
pub open spec fn is_unary_tree(e: SpecExpr) -> bool
    decreases e, 0nat,
{
    match e {
        SpecExpr::Literal(_) => true,
        SpecExpr::Grouping(inner) => is_sum_tree(*inner),
        SpecExpr::Unary(op, operand) => op == TokenType::Sub && is_unary_tree(*operand),
        SpecExpr::Binary(..) => false,
    }
}

/// A product: operands joined by '*' and '/', grouped from the left, so that the
/// right operand of each of these operators is a unary tree.
pub open spec fn is_product_tree(e: SpecExpr) -> bool
    decreases e, 1nat,
{
    match e {
        SpecExpr::Binary(left, op, right) => (op == TokenType::Mul || op == TokenType::Div)
            && is_product_tree(*left) && is_unary_tree(*right),
        _ => is_unary_tree(e),
    }
}

/// A sum: products joined by '+' and '-', grouped from the left, so that the
/// right operand of each of these operators is a product.
pub open spec fn is_sum_tree(e: SpecExpr) -> bool
    decreases e, 2nat,
{
    match e {
        SpecExpr::Binary(left, op, right) => if op == TokenType::Add || op == TokenType::Sub {
            is_sum_tree(*left) && is_product_tree(*right)
        } else {
            is_product_tree(e)
        },
        _ => is_product_tree(e),
    }
}

proof fn lemma_shape_expression(ts: Seq<SpecToken>, p: nat)
    ensures
        parse_expression(ts, p) matches Ok((e, n)) ==> is_sum_tree(e),
    decreases rest_len(ts, p), 6nat,
{
    lemma_shape_term(ts, p);
}

proof fn lemma_shape_term(ts: Seq<SpecToken>, p: nat)
    ensures
        parse_term(ts, p) matches Ok((e, n)) ==> is_sum_tree(e),
    decreases rest_len(ts, p), 5nat,
{
    lemma_shape_factor(ts, p);
    if let Ok((left, n)) = parse_factor(ts, p) {
        lemma_shape_term_rest(ts, left, p + n);
    }
}

proof fn lemma_shape_term_rest(ts: Seq<SpecToken>, left: SpecExpr, p: nat)
    requires
        is_sum_tree(left),
    ensures
        parse_term_rest(ts, left, p) matches Ok((e, m)) ==> is_sum_tree(e),
    decreases rest_len(ts, p), 4nat,
{
    let op = kind_at(ts, p);
    if is_additive(op) {
        lemma_shape_factor(ts, p + 1);
        if let Ok((right, n)) = parse_factor(ts, p + 1) {
            let joined = SpecExpr::Binary(Box::new(left), op, Box::new(right));
            assert(is_sum_tree(joined));
            lemma_shape_term_rest(ts, joined, p + 1 + n);
        }
    }
}

proof fn lemma_shape_factor(ts: Seq<SpecToken>, p: nat)
    ensures
        parse_factor(ts, p) matches Ok((e, n)) ==> is_product_tree(e) && is_sum_tree(e),
    decreases rest_len(ts, p), 3nat,
{
    lemma_shape_unary(ts, p);
    if let Ok((left, n)) = parse_unary(ts, p) {
        lemma_shape_factor_rest(ts, left, p + n);
    }
}

proof fn lemma_shape_factor_rest(ts: Seq<SpecToken>, left: SpecExpr, p: nat)
    requires
        is_product_tree(left),
    ensures
        parse_factor_rest(ts, left, p) matches Ok((e, m)) ==> is_product_tree(e) && is_sum_tree(e),
    decreases rest_len(ts, p), 2nat,
{
    let op = kind_at(ts, p);
    if is_multiplicative(op) {
        lemma_shape_unary(ts, p + 1);
        if let Ok((right, n)) = parse_unary(ts, p + 1) {
            let joined = SpecExpr::Binary(Box::new(left), op, Box::new(right));
            assert(is_product_tree(joined));
            lemma_shape_factor_rest(ts, joined, p + 1 + n);
        }
    } else {
        assert(is_sum_tree(left));
    }
}

proof fn lemma_shape_unary(ts: Seq<SpecToken>, p: nat)
    ensures
        parse_unary(ts, p) matches Ok((e, n)) ==> is_unary_tree(e) && is_product_tree(e),
    decreases rest_len(ts, p), 1nat,
{
    if kind_at(ts, p) == TokenType::Sub {
        lemma_shape_unary(ts, p + 1);
    } else {
        lemma_shape_primary(ts, p);
    }
}

proof fn lemma_shape_primary(ts: Seq<SpecToken>, p: nat)
    ensures
        parse_primary(ts, p) matches Ok((e, n)) ==> is_unary_tree(e) && is_product_tree(e),
    decreases rest_len(ts, p), 0nat,
{
    if kind_at(ts, p) == TokenType::Lparen {
        lemma_shape_expression(ts, p + 1);
        if let Ok((inner, n)) = parse_expression(ts, p + 1) {
            let group = SpecExpr::Grouping(Box::new(inner));
            assert(is_unary_tree(group));
            assert(is_product_tree(group));
        }
    } else if kind_at(ts, p) == TokenType::Number {
        let number = SpecExpr::Literal(ts[p as int].literal);
        assert(is_unary_tree(number));
        assert(is_product_tree(number));
    }
}

/// The parser builds trees of the shape that gives the operators their
/// precedence and grouping: a sum of products of unary trees. So '*' and '/'
/// bind tighter than '+' and '-', every binary operator groups from the left
/// (its right operand never holds an operator of its own level outside
/// parentheses), and a unary minus applies to a number, a group or another
/// minus, never to a binary operation.
pub proof fn law_parse_tree_shape(ts: Seq<SpecToken>, p: nat)
    ensures
        parse_expression(ts, p) matches Ok((e, n)) ==> is_sum_tree(e),
        parse_factor(ts, p) matches Ok((e, n)) ==> is_product_tree(e),
        parse_unary(ts, p) matches Ok((e, n)) ==> is_unary_tree(e),
{
    lemma_shape_expression(ts, p);
    lemma_shape_factor(ts, p);
    lemma_shape_unary(ts, p);
}

proof fn lemma_factor_rest_stops(ts: Seq<SpecToken>, left: SpecExpr, p: nat)
    ensures
        parse_factor_rest(ts, left, p) matches Ok((e, m)) ==> !is_multiplicative(kind_at(ts, p + m)),
    decreases rest_len(ts, p),
{
    if is_multiplicative(kind_at(ts, p)) {
        if let Ok((right, n)) = parse_unary(ts, p + 1) {
            let joined = SpecExpr::Binary(Box::new(left), kind_at(ts, p), Box::new(right));
            lemma_factor_rest_stops(ts, joined, p + 1 + n);
        }
    }
}

proof fn lemma_factor_stops(ts: Seq<SpecToken>, p: nat)
    ensures
        parse_factor(ts, p) matches Ok((e, n)) ==> !is_multiplicative(kind_at(ts, p + n)),
{
    if let Ok((left, n)) = parse_unary(ts, p) {
        lemma_factor_rest_stops(ts, left, p + n);
    }
}

proof fn lemma_term_rest_stops(ts: Seq<SpecToken>, left: SpecExpr, p: nat)
    requires
        !is_multiplicative(kind_at(ts, p)),
    ensures
        parse_term_rest(ts, left, p) matches Ok((e, m)) ==> !is_additive(kind_at(ts, p + m))
            && !is_multiplicative(kind_at(ts, p + m)),
    decreases rest_len(ts, p),
{
    if is_additive(kind_at(ts, p)) {
        lemma_factor_stops(ts, p + 1);
        if let Ok((right, n)) = parse_factor(ts, p + 1) {
            let joined = SpecExpr::Binary(Box::new(left), kind_at(ts, p), Box::new(right));
            lemma_term_rest_stops(ts, joined, p + 1 + n);
        }
    }
}

/// The parser reads an expression as far as it can: where it stops, the next
/// token (if any) is not one of the operators '+', '-', '*', '/', which would
/// have continued the expression. Likewise a factor stops before a token that
/// is not '*' or '/'.
pub proof fn law_parse_reads_as_far_as_it_can(ts: Seq<SpecToken>, p: nat)
    ensures
        parse_expression(ts, p) matches Ok((e, n)) ==> {
            let next = kind_at(ts, p + n);
            next != TokenType::Add && next != TokenType::Sub && next != TokenType::Mul && next
                != TokenType::Div
        },
        parse_factor(ts, p) matches Ok((e, n)) ==> {
            let next = kind_at(ts, p + n);
            next != TokenType::Mul && next != TokenType::Div
        },
{
    lemma_factor_stops(ts, p);
    if let Ok((left, n)) = parse_factor(ts, p) {
        lemma_term_rest_stops(ts, left, p + n);
    }
}

/// What the parser builds spells out exactly the tokens it read: the tokens of
/// the tree (its operators, its numbers, and a pair of parentheses around each
/// grouping), in order, read the same as the tokens consumed, of which there is
/// at least one and which all lie within the input.
pub proof fn law_parse_spells_its_input(ts: Seq<SpecToken>, p: nat)
    ensures
        parse_expression(ts, p) matches Ok((e, n)) ==> {
            &&& 0 < n
            &&& p + n <= ts.len()
            &&& expr_tokens(e).len() == n
            &&& forall|i: int| 0 <= i < n ==> same_reading(#[trigger] expr_tokens(e)[i], ts[p + i])
        },
{
    lemma_spans_expression(ts, p);
}

proof fn lemma_joined_text_concat(a: Seq<SpecToken>, b: Seq<SpecToken>)
    ensures
        joined_text(a + b) == joined_text(a) + joined_text(b),
    decreases a.len(),
{
    if a.len() > 0 {
        assert((a + b).drop_first() =~= a.drop_first() + b);
        lemma_joined_text_concat(a.drop_first(), b);
        assert(joined_text(a) + joined_text(b) =~= crate::lexer::token_text(a[0]) + (joined_text(
            a.drop_first(),
        ) + joined_text(b)));
    } else {
        assert(a + b =~= b);
        assert(joined_text(a) + joined_text(b) =~= joined_text(b));
    }
}

proof fn lemma_joined_text_same_reading(a: Seq<SpecToken>, b: Seq<SpecToken>)
    requires
        a.len() == b.len(),
        forall|i: int| 0 <= i < a.len() ==> same_reading(#[trigger] a[i], b[i]),
    ensures
        joined_text(a) == joined_text(b),
    decreases a.len(),
{
    if a.len() > 0 {
        assert forall|i: int| 0 <= i < a.drop_first().len() implies same_reading(
            #[trigger] a.drop_first()[i],
            b.drop_first()[i],
        ) by {
            assert(same_reading(a[i + 1], b[i + 1]));
        }
        lemma_joined_text_same_reading(a.drop_first(), b.drop_first());
        assert(same_reading(a[0], b[0]));
    }
}

/// Lexing a text and parsing the tokens builds a tree that spells out the text
/// it was read from: the source texts of the tree's tokens, one after the other,
/// are the beginning of the text.
pub proof fn law_parsed_text_is_a_prefix(s: Seq<u8>)
    ensures
        parse_expression(lex(s), 0) matches Ok((e, n)) ==> {
            let spelled = joined_text(expr_tokens(e));
            spelled.len() <= s.len() && s.take(spelled.len() as int) == spelled
        },
{
    let ts = lex(s);
    if let Ok((e, n)) = parse_expression(ts, 0) {
        law_parse_spells_its_input(ts, 0);
        let consumed = ts.take(n as int);
        assert forall|i: int| 0 <= i < expr_tokens(e).len() implies same_reading(
            #[trigger] expr_tokens(e)[i],
            consumed[i],
        ) by {
            assert(same_reading(expr_tokens(e)[i], ts[0 + i]));
        }
        lemma_joined_text_same_reading(expr_tokens(e), consumed);
        assert(ts =~= consumed + ts.skip(n as int));
        lemma_joined_text_concat(consumed, ts.skip(n as int));
        law_lex_is_lossless(s);
        let spelled = joined_text(expr_tokens(e));
        assert(s =~= spelled + joined_text(ts.skip(n as int)));
        assert(s.take(spelled.len() as int) =~= spelled);
    }
}

/// Parsing from `p` cannot reach the point where an error is reported at the
/// very first token (which has no token before it): either `p` is past the
/// first token, or the first token can begin an expression.
pub open spec fn reportable_from(ts: Seq<SpecToken>, p: nat) -> bool {
    p > 0 || kind_at(ts, p) == TokenType::Sub || kind_at(ts, p) == TokenType::Number || kind_at(
        ts,
        p,
    ) == TokenType::Lparen
}

/// The same, for a `primary` started at `p`.
pub open spec fn primary_reportable_from(ts: Seq<SpecToken>, p: nat) -> bool {
    p > 0 || kind_at(ts, p) == TokenType::Number || kind_at(ts, p) == TokenType::Lparen
}

/// An executable result agrees with what parsing from `start` gives, and the
/// parser then stands at `end`: past the tokens of the expression, or past
/// those read before the error was found.
pub open spec fn agrees(r: Result<Expr, ParseError>, expected: Parsed, start: nat, end: nat) -> bool {
    match expected {
        Ok((e, n)) => r matches Ok(x) && x@ == e && end == start + n,
        Err((err, n)) => r matches Err(x) && x == err && end == start + n,
    }
}

/// A recursive-descent parser over a sequence of tokens.
pub struct Parser {
    tokens: Vec<Token>,
    current: usize,
}

impl Parser {
    #[verifier::type_invariant]
    spec fn inv(self) -> bool {
        self.current <= self.tokens.len()
    }

    /// The tokens being parsed.
    pub closed spec fn tokens_view(&self) -> Seq<SpecToken> {
        tokens_model(self.tokens@)
    }

    /// The position of the next token to read.
    pub closed spec fn position(&self) -> nat {
        self.current as nat
    }

    pub fn new(tokens: Vec<Token>) -> (r: Self)
        ensures
            r.tokens_view() == tokens_model(tokens@),
            r.position() == 0,
    {
        Self { tokens, current: 0 }
    }

    /// The expression at the start of `tokens`; the tokens must form one.
    pub fn run(tokens: Vec<Token>) -> (r: Expr)
        requires
            parse_expression(tokens_model(tokens@), 0) is Ok,
        ensures
            r@ == parse_expression(tokens_model(tokens@), 0)->Ok_0.0,
    {
        let mut parser = Self::new(tokens);
        let ghost ts = parser.tokens_view();
        assert(reportable_from(ts, 0)) by {
            if !reportable_from(ts, 0) {
                assert(parse_primary(ts, 0) is Err);
                assert(parse_unary(ts, 0) is Err);
                assert(parse_factor(ts, 0) is Err);
                assert(parse_term(ts, 0) is Err);
            }
        }
        match parser.parse() {
            Ok(expr) => expr,
            Err(_) => {
                assert(false);
                Expr::Literal { value: TokenLiteral::NoValue }
            },
        }
    }

    /// The next token, or an end-of-input token past the last one.
    pub fn peek(&self) -> (r: &Token)
        ensures
            r@ == (if self.position() < self.tokens_view().len() {
                self.tokens_view()[self.position() as int]
            } else {
                SpecToken { kind: TokenType::Eof, literal: SpecLiteral::NoValue }
            }),
    {
        proof {
            use_type_invariant(self);
        }
        if self.current < self.tokens.len() {
            &self.tokens[self.current]
        } else {
            &Token { token_type: TokenType::Eof, literal: TokenLiteral::NoValue }
        }
    }

    /// Reads the next token.
    pub fn next(&mut self) -> (r: &Token)
        requires
            old(self).position() < old(self).tokens_view().len(),
        ensures
            final(self).tokens_view() == old(self).tokens_view(),
            final(self).position() == old(self).position() + 1,
            r@ == old(self).tokens_view()[old(self).position() as int],
    {
        proof {
            use_type_invariant(&*self);
        }
        self.current += 1;
        &self.tokens[self.current - 1]
    }

    fn previous(&self) -> (r: &Token)
        requires
            self.position() >= 1,
        ensures
            r@ == self.tokens_view()[self.position() - 1],
    {
        proof {
            use_type_invariant(self);
        }
        &self.tokens[self.current - 1]
    }

    /// Reads the next token when its kind is one of `types`, and says whether it did.
    pub fn match_type(&mut self, types: &[TokenType]) -> (r: bool)
        requires
            types@.contains(TokenType::Eof) ==> old(self).position() < old(self).tokens_view().len(),
        ensures
            final(self).tokens_view() == old(self).tokens_view(),
            r == types@.contains(kind_at(old(self).tokens_view(), old(self).position())),
            final(self).position() == old(self).position() + (if r {
                1nat
            } else {
                0nat
            }),
    {
        let token_type = self.peek().token_type;
        let mut i: usize = 0;
        while i < types.len()
            invariant
                0 <= i <= types@.len(),
                self.tokens_view() == old(self).tokens_view(),
                self.position() == old(self).position(),
                types@.contains(TokenType::Eof) ==> self.position() < self.tokens_view().len(),
                token_type == kind_at(self.tokens_view(), self.position()),
                forall|j: int| 0 <= j < i ==> types@[j] != token_type,
            decreases types@.len() - i,
        {
            if types[i] == token_type {
                assert(types@.contains(types@[i as int]));
                self.next();
                return true;
            }
            i += 1;
        }
        assert(!types@.contains(token_type));
        false
    }

    /// The expression that starts at the current position.
    pub fn parse(&mut self) -> (r: Result<Expr, ParseError>)
        requires
            reportable_from(old(self).tokens_view(), old(self).position()),
        ensures
            final(self).tokens_view() == old(self).tokens_view(),
            agrees(
                r,
                parse_expression(old(self).tokens_view(), old(self).position()),
                old(self).position(),
                final(self).position(),
            ),
    {
        self.expression()
    }

    fn expression(&mut self) -> (r: Result<Expr, ParseError>)
        requires
            reportable_from(old(self).tokens_view(), old(self).position()),
        ensures
            final(self).tokens_view() == old(self).tokens_view(),
            agrees(
                r,
                parse_expression(old(self).tokens_view(), old(self).position()),
                old(self).position(),
                final(self).position(),
            ),
        decreases rest_len(old(self).tokens_view(), old(self).position()), 6nat,
    {
        self.term()
    }

    #[verifier::rlimit(40)]
    fn term(&mut self) -> (r: Result<Expr, ParseError>)
        requires
            reportable_from(old(self).tokens_view(), old(self).position()),
        ensures
            final(self).tokens_view() == old(self).tokens_view(),
            agrees(
                r,
                parse_term(old(self).tokens_view(), old(self).position()),
                old(self).position(),
                final(self).position(),
            ),
        decreases rest_len(old(self).tokens_view(), old(self).position()), 5nat,
    {
        let ghost ts = self.tokens_view();
        let ghost p0 = self.position();
        let mut expr = match self.factor() {
            Ok(e) => e,
            Err(err) => return Err(err),
        };
        proof {
            use_type_invariant(&*self);
        }
        loop
            invariant
                self.tokens_view() == ts,
                ts == old(self).tokens_view(),
                p0 == old(self).position(),
                p0 <= self.position() <= ts.len(),
                parse_factor(ts, p0) is Ok,
                match parse_term_rest(ts, expr@, self.position()) {
                    Ok((e, m)) => parse_term(ts, p0) == Ok::<(SpecExpr, nat), (ParseError, nat)>(
                        (e, (self.position() - p0 + m) as nat),
                    ),
                    Err((x, m)) => parse_term(ts, p0) == Err::<(SpecExpr, nat), (ParseError, nat)>(
                        (x, (self.position() - p0 + m) as nat),
                    ),
                },
            decreases ts.len() - self.position(),
        {
            proof {
                use_type_invariant(&*self);
            }
            let ghost q = self.position();
            let matched = self.match_type(&[TokenType::Add, TokenType::Sub]);
            if !matched {
                return Ok(expr);
            }
            assert(is_additive(kind_at(ts, q)));
            let operator = self.previous().token_type;
            let right = match self.factor() {
                Ok(e) => e,
                Err(err) => return Err(err),
            };
            proof {
                use_type_invariant(&*self);
            }
            expr = Expr::Binary { left: Box::new(expr), operator, right: Box::new(right) };
        }
    }

    fn factor(&mut self) -> (r: Result<Expr, ParseError>)
        requires
            reportable_from(old(self).tokens_view(), old(self).position()),
        ensures
            final(self).tokens_view() == old(self).tokens_view(),
            agrees(
                r,
                parse_factor(old(self).tokens_view(), old(self).position()),
                old(self).position(),
                final(self).position(),
            ),
        decreases rest_len(old(self).tokens_view(), old(self).position()), 3nat,
    {
        let ghost ts = self.tokens_view();
        let ghost p0 = self.position();
        let mut expr = match self.unary() {
            Ok(e) => e,
            Err(err) => return Err(err),
        };
        proof {
            use_type_invariant(&*self);
        }
        loop
            invariant
                self.tokens_view() == ts,
                ts == old(self).tokens_view(),
                p0 == old(self).position(),
                p0 <= self.position() <= ts.len(),
                parse_unary(ts, p0) is Ok,
                match parse_factor_rest(ts, expr@, self.position()) {
                    Ok((e, m)) => parse_factor(ts, p0) == Ok::<(SpecExpr, nat), (ParseError, nat)>(
                        (e, (self.position() - p0 + m) as nat),
                    ),
                    Err((x, m)) => parse_factor(ts, p0) == Err::<(SpecExpr, nat), (ParseError, nat)>(
                        (x, (self.position() - p0 + m) as nat),
                    ),
                },
            decreases ts.len() - self.position(),
        {
            proof {
                use_type_invariant(&*self);
            }
            let ghost q = self.position();
            let matched = self.match_type(&[TokenType::Mul, TokenType::Div]);
            if !matched {
                return Ok(expr);
            }
            assert(is_multiplicative(kind_at(ts, q)));
            let operator = self.previous().token_type;
            let right = match self.unary() {
                Ok(e) => e,
                Err(err) => return Err(err),
            };
            proof {
                use_type_invariant(&*self);
            }
            expr = Expr::Binary { left: Box::new(expr), operator, right: Box::new(right) };
        }
    }

    fn unary(&mut self) -> (r: Result<Expr, ParseError>)
        requires
            reportable_from(old(self).tokens_view(), old(self).position()),
        ensures
            final(self).tokens_view() == old(self).tokens_view(),
            agrees(
                r,
                parse_unary(old(self).tokens_view(), old(self).position()),
                old(self).position(),
                final(self).position(),
            ),
        decreases rest_len(old(self).tokens_view(), old(self).position()), 1nat,
    {
        if self.match_type(&[TokenType::Sub]) {
            let operator = self.previous().token_type;
            return match self.unary() {
                Ok(right) => Ok(Expr::Unary { operator, right: Box::new(right) }),
                Err(err) => Err(err),
            };
        }
        self.primary()
    }

    #[verifier::rlimit(40)]
    fn primary(&mut self) -> (r: Result<Expr, ParseError>)
        requires
            primary_reportable_from(old(self).tokens_view(), old(self).position()),
        ensures
            final(self).tokens_view() == old(self).tokens_view(),
            agrees(
                r,
                parse_primary(old(self).tokens_view(), old(self).position()),
                old(self).position(),
                final(self).position(),
            ),
        decreases rest_len(old(self).tokens_view(), old(self).position()), 0nat,
    {
        let ghost ts = self.tokens_view();
        let ghost p0 = self.position();
        if self.match_type(&[TokenType::Number]) {
            let value = self.previous().literal.duplicate();
            return Ok(Expr::Literal { value });
        }
        if self.match_type(&[TokenType::Lparen]) {
            let expr = match self.expression() {
                Ok(e) => e,
                Err(err) => return Err(err),
            };
            if self.match_type(&[TokenType::Rparen]) {
                return Ok(Expr::Grouping { expression: Box::new(expr) });
            }
            return Err(ParseError::MissingRparen);
        }
        Err(ParseError::UnexpectedToken(self.previous().token_type))
    }
}

} // verus!
