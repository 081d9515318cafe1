use vstd::prelude::*;

verus! {

/// The kind of a lexical token.
#[derive(Debug, PartialEq, Eq, Clone, Copy, Structural)]
pub enum TokenType {
    Add,
    Sub,
    Div,
    Mul,
    Lparen,
    Rparen,
    Number,
    Eof,
}

/// The value carried by a token. A number carries its source text (the bytes
/// of its lexeme), from which its numeric value is read.
#[derive(Debug, PartialEq)]
pub enum TokenLiteral {
    Number(Vec<u8>),
    NoValue,
}

/// A token: its kind and the value it carries.
#[derive(Debug, PartialEq)]
pub struct Token {
    pub token_type: TokenType,
    pub literal: TokenLiteral,
}

/// The expression tree built by the parser.
#[derive(Debug, PartialEq)]
pub enum Expr {
    Binary { left: Box<Expr>, operator: TokenType, right: Box<Expr> },
    Unary { operator: TokenType, right: Box<Expr> },
    Grouping { expression: Box<Expr> },
    Literal { value: TokenLiteral },
}

/// Mathematical model of a token's value.
pub enum SpecLiteral {
    Number(Seq<u8>),
    NoValue,
}

/// Mathematical model of a token.
pub struct SpecToken {
    pub kind: TokenType,
    pub literal: SpecLiteral,
}

/// Mathematical model of an expression tree.
pub enum SpecExpr {
    Binary(Box<SpecExpr>, TokenType, Box<SpecExpr>),
    Unary(TokenType, Box<SpecExpr>),
    Grouping(Box<SpecExpr>),
    Literal(SpecLiteral),
}

impl View for TokenLiteral {
    type V = SpecLiteral;

    open spec fn view(&self) -> SpecLiteral {
        match self {
            TokenLiteral::Number(text) => SpecLiteral::Number(text@),
            TokenLiteral::NoValue => SpecLiteral::NoValue,
        }
    }
}

impl View for Token {
    type V = SpecToken;

    open spec fn view(&self) -> SpecToken {
        SpecToken { kind: self.token_type, literal: self.literal@ }
    }
}

/// The model of an expression tree.
pub open spec fn expr_model(e: Expr) -> SpecExpr
    decreases e,
{
    match e {
        Expr::Binary { left, operator, right } => SpecExpr::Binary(
            Box::new(expr_model(*left)),
            operator,
            Box::new(expr_model(*right)),
        ),
        Expr::Unary { operator, right } => SpecExpr::Unary(operator, Box::new(expr_model(*right))),
        Expr::Grouping { expression } => SpecExpr::Grouping(Box::new(expr_model(*expression))),
        Expr::Literal { value } => SpecExpr::Literal(value@),
    }
}

impl View for Expr {
    type V = SpecExpr;

    open spec fn view(&self) -> SpecExpr {
        expr_model(*self)
    }
}

/// The models of a sequence of tokens.
pub open spec fn tokens_model(ts: Seq<Token>) -> Seq<SpecToken> {
    ts.map_values(|t: Token| t@)
}

impl TokenLiteral {
    /// A copy of this value.
    pub fn duplicate(&self) -> (r: TokenLiteral)
        ensures
            r@ == self@,
    {
        match self {
            TokenLiteral::Number(text) => TokenLiteral::Number(text.clone()),
            TokenLiteral::NoValue => TokenLiteral::NoValue,
        }
    }
}

impl Token {
    pub fn new(token_type: TokenType, literal: TokenLiteral) -> (r: Self)
        ensures
            r.token_type == token_type,
            r.literal == literal,
    {
        Self { token_type, literal }
    }
}

} // verus!
