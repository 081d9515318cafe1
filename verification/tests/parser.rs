use calculator::common::{Expr, Token, TokenLiteral, TokenType};
use calculator::lexer::Lexer;
use calculator::parser::{ParseError, Parser};

fn number(text: &str) -> Token {
    Token::new(TokenType::Number, TokenLiteral::Number(text.as_bytes().to_vec()))
}

fn op(kind: TokenType) -> Token {
    Token::new(kind, TokenLiteral::NoValue)
}

fn literal(text: &str) -> Box<Expr> {
    Box::new(Expr::Literal { value: TokenLiteral::Number(text.as_bytes().to_vec()) })
}

fn parse_text(text: &str) -> Result<Expr, ParseError> {
    let mut parser = Parser::new(Lexer::run(text.as_bytes(), text.len()));
    parser.parse()
}

#[test]
fn macro_types_success() {
    let mut parser = Parser::new(vec![op(TokenType::Eof), op(TokenType::Add), op(TokenType::Sub)]);
    let result: bool = parser.match_type(&[TokenType::Add]);
    assert_eq!(result, false);
}

#[test]
fn parser_success() {
    let mut parser = Parser::new(vec![number("12."), op(TokenType::Add), number("12.")]);
    let result = parser.parse().unwrap();
    let expected = Expr::Binary {
        left: literal("12."),
        operator: TokenType::Add,
        right: literal("12."),
    };

    assert_eq!(expected, result);
}

#[test]
fn match_type_reads_a_matching_token() {
    let mut parser = Parser::new(vec![op(TokenType::Add), op(TokenType::Sub)]);
    assert!(parser.match_type(&[TokenType::Sub, TokenType::Add]));
    assert_eq!(parser.peek().token_type, TokenType::Sub);
}

#[test]
fn peek_past_the_end_is_eof() {
    let mut parser = Parser::new(vec![number("1")]);
    assert_eq!(parser.peek().token_type, TokenType::Number);
    assert_eq!(parser.next().token_type, TokenType::Number);
    assert_eq!(parser.peek().token_type, TokenType::Eof);
    assert_eq!(parser.peek().literal, TokenLiteral::NoValue);
}

#[test]
fn multiplication_binds_tighter_than_addition() {
    let expected = Expr::Binary {
        left: literal("1"),
        operator: TokenType::Add,
        right: Box::new(Expr::Binary {
            left: literal("2"),
            operator: TokenType::Mul,
            right: literal("3"),
        }),
    };
    assert_eq!(parse_text("1+2*3").unwrap(), expected);
}

#[test]
fn subtraction_associates_to_the_left() {
    let expected = Expr::Binary {
        left: Box::new(Expr::Binary {
            left: literal("8"),
            operator: TokenType::Sub,
            right: literal("2"),
        }),
        operator: TokenType::Sub,
        right: literal("1"),
    };
    assert_eq!(parse_text("8-2-1").unwrap(), expected);
}

#[test]
fn unary_minus_nests() {
    let expected = Expr::Unary {
        operator: TokenType::Sub,
        right: Box::new(Expr::Unary { operator: TokenType::Sub, right: literal("4") }),
    };
    assert_eq!(parse_text("--4").unwrap(), expected);
}

#[test]
fn grouping_overrides_precedence() {
    let expected = Expr::Binary {
        left: Box::new(Expr::Grouping {
            expression: Box::new(Expr::Binary {
                left: literal("1"),
                operator: TokenType::Add,
                right: literal("2"),
            }),
        }),
        operator: TokenType::Div,
        right: literal("4"),
    };
    assert_eq!(parse_text("(1+2)/4").unwrap(), expected);
}

#[test]
fn trailing_tokens_are_left_unread() {
    let mut parser = Parser::new(Lexer::run(b"1)2", 3));
    assert_eq!(parser.parse().unwrap(), *literal("1"));
    assert_eq!(parser.peek().token_type, TokenType::Rparen);
}

#[test]
fn missing_closing_parenthesis_is_an_error() {
    assert_eq!(parse_text("(1+2"), Err(ParseError::MissingRparen));
}

#[test]
fn missing_operand_names_the_token_before_it() {
    assert_eq!(parse_text("1+"), Err(ParseError::UnexpectedToken(TokenType::Add)));
    assert_eq!(parse_text("2*)"), Err(ParseError::UnexpectedToken(TokenType::Mul)));
}

#[test]
fn run_builds_the_expression() {
    let expr = Parser::run(Lexer::run(b"(7)", 3));
    assert_eq!(expr, Expr::Grouping { expression: literal("7") });
}

fn spell(e: &Expr, out: &mut Vec<u8>) {
    match e {
        Expr::Binary { left, operator, right } => {
            spell(left, out);
            out.push(match operator {
                TokenType::Add => b'+',
                TokenType::Sub => b'-',
                TokenType::Mul => b'*',
                TokenType::Div => b'/',
                _ => b'?',
            });
            spell(right, out);
        }
        Expr::Unary { right, .. } => {
            out.push(b'-');
            spell(right, out);
        }
        Expr::Grouping { expression } => {
            out.push(b'(');
            spell(expression, out);
            out.push(b')');
        }
        Expr::Literal { value: TokenLiteral::Number(text) } => out.extend_from_slice(text),
        Expr::Literal { value: TokenLiteral::NoValue } => {}
    }
}

#[test]
fn calculator_input_parses_to_its_text() {
    let text = "12*(10-(100/10-15))";
    let expr = parse_text(text).unwrap();
    match &expr {
        Expr::Binary { left, operator, right } => {
            assert_eq!(**left, *literal("12"));
            assert_eq!(*operator, TokenType::Mul);
            assert!(matches!(**right, Expr::Grouping { .. }));
        }
        _ => panic!("expected a product"),
    }
    let mut spelled = Vec::new();
    spell(&expr, &mut spelled);
    assert_eq!(spelled, text.as_bytes().to_vec());
}

#[test]
fn parsed_tree_spells_a_prefix_of_the_text() {
    let text = "-(3.5+1)*2)+9";
    let expr = parse_text(text).unwrap();
    let mut spelled = Vec::new();
    spell(&expr, &mut spelled);
    assert_eq!(spelled, b"-(3.5+1)*2".to_vec());
}

#[test]
fn error_messages() {
    assert_eq!(ParseError::MissingRparen.message(), "Expected ')' after expression");
    assert_eq!(ParseError::UnexpectedToken(TokenType::Add).message(), "Unknow TokenType Add");
    assert_eq!(ParseError::UnexpectedToken(TokenType::Lparen).message(), "Unknow TokenType Lparen");
}

#[test]
fn position_after_an_error() {
    // After "1+" the parser stands past the '+' when it finds no operand.
    let mut parser = Parser::new(Lexer::run(b"1+", 2));
    assert_eq!(parser.parse(), Err(ParseError::UnexpectedToken(TokenType::Add)));
    assert_eq!(parser.peek().token_type, TokenType::Eof);

    // An unclosed group leaves the parser after the group's expression.
    let mut parser = Parser::new(Lexer::run(b"(1+2*", 5));
    assert_eq!(parser.parse(), Err(ParseError::UnexpectedToken(TokenType::Mul)));
    assert_eq!(parser.peek().token_type, TokenType::Eof);

    let tokens = vec![op(TokenType::Lparen), number("1"), op(TokenType::Add), number("2"), number("3")];
    let mut parser = Parser::new(tokens);
    assert_eq!(parser.parse(), Err(ParseError::MissingRparen));
    assert_eq!(parser.peek().token_type, TokenType::Number);
    assert_eq!(parser.next().literal, TokenLiteral::Number(b"3".to_vec()));
}
