use calculator::common::{Token, TokenLiteral, TokenType};
use calculator::lexer::{is_numeral, numbers_are_numerals, Lexer};

fn number(text: &str) -> Token {
    Token::new(TokenType::Number, TokenLiteral::Number(text.as_bytes().to_vec()))
}

fn value_of(literal: &TokenLiteral) -> f64 {
    match literal {
        TokenLiteral::Number(text) => std::str::from_utf8(text).unwrap().parse::<f64>().unwrap(),
        TokenLiteral::NoValue => panic!("not a number"),
    }
}

#[test]
fn lexer_test_succes() {
    let buf = b"12.+10.12";
    let lexer = Lexer::new(buf, buf.len());
    let result = lexer.scan_tokens();

    let expected = vec![
        number("12."),
        Token::new(TokenType::Add, TokenLiteral::NoValue),
        number("10.12"),
    ];
    assert_eq!(result, expected);
    assert_eq!(value_of(&result[0].literal), 12.);
    assert_eq!(value_of(&result[2].literal), 10.12);
}

#[test]
fn lexer_operators_and_parentheses() {
    let buf = b"(1-2)*3/4";
    let result = Lexer::run(buf, buf.len());
    let kinds: Vec<TokenType> = result.iter().map(|t| t.token_type).collect();
    assert_eq!(
        kinds,
        vec![
            TokenType::Lparen,
            TokenType::Number,
            TokenType::Sub,
            TokenType::Number,
            TokenType::Rparen,
            TokenType::Mul,
            TokenType::Number,
            TokenType::Div,
            TokenType::Number,
        ]
    );
}

#[test]
fn lexer_reads_only_the_given_length() {
    let buf = b"12+34";
    let result = Lexer::run(buf, 3);
    assert_eq!(result, vec![number("12"), Token::new(TokenType::Add, TokenLiteral::NoValue)]);
}

#[test]
fn lexer_empty_input() {
    let result = Lexer::run(b"", 0);
    assert!(result.is_empty());
}

#[test]
fn lexer_second_dot_starts_a_new_number() {
    let buf = b"1.2.3";
    let result = Lexer::run(buf, buf.len());
    assert_eq!(result, vec![number("1.2"), number(".3")]);
    assert_eq!(value_of(&result[1].literal), 0.3);
}

#[test]
fn numbers_that_are_not_numerals_are_found() {
    assert!(!numbers_are_numerals(b"1 + 2", 5));
    assert!(!numbers_are_numerals(b"x7", 2));
    assert!(!numbers_are_numerals(b"2*.", 3));
    assert!(!numbers_are_numerals(b".5.", 3));
    assert!(numbers_are_numerals(b"1 + 2", 1));
    assert!(numbers_are_numerals(b"12.+10.12*.5", 12));
    assert!(numbers_are_numerals(b"", 0));
}

#[test]
fn decimal_numerals() {
    for good in ["7", "12.", "10.12", ".25", "0.0"] {
        assert!(is_numeral(&good.as_bytes().to_vec()), "{}", good);
        assert!(good.parse::<f64>().is_ok(), "{}", good);
    }
    for bad in ["", ".", "..", " ", "1a", "a1", "1.2.", "-1", "1e5"] {
        assert!(!is_numeral(&bad.as_bytes().to_vec()), "{}", bad);
    }
    for lexeme in [".", " ", "x7", ".5.", "..3", " 2"] {
        assert!(lexeme.parse::<f64>().is_err(), "{}", lexeme);
    }
}

#[test]
fn lexer_is_lossless() {
    let buf = b"3.5*(2-4)/.25";
    let result = Lexer::run(buf, buf.len());
    let mut joined: Vec<u8> = Vec::new();
    for t in &result {
        match (&t.token_type, &t.literal) {
            (TokenType::Number, TokenLiteral::Number(text)) => joined.extend_from_slice(text),
            (TokenType::Add, _) => joined.push(b'+'),
            (TokenType::Sub, _) => joined.push(b'-'),
            (TokenType::Mul, _) => joined.push(b'*'),
            (TokenType::Div, _) => joined.push(b'/'),
            (TokenType::Lparen, _) => joined.push(b'('),
            (TokenType::Rparen, _) => joined.push(b')'),
            _ => panic!("unexpected token"),
        }
    }
    assert_eq!(joined, buf.to_vec());
}
