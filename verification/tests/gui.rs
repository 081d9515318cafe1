use calculator::gui::error::ParserError;
use calculator::gui::parser::parse;

fn message(r: Result<(), ParserError>) -> String {
    r.unwrap_err().0
}

#[test]
fn accepts_a_well_formed_operation() {
    assert!(parse("12*(10-(100/10-15))").is_ok());
}

#[test]
fn refuses_an_empty_operation() {
    assert_eq!(message(parse("")), "Expected an operation, got empty string");
}

#[test]
fn refuses_the_first_bad_character() {
    assert_eq!(message(parse("1+a-b")), "Bad character a");
    assert_eq!(message(parse("2 ")), "Bad character  ");
    assert_eq!(message(parse("3.5")), "Bad character .");
    assert_eq!(message(parse("é(")), "Bad character é");
}

#[test]
fn refuses_unbalanced_parentheses() {
    assert_eq!(message(parse("(1+2")), "Parenthesis opened but not closed (or vice versa)");
    assert_eq!(message(parse("1+2)")), "Parenthesis opened but not closed (or vice versa)");
}

#[test]
fn counts_parentheses_without_regard_to_order() {
    assert!(parse(")1(").is_ok());
}

#[test]
fn bad_character_is_reported_before_unbalanced_parentheses() {
    assert_eq!(message(parse("((x")), "Bad character x");
}

#[test]
fn error_text_for_the_user() {
    let e = parse("").unwrap_err();
    assert_eq!(e.to_string(), "Failed to parse operation: Expected an operation, got empty string");
}
