use lox::ast::{Expr, LiteralValue};
use lox::ast_printer::AstPrinter;
use lox::parser::{ParseError, Parser};
use lox::tokenizer::TokenType;

fn parse(source: &str) -> Result<Expr, ParseError> {
    Parser::new(source).parse()
}

fn printed(source: &str) -> String {
    AstPrinter::print(&parse(source).unwrap())
}

fn num(text: &str) -> Box<Expr> {
    Box::new(Expr::Literal(LiteralValue::Number(text.to_string())))
}

#[test]
fn subtraction_is_left_associative() {
    let expected = Expr::Binary(
        Box::new(Expr::Binary(num("1.0"), TokenType::Minus, num("2.0"))),
        TokenType::Minus,
        num("3.0"),
    );
    assert_eq!(parse("1-2-3").unwrap(), expected);
    assert_eq!(printed("1-2-3"), "(- (- 1.0 2.0) 3.0)");
}

#[test]
fn product_binds_tighter_than_sum() {
    assert_eq!(printed("2+3*4"), "(+ 2.0 (* 3.0 4.0))");
    assert_eq!(printed("2*3+4"), "(+ (* 2.0 3.0) 4.0)");
    assert_eq!(printed("8/4/2"), "(/ (/ 8.0 4.0) 2.0)");
}

#[test]
fn unary_operators_chain() {
    assert_eq!(printed("!!true"), "(! (! true))");
    assert_eq!(printed("--5"), "(- (- 5.0))");
    assert_eq!(printed("-2*3"), "(* (- 2.0) 3.0)");
}

#[test]
fn groups_and_literals() {
    assert_eq!(printed("(1+2)*3"), "(* (group (+ 1.0 2.0)) 3.0)");
    assert_eq!(printed("\"hello world\""), "hello world");
    assert_eq!(printed("nil"), "nil");
    assert_eq!(printed("false"), "false");
    assert_eq!(printed("((true))"), "(group (group true))");
}

#[test]
fn number_literals_print_canonically() {
    assert_eq!(printed("200"), "200.0");
    assert_eq!(printed("3.1400"), "3.14");
    assert_eq!(printed("007"), "7.0");
    assert_eq!(printed("00.50"), "0.5");
}

#[test]
fn printed_literals_parse_back() {
    for source in ["200", "3.14", "0.05", "true", "false", "nil"] {
        let tree = parse(source).unwrap();
        let again = parse(&AstPrinter::print(&tree)).unwrap();
        assert_eq!(again, tree);
    }
}

#[test]
fn printed_string_does_not_parse_back() {
    let tree = parse("\"ab\"").unwrap();
    let again = parse(&AstPrinter::print(&tree));
    assert!(matches!(again, Err(ParseError::UnexpectedToken(_))));
}

#[test]
fn missing_close_paren() {
    assert_eq!(parse("(1+2"), Err(ParseError::ExpectRightParen));
}

#[test]
fn missing_operand() {
    assert_eq!(parse(""), Err(ParseError::UnexpectedEnd));
    assert_eq!(parse("1+"), Err(ParseError::UnexpectedEnd));
    assert_eq!(parse("-"), Err(ParseError::UnexpectedEnd));
}

#[test]
fn token_that_cannot_start_an_operand() {
    assert_eq!(
        parse("+1"),
        Err(ParseError::UnexpectedToken((TokenType::Plus, "+".to_string(), "+".to_string())))
    );
    assert_eq!(
        parse("foo"),
        Err(ParseError::UnexpectedToken((TokenType::Identifier, "foo".to_string(), "foo".to_string())))
    );
}

#[test]
fn parsing_stops_after_one_expression() {
    assert_eq!(printed("1 2"), "1.0");
}

#[test]
fn printed_trees_are_balanced() {
    let text = printed("(1+2)*-3/!nil");
    assert_eq!(text, "(/ (* (group (+ 1.0 2.0)) (- 3.0)) (! nil))");
    let opens = text.chars().filter(|c| *c == '(').count();
    let closes = text.chars().filter(|c| *c == ')').count();
    assert_eq!(opens, 6);
    assert_eq!(closes, 6);
}
