use lox::ast::{Expr, LiteralValue};
use lox::interpreter::{BoolTerm, EvalError, Interpreter, NumTerm, Value};
use lox::parser::Parser;
use lox::tokenizer::TokenType;

fn number(n: &NumTerm) -> f64 {
    match n {
        NumTerm::Literal(t) => t.parse::<f64>().unwrap(),
        NumTerm::Negate(x) => -number(x),
        NumTerm::Arith(a, op, b) => match op {
            TokenType::Plus => number(a) + number(b),
            TokenType::Minus => number(a) - number(b),
            TokenType::Star => number(a) * number(b),
            TokenType::Slash => number(a) / number(b),
            _ => panic!("not arithmetic"),
        },
    }
}

fn truth(b: &BoolTerm) -> bool {
    match b {
        BoolTerm::Known(x) => *x,
        BoolTerm::Not(x) => !truth(x),
        BoolTerm::Compare(a, op, c) => match op {
            TokenType::Less => number(a) < number(c),
            TokenType::LessEqual => number(a) <= number(c),
            TokenType::Greater => number(a) > number(c),
            TokenType::GreaterEqual => number(a) >= number(c),
            _ => panic!("not a comparison"),
        },
        BoolTerm::NumbersEqual(a, c) => number(a) == number(c),
        BoolTerm::TruthsEqual(a, c) => truth(a) == truth(c),
    }
}

fn eval(source: &str) -> Result<Value, EvalError> {
    let tree = Parser::new(source).parse().unwrap();
    Interpreter.evaluate(tree)
}

fn eval_tree(tree: Expr) -> Result<Value, EvalError> {
    Interpreter.evaluate(tree)
}

fn tree_bool(tree: Expr) -> bool {
    match eval_tree(tree) {
        Ok(Value::Bool(b)) => truth(&b),
        other => panic!("not a boolean: {:?}", other),
    }
}

fn binary(left: Expr, op: TokenType, right: Expr) -> Expr {
    Expr::Binary(Box::new(left), op, Box::new(right))
}

fn number_lit(text: &str) -> Expr {
    Expr::Literal(LiteralValue::Number(text.to_string()))
}

fn string(text: &str) -> Expr {
    Expr::Literal(LiteralValue::String(text.to_string()))
}

fn boolean(b: bool) -> Expr {
    Expr::Literal(LiteralValue::Bool(b))
}

fn nil() -> Expr {
    Expr::Literal(LiteralValue::Nil)
}

fn eval_number(source: &str) -> f64 {
    match eval(source) {
        Ok(Value::Number(n)) => number(&n),
        other => panic!("not a number: {:?}", other),
    }
}

#[test]
fn subtraction_associates_left() {
    assert_eq!(eval_number("1-2-3"), -4.0);
}

#[test]
fn precedence_of_product() {
    assert_eq!(eval_number("2+3*4"), 14.0);
    assert_eq!(eval_number("(2+3)*4"), 20.0);
}

#[test]
fn unary_chains() {
    assert_eq!(eval("!!true"), Ok(Value::Bool(BoolTerm::Known(true))));
    assert_eq!(eval_number("--5"), 5.0);
}

#[test]
fn arithmetic_stays_as_a_term() {
    assert_eq!(
        eval("-1"),
        Ok(Value::Number(NumTerm::Negate(Box::new(NumTerm::Literal("1.0".to_string())))))
    );
    assert_eq!(eval("42"), Ok(Value::Number(NumTerm::Literal("42.0".to_string()))));
}

#[test]
fn truthiness() {
    assert_eq!(eval("!nil"), Ok(Value::Bool(BoolTerm::Known(true))));
    assert_eq!(eval("!0"), Ok(Value::Bool(BoolTerm::Known(false))));
    assert_eq!(eval("!\"\""), Ok(Value::Bool(BoolTerm::Known(false))));
    assert_eq!(eval("!false"), Ok(Value::Bool(BoolTerm::Known(true))));
}

#[test]
fn operand_type_errors() {
    assert_eq!(eval("\"a\"-1"), Err(EvalError::OperandsMustBeNumbers));
    assert_eq!(eval("true+1"), Err(EvalError::OperandsMustBeNumbersOrStrings));
    assert_eq!(eval("-\"a\""), Err(EvalError::OperandMustBeNumber));
    assert_eq!(eval("nil*2"), Err(EvalError::OperandsMustBeNumbers));
    assert_eq!(
        eval_tree(binary(string("a"), TokenType::Less, string("b"))),
        Err(EvalError::OperandsMustBeNumbers)
    );
}

#[test]
fn first_error_wins() {
    assert_eq!(eval("-nil + (true+1)"), Err(EvalError::OperandMustBeNumber));
}

#[test]
fn string_concatenation() {
    assert_eq!(eval("\"foo\"+\"bar\""), Ok(Value::String("foobar".to_string())));
    assert_eq!(eval("\"foo\"+1"), Err(EvalError::OperandsMustBeNumbersOrStrings));
}

#[test]
fn equality_is_structural() {
    let known = |b: bool| Ok(Value::Bool(BoolTerm::Known(b)));
    assert_eq!(eval_tree(binary(nil(), TokenType::EqualEqual, nil())), known(true));
    assert_eq!(eval_tree(binary(string("a"), TokenType::EqualEqual, string("a"))), known(true));
    assert_eq!(eval_tree(binary(string("a"), TokenType::BangEqual, string("b"))), known(true));
    assert_eq!(eval_tree(binary(number_lit("1.0"), TokenType::EqualEqual, string("1"))), known(false));
    assert_eq!(eval_tree(binary(boolean(true), TokenType::EqualEqual, boolean(true))), known(true));
    assert!(tree_bool(binary(number_lit("1.0"), TokenType::EqualEqual, number_lit("1.0"))));
    assert!(!tree_bool(binary(number_lit("1.0"), TokenType::BangEqual, number_lit("1.0"))));
    let less = binary(number_lit("1.0"), TokenType::Less, number_lit("2.0"));
    assert!(tree_bool(binary(less, TokenType::EqualEqual, boolean(true))));
}

#[test]
fn comparisons() {
    let compare = |a: &str, op: TokenType, b: &str| tree_bool(binary(number_lit(a), op, number_lit(b)));
    assert!(compare("1.0", TokenType::Less, "2.0"));
    assert!(compare("2.0", TokenType::LessEqual, "2.0"));
    assert!(!compare("1.0", TokenType::Greater, "2.0"));
    assert!(compare("3.0", TokenType::GreaterEqual, "2.0"));
    let not = Expr::Unary(TokenType::Bang, Box::new(binary(number_lit("1.0"), TokenType::Greater, number_lit("2.0"))));
    assert!(tree_bool(not));
}

#[test]
fn comparison_operators_are_not_in_the_grammar() {
    assert_eq!(eval("1 < 2"), Ok(Value::Number(NumTerm::Literal("1.0".to_string()))));
}

#[test]
fn division_by_zero_follows_floats() {
    assert_eq!(eval_number("1/0"), f64::INFINITY);
    assert!(eval_number("0/0").is_nan());
}

#[test]
fn fractions() {
    assert_eq!(eval_number("7/2"), 3.5);
    assert_eq!(eval_number("0.1+0.2"), 0.1 + 0.2);
}
