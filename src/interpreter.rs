use vstd::prelude::*;
use crate::ast::{is_canonical_number, Expr, ExprView, LiteralValue, LiteralView};
use crate::tokenizer::TokenType;

verus! {

// The evaluator decides everything that does not depend on the value of a number:
// which operations apply, every type error, string results, truthiness of non-boolean
// values. Numbers are double-precision floats, so the arithmetic on them is left in
// the result as a term over number literals (`NumTerm`), and a boolean that depends
// on numbers as a term over such terms (`BoolTerm`). Folding those terms with IEEE-754
// arithmetic gives the final value; no type error can arise while doing so.

/// A number, as the arithmetic that computes it from number literals.
#[derive(Debug, PartialEq)]
pub enum NumTerm {
    /// A number literal, in canonical decimal text.
    Literal(String),
    Negate(Box<NumTerm>),
    /// `+`, `-`, `*` or `/` on two numbers.
    Arith(Box<NumTerm>, TokenType, Box<NumTerm>),
}

/// A boolean, decided or as the comparisons of numbers it depends on.
#[derive(Debug, PartialEq)]
pub enum BoolTerm {
    Known(bool),
    Not(Box<BoolTerm>),
    /// `<`, `<=`, `>` or `>=` on two numbers.
    Compare(Box<NumTerm>, TokenType, Box<NumTerm>),
    NumbersEqual(Box<NumTerm>, Box<NumTerm>),
    TruthsEqual(Box<BoolTerm>, Box<BoolTerm>),
}

/// The value of an expression.
#[derive(Debug, PartialEq)]
pub enum Value {
    Number(NumTerm),
    String(String),
    Bool(BoolTerm),
    Nil,
}

/// Why an expression has no value.
#[derive(Debug, PartialEq, Eq, Clone, Copy, Structural)]
pub enum EvalError {
    /// Unary `-` on something other than a number.
    OperandMustBeNumber,
    /// Arithmetic other than `+`, or a comparison, on something other than two numbers.
    OperandsMustBeNumbers,
    /// `+` on something other than two numbers or two strings.
    OperandsMustBeNumbersOrStrings,
    /// An operator that the evaluator does not know in that position; a well-formed
    /// tree never holds one.
    UnknownOperator,
}

pub enum NumView {
    Literal(Seq<char>),
    Negate(Box<NumView>),
    Arith(Box<NumView>, TokenType, Box<NumView>),
}

pub enum BoolView {
    Known(bool),
    Not(Box<BoolView>),
    Compare(Box<NumView>, TokenType, Box<NumView>),
    NumbersEqual(Box<NumView>, Box<NumView>),
    TruthsEqual(Box<BoolView>, Box<BoolView>),
}

pub enum ValueView {
    Number(NumView),
    Str(Seq<char>),
    Bool(BoolView),
    Nil,
}

pub open spec fn num_view(n: &NumTerm) -> NumView
    decreases n,
{
    match n {
        NumTerm::Literal(t) => NumView::Literal(t@),
        NumTerm::Negate(x) => NumView::Negate(Box::new(num_view(x))),
        NumTerm::Arith(a, op, b) => NumView::Arith(Box::new(num_view(a)), *op, Box::new(num_view(b))),
    }
}

pub open spec fn bool_view(b: &BoolTerm) -> BoolView
    decreases b,
{
    match b {
        BoolTerm::Known(x) => BoolView::Known(*x),
        BoolTerm::Not(x) => BoolView::Not(Box::new(bool_view(x))),
        BoolTerm::Compare(a, op, c) => BoolView::Compare(Box::new(num_view(a)), *op, Box::new(num_view(c))),
        BoolTerm::NumbersEqual(a, c) => BoolView::NumbersEqual(Box::new(num_view(a)), Box::new(num_view(c))),
        BoolTerm::TruthsEqual(a, c) => BoolView::TruthsEqual(Box::new(bool_view(a)), Box::new(bool_view(c))),
    }
}

impl View for NumTerm {
    type V = NumView;

    open spec fn view(&self) -> NumView {
        num_view(self)
    }
}

impl View for BoolTerm {
    type V = BoolView;

    open spec fn view(&self) -> BoolView {
        bool_view(self)
    }
}

impl View for Value {
    type V = ValueView;

    open spec fn view(&self) -> ValueView {
        match self {
            Value::Number(n) => ValueView::Number(n@),
            Value::String(s) => ValueView::Str(s@),
            Value::Bool(b) => ValueView::Bool(b@),
            Value::Nil => ValueView::Nil,
        }
    }
}

/// A number term is well formed when its literals hold canonical decimal text.
pub open spec fn num_wf(n: NumView) -> bool
    decreases n,
{
    match n {
        NumView::Literal(t) => is_canonical_number(t),
        NumView::Negate(x) => num_wf(*x),
        NumView::Arith(a, _, b) => num_wf(*a) && num_wf(*b),
    }
}

pub open spec fn bool_wf(b: BoolView) -> bool
    decreases b,
{
    match b {
        BoolView::Known(_) => true,
        BoolView::Not(x) => bool_wf(*x),
        BoolView::Compare(a, _, c) => num_wf(*a) && num_wf(*c),
        BoolView::NumbersEqual(a, c) => num_wf(*a) && num_wf(*c),
        BoolView::TruthsEqual(a, c) => bool_wf(*a) && bool_wf(*c),
    }
}

/// A value is well formed when its number literals hold canonical decimal text.
pub open spec fn value_wf(v: ValueView) -> bool {
    match v {
        ValueView::Number(n) => num_wf(n),
        ValueView::Bool(b) => bool_wf(b),
        _ => true,
    }
}

pub open spec fn result_view(r: Result<Value, EvalError>) -> Result<ValueView, EvalError> {
    match r {
        Ok(v) => Ok(v@),
        Err(e) => Err(e),
    }
}

// ---------------------------------------------------------------------------
// Semantics
// ---------------------------------------------------------------------------

/// The negation of a boolean, decided when `b` is.
pub open spec fn negate_truth(b: BoolView) -> BoolView {
    match b {
        BoolView::Known(x) => BoolView::Known(!x),
        _ => BoolView::Not(Box::new(b)),
    }
}

/// Truthiness: `nil` is false, a boolean is itself, every other value is true.
pub open spec fn truthy(v: ValueView) -> BoolView {
    match v {
        ValueView::Nil => BoolView::Known(false),
        ValueView::Bool(b) => b,
        _ => BoolView::Known(true),
    }
}

/// Structural equality: equal variant and equal payload; across variants, false.
pub open spec fn equal_values(a: ValueView, b: ValueView) -> BoolView {
    match (a, b) {
        (ValueView::Number(x), ValueView::Number(y)) => BoolView::NumbersEqual(Box::new(x), Box::new(y)),
        (ValueView::Str(x), ValueView::Str(y)) => BoolView::Known(x == y),
        (ValueView::Bool(x), ValueView::Bool(y)) => match (x, y) {
            (BoolView::Known(p), BoolView::Known(q)) => BoolView::Known(p == q),
            _ => BoolView::TruthsEqual(Box::new(x), Box::new(y)),
        },
        (ValueView::Nil, ValueView::Nil) => BoolView::Known(true),
        _ => BoolView::Known(false),
    }
}

pub open spec fn is_arithmetic(op: TokenType) -> bool {
    op == TokenType::Minus || op == TokenType::Star || op == TokenType::Slash
}

pub open spec fn is_comparison(op: TokenType) -> bool {
    op == TokenType::Greater || op == TokenType::GreaterEqual || op == TokenType::Less || op
        == TokenType::LessEqual
}

pub open spec fn literal_value(v: LiteralView) -> ValueView {
    match v {
        LiteralView::Number(t) => ValueView::Number(NumView::Literal(t)),
        LiteralView::Str(s) => ValueView::Str(s),
        LiteralView::Bool(b) => ValueView::Bool(BoolView::Known(b)),
        LiteralView::Nil => ValueView::Nil,
    }
}

pub open spec fn unary_value(op: TokenType, v: ValueView) -> Result<ValueView, EvalError> {
    if op == TokenType::Minus {
        match v {
            ValueView::Number(n) => Ok(ValueView::Number(NumView::Negate(Box::new(n)))),
            _ => Err(EvalError::OperandMustBeNumber),
        }
    } else if op == TokenType::Bang {
        Ok(ValueView::Bool(negate_truth(truthy(v))))
    } else {
        Err(EvalError::UnknownOperator)
    }
}

pub open spec fn binary_value(a: ValueView, op: TokenType, b: ValueView) -> Result<ValueView, EvalError> {
    if op == TokenType::Plus {
        match (a, b) {
            (ValueView::Number(x), ValueView::Number(y)) => Ok(
                ValueView::Number(NumView::Arith(Box::new(x), op, Box::new(y))),
            ),
            (ValueView::Str(x), ValueView::Str(y)) => Ok(ValueView::Str(x + y)),
            _ => Err(EvalError::OperandsMustBeNumbersOrStrings),
        }
    } else if is_arithmetic(op) {
        match (a, b) {
            (ValueView::Number(x), ValueView::Number(y)) => Ok(
                ValueView::Number(NumView::Arith(Box::new(x), op, Box::new(y))),
            ),
            _ => Err(EvalError::OperandsMustBeNumbers),
        }
    } else if op == TokenType::EqualEqual {
        Ok(ValueView::Bool(equal_values(a, b)))
    } else if op == TokenType::BangEqual {
        Ok(ValueView::Bool(negate_truth(equal_values(a, b))))
    } else if is_comparison(op) {
        match (a, b) {
            (ValueView::Number(x), ValueView::Number(y)) => Ok(
                ValueView::Bool(BoolView::Compare(Box::new(x), op, Box::new(y))),
            ),
            _ => Err(EvalError::OperandsMustBeNumbers),
        }
    } else {
        Err(EvalError::UnknownOperator)
    }
}

/// The value of a tree: operands are evaluated left before right, and the first
/// error met is the result.
pub open spec fn eval(e: ExprView) -> Result<ValueView, EvalError>
    decreases e,
{
    match e {
        ExprView::Literal(v) => Ok(literal_value(v)),
        ExprView::Grouping(inner) => eval(*inner),
        ExprView::Unary(op, operand) => match eval(*operand) {
            Ok(v) => unary_value(op, v),
            Err(err) => Err(err),
        },
        ExprView::Binary(left, op, right) => match eval(*left) {
            Ok(a) => match eval(*right) {
                Ok(b) => binary_value(a, op, b),
                Err(err) => Err(err),
            },
            Err(err) => Err(err),
        },
    }
}

// ---------------------------------------------------------------------------
// The evaluator
// ---------------------------------------------------------------------------

/// A tree-walking evaluator.
pub struct Interpreter;

impl Interpreter {
    pub fn evaluate(&self, expr: Expr) -> (r: Result<Value, EvalError>)
        requires
            expr.wf(),
        ensures
            result_view(r) == eval(expr@),
            r is Ok ==> value_wf(r->Ok_0@),
        decreases expr,
    {
        match expr {
            Expr::Literal(val) => Ok(literal(val)),
            Expr::Grouping(inner) => self.evaluate(*inner),
            Expr::Unary(op, right) => {
                let right_val = match self.evaluate(*right) {
                    Ok(v) => v,
                    Err(e) => return Err(e),
                };
                match op {
                    TokenType::Minus => match right_val {
                        Value::Number(n) => Ok(Value::Number(NumTerm::Negate(Box::new(n)))),
                        _ => Err(EvalError::OperandMustBeNumber),
                    },
                    TokenType::Bang => Ok(Value::Bool(negate(is_truthy(right_val)))),
                    _ => Err(EvalError::UnknownOperator),
                }
            },
            Expr::Binary(left, op, right) => {
                let left_val = match self.evaluate(*left) {
                    Ok(v) => v,
                    Err(e) => return Err(e),
                };
                let right_val = match self.evaluate(*right) {
                    Ok(v) => v,
                    Err(e) => return Err(e),
                };
                match op {
                    TokenType::Plus => match (left_val, right_val) {
                        (Value::Number(a), Value::Number(b)) => Ok(
                            Value::Number(NumTerm::Arith(Box::new(a), op, Box::new(b))),
                        ),
                        (Value::String(a), Value::String(b)) => {
                            let mut joined = a;
                            joined.append(b.as_str());
                            Ok(Value::String(joined))
                        },
                        _ => Err(EvalError::OperandsMustBeNumbersOrStrings),
                    },
                    TokenType::Minus | TokenType::Star | TokenType::Slash => bin_op_numeric(
                        left_val,
                        right_val,
                        op,
                    ),
                    TokenType::EqualEqual => Ok(Value::Bool(values_equal(left_val, right_val))),
                    TokenType::BangEqual => Ok(Value::Bool(negate(values_equal(left_val, right_val)))),
                    TokenType::Greater | TokenType::GreaterEqual | TokenType::Less
                    | TokenType::LessEqual => bin_op_numeric_bool(left_val, right_val, op),
                    _ => Err(EvalError::UnknownOperator),
                }
            },
        }
    }
}

fn literal(val: LiteralValue) -> (r: Value)
    requires
        val.wf(),
    ensures
        value_wf(r@),
        r@ == literal_value(val@),
{
    match val {
        LiteralValue::Number(t) => Value::Number(NumTerm::Literal(t)),
        LiteralValue::String(s) => Value::String(s),
        LiteralValue::Bool(b) => Value::Bool(BoolTerm::Known(b)),
        LiteralValue::Nil => Value::Nil,
    }
}

fn negate(b: BoolTerm) -> (r: BoolTerm)
    ensures
        bool_wf(b@) ==> bool_wf(r@),
        r@ == negate_truth(b@),
{
    match b {
        BoolTerm::Known(x) => BoolTerm::Known(!x),
        _ => BoolTerm::Not(Box::new(b)),
    }
}

fn is_truthy(val: Value) -> (r: BoolTerm)
    ensures
        value_wf(val@) ==> bool_wf(r@),
        r@ == truthy(val@),
{
    match val {
        Value::Nil => BoolTerm::Known(false),
        Value::Bool(b) => b,
        _ => BoolTerm::Known(true),
    }
}

fn values_equal(a: Value, b: Value) -> (r: BoolTerm)
    ensures
        value_wf(a@) && value_wf(b@) ==> bool_wf(r@),
        r@ == equal_values(a@, b@),
{
    match (a, b) {
        (Value::Number(x), Value::Number(y)) => BoolTerm::NumbersEqual(Box::new(x), Box::new(y)),
        (Value::String(x), Value::String(y)) => BoolTerm::Known(x == y),
        (Value::Bool(x), Value::Bool(y)) => match (x, y) {
            (BoolTerm::Known(p), BoolTerm::Known(q)) => BoolTerm::Known(p == q),
            (x, y) => BoolTerm::TruthsEqual(Box::new(x), Box::new(y)),
        },
        (Value::Nil, Value::Nil) => BoolTerm::Known(true),
        _ => BoolTerm::Known(false),
    }
}

fn bin_op_numeric(a: Value, b: Value, op: TokenType) -> (r: Result<Value, EvalError>)
    requires
        value_wf(a@),
        value_wf(b@),
        is_arithmetic(op),
    ensures
        result_view(r) == binary_value(a@, op, b@),
        r is Ok ==> value_wf(r->Ok_0@),
{
    match (a, b) {
        (Value::Number(x), Value::Number(y)) => Ok(Value::Number(NumTerm::Arith(Box::new(x), op, Box::new(y)))),
        _ => Err(EvalError::OperandsMustBeNumbers),
    }
}

fn bin_op_numeric_bool(a: Value, b: Value, op: TokenType) -> (r: Result<Value, EvalError>)
    requires
        value_wf(a@),
        value_wf(b@),
        is_comparison(op),
    ensures
        result_view(r) == binary_value(a@, op, b@),
        r is Ok ==> value_wf(r->Ok_0@),
{
    match (a, b) {
        (Value::Number(x), Value::Number(y)) => Ok(Value::Bool(BoolTerm::Compare(Box::new(x), op, Box::new(y)))),
        _ => Err(EvalError::OperandsMustBeNumbers),
    }
}

} // verus!
