use vstd::prelude::*;
use crate::tokenizer::{
    digits_end, is_digit_char, lemma_digits_end_bounds, lemma_step_end_bounds, lemma_trim_zeros,
    lex, lex_from, number_end, number_literal, step_end, step_token, string_of, trim_zeros,
    TokenType,
};

verus! {

/// A constant held in a `Literal` node.
///
/// A number is held as its canonical decimal text: digits, a point, digits, with no
/// leading zero before another integer digit and no trailing zero after another
/// fractional digit (`7.0`, `3.14`, `0.5`); `wf` states this. Two canonical texts are
/// equal exactly when they denote the same decimal. The number they stand for is the
/// double-precision float nearest to that decimal, which the library never computes
/// (floating point is its caller's work): two distinct texts such as `0.1` and
/// `0.10000000000000000001` may name one float, and the text of a literal is shown as
/// written, where the float nearest to `12345678901234567890` would show as
/// `12345678901234567168.0`.
#[derive(Debug, Clone, PartialEq)]
pub enum LiteralValue {
    Number(String),
    String(String),
    Bool(bool),
    Nil,
}

/// A node of the syntax tree; each node owns its children.
#[derive(Debug, PartialEq)]
pub enum Expr {
    Literal(LiteralValue),
    Grouping(Box<Expr>),
    Unary(TokenType, Box<Expr>),
    Binary(Box<Expr>, TokenType, Box<Expr>),
}

/// The mathematical view of a `LiteralValue`.
pub enum LiteralView {
    Number(Seq<char>),
    Str(Seq<char>),
    Bool(bool),
    Nil,
}

/// The mathematical view of an `Expr`.
pub enum ExprView {
    Literal(LiteralView),
    Grouping(Box<ExprView>),
    Unary(TokenType, Box<ExprView>),
    Binary(Box<ExprView>, TokenType, Box<ExprView>),
}

impl View for LiteralValue {
    type V = LiteralView;

    open spec fn view(&self) -> LiteralView {
        match self {
            LiteralValue::Number(n) => LiteralView::Number(n@),
            LiteralValue::String(s) => LiteralView::Str(s@),
            LiteralValue::Bool(b) => LiteralView::Bool(*b),
            LiteralValue::Nil => LiteralView::Nil,
        }
    }
}

pub open spec fn expr_view(e: &Expr) -> ExprView
    decreases e,
{
    match e {
        Expr::Literal(v) => ExprView::Literal(v@),
        Expr::Grouping(inner) => ExprView::Grouping(Box::new(expr_view(inner))),
        Expr::Unary(op, operand) => ExprView::Unary(*op, Box::new(expr_view(operand))),
        Expr::Binary(left, op, right) => ExprView::Binary(
            Box::new(expr_view(left)),
            *op,
            Box::new(expr_view(right)),
        ),
    }
}

impl View for Expr {
    type V = ExprView;

    open spec fn view(&self) -> ExprView {
        expr_view(self)
    }
}

/// Whether `s` is digits, a point, and digits.
pub open spec fn is_decimal(s: Seq<char>) -> bool {
    exists|p: int|
        0 < p < s.len() - 1 && s[p] == '.' && (forall|i: int|
            0 <= i < s.len() && i != p ==> is_digit_char(#[trigger] s[i]))
}

/// Whether `s` is the canonical text of a number.
pub open spec fn is_canonical_number(s: Seq<char>) -> bool {
    &&& is_decimal(s)
    &&& !(s[0] == '0' && s[1] != '.')
    &&& !(s.last() == '0' && s[s.len() - 2] != '.')
}

/// A literal is well formed when a number holds canonical decimal text.
pub open spec fn literal_wf(v: LiteralView) -> bool {
    match v {
        LiteralView::Number(t) => is_canonical_number(t),
        _ => true,
    }
}

/// The prefix operators: `-` and `!`.
pub open spec fn is_prefix_operator(op: TokenType) -> bool {
    op == TokenType::Minus || op == TokenType::Bang
}

/// The infix operators: arithmetic, equality and ordering.
pub open spec fn is_infix_operator(op: TokenType) -> bool {
    op == TokenType::Plus || op == TokenType::Minus || op == TokenType::Star || op
        == TokenType::Slash || op == TokenType::EqualEqual || op == TokenType::BangEqual || op
        == TokenType::Less || op == TokenType::LessEqual || op == TokenType::Greater || op
        == TokenType::GreaterEqual
}

/// A tree is well formed when all its literals are and each operator is one that its
/// node can hold.
pub open spec fn expr_wf(e: ExprView) -> bool
    decreases e,
{
    match e {
        ExprView::Literal(v) => literal_wf(v),
        ExprView::Grouping(inner) => expr_wf(*inner),
        ExprView::Unary(op, operand) => is_prefix_operator(op) && expr_wf(*operand),
        ExprView::Binary(left, op, right) => is_infix_operator(op) && expr_wf(*left) && expr_wf(
            *right,
        ),
    }
}

impl LiteralValue {
    pub open spec fn wf(&self) -> bool {
        literal_wf(self@)
    }
}

impl Expr {
    pub open spec fn wf(&self) -> bool {
        expr_wf(self@)
    }
}

/// `s` without the leading zeros of its integer part, keeping one integer digit.
pub open spec fn strip_leading_zeros(s: Seq<char>) -> Seq<char>
    decreases s.len(),
{
    if s.len() >= 2 && s[0] == '0' && is_digit_char(s[1]) {
        strip_leading_zeros(s.drop_first())
    } else {
        s
    }
}

pub open spec fn all_digits(s: Seq<char>) -> bool {
    forall|i: int| 0 <= i < s.len() ==> is_digit_char(#[trigger] s[i])
}

/// Integer digits, a point, and fractional digits whose last is not a superfluous
/// zero lose their superfluous leading zeros and become canonical.
pub proof fn lemma_strip_canonical(d1: Seq<char>, d2: Seq<char>)
    requires
        d1.len() > 0,
        d2.len() > 0,
        all_digits(d1),
        all_digits(d2),
        d2.last() != '0' || d2.len() == 1,
    ensures
        is_canonical_number(strip_leading_zeros(d1 + seq!['.'] + d2)),
    decreases d1.len(),
{
    let s = d1 + seq!['.'] + d2;
    if d1.len() >= 2 && d1[0] == '0' {
        assert(s[0] == d1[0]);
        assert(s[1] == d1[1]);
        assert(s.drop_first() =~= d1.drop_first() + seq!['.'] + d2);
        lemma_strip_canonical(d1.drop_first(), d2);
    } else {
        let p = d1.len() as int;
        assert(s[p] == '.');
        assert(s[0] == d1[0]);
        if d1.len() == 1 {
            assert(s[1] == '.');
        }
        assert(strip_leading_zeros(s) == s);
        assert forall|i: int| 0 <= i < s.len() && i != p implies is_digit_char(#[trigger] s[i]) by {
            if i < p {
                assert(s[i] == d1[i]);
            } else {
                assert(s[i] == d2[i - p - 1]);
            }
        }
        assert(s.last() == d2.last());
        if d2.len() == 1 {
            assert(s[s.len() - 2] == '.');
        }
    }
}

// ---------------------------------------------------------------------------
// Parsed number literals are canonical
// ---------------------------------------------------------------------------

pub proof fn lemma_trim_shape(s: Seq<char>)
    ensures
        trim_zeros(s).len() <= s.len(),
        trim_zeros(s) == s.take(trim_zeros(s).len() as int),
        forall|i: int| trim_zeros(s).len() <= i < s.len() ==> s[i] == '0',
        trim_zeros(s).len() == 0 || s[trim_zeros(s).len() - 1] != '0',
    decreases s.len(),
{
    if s.len() > 0 && s.last() == '0' {
        lemma_trim_shape(s.drop_last());
        let k = trim_zeros(s).len() as int;
        assert(s.drop_last().take(k) =~= s.take(k));
        assert forall|i: int| k <= i < s.len() implies s[i] == '0' by {
            if i < s.len() - 1 {
                assert(s.drop_last()[i] == s[i]);
            }
        }
    } else {
        assert(s.take(s.len() as int) =~= s);
    }
}

/// The literal of a number token is the token's integer digits, one point, and a
/// fraction of one or more digits that ends in `0` only when it is exactly `0`.
pub proof fn lemma_number_literal_shape(src: Seq<char>, j: int)
    requires
        0 <= j < src.len(),
        is_digit_char(src[j]),
    ensures
        j < digits_end(src, j) <= number_end(src, j) <= src.len(),
        all_digits(src.subrange(j, digits_end(src, j))),
        exists|d2: Seq<char>|
            d2.len() > 0 && all_digits(d2) && (d2.last() != '0' || d2.len() == 1)
                && #[trigger] number_literal(src.subrange(j, number_end(src, j))) == src.subrange(
                j,
                digits_end(src, j),
            ) + seq!['.'] + d2,
{
    lemma_step_end_bounds(src, j);
    lemma_digits_end_bounds(src, j);
    lemma_digits_end_bounds(src, j + 1);
    let a = digits_end(src, j);
    let d1 = src.subrange(j, a);
    let text = src.subrange(j, number_end(src, j));
    assert(a > j);
    assert(all_digits(d1)) by {
        assert forall|i: int| 0 <= i < d1.len() implies is_digit_char(#[trigger] d1[i]) by {
            assert(d1[i] == src[j + i]);
        }
    }
    if src.len() > a + 1 && src[a] == '.' && is_digit_char(src[a + 1]) {
        lemma_digits_end_bounds(src, a + 1);
        lemma_digits_end_bounds(src, a + 2);
        let b = digits_end(src, a + 1);
        let d2 = src.subrange(a + 1, b);
        assert(number_end(src, j) == b);
        assert(text =~= d1 + seq!['.'] + d2);
        let dot = a - j;
        assert(text[dot] == '.');
        assert(text.contains('.'));
        lemma_trim_shape(text);
        let tr = trim_zeros(text);
        let k = tr.len() as int;
        assert(k > dot) by {
            if k <= dot {
                assert(text[dot] == '0');
            }
        }
        if k == dot + 1 {
            assert(tr =~= d1 + seq!['.']);
            assert(tr.push('0') =~= d1 + seq!['.'] + seq!['0']);
            assert(all_digits(seq!['0']));
            assert(number_literal(text) == d1 + seq!['.'] + seq!['0']);
        } else {
            let m = k - dot - 1;
            let f = d2.take(m);
            assert(tr =~= d1 + seq!['.'] + f);
            assert(tr.last() == f.last());
            assert(is_digit_char(d2[m - 1]));
            assert(all_digits(f)) by {
                assert forall|i: int| 0 <= i < f.len() implies is_digit_char(#[trigger] f[i]) by {
                    assert(f[i] == src[a + 1 + i]);
                }
            }
            assert(number_literal(text) == d1 + seq!['.'] + f);
        }
    } else {
        assert(number_end(src, j) == a);
        assert(!d1.contains('.')) by {
            if d1.contains('.') {
                let i = choose|i: int| 0 <= i < d1.len() && d1[i] == '.';
                assert(is_digit_char(src[j + i]));
            }
        }
        assert(d1 + seq!['.', '0'] =~= d1 + seq!['.'] + seq!['0']);
        assert(all_digits(seq!['0']));
        assert(number_literal(text) == d1 + seq!['.'] + seq!['0']);
    }
}

/// The literal of a number token, without its superfluous leading zeros, is canonical.
pub proof fn lemma_number_token_canonical(src: Seq<char>, j: int)
    requires
        0 <= j < src.len(),
        is_digit_char(src[j]),
    ensures
        is_canonical_number(
            strip_leading_zeros(number_literal(src.subrange(j, number_end(src, j)))),
        ),
{
    lemma_number_literal_shape(src, j);
    let d1 = src.subrange(j, digits_end(src, j));
    let d2 = choose|d2: Seq<char>|
        d2.len() > 0 && all_digits(d2) && (d2.last() != '0' || d2.len() == 1)
            && #[trigger] number_literal(src.subrange(j, number_end(src, j))) == d1 + seq!['.'] + d2;
    lemma_strip_canonical(d1, d2);
}

/// Every token lexed from `pos` on comes from a lexical step at or after `pos`.
pub proof fn lemma_token_origin(src: Seq<char>, pos: int, i: int)
    requires
        0 <= pos,
        0 <= i < lex_from(src, pos).0.len(),
    ensures
        exists|j: int| pos <= j < src.len() && step_token(src, j) == Some(lex_from(src, pos).0[i]),
    decreases src.len() - pos,
{
    lemma_step_end_bounds(src, pos);
    let next = step_end(src, pos);
    let rest = lex_from(src, next).0;
    match step_token(src, pos) {
        Some(t) => {
            if i > 0 {
                assert(lex_from(src, pos).0[i] == rest[i - 1]);
                lemma_token_origin(src, next, i - 1);
                let j = choose|j: int| next <= j < src.len() && step_token(src, j) == Some(rest[i - 1]);
                assert(step_token(src, j) == Some(lex_from(src, pos).0[i]));
            } else {
                assert(step_token(src, pos) == Some(lex_from(src, pos).0[i]));
            }
        },
        None => {
            lemma_token_origin(src, next, i);
            let j = choose|j: int| next <= j < src.len() && step_token(src, j) == Some(rest[i]);
            assert(step_token(src, j) == Some(lex_from(src, pos).0[i]));
        },
    }
}

/// Every number token of a source has a literal that, without its superfluous leading
/// zeros, is canonical.
pub proof fn lemma_lexed_numbers_canonical(src: Seq<char>)
    ensures
        forall|i: int|
            0 <= i < lex(src).len() && (#[trigger] lex(src)[i]).0 == TokenType::Number
                ==> is_canonical_number(strip_leading_zeros(lex(src)[i].2)),
{
    assert forall|i: int|
        0 <= i < lex(src).len() && (#[trigger] lex(src)[i]).0 == TokenType::Number implies is_canonical_number(
        strip_leading_zeros(lex(src)[i].2),
    ) by {
        let lexed = lex_from(src, 0).0;
        if i < lexed.len() {
            assert(lex(src)[i] == lexed[i]);
            lemma_token_origin(src, 0, i);
            let j = choose|j: int| 0 <= j < src.len() && step_token(src, j) == Some(lexed[i]);
            assert(is_digit_char(src[j]));
            lemma_number_token_canonical(src, j);
        }
    }
}

/// The text of a literal: a number's canonical text, a string without quotes,
/// `true`, `false` or `nil`.
pub open spec fn literal_text(v: LiteralView) -> Seq<char> {
    match v {
        LiteralView::Number(t) => t,
        LiteralView::Str(s) => s,
        LiteralView::Bool(b) => if b {
            seq!['t', 'r', 'u', 'e']
        } else {
            seq!['f', 'a', 'l', 's', 'e']
        },
        LiteralView::Nil => seq!['n', 'i', 'l'],
    }
}

impl LiteralValue {
    /// The text of this literal, as shown in a printed tree.
    pub fn text(&self) -> (r: String)
        requires
            self.wf(),
        ensures
            r@ == literal_text(self@),
    {
        match self {
            LiteralValue::Number(n) => n.clone(),
            LiteralValue::String(s) => s.clone(),
            LiteralValue::Bool(b) => if *b {
                string_of(&['t', 'r', 'u', 'e'])
            } else {
                string_of(&['f', 'a', 'l', 's', 'e'])
            },
            LiteralValue::Nil => string_of(&['n', 'i', 'l']),
        }
    }
}

} // verus!
