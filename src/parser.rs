use vstd::prelude::*;
use crate::ast::{
    is_canonical_number, lemma_lexed_numbers_canonical, strip_leading_zeros, Expr, ExprView,
    LiteralValue, LiteralView,
};
use crate::tokenizer::{lex, token_view, tokens_view, Scanner, Token, TokenType, TokenView};

verus! {

/// Why a token sequence is not an expression.
#[derive(Debug, PartialEq)]
pub enum ParseError {
    /// A token that cannot start an operand.
    UnexpectedToken(Token),
    /// A group without its closing parenthesis.
    ExpectRightParen,
    /// The end-marker where an operand was expected.
    UnexpectedEnd,
}

pub enum ParseErrorView {
    UnexpectedToken(TokenView),
    ExpectRightParen,
    UnexpectedEnd,
}

impl View for ParseError {
    type V = ParseErrorView;

    open spec fn view(&self) -> ParseErrorView {
        match self {
            ParseError::UnexpectedToken(t) => ParseErrorView::UnexpectedToken(token_view(*t)),
            ParseError::ExpectRightParen => ParseErrorView::ExpectRightParen,
            ParseError::UnexpectedEnd => ParseErrorView::UnexpectedEnd,
        }
    }
}

/// The outcome of a grammar rule at a position: a tree and the position after it.
pub type Parsed = Result<(ExprView, int), ParseErrorView>;

// ---------------------------------------------------------------------------
// The grammar
//
//   expression -> term
//   term       -> factor ( ( "-" | "+" ) factor )*
//   factor     -> unary ( ( "/" | "*" ) unary )*
//   unary      -> ( "!" | "-" ) unary | primary
//   primary    -> NUMBER | STRING | "true" | "false" | "nil" | "(" expression ")"
//
// Each rule maps a token sequence and a position to the tree it reads there and the
// position after it. A rule reads at least one token when it succeeds; the bounds
// tested before each recursive call say so, and never fail.
// ---------------------------------------------------------------------------

pub open spec fn at_end(toks: Seq<TokenView>, p: int) -> bool {
    !(0 <= p < toks.len()) || toks[p].0 == TokenType::Eof
}

pub open spec fn check(toks: Seq<TokenView>, p: int, k: TokenType) -> bool {
    !at_end(toks, p) && toks[p].0 == k
}

pub open spec fn is_term_operator(k: TokenType) -> bool {
    k == TokenType::Minus || k == TokenType::Plus
}

pub open spec fn is_factor_operator(k: TokenType) -> bool {
    k == TokenType::Slash || k == TokenType::Star
}

pub open spec fn is_unary_operator(k: TokenType) -> bool {
    k == TokenType::Bang || k == TokenType::Minus
}

pub open spec fn parse_expression(toks: Seq<TokenView>, p: int) -> Parsed
    decreases toks.len() - p, 6int,
{
    parse_term(toks, p)
}

pub open spec fn parse_term(toks: Seq<TokenView>, p: int) -> Parsed
    decreases toks.len() - p, 5int,
{
    match parse_factor(toks, p) {
        Ok((left, q)) => if p < q <= toks.len() {
            term_tail(toks, q, left)
        } else {
            Err(ParseErrorView::UnexpectedEnd)
        },
        Err(e) => Err(e),
    }
}

/// The rest of a `term` after its operand `left`, which ends at `q`.
pub open spec fn term_tail(toks: Seq<TokenView>, q: int, left: ExprView) -> Parsed
    decreases toks.len() - q, 4int,
{
    if 0 <= q < toks.len() && !at_end(toks, q) && is_term_operator(toks[q].0) {
        match parse_factor(toks, q + 1) {
            Ok((right, r)) => if q < r <= toks.len() {
                term_tail(toks, r, ExprView::Binary(Box::new(left), toks[q].0, Box::new(right)))
            } else {
                Err(ParseErrorView::UnexpectedEnd)
            },
            Err(e) => Err(e),
        }
    } else {
        Ok((left, q))
    }
}

pub open spec fn parse_factor(toks: Seq<TokenView>, p: int) -> Parsed
    decreases toks.len() - p, 3int,
{
    match parse_unary(toks, p) {
        Ok((left, q)) => if p < q <= toks.len() {
            factor_tail(toks, q, left)
        } else {
            Err(ParseErrorView::UnexpectedEnd)
        },
        Err(e) => Err(e),
    }
}

/// The rest of a `factor` after its operand `left`, which ends at `q`.
pub open spec fn factor_tail(toks: Seq<TokenView>, q: int, left: ExprView) -> Parsed
    decreases toks.len() - q, 2int,
{
    if 0 <= q < toks.len() && !at_end(toks, q) && is_factor_operator(toks[q].0) {
        match parse_unary(toks, q + 1) {
            Ok((right, r)) => if q < r <= toks.len() {
                factor_tail(toks, r, ExprView::Binary(Box::new(left), toks[q].0, Box::new(right)))
            } else {
                Err(ParseErrorView::UnexpectedEnd)
            },
            Err(e) => Err(e),
        }
    } else {
        Ok((left, q))
    }
}

pub open spec fn parse_unary(toks: Seq<TokenView>, p: int) -> Parsed
    decreases toks.len() - p, 1int,
{
    if 0 <= p < toks.len() && !at_end(toks, p) && is_unary_operator(toks[p].0) {
        match parse_unary(toks, p + 1) {
            Ok((operand, q)) => Ok((ExprView::Unary(toks[p].0, Box::new(operand)), q)),
            Err(e) => Err(e),
        }
    } else {
        parse_primary(toks, p)
    }
}

pub open spec fn parse_primary(toks: Seq<TokenView>, p: int) -> Parsed
    decreases toks.len() - p, 0int,
{
    if check(toks, p, TokenType::LeftParen) {
        match parse_expression(toks, p + 1) {
            Ok((inner, q)) => if check(toks, q, TokenType::RightParen) {
                Ok((ExprView::Grouping(Box::new(inner)), q + 1))
            } else {
                Err(ParseErrorView::ExpectRightParen)
            },
            Err(e) => Err(e),
        }
    } else if at_end(toks, p) {
        Err(ParseErrorView::UnexpectedEnd)
    } else {
        let t = toks[p];
        if t.0 == TokenType::True {
            Ok((ExprView::Literal(LiteralView::Bool(true)), p + 1))
        } else if t.0 == TokenType::False {
            Ok((ExprView::Literal(LiteralView::Bool(false)), p + 1))
        } else if t.0 == TokenType::Nil {
            Ok((ExprView::Literal(LiteralView::Nil), p + 1))
        } else if t.0 == TokenType::Number {
            Ok((ExprView::Literal(LiteralView::Number(strip_leading_zeros(t.2))), p + 1))
        } else if t.0 == TokenType::String {
            Ok((ExprView::Literal(LiteralView::Str(t.2)), p + 1))
        } else {
            Err(ParseErrorView::UnexpectedToken(t))
        }
    }
}

/// What parsing `src` gives: the expression at the start of its tokens.
pub open spec fn parse_source(src: Seq<char>) -> Result<ExprView, ParseErrorView> {
    match parse_expression(lex(src), 0) {
        Ok((e, _)) => Ok(e),
        Err(e) => Err(e),
    }
}

/// Relates an executable outcome to the outcome of a grammar rule.
pub open spec fn agrees(r: Result<Expr, ParseError>, end: int, spec: Parsed) -> bool {
    match r {
        Ok(e) => spec == Parsed::Ok((e@, end)),
        Err(e) => spec == Parsed::Err(e@),
    }
}

// ---------------------------------------------------------------------------
// The parser
// ---------------------------------------------------------------------------

/// A recursive-descent parser over the tokens of one source text.
pub struct Parser {
    tokens: Vec<Token>,
    current: usize,
}

impl Parser {
    /// The tokens being parsed.
    pub closed spec fn tokens_view(&self) -> Seq<TokenView> {
        tokens_view(self.tokens@)
    }

    /// The cursor: the index of the next token to read.
    pub closed spec fn position(&self) -> int {
        self.current as int
    }

    /// The tokens end in the end-marker, the cursor stands on one of them, and every
    /// number token's literal is canonical once its superfluous leading zeros go.
    pub closed spec fn well_formed(&self) -> bool {
        &&& self.tokens@.len() > 0
        &&& self.tokens@.last().0 == TokenType::Eof
        &&& self.current < self.tokens@.len()
        &&& forall|i: int|
            0 <= i < self.tokens@.len() && (#[trigger] self.tokens@[i]).0 == TokenType::Number
                ==> is_canonical_number(strip_leading_zeros(self.tokens@[i].2@))
    }

    /// Lexes `source` completely and puts the cursor on its first token.
    pub fn new(source: &str) -> (p: Parser)
        requires
            source@.len() < usize::MAX,
        ensures
            p.well_formed(),
            p.tokens_view() == lex(source@),
            p.position() == 0,
    {
        let mut scanner = Scanner::new(source);
        scanner.scan_tokens();
        let tokens = scanner.into_tokens();
        let p = Parser { tokens, current: 0 };
        proof {
            let v = tokens_view(p.tokens@);
            lemma_lexed_numbers_canonical(source@);
            assert forall|i: int|
                0 <= i < p.tokens@.len() && (#[trigger] p.tokens@[i]).0 == TokenType::Number
                    implies is_canonical_number(strip_leading_zeros(p.tokens@[i].2@)) by {
                assert(v[i] == token_view(p.tokens@[i]));
            }
            assert(v.last() == lex(source@).last());
            assert(v[v.len() - 1] == token_view(p.tokens@[v.len() - 1]));
        }
        p
    }

    /// Parses one expression from the cursor on.
    pub fn parse(&mut self) -> (r: Result<Expr, ParseError>)
        requires
            old(self).well_formed(),
        ensures
            final(self).well_formed(),
            final(self).tokens_view() == old(self).tokens_view(),
            r is Ok ==> r->Ok_0.wf(),
            agrees(
                r,
                final(self).position(),
                parse_expression(old(self).tokens_view(), old(self).position()),
            ),
    {
        self.expression()
    }

    fn expression(&mut self) -> (r: Result<Expr, ParseError>)
        requires
            old(self).well_formed(),
        ensures
            final(self).well_formed(),
            final(self).tokens == old(self).tokens,
            r is Ok ==> final(self).current > old(self).current,
            r is Ok ==> r->Ok_0.wf(),
            agrees(
                r,
                final(self).current as int,
                parse_expression(tokens_view(old(self).tokens@), old(self).current as int),
            ),
        decreases self.tokens@.len() - self.current, 6int,
    {
        self.term()
    }

    fn term(&mut self) -> (r: Result<Expr, ParseError>)
        requires
            old(self).well_formed(),
        ensures
            final(self).well_formed(),
            final(self).tokens == old(self).tokens,
            r is Ok ==> final(self).current > old(self).current,
            r is Ok ==> r->Ok_0.wf(),
            agrees(
                r,
                final(self).current as int,
                parse_term(tokens_view(old(self).tokens@), old(self).current as int),
            ),
        decreases self.tokens@.len() - self.current, 5int,
    {
        let ghost toks = tokens_view(self.tokens@);
        let ghost p = self.current as int;
        let mut expr = match self.factor() {
            Ok(e) => e,
            Err(e) => return Err(e),
        };
        let operators = [TokenType::Minus, TokenType::Plus];
        proof {
            assert(operators@ =~= seq![TokenType::Minus, TokenType::Plus]);
        }
        while self.match_token(&operators)
            invariant
                self.well_formed(),
                self.tokens == old(self).tokens,
                self.current > p,
                p == old(self).current,
                toks == tokens_view(self.tokens@),
                expr.wf(),
                term_tail(toks, self.current as int, expr@) == parse_term(toks, p),
                operators@ == seq![TokenType::Minus, TokenType::Plus],
            decreases self.tokens@.len() - self.current,
        {
            let operator = self.previous().0;
            proof {
                let q = self.current - 1;
                assert(is_term_operator(toks[q].0));
                assert(self.tokens@.len() - self.current < old(self).tokens@.len() - old(self).current);
            }
            let right = match self.factor() {
                Ok(e) => e,
                Err(e) => return Err(e),
            };
            expr = Expr::Binary(Box::new(expr), operator, Box::new(right));
        }
        Ok(expr)
    }

    fn factor(&mut self) -> (r: Result<Expr, ParseError>)
        requires
            old(self).well_formed(),
        ensures
            final(self).well_formed(),
            final(self).tokens == old(self).tokens,
            r is Ok ==> final(self).current > old(self).current,
            r is Ok ==> r->Ok_0.wf(),
            agrees(
                r,
                final(self).current as int,
                parse_factor(tokens_view(old(self).tokens@), old(self).current as int),
            ),
        decreases self.tokens@.len() - self.current, 3int,
    {
        let ghost toks = tokens_view(self.tokens@);
        let ghost p = self.current as int;
        let mut expr = match self.unary() {
            Ok(e) => e,
            Err(e) => return Err(e),
        };
        let operators = [TokenType::Slash, TokenType::Star];
        proof {
            assert(operators@ =~= seq![TokenType::Slash, TokenType::Star]);
        }
        while self.match_token(&operators)
            invariant
                self.well_formed(),
                self.tokens == old(self).tokens,
                self.current > p,
                p == old(self).current,
                toks == tokens_view(self.tokens@),
                expr.wf(),
                factor_tail(toks, self.current as int, expr@) == parse_factor(toks, p),
                operators@ == seq![TokenType::Slash, TokenType::Star],
            decreases self.tokens@.len() - self.current,
        {
            let operator = self.previous().0;
            proof {
                let q = self.current - 1;
                assert(is_factor_operator(toks[q].0));
                assert(self.tokens@.len() - self.current < old(self).tokens@.len() - old(self).current);
            }
            let right = match self.unary() {
                Ok(e) => e,
                Err(e) => return Err(e),
            };
            expr = Expr::Binary(Box::new(expr), operator, Box::new(right));
        }
        Ok(expr)
    }

    fn unary(&mut self) -> (r: Result<Expr, ParseError>)
        requires
            old(self).well_formed(),
        ensures
            final(self).well_formed(),
            final(self).tokens == old(self).tokens,
            r is Ok ==> final(self).current > old(self).current,
            r is Ok ==> r->Ok_0.wf(),
            agrees(
                r,
                final(self).current as int,
                parse_unary(tokens_view(old(self).tokens@), old(self).current as int),
            ),
        decreases self.tokens@.len() - self.current, 1int,
    {
        if self.match_token(&[TokenType::Bang, TokenType::Minus]) {
            let operator = self.previous().0;
            let right = match self.unary() {
                Ok(e) => e,
                Err(e) => return Err(e),
            };
            return Ok(Expr::Unary(operator, Box::new(right)));
        }
        self.primary()
    }

    fn primary(&mut self) -> (r: Result<Expr, ParseError>)
        requires
            old(self).well_formed(),
        ensures
            final(self).well_formed(),
            final(self).tokens == old(self).tokens,
            r is Ok ==> final(self).current > old(self).current,
            r is Ok ==> r->Ok_0.wf(),
            agrees(
                r,
                final(self).current as int,
                parse_primary(tokens_view(old(self).tokens@), old(self).current as int),
            ),
        decreases self.tokens@.len() - self.current, 0int,
    {
        if self.match_token(&[TokenType::LeftParen]) {
            let expr = match self.expression() {
                Ok(e) => e,
                Err(e) => return Err(e),
            };
            match self.consume(TokenType::RightParen, ParseError::ExpectRightParen) {
                Ok(_) => {},
                Err(e) => return Err(e),
            }
            return Ok(Expr::Grouping(Box::new(expr)));
        }
        if self.is_at_end() {
            return Err(ParseError::UnexpectedEnd);
        }
        let kind = self.peek().0;
        match kind {
            TokenType::True => {
                self.advance();
                Ok(Expr::Literal(LiteralValue::Bool(true)))
            },
            TokenType::False => {
                self.advance();
                Ok(Expr::Literal(LiteralValue::Bool(false)))
            },
            TokenType::Nil => {
                self.advance();
                Ok(Expr::Literal(LiteralValue::Nil))
            },
            TokenType::Number => {
                let value = number_value(&self.advance().2);
                Ok(Expr::Literal(LiteralValue::Number(value)))
            },
            TokenType::String => {
                let value = self.advance().2.clone();
                Ok(Expr::Literal(LiteralValue::String(value)))
            },
            _ => Err(ParseError::UnexpectedToken(clone_token(self.peek()))),
        }
    }

    /// Consumes the next token when its kind is one of `types`.
    fn match_token(&mut self, types: &[TokenType]) -> (r: bool)
        requires
            old(self).well_formed(),
        ensures
            final(self).well_formed(),
            final(self).tokens == old(self).tokens,
            r == (!at_end(tokens_view(old(self).tokens@), old(self).current as int) && types@.contains(
                old(self).tokens@[old(self).current as int].0,
            )),
            final(self).current == old(self).current + if r { 1int } else { 0int },
    {
        let mut i: usize = 0;
        while i < types.len()
            invariant
                self == old(self),
                self.well_formed(),
                i <= types@.len(),
                forall|j: int| 0 <= j < i ==> !self.check_spec(#[trigger] types@[j]),
            decreases types@.len() - i,
        {
            if self.check(types[i]) {
                self.advance();
                return true;
            }
            i = i + 1;
        }
        proof {
            if !at_end(tokens_view(self.tokens@), self.current as int) && types@.contains(
                self.tokens@[self.current as int].0,
            ) {
                let j = choose|j: int| 0 <= j < types@.len() && types@[j] == self.tokens@[self.current as int].0;
                assert(!self.check_spec(types@[j]));
            }
        }
        false
    }

    /// Consumes the next token when it has kind `t`, else fails with `error`.
    fn consume(&mut self, t: TokenType, error: ParseError) -> (r: Result<(), ParseError>)
        requires
            old(self).well_formed(),
        ensures
            final(self).well_formed(),
            final(self).tokens == old(self).tokens,
            old(self).check_spec(t) ==> r is Ok && final(self).current == old(self).current + 1,
            !old(self).check_spec(t) ==> r == Err::<(), ParseError>(error) && final(self).current
                == old(self).current,
    {
        if self.check(t) {
            self.advance();
            Ok(())
        } else {
            Err(error)
        }
    }

    closed spec fn check_spec(&self, t: TokenType) -> bool {
        check(tokens_view(self.tokens@), self.current as int, t)
    }

    fn check(&self, t: TokenType) -> (r: bool)
        requires
            self.well_formed(),
        ensures
            r == self.check_spec(t),
    {
        if self.is_at_end() {
            false
        } else {
            self.peek().0 == t
        }
    }

    /// Consumes the next token, which is not the end-marker, and returns it.
    fn advance(&mut self) -> (r: &Token)
        requires
            old(self).well_formed(),
            !at_end(tokens_view(old(self).tokens@), old(self).current as int),
        ensures
            final(self).well_formed(),
            final(self).tokens == old(self).tokens,
            final(self).current == old(self).current + 1,
            *r == old(self).tokens@[old(self).current as int],
    {
        proof {
            let n = self.tokens@.len() - 1;
            assert(tokens_view(self.tokens@)[n] == token_view(self.tokens@[n]));
            assert(tokens_view(self.tokens@)[self.current as int] == token_view(
                self.tokens@[self.current as int],
            ));
        }
        proof {
            vstd::std_specs::vec::axiom_spec_len(&self.tokens);
        }
        if !self.is_at_end() {
            self.current = self.current + 1;
        }
        self.previous()
    }

    fn is_at_end(&self) -> (r: bool)
        requires
            self.well_formed(),
        ensures
            r == at_end(tokens_view(self.tokens@), self.current as int),
    {
        self.peek().0 == TokenType::Eof
    }

    fn peek(&self) -> (r: &Token)
        requires
            self.well_formed(),
        ensures
            *r == self.tokens@[self.current as int],
    {
        &self.tokens[self.current]
    }

    fn previous(&self) -> (r: &Token)
        requires
            self.tokens@.len() > 0,
            0 < self.current <= self.tokens@.len(),
        ensures
            *r == self.tokens@[self.current - 1],
    {
        &self.tokens[self.current - 1]
    }
}

/// A copy of a token.
fn clone_token(t: &Token) -> (r: Token)
    ensures
        token_view(r) == token_view(*t),
{
    (t.0, t.1.clone(), t.2.clone())
}

/// The canonical text of a number token's literal: its integer part loses its
/// leading zeros, keeping one digit.
fn number_value(literal: &String) -> (r: String)
    ensures
        r@ == strip_leading_zeros(literal@),
{
    let s = literal.as_str();
    let n = s.unicode_len();
    let mut i: usize = 0;
    proof {
        assert(s@.subrange(0, n as int) =~= s@);
    }
    while n > 0 && i < n - 1 && s.get_char(i) == '0' && '0' <= s.get_char(i + 1) && s.get_char(i + 1)
        <= '9'
        invariant
            n == s@.len(),
            i <= n,
            strip_leading_zeros(s@.subrange(i as int, n as int)) == strip_leading_zeros(s@),
        decreases n - i,
    {
        proof {
            assert(s@.subrange(i as int, n as int).drop_first() =~= s@.subrange(i + 1, n as int));
        }
        i = i + 1;
    }
    let rest = s.substring_char(i, n);
    proof {
        assert(strip_leading_zeros(s@.subrange(i as int, n as int)) == s@.subrange(i as int, n as int));
    }
    String::from_str(rest)
}

} // verus!
