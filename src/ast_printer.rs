use vstd::prelude::*;
use crate::ast::{
    expr_wf, is_canonical_number, lemma_lexed_numbers_canonical, literal_text, strip_leading_zeros,
    Expr, ExprView, LiteralView,
};
use crate::parser::{
    at_end, factor_tail, is_factor_operator, is_term_operator, parse_expression, parse_factor,
    parse_primary, parse_source, parse_term, parse_unary, term_tail, ParseErrorView,
};
use crate::tokenizer::{
    digits_end, eof_token, ident_end, is_alphanumeric_char, is_digit_char, lemma_trim_zeros, lex,
    lex_from, number_literal, parse_text, step_end, step_error, step_token, TokenType, TokenView,
};

verus! {

/// The canonical parenthesized text of a tree: `(group e)`, `(op e)`, `(op l r)`.
pub open spec fn render(e: ExprView) -> Seq<char>
    decreases e,
{
    match e {
        ExprView::Literal(v) => literal_text(v),
        ExprView::Grouping(inner) => seq!['(', 'g', 'r', 'o', 'u', 'p', ' '] + render(*inner) + seq![')'],
        ExprView::Unary(op, operand) => seq!['('] + parse_text(op) + seq![' '] + render(*operand)
            + seq![')'],
        ExprView::Binary(left, op, right) => seq!['('] + parse_text(op) + seq![' '] + render(*left)
            + seq![' '] + render(*right) + seq![')'],
    }
}

/// Renders syntax trees as text.
pub struct AstPrinter;

impl AstPrinter {
    pub fn print(expr: &Expr) -> (r: String)
        requires
            expr.wf(),
        ensures
            r@ == render(expr@),
        decreases expr,
    {
        match expr {
            Expr::Literal(value) => value.text(),
            Expr::Grouping(inner) => {
                let mut s = String::from_str("(group ");
                let body = Self::print(inner);
                s.append(body.as_str());
                s.append(")");
                proof {
                    reveal_strlit("(group ");
                    reveal_strlit(")");
                    assert(s@ =~= render(expr@));
                }
                s
            },
            Expr::Unary(operator, right) => {
                let mut s = String::from_str("(");
                let op = operator.to_string_for_parse();
                let body = Self::print(right);
                s.append(op.as_str());
                s.append(" ");
                s.append(body.as_str());
                s.append(")");
                proof {
                    reveal_strlit("(");
                    reveal_strlit(" ");
                    reveal_strlit(")");
                    assert(s@ =~= render(expr@));
                }
                s
            },
            Expr::Binary(left, operator, right) => {
                let mut s = String::from_str("(");
                let op = operator.to_string_for_parse();
                let l = Self::print(left);
                let r = Self::print(right);
                s.append(op.as_str());
                s.append(" ");
                s.append(l.as_str());
                s.append(" ");
                s.append(r.as_str());
                s.append(")");
                proof {
                    reveal_strlit("(");
                    reveal_strlit(" ");
                    reveal_strlit(")");
                    assert(s@ =~= render(expr@));
                }
                s
            },
        }
    }
}

// ---------------------------------------------------------------------------
// Reading printed literals back
// ---------------------------------------------------------------------------

/// The kind of token that the printed text of a literal reads as.
pub open spec fn literal_kind(v: LiteralView) -> TokenType {
    match v {
        LiteralView::Number(_) => TokenType::Number,
        LiteralView::Str(_) => TokenType::String,
        LiteralView::Bool(b) => if b {
            TokenType::True
        } else {
            TokenType::False
        },
        LiteralView::Nil => TokenType::Nil,
    }
}

/// Literals whose printed text reads back as themselves: numbers in canonical
/// text, booleans and `nil`. A string prints without its quotes and is excluded.
pub open spec fn reads_back(v: LiteralView) -> bool {
    match v {
        LiteralView::Number(t) => is_canonical_number(t),
        LiteralView::Str(_) => false,
        _ => true,
    }
}

proof fn lemma_digits_end_exact(src: Seq<char>, i: int, j: int)
    requires
        0 <= i <= j <= src.len(),
        forall|k: int| i <= k < j ==> is_digit_char(#[trigger] src[k]),
        j == src.len() || !is_digit_char(src[j]),
    ensures
        digits_end(src, i) == j,
    decreases j - i,
{
    if i < j {
        lemma_digits_end_exact(src, i + 1, j);
    }
}

proof fn lemma_ident_end_exact(src: Seq<char>, i: int)
    requires
        0 <= i <= src.len(),
        forall|k: int| i <= k < src.len() ==> is_alphanumeric_char(#[trigger] src[k]),
    ensures
        ident_end(src, i) == src.len(),
    decreases src.len() - i,
{
    if i < src.len() {
        lemma_ident_end_exact(src, i + 1);
    }
}

proof fn lemma_number_relex(t: Seq<char>)
    requires
        is_canonical_number(t),
    ensures
        lex(t) == seq![(TokenType::Number, t, t), eof_token()],
{
    let p = choose|p: int|
        0 < p < t.len() - 1 && t[p] == '.' && (forall|i: int|
            0 <= i < t.len() && i != p ==> is_digit_char(#[trigger] t[i]));
    let n = t.len() as int;
    lemma_digits_end_exact(t, 0, p);
    lemma_digits_end_exact(t, p + 1, n);
    assert(is_digit_char(t[0]));
    assert(is_digit_char(t[p + 1]));
    assert(step_end(t, 0) == n);
    assert(t.subrange(0, n) =~= t);
    assert(t.contains('.'));
    if t.last() != '0' {
        lemma_trim_zeros(t, n);
        assert(t.take(n) =~= t);
        assert(is_digit_char(t[n - 1]));
        assert(number_literal(t) == t);
    } else {
        assert(t[n - 2] == '.');
        lemma_trim_zeros(t, n - 1);
        assert(t.take(n - 1).push('0') =~= t);
        assert(number_literal(t) == t);
    }
    assert(step_token(t, 0) == Some((TokenType::Number, t, t)));
    assert(step_error(t, 0) is None);
    assert(lex_from(t, n).0 =~= Seq::<TokenView>::empty());
    assert(lex_from(t, 0).0 =~= seq![(TokenType::Number, t, t)]);
}

proof fn lemma_word_relex(w: Seq<char>, k: TokenType)
    requires
        w == seq!['t', 'r', 'u', 'e'] && k == TokenType::True || w == seq![
            'f',
            'a',
            'l',
            's',
            'e',
        ] && k == TokenType::False || w == seq!['n', 'i', 'l'] && k == TokenType::Nil,
    ensures
        lex(w) == seq![(k, w, w), eof_token()],
{
    let n = w.len() as int;
    assert forall|j: int| 1 <= j < n implies is_alphanumeric_char(#[trigger] w[j]) by {}
    lemma_ident_end_exact(w, 1);
    assert(step_end(w, 0) == n);
    assert(w.subrange(0, n) =~= w);
    assert(step_token(w, 0) == Some((k, w, w)));
    assert(step_error(w, 0) is None);
    assert(lex_from(w, n).0 =~= Seq::<TokenView>::empty());
    assert(lex_from(w, 0).0 =~= seq![(k, w, w)]);
}

/// Re-lexing the printed text of a literal that reads back gives one token that
/// carries that same text as its literal value, then the end-marker.
pub proof fn lemma_relex_literal(v: LiteralView)
    requires
        reads_back(v),
    ensures
        lex(literal_text(v)) == seq![
            (literal_kind(v), literal_text(v), literal_text(v)),
            eof_token(),
        ],
{
    match v {
        LiteralView::Number(t) => lemma_number_relex(t),
        LiteralView::Bool(b) => if b {
            lemma_word_relex(literal_text(v), TokenType::True);
        } else {
            lemma_word_relex(literal_text(v), TokenType::False);
        },
        LiteralView::Nil => lemma_word_relex(literal_text(v), TokenType::Nil),
        LiteralView::Str(_) => {},
    }
}

/// Printing a literal that reads back, then parsing the printed text, gives the
/// same tree.
pub proof fn lemma_print_parse_literal(v: LiteralView)
    requires
        reads_back(v),
    ensures
        parse_source(render(ExprView::Literal(v))) == Ok::<ExprView, crate::parser::ParseErrorView>(
            ExprView::Literal(v),
        ),
{
    let text = literal_text(v);
    lemma_relex_literal(v);
    let toks = lex(text);
    let e = ExprView::Literal(v);
    if let LiteralView::Number(t) = v {
        assert(strip_leading_zeros(t) == t);
    }
    assert(parse_primary(toks, 0) == Ok::<(ExprView, int), ParseErrorView>((e, 1)));
    assert(parse_unary(toks, 0) == Ok::<(ExprView, int), ParseErrorView>((e, 1)));
    assert(parse_factor(toks, 0) == Ok::<(ExprView, int), ParseErrorView>((e, 1)));
    assert(parse_term(toks, 0) == Ok::<(ExprView, int), ParseErrorView>((e, 1)));
    assert(parse_expression(toks, 0) == Ok::<(ExprView, int), ParseErrorView>((e, 1)));
}

proof fn lemma_term_tail_shape(toks: Seq<TokenView>, q: int, left: ExprView)
    requires
        term_tail(toks, q, left) is Ok,
    ensures
        term_tail(toks, q, left)->Ok_0.0 == left || term_tail(toks, q, left)->Ok_0.0 is Binary,
    decreases toks.len() - q,
{
    if 0 <= q < toks.len() && !at_end(toks, q) && is_term_operator(toks[q].0) {
        let (right, r) = parse_factor(toks, q + 1)->Ok_0;
        lemma_term_tail_shape(toks, r, ExprView::Binary(Box::new(left), toks[q].0, Box::new(right)));
    }
}

proof fn lemma_factor_tail_shape(toks: Seq<TokenView>, q: int, left: ExprView)
    requires
        factor_tail(toks, q, left) is Ok,
    ensures
        factor_tail(toks, q, left)->Ok_0.0 == left || factor_tail(toks, q, left)->Ok_0.0 is Binary,
    decreases toks.len() - q,
{
    if 0 <= q < toks.len() && !at_end(toks, q) && is_factor_operator(toks[q].0) {
        let (right, r) = parse_unary(toks, q + 1)->Ok_0;
        lemma_factor_tail_shape(toks, r, ExprView::Binary(Box::new(left), toks[q].0, Box::new(right)));
    }
}

/// Parsing a source whose expression is a literal other than a string, printing the
/// tree, and parsing the printed text again gives the same tree.
pub proof fn lemma_parse_print_parse(src: Seq<char>)
    requires
        parse_source(src) is Ok,
        parse_source(src)->Ok_0 is Literal,
        !(parse_source(src)->Ok_0->Literal_0 is Str),
    ensures
        parse_source(render(parse_source(src)->Ok_0)) == parse_source(src),
{
    let e = parse_source(src)->Ok_0;
    let v = e->Literal_0;
    let toks = lex(src);
    let (l, q) = parse_factor(toks, 0)->Ok_0;
    lemma_term_tail_shape(toks, q, l);
    assert(l == e);
    let (u, q2) = parse_unary(toks, 0)->Ok_0;
    lemma_factor_tail_shape(toks, q2, u);
    assert(u == e);
    assert(parse_primary(toks, 0) is Ok && parse_primary(toks, 0)->Ok_0.0 == e);
    if let LiteralView::Number(t) = v {
        assert(toks[0].0 == TokenType::Number);
        lemma_lexed_numbers_canonical(src);
    }
    assert(reads_back(v));
    lemma_print_parse_literal(v);
}

// ---------------------------------------------------------------------------
// Shape of the printed text
// ---------------------------------------------------------------------------

/// The number of times `c` occurs in `s`.
pub open spec fn occurrences(s: Seq<char>, c: char) -> nat
    decreases s.len(),
{
    if s.len() == 0 {
        0
    } else {
        occurrences(s.drop_last(), c) + if s.last() == c { 1nat } else { 0nat }
    }
}

/// Whether a tree holds a string literal, whose text may hold any character.
pub open spec fn has_string_literal(e: ExprView) -> bool
    decreases e,
{
    match e {
        ExprView::Literal(v) => v is Str,
        ExprView::Grouping(inner) => has_string_literal(*inner),
        ExprView::Unary(_, operand) => has_string_literal(*operand),
        ExprView::Binary(left, _, right) => has_string_literal(*left) || has_string_literal(*right),
    }
}

/// The number of group, prefix and infix nodes of a tree.
pub open spec fn operator_nodes(e: ExprView) -> nat
    decreases e,
{
    match e {
        ExprView::Literal(_) => 0,
        ExprView::Grouping(inner) => 1 + operator_nodes(*inner),
        ExprView::Unary(_, operand) => 1 + operator_nodes(*operand),
        ExprView::Binary(left, _, right) => 1 + operator_nodes(*left) + operator_nodes(*right),
    }
}

proof fn lemma_occurrences_concat(a: Seq<char>, b: Seq<char>, c: char)
    ensures
        occurrences(a + b, c) == occurrences(a, c) + occurrences(b, c),
    decreases b.len(),
{
    if b.len() == 0 {
        assert(a + b =~= a);
    } else {
        assert((a + b).drop_last() =~= a + b.drop_last());
        lemma_occurrences_concat(a, b.drop_last(), c);
    }
}

proof fn lemma_occurrences_absent(s: Seq<char>, c: char)
    requires
        forall|i: int| 0 <= i < s.len() ==> s[i] != c,
    ensures
        occurrences(s, c) == 0,
    decreases s.len(),
{
    if s.len() > 0 {
        lemma_occurrences_absent(s.drop_last(), c);
    }
}

proof fn lemma_occurrences_one(x: char, c: char)
    ensures
        occurrences(seq![x], c) == if x == c { 1nat } else { 0nat },
{
    let s = seq![x];
    assert(s.drop_last() =~= Seq::<char>::empty());
    assert(occurrences(s.drop_last(), c) == 0);
    assert(s.last() == x);
}

/// Neither parenthesis occurs in `s`.
proof fn lemma_no_parens(s: Seq<char>)
    requires
        forall|i: int| 0 <= i < s.len() ==> s[i] != '(' && s[i] != ')',
    ensures
        occurrences(s, '(') == 0,
        occurrences(s, ')') == 0,
{
    lemma_occurrences_absent(s, '(');
    lemma_occurrences_absent(s, ')');
}

/// The printed text of a well-formed tree without string literals is balanced: it
/// holds one `(` and one `)` for each group, prefix and infix node.
pub proof fn lemma_print_balanced(e: ExprView)
    requires
        expr_wf(e),
        !has_string_literal(e),
    ensures
        occurrences(render(e), '(') == operator_nodes(e),
        occurrences(render(e), ')') == operator_nodes(e),
    decreases e,
{
    let open = seq!['('];
    let close = seq![')'];
    let space = seq![' '];
    lemma_occurrences_one('(', '(');
    lemma_occurrences_one('(', ')');
    lemma_occurrences_one(')', '(');
    lemma_occurrences_one(')', ')');
    lemma_no_parens(space);
    match e {
        ExprView::Literal(v) => {
            if let LiteralView::Number(t) = v {
                let p = choose|p: int|
                    0 < p < t.len() - 1 && t[p] == '.' && (forall|i: int|
                        0 <= i < t.len() && i != p ==> is_digit_char(#[trigger] t[i]));
                assert forall|i: int| 0 <= i < t.len() implies t[i] != '(' && t[i] != ')' by {
                    if i != p {
                        assert(is_digit_char(t[i]));
                    }
                }
            }
            lemma_no_parens(literal_text(v));
        },
        ExprView::Grouping(inner) => {
            lemma_print_balanced(*inner);
            let word = seq!['g', 'r', 'o', 'u', 'p', ' '];
            lemma_no_parens(word);
            let r = render(*inner);
            assert(render(e) =~= open + word + r + close);
            lemma_occurrences_concat(open, word, '(');
            lemma_occurrences_concat(open, word, ')');
            lemma_occurrences_concat(open + word, r, '(');
            lemma_occurrences_concat(open + word, r, ')');
            lemma_occurrences_concat(open + word + r, close, '(');
            lemma_occurrences_concat(open + word + r, close, ')');
        },
        ExprView::Unary(op, operand) => {
            lemma_print_balanced(*operand);
            let o = parse_text(op);
            lemma_no_parens(o);
            let r = render(*operand);
            assert(render(e) =~= open + o + space + r + close);
            lemma_occurrences_concat(open, o, '(');
            lemma_occurrences_concat(open, o, ')');
            lemma_occurrences_concat(open + o, space, '(');
            lemma_occurrences_concat(open + o, space, ')');
            lemma_occurrences_concat(open + o + space, r, '(');
            lemma_occurrences_concat(open + o + space, r, ')');
            lemma_occurrences_concat(open + o + space + r, close, '(');
            lemma_occurrences_concat(open + o + space + r, close, ')');
        },
        ExprView::Binary(left, op, right) => {
            lemma_print_balanced(*left);
            lemma_print_balanced(*right);
            let o = parse_text(op);
            lemma_no_parens(o);
            let l = render(*left);
            let r = render(*right);
            assert(render(e) =~= open + o + space + l + space + r + close);
            lemma_occurrences_concat(open, o, '(');
            lemma_occurrences_concat(open, o, ')');
            lemma_occurrences_concat(open + o, space, '(');
            lemma_occurrences_concat(open + o, space, ')');
            lemma_occurrences_concat(open + o + space, l, '(');
            lemma_occurrences_concat(open + o + space, l, ')');
            lemma_occurrences_concat(open + o + space + l, space, '(');
            lemma_occurrences_concat(open + o + space + l, space, ')');
            lemma_occurrences_concat(open + o + space + l + space, r, '(');
            lemma_occurrences_concat(open + o + space + l + space, r, ')');
            lemma_occurrences_concat(open + o + space + l + space + r, close, '(');
            lemma_occurrences_concat(open + o + space + l + space + r, close, ')');
        },
    }
}

} // verus!
