use vstd::prelude::*;

verus! {

/// The kinds of token the lexer produces.
#[derive(Debug, PartialEq, Eq, Clone, Copy, Structural)]
pub enum TokenType {
    LeftParen,
    RightParen,
    LeftBrace,
    RightBrace,
    Comma,
    Dot,
    Minus,
    Plus,
    Semicolon,
    Star,
    Slash,
    Bang,
    BangEqual,
    Equal,
    EqualEqual,
    Less,
    LessEqual,
    Greater,
    GreaterEqual,
    String,
    Number,
    Identifier,
    Eof,
    // Reserved words
    And,
    Class,
    Else,
    False,
    For,
    Fun,
    If,
    Nil,
    Or,
    Print,
    Return,
    Super,
    This,
    True,
    Var,
    While,
}

/// A token: its kind, the exact source text, and its literal form.
pub type Token = (TokenType, String, String);

/// The mathematical view of a token.
pub type TokenView = (TokenType, Seq<char>, Seq<char>);

pub open spec fn token_view(t: Token) -> TokenView {
    (t.0, t.1@, t.2@)
}

pub open spec fn tokens_view(ts: Seq<Token>) -> Seq<TokenView> {
    ts.map_values(|t: Token| token_view(t))
}

/// The end-marker token: empty lexeme, empty literal.
pub open spec fn eof_token() -> TokenView {
    (TokenType::Eof, Seq::empty(), Seq::empty())
}

/// A lexical error, with the line it was found on.
#[derive(Debug, PartialEq, Eq, Clone, Copy, Structural)]
pub enum LexError {
    UnexpectedCharacter { line: usize, character: char },
    UnterminatedString { line: usize },
}

// ---------------------------------------------------------------------------
// Character classes
// ---------------------------------------------------------------------------

pub open spec fn is_digit_char(c: char) -> bool {
    '0' <= c && c <= '9'
}

pub open spec fn is_ascii_letter(c: char) -> bool {
    ('a' <= c && c <= 'z') || ('A' <= c && c <= 'Z')
}

/// Whether `c` has the Unicode `Alphabetic` property.
pub uninterp spec fn unicode_alphabetic(c: char) -> bool;

/// Whether `c` is alphabetic in Unicode or in one of its number categories (`Nd`,
/// `Nl`, `No`).
pub uninterp spec fn unicode_alphanumeric(c: char) -> bool;

/// Alphabetic characters: on ASCII exactly the letters.
pub open spec fn alphabetic(c: char) -> bool {
    if (c as u32) < 128 {
        is_ascii_letter(c)
    } else {
        unicode_alphabetic(c)
    }
}

/// Alphanumeric characters: on ASCII exactly the letters and the digits.
pub open spec fn alphanumeric(c: char) -> bool {
    if (c as u32) < 128 {
        is_ascii_letter(c) || is_digit_char(c)
    } else {
        unicode_alphanumeric(c)
    }
}

/// Relies on `char::is_alphabetic`, whose ASCII branch accepts exactly `a-z` and `A-Z`.
#[verifier::external_body]
fn char_is_alphabetic(c: char) -> (r: bool)
    ensures
        (c as u32) < 128 ==> r == is_ascii_letter(c),
        (c as u32) >= 128 ==> r == unicode_alphabetic(c),
{
    c.is_alphabetic()
}

/// Relies on `char::is_alphanumeric`, whose ASCII branch accepts exactly letters and digits.
#[verifier::external_body]
fn char_is_alphanumeric(c: char) -> (r: bool)
    ensures
        (c as u32) < 128 ==> r == (is_ascii_letter(c) || is_digit_char(c)),
        (c as u32) >= 128 ==> r == unicode_alphanumeric(c),
{
    c.is_alphanumeric()
}

/// Characters that may start an identifier.
pub open spec fn is_alpha_char(c: char) -> bool {
    alphabetic(c) || c == '_'
}

/// Characters that may continue an identifier.
pub open spec fn is_alphanumeric_char(c: char) -> bool {
    alphanumeric(c) || c == '_'
}


// ---------------------------------------------------------------------------
// Names and symbols of token kinds
// ---------------------------------------------------------------------------

/// The fixed source text of a kind whose tokens always read the same
/// (punctuation, operators, reserved words); empty for the other kinds.
pub open spec fn symbol(k: TokenType) -> Seq<char> {
    match k {
        TokenType::LeftParen => seq!['('],
        TokenType::RightParen => seq![')'],
        TokenType::LeftBrace => seq!['{'],
        TokenType::RightBrace => seq!['}'],
        TokenType::Comma => seq![','],
        TokenType::Dot => seq!['.'],
        TokenType::Minus => seq!['-'],
        TokenType::Plus => seq!['+'],
        TokenType::Semicolon => seq![';'],
        TokenType::Star => seq!['*'],
        TokenType::Slash => seq!['/'],
        TokenType::Bang => seq!['!'],
        TokenType::BangEqual => seq!['!', '='],
        TokenType::Equal => seq!['='],
        TokenType::EqualEqual => seq!['=', '='],
        TokenType::Less => seq!['<'],
        TokenType::LessEqual => seq!['<', '='],
        TokenType::Greater => seq!['>'],
        TokenType::GreaterEqual => seq!['>', '='],
        TokenType::String => Seq::empty(),
        TokenType::Number => Seq::empty(),
        TokenType::Identifier => Seq::empty(),
        TokenType::Eof => Seq::empty(),
        TokenType::And => seq!['a', 'n', 'd'],
        TokenType::Class => seq!['c', 'l', 'a', 's', 's'],
        TokenType::Else => seq!['e', 'l', 's', 'e'],
        TokenType::False => seq!['f', 'a', 'l', 's', 'e'],
        TokenType::For => seq!['f', 'o', 'r'],
        TokenType::Fun => seq!['f', 'u', 'n'],
        TokenType::If => seq!['i', 'f'],
        TokenType::Nil => seq!['n', 'i', 'l'],
        TokenType::Or => seq!['o', 'r'],
        TokenType::Print => seq!['p', 'r', 'i', 'n', 't'],
        TokenType::Return => seq!['r', 'e', 't', 'u', 'r', 'n'],
        TokenType::Super => seq!['s', 'u', 'p', 'e', 'r'],
        TokenType::This => seq!['t', 'h', 'i', 's'],
        TokenType::True => seq!['t', 'r', 'u', 'e'],
        TokenType::Var => seq!['v', 'a', 'r'],
        TokenType::While => seq!['w', 'h', 'i', 'l', 'e'],
    }
}

/// The upper-case name of a kind, as shown when listing tokens.
pub open spec fn kind_name(k: TokenType) -> Seq<char> {
    match k {
        TokenType::LeftParen => "LEFT_PAREN"@,
        TokenType::RightParen => "RIGHT_PAREN"@,
        TokenType::LeftBrace => "LEFT_BRACE"@,
        TokenType::RightBrace => "RIGHT_BRACE"@,
        TokenType::Comma => "COMMA"@,
        TokenType::Dot => "DOT"@,
        TokenType::Minus => "MINUS"@,
        TokenType::Plus => "PLUS"@,
        TokenType::Semicolon => "SEMICOLON"@,
        TokenType::Star => "STAR"@,
        TokenType::Slash => "SLASH"@,
        TokenType::Bang => "BANG"@,
        TokenType::BangEqual => "BANG_EQUAL"@,
        TokenType::Equal => "EQUAL"@,
        TokenType::EqualEqual => "EQUAL_EQUAL"@,
        TokenType::Less => "LESS"@,
        TokenType::LessEqual => "LESS_EQUAL"@,
        TokenType::Greater => "GREATER"@,
        TokenType::GreaterEqual => "GREATER_EQUAL"@,
        TokenType::String => "STRING"@,
        TokenType::Number => "NUMBER"@,
        TokenType::Identifier => "IDENTIFIER"@,
        TokenType::Eof => "EOF"@,
        TokenType::And => "AND"@,
        TokenType::Class => "CLASS"@,
        TokenType::Else => "ELSE"@,
        TokenType::False => "FALSE"@,
        TokenType::For => "FOR"@,
        TokenType::Fun => "FUN"@,
        TokenType::If => "IF"@,
        TokenType::Nil => "NIL"@,
        TokenType::Or => "OR"@,
        TokenType::Print => "PRINT"@,
        TokenType::Return => "RETURN"@,
        TokenType::Super => "SUPER"@,
        TokenType::This => "THIS"@,
        TokenType::True => "TRUE"@,
        TokenType::Var => "VAR"@,
        TokenType::While => "WHILE"@,
    }
}

/// The text of a kind inside a printed tree: the operator's symbol, or a fixed name
/// for the kinds without one.
pub open spec fn parse_text(k: TokenType) -> Seq<char> {
    match k {
        TokenType::String => "String"@,
        TokenType::Number => "NUMBER"@,
        TokenType::Identifier => "Identifier"@,
        TokenType::Eof => "Eof"@,
        _ => symbol(k),
    }
}

/// A `String` holding exactly the characters of `cs`.
pub fn string_of(cs: &[char]) -> (r: String)
    ensures
        r@ == cs@,
{
    let mut s = String::new();
    let mut i: usize = 0;
    while i < cs.len()
        invariant
            i <= cs@.len(),
            s@ == cs@.take(i as int),
        decreases cs@.len() - i,
    {
        s.push(cs[i]);
        proof {
            assert(s@ =~= cs@.take(i + 1));
        }
        i = i + 1;
    }
    proof {
        assert(cs@.take(cs@.len() as int) =~= cs@);
    }
    s
}

impl TokenType {
    /// The fixed source text of this kind; empty for kinds without one.
    pub fn symbol(&self) -> (r: String)
        ensures
            r@ == symbol(*self),
    {
        match self {
            TokenType::LeftParen => string_of(&['(']),
            TokenType::RightParen => string_of(&[')']),
            TokenType::LeftBrace => string_of(&['{']),
            TokenType::RightBrace => string_of(&['}']),
            TokenType::Comma => string_of(&[',']),
            TokenType::Dot => string_of(&['.']),
            TokenType::Minus => string_of(&['-']),
            TokenType::Plus => string_of(&['+']),
            TokenType::Semicolon => string_of(&[';']),
            TokenType::Star => string_of(&['*']),
            TokenType::Slash => string_of(&['/']),
            TokenType::Bang => string_of(&['!']),
            TokenType::BangEqual => string_of(&['!', '=']),
            TokenType::Equal => string_of(&['=']),
            TokenType::EqualEqual => string_of(&['=', '=']),
            TokenType::Less => string_of(&['<']),
            TokenType::LessEqual => string_of(&['<', '=']),
            TokenType::Greater => string_of(&['>']),
            TokenType::GreaterEqual => string_of(&['>', '=']),
            TokenType::String => String::new(),
            TokenType::Number => String::new(),
            TokenType::Identifier => String::new(),
            TokenType::Eof => String::new(),
            TokenType::And => string_of(&['a', 'n', 'd']),
            TokenType::Class => string_of(&['c', 'l', 'a', 's', 's']),
            TokenType::Else => string_of(&['e', 'l', 's', 'e']),
            TokenType::False => string_of(&['f', 'a', 'l', 's', 'e']),
            TokenType::For => string_of(&['f', 'o', 'r']),
            TokenType::Fun => string_of(&['f', 'u', 'n']),
            TokenType::If => string_of(&['i', 'f']),
            TokenType::Nil => string_of(&['n', 'i', 'l']),
            TokenType::Or => string_of(&['o', 'r']),
            TokenType::Print => string_of(&['p', 'r', 'i', 'n', 't']),
            TokenType::Return => string_of(&['r', 'e', 't', 'u', 'r', 'n']),
            TokenType::Super => string_of(&['s', 'u', 'p', 'e', 'r']),
            TokenType::This => string_of(&['t', 'h', 'i', 's']),
            TokenType::True => string_of(&['t', 'r', 'u', 'e']),
            TokenType::Var => string_of(&['v', 'a', 'r']),
            TokenType::While => string_of(&['w', 'h', 'i', 'l', 'e']),
        }
    }

    /// The upper-case name of this kind, as shown when listing tokens.
    pub fn name(&self) -> (r: String)
        ensures
            r@ == kind_name(*self),
    {
        match self {
            TokenType::LeftParen => String::from_str("LEFT_PAREN"),
            TokenType::RightParen => String::from_str("RIGHT_PAREN"),
            TokenType::LeftBrace => String::from_str("LEFT_BRACE"),
            TokenType::RightBrace => String::from_str("RIGHT_BRACE"),
            TokenType::Comma => String::from_str("COMMA"),
            TokenType::Dot => String::from_str("DOT"),
            TokenType::Minus => String::from_str("MINUS"),
            TokenType::Plus => String::from_str("PLUS"),
            TokenType::Semicolon => String::from_str("SEMICOLON"),
            TokenType::Star => String::from_str("STAR"),
            TokenType::Slash => String::from_str("SLASH"),
            TokenType::Bang => String::from_str("BANG"),
            TokenType::BangEqual => String::from_str("BANG_EQUAL"),
            TokenType::Equal => String::from_str("EQUAL"),
            TokenType::EqualEqual => String::from_str("EQUAL_EQUAL"),
            TokenType::Less => String::from_str("LESS"),
            TokenType::LessEqual => String::from_str("LESS_EQUAL"),
            TokenType::Greater => String::from_str("GREATER"),
            TokenType::GreaterEqual => String::from_str("GREATER_EQUAL"),
            TokenType::String => String::from_str("STRING"),
            TokenType::Number => String::from_str("NUMBER"),
            TokenType::Identifier => String::from_str("IDENTIFIER"),
            TokenType::Eof => String::from_str("EOF"),
            TokenType::And => String::from_str("AND"),
            TokenType::Class => String::from_str("CLASS"),
            TokenType::Else => String::from_str("ELSE"),
            TokenType::False => String::from_str("FALSE"),
            TokenType::For => String::from_str("FOR"),
            TokenType::Fun => String::from_str("FUN"),
            TokenType::If => String::from_str("IF"),
            TokenType::Nil => String::from_str("NIL"),
            TokenType::Or => String::from_str("OR"),
            TokenType::Print => String::from_str("PRINT"),
            TokenType::Return => String::from_str("RETURN"),
            TokenType::Super => String::from_str("SUPER"),
            TokenType::This => String::from_str("THIS"),
            TokenType::True => String::from_str("TRUE"),
            TokenType::Var => String::from_str("VAR"),
            TokenType::While => String::from_str("WHILE"),
        }
    }

    /// The text of this kind inside a printed tree.
    pub fn to_string_for_parse(&self) -> (r: String)
        ensures
            r@ == parse_text(*self),
    {
        match self {
            TokenType::String => String::from_str("String"),
            TokenType::Number => String::from_str("NUMBER"),
            TokenType::Identifier => String::from_str("Identifier"),
            TokenType::Eof => String::from_str("Eof"),
            _ => self.symbol(),
        }
    }
}

/// The line that lists a token: its kind's name, its lexeme, and its literal for
/// strings and numbers or `null` for every other kind.
pub open spec fn token_line_spec(t: TokenView) -> Seq<char> {
    let shown = if t.0 == TokenType::String || t.0 == TokenType::Number {
        t.2
    } else {
        "null"@
    };
    kind_name(t.0) + seq![' '] + t.1 + seq![' '] + shown
}

/// Renders a token as one line of a token listing.
pub fn token_line(token: &Token) -> (r: String)
    ensures
        r@ == token_line_spec(token_view(*token)),
{
    let mut line = token.0.name();
    line.append(" ");
    line.append(token.1.as_str());
    line.append(" ");
    if token.0 == TokenType::String || token.0 == TokenType::Number {
        line.append(token.2.as_str());
    } else {
        line.append("null");
    }
    proof {
        reveal_strlit(" ");
        assert(" "@ =~= seq![' ']);
    }
    line
}

// ---------------------------------------------------------------------------
// The lexical grammar, one step at a time
// ---------------------------------------------------------------------------

/// The kind of a token that is always exactly one character long.
pub open spec fn single_char_kind(c: char) -> Option<TokenType> {
    if c == '(' {
        Some(TokenType::LeftParen)
    } else if c == ')' {
        Some(TokenType::RightParen)
    } else if c == '{' {
        Some(TokenType::LeftBrace)
    } else if c == '}' {
        Some(TokenType::RightBrace)
    } else if c == ',' {
        Some(TokenType::Comma)
    } else if c == '.' {
        Some(TokenType::Dot)
    } else if c == '-' {
        Some(TokenType::Minus)
    } else if c == '+' {
        Some(TokenType::Plus)
    } else if c == ';' {
        Some(TokenType::Semicolon)
    } else if c == '*' {
        Some(TokenType::Star)
    } else {
        None
    }
}

/// Characters that start a one- or two-character operator (`!`, `!=`, ...).
pub open spec fn is_operator_start(c: char) -> bool {
    c == '!' || c == '=' || c == '<' || c == '>'
}

/// The kind of an operator starting with `c`, two characters long when `with_equal`.
pub open spec fn operator_kind(c: char, with_equal: bool) -> TokenType {
    if c == '!' {
        if with_equal { TokenType::BangEqual } else { TokenType::Bang }
    } else if c == '=' {
        if with_equal { TokenType::EqualEqual } else { TokenType::Equal }
    } else if c == '<' {
        if with_equal { TokenType::LessEqual } else { TokenType::Less }
    } else {
        if with_equal { TokenType::GreaterEqual } else { TokenType::Greater }
    }
}

pub open spec fn is_whitespace_char(c: char) -> bool {
    c == ' ' || c == '\r' || c == '\t' || c == '\n'
}

pub open spec fn char_at_is(src: Seq<char>, i: int, c: char) -> bool {
    0 <= i < src.len() && src[i] == c
}

/// The first index at or after `i` that holds `c`, or the length when there is none.
pub open spec fn find_from(src: Seq<char>, i: int, c: char) -> int
    decreases src.len() - i,
{
    if i >= src.len() {
        src.len() as int
    } else if src[i] == c {
        i
    } else {
        find_from(src, i + 1, c)
    }
}

/// The end of the run of digits that starts at `i`.
pub open spec fn digits_end(src: Seq<char>, i: int) -> int
    decreases src.len() - i,
{
    if i >= src.len() || !is_digit_char(src[i]) {
        i
    } else {
        digits_end(src, i + 1)
    }
}

/// The end of the run of identifier characters that starts at `i`.
pub open spec fn ident_end(src: Seq<char>, i: int) -> int
    decreases src.len() - i,
{
    if i >= src.len() || !is_alphanumeric_char(src[i]) {
        i
    } else {
        ident_end(src, i + 1)
    }
}

/// The end of a number starting at `start`: digits, then optionally `.` and digits.
pub open spec fn number_end(src: Seq<char>, start: int) -> int {
    let a = digits_end(src, start);
    if char_at_is(src, a, '.') && a + 1 < src.len() && is_digit_char(src[a + 1]) {
        digits_end(src, a + 1)
    } else {
        a
    }
}

/// `s` without its trailing `0` characters.
pub open spec fn trim_zeros(s: Seq<char>) -> Seq<char>
    decreases s.len(),
{
    if s.len() > 0 && s.last() == '0' {
        trim_zeros(s.drop_last())
    } else {
        s
    }
}

/// The normalized literal of a number's text: always a fraction, with trailing
/// zeros trimmed but at least one fractional digit.
pub open spec fn number_literal(text: Seq<char>) -> Seq<char> {
    if text.contains('.') {
        let t = trim_zeros(text);
        if t.len() > 0 && t.last() == '.' {
            t.push('0')
        } else {
            t
        }
    } else {
        text + seq!['.', '0']
    }
}

/// The kind of an identifier-shaped word: a reserved word, or `Identifier`.
pub open spec fn keyword_kind(w: Seq<char>) -> TokenType {
    if w == seq!['a', 'n', 'd'] {
        TokenType::And
    } else if w == seq!['c', 'l', 'a', 's', 's'] {
        TokenType::Class
    } else if w == seq!['e', 'l', 's', 'e'] {
        TokenType::Else
    } else if w == seq!['f', 'a', 'l', 's', 'e'] {
        TokenType::False
    } else if w == seq!['f', 'o', 'r'] {
        TokenType::For
    } else if w == seq!['f', 'u', 'n'] {
        TokenType::Fun
    } else if w == seq!['i', 'f'] {
        TokenType::If
    } else if w == seq!['n', 'i', 'l'] {
        TokenType::Nil
    } else if w == seq!['o', 'r'] {
        TokenType::Or
    } else if w == seq!['p', 'r', 'i', 'n', 't'] {
        TokenType::Print
    } else if w == seq!['r', 'e', 't', 'u', 'r', 'n'] {
        TokenType::Return
    } else if w == seq!['s', 'u', 'p', 'e', 'r'] {
        TokenType::Super
    } else if w == seq!['t', 'h', 'i', 's'] {
        TokenType::This
    } else if w == seq!['t', 'r', 'u', 'e'] {
        TokenType::True
    } else if w == seq!['v', 'a', 'r'] {
        TokenType::Var
    } else if w == seq!['w', 'h', 'i', 'l', 'e'] {
        TokenType::While
    } else {
        TokenType::Identifier
    }
}

/// The number of newline characters in `s`.
pub open spec fn newlines(s: Seq<char>) -> nat
    decreases s.len(),
{
    if s.len() == 0 {
        0
    } else {
        newlines(s.drop_last()) + if s.last() == '\n' { 1nat } else { 0nat }
    }
}

/// The line that position `pos` of `src` lies on, counting from one.
pub open spec fn line_at(src: Seq<char>, pos: int) -> nat {
    1 + newlines(src.take(pos))
}

/// Where the lexical step that starts at `start` ends.
pub open spec fn step_end(src: Seq<char>, start: int) -> int {
    let c = src[start];
    if single_char_kind(c) is Some {
        start + 1
    } else if is_operator_start(c) {
        if char_at_is(src, start + 1, '=') {
            start + 2
        } else {
            start + 1
        }
    } else if c == '/' {
        if char_at_is(src, start + 1, '/') {
            find_from(src, start + 2, '\n')
        } else {
            start + 1
        }
    } else if c == '"' {
        let q = find_from(src, start + 1, '"');
        if q < src.len() {
            q + 1
        } else {
            src.len() as int
        }
    } else if is_whitespace_char(c) {
        start + 1
    } else if is_digit_char(c) {
        number_end(src, start)
    } else if is_alpha_char(c) {
        ident_end(src, start + 1)
    } else {
        start + 1
    }
}

/// The token that the lexical step at `start` emits, if any.
pub open spec fn step_token(src: Seq<char>, start: int) -> Option<TokenView> {
    let c = src[start];
    let end = step_end(src, start);
    let text = src.subrange(start, end);
    if single_char_kind(c) is Some {
        Some((single_char_kind(c)->0, text, text))
    } else if is_operator_start(c) {
        Some((operator_kind(c, end == start + 2), text, text))
    } else if c == '/' {
        if end == start + 1 {
            Some((TokenType::Slash, text, text))
        } else {
            None
        }
    } else if c == '"' {
        if find_from(src, start + 1, '"') < src.len() {
            Some((TokenType::String, text, src.subrange(start + 1, end - 1)))
        } else {
            None
        }
    } else if is_whitespace_char(c) {
        None
    } else if is_digit_char(c) {
        Some((TokenType::Number, text, number_literal(text)))
    } else if is_alpha_char(c) {
        Some((keyword_kind(text), text, text))
    } else {
        None
    }
}

/// The error that the lexical step at `start` records, if any.
pub open spec fn step_error(src: Seq<char>, start: int) -> Option<LexError> {
    let c = src[start];
    if single_char_kind(c) is Some || is_operator_start(c) || c == '/' || is_whitespace_char(c)
        || is_digit_char(c) || is_alpha_char(c) {
        None
    } else if c == '"' {
        if find_from(src, start + 1, '"') < src.len() {
            None
        } else {
            Some(LexError::UnterminatedString { line: line_at(src, src.len() as int) as usize })
        }
    } else {
        Some(
            LexError::UnexpectedCharacter {
                line: line_at(src, start + 1) as usize,
                character: c,
            },
        )
    }
}

pub open spec fn opt_cons<T>(o: Option<T>, s: Seq<T>) -> Seq<T> {
    match o {
        Some(t) => seq![t] + s,
        None => s,
    }
}

pub open spec fn opt_seq<T>(o: Option<T>) -> Seq<T> {
    match o {
        Some(t) => seq![t],
        None => Seq::empty(),
    }
}

/// The tokens and errors of `src` from position `pos` to the end (no end-marker).
pub open spec fn lex_from(src: Seq<char>, pos: int) -> (Seq<TokenView>, Seq<LexError>)
    decreases src.len() - pos,
{
    if pos < 0 || pos >= src.len() {
        (Seq::empty(), Seq::empty())
    } else {
        let next = step_end(src, pos);
        if next <= pos || next > src.len() {
            (Seq::empty(), Seq::empty())
        } else {
            let rest = lex_from(src, next);
            (opt_cons(step_token(src, pos), rest.0), opt_cons(step_error(src, pos), rest.1))
        }
    }
}

/// All tokens of `src`, followed by the end-marker.
pub open spec fn lex(src: Seq<char>) -> Seq<TokenView> {
    lex_from(src, 0).0.push(eof_token())
}

/// All lexical errors of `src`, in source order.
pub open spec fn lex_errors(src: Seq<char>) -> Seq<LexError> {
    lex_from(src, 0).1
}


// ---------------------------------------------------------------------------
// Facts about the lexical grammar
// ---------------------------------------------------------------------------

pub proof fn lemma_find_from_bounds(src: Seq<char>, i: int, c: char)
    requires
        0 <= i <= src.len(),
    ensures
        i <= find_from(src, i, c) <= src.len(),
        find_from(src, i, c) < src.len() ==> src[find_from(src, i, c)] == c,
    decreases src.len() - i,
{
    if i < src.len() && src[i] != c {
        lemma_find_from_bounds(src, i + 1, c);
    }
}

pub proof fn lemma_digits_end_bounds(src: Seq<char>, i: int)
    requires
        0 <= i <= src.len(),
    ensures
        i <= digits_end(src, i) <= src.len(),
        forall|j: int| i <= j < digits_end(src, i) ==> is_digit_char(#[trigger] src[j]),
    decreases src.len() - i,
{
    if i < src.len() && is_digit_char(src[i]) {
        lemma_digits_end_bounds(src, i + 1);
    }
}

pub proof fn lemma_ident_end_bounds(src: Seq<char>, i: int)
    requires
        0 <= i <= src.len(),
    ensures
        i <= ident_end(src, i) <= src.len(),
        forall|j: int| i <= j < ident_end(src, i) ==> is_alphanumeric_char(#[trigger] src[j]),
    decreases src.len() - i,
{
    if i < src.len() && is_alphanumeric_char(src[i]) {
        lemma_ident_end_bounds(src, i + 1);
    }
}

/// Every lexical step makes progress and stays within the source.
pub proof fn lemma_step_end_bounds(src: Seq<char>, start: int)
    requires
        0 <= start < src.len(),
    ensures
        start < step_end(src, start) <= src.len(),
{
    lemma_find_from_bounds(src, start + 1, '"');
    if start + 2 <= src.len() {
        lemma_find_from_bounds(src, start + 2, '\n');
    }
    lemma_digits_end_bounds(src, start);
    lemma_digits_end_bounds(src, start + 1);
    let a = digits_end(src, start);
    if a + 1 < src.len() {
        lemma_digits_end_bounds(src, a + 1);
    }
    lemma_ident_end_bounds(src, start + 1);
}

pub proof fn lemma_newlines_step(src: Seq<char>, i: int)
    requires
        0 <= i < src.len(),
    ensures
        newlines(src.take(i + 1)) == newlines(src.take(i)) + if src[i] == '\n' { 1nat } else { 0nat },
{
    assert(src.take(i + 1).drop_last() =~= src.take(i));
}

pub proof fn lemma_newlines_bound(s: Seq<char>)
    ensures
        newlines(s) <= s.len(),
    decreases s.len(),
{
    if s.len() > 0 {
        lemma_newlines_bound(s.drop_last());
    }
}

pub proof fn lemma_trim_zeros(s: Seq<char>, k: int)
    requires
        0 <= k <= s.len(),
        forall|j: int| k <= j < s.len() ==> s[j] == '0',
        k == 0 || s[k - 1] != '0',
    ensures
        trim_zeros(s) == s.take(k),
    decreases s.len(),
{
    if s.len() > k {
        lemma_trim_zeros(s.drop_last(), k);
        assert(s.drop_last().take(k) =~= s.take(k));
    } else {
        assert(s.take(k) =~= s);
    }
}

pub proof fn lemma_lex_no_eof(src: Seq<char>, pos: int)
    ensures
        forall|i: int| 0 <= i < lex_from(src, pos).0.len() ==> (#[trigger] lex_from(src, pos).0[i]).0
            != TokenType::Eof,
    decreases src.len() - pos,
{
    if 0 <= pos < src.len() {
        let next = step_end(src, pos);
        if next > pos && next <= src.len() {
            lemma_lex_no_eof(src, next);
            let rest = lex_from(src, next).0;
            let all = lex_from(src, pos).0;
            match step_token(src, pos) {
                Some(t) => {
                    assert forall|i: int| 0 <= i < all.len() implies (#[trigger] all[i]).0
                        != TokenType::Eof by {
                        if i > 0 {
                            assert(all[i] == rest[i - 1]);
                        }
                    }
                },
                None => {},
            }
        }
    }
}

// ---------------------------------------------------------------------------
// Laws of the lexer
// ---------------------------------------------------------------------------

/// Punctuation and operator kinds: tokens of one or two fixed characters.
pub open spec fn is_punctuation(k: TokenType) -> bool {
    k == TokenType::LeftParen || k == TokenType::RightParen || k == TokenType::LeftBrace || k
        == TokenType::RightBrace || k == TokenType::Comma || k == TokenType::Dot || k
        == TokenType::Minus || k == TokenType::Plus || k == TokenType::Semicolon || k
        == TokenType::Star || k == TokenType::Slash || k == TokenType::Bang || k
        == TokenType::BangEqual || k == TokenType::Equal || k == TokenType::EqualEqual || k
        == TokenType::Less || k == TokenType::LessEqual || k == TokenType::Greater || k
        == TokenType::GreaterEqual
}

/// The source text that spells the symbols `ks` one after the other.
pub open spec fn symbols_text(ks: Seq<TokenType>) -> Seq<char>
    decreases ks.len(),
{
    if ks.len() == 0 {
        Seq::empty()
    } else {
        symbol(ks[0]) + symbols_text(ks.drop_first())
    }
}

/// Whether symbol `a` followed by symbol `b` would read as something else:
/// `!`, `=`, `<` or `>` before a symbol that starts with `=`, or `/` before `/`.
pub open spec fn symbols_merge(a: TokenType, b: TokenType) -> bool {
    ((a == TokenType::Bang || a == TokenType::Equal || a == TokenType::Less || a
        == TokenType::Greater) && (b == TokenType::Equal || b == TokenType::EqualEqual)) || (a
        == TokenType::Slash && b == TokenType::Slash)
}

/// The token that a symbol of kind `k` reads as.
pub open spec fn symbol_token(k: TokenType) -> TokenView {
    (k, symbol(k), symbol(k))
}

proof fn lemma_symbols_from(src: Seq<char>, pos: int, ks: Seq<TokenType>)
    requires
        0 <= pos <= src.len(),
        src.subrange(pos, src.len() as int) == symbols_text(ks),
        forall|i: int| 0 <= i < ks.len() ==> is_punctuation(#[trigger] ks[i]),
        forall|i: int| 0 <= i < ks.len() - 1 ==> !symbols_merge(#[trigger] ks[i], ks[i + 1]),
    ensures
        lex_from(src, pos).0 == ks.map_values(|k: TokenType| symbol_token(k)),
        lex_from(src, pos).1 == Seq::<LexError>::empty(),
    decreases ks.len(),
{
    let toks = ks.map_values(|k: TokenType| symbol_token(k));
    if ks.len() == 0 {
        assert(toks =~= Seq::<TokenView>::empty());
    } else {
        let k = ks[0];
        let sym = symbol(k);
        let rest = ks.drop_first();
        let n = sym.len() as int;
        assert(is_punctuation(k));
        assert(1 <= n <= 2);
        let whole = src.subrange(pos, src.len() as int);
        assert(whole == sym + symbols_text(rest));
        assert(whole.len() == n + symbols_text(rest).len());
        assert(pos + n <= src.len());
        assert(src[pos] == sym[0]) by {
            assert(src.subrange(pos, src.len() as int)[0] == src[pos]);
        }
        if n == 2 {
            assert(src[pos + 1] == sym[1]) by {
                assert(src.subrange(pos, src.len() as int)[1] == src[pos + 1]);
            }
        } else if pos + 1 < src.len() {
            assert(rest.len() > 0);
            assert(!symbols_merge(ks[0], ks[1]));
            assert(is_punctuation(rest[0]));
            assert(symbols_text(rest) == symbol(rest[0]) + symbols_text(rest.drop_first()));
            assert(src[pos + 1] == symbol(rest[0])[0]) by {
                assert(src.subrange(pos, src.len() as int)[1] == src[pos + 1]);
            }
        }
        assert(step_end(src, pos) == pos + n);
        assert(step_token(src, pos) == Some(symbol_token(k))) by {
            assert(src.subrange(pos, pos + n) =~= sym);
        }
        assert(step_error(src, pos) is None);
        assert forall|i: int| 0 <= i < src.len() - (pos + n) implies #[trigger] src.subrange(
            pos + n,
            src.len() as int,
        )[i] == symbols_text(rest)[i] by {
            assert(whole[n + i] == src[pos + n + i]);
            assert((sym + symbols_text(rest))[n + i] == symbols_text(rest)[i]);
        }
        assert(src.subrange(pos + n, src.len() as int) =~= symbols_text(rest));
        assert forall|i: int| 0 <= i < rest.len() - 1 implies !symbols_merge(
            #[trigger] rest[i],
            rest[i + 1],
        ) by {
            assert(rest[i] == ks[i + 1]);
            assert(rest[i + 1] == ks[i + 2]);
        }
        lemma_symbols_from(src, pos + n, rest);
        assert(toks =~= seq![symbol_token(k)] + rest.map_values(|k: TokenType| symbol_token(k)));
    }
}

/// Lexing a text made only of punctuation and operator symbols gives one token per
/// symbol, in source order, then the end-marker; no error is recorded.
pub proof fn lemma_punctuation_tokens(ks: Seq<TokenType>)
    requires
        forall|i: int| 0 <= i < ks.len() ==> is_punctuation(#[trigger] ks[i]),
        forall|i: int| 0 <= i < ks.len() - 1 ==> !symbols_merge(#[trigger] ks[i], ks[i + 1]),
    ensures
        lex(symbols_text(ks)) == ks.map_values(|k: TokenType| symbol_token(k)).push(eof_token()),
        lex(symbols_text(ks)).len() == ks.len() + 1,
        lex_errors(symbols_text(ks)) == Seq::<LexError>::empty(),
{
    let src = symbols_text(ks);
    assert(src.subrange(0, src.len() as int) =~= src);
    lemma_symbols_from(src, 0, ks);
}

/// The token sequence of any source is never empty and holds exactly one
/// end-marker, as its last token.
pub proof fn lemma_one_end_marker(src: Seq<char>)
    ensures
        lex(src).len() >= 1,
        lex(src).last() == eof_token(),
        forall|i: int| 0 <= i < lex(src).len() - 1 ==> (#[trigger] lex(src)[i]).0 != TokenType::Eof,
{
    lemma_lex_no_eof(src, 0);
    assert forall|i: int| 0 <= i < lex(src).len() - 1 implies (#[trigger] lex(src)[i]).0
        != TokenType::Eof by {
        assert(lex(src)[i] == lex_from(src, 0).0[i]);
    }
}

/// A string whose closing quote never comes gives no token and exactly one
/// unterminated-string error, on the last line; lexing ends there.
pub proof fn lemma_unterminated_string(src: Seq<char>, j: int)
    requires
        0 <= j < src.len(),
        src[j] == '"',
        find_from(src, j + 1, '"') == src.len(),
    ensures
        lex_from(src, j).0 == Seq::<TokenView>::empty(),
        lex_from(src, j).1 == seq![
            LexError::UnterminatedString { line: line_at(src, src.len() as int) as usize },
        ],
{
    assert(step_end(src, j) == src.len());
    assert(lex_from(src, src.len() as int).0 =~= Seq::<TokenView>::empty());
    assert(lex_from(src, j).0 =~= Seq::<TokenView>::empty());
    assert(lex_from(src, j).1 =~= seq![
        LexError::UnterminatedString { line: line_at(src, src.len() as int) as usize },
    ]);
}

// ---------------------------------------------------------------------------
// The scanner
// ---------------------------------------------------------------------------

/// The characters of `s`, in order.
fn chars_of(s: &str) -> (r: Vec<char>)
    ensures
        r@ == s@,
{
    let mut v: Vec<char> = Vec::new();
    for c in it: s.chars()
        invariant
            v@ == s@.take(it.index() as int),
            it.seq() == s@,
    {
        v.push(c);
    }
    v
}

/// Relies on `String::push`: appends one character to the end of the string.
pub assume_specification[ std::string::String::push ](s: &mut std::string::String, c: char)
    ensures
        final(s)@ == old(s)@.push(c),
;

/// A single-pass lexer over a source text.
pub struct Scanner {
    source: Vec<char>,
    tokens: Vec<Token>,
    errors: Vec<LexError>,
    start: usize,
    current: usize,
    line: usize,
    pub has_errors: bool,
}

impl Scanner {
    /// The source text, as characters.
    pub closed spec fn source_view(&self) -> Seq<char> {
        self.source@
    }

    /// The value of the public `has_errors` flag.
    pub closed spec fn error_flag(&self) -> bool {
        self.has_errors
    }

    /// The lexical errors recorded so far.
    pub closed spec fn errors_view(&self) -> Seq<LexError> {
        self.errors@
    }

    /// The tokens produced so far.
    pub closed spec fn tokens_so_far(&self) -> Seq<TokenView> {
        tokens_view(self.tokens@)
    }

    /// Scanning is under way at `current`: what was produced so far, followed by what
    /// the rest of the source yields, is what the whole source yields.
    closed spec fn in_progress(&self) -> bool {
        let src = self.source@;
        &&& src.len() < usize::MAX
        &&& self.current <= src.len()
        &&& self.line == line_at(src, self.current as int)
        &&& tokens_view(self.tokens@) + lex_from(src, self.current as int).0 == lex_from(src, 0).0
        &&& self.errors@ + lex_from(src, self.current as int).1 == lex_errors(src)
    }

    /// Scanning is complete: the whole token sequence, end-marker included, is there.
    closed spec fn finished(&self) -> bool {
        let src = self.source@;
        &&& src.len() < usize::MAX
        &&& self.current == src.len()
        &&& tokens_view(self.tokens@) == lex(src)
        &&& self.errors@ == lex_errors(src)
    }

    pub closed spec fn well_formed(&self) -> bool {
        self.in_progress() || self.finished()
    }

    /// All fields but the cursor are as in `other`.
    closed spec fn same_but_cursor(&self, other: &Scanner) -> bool {
        &&& self.source == other.source
        &&& self.tokens == other.tokens
        &&& self.errors == other.errors
        &&& self.start == other.start
        &&& self.line == other.line
        &&& self.has_errors == other.has_errors
    }

    pub fn new(source: &str) -> (s: Scanner)
        requires
            source@.len() < usize::MAX,
        ensures
            s.well_formed(),
            s.source_view() == source@,
            s.tokens_so_far() == Seq::<TokenView>::empty(),
            s.errors_view() == Seq::<LexError>::empty(),
            !s.error_flag(),
    {
        let chars = chars_of(source);
        let s = Scanner {
            source: chars,
            tokens: Vec::new(),
            errors: Vec::new(),
            start: 0,
            current: 0,
            line: 1,
            has_errors: false,
        };
        proof {
            assert(s.source@.take(0) =~= Seq::<char>::empty());
            assert(tokens_view(s.tokens@) =~= Seq::<TokenView>::empty());
            assert(tokens_view(s.tokens@) + lex_from(s.source@, 0).0 =~= lex_from(s.source@, 0).0);
            assert(s.errors@ + lex_from(s.source@, 0).1 =~= lex_errors(s.source@));
        }
        s
    }

    /// Scans the whole source and returns its tokens, ending in one end-marker.
    pub fn scan_tokens(&mut self) -> (r: &Vec<Token>)
        requires
            old(self).well_formed(),
        ensures
            final(self).well_formed(),
            final(self).source_view() == old(self).source_view(),
            tokens_view(r@) == lex(old(self).source_view()),
            final(self).tokens_so_far() == lex(old(self).source_view()),
            final(self).errors_view() == lex_errors(old(self).source_view()),
            final(self).error_flag() == (old(self).error_flag() || final(self).errors_view().len()
                > old(self).errors_view().len()),
    {
        let ghost src = self.source@;
        let ghost errors0 = self.errors@.len();
        while !self.is_at_end()
            invariant
                self.well_formed(),
                self.source@ == src,
                self.errors@.len() >= errors0,
                self.has_errors == (old(self).has_errors || self.errors@.len() > errors0),
            decreases src.len() - self.current,
        {
            let ghost before = *self;
            self.start = self.current;
            self.scan_token();
            proof {
                let pos = before.current as int;
                lemma_step_end_bounds(src, pos);
                let rest = lex_from(src, step_end(src, pos));
                assert(lex_from(src, pos).0 == opt_cons(step_token(src, pos), rest.0));
                assert(lex_from(src, pos).1 == opt_cons(step_error(src, pos), rest.1));
                match step_token(src, pos) {
                    Some(t) => {
                        assert(tokens_view(self.tokens@) =~= tokens_view(before.tokens@).push(t));
                        assert(tokens_view(self.tokens@) + rest.0 =~= tokens_view(before.tokens@)
                            + lex_from(src, pos).0);
                    },
                    None => {
                        assert(tokens_view(self.tokens@) =~= tokens_view(before.tokens@));
                    },
                }
                match step_error(src, pos) {
                    Some(e) => {
                        assert(self.errors@ + rest.1 =~= before.errors@ + lex_from(src, pos).1);
                    },
                    None => {
                        assert(self.errors@ =~= before.errors@);
                    },
                }
            }
        }
        // Add the end-marker, unless an earlier call already did.
        let n = self.tokens.len();
        if n == 0 || self.tokens[n - 1].0 != TokenType::Eof {
            proof {
                // A finished scan already ends in the end-marker.
                if self.finished() {
                    assert(lex(src)[lex(src).len() - 1] == eof_token());
                    assert(tokens_view(self.tokens@).len() == n);
                    assert(tokens_view(self.tokens@)[n - 1] == token_view(self.tokens@[n - 1]));
                    assert(false);
                }
                assert(lex_from(src, self.current as int).0 =~= Seq::<TokenView>::empty());
                assert(lex_from(src, self.current as int).1 =~= Seq::<LexError>::empty());
                assert(tokens_view(self.tokens@) =~= lex_from(src, 0).0);
                assert(self.errors@ =~= lex_errors(src));
            }
            let eof: Token = (TokenType::Eof, String::new(), String::new());
            let ghost before = self.tokens@;
            self.tokens.push(eof);
            proof {
                assert(tokens_view(self.tokens@) =~= tokens_view(before).push(token_view(eof)));
                assert(token_view(eof) == eof_token());
            }
        } else {
            proof {
                // A scan under way has produced no end-marker.
                if !self.finished() {
                    assert(lex_from(src, self.current as int).0 =~= Seq::<TokenView>::empty());
                    assert(tokens_view(self.tokens@) =~= lex_from(src, 0).0);
                    lemma_lex_no_eof(src, 0);
                    assert(tokens_view(self.tokens@)[n - 1] == token_view(self.tokens@[n - 1]));
                    assert(false);
                }
            }
        }
        &self.tokens
    }

    /// Reads the public `has_errors` flag, so that verified callers can relate it to
    /// `error_flag`, which the contracts speak of.
    pub fn has_errors(&self) -> (r: bool)
        ensures
            r == self.error_flag(),
    {
        self.has_errors
    }

    /// The lexical errors recorded so far, in source order.
    pub fn errors(&self) -> (r: &Vec<LexError>)
        ensures
            r@ == self.errors_view(),
    {
        &self.errors
    }

    /// The tokens produced, handed over.
    pub fn into_tokens(self) -> (r: Vec<Token>)
        ensures
            tokens_view(r@) == self.tokens_so_far(),
    {
        self.tokens
    }

    fn scan_token(&mut self)
        requires
            old(self).in_progress(),
            old(self).current < old(self).source@.len(),
            old(self).start == old(self).current,
        ensures
            final(self).source == old(self).source,
            final(self).current == step_end(old(self).source@, old(self).current as int),
            final(self).line == line_at(old(self).source@, final(self).current as int),
            tokens_view(final(self).tokens@) == tokens_view(old(self).tokens@) + opt_seq(
                step_token(old(self).source@, old(self).current as int),
            ),
            final(self).errors@ == old(self).errors@ + opt_seq(
                step_error(old(self).source@, old(self).current as int),
            ),
            final(self).has_errors == (old(self).has_errors || step_error(
                old(self).source@,
                old(self).current as int,
            ) is Some),
    {
        let ghost src = self.source@;
        let ghost start = self.start as int;
        let ghost tokens0 = tokens_view(self.tokens@);
        let ghost errors0 = self.errors@;
        proof {
            lemma_newlines_step(src, start);
            lemma_newlines_bound(src.take(start));
            lemma_step_end_bounds(src, start);
        }
        let c = match self.advance() {
            Some(c) => c,
            None => '\0',
        };
        match c {
            '(' => self.add_token(TokenType::LeftParen),
            ')' => self.add_token(TokenType::RightParen),
            '{' => self.add_token(TokenType::LeftBrace),
            '}' => self.add_token(TokenType::RightBrace),
            ',' => self.add_token(TokenType::Comma),
            '.' => self.add_token(TokenType::Dot),
            '-' => self.add_token(TokenType::Minus),
            '+' => self.add_token(TokenType::Plus),
            ';' => self.add_token(TokenType::Semicolon),
            '*' => self.add_token(TokenType::Star),
            '/' => {
                if self.match_char('/') {
                    // A comment goes until the end of the line.
                    proof {
                        lemma_find_from_bounds(src, start + 2, '\n');
                        lemma_newlines_step(src, start + 1);
                    }
                    while !self.peek_is('\n') && !self.is_at_end()
                        invariant
                            self.source@ == src,
                            self.source == old(self).source,
                            src.len() < usize::MAX,
                            start + 2 <= self.current <= src.len(),
                            find_from(src, self.current as int, '\n') == find_from(src, start + 2, '\n'),
                            self.line == line_at(src, self.current as int),
                            self.tokens == old(self).tokens,
                            self.errors == old(self).errors,
                            self.has_errors == old(self).has_errors,
                        decreases src.len() - self.current,
                    {
                        proof {
                            lemma_newlines_step(src, self.current as int);
                        }
                        self.advance();
                    }
                } else {
                    self.add_token(TokenType::Slash);
                }
            },
            '!' => {
                let token_type = if self.match_char('=') {
                    TokenType::BangEqual
                } else {
                    TokenType::Bang
                };
                proof {
                    if start + 1 < src.len() {
                        lemma_newlines_step(src, start + 1);
                    }
                }
                self.add_token(token_type);
            },
            '=' => {
                let token_type = if self.match_char('=') {
                    TokenType::EqualEqual
                } else {
                    TokenType::Equal
                };
                proof {
                    if start + 1 < src.len() {
                        lemma_newlines_step(src, start + 1);
                    }
                }
                self.add_token(token_type);
            },
            '<' => {
                let token_type = if self.match_char('=') {
                    TokenType::LessEqual
                } else {
                    TokenType::Less
                };
                proof {
                    if start + 1 < src.len() {
                        lemma_newlines_step(src, start + 1);
                    }
                }
                self.add_token(token_type);
            },
            '>' => {
                let token_type = if self.match_char('=') {
                    TokenType::GreaterEqual
                } else {
                    TokenType::Greater
                };
                proof {
                    if start + 1 < src.len() {
                        lemma_newlines_step(src, start + 1);
                    }
                }
                self.add_token(token_type);
            },
            '"' => self.string(),
            ' ' | '\r' | '\t' => {},
            '\n' => {
                self.line = self.line + 1;
            },
            _ => {
                if self.is_digit(c) {
                    self.number();
                } else if self.is_alpha(c) {
                    self.identifier();
                } else {
                    self.report_error(c);
                    self.has_errors = true;
                }
            },
        }
        proof {
            assert(tokens0 + opt_seq(step_token(src, start)) =~= tokens_view(self.tokens@));
            assert(errors0 + opt_seq(step_error(src, start)) =~= self.errors@);
        }
    }

    fn advance(&mut self) -> (r: Option<char>)
        requires
            old(self).current <= old(self).source@.len() < usize::MAX,
        ensures
            final(self).same_but_cursor(old(self)),
            old(self).current < old(self).source@.len() ==> r == Some(
                old(self).source@[old(self).current as int],
            ) && final(self).current == old(self).current + 1,
            old(self).current >= old(self).source@.len() ==> r is None && final(self).current
                == old(self).current,
    {
        if self.is_at_end() {
            None
        } else {
            let c = self.source[self.current];
            self.current = self.current + 1;
            Some(c)
        }
    }

    fn match_char(&mut self, expected: char) -> (r: bool)
        requires
            old(self).current <= old(self).source@.len() < usize::MAX,
        ensures
            final(self).same_but_cursor(old(self)),
            r == char_at_is(old(self).source@, old(self).current as int, expected),
            final(self).current == old(self).current + if r { 1int } else { 0int },
    {
        if self.peek_is(expected) {
            self.current = self.current + 1;
            return true;
        }
        false
    }

    fn peek(&self) -> (r: Option<char>)
        ensures
            self.current < self.source@.len() ==> r == Some(self.source@[self.current as int]),
            self.current >= self.source@.len() ==> r is None,
    {
        if self.is_at_end() {
            None
        } else {
            Some(self.source[self.current])
        }
    }

    fn peek_next(&self) -> (r: Option<char>)
        requires
            self.current < usize::MAX,
        ensures
            self.current + 1 < self.source@.len() ==> r == Some(self.source@[self.current + 1]),
            self.current + 1 >= self.source@.len() ==> r is None,
    {
        if self.current + 1 >= self.source.len() {
            None
        } else {
            Some(self.source[self.current + 1])
        }
    }

    /// Whether the next character is `expected`.
    fn peek_is(&self, expected: char) -> (r: bool)
        ensures
            r == char_at_is(self.source@, self.current as int, expected),
    {
        match self.peek() {
            Some(c) => c == expected,
            None => false,
        }
    }

    /// The characters of the source between `from` and `to`, as a `String`.
    fn text(&self, from: usize, to: usize) -> (r: String)
        requires
            from <= to <= self.source@.len(),
        ensures
            r@ == self.source@.subrange(from as int, to as int),
    {
        let mut s = String::new();
        let mut i = from;
        while i < to
            invariant
                from <= i <= to <= self.source@.len(),
                s@ == self.source@.subrange(from as int, i as int),
            decreases to - i,
        {
            s.push(self.source[i]);
            proof {
                assert(s@ =~= self.source@.subrange(from as int, i + 1));
            }
            i = i + 1;
        }
        s
    }

    fn add_token(&mut self, token_type: TokenType)
        requires
            old(self).start <= old(self).current <= old(self).source@.len(),
        ensures
            final(self).source == old(self).source,
            final(self).current == old(self).current,
            final(self).line == old(self).line,
            final(self).errors == old(self).errors,
            final(self).has_errors == old(self).has_errors,
            tokens_view(final(self).tokens@) == tokens_view(old(self).tokens@).push(
                (
                    token_type,
                    old(self).source@.subrange(old(self).start as int, old(self).current as int),
                    old(self).source@.subrange(old(self).start as int, old(self).current as int),
                ),
            ),
    {
        let text = self.text(self.start, self.current);
        self.add_token_with_literal(token_type, text.clone(), text);
    }

    fn add_token_with_literal(&mut self, token_type: TokenType, lexeme: String, literal: String)
        ensures
            final(self).source == old(self).source,
            final(self).current == old(self).current,
            final(self).line == old(self).line,
            final(self).errors == old(self).errors,
            final(self).has_errors == old(self).has_errors,
            tokens_view(final(self).tokens@) == tokens_view(old(self).tokens@).push(
                (token_type, lexeme@, literal@),
            ),
    {
        let ghost before = self.tokens@;
        self.tokens.push((token_type, lexeme, literal));
        proof {
            assert(tokens_view(self.tokens@) =~= tokens_view(before).push(
                (token_type, lexeme@, literal@),
            ));
        }
    }

    fn is_at_end(&self) -> (r: bool)
        ensures
            r == (self.current >= self.source@.len()),
    {
        self.current >= self.source.len()
    }

    /// Records an unexpected character at the current line.
    fn report_error(&mut self, c: char)
        ensures
            final(self).source == old(self).source,
            final(self).current == old(self).current,
            final(self).line == old(self).line,
            final(self).tokens == old(self).tokens,
            final(self).has_errors == old(self).has_errors,
            final(self).errors@ == old(self).errors@.push(
                LexError::UnexpectedCharacter { line: old(self).line, character: c },
            ),
    {
        self.errors.push(LexError::UnexpectedCharacter { line: self.line, character: c });
    }

    fn string(&mut self)
        requires
            old(self).in_progress_at_start(),
            old(self).source@[old(self).start as int] == '"',
        ensures
            final(self).source == old(self).source,
            final(self).current == step_end(old(self).source@, old(self).start as int),
            final(self).line == line_at(old(self).source@, final(self).current as int),
            tokens_view(final(self).tokens@) == tokens_view(old(self).tokens@) + opt_seq(
                step_token(old(self).source@, old(self).start as int),
            ),
            final(self).errors@ == old(self).errors@ + opt_seq(
                step_error(old(self).source@, old(self).start as int),
            ),
            final(self).has_errors == (old(self).has_errors || step_error(
                old(self).source@,
                old(self).start as int,
            ) is Some),
    {
        let ghost src = self.source@;
        let ghost start = self.start as int;
        proof {
            lemma_find_from_bounds(src, start + 1, '"');
        }
        while !self.peek_is('"') && !self.is_at_end()
            invariant
                self.source@ == src,
                self.source == old(self).source,
                self.start == start,
                start + 1 <= self.current <= src.len() < usize::MAX,
                find_from(src, self.current as int, '"') == find_from(src, start + 1, '"'),
                self.line == line_at(src, self.current as int),
                self.tokens == old(self).tokens,
                self.errors == old(self).errors,
                self.has_errors == old(self).has_errors,
            decreases src.len() - self.current,
        {
            proof {
                lemma_newlines_step(src, self.current as int);
                lemma_newlines_bound(src.take(self.current + 1));
            }
            if self.peek_is('\n') {
                self.line = self.line + 1;
            }
            self.advance();
        }
        if self.is_at_end() {
            self.errors.push(LexError::UnterminatedString { line: self.line });
            self.has_errors = true;
            proof {
                assert(opt_seq(step_token(src, start)) =~= Seq::<TokenView>::empty());
                assert(tokens_view(self.tokens@) =~= tokens_view(old(self).tokens@) + opt_seq(
                    step_token(src, start),
                ));
            }
            return;
        }
        proof {
            lemma_newlines_step(src, self.current as int);
        }
        // The closing ".
        self.advance();
        // Trim the surrounding quotes.
        let value = self.text(self.start + 1, self.current - 1);
        let lexeme = self.text(self.start, self.current);
        self.add_token_with_literal(TokenType::String, lexeme, value);
        proof {
            assert(old(self).errors@ + opt_seq(step_error(src, start)) =~= self.errors@);
        }
    }

    /// Scanning one token is under way: its first character was consumed.
    closed spec fn in_progress_at_start(&self) -> bool {
        &&& self.source@.len() < usize::MAX
        &&& self.start < self.source@.len()
        &&& self.current == self.start + 1
        &&& self.line == line_at(self.source@, self.current as int)
    }

    fn next_is_digit(&self) -> (r: bool)
        ensures
            r == (self.current < self.source@.len() && is_digit_char(
                self.source@[self.current as int],
            )),
    {
        match self.peek() {
            Some(c) => self.is_digit(c),
            None => false,
        }
    }

    fn number(&mut self)
        requires
            old(self).in_progress_at_start(),
            is_digit_char(old(self).source@[old(self).start as int]),
        ensures
            final(self).source == old(self).source,
            final(self).current == number_end(old(self).source@, old(self).start as int),
            final(self).line == line_at(old(self).source@, final(self).current as int),
            final(self).errors == old(self).errors,
            final(self).has_errors == old(self).has_errors,
            tokens_view(final(self).tokens@) == tokens_view(old(self).tokens@).push(
                (
                    TokenType::Number,
                    old(self).source@.subrange(old(self).start as int, final(self).current as int),
                    number_literal(
                        old(self).source@.subrange(
                            old(self).start as int,
                            final(self).current as int,
                        ),
                    ),
                ),
            ),
    {
        let ghost src = self.source@;
        let ghost start = self.start as int;
        proof {
            lemma_digits_end_bounds(src, start);
        }
        while self.next_is_digit()
            invariant
                self.source@ == src,
                self.source == old(self).source,
                self.start == start,
                start + 1 <= self.current <= src.len() < usize::MAX,
                digits_end(src, self.current as int) == digits_end(src, start),
                self.line == line_at(src, self.current as int),
                self.tokens == old(self).tokens,
                self.errors == old(self).errors,
                self.has_errors == old(self).has_errors,
            decreases src.len() - self.current,
        {
            proof {
                lemma_newlines_step(src, self.current as int);
            }
            self.advance();
        }
        let ghost a = self.current as int;
        let mut has_decimal = false;
        let dot = self.peek_is('.');
        let digit_after = match self.peek_next() {
            Some(c) => self.is_digit(c),
            None => false,
        };
        if dot && digit_after {
            has_decimal = true;
            proof {
                lemma_newlines_step(src, self.current as int);
                lemma_digits_end_bounds(src, a + 1);
            }
            self.advance();  // consume the "."
            while self.next_is_digit()
                invariant
                    self.source@ == src,
                    self.source == old(self).source,
                    self.start == start,
                    0 <= a < src.len(),
                    a + 1 <= self.current <= src.len() < usize::MAX,
                    src[a] == '.',
                    digits_end(src, self.current as int) == digits_end(src, a + 1),
                    self.line == line_at(src, self.current as int),
                    self.tokens == old(self).tokens,
                    self.errors == old(self).errors,
                    self.has_errors == old(self).has_errors,
                decreases src.len() - self.current,
            {
                proof {
                    lemma_newlines_step(src, self.current as int);
                }
                self.advance();
            }
        }
        let ghost text = src.subrange(start, self.current as int);
        let value = self.text(self.start, self.current);
        let literal = if has_decimal {
            // Keep at least one fractional digit.
            let mut k = self.current;
            while k > self.start + 1 && self.source[k - 1] == '0'
                invariant
                    self.source@ == src,
                    self.source == old(self).source,
                    self.start == start,
                    start < a,
                    a + 1 <= k <= self.current <= src.len() < usize::MAX,
                    src[a] == '.',
                    forall|j: int| k <= j < self.current ==> src[j] == '0',
                decreases k,
            {
                k = k - 1;
            }
            proof {
                lemma_trim_zeros(text, k - start);
                assert(text.take(k - start) =~= src.subrange(start, k as int));
                assert(text[a - start] == '.');
            }
            let mut trimmed = self.text(self.start, k);
            if self.source[k - 1] == '.' {
                trimmed.push('0');
            }
            trimmed
        } else {
            proof {
                lemma_digits_end_bounds(src, start);
                assert(!text.contains('.'));
            }
            let mut whole = value.clone();
            whole.push('.');
            whole.push('0');
            proof {
                assert(whole@ =~= text + seq!['.', '0']);
            }
            whole
        };
        self.add_token_with_literal(TokenType::Number, value, literal);
    }

    fn is_digit(&self, c: char) -> (r: bool)
        ensures
            r == is_digit_char(c),
    {
        c >= '0' && c <= '9'
    }

    fn is_alpha(&self, c: char) -> (r: bool)
        ensures
            r == is_alpha_char(c),
    {
        char_is_alphabetic(c) || c == '_'
    }

    fn is_alphanumeric(&self, c: char) -> (r: bool)
        ensures
            r == is_alphanumeric_char(c),
    {
        char_is_alphanumeric(c) || c == '_'
    }

    /// Whether the characters between `from` and `to` spell `word`.
    fn text_is(&self, from: usize, to: usize, word: &[char]) -> (r: bool)
        requires
            from <= to <= self.source@.len(),
        ensures
            r == (self.source@.subrange(from as int, to as int) == word@),
    {
        if to - from != word.len() {
            proof {
                assert(self.source@.subrange(from as int, to as int).len() != word@.len());
            }
            return false;
        }
        let mut i: usize = 0;
        while i < word.len()
            invariant
                from <= to <= self.source@.len(),
                to - from == word@.len(),
                i <= word@.len(),
                forall|j: int| 0 <= j < i ==> self.source@[from + j] == word@[j],
            decreases word@.len() - i,
        {
            if self.source[from + i] != word[i] {
                proof {
                    assert(self.source@.subrange(from as int, to as int)[i as int] != word@[i as int]);
                }
                return false;
            }
            i = i + 1;
        }
        proof {
            assert(self.source@.subrange(from as int, to as int) =~= word@);
        }
        true
    }

    fn identifier_type(&self, from: usize, to: usize) -> (r: TokenType)
        requires
            from <= to <= self.source@.len(),
        ensures
            r == keyword_kind(self.source@.subrange(from as int, to as int)),
    {
        if self.text_is(from, to, &['a', 'n', 'd']) {
            TokenType::And
        } else if self.text_is(from, to, &['c', 'l', 'a', 's', 's']) {
            TokenType::Class
        } else if self.text_is(from, to, &['e', 'l', 's', 'e']) {
            TokenType::Else
        } else if self.text_is(from, to, &['f', 'a', 'l', 's', 'e']) {
            TokenType::False
        } else if self.text_is(from, to, &['f', 'o', 'r']) {
            TokenType::For
        } else if self.text_is(from, to, &['f', 'u', 'n']) {
            TokenType::Fun
        } else if self.text_is(from, to, &['i', 'f']) {
            TokenType::If
        } else if self.text_is(from, to, &['n', 'i', 'l']) {
            TokenType::Nil
        } else if self.text_is(from, to, &['o', 'r']) {
            TokenType::Or
        } else if self.text_is(from, to, &['p', 'r', 'i', 'n', 't']) {
            TokenType::Print
        } else if self.text_is(from, to, &['r', 'e', 't', 'u', 'r', 'n']) {
            TokenType::Return
        } else if self.text_is(from, to, &['s', 'u', 'p', 'e', 'r']) {
            TokenType::Super
        } else if self.text_is(from, to, &['t', 'h', 'i', 's']) {
            TokenType::This
        } else if self.text_is(from, to, &['t', 'r', 'u', 'e']) {
            TokenType::True
        } else if self.text_is(from, to, &['v', 'a', 'r']) {
            TokenType::Var
        } else if self.text_is(from, to, &['w', 'h', 'i', 'l', 'e']) {
            TokenType::While
        } else {
            TokenType::Identifier
        }
    }

    fn identifier(&mut self)
        requires
            old(self).in_progress_at_start(),
            is_alpha_char(old(self).source@[old(self).start as int]),
        ensures
            final(self).source == old(self).source,
            final(self).current == ident_end(old(self).source@, old(self).start + 1),
            final(self).line == line_at(old(self).source@, final(self).current as int),
            final(self).errors == old(self).errors,
            final(self).has_errors == old(self).has_errors,
            tokens_view(final(self).tokens@) == tokens_view(old(self).tokens@).push(
                (
                    keyword_kind(
                        old(self).source@.subrange(
                            old(self).start as int,
                            final(self).current as int,
                        ),
                    ),
                    old(self).source@.subrange(old(self).start as int, final(self).current as int),
                    old(self).source@.subrange(old(self).start as int, final(self).current as int),
                ),
            ),
    {
        let ghost src = self.source@;
        let ghost start = self.start as int;
        proof {
            lemma_ident_end_bounds(src, start + 1);
        }
        while self.next_is_alphanumeric()
            invariant
                self.source@ == src,
                self.source == old(self).source,
                self.start == start,
                start + 1 <= self.current <= src.len() < usize::MAX,
                ident_end(src, self.current as int) == ident_end(src, start + 1),
                self.line == line_at(src, self.current as int),
                self.tokens == old(self).tokens,
                self.errors == old(self).errors,
                self.has_errors == old(self).has_errors,
            decreases src.len() - self.current,
        {
            proof {
                lemma_newlines_step(src, self.current as int);
            }
            self.advance();
        }
        let token_type = self.identifier_type(self.start, self.current);
        self.add_token(token_type);
    }

    fn next_is_alphanumeric(&self) -> (r: bool)
        ensures
            r == (self.current < self.source@.len() && is_alphanumeric_char(
                self.source@[self.current as int],
            )),
    {
        match self.peek() {
            Some(c) => self.is_alphanumeric(c),
            None => false,
        }
    }
}

} // verus!
