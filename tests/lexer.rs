use lox::tokenizer::{token_line, LexError, Scanner, TokenType};

fn scan(source: &str) -> (Vec<(TokenType, String, String)>, Vec<LexError>, bool) {
    let mut scanner = Scanner::new(source);
    let tokens = scanner.scan_tokens().clone();
    assert_eq!(scanner.has_errors(), scanner.has_errors);
    (tokens, scanner.errors().clone(), scanner.has_errors())
}

fn kinds(source: &str) -> Vec<TokenType> {
    scan(source).0.iter().map(|t| t.0).collect()
}

fn tok(kind: TokenType, lexeme: &str, literal: &str) -> (TokenType, String, String) {
    (kind, lexeme.to_string(), literal.to_string())
}

#[test]
fn single_character_punctuation_gives_one_token_each() {
    let (tokens, errors, flagged) = scan("(){},.-+;*");
    assert_eq!(tokens.len(), 11);
    assert_eq!(
        tokens.iter().map(|t| t.0).collect::<Vec<_>>(),
        vec![
            TokenType::LeftParen,
            TokenType::RightParen,
            TokenType::LeftBrace,
            TokenType::RightBrace,
            TokenType::Comma,
            TokenType::Dot,
            TokenType::Minus,
            TokenType::Plus,
            TokenType::Semicolon,
            TokenType::Star,
            TokenType::Eof,
        ]
    );
    assert!(errors.is_empty());
    assert!(!flagged);
}

#[test]
fn two_character_operators() {
    assert_eq!(
        kinds("!= ! ==<=<>=>/"),
        vec![
            TokenType::BangEqual,
            TokenType::Bang,
            TokenType::EqualEqual,
            TokenType::LessEqual,
            TokenType::Less,
            TokenType::GreaterEqual,
            TokenType::Greater,
            TokenType::Slash,
            TokenType::Eof,
        ]
    );
    let (tokens, _, _) = scan("<=");
    assert_eq!(tokens[0], tok(TokenType::LessEqual, "<=", "<="));
}

#[test]
fn empty_source_gives_only_the_end_marker() {
    let (tokens, errors, flagged) = scan("");
    assert_eq!(tokens, vec![tok(TokenType::Eof, "", "")]);
    assert!(errors.is_empty());
    assert!(!flagged);
}

#[test]
fn scanning_twice_keeps_one_end_marker() {
    let mut scanner = Scanner::new("+");
    let first = scanner.scan_tokens().clone();
    let second = scanner.scan_tokens().clone();
    assert_eq!(first, second);
    assert_eq!(second.len(), 2);
}

#[test]
fn unexpected_character_is_skipped_and_reported() {
    let (tokens, errors, flagged) = scan("(@)");
    assert_eq!(
        tokens,
        vec![
            tok(TokenType::LeftParen, "(", "("),
            tok(TokenType::RightParen, ")", ")"),
            tok(TokenType::Eof, "", ""),
        ]
    );
    assert_eq!(errors, vec![LexError::UnexpectedCharacter { line: 1, character: '@' }]);
    assert!(flagged);
}

#[test]
fn unterminated_string_gives_no_token() {
    let (tokens, errors, flagged) = scan("\"abc");
    assert_eq!(tokens, vec![tok(TokenType::Eof, "", "")]);
    assert_eq!(errors, vec![LexError::UnterminatedString { line: 1 }]);
    assert!(flagged);
}

#[test]
fn unterminated_string_reports_its_last_line() {
    let (_, errors, _) = scan("\"a\nb\n");
    assert_eq!(errors, vec![LexError::UnterminatedString { line: 3 }]);
}

#[test]
fn errors_carry_their_line() {
    let (tokens, errors, _) = scan("\n\n#\n$");
    assert_eq!(tokens.len(), 1);
    assert_eq!(
        errors,
        vec![
            LexError::UnexpectedCharacter { line: 3, character: '#' },
            LexError::UnexpectedCharacter { line: 4, character: '$' },
        ]
    );
}

#[test]
fn string_literal_drops_its_quotes() {
    let (tokens, _, _) = scan("\"hi there\"");
    assert_eq!(tokens[0], tok(TokenType::String, "\"hi there\"", "hi there"));
}

#[test]
fn string_may_span_lines() {
    let (tokens, errors, _) = scan("\"a\nb\" @");
    assert_eq!(tokens[0], tok(TokenType::String, "\"a\nb\"", "a\nb"));
    assert_eq!(errors, vec![LexError::UnexpectedCharacter { line: 2, character: '@' }]);
}

#[test]
fn whole_number_gets_a_fraction() {
    let (tokens, _, _) = scan("200");
    assert_eq!(tokens[0], tok(TokenType::Number, "200", "200.0"));
}

#[test]
fn fraction_loses_trailing_zeros() {
    let (tokens, _, _) = scan("3.1400");
    assert_eq!(tokens[0], tok(TokenType::Number, "3.1400", "3.14"));
    let (tokens, _, _) = scan("10.000");
    assert_eq!(tokens[0], tok(TokenType::Number, "10.000", "10.0"));
    let (tokens, _, _) = scan("007");
    assert_eq!(tokens[0], tok(TokenType::Number, "007", "007.0"));
}

#[test]
fn trailing_dot_is_not_part_of_a_number() {
    assert_eq!(kinds("12."), vec![TokenType::Number, TokenType::Dot, TokenType::Eof]);
    assert_eq!(kinds(".5"), vec![TokenType::Dot, TokenType::Number, TokenType::Eof]);
    let (tokens, _, _) = scan("12.");
    assert_eq!(tokens[0], tok(TokenType::Number, "12", "12.0"));
}

#[test]
fn reserved_words_and_identifiers() {
    assert_eq!(
        kinds("and class else false for fun if nil or print return super this true var while"),
        vec![
            TokenType::And,
            TokenType::Class,
            TokenType::Else,
            TokenType::False,
            TokenType::For,
            TokenType::Fun,
            TokenType::If,
            TokenType::Nil,
            TokenType::Or,
            TokenType::Print,
            TokenType::Return,
            TokenType::Super,
            TokenType::This,
            TokenType::True,
            TokenType::Var,
            TokenType::While,
            TokenType::Eof,
        ]
    );
    let (tokens, _, _) = scan("_foo1 orchid");
    assert_eq!(tokens[0], tok(TokenType::Identifier, "_foo1", "_foo1"));
    assert_eq!(tokens[1], tok(TokenType::Identifier, "orchid", "orchid"));
}

#[test]
fn non_ascii_letters_form_identifiers() {
    let (tokens, errors, _) = scan("été+x");
    assert_eq!(tokens[0], tok(TokenType::Identifier, "été", "été"));
    assert_eq!(tokens[1].0, TokenType::Plus);
    assert!(errors.is_empty());
}

#[test]
fn comment_runs_to_end_of_line() {
    let (tokens, errors, _) = scan("// (\n) // @");
    assert_eq!(tokens, vec![tok(TokenType::RightParen, ")", ")"), tok(TokenType::Eof, "", "")]);
    assert!(errors.is_empty());
}

#[test]
fn token_lines() {
    let (tokens, _, _) = scan("( \"abc\" 12 foo and");
    let lines: Vec<String> = tokens.iter().map(|t| token_line(t)).collect();
    assert_eq!(
        lines,
        vec![
            "LEFT_PAREN ( null".to_string(),
            "STRING \"abc\" abc".to_string(),
            "NUMBER 12 12.0".to_string(),
            "IDENTIFIER foo null".to_string(),
            "AND and null".to_string(),
            "EOF  null".to_string(),
        ]
    );
}

#[test]
fn kind_texts() {
    assert_eq!(TokenType::Plus.to_string_for_parse(), "+");
    assert_eq!(TokenType::EqualEqual.to_string_for_parse(), "==");
    assert_eq!(TokenType::Number.to_string_for_parse(), "NUMBER");
    assert_eq!(TokenType::GreaterEqual.name(), "GREATER_EQUAL");
    assert_eq!(TokenType::While.symbol(), "while");
    assert_eq!(TokenType::Identifier.symbol(), "");
}

#[test]
fn unterminated_string_after_tokens() {
    let (tokens, errors, flagged) = scan("1 + \"abc\ndef");
    assert_eq!(kinds_of(&tokens), vec![TokenType::Number, TokenType::Plus, TokenType::Eof]);
    assert_eq!(errors, vec![LexError::UnterminatedString { line: 2 }]);
    assert!(flagged);
}

fn kinds_of(tokens: &[(TokenType, String, String)]) -> Vec<TokenType> {
    tokens.iter().map(|t| t.0).collect()
}
