use rlox::error;
use rlox::scanner::Scanner;
use rlox::token::{LexError, LexErrorKind, Literal, Token, TokenType};

fn scan(src: &str) -> (Vec<Token>, Vec<LexError>) {
    let mut scanner = Scanner::new(src);
    let tokens = scanner.scan_tokens();
    (tokens, scanner.errors.clone())
}

fn single_token(src: &str) -> Token {
    let (tokens, errors) = scan(src);
    assert_eq!(tokens.len(), 1, "expected one token for {:?}", src);
    assert_eq!(errors.len(), 0, "expected no errors for {:?}", src);
    tokens[0].clone()
}

#[test]
fn single_punctuation_tokens() {
    let cases = [
        ("(", TokenType::LeftParen),
        (")", TokenType::RightParen),
        ("{", TokenType::LeftBrace),
        ("}", TokenType::RightBrace),
        (",", TokenType::Comma),
        (".", TokenType::Dot),
        ("-", TokenType::Minus),
        ("+", TokenType::Plus),
        (";", TokenType::Semicolon),
        ("*", TokenType::Star),
    ];
    for (src, kind) in cases {
        let t = single_token(src);
        assert_eq!(t.kind, kind, "kind for {:?}", src);
        assert_eq!(t.lexeme, src, "lexeme for {:?}", src);
        assert_eq!(t.literal, Literal::Nil, "literal for {:?}", src);
        assert_eq!(t.line, 1, "line for {:?}", src);
    }
}

#[test]
fn operator_families() {
    let cases = [
        ("!", TokenType::Bang),
        ("!=", TokenType::BangEqual),
        ("=", TokenType::Equal),
        ("==", TokenType::EqualEqual),
        ("<", TokenType::Less),
        ("<=", TokenType::LessEqual),
        (">", TokenType::Greater),
        (">=", TokenType::GreaterEqual),
    ];
    for (src, kind) in cases {
        let t = single_token(src);
        assert_eq!(t.kind, kind, "kind for {:?}", src);
        assert_eq!(t.lexeme, src, "lexeme for {:?}", src);
    }
}

#[test]
fn operators_no_false_merging_or_splitting() {
    // A separated pair stays two one-character tokens.
    let (tokens, errors) = scan("= =");
    assert_eq!(errors.len(), 0);
    assert_eq!(tokens.len(), 2);
    assert_eq!(tokens[0].kind, TokenType::Equal);
    assert_eq!(tokens[1].kind, TokenType::Equal);
    // Three equals merge greedily from the left.
    let (tokens, _) = scan("===");
    assert_eq!(tokens.len(), 2);
    assert_eq!(tokens[0].kind, TokenType::EqualEqual);
    assert_eq!(tokens[1].kind, TokenType::Equal);
    // Bang before a non-equal stays alone.
    let (tokens, _) = scan("!(");
    assert_eq!(tokens.len(), 2);
    assert_eq!(tokens[0].kind, TokenType::Bang);
    assert_eq!(tokens[1].kind, TokenType::LeftParen);
}

#[test]
fn line_comment_then_punctuation() {
    let (tokens, errors) = scan("// anything at all\n(");
    assert_eq!(errors.len(), 0);
    assert_eq!(tokens.len(), 1);
    assert_eq!(tokens[0].kind, TokenType::LeftParen);
    assert_eq!(tokens[0].line, 2);
}

#[test]
fn lone_slash_is_dropped_silently() {
    // The design emits a token for `/` only as part of `//`; a lone slash
    // produces neither a token nor an error.
    let (tokens, errors) = scan("/");
    assert_eq!(tokens.len(), 0);
    assert_eq!(errors.len(), 0);
    let (tokens, errors) = scan("a/b");
    assert_eq!(errors.len(), 0);
    assert_eq!(tokens.len(), 2);
    assert_eq!(tokens[0].lexeme, "a");
    assert_eq!(tokens[1].lexeme, "b");
}

#[test]
fn string_literal_strips_quotes() {
    let t = single_token("\"hello\"");
    assert_eq!(t.kind, TokenType::String_);
    assert_eq!(t.lexeme, "hello");
    assert_eq!(t.literal, Literal::String_("hello".to_string()));
    assert_eq!(t.line, 1);
}

#[test]
fn unterminated_string_reports_one_error() {
    let (tokens, errors) = scan("\"unterminated");
    assert_eq!(tokens.len(), 0);
    assert_eq!(errors.len(), 1);
    assert_eq!(errors[0].kind, LexErrorKind::UnterminatedString);
    assert_eq!(errors[0].line, 1);
}

#[test]
fn unterminated_string_reports_final_line() {
    let (tokens, errors) = scan("\n\n\"abc\ndef");
    assert_eq!(tokens.len(), 0);
    assert_eq!(errors.len(), 1);
    assert_eq!(errors[0].kind, LexErrorKind::UnterminatedString);
    assert_eq!(errors[0].line, 4);
}

#[test]
fn string_with_embedded_newline_counts_lines() {
    let (tokens, errors) = scan("\"a\nb\"+");
    assert_eq!(errors.len(), 0);
    assert_eq!(tokens.len(), 2);
    assert_eq!(tokens[0].kind, TokenType::String_);
    assert_eq!(tokens[0].lexeme, "a\nb");
    assert_eq!(tokens[0].line, 2);
    assert_eq!(tokens[1].kind, TokenType::Plus);
    assert_eq!(tokens[1].line, 2);
}

#[test]
fn number_literal_with_fraction() {
    let t = single_token("123.45");
    assert_eq!(t.kind, TokenType::Number);
    assert_eq!(t.lexeme, "123.45");
    match &t.literal {
        Literal::Number(text) => {
            let value: f64 = text.parse().unwrap();
            assert_eq!(value, 123.45);
        }
        other => panic!("expected a number literal, got {:?}", other),
    }
}

#[test]
fn integer_number_literal() {
    let t = single_token("42");
    assert_eq!(t.kind, TokenType::Number);
    assert_eq!(t.lexeme, "42");
    match &t.literal {
        Literal::Number(text) => {
            let value: f64 = text.parse().unwrap();
            assert_eq!(value, 42.0);
        }
        other => panic!("expected a number literal, got {:?}", other),
    }
}

#[test]
fn number_with_trailing_dot_consumes_the_dot() {
    // The chosen boundary behaviour: after a digit run, a dot is consumed
    // even without a following digit, so `42.` is one Number token.
    let t = single_token("42.");
    assert_eq!(t.kind, TokenType::Number);
    assert_eq!(t.lexeme, "42.");
    match &t.literal {
        Literal::Number(text) => {
            let value: f64 = text.parse().unwrap();
            assert_eq!(value, 42.0);
        }
        other => panic!("expected a number literal, got {:?}", other),
    }
}

#[test]
fn dot_without_leading_digit_is_punctuation() {
    let (tokens, errors) = scan(".5");
    assert_eq!(errors.len(), 0);
    assert_eq!(tokens.len(), 2);
    assert_eq!(tokens[0].kind, TokenType::Dot);
    assert_eq!(tokens[1].kind, TokenType::Number);
    assert_eq!(tokens[1].lexeme, "5");
}

#[test]
fn all_sixteen_reserved_words() {
    let cases = [
        ("and", TokenType::And),
        ("class", TokenType::Class),
        ("else", TokenType::Else),
        ("false", TokenType::False),
        ("for", TokenType::For),
        ("fun", TokenType::Fun),
        ("if", TokenType::If),
        ("nil", TokenType::Nil),
        ("or", TokenType::Or),
        ("print", TokenType::Print),
        ("return", TokenType::Return),
        ("super", TokenType::Super),
        ("this", TokenType::This),
        ("true", TokenType::True),
        ("var", TokenType::Var),
        ("while", TokenType::While),
    ];
    for (src, kind) in cases {
        let t = single_token(src);
        assert_eq!(t.kind, kind, "kind for {:?}", src);
        assert_eq!(t.lexeme, src, "lexeme for {:?}", src);
        assert_eq!(t.literal, Literal::Nil);
    }
}

#[test]
fn reserved_word_prefix_is_one_identifier() {
    let t = single_token("forest");
    assert_eq!(t.kind, TokenType::Identifier);
    assert_eq!(t.lexeme, "forest");
}

#[test]
fn identifiers_with_underscores_and_digits() {
    let t = single_token("_x1_y2");
    assert_eq!(t.kind, TokenType::Identifier);
    assert_eq!(t.lexeme, "_x1_y2");
}

#[test]
fn newlines_increment_line_exactly_once() {
    let (tokens, errors) = scan("(\n)\n{");
    assert_eq!(errors.len(), 0);
    assert_eq!(tokens.len(), 3);
    assert_eq!(tokens[0].line, 1);
    assert_eq!(tokens[1].line, 2);
    assert_eq!(tokens[2].line, 3);
}

#[test]
fn token_after_n_newlines_is_on_line_n_plus_one() {
    let (tokens, errors) = scan("\n\n\n+");
    assert_eq!(errors.len(), 0);
    assert_eq!(tokens.len(), 1);
    assert_eq!(tokens[0].kind, TokenType::Plus);
    assert_eq!(tokens[0].line, 4);
}

#[test]
fn round_trip_of_significant_characters() {
    let (tokens, errors) = scan("var x = 12.5; // note\n\"hi\" @ +");
    assert_eq!(errors.len(), 1);
    let mut rebuilt = String::new();
    for t in &tokens {
        if t.kind == TokenType::String_ {
            rebuilt.push('"');
            rebuilt.push_str(&t.lexeme);
            rebuilt.push('"');
        } else {
            rebuilt.push_str(&t.lexeme);
        }
    }
    assert_eq!(rebuilt, "varx=12.5;\"hi\"+");
}

#[test]
fn single_unknown_character() {
    let (tokens, errors) = scan("@");
    assert_eq!(tokens.len(), 0);
    assert_eq!(errors.len(), 1);
    assert_eq!(errors[0].kind, LexErrorKind::UnrecognizedCharacter);
    assert_eq!(errors[0].line, 1);
}

#[test]
fn scanning_continues_after_errors() {
    let (tokens, errors) = scan("@#(");
    assert_eq!(errors.len(), 2);
    assert_eq!(errors[0].kind, LexErrorKind::UnrecognizedCharacter);
    assert_eq!(errors[1].kind, LexErrorKind::UnrecognizedCharacter);
    assert_eq!(tokens.len(), 1);
    assert_eq!(tokens[0].kind, TokenType::LeftParen);
}

#[test]
fn empty_input_yields_nothing() {
    let (tokens, errors) = scan("");
    assert_eq!(tokens.len(), 0);
    assert_eq!(errors.len(), 0);
}

#[test]
fn whitespace_only_input_yields_nothing() {
    let (tokens, errors) = scan(" \t\r ");
    assert_eq!(tokens.len(), 0);
    assert_eq!(errors.len(), 0);
}

#[test]
fn error_constructor_carries_line_and_kind() {
    let e = error(3, LexErrorKind::UnterminatedString);
    assert_eq!(e.line, 3);
    assert_eq!(e.kind, LexErrorKind::UnterminatedString);
}

#[test]
fn error_messages() {
    assert_eq!(LexErrorKind::UnterminatedString.message(), "unterminated string");
    assert_eq!(
        LexErrorKind::UnrecognizedCharacter.message(),
        "unknown character sequence"
    );
}

#[test]
fn mixed_statement_token_stream() {
    let (tokens, errors) = scan("if (x >= 10) { print \"big\"; }");
    assert_eq!(errors.len(), 0);
    let kinds: Vec<TokenType> = tokens.iter().map(|t| t.kind).collect();
    assert_eq!(
        kinds,
        vec![
            TokenType::If,
            TokenType::LeftParen,
            TokenType::Identifier,
            TokenType::GreaterEqual,
            TokenType::Number,
            TokenType::RightParen,
            TokenType::LeftBrace,
            TokenType::Print,
            TokenType::String_,
            TokenType::Semicolon,
            TokenType::RightBrace,
        ]
    );
}
