//! The data a scan produces: token kinds, literal values, tokens and lexical
//! errors, together with their mathematical views.

use vstd::prelude::*;

verus! {

/// Lexical category of a token: single-character punctuation, one- or
/// two-character operators, literal categories, reserved words, and
/// end-of-input.
#[derive(Clone, Copy, PartialEq, Eq, Structural, Debug)]
pub enum TokenType {
    LeftParen,
    RightParen,
    LeftBrace,
    RightBrace,
    Comma,
    Dot,
    Minus,
    Plus,
    Semicolon,
    Slash,
    Star,
    Bang,
    BangEqual,
    Equal,
    EqualEqual,
    Greater,
    GreaterEqual,
    Less,
    LessEqual,
    Identifier,
    String_,
    Number,
    And,
    Class,
    Else,
    False,
    Fun,
    For,
    If,
    Nil,
    Or,
    Print,
    Return,
    Super,
    This,
    True,
    Var,
    While,
    Eof,
}

/// Decoded value carried by a literal token: no value, a number, or a text
/// string. A number is carried as the exact numeral text taken from the
/// source; consumers parse that text into their floating-point type of
/// choice.
#[derive(Clone, PartialEq, Eq, Debug)]
pub enum Literal {
    Nil,
    Number(String),
    String_(String),
}

/// Mathematical view of a [`Literal`]: the carried text as a sequence of
/// characters.
pub enum LiteralView {
    Nil,
    Number(Seq<char>),
    String_(Seq<char>),
}

impl View for Literal {
    type V = LiteralView;

    open spec fn view(&self) -> LiteralView {
        match self {
            Literal::Nil => LiteralView::Nil,
            Literal::Number(s) => LiteralView::Number(s@),
            Literal::String_(s) => LiteralView::String_(s@),
        }
    }
}

/// One classified, position-tagged unit of lexical input. The lexeme is the
/// exact source substring the token was built from, except for string
/// tokens, whose lexeme is the content between the delimiting quotes.
#[derive(Clone, Debug)]
pub struct Token {
    pub kind: TokenType,
    pub lexeme: String,
    pub literal: Literal,
    pub line: usize,
}

/// Mathematical view of a [`Token`]: kind, lexeme characters, literal view
/// and 1-based line number.
pub struct TokenView {
    pub kind: TokenType,
    pub lexeme: Seq<char>,
    pub literal: LiteralView,
    pub line: nat,
}

impl View for Token {
    type V = TokenView;

    open spec fn view(&self) -> TokenView {
        TokenView { kind: self.kind, lexeme: self.lexeme@, literal: self.literal@, line: self.line as nat }
    }
}

impl Token {
    pub fn new(kind: TokenType, lexeme: String, literal: Literal, line: usize) -> (t: Token)
        ensures
            t@ == (TokenView { kind, lexeme: lexeme@, literal: literal@, line: line as nat }),
    {
        Token { kind, lexeme, literal, line }
    }
}

/// The two kinds of lexical error: a string literal whose opening quote has
/// no matching closing quote before the input ends, and a character that
/// matches none of the recognized token-start classes.
#[derive(Clone, Copy, PartialEq, Eq, Structural, Debug)]
pub enum LexErrorKind {
    UnterminatedString,
    UnrecognizedCharacter,
}

/// One reported lexical error: its kind and the 1-based line it was
/// detected on. Errors are recorded, not thrown; the scan continues past
/// them.
#[derive(Clone, Copy, PartialEq, Eq, Structural, Debug)]
pub struct LexError {
    pub kind: LexErrorKind,
    pub line: usize,
}

/// Mathematical view of a [`LexError`].
pub struct LexErrorView {
    pub kind: LexErrorKind,
    pub line: nat,
}

impl View for LexError {
    type V = LexErrorView;

    open spec fn view(&self) -> LexErrorView {
        LexErrorView { kind: self.kind, line: self.line as nat }
    }
}

impl LexErrorKind {
    /// The report text for this kind of lexical error.
    pub fn message(&self) -> (r: &'static str)
        ensures
            *self == LexErrorKind::UnterminatedString ==> r@ == "unterminated string"@,
            *self == LexErrorKind::UnrecognizedCharacter ==> r@ == "unknown character sequence"@,
    {
        match self {
            LexErrorKind::UnterminatedString => "unterminated string",
            LexErrorKind::UnrecognizedCharacter => "unknown character sequence",
        }
    }
}

} // verus!
