//! The mathematical model of scanning: character classes, the spans of
//! multi-character tokens, and a recursive specification [`scan_from`] that
//! maps a source text to the exact sequence of tokens and errors the scanner
//! owes, together with its final line counter.

use vstd::prelude::*;

use crate::token::{LexErrorKind, LiteralView, TokenType};

verus! {

// ---------------------------------------------------------------------------
// Character classes
// ---------------------------------------------------------------------------

/// Whether `c` is one of the ten single-character punctuation marks.
pub open spec fn is_punct(c: char) -> bool {
    c == '(' || c == ')' || c == '{' || c == '}' || c == ',' || c == '.' || c == '-' || c == '+'
        || c == ';' || c == '*'
}

/// The token kind of a single-character punctuation mark.
pub open spec fn punct_kind(c: char) -> TokenType {
    if c == '(' {
        TokenType::LeftParen
    } else if c == ')' {
        TokenType::RightParen
    } else if c == '{' {
        TokenType::LeftBrace
    } else if c == '}' {
        TokenType::RightBrace
    } else if c == ',' {
        TokenType::Comma
    } else if c == '.' {
        TokenType::Dot
    } else if c == '-' {
        TokenType::Minus
    } else if c == '+' {
        TokenType::Plus
    } else if c == ';' {
        TokenType::Semicolon
    } else {
        TokenType::Star
    }
}

/// Whether `c` opens a one-or-two-character operator.
pub open spec fn is_op_start(c: char) -> bool {
    c == '!' || c == '=' || c == '<' || c == '>'
}

/// The token kind of a lone operator character.
pub open spec fn op1_kind(c: char) -> TokenType {
    if c == '!' {
        TokenType::Bang
    } else if c == '=' {
        TokenType::Equal
    } else if c == '<' {
        TokenType::Less
    } else {
        TokenType::Greater
    }
}

/// The token kind of an operator character followed by `=`.
pub open spec fn op2_kind(c: char) -> TokenType {
    if c == '!' {
        TokenType::BangEqual
    } else if c == '=' {
        TokenType::EqualEqual
    } else if c == '<' {
        TokenType::LessEqual
    } else {
        TokenType::GreaterEqual
    }
}

/// Whether `c` is a decimal digit.
pub open spec fn is_digit_char(c: char) -> bool {
    ('0' as u32) <= (c as u32) && (c as u32) <= ('9' as u32)
}

/// Whether the Unicode class of `c` is alphabetic, exactly as
/// `char::is_alphabetic` decides it.
pub uninterp spec fn alphabetic_of(c: char) -> bool;

/// Whether the Unicode class of `c` is alphanumeric, exactly as
/// `char::is_alphanumeric` decides it.
pub uninterp spec fn alphanumeric_of(c: char) -> bool;

/// Relies on char::is_alphabetic. Its result depends on the character
/// alone, and its documentation admits only letters, so in particular never
/// the newline.
pub assume_specification[ char::is_alphabetic ](c: char) -> (r: bool)
    ensures
        r == alphabetic_of(c),
        r ==> c != '\n',
;

/// Relies on char::is_alphanumeric. Its result depends on the character
/// alone, and its documentation admits only letters and digits, so in
/// particular never the newline.
pub assume_specification[ char::is_alphanumeric ](c: char) -> (r: bool)
    ensures
        r == alphanumeric_of(c),
        r ==> c != '\n',
;

/// Whether `c` may open an identifier: alphabetic or an underscore. The
/// newline is excluded in so many words — `char::is_alphabetic` never
/// accepts it — so that line counting can rely on it.
pub open spec fn is_alpha_char(c: char) -> bool {
    c == '_' || (alphabetic_of(c) && c != '\n')
}

/// Whether `c` may continue an identifier: alphanumeric or an underscore.
/// The newline is excluded in so many words, as in [`is_alpha_char`].
pub open spec fn is_word_char(c: char) -> bool {
    c == '_' || (alphanumeric_of(c) && c != '\n')
}

// ---------------------------------------------------------------------------
// Spans of multi-character constructs
// ---------------------------------------------------------------------------

/// The index just past the maximal run of decimal digits starting at `i`.
pub open spec fn digits_end(s: Seq<char>, i: int) -> int
    decreases s.len() - i,
{
    if 0 <= i < s.len() && is_digit_char(s[i]) {
        digits_end(s, i + 1)
    } else {
        i
    }
}

/// The index just past the maximal run of identifier characters starting at
/// `i`.
pub open spec fn word_end(s: Seq<char>, i: int) -> int
    decreases s.len() - i,
{
    if 0 <= i < s.len() && is_word_char(s[i]) {
        word_end(s, i + 1)
    } else {
        i
    }
}

/// The index of the next newline at or after `i`, or the length of the
/// source if there is none.
pub open spec fn line_end(s: Seq<char>, i: int) -> int
    decreases s.len() - i,
{
    if 0 <= i < s.len() && s[i] != '\n' {
        line_end(s, i + 1)
    } else {
        i
    }
}

/// The index of the next double quote at or after `i`, or the length of the
/// source if there is none.
pub open spec fn string_end(s: Seq<char>, i: int) -> int
    decreases s.len() - i,
{
    if 0 <= i < s.len() && s[i] != '"' {
        string_end(s, i + 1)
    } else {
        i
    }
}

/// The index just past a number literal whose first digit stands at `i`: a
/// maximal digit run, then one optional `.` followed by a further maximal
/// digit run.
pub open spec fn number_end(s: Seq<char>, i: int) -> int {
    let j = digits_end(s, i + 1);
    if j < s.len() && s[j] == '.' {
        digits_end(s, j + 1)
    } else {
        j
    }
}

/// The number of newline characters in `s[i..j)`.
pub open spec fn newlines_in(s: Seq<char>, i: int, j: int) -> nat
    decreases j - i,
{
    if i < j {
        (if 0 <= i < s.len() && s[i] == '\n' {
            1nat
        } else {
            0nat
        }) + newlines_in(s, i + 1, j)
    } else {
        0nat
    }
}

// ---------------------------------------------------------------------------
// Lemmas about spans and newline counts
// ---------------------------------------------------------------------------

pub proof fn lemma_digits_end(s: Seq<char>, i: int)
    requires
        0 <= i,
    ensures
        i <= digits_end(s, i),
        i <= s.len() ==> digits_end(s, i) <= s.len(),
        forall|k: int| i <= k < digits_end(s, i) ==> is_digit_char(s[k]),
        digits_end(s, i) < s.len() ==> !is_digit_char(s[digits_end(s, i)]),
    decreases s.len() - i,
{
    if 0 <= i < s.len() && is_digit_char(s[i]) {
        lemma_digits_end(s, i + 1);
    }
}

pub proof fn lemma_word_end(s: Seq<char>, i: int)
    requires
        0 <= i,
    ensures
        i <= word_end(s, i),
        i <= s.len() ==> word_end(s, i) <= s.len(),
        forall|k: int| i <= k < word_end(s, i) ==> is_word_char(s[k]),
        word_end(s, i) < s.len() ==> !is_word_char(s[word_end(s, i)]),
    decreases s.len() - i,
{
    if 0 <= i < s.len() && is_word_char(s[i]) {
        lemma_word_end(s, i + 1);
    }
}

pub proof fn lemma_line_end(s: Seq<char>, i: int)
    requires
        0 <= i,
    ensures
        i <= line_end(s, i),
        i <= s.len() ==> line_end(s, i) <= s.len(),
        forall|k: int| i <= k < line_end(s, i) ==> s[k] != '\n',
        line_end(s, i) < s.len() ==> s[line_end(s, i)] == '\n',
    decreases s.len() - i,
{
    if 0 <= i < s.len() && s[i] != '\n' {
        lemma_line_end(s, i + 1);
    }
}

pub proof fn lemma_string_end(s: Seq<char>, i: int)
    requires
        0 <= i,
    ensures
        i <= string_end(s, i),
        i <= s.len() ==> string_end(s, i) <= s.len(),
        forall|k: int| i <= k < string_end(s, i) ==> s[k] != '"',
        string_end(s, i) < s.len() ==> s[string_end(s, i)] == '"',
    decreases s.len() - i,
{
    if 0 <= i < s.len() && s[i] != '"' {
        lemma_string_end(s, i + 1);
    }
}

pub proof fn lemma_number_end(s: Seq<char>, i: int)
    requires
        0 <= i,
    ensures
        i + 1 <= number_end(s, i),
        i + 1 <= s.len() ==> number_end(s, i) <= s.len(),
        forall|k: int| i + 1 <= k < number_end(s, i) ==> s[k] != '\n',
{
    lemma_digits_end(s, i + 1);
    let j = digits_end(s, i + 1);
    if j < s.len() && s[j] == '.' {
        lemma_digits_end(s, j + 1);
        assert forall|k: int| i + 1 <= k < number_end(s, i) implies s[k] != '\n' by {
            if k < j {
                assert(is_digit_char(s[k]));
            } else if k == j {
                assert(s[k] == '.');
            } else {
                assert(is_digit_char(s[k]));
            }
        }
    } else {
        assert forall|k: int| i + 1 <= k < number_end(s, i) implies s[k] != '\n' by {
            assert(is_digit_char(s[k]));
        }
    }
}

/// Extending a subrange by one character appends that character.
pub proof fn lemma_subrange_push(s: Seq<char>, a: int, b: int)
    requires
        0 <= a <= b < s.len(),
    ensures
        s.subrange(a, b + 1) == s.subrange(a, b).push(s[b]),
{
    assert(s.subrange(a, b + 1) =~= s.subrange(a, b).push(s[b]));
}

/// Newline counts add over a split of the interval.
pub proof fn lemma_newlines_concat(s: Seq<char>, i: int, k: int, j: int)
    requires
        i <= k <= j,
    ensures
        newlines_in(s, i, j) == newlines_in(s, i, k) + newlines_in(s, k, j),
    decreases k - i,
{
    if i < k {
        lemma_newlines_concat(s, i + 1, k, j);
    }
}

/// An interval without newline characters counts zero newlines.
pub proof fn lemma_newlines_none(s: Seq<char>, i: int, j: int)
    requires
        forall|k: int| i <= k < j ==> s[k] != '\n',
    ensures
        newlines_in(s, i, j) == 0,
    decreases j - i,
{
    if i < j {
        lemma_newlines_none(s, i + 1, j);
    }
}

/// Extending the interval by one character on the right adds that
/// character's newline count.
pub proof fn lemma_newlines_extend(s: Seq<char>, i: int, j: int)
    requires
        i <= j,
    ensures
        newlines_in(s, i, j + 1) == newlines_in(s, i, j) + (
        if 0 <= j < s.len() && s[j] == '\n' {
            1nat
        } else {
            0nat
        }),
    decreases j - i,
{
    if i < j {
        lemma_newlines_extend(s, i + 1, j);
    } else {
        assert(newlines_in(s, j + 1, j + 1) == 0);
        assert(newlines_in(s, i, j + 1) == (
        if 0 <= j < s.len() && s[j] == '\n' {
            1nat
        } else {
            0nat
        }) + newlines_in(s, j + 1, j + 1));
    }
}

// ---------------------------------------------------------------------------
// The token and error models
// ---------------------------------------------------------------------------

/// A token as the specification sees it: the view the executable token must
/// present, plus the half-open source span `[start, end)` it was built
/// from.
pub struct TokenModel {
    pub kind: TokenType,
    pub lexeme: Seq<char>,
    pub literal: LiteralView,
    pub line: nat,
    pub start: int,
    pub end: int,
}

use crate::token::TokenView;

impl TokenModel {
    /// The part of the model the executable token carries: everything but
    /// the span.
    pub open spec fn as_view(self) -> TokenView {
        TokenView { kind: self.kind, lexeme: self.lexeme, literal: self.literal, line: self.line }
    }
}

/// An error as the specification sees it: kind, line, and the source
/// position `pos` at which scanning detected it.
pub struct LexErrorModel {
    pub kind: LexErrorKind,
    pub line: nat,
    pub pos: int,
}

use crate::token::LexErrorView;

impl LexErrorModel {
    /// The part of the model the executable error record carries.
    pub open spec fn as_view(self) -> LexErrorView {
        LexErrorView { kind: self.kind, line: self.line }
    }
}

/// Everything one scan owes: the tokens in source order, the errors in
/// source order, and the final value of the 1-based line counter.
pub struct ScanOut {
    pub tokens: Seq<TokenModel>,
    pub errors: Seq<LexErrorModel>,
    pub line: nat,
}

pub open spec fn scan_done(l: nat) -> ScanOut {
    ScanOut { tokens: Seq::empty(), errors: Seq::empty(), line: l }
}

pub open spec fn with_token(t: TokenModel, rest: ScanOut) -> ScanOut {
    ScanOut { tokens: seq![t] + rest.tokens, errors: rest.errors, line: rest.line }
}

pub open spec fn with_error(e: LexErrorModel, rest: ScanOut) -> ScanOut {
    ScanOut { tokens: rest.tokens, errors: seq![e] + rest.errors, line: rest.line }
}

// ---------------------------------------------------------------------------
// Token constructors of the specification
// ---------------------------------------------------------------------------

/// A single-character punctuation token at `i`.
pub open spec fn punct_token(s: Seq<char>, i: int, l: nat) -> TokenModel {
    TokenModel {
        kind: punct_kind(s[i]),
        lexeme: s.subrange(i, i + 1),
        literal: LiteralView::Nil,
        line: l,
        start: i,
        end: i + 1,
    }
}

/// A one-character operator token at `i`.
pub open spec fn op1_token(s: Seq<char>, i: int, l: nat) -> TokenModel {
    TokenModel {
        kind: op1_kind(s[i]),
        lexeme: s.subrange(i, i + 1),
        literal: LiteralView::Nil,
        line: l,
        start: i,
        end: i + 1,
    }
}

/// A two-character operator token at `i`.
pub open spec fn op2_token(s: Seq<char>, i: int, l: nat) -> TokenModel {
    TokenModel {
        kind: op2_kind(s[i]),
        lexeme: s.subrange(i, i + 2),
        literal: LiteralView::Nil,
        line: l,
        start: i,
        end: i + 2,
    }
}

/// A string token whose opening quote stands at `i` and whose closing quote
/// stands at `string_end(s, i + 1)`. Lexeme and literal are the content
/// between the quotes; newlines inside the content count toward the line.
pub open spec fn string_token(s: Seq<char>, i: int, l: nat) -> TokenModel {
    let j = string_end(s, i + 1);
    TokenModel {
        kind: TokenType::String_,
        lexeme: s.subrange(i + 1, j),
        literal: LiteralView::String_(s.subrange(i + 1, j)),
        line: l + newlines_in(s, i + 1, j),
        start: i,
        end: j + 1,
    }
}

/// A number token whose first digit stands at `i`. Lexeme and literal are
/// the exact numeral text.
pub open spec fn number_token(s: Seq<char>, i: int, l: nat) -> TokenModel {
    TokenModel {
        kind: TokenType::Number,
        lexeme: s.subrange(i, number_end(s, i)),
        literal: LiteralView::Number(s.subrange(i, number_end(s, i))),
        line: l,
        start: i,
        end: number_end(s, i),
    }
}

/// The reserved-word table: the token kind of each of the sixteen reserved
/// words, and nothing for any other lexeme.
pub open spec fn spec_keyword(s: Seq<char>) -> Option<TokenType> {
    if s.len() == 2 {
        if s[0] == 'i' && s[1] == 'f' {
            Some(TokenType::If)
        } else if s[0] == 'o' && s[1] == 'r' {
            Some(TokenType::Or)
        } else {
            None
        }
    } else if s.len() == 3 {
        if s[0] == 'a' && s[1] == 'n' && s[2] == 'd' {
            Some(TokenType::And)
        } else if s[0] == 'f' && s[1] == 'o' && s[2] == 'r' {
            Some(TokenType::For)
        } else if s[0] == 'f' && s[1] == 'u' && s[2] == 'n' {
            Some(TokenType::Fun)
        } else if s[0] == 'n' && s[1] == 'i' && s[2] == 'l' {
            Some(TokenType::Nil)
        } else if s[0] == 'v' && s[1] == 'a' && s[2] == 'r' {
            Some(TokenType::Var)
        } else {
            None
        }
    } else if s.len() == 4 {
        if s[0] == 'e' && s[1] == 'l' && s[2] == 's' && s[3] == 'e' {
            Some(TokenType::Else)
        } else if s[0] == 't' && s[1] == 'h' && s[2] == 'i' && s[3] == 's' {
            Some(TokenType::This)
        } else if s[0] == 't' && s[1] == 'r' && s[2] == 'u' && s[3] == 'e' {
            Some(TokenType::True)
        } else {
            None
        }
    } else if s.len() == 5 {
        if s[0] == 'c' && s[1] == 'l' && s[2] == 'a' && s[3] == 's' && s[4] == 's' {
            Some(TokenType::Class)
        } else if s[0] == 'f' && s[1] == 'a' && s[2] == 'l' && s[3] == 's' && s[4] == 'e' {
            Some(TokenType::False)
        } else if s[0] == 'p' && s[1] == 'r' && s[2] == 'i' && s[3] == 'n' && s[4] == 't' {
            Some(TokenType::Print)
        } else if s[0] == 's' && s[1] == 'u' && s[2] == 'p' && s[3] == 'e' && s[4] == 'r' {
            Some(TokenType::Super)
        } else if s[0] == 'w' && s[1] == 'h' && s[2] == 'i' && s[3] == 'l' && s[4] == 'e' {
            Some(TokenType::While)
        } else {
            None
        }
    } else if s.len() == 6 {
        if s[0] == 'r' && s[1] == 'e' && s[2] == 't' && s[3] == 'u' && s[4] == 'r' && s[5] == 'n' {
            Some(TokenType::Return)
        } else {
            None
        }
    } else {
        None
    }
}

/// The kind of an identifier-shaped lexeme: its reserved kind if it is a
/// reserved word, else `Identifier`.
pub open spec fn word_kind(lex: Seq<char>) -> TokenType {
    match spec_keyword(lex) {
        Some(k) => k,
        None => TokenType::Identifier,
    }
}

/// An identifier or reserved-word token whose first character stands at
/// `i`.
pub open spec fn word_token(s: Seq<char>, i: int, l: nat) -> TokenModel {
    let j = word_end(s, i + 1);
    TokenModel {
        kind: word_kind(s.subrange(i, j)),
        lexeme: s.subrange(i, j),
        literal: LiteralView::Nil,
        line: l,
        start: i,
        end: j,
    }
}

// ---------------------------------------------------------------------------
// The scan itself
// ---------------------------------------------------------------------------

/// What scanning `s` from position `i` at line `l` owes: the classification
/// of one character, the step it implies, and the rest of the scan.
pub open spec fn scan_from(s: Seq<char>, i: int, l: nat) -> ScanOut
    decreases s.len() - i,
{
    if !(0 <= i < s.len()) {
        scan_done(l)
    } else {
        proof {
            lemma_digits_end(s, i + 1);
            lemma_word_end(s, i + 1);
            lemma_string_end(s, i + 1);
            lemma_line_end(s, i + 2);
            lemma_number_end(s, i);
        }
        let c = s[i];
        if is_punct(c) {
            with_token(punct_token(s, i, l), scan_from(s, i + 1, l))
        } else if c == '\n' {
            scan_from(s, i + 1, l + 1)
        } else if c == ' ' || c == '\t' || c == '\r' {
            scan_from(s, i + 1, l)
        } else if is_op_start(c) {
            if i + 1 < s.len() && s[i + 1] == '=' {
                with_token(op2_token(s, i, l), scan_from(s, i + 2, l))
            } else {
                with_token(op1_token(s, i, l), scan_from(s, i + 1, l))
            }
        } else if c == '"' {
            let j = string_end(s, i + 1);
            let nl = newlines_in(s, i + 1, j);
            if j < s.len() {
                with_token(string_token(s, i, l), scan_from(s, j + 1, l + nl))
            } else {
                with_error(
                    LexErrorModel { kind: LexErrorKind::UnterminatedString, line: l + nl, pos: j },
                    scan_done(l + nl),
                )
            }
        } else if c == '/' {
            if i + 1 < s.len() && s[i + 1] == '/' {
                scan_from(s, line_end(s, i + 2), l)
            } else {
                scan_from(s, i + 1, l)
            }
        } else if is_digit_char(c) {
            with_token(number_token(s, i, l), scan_from(s, number_end(s, i), l))
        } else if is_alpha_char(c) {
            with_token(word_token(s, i, l), scan_from(s, word_end(s, i + 1), l))
        } else {
            with_error(
                LexErrorModel { kind: LexErrorKind::UnrecognizedCharacter, line: l, pos: i },
                scan_from(s, i + 1, l),
            )
        }
    }
}

/// The whole scan of a source text: from its first character, at line 1.
pub open spec fn scan_spec(s: Seq<char>) -> ScanOut {
    scan_from(s, 0, 1)
}

// ---------------------------------------------------------------------------
// Laws
// ---------------------------------------------------------------------------

/// A token's lexeme as it stands in the source: the lexeme itself, except
/// for string tokens, whose stripped delimiting quotes are re-inserted.
pub open spec fn rendered(t: TokenModel) -> Seq<char> {
    if t.kind == TokenType::String_ {
        seq!['"'] + t.lexeme + seq!['"']
    } else {
        t.lexeme
    }
}

/// What holds of every token a scan from `(i, l)` produces: its span lies
/// at or after `i` inside the source, its rendered lexeme is exactly the
/// source text of its span, and its line is `l` plus the newlines between
/// `i` and the end of its span.
pub open spec fn token_in_range(s: Seq<char>, i: int, l: nat, t: TokenModel) -> bool {
    &&& i <= t.start < t.end <= s.len()
    &&& rendered(t) == s.subrange(t.start, t.end)
    &&& t.line == l + newlines_in(s, i, t.end)
}

/// What holds of every error a scan from `(i, l)` produces: it was
/// detected at or after `i`, at the line `l` plus the newlines up to its
/// position.
pub open spec fn error_in_range(s: Seq<char>, i: int, l: nat, e: LexErrorModel) -> bool {
    &&& i <= e.pos <= s.len()
    &&& e.line == l + newlines_in(s, i, e.pos)
}

/// All positional facts of one scan at once: the final line is `l` plus
/// the newlines of the rest of the source, every token and error is in
/// range, and the token spans are disjoint and ordered.
pub open spec fn scan_props(s: Seq<char>, i: int, l: nat) -> bool {
    let out = scan_from(s, i, l);
    &&& out.line == l + newlines_in(s, i, s.len() as int)
    &&& (forall|k: int| 0 <= k < out.tokens.len() ==> token_in_range(s, i, l, #[trigger] out.tokens[k]))
    &&& (forall|k: int|
        0 <= k < out.tokens.len() - 1 ==> (#[trigger] out.tokens[k]).end <= out.tokens[k + 1].start)
    &&& (forall|k: int| 0 <= k < out.errors.len() ==> error_in_range(s, i, l, #[trigger] out.errors[k]))
}

/// Carries [`scan_props`] of the rest of a scan over one consumed token.
#[verifier::rlimit(60)]
proof fn lemma_cons_props(s: Seq<char>, i: int, l: nat, t: TokenModel, i2: int, l2: nat)
    requires
        0 <= i < i2 <= s.len(),
        scan_from(s, i, l) == with_token(t, scan_from(s, i2, l2)),
        token_in_range(s, i, l, t),
        t.end <= i2,
        l2 == l + newlines_in(s, i, i2),
        scan_props(s, i2, l2),
    ensures
        scan_props(s, i, l),
{
    let out = scan_from(s, i, l);
    let rest = scan_from(s, i2, l2);
    lemma_newlines_concat(s, i, i2, s.len() as int);
    assert forall|k: int| 0 <= k < out.tokens.len() implies token_in_range(
        s,
        i,
        l,
        #[trigger] out.tokens[k],
    ) by {
        if k == 0 {
            assert(out.tokens[0] == t);
        } else {
            assert(out.tokens[k] == rest.tokens[k - 1]);
            let tk = rest.tokens[k - 1];
            assert(token_in_range(s, i2, l2, tk));
            lemma_newlines_concat(s, i, i2, tk.end);
        }
    }
    assert forall|k: int| 0 <= k < out.tokens.len() - 1 implies (#[trigger] out.tokens[k]).end
        <= out.tokens[k + 1].start by {
        if k == 0 {
            assert(out.tokens[1] == rest.tokens[0]);
            assert(token_in_range(s, i2, l2, rest.tokens[0]));
        } else {
            assert(out.tokens[k] == rest.tokens[k - 1]);
            assert(out.tokens[k + 1] == rest.tokens[k]);
        }
    }
    assert forall|k: int| 0 <= k < out.errors.len() implies error_in_range(
        s,
        i,
        l,
        #[trigger] out.errors[k],
    ) by {
        assert(out.errors[k] == rest.errors[k]);
        let ek = rest.errors[k];
        assert(error_in_range(s, i2, l2, ek));
        lemma_newlines_concat(s, i, i2, ek.pos);
    }
}

/// Carries [`scan_props`] of the rest of a scan over consumed characters
/// that produce nothing.
#[verifier::rlimit(60)]
proof fn lemma_skip_props(s: Seq<char>, i: int, l: nat, i2: int, l2: nat)
    requires
        0 <= i < i2 <= s.len(),
        scan_from(s, i, l) == scan_from(s, i2, l2),
        l2 == l + newlines_in(s, i, i2),
        scan_props(s, i2, l2),
    ensures
        scan_props(s, i, l),
{
    let out = scan_from(s, i, l);
    let rest = scan_from(s, i2, l2);
    lemma_newlines_concat(s, i, i2, s.len() as int);
    assert forall|k: int| 0 <= k < out.tokens.len() implies token_in_range(
        s,
        i,
        l,
        #[trigger] out.tokens[k],
    ) by {
        let tk = rest.tokens[k];
        assert(token_in_range(s, i2, l2, tk));
        lemma_newlines_concat(s, i, i2, tk.end);
    }
    assert forall|k: int| 0 <= k < out.errors.len() implies error_in_range(
        s,
        i,
        l,
        #[trigger] out.errors[k],
    ) by {
        let ek = rest.errors[k];
        assert(error_in_range(s, i2, l2, ek));
        lemma_newlines_concat(s, i, i2, ek.pos);
    }
}

/// Carries [`scan_props`] of the rest of a scan over one recorded error.
#[verifier::rlimit(60)]
proof fn lemma_err_props(s: Seq<char>, i: int, l: nat, em: LexErrorModel, i2: int, l2: nat)
    requires
        0 <= i < i2 <= s.len(),
        scan_from(s, i, l) == with_error(em, scan_from(s, i2, l2)),
        error_in_range(s, i, l, em),
        l2 == l + newlines_in(s, i, i2),
        scan_props(s, i2, l2),
    ensures
        scan_props(s, i, l),
{
    let out = scan_from(s, i, l);
    let rest = scan_from(s, i2, l2);
    lemma_newlines_concat(s, i, i2, s.len() as int);
    assert forall|k: int| 0 <= k < out.tokens.len() implies token_in_range(
        s,
        i,
        l,
        #[trigger] out.tokens[k],
    ) by {
        let tk = rest.tokens[k];
        assert(token_in_range(s, i2, l2, tk));
        lemma_newlines_concat(s, i, i2, tk.end);
    }
    assert forall|k: int| 0 <= k < out.tokens.len() - 1 implies (#[trigger] out.tokens[k]).end
        <= out.tokens[k + 1].start by {
        assert(out.tokens[k] == rest.tokens[k]);
        assert(out.tokens[k + 1] == rest.tokens[k + 1]);
    }
    assert forall|k: int| 0 <= k < out.errors.len() implies error_in_range(
        s,
        i,
        l,
        #[trigger] out.errors[k],
    ) by {
        if k == 0 {
            assert(out.errors[0] == em);
        } else {
            assert(out.errors[k] == rest.errors[k - 1]);
            let ek = rest.errors[k - 1];
            assert(error_in_range(s, i2, l2, ek));
            lemma_newlines_concat(s, i, i2, ek.pos);
        }
    }
}

/// One step of the induction for each branch: a consumed punctuation mark.
proof fn lemma_props_punct(s: Seq<char>, i: int, l: nat)
    requires
        0 <= i < s.len(),
        is_punct(s[i]),
        scan_props(s, i + 1, l),
    ensures
        scan_props(s, i, l),
{
    lemma_newlines_none(s, i, i + 1);
    lemma_cons_props(s, i, l, punct_token(s, i, l), i + 1, l);
}

/// One step of the induction: a consumed newline.
proof fn lemma_props_newline(s: Seq<char>, i: int, l: nat)
    requires
        0 <= i < s.len(),
        !is_punct(s[i]),
        s[i] == '\n',
        scan_props(s, i + 1, (l + 1) as nat),
    ensures
        scan_props(s, i, l),
{
    assert(newlines_in(s, i, i + 1) == 1 + newlines_in(s, i + 1, i + 1));
    lemma_skip_props(s, i, l, i + 1, (l + 1) as nat);
}

/// One step of the induction: consumed blank space.
proof fn lemma_props_space(s: Seq<char>, i: int, l: nat)
    requires
        0 <= i < s.len(),
        !is_punct(s[i]),
        s[i] != '\n',
        s[i] == ' ' || s[i] == '\t' || s[i] == '\r',
        scan_props(s, i + 1, l),
    ensures
        scan_props(s, i, l),
{
    lemma_newlines_none(s, i, i + 1);
    lemma_skip_props(s, i, l, i + 1, l);
}

/// One step of the induction: a consumed two-character operator.
proof fn lemma_props_op2(s: Seq<char>, i: int, l: nat)
    requires
        0 <= i < s.len(),
        !is_punct(s[i]),
        s[i] != '\n',
        s[i] != ' ' && s[i] != '\t' && s[i] != '\r',
        is_op_start(s[i]),
        i + 1 < s.len() && s[i + 1] == '=',
        scan_props(s, i + 2, l),
    ensures
        scan_props(s, i, l),
{
    lemma_newlines_none(s, i, i + 2);
    lemma_cons_props(s, i, l, op2_token(s, i, l), i + 2, l);
}

/// One step of the induction: a consumed one-character operator.
proof fn lemma_props_op1(s: Seq<char>, i: int, l: nat)
    requires
        0 <= i < s.len(),
        !is_punct(s[i]),
        s[i] != '\n',
        s[i] != ' ' && s[i] != '\t' && s[i] != '\r',
        is_op_start(s[i]),
        !(i + 1 < s.len() && s[i + 1] == '='),
        scan_props(s, i + 1, l),
    ensures
        scan_props(s, i, l),
{
    lemma_newlines_none(s, i, i + 1);
    lemma_cons_props(s, i, l, op1_token(s, i, l), i + 1, l);
}

/// One step of the induction: a consumed, closed string literal.
proof fn lemma_props_string(s: Seq<char>, i: int, l: nat)
    requires
        0 <= i < s.len(),
        !is_punct(s[i]),
        s[i] != '\n',
        s[i] != ' ' && s[i] != '\t' && s[i] != '\r',
        !is_op_start(s[i]),
        s[i] == '"',
        string_end(s, i + 1) < s.len(),
        scan_props(s, string_end(s, i + 1) + 1, l + newlines_in(s, i + 1, string_end(s, i + 1))),
    ensures
        scan_props(s, i, l),
{
    let j = string_end(s, i + 1);
    let nl = newlines_in(s, i + 1, j);
    lemma_string_end(s, i + 1);
    lemma_newlines_none(s, i, i + 1);
    lemma_newlines_concat(s, i, i + 1, j);
    let t = string_token(s, i, l);
    lemma_newlines_none(s, j, j + 1);
    lemma_newlines_concat(s, i + 1, j, j + 1);
    lemma_newlines_concat(s, i, i + 1, j + 1);
    assert(rendered(t) =~= s.subrange(i, j + 1));
    lemma_cons_props(s, i, l, t, j + 1, l + nl);
}

/// One step of the induction: an unterminated string literal.
proof fn lemma_props_unterminated(s: Seq<char>, i: int, l: nat)
    requires
        0 <= i < s.len(),
        !is_punct(s[i]),
        s[i] != '\n',
        s[i] != ' ' && s[i] != '\t' && s[i] != '\r',
        !is_op_start(s[i]),
        s[i] == '"',
        string_end(s, i + 1) >= s.len(),
        scan_props(s, s.len() as int, l + newlines_in(s, i + 1, string_end(s, i + 1))),
    ensures
        scan_props(s, i, l),
{
    let j = string_end(s, i + 1);
    let nl = newlines_in(s, i + 1, j);
    lemma_string_end(s, i + 1);
    lemma_newlines_none(s, i, i + 1);
    lemma_newlines_concat(s, i, i + 1, j);
    let em = LexErrorModel { kind: LexErrorKind::UnterminatedString, line: l + nl, pos: j };
    assert(scan_from(s, s.len() as int, l + nl) == scan_done(l + nl));
    lemma_err_props(s, i, l, em, s.len() as int, l + nl);
}

/// One step of the induction: a consumed comment.
proof fn lemma_props_comment(s: Seq<char>, i: int, l: nat)
    requires
        0 <= i < s.len(),
        !is_punct(s[i]),
        s[i] != '\n',
        s[i] != ' ' && s[i] != '\t' && s[i] != '\r',
        !is_op_start(s[i]),
        s[i] != '"',
        s[i] == '/',
        i + 1 < s.len() && s[i + 1] == '/',
        scan_props(s, line_end(s, i + 2), l),
    ensures
        scan_props(s, i, l),
{
    let j = line_end(s, i + 2);
    lemma_line_end(s, i + 2);
    lemma_newlines_none(s, i, j);
    lemma_skip_props(s, i, l, j, l);
}

/// One step of the induction: a consumed lone slash.
proof fn lemma_props_slash(s: Seq<char>, i: int, l: nat)
    requires
        0 <= i < s.len(),
        !is_punct(s[i]),
        s[i] != '\n',
        s[i] != ' ' && s[i] != '\t' && s[i] != '\r',
        !is_op_start(s[i]),
        s[i] != '"',
        s[i] == '/',
        !(i + 1 < s.len() && s[i + 1] == '/'),
        scan_props(s, i + 1, l),
    ensures
        scan_props(s, i, l),
{
    lemma_newlines_none(s, i, i + 1);
    lemma_skip_props(s, i, l, i + 1, l);
}

/// One step of the induction: a consumed number literal.
proof fn lemma_props_number(s: Seq<char>, i: int, l: nat)
    requires
        0 <= i < s.len(),
        !is_punct(s[i]),
        s[i] != '\n',
        s[i] != ' ' && s[i] != '\t' && s[i] != '\r',
        !is_op_start(s[i]),
        s[i] != '"',
        s[i] != '/',
        is_digit_char(s[i]),
        scan_props(s, number_end(s, i), l),
    ensures
        scan_props(s, i, l),
{
    let j = number_end(s, i);
    lemma_number_end(s, i);
    lemma_newlines_none(s, i, j);
    lemma_cons_props(s, i, l, number_token(s, i, l), j, l);
}

/// One step of the induction: a consumed identifier or reserved word.
proof fn lemma_props_word(s: Seq<char>, i: int, l: nat)
    requires
        0 <= i < s.len(),
        !is_punct(s[i]),
        s[i] != '\n',
        s[i] != ' ' && s[i] != '\t' && s[i] != '\r',
        !is_op_start(s[i]),
        s[i] != '"',
        s[i] != '/',
        !is_digit_char(s[i]),
        is_alpha_char(s[i]),
        scan_props(s, word_end(s, i + 1), l),
    ensures
        scan_props(s, i, l),
{
    let j = word_end(s, i + 1);
    lemma_word_end(s, i + 1);
    lemma_newlines_none(s, i, j);
    lemma_cons_props(s, i, l, word_token(s, i, l), j, l);
}

/// One step of the induction: a consumed unrecognized character.
proof fn lemma_props_unknown(s: Seq<char>, i: int, l: nat)
    requires
        0 <= i < s.len(),
        !is_punct(s[i]),
        s[i] != '\n',
        s[i] != ' ' && s[i] != '\t' && s[i] != '\r',
        !is_op_start(s[i]),
        s[i] != '"',
        s[i] != '/',
        !is_digit_char(s[i]),
        !is_alpha_char(s[i]),
        scan_props(s, i + 1, l),
    ensures
        scan_props(s, i, l),
{
    let em = LexErrorModel { kind: LexErrorKind::UnrecognizedCharacter, line: l, pos: i };
    lemma_newlines_none(s, i, i + 1);
    lemma_err_props(s, i, l, em, i + 1, l);
}

/// Every scan satisfies [`scan_props`]: lines are counted exactly once per
/// newline, every token and error carries the line reached at its place in
/// the source, rendered lexemes are exact source spans, and spans are
/// disjoint and ordered.
pub proof fn lemma_scan_from_props(s: Seq<char>, i: int, l: nat)
    requires
        0 <= i <= s.len(),
    ensures
        scan_props(s, i, l),
    decreases s.len() - i,
{
    if i >= s.len() {
        assert(newlines_in(s, i, s.len() as int) == 0);
    } else {
        let c = s[i];
        lemma_digits_end(s, i + 1);
        lemma_word_end(s, i + 1);
        lemma_string_end(s, i + 1);
        lemma_line_end(s, i + 2);
        lemma_number_end(s, i);
        if is_punct(c) {
            lemma_scan_from_props(s, i + 1, l);
            lemma_props_punct(s, i, l);
        } else if c == '\n' {
            lemma_scan_from_props(s, i + 1, (l + 1) as nat);
            lemma_props_newline(s, i, l);
        } else if c == ' ' || c == '\t' || c == '\r' {
            lemma_scan_from_props(s, i + 1, l);
            lemma_props_space(s, i, l);
        } else if is_op_start(c) {
            if i + 1 < s.len() && s[i + 1] == '=' {
                lemma_scan_from_props(s, i + 2, l);
                lemma_props_op2(s, i, l);
            } else {
                lemma_scan_from_props(s, i + 1, l);
                lemma_props_op1(s, i, l);
            }
        } else if c == '"' {
            let j = string_end(s, i + 1);
            let nl = newlines_in(s, i + 1, j);
            if j < s.len() {
                lemma_scan_from_props(s, j + 1, l + nl);
                lemma_props_string(s, i, l);
            } else {
                lemma_scan_from_props(s, s.len() as int, l + nl);
                lemma_props_unterminated(s, i, l);
            }
        } else if c == '/' {
            if i + 1 < s.len() && s[i + 1] == '/' {
                lemma_scan_from_props(s, line_end(s, i + 2), l);
                lemma_props_comment(s, i, l);
            } else {
                lemma_scan_from_props(s, i + 1, l);
                lemma_props_slash(s, i, l);
            }
        } else if is_digit_char(c) {
            lemma_scan_from_props(s, number_end(s, i), l);
            lemma_props_number(s, i, l);
        } else if is_alpha_char(c) {
            lemma_scan_from_props(s, word_end(s, i + 1), l);
            lemma_props_word(s, i, l);
        } else {
            lemma_scan_from_props(s, i + 1, l);
            lemma_props_unknown(s, i, l);
        }
    }
}

/// Line counting law: a whole scan leaves the line counter at one more
/// than the number of newlines in the source; every token reports one more
/// than the number of newlines before the end of its span; and every error
/// reports one more than the number of newlines before the position at
/// which it was detected.
pub proof fn lemma_token_lines(s: Seq<char>)
    ensures
        scan_spec(s).line == 1 + newlines_in(s, 0, s.len() as int),
        forall|k: int|
            0 <= k < scan_spec(s).tokens.len() ==> (#[trigger] scan_spec(s).tokens[k]).line == 1
                + newlines_in(s, 0, scan_spec(s).tokens[k].end),
        forall|k: int|
            0 <= k < scan_spec(s).errors.len() ==> (#[trigger] scan_spec(s).errors[k]).line == 1
                + newlines_in(s, 0, scan_spec(s).errors[k].pos),
{
    lemma_scan_from_props(s, 0, 1);
    assert forall|k: int| 0 <= k < scan_spec(s).tokens.len() implies (#[trigger] scan_spec(
        s,
    ).tokens[k]).line == 1 + newlines_in(s, 0, scan_spec(s).tokens[k].end) by {
        assert(token_in_range(s, 0, 1, scan_spec(s).tokens[k]));
    }
    assert forall|k: int| 0 <= k < scan_spec(s).errors.len() implies (#[trigger] scan_spec(
        s,
    ).errors[k]).line == 1 + newlines_in(s, 0, scan_spec(s).errors[k].pos) by {
        assert(error_in_range(s, 0, 1, scan_spec(s).errors[k]));
    }
}

/// The rendered lexemes of a token sequence, concatenated in order.
pub open spec fn rendered_all(ts: Seq<TokenModel>) -> Seq<char>
    decreases ts.len(),
{
    if ts.len() == 0 {
        Seq::empty()
    } else {
        rendered(ts[0]) + rendered_all(ts.drop_first())
    }
}

/// The source characters covered by the spans of a token sequence,
/// concatenated in order.
pub open spec fn covered_text(s: Seq<char>, ts: Seq<TokenModel>) -> Seq<char>
    decreases ts.len(),
{
    if ts.len() == 0 {
        Seq::empty()
    } else {
        s.subrange(ts[0].start, ts[0].end) + covered_text(s, ts.drop_first())
    }
}

proof fn lemma_rendered_covered(s: Seq<char>, ts: Seq<TokenModel>)
    requires
        forall|k: int|
            0 <= k < ts.len() ==> rendered(#[trigger] ts[k]) == s.subrange(
                ts[k].start,
                ts[k].end,
            ),
    ensures
        rendered_all(ts) == covered_text(s, ts),
    decreases ts.len(),
{
    if ts.len() > 0 {
        assert(rendered(ts[0]) == s.subrange(ts[0].start, ts[0].end));
        assert forall|k: int| 0 <= k < ts.drop_first().len() implies rendered(
            #[trigger] ts.drop_first()[k],
        ) == s.subrange(ts.drop_first()[k].start, ts.drop_first()[k].end) by {
            assert(ts.drop_first()[k] == ts[k + 1]);
        }
        lemma_rendered_covered(s, ts.drop_first());
    }
}

/// Round-trip law: concatenating the lexemes of all produced tokens, with
/// the stripped delimiting quotes re-inserted for string tokens,
/// reproduces exactly the source characters that the tokens' spans cover,
/// and those spans stand disjoint and ordered inside the source. What the
/// scan drops — whitespace, newlines, comments, a lone slash, unrecognized
/// characters and an unterminated string tail — lies wholly outside those
/// spans.
#[verifier::rlimit(60)]
pub proof fn lemma_round_trip(s: Seq<char>)
    ensures
        rendered_all(scan_spec(s).tokens) == covered_text(s, scan_spec(s).tokens),
        forall|k: int|
            0 <= k < scan_spec(s).tokens.len() ==> 0 <= (#[trigger] scan_spec(s).tokens[k]).start
                < scan_spec(s).tokens[k].end <= s.len(),
        forall|k: int|
            0 <= k < scan_spec(s).tokens.len() - 1 ==> (#[trigger] scan_spec(s).tokens[k]).end
                <= scan_spec(s).tokens[k + 1].start,
{
    lemma_scan_from_props(s, 0, 1);
    assert forall|k: int| 0 <= k < scan_spec(s).tokens.len() implies rendered(
        #[trigger] scan_spec(s).tokens[k],
    ) == s.subrange(scan_spec(s).tokens[k].start, scan_spec(s).tokens[k].end) by {
        assert(token_in_range(s, 0, 1, scan_spec(s).tokens[k]));
    }
    lemma_rendered_covered(s, scan_spec(s).tokens);
    assert forall|k: int| 0 <= k < scan_spec(s).tokens.len() implies 0 <= (#[trigger] scan_spec(
        s,
    ).tokens[k]).start < scan_spec(s).tokens[k].end <= s.len() by {
        assert(token_in_range(s, 0, 1, scan_spec(s).tokens[k]));
    }
}

/// Punctuation law: each of the ten single-character punctuation marks,
/// alone, scans to exactly one token of its matching kind, with no literal
/// value, on line 1, and no errors.
pub proof fn lemma_single_punct(c: char)
    requires
        is_punct(c),
    ensures
        scan_spec(seq![c]).tokens.len() == 1,
        scan_spec(seq![c]).tokens[0].as_view() == (crate::token::TokenView {
            kind: punct_kind(c),
            lexeme: seq![c],
            literal: LiteralView::Nil,
            line: 1nat,
        }),
        scan_spec(seq![c]).errors.len() == 0,
{
    let s = seq![c];
    assert(s.subrange(0, 1) =~= s);
    assert(scan_spec(s) == with_token(punct_token(s, 0, 1), scan_from(s, 1, 1)));
}

/// Operator law: each operator character alone scans to its one-character
/// kind, and followed by `=` to its two-character kind — no false merging
/// and no false splitting, and the eight kinds are distinct by
/// [`op1_kind`] and [`op2_kind`].
pub proof fn lemma_operator_pair(c: char)
    requires
        is_op_start(c),
    ensures
        scan_spec(seq![c]).tokens.len() == 1,
        scan_spec(seq![c]).tokens[0].kind == op1_kind(c),
        scan_spec(seq![c]).errors.len() == 0,
        scan_spec(seq![c, '=']).tokens.len() == 1,
        scan_spec(seq![c, '=']).tokens[0].kind == op2_kind(c),
        scan_spec(seq![c, '=']).errors.len() == 0,
{
    let s1 = seq![c];
    assert(scan_spec(s1) == with_token(op1_token(s1, 0, 1), scan_from(s1, 1, 1)));
    let s2 = seq![c, '='];
    assert(scan_spec(s2) == with_token(op2_token(s2, 0, 1), scan_from(s2, 2, 1)));
}

/// Unrecognized-character law: a single character of no recognized class
/// yields no token and exactly one UnrecognizedCharacter error at line 1.
pub proof fn lemma_single_unknown(c: char)
    requires
        !is_punct(c),
        c != '\n',
        c != ' ',
        c != '\t',
        c != '\r',
        !is_op_start(c),
        c != '"',
        c != '/',
        !is_digit_char(c),
        !is_alpha_char(c),
    ensures
        scan_spec(seq![c]).tokens.len() == 0,
        scan_spec(seq![c]).errors.len() == 1,
        scan_spec(seq![c]).errors[0] == (LexErrorModel {
            kind: LexErrorKind::UnrecognizedCharacter,
            line: 1nat,
            pos: 0,
        }),
{
    let s = seq![c];
    assert(scan_spec(s) == with_error(
        LexErrorModel { kind: LexErrorKind::UnrecognizedCharacter, line: 1nat, pos: 0 },
        scan_from(s, 1, 1),
    ));
}

} // verus!
