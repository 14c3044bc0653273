//! The executable scanner: a single-use state machine that walks the source
//! text once and is proved to produce exactly the tokens, errors and final
//! line number of the specification [`crate::model::scan_from`].

use vstd::prelude::*;
use vstd::std_specs::iter::IteratorSpec;

use crate::model::{
    digits_end, is_alpha_char, is_digit_char, is_op_start, is_punct, is_word_char, lemma_digits_end,
    lemma_number_end, lemma_string_end, lemma_word_end, line_end, newlines_in, number_end, op1_kind,
    op1_token, op2_kind, op2_token, punct_kind, punct_token, scan_from, spec_keyword, string_end,
    string_token, with_error, with_token, word_end, word_token, LexErrorModel, ScanOut, TokenModel,
};
use crate::token::{LexError, LexErrorKind, LexErrorView, Literal, Token, TokenType, TokenView};

verus! {

broadcast use vstd::string::group_string_axioms, vstd::std_specs::vec::group_vec_axioms;

// ---------------------------------------------------------------------------
// Views of token and error sequences
// ---------------------------------------------------------------------------

/// The views of a sequence of executable tokens.
pub open spec fn views_of_tokens(ts: Seq<Token>) -> Seq<TokenView> {
    ts.map_values(|t: Token| t@)
}

/// The views of a sequence of executable error records.
pub open spec fn views_of_errors(es: Seq<LexError>) -> Seq<LexErrorView> {
    es.map_values(|e: LexError| e@)
}

/// The views of a sequence of specification tokens, spans dropped.
pub open spec fn model_views(ts: Seq<TokenModel>) -> Seq<TokenView> {
    ts.map_values(|t: TokenModel| t.as_view())
}

/// The views of a sequence of specification errors, positions dropped.
pub open spec fn error_views(es: Seq<LexErrorModel>) -> Seq<LexErrorView> {
    es.map_values(|e: LexErrorModel| e.as_view())
}

/// Chains one emitted token: shifts it from the remaining scan into the
/// finished prefix, on the model side and on the executable side at once.
proof fn lemma_emit_token(
    full: ScanOut,
    dt: Seq<TokenModel>,
    de: Seq<LexErrorModel>,
    a: ScanOut,
    t: TokenModel,
    b: ScanOut,
    toks0: Seq<Token>,
    toks_pre: Seq<Token>,
    toks_post: Seq<Token>,
)
    requires
        a == with_token(t, b),
        full.tokens == dt + a.tokens,
        full.errors == de + a.errors,
        full.line == a.line,
        views_of_tokens(toks_pre) == views_of_tokens(toks0) + model_views(dt),
        toks_post.len() == toks_pre.len() + 1,
        toks_post.subrange(0, toks_pre.len() as int) == toks_pre,
        toks_post[toks_pre.len() as int]@ == t.as_view(),
    ensures
        full.tokens == dt.push(t) + b.tokens,
        full.errors == de + b.errors,
        full.line == b.line,
        views_of_tokens(toks_post) == views_of_tokens(toks0) + model_views(dt.push(t)),
{
    assert(full.tokens =~= dt.push(t) + b.tokens);
    let n0 = toks0.len() as int;
    let np = toks_pre.len() as int;
    assert(views_of_tokens(toks_pre).len() == np);
    assert(np == n0 + dt.len());
    assert forall|i: int| 0 <= i < toks_post.len() implies views_of_tokens(toks_post)[i] == (
    views_of_tokens(toks0) + model_views(dt.push(t)))[i] by {
        assert(views_of_tokens(toks_post)[i] == toks_post[i]@);
        if i < np {
            assert(toks_post.subrange(0, np)[i] == toks_post[i]);
            assert(toks_post[i] == toks_pre[i]);
            assert(views_of_tokens(toks_pre)[i] == toks_pre[i]@);
            assert((views_of_tokens(toks0) + model_views(dt))[i] == toks_pre[i]@);
            if i < n0 {
                assert((views_of_tokens(toks0) + model_views(dt.push(t)))[i] == views_of_tokens(
                    toks0,
                )[i]);
            } else {
                assert(model_views(dt)[i - n0] == dt[i - n0].as_view());
                assert(model_views(dt.push(t))[i - n0] == dt.push(t)[i - n0].as_view());
                assert(dt.push(t)[i - n0] == dt[i - n0]);
            }
        } else {
            assert(i == np);
            assert(toks_post[i]@ == t.as_view());
            assert(model_views(dt.push(t))[i - n0] == dt.push(t)[i - n0].as_view());
            assert(dt.push(t)[i - n0] == t);
        }
    }
    assert(views_of_tokens(toks_post) =~= views_of_tokens(toks0) + model_views(dt.push(t)));
}

/// Chains one recorded error, as [`lemma_emit_token`] does for tokens.
proof fn lemma_emit_error(
    full: ScanOut,
    dt: Seq<TokenModel>,
    de: Seq<LexErrorModel>,
    a: ScanOut,
    em: LexErrorModel,
    b: ScanOut,
    e: LexError,
    errs0: Seq<LexError>,
    errs_pre: Seq<LexError>,
    errs_post: Seq<LexError>,
)
    requires
        a == with_error(em, b),
        full.tokens == dt + a.tokens,
        full.errors == de + a.errors,
        full.line == a.line,
        views_of_errors(errs_pre) == views_of_errors(errs0) + error_views(de),
        errs_post == errs_pre.push(e),
        e@ == em.as_view(),
    ensures
        full.tokens == dt + b.tokens,
        full.errors == de.push(em) + b.errors,
        full.line == b.line,
        views_of_errors(errs_post) == views_of_errors(errs0) + error_views(de.push(em)),
{
    assert(full.errors =~= de.push(em) + b.errors);
    let n0 = errs0.len() as int;
    let np = errs_pre.len() as int;
    assert(views_of_errors(errs_pre).len() == np);
    assert(np == n0 + de.len());
    assert forall|i: int| 0 <= i < errs_post.len() implies views_of_errors(errs_post)[i] == (
    views_of_errors(errs0) + error_views(de.push(em)))[i] by {
        assert(views_of_errors(errs_post)[i] == errs_post[i]@);
        if i < np {
            assert(errs_post[i] == errs_pre[i]);
            assert(views_of_errors(errs_pre)[i] == errs_pre[i]@);
            assert((views_of_errors(errs0) + error_views(de))[i] == errs_pre[i]@);
            if i < n0 {
                assert((views_of_errors(errs0) + error_views(de.push(em)))[i] == views_of_errors(
                    errs0,
                )[i]);
            } else {
                assert(error_views(de)[i - n0] == de[i - n0].as_view());
                assert(error_views(de.push(em))[i - n0] == de.push(em)[i - n0].as_view());
                assert(de.push(em)[i - n0] == de[i - n0]);
            }
        } else {
            assert(i == np);
            assert(errs_post[i]@ == em.as_view());
            assert(error_views(de.push(em))[i - n0] == de.push(em)[i - n0].as_view());
            assert(de.push(em)[i - n0] == em);
        }
    }
    assert(views_of_errors(errs_post) =~= views_of_errors(errs0) + error_views(de.push(em)));
}

// ---------------------------------------------------------------------------
// Small executable helpers
// ---------------------------------------------------------------------------

/// Relies on String::push: appends exactly the given character to the end
/// of the string.
#[verifier::external_body]
fn push_char(s: &mut String, c: char)
    ensures
        final(s)@ == old(s)@.push(c),
{
    s.push(c);
}

/// The characters `v[a..b)` as an owned string.
fn chars_to_string(v: &Vec<char>, a: usize, b: usize) -> (r: String)
    requires
        a <= b <= v@.len(),
    ensures
        r@ == v@.subrange(a as int, b as int),
{
    let mut r = String::new();
    let mut k = a;
    proof {
        assert(v@.subrange(a as int, a as int) =~= Seq::<char>::empty());
    }
    while k < b
        invariant
            a <= k <= b <= v@.len(),
            r@ == v@.subrange(a as int, k as int),
        decreases b - k,
    {
        push_char(&mut r, v[k]);
        k = k + 1;
        proof {
            assert(v@.subrange(a as int, k as int) =~= v@.subrange(a as int, k - 1).push(
                v@[k - 1],
            ));
        }
    }
    r
}

fn is_punct_char(c: char) -> (r: bool)
    ensures
        r == is_punct(c),
{
    c == '(' || c == ')' || c == '{' || c == '}' || c == ',' || c == '.' || c == '-' || c == '+'
        || c == ';' || c == '*'
}

fn punct_token_type(c: char) -> (k: TokenType)
    ensures
        k == punct_kind(c),
{
    if c == '(' {
        TokenType::LeftParen
    } else if c == ')' {
        TokenType::RightParen
    } else if c == '{' {
        TokenType::LeftBrace
    } else if c == '}' {
        TokenType::RightBrace
    } else if c == ',' {
        TokenType::Comma
    } else if c == '.' {
        TokenType::Dot
    } else if c == '-' {
        TokenType::Minus
    } else if c == '+' {
        TokenType::Plus
    } else if c == ';' {
        TokenType::Semicolon
    } else {
        TokenType::Star
    }
}

fn is_op_start_char(c: char) -> (r: bool)
    ensures
        r == is_op_start(c),
{
    c == '!' || c == '=' || c == '<' || c == '>'
}

fn op1_token_type(c: char) -> (k: TokenType)
    ensures
        k == op1_kind(c),
{
    if c == '!' {
        TokenType::Bang
    } else if c == '=' {
        TokenType::Equal
    } else if c == '<' {
        TokenType::Less
    } else {
        TokenType::Greater
    }
}

fn op2_token_type(c: char) -> (k: TokenType)
    ensures
        k == op2_kind(c),
{
    if c == '!' {
        TokenType::BangEqual
    } else if c == '=' {
        TokenType::EqualEqual
    } else if c == '<' {
        TokenType::LessEqual
    } else {
        TokenType::GreaterEqual
    }
}

/// The reserved-word table as a pure lookup: the reserved kind of the given
/// lexeme, or nothing if it is an ordinary identifier.
pub fn keyword_lookup(w: &Vec<char>) -> (r: Option<TokenType>)
    ensures
        r == spec_keyword(w@),
{
    let n = w.len();
    if n == 2 {
        if w[0] == 'i' && w[1] == 'f' {
            Some(TokenType::If)
        } else if w[0] == 'o' && w[1] == 'r' {
            Some(TokenType::Or)
        } else {
            None
        }
    } else if n == 3 {
        if w[0] == 'a' && w[1] == 'n' && w[2] == 'd' {
            Some(TokenType::And)
        } else if w[0] == 'f' && w[1] == 'o' && w[2] == 'r' {
            Some(TokenType::For)
        } else if w[0] == 'f' && w[1] == 'u' && w[2] == 'n' {
            Some(TokenType::Fun)
        } else if w[0] == 'n' && w[1] == 'i' && w[2] == 'l' {
            Some(TokenType::Nil)
        } else if w[0] == 'v' && w[1] == 'a' && w[2] == 'r' {
            Some(TokenType::Var)
        } else {
            None
        }
    } else if n == 4 {
        if w[0] == 'e' && w[1] == 'l' && w[2] == 's' && w[3] == 'e' {
            Some(TokenType::Else)
        } else if w[0] == 't' && w[1] == 'h' && w[2] == 'i' && w[3] == 's' {
            Some(TokenType::This)
        } else if w[0] == 't' && w[1] == 'r' && w[2] == 'u' && w[3] == 'e' {
            Some(TokenType::True)
        } else {
            None
        }
    } else if n == 5 {
        if w[0] == 'c' && w[1] == 'l' && w[2] == 'a' && w[3] == 's' && w[4] == 's' {
            Some(TokenType::Class)
        } else if w[0] == 'f' && w[1] == 'a' && w[2] == 'l' && w[3] == 's' && w[4] == 'e' {
            Some(TokenType::False)
        } else if w[0] == 'p' && w[1] == 'r' && w[2] == 'i' && w[3] == 'n' && w[4] == 't' {
            Some(TokenType::Print)
        } else if w[0] == 's' && w[1] == 'u' && w[2] == 'p' && w[3] == 'e' && w[4] == 'r' {
            Some(TokenType::Super)
        } else if w[0] == 'w' && w[1] == 'h' && w[2] == 'i' && w[3] == 'l' && w[4] == 'e' {
            Some(TokenType::While)
        } else {
            None
        }
    } else if n == 6 {
        if w[0] == 'r' && w[1] == 'e' && w[2] == 't' && w[3] == 'u' && w[4] == 'r' && w[5] == 'n' {
            Some(TokenType::Return)
        } else {
            None
        }
    } else {
        None
    }
}

/// The lexeme a token built over the span `[a, b)` carries: the exact span
/// for every kind but strings, whose delimiting quotes are stripped.
pub open spec fn spec_lexeme(s: Seq<char>, a: int, b: int, kind: TokenType) -> Seq<char> {
    if kind == TokenType::String_ {
        s.subrange(a + 1, b - 1)
    } else {
        s.subrange(a, b)
    }
}

// ---------------------------------------------------------------------------
// The scanner
// ---------------------------------------------------------------------------

/// A transient, single-use scanner: the source characters, the cursor pair
/// `(start, current)` bounding the token being built, the 1-based line
/// counter, and the accumulated tokens and errors.
pub struct Scanner {
    pub source: Vec<char>,
    pub tokens: Vec<Token>,
    pub errors: Vec<LexError>,
    pub start: usize,
    pub current: usize,
    pub line: usize,
}

impl Scanner {
    /// Well-formedness: the cursor stays inside the source and the line
    /// counter never exceeds one more than the characters consumed.
    pub open spec fn wf(self) -> bool {
        &&& self.start <= self.current <= self.source@.len()
        &&& 1 <= self.line <= self.current + 1
    }

    /// Builds a fresh scanner over the given source text, cursor at the
    /// first character, line counter at 1, nothing yet produced.
    pub fn new(source_str: &str) -> (sc: Scanner)
        ensures
            sc.source@ == source_str@,
            sc.tokens@.len() == 0,
            sc.errors@.len() == 0,
            sc.start == 0,
            sc.current == 0,
            sc.line == 1,
            sc.wf(),
    {
        let mut source: Vec<char> = Vec::new();
        let mut it = source_str.chars();
        proof {
            assert(Seq::<char>::empty() + source_str@ =~= source_str@);
        }
        loop
            invariant
                it.decrease() is Some,
                source@ + it.remaining() == source_str@,
            ensures
                source@ == source_str@,
            decreases it.decrease()->0,
        {
            match it.next() {
                Some(c) => {
                    source.push(c);
                },
                None => {
                    proof {
                        assert(source@ + it.remaining() =~= source@);
                    }
                    break ;
                },
            }
        }
        Scanner { source, tokens: Vec::new(), errors: Vec::new(), start: 0, current: 0, line: 1 }
    }

    fn next_is_eof(&self) -> (r: bool)
        ensures
            r == (self.current >= self.source@.len()),
    {
        self.current >= self.source.len()
    }

    fn next_char_is(&self, c: char) -> (r: bool)
        ensures
            r == (self.current < self.source@.len() && self.source@[self.current as int] == c),
    {
        self.current < self.source.len() && self.source[self.current] == c
    }

    fn peek_next(&self) -> (c: char)
        requires
            self.current < self.source@.len(),
        ensures
            c == self.source@[self.current as int],
    {
        self.source[self.current]
    }

    fn advance_source(&mut self) -> (c: char)
        requires
            old(self).current < old(self).source@.len(),
        ensures
            final(self).source@ == old(self).source@,
            final(self).tokens@ == old(self).tokens@,
            final(self).errors@ == old(self).errors@,
            final(self).start == old(self).start,
            final(self).line == old(self).line,
            final(self).current == old(self).current + 1,
            c == old(self).source@[old(self).current as int],
    {
        proof {
            assert(vstd::std_specs::vec::spec_vec_len(&self.source) == self.source@.len());
        }
        let c = self.source[self.current];
        self.current = self.current + 1;
        c
    }

    fn increment_line(&mut self)
        requires
            old(self).line < usize::MAX,
        ensures
            final(self).source@ == old(self).source@,
            final(self).tokens@ == old(self).tokens@,
            final(self).errors@ == old(self).errors@,
            final(self).start == old(self).start,
            final(self).current == old(self).current,
            final(self).line == old(self).line + 1,
    {
        self.line = self.line + 1;
    }

    fn is_alpha(&self, c: char) -> (r: bool)
        ensures
            r == is_alpha_char(c),
    {
        c == '_' || c.is_alphabetic()
    }

    fn is_alphanumeric(&self, c: char) -> (r: bool)
        ensures
            r == is_word_char(c),
    {
        c == '_' || c.is_alphanumeric()
    }

    fn is_digit(&self, c: char) -> (r: bool)
        ensures
            r == is_digit_char(c),
    {
        (c as u32) >= ('0' as u32) && (c as u32) <= ('9' as u32)
    }

    /// Appends one token built over the current cursor span, with the given
    /// kind and literal; string tokens carry the span without its quotes.
    fn add_token(&mut self, kind: TokenType, literal: Literal)
        requires
            old(self).start <= old(self).current <= old(self).source@.len(),
            kind == TokenType::String_ ==> old(self).start + 2 <= old(self).current,
        ensures
            final(self).source@ == old(self).source@,
            final(self).errors@ == old(self).errors@,
            final(self).start == old(self).start,
            final(self).current == old(self).current,
            final(self).line == old(self).line,
            final(self).tokens@.len() == old(self).tokens@.len() + 1,
            final(self).tokens@.subrange(0, old(self).tokens@.len() as int) == old(self).tokens@,
            final(self).tokens@[old(self).tokens@.len() as int]@ == (TokenView {
                kind,
                lexeme: spec_lexeme(
                    old(self).source@,
                    old(self).start as int,
                    old(self).current as int,
                    kind,
                ),
                literal: literal@,
                line: old(self).line as nat,
            }),
    {
        let lexeme = if kind == TokenType::String_ {
            chars_to_string(&self.source, self.start + 1, self.current - 1)
        } else {
            chars_to_string(&self.source, self.start, self.current)
        };
        let t = Token::new(kind, lexeme, literal, self.line);
        self.tokens.push(t);
        proof {
            assert(self.tokens@.subrange(0, self.tokens@.len() - 1) =~= old(self).tokens@);
        }
    }

    /// Consumes the body of a string literal whose opening quote was just
    /// consumed: everything up to the next closing quote, counting embedded
    /// newlines like any other newline. Returns the content, or nothing if
    /// the input ends first.
    fn get_string(&mut self) -> (r: Option<String>)
        requires
            old(self).wf(),
            old(self).source@.len() < usize::MAX,
        ensures
            final(self).wf(),
            final(self).source@ == old(self).source@,
            final(self).tokens@ == old(self).tokens@,
            final(self).errors@ == old(self).errors@,
            final(self).start == old(self).start,
            final(self).line == old(self).line + newlines_in(
                old(self).source@,
                old(self).current as int,
                string_end(old(self).source@, old(self).current as int),
            ),
            (match r {
                Some(content) => {
                    let j = string_end(old(self).source@, old(self).current as int);
                    &&& j < old(self).source@.len()
                    &&& final(self).current == j + 1
                    &&& content@ == old(self).source@.subrange(old(self).current as int, j)
                },
                None => {
                    &&& string_end(old(self).source@, old(self).current as int) == old(
                        self,
                    ).source@.len()
                    &&& final(self).current == old(self).source@.len()
                },
            }),
    {
        let ghost s = self.source@;
        let ghost cur0 = self.current as int;
        let ghost line0 = self.line;
        let mut out = String::new();
        proof {
            assert(s.subrange(cur0, cur0) =~= Seq::<char>::empty());
        }
        while self.current < self.source.len() && self.source[self.current] != '"'
            invariant
                self.wf(),
                self.source@ == s,
                s.len() < usize::MAX,
                self.tokens@ == old(self).tokens@,
                self.errors@ == old(self).errors@,
                self.start == old(self).start,
                0 <= cur0 <= self.current <= s.len(),
                string_end(s, cur0) == string_end(s, self.current as int),
                out@ == s.subrange(cur0, self.current as int),
                self.line == line0 + newlines_in(s, cur0, self.current as int),
            decreases s.len() - self.current,
        {
            let ghost precur = self.current as int;
            let c = self.source[self.current];
            if c == '\n' {
                self.line = self.line + 1;
            }
            push_char(&mut out, c);
            self.current = self.current + 1;
            proof {
                assert(cur0 <= precur < s.len());
                crate::model::lemma_subrange_push(s, cur0, precur);
                crate::model::lemma_newlines_extend(s, cur0, precur);
                assert(string_end(s, precur) == string_end(s, precur + 1));
            }
        }
        if self.next_is_eof() {
            proof {
                assert(string_end(s, self.current as int) == self.current as int);
            }
            None
        } else {
            let _ = self.advance_source();
            proof {
                assert(string_end(s, self.current - 1) == self.current - 1);
            }
            Some(out)
        }
    }

    /// Consumes the rest of a number literal whose first digit stands at
    /// `start`: a maximal digit run, one optional `.`, and a further
    /// maximal digit run. Returns the exact numeral text.
    fn get_digit(&mut self) -> (r: String)
        requires
            old(self).wf(),
            old(self).start + 1 == old(self).current,
        ensures
            final(self).wf(),
            final(self).source@ == old(self).source@,
            final(self).tokens@ == old(self).tokens@,
            final(self).errors@ == old(self).errors@,
            final(self).start == old(self).start,
            final(self).line == old(self).line,
            final(self).current == number_end(old(self).source@, old(self).start as int),
            r@ == old(self).source@.subrange(
                old(self).start as int,
                final(self).current as int,
            ),
    {
        let ghost s = self.source@;
        let ghost i = self.start as int;
        while self.current < self.source.len() && self.is_digit(self.peek_next())
            invariant
                self.wf(),
                self.source@ == s,
                self.tokens@ == old(self).tokens@,
                self.errors@ == old(self).errors@,
                self.start == old(self).start,
                self.line == old(self).line,
                0 <= i,
                i + 1 <= self.current <= s.len(),
                digits_end(s, i + 1) == digits_end(s, self.current as int),
            decreases s.len() - self.current,
        {
            let _ = self.advance_source();
            proof {
                assert(digits_end(s, self.current - 1) == digits_end(s, self.current as int));
            }
        }
        let ghost j = digits_end(s, i + 1);
        proof {
            assert(digits_end(s, self.current as int) == self.current as int);
            lemma_digits_end(s, i + 1);
        }
        if self.next_char_is('.') {
            let _ = self.advance_source();
            while self.current < self.source.len() && self.is_digit(self.peek_next())
                invariant
                    self.wf(),
                    self.source@ == s,
                    self.tokens@ == old(self).tokens@,
                    self.errors@ == old(self).errors@,
                    self.start == old(self).start,
                    self.line == old(self).line,
                    0 <= j,
                    j + 1 <= self.current <= s.len(),
                    digits_end(s, j + 1) == digits_end(s, self.current as int),
                decreases s.len() - self.current,
            {
                let _ = self.advance_source();
                proof {
                    assert(digits_end(s, self.current - 1) == digits_end(
                        s,
                        self.current as int,
                    ));
                }
            }
            proof {
                assert(digits_end(s, self.current as int) == self.current as int);
            }
        }
        chars_to_string(&self.source, self.start, self.current)
    }

    /// Consumes the rest of an identifier or reserved word whose first
    /// character stands at `start`, and returns its characters.
    fn get_identifier(&mut self) -> (w: Vec<char>)
        requires
            old(self).wf(),
            old(self).start + 1 == old(self).current,
        ensures
            final(self).wf(),
            final(self).source@ == old(self).source@,
            final(self).tokens@ == old(self).tokens@,
            final(self).errors@ == old(self).errors@,
            final(self).start == old(self).start,
            final(self).line == old(self).line,
            final(self).current == word_end(old(self).source@, old(self).current as int),
            w@ == old(self).source@.subrange(old(self).start as int, final(self).current as int),
    {
        let ghost s = self.source@;
        let ghost i = self.start as int;
        let mut w: Vec<char> = Vec::new();
        w.push(self.source[self.start]);
        proof {
            assert(w@ =~= s.subrange(i, i + 1));
        }
        while self.current < self.source.len() && self.is_alphanumeric(self.peek_next())
            invariant
                self.wf(),
                self.source@ == s,
                self.tokens@ == old(self).tokens@,
                self.errors@ == old(self).errors@,
                self.start == old(self).start,
                self.line == old(self).line,
                0 <= i,
                i + 1 <= self.current <= s.len(),
                word_end(s, i + 1) == word_end(s, self.current as int),
                w@ == s.subrange(i, self.current as int),
            decreases s.len() - self.current,
        {
            let ghost precur = self.current as int;
            let c = self.advance_source();
            w.push(c);
            proof {
                assert(i <= precur < s.len());
                crate::model::lemma_subrange_push(s, i, precur);
                assert(w@ == s.subrange(i, precur + 1));
                assert(word_end(s, precur) == word_end(s, precur + 1));
            }
        }
        proof {
            assert(word_end(s, self.current as int) == self.current as int);
        }
        w
    }

    /// Scans the whole remaining source in one pass and hands the produced
    /// tokens out, leaving the recorded errors behind on the scanner. The
    /// result is exactly what the specification [`scan_from`] owes from the
    /// scanner's cursor and line: the same token views in the same order,
    /// the same error views in the same order, and the same final line.
    pub fn scan_tokens(&mut self) -> (r: Vec<Token>)
        requires
            old(self).wf(),
            old(self).source@.len() < usize::MAX,
        ensures
            final(self).wf(),
            final(self).source@ == old(self).source@,
            final(self).current == old(self).source@.len(),
            final(self).tokens@.len() == 0,
            views_of_tokens(r@) == views_of_tokens(old(self).tokens@) + model_views(
                scan_from(old(self).source@, old(self).current as int, old(self).line as nat).tokens,
            ),
            views_of_errors(final(self).errors@) == views_of_errors(old(self).errors@)
                + error_views(
                scan_from(old(self).source@, old(self).current as int, old(self).line as nat).errors,
            ),
            final(self).line as nat == scan_from(
                old(self).source@,
                old(self).current as int,
                old(self).line as nat,
            ).line,
    {
        let ghost s = self.source@;
        let ghost full = scan_from(s, self.current as int, self.line as nat);
        let ghost toks0 = self.tokens@;
        let ghost errs0 = self.errors@;
        let ghost mut dt: Seq<TokenModel> = Seq::empty();
        let ghost mut de: Seq<LexErrorModel> = Seq::empty();
        proof {
            assert(full.tokens =~= dt + full.tokens);
            assert(full.errors =~= de + full.errors);
            assert(views_of_tokens(self.tokens@) =~= views_of_tokens(toks0) + model_views(dt));
            assert(views_of_errors(self.errors@) =~= views_of_errors(errs0) + error_views(de));
        }
        while self.current < self.source.len()
            invariant
                self.wf(),
                self.source@ == s,
                s.len() < usize::MAX,
                full.tokens == dt + scan_from(s, self.current as int, self.line as nat).tokens,
                full.errors == de + scan_from(s, self.current as int, self.line as nat).errors,
                full.line == scan_from(s, self.current as int, self.line as nat).line,
                views_of_tokens(self.tokens@) == views_of_tokens(toks0) + model_views(dt),
                views_of_errors(self.errors@) == views_of_errors(errs0) + error_views(de),
            decreases s.len() - self.current,
        {
            let ghost cur0 = self.current as int;
            let ghost line0 = self.line as nat;
            let ghost rem0 = scan_from(s, cur0, line0);
            let ghost toks_pre = self.tokens@;
            let ghost errs_pre = self.errors@;
            self.start = self.current;
            let c = self.advance_source();
            if is_punct_char(c) {
                let kind = punct_token_type(c);
                self.add_token(kind, Literal::Nil);
                proof {
                    let t = punct_token(s, cur0, line0);
                    let b = scan_from(s, cur0 + 1, line0);
                    assert(rem0 == with_token(t, b));
                    lemma_emit_token(full, dt, de, rem0, t, b, toks0, toks_pre, self.tokens@);
                    dt = dt.push(t);
                }
            } else if c == '\n' {
                self.increment_line();
                proof {
                    assert(rem0 == scan_from(s, cur0 + 1, line0 + 1));
                }
            } else if c == ' ' || c == '\t' || c == '\r' {
                proof {
                    assert(rem0 == scan_from(s, cur0 + 1, line0));
                }
            } else if is_op_start_char(c) {
                if self.next_char_is('=') {
                    let _ = self.advance_source();
                    let kind = op2_token_type(c);
                    self.add_token(kind, Literal::Nil);
                    proof {
                        let t = op2_token(s, cur0, line0);
                        let b = scan_from(s, cur0 + 2, line0);
                        assert(rem0 == with_token(t, b));
                        lemma_emit_token(full, dt, de, rem0, t, b, toks0, toks_pre, self.tokens@);
                        dt = dt.push(t);
                    }
                } else {
                    let kind = op1_token_type(c);
                    self.add_token(kind, Literal::Nil);
                    proof {
                        let t = op1_token(s, cur0, line0);
                        let b = scan_from(s, cur0 + 1, line0);
                        assert(rem0 == with_token(t, b));
                        lemma_emit_token(full, dt, de, rem0, t, b, toks0, toks_pre, self.tokens@);
                        dt = dt.push(t);
                    }
                }
            } else if c == '"' {
                match self.get_string() {
                    Some(content) => {
                        proof {
                            lemma_string_end(s, cur0 + 1);
                        }
                        self.add_token(TokenType::String_, Literal::String_(content));
                        proof {
                            let t = string_token(s, cur0, line0);
                            let j = string_end(s, cur0 + 1);
                            let b = scan_from(s, j + 1, line0 + newlines_in(s, cur0 + 1, j));
                            assert(rem0 == with_token(t, b));
                            lemma_emit_token(
                                full,
                                dt,
                                de,
                                rem0,
                                t,
                                b,
                                toks0,
                                toks_pre,
                                self.tokens@,
                            );
                            dt = dt.push(t);
                        }
                    },
                    None => {
                        let e = crate::error(self.line, LexErrorKind::UnterminatedString);
                        self.errors.push(e);
                        proof {
                            let j = string_end(s, cur0 + 1);
                            let em = LexErrorModel {
                                kind: LexErrorKind::UnterminatedString,
                                line: line0 + newlines_in(s, cur0 + 1, j),
                                pos: j,
                            };
                            let b = crate::model::scan_done(line0 + newlines_in(s, cur0 + 1, j));
                            assert(rem0 == with_error(em, b));
                            lemma_emit_error(
                                full,
                                dt,
                                de,
                                rem0,
                                em,
                                b,
                                e,
                                errs0,
                                errs_pre,
                                self.errors@,
                            );
                            de = de.push(em);
                        }
                    },
                }
            } else if c == '/' {
                if self.next_char_is('/') {
                    let _ = self.advance_source();
                    while self.current < self.source.len() && self.source[self.current] != '\n'
                        invariant
                            self.wf(),
                            self.source@ == s,
                            self.tokens@ == toks_pre,
                            self.errors@ == errs_pre,
                            self.start == cur0,
                            self.line as nat == line0,
                            0 <= cur0,
                            cur0 + 2 <= self.current <= s.len(),
                            line_end(s, cur0 + 2) == line_end(s, self.current as int),
                        decreases s.len() - self.current,
                    {
                        let _ = self.advance_source();
                        proof {
                            assert(line_end(s, self.current - 1) == line_end(
                                s,
                                self.current as int,
                            ));
                        }
                    }
                    proof {
                        assert(line_end(s, self.current as int) == self.current as int);
                        assert(rem0 == scan_from(s, line_end(s, cur0 + 2), line0));
                    }
                } else {
                    proof {
                        assert(rem0 == scan_from(s, cur0 + 1, line0));
                    }
                }
            } else if self.is_digit(c) {
                let num = self.get_digit();
                proof {
                    lemma_number_end(s, cur0);
                }
                self.add_token(TokenType::Number, Literal::Number(num));
                proof {
                    let t = crate::model::number_token(s, cur0, line0);
                    let b = scan_from(s, number_end(s, cur0), line0);
                    assert(rem0 == with_token(t, b));
                    lemma_emit_token(full, dt, de, rem0, t, b, toks0, toks_pre, self.tokens@);
                    dt = dt.push(t);
                }
            } else if self.is_alpha(c) {
                let w = self.get_identifier();
                let kind = match keyword_lookup(&w) {
                    Some(k) => k,
                    None => TokenType::Identifier,
                };
                proof {
                    lemma_word_end(s, cur0 + 1);
                }
                self.add_token(kind, Literal::Nil);
                proof {
                    let t = word_token(s, cur0, line0);
                    let b = scan_from(s, word_end(s, cur0 + 1), line0);
                    assert(rem0 == with_token(t, b));
                    lemma_emit_token(full, dt, de, rem0, t, b, toks0, toks_pre, self.tokens@);
                    dt = dt.push(t);
                }
            } else {
                let e = crate::error(self.line, LexErrorKind::UnrecognizedCharacter);
                self.errors.push(e);
                proof {
                    let em = LexErrorModel {
                        kind: LexErrorKind::UnrecognizedCharacter,
                        line: line0,
                        pos: cur0,
                    };
                    let b = scan_from(s, cur0 + 1, line0);
                    assert(rem0 == with_error(em, b));
                    lemma_emit_error(full, dt, de, rem0, em, b, e, errs0, errs_pre, self.errors@);
                    de = de.push(em);
                }
            }
        }
        proof {
            assert(scan_from(s, self.current as int, self.line as nat) == crate::model::scan_done(
                self.line as nat,
            ));
            assert(full.tokens =~= dt);
            assert(full.errors =~= de);
        }
        let mut out: Vec<Token> = Vec::new();
        core::mem::swap(&mut out, &mut self.tokens);
        out
    }
}

} // verus!
