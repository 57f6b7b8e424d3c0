//! Verine expressions: the expressions written between `(` and `)` in a line.
//! They are split into tokens here and evaluated to a single value.

use vstd::prelude::*;

use crate::fault::Fault;
use crate::text::{
    char_is_alphanumeric, char_is_whitespace, is_digit, parse_i32_range, spec_parse_i32, string_of,
    unicode_alphanumeric, unicode_whitespace,
};
use crate::tokenizer::tokens_view;

verus! {

/// An arithmetic operator.
#[derive(Debug, Clone, Copy, PartialEq, Eq, Structural)]
pub enum Op {
    Plus,
    Minus,
    Asterisk,
    Slash,
    Pow,
}

/// A token of a verine expression.
///
/// A float is held as the decimal text of its `f32` value.
#[derive(Debug)]
pub enum Token {
    Id(String),
    Float(String),
    Integer(i32),
    String(String),
    Operator(Op),
    Get,
    From,
    Len,
    At,
    StringFrom,
    IntegerFrom,
    ReadLn,
    OpenVerine,
    CloseVerine,
}

/// The mathematical form of a token.
pub enum TokenV {
    Id(Seq<char>),
    Float(Seq<char>),
    Integer(i32),
    String(Seq<char>),
    Operator(Op),
    Get,
    From,
    Len,
    At,
    StringFrom,
    IntegerFrom,
    ReadLn,
    OpenVerine,
    CloseVerine,
}

impl View for Token {
    type V = TokenV;

    open spec fn view(&self) -> TokenV {
        match self {
            Token::Id(s) => TokenV::Id(s@),
            Token::Float(s) => TokenV::Float(s@),
            Token::Integer(i) => TokenV::Integer(*i),
            Token::String(s) => TokenV::String(s@),
            Token::Operator(o) => TokenV::Operator(*o),
            Token::Get => TokenV::Get,
            Token::From => TokenV::From,
            Token::Len => TokenV::Len,
            Token::At => TokenV::At,
            Token::StringFrom => TokenV::StringFrom,
            Token::IntegerFrom => TokenV::IntegerFrom,
            Token::ReadLn => TokenV::ReadLn,
            Token::OpenVerine => TokenV::OpenVerine,
            Token::CloseVerine => TokenV::CloseVerine,
        }
    }
}

impl Token {
    /// A copy of the token.
    pub fn duplicate(&self) -> (r: Token)
        ensures
            r@ == self@,
    {
        match self {
            Token::Id(s) => Token::Id(s.clone()),
            Token::Float(s) => Token::Float(s.clone()),
            Token::Integer(i) => Token::Integer(*i),
            Token::String(s) => Token::String(s.clone()),
            Token::Operator(o) => Token::Operator(*o),
            Token::Get => Token::Get,
            Token::From => Token::From,
            Token::Len => Token::Len,
            Token::At => Token::At,
            Token::StringFrom => Token::StringFrom,
            Token::IntegerFrom => Token::IntegerFrom,
            Token::ReadLn => Token::ReadLn,
            Token::OpenVerine => Token::OpenVerine,
            Token::CloseVerine => Token::CloseVerine,
        }
    }
}

/// Why a verine expression could not be tokenized or evaluated.
#[derive(Debug)]
pub enum TokenizerError {
    UnexpectedCharacter(char),
    StdInError,
    InvalidExpression,
    VariableNotFound(String),
    NumberNotAnInteger(String),
    InvalidOperands,
    InvalidIndex(String),
    IndexOutOfBounds,
    TypeNotIndexable,
    TypeHasNoLength,
    DivisionByZero,
}

/// The mathematical form of a `TokenizerError`.
pub enum TokenizerErrorV {
    UnexpectedCharacter(char),
    StdInError,
    InvalidExpression,
    VariableNotFound(Seq<char>),
    NumberNotAnInteger(Seq<char>),
    InvalidOperands,
    InvalidIndex(Seq<char>),
    IndexOutOfBounds,
    TypeNotIndexable,
    TypeHasNoLength,
    DivisionByZero,
}

impl View for TokenizerError {
    type V = TokenizerErrorV;

    open spec fn view(&self) -> TokenizerErrorV {
        match self {
            TokenizerError::UnexpectedCharacter(c) => TokenizerErrorV::UnexpectedCharacter(*c),
            TokenizerError::StdInError => TokenizerErrorV::StdInError,
            TokenizerError::InvalidExpression => TokenizerErrorV::InvalidExpression,
            TokenizerError::VariableNotFound(s) => TokenizerErrorV::VariableNotFound(s@),
            TokenizerError::NumberNotAnInteger(s) => TokenizerErrorV::NumberNotAnInteger(s@),
            TokenizerError::InvalidOperands => TokenizerErrorV::InvalidOperands,
            TokenizerError::InvalidIndex(s) => TokenizerErrorV::InvalidIndex(s@),
            TokenizerError::IndexOutOfBounds => TokenizerErrorV::IndexOutOfBounds,
            TokenizerError::TypeNotIndexable => TokenizerErrorV::TypeNotIndexable,
            TokenizerError::TypeHasNoLength => TokenizerErrorV::TypeHasNoLength,
            TokenizerError::DivisionByZero => TokenizerErrorV::DivisionByZero,
        }
    }
}

// ---------------------------------------------------------------------------
// Character classes of the expression language
// ---------------------------------------------------------------------------

/// A character that may stand in a keyword or a variable name.
pub open spec fn spec_is_valid_identifier_character(c: char) -> bool {
    unicode_alphanumeric(c) || c == '_'
}

/// A character that starts an operator or a verine bar.
pub open spec fn spec_is_punctuation(c: char) -> bool {
    c == '+' || c == '-' || c == '*' || c == '/' || c == '.' || c == '|'
}

/// Whether `c` may stand in a keyword or a variable name.
pub fn is_valid_identifier_character(c: char) -> (r: bool)
    ensures
        r == spec_is_valid_identifier_character(c),
{
    char_is_alphanumeric(c) || c == '_'
}

/// Whether `c` starts an operator or a verine bar.
pub fn is_punctuation(c: char) -> (r: bool)
    ensures
        r == spec_is_punctuation(c),
{
    match c {
        '+' | '-' | '*' | '/' | '.' | '|' => true,
        _ => false,
    }
}

// ---------------------------------------------------------------------------
// What the tokenizer produces, stated over the characters
// ---------------------------------------------------------------------------

/// Where a string literal whose text starts at `k` ends: the index of its
/// closing quote, or the end of the input. A backslash followed by a quote
/// belongs to the text.
pub open spec fn string_end(s: Seq<char>, k: int) -> int
    decreases s.len() - k,
{
    if k < 0 || k >= s.len() {
        s.len() as int
    } else if s[k] == '\\' && k + 1 < s.len() && s[k + 1] == '"' {
        string_end(s, k + 2)
    } else if s[k] == '"' {
        k
    } else {
        string_end(s, k + 1)
    }
}

/// Where a numeric literal starting at `k` ends: a sign (only first), digits
/// and at most one point.
pub open spec fn number_end(s: Seq<char>, k: int, sign_ok: bool, point_ok: bool) -> int
    decreases s.len() - k,
{
    if k < 0 || k >= s.len() {
        k
    } else if (s[k] == '+' || s[k] == '-') && sign_ok {
        number_end(s, k + 1, false, point_ok)
    } else if s[k] == '.' && point_ok {
        number_end(s, k + 1, false, false)
    } else if is_digit(s[k]) {
        number_end(s, k + 1, false, point_ok)
    } else {
        k
    }
}

/// Where a run of identifier characters starting at `k` ends.
pub open spec fn ident_end(s: Seq<char>, k: int) -> int
    decreases s.len() - k,
{
    if 0 <= k < s.len() && spec_is_valid_identifier_character(s[k]) {
        ident_end(s, k + 1)
    } else {
        k
    }
}

/// The token that a word of identifier characters stands for.
pub open spec fn keyword_or_id(w: Seq<char>) -> TokenV {
    if w == seq!['G', 'E', 'T'] {
        TokenV::Get
    } else if w == seq!['F', 'R', 'O', 'M'] {
        TokenV::From
    } else if w == seq!['L', 'E', 'N'] {
        TokenV::Len
    } else if w == seq!['A', 'T'] {
        TokenV::At
    } else if w == seq!['S', 'T', 'R', 'I', 'N', 'G', '_', 'F', 'R', 'O', 'M'] {
        TokenV::StringFrom
    } else if w == seq!['I', 'N', 'T', 'E', 'G', 'E', 'R', '_', 'F', 'R', 'O', 'M'] {
        TokenV::IntegerFrom
    } else if w == seq!['R', 'E', 'A', 'D', 'L', 'N'] {
        TokenV::ReadLn
    } else {
        TokenV::Id(w)
    }
}

/// Whether a `|` after the tokens `toks` opens a verine (rather than closing one).
pub open spec fn bar_opens(toks: Seq<TokenV>) -> bool {
    toks.len() == 0 || match toks.last() {
        TokenV::Operator(_) | TokenV::From | TokenV::At | TokenV::StringFrom
        | TokenV::IntegerFrom => true,
        _ => false,
    }
}

/// Whether a sign followed by a digit after `toks` starts a number.
pub open spec fn sign_starts_number(toks: Seq<TokenV>) -> bool {
    toks.len() == 0 || toks.last() is Operator
}

/// The length and token of the operator or bar at `s[i]` (not a point).
pub open spec fn punctuation_token(s: Seq<char>, i: int, toks: Seq<TokenV>) -> (int, TokenV) {
    if s[i] == '|' {
        (
            1,
            if bar_opens(toks) {
                TokenV::OpenVerine
            } else {
                TokenV::CloseVerine
            },
        )
    } else if s[i] == '+' {
        (1, TokenV::Operator(Op::Plus))
    } else if s[i] == '-' {
        (1, TokenV::Operator(Op::Minus))
    } else if s[i] == '*' && i + 1 < s.len() && s[i + 1] == '*' {
        (2, TokenV::Operator(Op::Pow))
    } else if s[i] == '*' {
        (1, TokenV::Operator(Op::Asterisk))
    } else {
        (1, TokenV::Operator(Op::Slash))
    }
}

/// How tokenizing ends.
pub enum LexOutcome {
    /// All tokens of the input.
    Tokens(Seq<TokenV>),
    /// A character that starts no token.
    UnexpectedCharacter(char),
    /// An integer literal outside the range of `i32`.
    IntegerOverflow,
    /// A `.` that starts no token: the tokenizer makes no further progress.
    NoProgress,
}

pub proof fn lemma_string_end(s: Seq<char>, k: int)
    requires
        0 <= k <= s.len(),
    ensures
        k <= string_end(s, k) <= s.len(),
        string_end(s, k) < s.len() ==> s[string_end(s, k)] == '"',
    decreases s.len() - k,
{
    if k < s.len() {
        if s[k] == '\\' && k + 1 < s.len() && s[k + 1] == '"' {
            lemma_string_end(s, k + 2);
        } else if s[k] != '"' {
            lemma_string_end(s, k + 1);
        }
    }
}

pub proof fn lemma_number_end(s: Seq<char>, k: int, sign_ok: bool, point_ok: bool)
    requires
        0 <= k <= s.len(),
    ensures
        k <= number_end(s, k, sign_ok, point_ok) <= s.len(),
    decreases s.len() - k,
{
    if k < s.len() {
        if (s[k] == '+' || s[k] == '-') && sign_ok {
            lemma_number_end(s, k + 1, false, point_ok);
        } else if s[k] == '.' && point_ok {
            lemma_number_end(s, k + 1, false, false);
        } else if is_digit(s[k]) {
            lemma_number_end(s, k + 1, false, point_ok);
        }
    }
}

pub proof fn lemma_ident_end(s: Seq<char>, k: int)
    requires
        0 <= k <= s.len(),
    ensures
        k <= ident_end(s, k) <= s.len(),
    decreases s.len() - k,
{
    if k < s.len() && spec_is_valid_identifier_character(s[k]) {
        lemma_ident_end(s, k + 1);
    }
}

/// The outcome of tokenizing `s` from index `i`, after the tokens `toks`.
pub open spec fn lex(s: Seq<char>, i: int, toks: Seq<TokenV>) -> LexOutcome
    decreases s.len() - i,
{
    if i < 0 || i >= s.len() {
        LexOutcome::Tokens(toks)
    } else {
        let c = s[i];
        if unicode_whitespace(c) {
            lex(s, i + 1, toks)
        } else if c == '"' {
            let e = string_end(s, i + 1);
            if e < s.len() {
                proof {
                    lemma_string_end(s, i + 1);
                }
                lex(s, e + 1, toks.push(TokenV::String(s.subrange(i + 1, e))))
            } else {
                LexOutcome::Tokens(toks)
            }
        } else if is_digit(c) || ((c == '+' || c == '-') && i + 1 < s.len() && is_digit(s[i + 1])
            && sign_starts_number(toks)) {
            let e = number_end(s, i, true, true);
            proof {
                assert(e == number_end(s, i + 1, false, true));
                lemma_number_end(s, i + 1, false, true);
            }
            let text = s.subrange(i, e);
            if text.contains('.') {
                lex(s, e, toks.push(TokenV::Float(text)))
            } else {
                match spec_parse_i32(text) {
                    Some(v) => lex(s, e, toks.push(TokenV::Integer(v))),
                    None => LexOutcome::IntegerOverflow,
                }
            }
        } else if spec_is_punctuation(c) {
            if c == '.' {
                LexOutcome::NoProgress
            } else {
                let (n, t) = punctuation_token(s, i, toks);
                lex(s, i + n, toks.push(t))
            }
        } else if spec_is_valid_identifier_character(c) {
            let e = ident_end(s, i);
            proof {
                assert(e == ident_end(s, i + 1));
                lemma_ident_end(s, i + 1);
            }
            lex(s, e, toks.push(keyword_or_id(s.subrange(i, e))))
        } else {
            LexOutcome::UnexpectedCharacter(c)
        }
    }
}

/// A `|` opens a nested verine where a value has to follow: at the start,
/// and after an operator, `FROM`, `AT`, `STRING_FROM` or `INTEGER_FROM`;
/// after a value it closes one. Tokenizing goes on past it with the bar
/// added as `OpenVerine` or `CloseVerine` (`|` being no white space, as
/// `char::is_whitespace` has it).
pub proof fn law_bar_after_token(s: Seq<char>, i: int, toks: Seq<TokenV>)
    requires
        0 <= i < s.len(),
        s[i] == '|',
        !unicode_whitespace('|'),
    ensures
        toks.len() == 0 || toks.last() is Operator || toks.last() is From || toks.last() is At
            || toks.last() is StringFrom || toks.last() is IntegerFrom ==> lex(s, i, toks) == lex(
            s,
            i + 1,
            toks.push(TokenV::OpenVerine),
        ),
        toks.len() > 0 && (toks.last() is Integer || toks.last() is Float || toks.last() is String
            || toks.last() is Id || toks.last() is CloseVerine || toks.last() is ReadLn) ==> lex(s, i, toks) == lex(
            s,
            i + 1,
            toks.push(TokenV::CloseVerine),
        ),
{
}

/// What tokenizing the whole input `s` gives.
pub open spec fn spec_tokenize(s: Seq<char>) -> LexOutcome {
    lex(s, 0, Seq::empty())
}

// ---------------------------------------------------------------------------
// The tokenizer
// ---------------------------------------------------------------------------

/// Splits the characters of a verine expression into tokens.
pub struct Tokenizer<'a> {
    view: &'a [char],
    pos: usize,
    tokens: Vec<Token>,
}

impl<'a> Tokenizer<'a> {
    /// The tokenizer's position lies within its input.
    pub closed spec fn wf(&self) -> bool {
        self.pos <= self.view@.len()
    }

    /// What tokenizing the rest of the input gives, after the tokens found so far.
    pub closed spec fn pending(&self) -> LexOutcome {
        lex(self.view@, self.pos as int, tokens_view(self.tokens@))
    }

    /// A tokenizer at the start of `view`.
    pub fn new(view: &'a [char]) -> (r: Self)
        ensures
            r.wf(),
            r.pending() == spec_tokenize(view@),
    {
        let r = Self { view, pos: 0, tokens: Vec::new() };
        assert(tokens_view(r.tokens@) =~= Seq::<TokenV>::empty());
        r
    }

    /// Splits the input into tokens.
    ///
    /// Whitespace separates tokens; `"..."` is a string; digits (after an
    /// operator or at the start, with a leading sign) are an integer, or a
    /// float with a point; `+ - * / **` are operators; `|` opens a verine
    /// after an operator, `FROM`, `AT`, `STRING_FROM`, `INTEGER_FROM` or at
    /// the start, and closes one elsewhere; words are keywords or names.
    /// A string that is not closed ends the input.
    pub fn tokenize(&mut self) -> (r: Result<Result<Vec<Token>, TokenizerError>, Fault>)
        requires
            old(self).wf(),
        ensures
            match old(self).pending() {
                LexOutcome::Tokens(ts) => r matches Ok(Ok(v)) && tokens_view(v@) == ts,
                LexOutcome::UnexpectedCharacter(c) => r matches Ok(
                    Err(TokenizerError::UnexpectedCharacter(d)),
                ) && d == c,
                LexOutcome::IntegerOverflow => r == Err::<Result<Vec<Token>, TokenizerError>, Fault>(
                    Fault::IntegerOverflow,
                ),
                LexOutcome::NoProgress => r == Err::<Result<Vec<Token>, TokenizerError>, Fault>(
                    Fault::NoProgress,
                ),
            },
    {
        let ghost goal = old(self).pending();
        loop
            invariant
                self.pos <= self.view@.len(),
                self.pending() == goal,
                goal == old(self).pending(),
            decreases self.view@.len() - self.pos,
        {
            if self.pos >= self.view.len() {
                return Ok(Ok(crate::tokenizer::duplicate_tokens(&self.tokens)));
            }
            let c = self.view[self.pos];
            let last_is_operator = self.tokens.len() == 0 || match &self.tokens[self.tokens.len()
                - 1] {
                Token::Operator(_) => true,
                _ => false,
            };
            let ghost s = self.view@;
            let ghost i = self.pos as int;
            let ghost tv = tokens_view(self.tokens@);
            assert(last_is_operator == sign_starts_number(tv)) by {
                if self.tokens.len() > 0 {
                    assert(tv.last() == self.tokens@.last()@);
                }
            }
            if char_is_whitespace(c) {
                self.pos = self.pos + 1;
                assert(self.pending() == goal);
            } else if c == '"' {
                self.process_string_literals();
                assert(self.pending() == goal);
            } else if ('0' <= c && c <= '9') || ((c == '+' || c == '-') && self.pos + 1
                < self.view.len() && '0' <= self.view[self.pos + 1] && self.view[self.pos + 1]
                <= '9' && last_is_operator) {
                proof {
                    assert(number_end(s, i, true, true) == number_end(s, i + 1, false, true));
                    lemma_number_end(s, i + 1, false, true);
                }
                match self.process_numeric_literals() {
                    Ok(()) => {
                        assert(self.pos == number_end(s, i, true, true));
                        assert(self.pending() == goal);
                    },
                    Err(f) => {
                        return Err(f);
                    },
                }
            } else if is_punctuation(c) {
                if c == '.' {
                    return Err(Fault::NoProgress);
                }
                self.process_operators_and_punctuation();
                assert(self.pending() == goal);
            } else if is_valid_identifier_character(c) {
                proof {
                    assert(ident_end(s, i) == ident_end(s, i + 1));
                    lemma_ident_end(s, i + 1);
                }
                self.process_keywords_and_identifiers();
                assert(self.pending() == goal);
            } else {
                return Ok(Err(TokenizerError::UnexpectedCharacter(c)));
            }
        }
    }

    fn push_token(&mut self, t: Token)
        ensures
            final(self).view == old(self).view,
            final(self).pos == old(self).pos,
            tokens_view(final(self).tokens@) == tokens_view(old(self).tokens@).push(t@),
    {
        self.tokens.push(t);
        assert(tokens_view(self.tokens@) =~= tokens_view(old(self).tokens@).push(t@));
    }

    fn process_string_literals(&mut self)
        requires
            old(self).pos < old(self).view@.len(),
            old(self).view@[old(self).pos as int] == '"',
        ensures
            final(self).view == old(self).view,
            old(self).pos < final(self).pos <= final(self).view@.len(),
            ({
                let s = old(self).view@;
                let i = old(self).pos as int;
                let e = string_end(s, i + 1);
                if e < s.len() {
                    final(self).pos == e + 1 && tokens_view(final(self).tokens@) == tokens_view(
                        old(self).tokens@,
                    ).push(TokenV::String(s.subrange(i + 1, e)))
                } else {
                    final(self).pos == s.len() && final(self).tokens == old(self).tokens
                }
            }),
    {
        let ghost s = self.view@;
        let ghost i = self.pos as int;
        let n = self.view.len();
        let start = self.pos + 1;
        let mut k = start;
        loop
            invariant
                self.view@ == s,
                self.pos == i,
                old(self).pos == i,
                old(self).view@ == s,
                self.tokens == old(self).tokens,
                self.view == old(self).view,
                n == s.len(),
                i + 1 == start <= k <= n,
                string_end(s, k as int) == string_end(s, i + 1),
            decreases n - k,
        {
            if k >= n {
                self.pos = n;
                return ;
            }
            if self.view[k] == '\\' && k + 1 < n && self.view[k + 1] == '"' {
                k = k + 2;
            } else if self.view[k] == '"' {
                let text = string_of(self.view, start, k);
                self.push_token(Token::String(text));
                self.pos = k + 1;
                return ;
            } else {
                k = k + 1;
            }
        }
    }

    fn process_numeric_literals(&mut self) -> (r: Result<(), Fault>)
        requires
            old(self).pos < old(self).view@.len(),
        ensures
            final(self).view == old(self).view,
            ({
                let s = old(self).view@;
                let i = old(self).pos as int;
                let e = number_end(s, i, true, true);
                let text = s.subrange(i, e);
                if text.contains('.') {
                    r is Ok && final(self).pos == e && tokens_view(final(self).tokens@) == tokens_view(
                        old(self).tokens@,
                    ).push(TokenV::Float(text))
                } else {
                    match spec_parse_i32(text) {
                        Some(v) => r is Ok && final(self).pos == e && tokens_view(final(self).tokens@)
                            == tokens_view(old(self).tokens@).push(TokenV::Integer(v)),
                        None => r == Err::<(), Fault>(Fault::IntegerOverflow),
                    }
                }
            }),
            r is Ok ==> final(self).pos <= final(self).view@.len(),
    {
        let ghost s = self.view@;
        let ghost i = self.pos as int;
        let n = self.view.len();
        let start = self.pos;
        let mut k = start;
        let mut sign_ok = true;
        let mut point_ok = true;
        let mut is_float = false;
        proof {
            lemma_number_end(s, i, true, true);
        }
        loop
            invariant
                self.view@ == s,
                self.view == old(self).view,
                self.pos == i,
                old(self).pos == i,
                old(self).view@ == s,
                self.tokens == old(self).tokens,
                n == s.len(),
                i == start <= k <= n,
                number_end(s, k as int, sign_ok, point_ok) == number_end(s, i, true, true),
                is_float == s.subrange(i, k as int).contains('.'),
                !point_ok <==> is_float,
            ensures
                k == number_end(s, i, true, true),
                is_float == s.subrange(i, k as int).contains('.'),
                i <= k <= n,
            decreases n - k,
        {
            let ghost before = s.subrange(i, k as int);
            if k < n && (self.view[k] == '+' || self.view[k] == '-') && sign_ok {
                sign_ok = false;
                k = k + 1;
            } else if k < n && self.view[k] == '.' && point_ok {
                point_ok = false;
                sign_ok = false;
                is_float = true;
                k = k + 1;
            } else if k < n && '0' <= self.view[k] && self.view[k] <= '9' {
                sign_ok = false;
                k = k + 1;
            } else {
                break ;
            }
            proof {
                assert(s.subrange(i, k as int) =~= before.push(s[k - 1]));
                if !before.contains('.') && s[k - 1] != '.' {
                    assert forall|j: int| 0 <= j < s.subrange(i, k as int).len() implies s.subrange(
                        i,
                        k as int,
                    )[j] != '.' by {
                        if j < before.len() {
                            assert(s.subrange(i, k as int)[j] == before[j]);
                        }
                    }
                }
                if before.contains('.') {
                    let j = choose|j: int| 0 <= j < before.len() && before[j] == '.';
                    assert(s.subrange(i, k as int)[j] == '.');
                }
                if s[k - 1] == '.' {
                    assert(s.subrange(i, k as int)[before.len() as int] == '.');
                }
            }
        }
        if is_float {
            let text = string_of(self.view, start, k);
            self.push_token(Token::Float(text));
            self.pos = k;
            Ok(())
        } else {
            match parse_i32_range(self.view, start, k) {
                Some(v) => {
                    self.push_token(Token::Integer(v));
                    self.pos = k;
                    Ok(())
                },
                None => Err(Fault::IntegerOverflow),
            }
        }
    }

    fn process_operators_and_punctuation(&mut self)
        requires
            old(self).pos < old(self).view@.len(),
            spec_is_punctuation(old(self).view@[old(self).pos as int]),
            old(self).view@[old(self).pos as int] != '.',
        ensures
            final(self).view == old(self).view,
            ({
                let (n, t) = punctuation_token(
                    old(self).view@,
                    old(self).pos as int,
                    tokens_view(old(self).tokens@),
                );
                final(self).pos == old(self).pos + n && tokens_view(final(self).tokens@) == tokens_view(
                    old(self).tokens@,
                ).push(t)
            }),
            final(self).pos <= final(self).view@.len(),
    {
        let p = self.pos;
        let c = self.view[p];
        let ghost tv = tokens_view(self.tokens@);
        if c == '|' {
            let opens = self.tokens.len() == 0 || match &self.tokens[self.tokens.len() - 1] {
                Token::Operator(_) | Token::From | Token::At | Token::StringFrom
                | Token::IntegerFrom => true,
                _ => false,
            };
            assert(opens == bar_opens(tv)) by {
                if self.tokens.len() > 0 {
                    assert(tv.last() == self.tokens@.last()@);
                }
            }
            if opens {
                self.push_token(Token::OpenVerine);
            } else {
                self.push_token(Token::CloseVerine);
            }
            self.pos = p + 1;
        } else if c == '+' {
            self.push_token(Token::Operator(Op::Plus));
            self.pos = p + 1;
        } else if c == '-' {
            self.push_token(Token::Operator(Op::Minus));
            self.pos = p + 1;
        } else if c == '*' && p + 1 < self.view.len() && self.view[p + 1] == '*' {
            self.push_token(Token::Operator(Op::Pow));
            self.pos = p + 2;
        } else if c == '*' {
            self.push_token(Token::Operator(Op::Asterisk));
            self.pos = p + 1;
        } else {
            self.push_token(Token::Operator(Op::Slash));
            self.pos = p + 1;
        }
    }

    fn process_keywords_and_identifiers(&mut self)
        requires
            old(self).pos < old(self).view@.len(),
            spec_is_valid_identifier_character(old(self).view@[old(self).pos as int]),
        ensures
            final(self).view == old(self).view,
            ({
                let s = old(self).view@;
                let i = old(self).pos as int;
                let e = ident_end(s, i);
                final(self).pos == e && tokens_view(final(self).tokens@) == tokens_view(old(self).tokens@).push(
                    keyword_or_id(s.subrange(i, e)),
                )
            }),
            final(self).pos <= final(self).view@.len(),
    {
        let ghost s = self.view@;
        let ghost i = self.pos as int;
        let n = self.view.len();
        let start = self.pos;
        let mut k = start;
        while k < n && is_valid_identifier_character(self.view[k])
            invariant
                self.view@ == s,
                n == s.len(),
                i == start <= k <= n,
                ident_end(s, k as int) == ident_end(s, i),
            decreases n - k,
        {
            k = k + 1;
        }
        let t = keyword_token(self.view, start, k);
        self.push_token(t);
        self.pos = k;
    }
}

/// The token for the word `s[from..to]`.
fn keyword_token(s: &[char], from: usize, to: usize) -> (r: Token)
    requires
        from <= to <= s@.len(),
    ensures
        r@ == keyword_or_id(s@.subrange(from as int, to as int)),
{
    let ghost w = s@.subrange(from as int, to as int);
    let len = to - from;
    if len == 3 && s[from] == 'G' && s[from + 1] == 'E' && s[from + 2] == 'T' {
        assert(w =~= seq!['G', 'E', 'T']);
        return Token::Get;
    }
    if len == 4 && s[from] == 'F' && s[from + 1] == 'R' && s[from + 2] == 'O' && s[from + 3] == 'M' {
        assert(w =~= seq!['F', 'R', 'O', 'M']);
        return Token::From;
    }
    if len == 3 && s[from] == 'L' && s[from + 1] == 'E' && s[from + 2] == 'N' {
        assert(w =~= seq!['L', 'E', 'N']);
        return Token::Len;
    }
    if len == 2 && s[from] == 'A' && s[from + 1] == 'T' {
        assert(w =~= seq!['A', 'T']);
        return Token::At;
    }
    if len == 11 && s[from] == 'S' && s[from + 1] == 'T' && s[from + 2] == 'R' && s[from + 3] == 'I'
        && s[from + 4] == 'N' && s[from + 5] == 'G' && s[from + 6] == '_' && s[from + 7] == 'F'
        && s[from + 8] == 'R' && s[from + 9] == 'O' && s[from + 10] == 'M' {
        assert(w =~= seq!['S', 'T', 'R', 'I', 'N', 'G', '_', 'F', 'R', 'O', 'M']);
        return Token::StringFrom;
    }
    if len == 12 && s[from] == 'I' && s[from + 1] == 'N' && s[from + 2] == 'T' && s[from + 3] == 'E'
        && s[from + 4] == 'G' && s[from + 5] == 'E' && s[from + 6] == 'R' && s[from + 7] == '_'
        && s[from + 8] == 'F' && s[from + 9] == 'R' && s[from + 10] == 'O' && s[from + 11] == 'M' {
        assert(w =~= seq!['I', 'N', 'T', 'E', 'G', 'E', 'R', '_', 'F', 'R', 'O', 'M']);
        return Token::IntegerFrom;
    }
    if len == 6 && s[from] == 'R' && s[from + 1] == 'E' && s[from + 2] == 'A' && s[from + 3] == 'D'
        && s[from + 4] == 'L' && s[from + 5] == 'N' {
        assert(w =~= seq!['R', 'E', 'A', 'D', 'L', 'N']);
        return Token::ReadLn;
    }
    proof {
        assert(w.len() == len);
        assert(forall|j: int| 0 <= j < w.len() ==> w[j] == s@[from + j]);
        if w == seq!['G', 'E', 'T'] {
            assert(w[0] == 'G' && w[1] == 'E' && w[2] == 'T');
        }
        if w == seq!['F', 'R', 'O', 'M'] {
            assert(w[0] == 'F' && w[1] == 'R' && w[2] == 'O' && w[3] == 'M');
        }
        if w == seq!['L', 'E', 'N'] {
            assert(w[0] == 'L' && w[1] == 'E' && w[2] == 'N');
        }
        if w == seq!['A', 'T'] {
            assert(w[0] == 'A' && w[1] == 'T');
        }
        if w == seq!['S', 'T', 'R', 'I', 'N', 'G', '_', 'F', 'R', 'O', 'M'] {
            assert(w[0] == 'S' && w[1] == 'T' && w[2] == 'R' && w[3] == 'I' && w[4] == 'N' && w[5]
                == 'G' && w[6] == '_' && w[7] == 'F' && w[8] == 'R' && w[9] == 'O' && w[10] == 'M');
        }
        if w == seq!['I', 'N', 'T', 'E', 'G', 'E', 'R', '_', 'F', 'R', 'O', 'M'] {
            assert(w[0] == 'I' && w[1] == 'N' && w[2] == 'T' && w[3] == 'E' && w[4] == 'G' && w[5]
                == 'E' && w[6] == 'R' && w[7] == '_' && w[8] == 'F' && w[9] == 'R' && w[10] == 'O'
                && w[11] == 'M');
        }
        if w == seq!['R', 'E', 'A', 'D', 'L', 'N'] {
            assert(w[0] == 'R' && w[1] == 'E' && w[2] == 'A' && w[3] == 'D' && w[4] == 'L' && w[5]
                == 'N');
        }
    }
    Token::Id(string_of(s, from, to))
}

} // verus!
