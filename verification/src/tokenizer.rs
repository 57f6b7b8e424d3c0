//! The values of the language and the line tokenizer.

use vstd::prelude::*;

use crate::execution::ExecData;
use crate::fault::Fault;
use crate::text::{
    byte_len, byte_slice, char_at_byte_offset, chars_of, f32_literal, spec_parse_i32,
    spec_trim, string_from, string_of, trim_end_count, trim_start_count, unicode_numeric, unicode_whitespace,
};
use crate::variables::{Variables, line_view};
use crate::verine_expression::{LexOutcome, Token, TokenV, Tokenizer, TokenizerError, spec_tokenize};

verus! {

/// An element of an array.
///
/// A float is held as the decimal text of its `f32` value (as written in the
/// source, or as the runtime printed the result of an operation).
#[derive(Debug)]
pub enum ArrayTypesEnum {
    String(String),
    Integer(i32),
    Float(String),
}

/// A value held by a variable or carried by a token of a line.
#[derive(Debug)]
pub enum ValueEnum {
    String(String),
    Integer(i32),
    Float(String),
    Array(Vec<ArrayTypesEnum>),
    Verine(Vec<Token>),
}

/// The mathematical form of an array element.
pub enum ElementV {
    String(Seq<char>),
    Integer(i32),
    Float(Seq<char>),
}

/// The mathematical form of a value.
pub enum ValueV {
    String(Seq<char>),
    Integer(i32),
    Float(Seq<char>),
    Array(Seq<ElementV>),
    Verine(Seq<TokenV>),
}

impl View for ArrayTypesEnum {
    type V = ElementV;

    open spec fn view(&self) -> ElementV {
        match self {
            ArrayTypesEnum::String(s) => ElementV::String(s@),
            ArrayTypesEnum::Integer(i) => ElementV::Integer(*i),
            ArrayTypesEnum::Float(f) => ElementV::Float(f@),
        }
    }
}

pub open spec fn elements_view(v: Seq<ArrayTypesEnum>) -> Seq<ElementV> {
    v.map_values(|e: ArrayTypesEnum| e@)
}

pub open spec fn tokens_view(v: Seq<Token>) -> Seq<TokenV> {
    v.map_values(|t: Token| t@)
}

impl View for ValueEnum {
    type V = ValueV;

    open spec fn view(&self) -> ValueV {
        match self {
            ValueEnum::String(s) => ValueV::String(s@),
            ValueEnum::Integer(i) => ValueV::Integer(*i),
            ValueEnum::Float(f) => ValueV::Float(f@),
            ValueEnum::Array(a) => ValueV::Array(elements_view(a@)),
            ValueEnum::Verine(t) => ValueV::Verine(tokens_view(t@)),
        }
    }
}

impl ArrayTypesEnum {
    /// A copy of the element.
    pub fn duplicate(&self) -> (r: ArrayTypesEnum)
        ensures
            r@ == self@,
    {
        match self {
            ArrayTypesEnum::String(s) => ArrayTypesEnum::String(s.clone()),
            ArrayTypesEnum::Integer(i) => ArrayTypesEnum::Integer(*i),
            ArrayTypesEnum::Float(f) => ArrayTypesEnum::Float(f.clone()),
        }
    }
}

/// A copy of an array.
pub fn duplicate_elements(v: &Vec<ArrayTypesEnum>) -> (r: Vec<ArrayTypesEnum>)
    ensures
        elements_view(r@) == elements_view(v@),
{
    let mut out: Vec<ArrayTypesEnum> = Vec::new();
    let mut i: usize = 0;
    while i < v.len()
        invariant
            i <= v@.len(),
            elements_view(out@) == elements_view(v@.take(i as int)),
        decreases v.len() - i,
    {
        out.push(v[i].duplicate());
        assert(elements_view(v@.take(i + 1)) =~= elements_view(v@.take(i as int)).push(v@[i as int]@));
        assert(elements_view(out@) =~= elements_view(v@.take(i as int)).push(v@[i as int]@)) by {
            assert(elements_view(out@) =~= elements_view(out@.drop_last()).push(out@.last()@));
        }
        i += 1;
    }
    assert(v@.take(v@.len() as int) =~= v@);
    out
}

/// A copy of a token sequence.
pub fn duplicate_tokens(v: &Vec<Token>) -> (r: Vec<Token>)
    ensures
        tokens_view(r@) == tokens_view(v@),
{
    let mut out: Vec<Token> = Vec::new();
    let mut i: usize = 0;
    while i < v.len()
        invariant
            i <= v@.len(),
            tokens_view(out@) == tokens_view(v@.take(i as int)),
        decreases v.len() - i,
    {
        out.push(v[i].duplicate());
        assert(tokens_view(v@.take(i + 1)) =~= tokens_view(v@.take(i as int)).push(v@[i as int]@));
        assert(tokens_view(out@) =~= tokens_view(out@.drop_last()).push(out@.last()@));
        i += 1;
    }
    assert(v@.take(v@.len() as int) =~= v@);
    out
}

impl ValueEnum {
    /// A copy of the value.
    pub fn duplicate(&self) -> (r: ValueEnum)
        ensures
            r@ == self@,
    {
        match self {
            ValueEnum::String(s) => ValueEnum::String(s.clone()),
            ValueEnum::Integer(i) => ValueEnum::Integer(*i),
            ValueEnum::Float(f) => ValueEnum::Float(f.clone()),
            ValueEnum::Array(a) => ValueEnum::Array(duplicate_elements(a)),
            ValueEnum::Verine(t) => ValueEnum::Verine(duplicate_tokens(t)),
        }
    }
}


// ---------------------------------------------------------------------------
// The scan for verine expressions
// ---------------------------------------------------------------------------

// ---------------------------------------------------------------------------
// Verines written between bars
// ---------------------------------------------------------------------------

/// Where the scan for verines written between bars is: inside a string,
/// inside an array, how deep inside parentheses, and inside a verine opened
/// by a bar.
pub struct BarScan {
    pub quote: bool,
    pub array: bool,
    pub parens: int,
    pub bar: bool,
}

/// One character of the scan: outside strings, arrays and parentheses a
/// bar opens a verine, written as `(`, and the next bar outside a string
/// closes it, written as `)`; any other character stays.
pub open spec fn bar_step(st: BarScan, c: char) -> (BarScan, char) {
    if st.bar {
        if st.quote {
            (BarScan { quote: c != '"', ..st }, c)
        } else if c == '"' {
            (BarScan { quote: true, ..st }, c)
        } else if c == '|' {
            (BarScan { bar: false, ..st }, ')')
        } else {
            (st, c)
        }
    } else if st.quote {
        (BarScan { quote: c != '"', ..st }, c)
    } else if st.array {
        (BarScan { array: c != ']', ..st }, c)
    } else if c == '"' {
        (BarScan { quote: true, ..st }, c)
    } else if c == '[' {
        (BarScan { array: true, ..st }, c)
    } else if c == '(' {
        (BarScan { parens: st.parens + 1, ..st }, c)
    } else if c == ')' {
        (
            BarScan {
                parens: if st.parens > 0 {
                    st.parens - 1
                } else {
                    0
                },
                ..st
            },
            c,
        )
    } else if c == '|' && st.parens == 0 {
        (BarScan { bar: true, ..st }, '(')
    } else {
        (st, c)
    }
}

/// The scan after the first `k` characters of `s`, and what they become.
pub open spec fn bar_run(s: Seq<char>, k: int) -> (BarScan, Seq<char>)
    decreases k,
{
    if k <= 0 {
        (BarScan { quote: false, array: false, parens: 0, bar: false }, Seq::empty())
    } else {
        let (st, out) = bar_run(s, k - 1);
        let (st2, c) = bar_step(st, s[k - 1]);
        (st2, out.push(c))
    }
}

/// The line `s` with each verine written between bars (`| ... |`) written
/// between parentheses.
pub open spec fn bar_verines(s: Seq<char>) -> Seq<char> {
    bar_run(s, s.len() as int).1
}

/// Writes the verines of `s` that stand between bars between parentheses.
pub fn bars_to_parentheses(s: &Vec<char>) -> (r: Vec<char>)
    requires
        s@.len() < 0x7fff_ffff,
    ensures
        r@ == bar_verines(s@),
        r@.len() == s@.len(),
{
    let mut out: Vec<char> = Vec::new();
    let mut quote = false;
    let mut array = false;
    let mut parens: i64 = 0;
    let mut bar = false;
    let mut i: usize = 0;
    while i < s.len()
        invariant
            i <= s@.len() < 0x7fff_ffff,
            out@.len() == i,
            0 <= parens <= i,
            bar_run(s@, i as int) == (BarScan { quote, array, parens: parens as int, bar }, out@),
        decreases s.len() - i,
    {
        let c = s[i];
        let mut d = c;
        if bar {
            if quote {
                quote = c != '"';
            } else if c == '"' {
                quote = true;
            } else if c == '|' {
                bar = false;
                d = ')';
            }
        } else if quote {
            quote = c != '"';
        } else if array {
            array = c != ']';
        } else if c == '"' {
            quote = true;
        } else if c == '[' {
            array = true;
        } else if c == '(' {
            parens = parens + 1;
        } else if c == ')' {
            if parens > 0 {
                parens = parens - 1;
            }
        } else if c == '|' && parens == 0 {
            bar = true;
            d = '(';
        }
        out.push(d);
        i += 1;
    }
    assert(s@.len() == i);
    out
}

/// The state of the scan that tokenizes each verine expression of a line:
/// the depth of open parentheses, where the outermost one opened, the tokens
/// of each verine found (`None` where tokenizing failed) and the error
/// messages met.
pub struct VerineScan {
    pub openings: int,
    pub from: int,
    pub verines: Seq<Option<Seq<TokenV>>>,
    pub errors: Seq<Seq<char>>,
}

/// The scan after the character at index `i` of `s`. At a `)` that closes
/// the outermost parenthesis, the text between them (cut by byte offsets
/// that are character indices) is tokenized.
pub open spec fn verine_scan_step(s: Seq<char>, st: VerineScan, i: int) -> Result<VerineScan, Fault> {
    let c = s[i];
    if c == '(' {
        Ok(
            VerineScan {
                openings: st.openings + 1,
                from: if st.openings == 0 {
                    i
                } else {
                    st.from
                },
                verines: st.verines,
                errors: st.errors,
            },
        )
    } else if c == ')' {
        let o = st.openings - 1;
        if o != 0 {
            Ok(VerineScan { openings: o, from: st.from, verines: st.verines, errors: st.errors })
        } else {
            match byte_slice(s, st.from + 1, i) {
                None => Err(Fault::CharBoundary),
                Some(inner) => match spec_tokenize(inner) {
                    LexOutcome::Tokens(ts) => Ok(
                        VerineScan {
                            openings: o,
                            from: st.from,
                            verines: st.verines.push(Some(ts)),
                            errors: st.errors,
                        },
                    ),
                    LexOutcome::UnexpectedCharacter(_) => Ok(
                        VerineScan {
                            openings: o,
                            from: st.from,
                            verines: st.verines.push(None),
                            errors: st.errors.push("INVALID CHARACTER IN VERINE!"@),
                        },
                    ),
                    LexOutcome::IntegerOverflow => Err(Fault::IntegerOverflow),
                    LexOutcome::NoProgress => Err(Fault::NoProgress),
                },
            }
        }
    } else {
        Ok(st)
    }
}

/// The scan after the first `k` characters of `s`.
pub open spec fn verine_scan(s: Seq<char>, k: int) -> Result<VerineScan, Fault>
    decreases k,
{
    if k <= 0 {
        Ok(VerineScan { openings: 0, from: 0, verines: Seq::empty(), errors: Seq::empty() })
    } else {
        match verine_scan(s, k - 1) {
            Ok(st) => verine_scan_step(s, st, k - 1),
            Err(f) => Err(f),
        }
    }
}

pub open spec fn verines_view(v: Seq<Option<Vec<Token>>>) -> Seq<Option<Seq<TokenV>>> {
    v.map_values(
        |o: Option<Vec<Token>>|
            match o {
                Some(t) => Some(tokens_view(t@)),
                None => None,
            },
    )
}

pub open spec fn strings_view(v: Seq<String>) -> Seq<Seq<char>> {
    v.map_values(|s: String| s@)
}

proof fn lemma_verine_scan_stays(s: Seq<char>, k: int, m: int)
    requires
        0 <= k <= m,
        verine_scan(s, k) is Err,
    ensures
        verine_scan(s, m) == verine_scan(s, k),
    decreases m - k,
{
    if m > k {
        lemma_verine_scan_stays(s, k, m - 1);
    }
}

/// Tokenizes the verine expressions of a line.
fn scan_verines(s: &Vec<char>) -> (r: Result<(Vec<Option<Vec<Token>>>, Vec<String>), Fault>)
    requires
        s@.len() < 0x7fff_ffff,
    ensures
        match verine_scan(s@, s@.len() as int) {
            Ok(st) => r matches Ok((v, e)) && verines_view(v@) == st.verines && strings_view(e@)
                == st.errors,
            Err(f) => r == Err::<(Vec<Option<Vec<Token>>>, Vec<String>), Fault>(f),
        },
{
    let mut openings: i64 = 0;
    let mut from: usize = 0;
    let mut verines: Vec<Option<Vec<Token>>> = Vec::new();
    let mut errors: Vec<String> = Vec::new();
    let mut i: usize = 0;
    assert(verines_view(verines@) =~= Seq::empty());
    assert(strings_view(errors@) =~= Seq::empty());
    while i < s.len()
        invariant
            i <= s@.len() < 0x7fff_ffff,
            -(i as int) <= openings <= i,
            from < s@.len() || from == 0,
            verine_scan(s@, i as int) == Ok::<VerineScan, Fault>(
                VerineScan {
                    openings: openings as int,
                    from: from as int,
                    verines: verines_view(verines@),
                    errors: strings_view(errors@),
                },
            ),
        decreases s.len() - i,
    {
        let c = s[i];
        if c == '(' {
            if openings == 0 {
                from = i;
            }
            openings = openings + 1;
        } else if c == ')' {
            openings = openings - 1;
            if openings == 0 {
                let k1 = char_at_byte_offset(s.as_slice(), from + 1);
                let k2 = char_at_byte_offset(s.as_slice(), i);
                let (k1, k2) = match (k1, k2) {
                    (Some(k1), Some(k2)) => {
                        if k1 <= k2 {
                            (k1, k2)
                        } else {
                            proof {
                                lemma_verine_scan_stays(s@, i + 1, s@.len() as int);
                            }
                            return Err(Fault::CharBoundary);
                        }
                    },
                    _ => {
                        proof {
                            lemma_verine_scan_stays(s@, i + 1, s@.len() as int);
                        }
                        return Err(Fault::CharBoundary);
                    },
                };
                proof {
                    crate::text::lemma_char_at_byte_bound(s@, (from + 1) as int);
                    crate::text::lemma_char_at_byte_bound(s@, i as int);
                }
                let inner = crate::text::chars_between(s.as_slice(), k1, k2);
                let mut tokenizer = Tokenizer::new(inner.as_slice());
                match tokenizer.tokenize() {
                    Ok(Ok(tokens)) => {
                        let ghost old_v = verines@;
                        verines.push(Some(tokens));
                        assert(verines_view(verines@) =~= verines_view(old_v).push(
                            Some(tokens_view(tokens@)),
                        ));
                    },
                    Ok(Err(TokenizerError::UnexpectedCharacter(_))) => {
                        let ghost old_v = verines@;
                        let ghost old_e = errors@;
                        verines.push(None);
                        errors.push(string_from("INVALID CHARACTER IN VERINE!"));
                        assert(verines_view(verines@) =~= verines_view(old_v).push(None));
                        assert(strings_view(errors@) =~= strings_view(old_e).push(
                            "INVALID CHARACTER IN VERINE!"@,
                        ));
                    },
                    Ok(Err(_)) => {
                        return Err(Fault::Unreachable);
                    },
                    Err(f) => {
                        proof {
                            lemma_verine_scan_stays(s@, i + 1, s@.len() as int);
                        }
                        return Err(f);
                    },
                }
            }
        }
        i += 1;
    }
    Ok((verines, errors))
}


// ---------------------------------------------------------------------------
// Splitting a line into parts
// ---------------------------------------------------------------------------

/// A character that may stand inside a string literal.
pub open spec fn is_string_character(c: char) -> bool {
    ('A' <= c && c <= 'Z') || ('0' <= c && c <= '9') || c == ',' || c == '.' || c == ':' || c
        == '!' || c == '?' || c == ' '
}

pub open spec fn starts_with_quote(s: Seq<char>) -> bool {
    s.len() > 0 && s[0] == '"'
}

pub open spec fn ends_with_quote(s: Seq<char>) -> bool {
    s.len() > 0 && s.last() == '"'
}

/// The state of the split of a line into parts: the token being read, the
/// array and verine being read, the previous character, whether a `"` was
/// met, which of array, string and verine is open, the parts found and the
/// depth of open parentheses.
#[verifier::ext_equal]
pub struct SplitState {
    pub current: Seq<char>,
    pub array_token: Seq<char>,
    pub verine_token: Seq<char>,
    pub last: char,
    pub any_string: bool,
    pub array_started: bool,
    pub string_started: bool,
    pub verine_started: bool,
    pub parts: Seq<Seq<char>>,
    pub open: int,
}

/// The split goes on, or stops with an error message.
pub enum Split {
    Go(SplitState),
    Stop(Seq<char>),
}

pub open spec fn split_start() -> SplitState {
    SplitState {
        current: Seq::empty(),
        array_token: Seq::empty(),
        verine_token: Seq::empty(),
        last: 'a',
        any_string: false,
        array_started: false,
        string_started: false,
        verine_started: false,
        parts: Seq::empty(),
        open: 0,
    }
}

/// The split after the character `c`. Arrays `[...]` and verines `(...)`
/// are parts of their own; a space ends a part unless it stands in a string
/// that is open, or follows another space.
pub open spec fn split_step(st: SplitState, c: char) -> Split {
    if c == '[' {
        Split::Go(SplitState { array_token: st.array_token.push(c), array_started: true, last: c, ..st })
    } else if c == ']' {
        if st.array_started {
            Split::Go(
                SplitState {
                    array_token: Seq::empty(),
                    parts: st.parts.push(st.array_token.push(c)),
                    array_started: false,
                    last: c,
                    ..st
                },
            )
        } else {
            Split::Stop("A ] ALWAYS NEEDS A [ ! ORDER: [ AND THEN ] !"@)
        }
    } else if st.array_started {
        Split::Go(SplitState { array_token: st.array_token.push(c), last: c, ..st })
    } else if c == '(' {
        let fresh = st.open == 0;
        Split::Go(
            SplitState {
                verine_started: fresh || st.verine_started,
                verine_token: if fresh {
                    seq![c]
                } else {
                    st.verine_token.push(c)
                },
                open: st.open + 1,
                last: c,
                ..st
            },
        )
    } else if c == ')' {
        let vt = st.verine_token.push(c);
        if st.open - 1 == 0 {
            Split::Go(
                SplitState {
                    parts: st.parts.push(vt),
                    verine_started: false,
                    verine_token: Seq::empty(),
                    open: 0,
                    last: c,
                    ..st
                },
            )
        } else {
            Split::Go(SplitState { verine_token: vt, open: st.open - 1, last: c, ..st })
        }
    } else if st.verine_started {
        Split::Go(SplitState { verine_token: st.verine_token.push(c), last: c, ..st })
    } else if c == ' ' {
        if starts_with_quote(st.current) && !ends_with_quote(st.current) {
            Split::Go(SplitState { current: st.current.push(c), last: c, ..st })
        } else if st.last != ' ' {
            Split::Go(
                SplitState { parts: st.parts.push(st.current), current: Seq::empty(), last: c, ..st },
            )
        } else {
            Split::Go(SplitState { last: c, ..st })
        }
    } else {
        let quoted = starts_with_quote(st.current);
        let open_string = if c == '"' && quoted {
            false
        } else {
            st.string_started
        };
        if !is_string_character(c) && open_string {
            Split::Stop("INVALID CHARACTER INSIDE OF THE STRING!"@)
        } else {
            Split::Go(
                SplitState {
                    current: st.current.push(c),
                    any_string: st.any_string || c == '"',
                    string_started: (c == '"' && !quoted) || open_string,
                    last: c,
                    ..st
                },
            )
        }
    }
}

/// The split after the first `k` characters of `line`.
pub open spec fn split_run(line: Seq<char>, k: int) -> Split
    decreases k,
{
    if k <= 0 {
        Split::Go(split_start())
    } else {
        match split_run(line, k - 1) {
            Split::Go(st) => split_step(st, line[k - 1]),
            Split::Stop(m) => Split::Stop(m),
        }
    }
}

/// The parts of a line, an error message, or a fault.
pub enum Parts {
    Parts(Seq<Seq<char>>),
    Error(Seq<char>),
    Fault(Fault),
}

/// The parts of `line` (the trimmed input and a space): without a final
/// empty part; an error where a `[` has no `]` or a string is not closed.
pub open spec fn split_line(line: Seq<char>) -> Parts {
    if line.contains('[') && !line.contains(']') {
        Parts::Error("A [ ALWAYS NEEDS A ] ! ORDER: [ AND THEN ] !"@)
    } else {
        match split_run(line, line.len() as int) {
            Split::Stop(m) => Parts::Error(m),
            Split::Go(st) => if st.any_string && st.current.len() > 0 {
                Parts::Error("STRING ISN'T CLOSED!"@)
            } else if st.parts.len() == 0 {
                Parts::Fault(Fault::NoParts)
            } else if st.parts.last().len() == 0 {
                Parts::Parts(st.parts.drop_last())
            } else {
                Parts::Parts(st.parts)
            },
        }
    }
}


pub open spec fn parts_view(p: Seq<Vec<char>>) -> Seq<Seq<char>> {
    p.map_values(|v: Vec<char>| v@)
}

/// The split of a line into parts, as it runs.
struct Splitter {
    current: Vec<char>,
    array_token: Vec<char>,
    verine_token: Vec<char>,
    last: char,
    any_string: bool,
    array_started: bool,
    string_started: bool,
    verine_started: bool,
    parts: Vec<Vec<char>>,
    open: i64,
}

impl View for Splitter {
    type V = SplitState;

    closed spec fn view(&self) -> SplitState {
        SplitState {
            current: self.current@,
            array_token: self.array_token@,
            verine_token: self.verine_token@,
            last: self.last,
            any_string: self.any_string,
            array_started: self.array_started,
            string_started: self.string_started,
            verine_started: self.verine_started,
            parts: parts_view(self.parts@),
            open: self.open as int,
        }
    }
}

impl Splitter {
    spec fn depth(&self) -> int {
        self.open as int
    }

    fn new() -> (r: Splitter)
        ensures
            r@ == split_start(),
            r.depth() == 0,
    {
        let r = Splitter {
            current: Vec::new(),
            array_token: Vec::new(),
            verine_token: Vec::new(),
            last: 'a',
            any_string: false,
            array_started: false,
            string_started: false,
            verine_started: false,
            parts: Vec::new(),
            open: 0,
        };
        assert(r@ =~= split_start()) by {
            assert(parts_view(r.parts@) =~= Seq::<Seq<char>>::empty());
        }
        r
    }

    /// Takes the next character; an error message where the split stops.
    fn step(&mut self, c: char) -> (r: Option<&'static str>)
        requires
            -0x7fff_ffff < old(self).depth() < 0x7fff_ffff,
        ensures
            match split_step(old(self)@, c) {
                Split::Go(st) => r is None && final(self)@ == st,
                Split::Stop(m) => r matches Some(t) && t@ == m,
            },
            old(self).depth() - 1 <= final(self).depth() <= old(self).depth() + 1,
    {
        let ghost st = self@;
        let quoted = self.current.len() > 0 && self.current[0] == '"';
        let quote_closed = self.current.len() > 0 && self.current[self.current.len() - 1] == '"';
        assert(quoted == starts_with_quote(st.current));
        assert(quote_closed == ends_with_quote(st.current));
        if c == '[' {
            self.array_token.push(c);
            self.array_started = true;
        } else if c == ']' {
            if self.array_started {
                self.array_token.push(c);
                let mut token: Vec<char> = Vec::new();
                std::mem::swap(&mut token, &mut self.array_token);
                let ghost old_parts = self.parts@;
                self.parts.push(token);
                assert(parts_view(self.parts@) =~= parts_view(old_parts).push(token@));
                self.array_started = false;
            } else {
                return Some("A ] ALWAYS NEEDS A [ ! ORDER: [ AND THEN ] !");
            }
        } else if self.array_started {
            self.array_token.push(c);
        } else if c == '(' {
            if self.open == 0 {
                self.verine_started = true;
                self.verine_token = Vec::new();
            }
            self.open = self.open + 1;
            self.verine_token.push(c);
        } else if c == ')' {
            self.verine_token.push(c);
            self.open = self.open - 1;
            if self.open == 0 {
                let mut token: Vec<char> = Vec::new();
                std::mem::swap(&mut token, &mut self.verine_token);
                let ghost old_parts = self.parts@;
                self.parts.push(token);
                assert(parts_view(self.parts@) =~= parts_view(old_parts).push(token@));
                self.verine_started = false;
            }
        } else if self.verine_started {
            self.verine_token.push(c);
        } else if c == ' ' {
            if quoted && !quote_closed {
                self.current.push(c);
            } else if self.last != ' ' {
                let mut token: Vec<char> = Vec::new();
                std::mem::swap(&mut token, &mut self.current);
                let ghost old_parts = self.parts@;
                self.parts.push(token);
                assert(parts_view(self.parts@) =~= parts_view(old_parts).push(token@));
            }
        } else {
            if c == '"' {
                self.any_string = true;
                if quoted {
                    self.string_started = false;
                }
            }
            if !is_string_char(c) && self.string_started {
                return Some("INVALID CHARACTER INSIDE OF THE STRING!");
            }
            if c == '"' && !quoted {
                self.string_started = true;
            }
            self.current.push(c);
        }
        self.last = c;
        assert(self@ =~= (match split_step(st, c) {
            Split::Go(t) => t,
            Split::Stop(_) => st,
        }));
        None
    }
}

/// Whether `c` may stand inside a string literal.
fn is_string_char(c: char) -> (r: bool)
    ensures
        r == is_string_character(c),
{
    ('A' <= c && c <= 'Z') || ('0' <= c && c <= '9') || c == ',' || c == '.' || c == ':' || c
        == '!' || c == '?' || c == ' '
}


proof fn lemma_split_stays(line: Seq<char>, k: int, m: int)
    requires
        0 <= k <= m,
        split_run(line, k) is Stop,
    ensures
        split_run(line, m) == split_run(line, k),
    decreases m - k,
{
    if m > k {
        lemma_split_stays(line, k, m - 1);
    }
}

/// Whether `c` occurs in `s`.
fn contains_char(s: &[char], c: char) -> (r: bool)
    ensures
        r == s@.contains(c),
{
    let mut i: usize = 0;
    while i < s.len()
        invariant
            i <= s@.len(),
            forall|j: int| 0 <= j < i ==> s@[j] != c,
        decreases s.len() - i,
    {
        if s[i] == c {
            return true;
        }
        i += 1;
    }
    false
}

/// Splits a line (the trimmed input and a space) into its parts.
fn split_parts(line: &Vec<char>) -> (r: Result<Result<Vec<Vec<char>>, String>, Fault>)
    requires
        line@.len() <= 0x7fff_ffff,
    ensures
        match split_line(line@) {
            Parts::Parts(ps) => r matches Ok(Ok(v)) && parts_view(v@) == ps,
            Parts::Error(m) => r matches Ok(Err(e)) && e@ == m,
            Parts::Fault(f) => r == Err::<Result<Vec<Vec<char>>, String>, Fault>(f),
        },
{
    if contains_char(line.as_slice(), '[') && !contains_char(line.as_slice(), ']') {
        return Ok(Err(string_from("A [ ALWAYS NEEDS A ] ! ORDER: [ AND THEN ] !")));
    }
    let mut sp = Splitter::new();
    let mut i: usize = 0;
    while i < line.len()
        invariant
            i <= line@.len() <= 0x7fff_ffff,
            -(i as int) <= sp.depth() <= i,
            !(line@.contains('[') && !line@.contains(']')),
            split_run(line@, i as int) == Split::Go(sp@),
        decreases line.len() - i,
    {
        let ghost before = sp@;
        match sp.step(line[i]) {
            Some(m) => {
                proof {
                    assert(split_run(line@, i + 1) == split_step(before, line@[i as int]));
                    lemma_split_stays(line@, i + 1, line@.len() as int);
                }
                return Ok(Err(string_from(m)));
            },
            None => {},
        }
        i += 1;
    }
    let Splitter { current, any_string, parts, .. } = sp;
    if any_string && current.len() > 0 {
        return Ok(Err(string_from("STRING ISN'T CLOSED!")));
    }
    if parts.len() == 0 {
        return Err(Fault::NoParts);
    }
    let mut parts = parts;
    if parts[parts.len() - 1].len() == 0 {
        let ghost before = parts@;
        parts.pop();
        assert(parts_view(parts@) =~= parts_view(before).drop_last());
    }
    Ok(Ok(parts))
}


// ---------------------------------------------------------------------------
// Classifying the parts of a line
// ---------------------------------------------------------------------------

/// The token that carries the error message `m`.
pub open spec fn error_token(m: Seq<char>) -> (Seq<char>, ValueV) {
    ("ERROR_MESSAGE"@, ValueV::String(m))
}

pub open spec fn words(v: Seq<&'static str>) -> Seq<Seq<char>> {
    v.map_values(|w: &'static str| w@)
}

/// The predefined names of the language.
pub open spec fn predefined_names() -> Seq<Seq<char>> {
    words(
        seq![
            "LET",
            "PRINT",
            "FN",
            "START",
            "END",
            "DO",
            "IF",
            "ELSE",
            "ELIF",
            "WHILE",
            "PUSH",
            "POP",
            "INSERT",
            "REMOVE",
            "SET",
            "GET",
            "ONTO",
            "FROM",
            "INTO",
            "AT",
            "TO",
            "LEN",
            "READLN",
            "STRING_FROM",
            "INTEGER_FROM",
            "HELP_FOR",
            "RESET",
            "STOP",
        ],
    )
}

pub open spec fn arithmetic_operators() -> Seq<Seq<char>> {
    words(seq!["+", "-", "*", "/", "**"])
}

pub open spec fn comparing_operators() -> Seq<Seq<char>> {
    words(seq!["==", "!=", "<", ">", "<=", ">="])
}

/// A character that may stand in a variable or function name.
pub open spec fn is_name_character(c: char) -> bool {
    ('A' <= c && c <= 'Z') || c == '_'
}

/// Every character of `part` is numeric, a `-` or a `.`.
pub open spec fn looks_numeric(part: Seq<char>) -> bool {
    forall|i: int| 0 <= i < part.len() ==> (unicode_numeric(#[trigger] part[i]) || part[i] == '-'
        || part[i] == '.')
}

/// The first error of the sign and point checks of a number from index `k`,
/// and the number of points counted up to it.
pub open spec fn number_scan(part: Seq<char>, k: int, dots: int) -> (Option<Seq<char>>, int)
    decreases part.len() - k,
{
    if k < 0 || k >= part.len() {
        (None, dots)
    } else if k != 0 && part[k] == '-' {
        (Some("NEGATIVE SIGN HAS TO BE AT THE BEGINNING OF A NUMBER!"@), dots)
    } else if part[k] == '.' {
        if k == 0 {
            (Some("DOT CAN'T BE AT THE BEGINNING OF THE NUMBER!"@), dots)
        } else if k == byte_len(part) - 1 {
            (Some("DOT CAN'T BE AT THE END OF THE NUMBER!"@), dots)
        } else {
            number_scan(part, k + 1, dots + 1)
        }
    } else {
        number_scan(part, k + 1, dots)
    }
}

/// The tokens of a numeric part, and whether the line's tokenizing stops.
pub open spec fn number_tokens(part: Seq<char>) -> (Seq<(Seq<char>, ValueV)>, bool) {
    let (err, dots) = number_scan(part, 0, 0);
    let first = match err {
        Some(m) => seq![error_token(m)],
        None => Seq::empty(),
    };
    if dots > 1 {
        (first.push(error_token("THERE ARE TOO MANY DOTS IN THE NUMBER!"@)), true)
    } else {
        match spec_parse_i32(part) {
            Some(v) => (first.push(("INTEGER"@, ValueV::Integer(v))), false),
            None => if f32_literal(part) {
                (first.push(("FLOAT"@, ValueV::Float(part))), false)
            } else {
                (first.push(error_token("THE NUMBER IS NOT I32 OR F32!"@)), true)
            },
        }
    }
}


/// The state of reading the elements of an array literal: the elements
/// read, the element being read, which kind of element is being read, the
/// points in the number being read, and whether a comma came after the
/// last element.
#[verifier::ext_equal]
pub struct ArrayState {
    pub elements: Seq<ElementV>,
    pub current: Seq<char>,
    pub in_variable: bool,
    pub in_string: bool,
    pub in_number: bool,
    pub dots: int,
    pub comma_seen: bool,
}

pub open spec fn array_start() -> ArrayState {
    ArrayState {
        elements: Seq::empty(),
        current: Seq::empty(),
        in_variable: false,
        in_string: false,
        in_number: false,
        dots: 0,
        comma_seen: true,
    }
}

/// Reading goes on, or stops with an error message.
pub enum ArrayStep {
    Go(ArrayState),
    Stop(Seq<char>),
}

/// The element that the variable `name` holds, or the error message.
pub open spec fn variable_element(g: Map<Seq<char>, ValueV>, name: Seq<char>) -> Result<ElementV, Seq<char>> {
    if !g.contains_key(name) {
        Err("THERE IS NO VARIABLE CALLED "@ + name + "!"@)
    } else {
        match g[name] {
            ValueV::String(v) => Ok(ElementV::String(v)),
            ValueV::Integer(v) => Ok(ElementV::Integer(v)),
            ValueV::Float(v) => Ok(ElementV::Float(v)),
            _ => Err("VARIABLES IN ARRAYS CAN'T BE ARRAYS!"@),
        }
    }
}

/// The number that `text` denotes as an element, or the error message.
pub open spec fn number_element(text: Seq<char>) -> Result<ElementV, Seq<char>> {
    match spec_parse_i32(text) {
        Some(v) => Ok(ElementV::Integer(v)),
        None => if f32_literal(text) {
            Ok(ElementV::Float(text))
        } else {
            Err("NUMBER ELEMENTS OF AN ARRAY HAVE TO BE I32 OR F32!"@)
        },
    }
}

/// Reading the character at index `k` of `a` (the inside of the array part
/// `part` and a final comma); `g` holds the variables.
pub open spec fn array_step(
    a: Seq<char>,
    part: Seq<char>,
    g: Map<Seq<char>, ValueV>,
    st: ArrayState,
    k: int,
) -> ArrayStep {
    let c = a[k];
    if st.in_string && c != '"' && k == byte_len(a) - 1 {
        ArrayStep::Stop("STRING IN THE ARRAY ISN'T CLOSED!"@)
    } else if c == '"' {
        if !st.in_string && !st.in_number {
            ArrayStep::Go(ArrayState { current: st.current.push(c), in_string: true, ..st })
        } else if st.in_number {
            ArrayStep::Stop("INVALID CHARACTER IN THE ARRAY!"@)
        } else {
            ArrayStep::Go(
                ArrayState {
                    elements: st.elements.push(ElementV::String(st.current.push(c))),
                    current: Seq::empty(),
                    in_string: false,
                    comma_seen: false,
                    ..st
                },
            )
        }
    } else if c == '-' {
        if !st.in_string && !st.in_number && st.comma_seen {
            if k + 1 < a.len() && unicode_numeric(a[k + 1]) {
                ArrayStep::Go(ArrayState { current: st.current.push(c), in_number: true, ..st })
            } else {
                ArrayStep::Stop("INVALID CHARACTER IN THE ARRAY!"@)
            }
        } else {
            ArrayStep::Go(st)
        }
    } else if c == ',' {
        if !st.in_string && !st.in_number && !st.in_variable {
            if !st.comma_seen {
                ArrayStep::Go(ArrayState { comma_seen: true, ..st })
            } else {
                ArrayStep::Stop("THERE ARE TOO MANY COMMAS IN THE ARRAY!"@)
            }
        } else if st.in_variable {
            match variable_element(g, st.current) {
                Err(m) => ArrayStep::Stop(m),
                Ok(e) => if e is String {
                    ArrayStep::Go(
                        ArrayState {
                            elements: st.elements.push(e),
                            current: Seq::empty(),
                            in_string: false,
                            comma_seen: true,
                            ..st
                        },
                    )
                } else {
                    ArrayStep::Go(
                        ArrayState {
                            elements: st.elements.push(e),
                            current: Seq::empty(),
                            in_variable: false,
                            ..st
                        },
                    )
                },
            }
        } else if st.in_number {
            match number_element(st.current) {
                Err(m) => ArrayStep::Stop(m),
                Ok(e) => ArrayStep::Go(
                    ArrayState {
                        elements: st.elements.push(e),
                        current: Seq::empty(),
                        dots: 0,
                        in_number: false,
                        ..st
                    },
                ),
            }
        } else {
            ArrayStep::Go(st)
        }
    } else if !st.comma_seen {
        ArrayStep::Stop("A COMMA IS MISSING!"@)
    } else if !st.in_string && !st.in_number && !st.in_variable {
        if unicode_numeric(c) {
            ArrayStep::Go(ArrayState { current: st.current.push(c), in_number: true, ..st })
        } else if c != ' ' {
            ArrayStep::Go(ArrayState { current: st.current.push(c), in_variable: true, ..st })
        } else {
            ArrayStep::Go(st)
        }
    } else if st.in_variable {
        if c == ' ' {
            match variable_element(g, st.current) {
                Err(m) => ArrayStep::Stop(m),
                Ok(e) => if e is String {
                    ArrayStep::Go(
                        ArrayState {
                            elements: st.elements.push(e),
                            current: Seq::empty(),
                            in_string: false,
                            comma_seen: false,
                            ..st
                        },
                    )
                } else {
                    ArrayStep::Go(
                        ArrayState {
                            elements: st.elements.push(e),
                            current: Seq::empty(),
                            in_variable: false,
                            comma_seen: false,
                            ..st
                        },
                    )
                },
            }
        } else if !is_name_character(c) {
            ArrayStep::Stop("VARIABLE/FUNCTION NAME INCLUDES INVALID CHARACTERS!"@)
        } else {
            ArrayStep::Go(ArrayState { current: st.current.push(c), ..st })
        }
    } else if st.in_string {
        if !is_string_character(c) {
            ArrayStep::Stop("INVALID CHARACTER INSIDE OF THE STRING IN THE ARRAY!"@)
        } else {
            ArrayStep::Go(ArrayState { current: st.current.push(c), ..st })
        }
    } else if unicode_numeric(c) {
        ArrayStep::Go(ArrayState { current: st.current.push(c), ..st })
    } else if c == ' ' {
        match number_element(part) {
            Err(m) => ArrayStep::Stop(m),
            Ok(e) => ArrayStep::Go(
                ArrayState {
                    elements: st.elements.push(e),
                    current: Seq::empty(),
                    dots: 0,
                    in_number: false,
                    comma_seen: false,
                    ..st
                },
            ),
        }
    } else if c == '.' {
        if st.dots > 0 {
            ArrayStep::Stop("THERE ARE TOO MANY DOTS IN THE NUMBER!"@)
        } else {
            ArrayStep::Go(ArrayState { current: st.current.push(c), dots: st.dots + 1, ..st })
        }
    } else {
        ArrayStep::Stop("INVALID CHARACTER IN THE ARRAY!"@)
    }
}

/// The state after reading the first `k` characters of `a`, and the error
/// message where reading stopped before.
pub open spec fn array_run(
    a: Seq<char>,
    part: Seq<char>,
    g: Map<Seq<char>, ValueV>,
    k: int,
) -> (ArrayState, Option<Seq<char>>)
    decreases k,
{
    if k <= 0 {
        (array_start(), None)
    } else {
        let (st, m) = array_run(a, part, g, k - 1);
        if m is Some {
            (st, m)
        } else {
            match array_step(a, part, g, st, k - 1) {
                ArrayStep::Go(next) => (next, None),
                ArrayStep::Stop(msg) => (st, Some(msg)),
            }
        }
    }
}

/// The tokens of an array part `[...]`, and whether the line's tokenizing
/// stops.
pub open spec fn array_tokens(part: Seq<char>, g: Map<Seq<char>, ValueV>) -> (Seq<(Seq<char>, ValueV)>, bool) {
    let inner = part.subrange(1, part.len() - 1);
    let t = spec_trim(inner);
    if t.len() == 0 {
        (seq![("ARRAY"@, ValueV::Array(Seq::empty()))], true)
    } else if t[0] == ',' {
        (seq![error_token("THERE IS A COMMA AT THE BEGINNING OF THE ARRAY; NOT ALLOWED!"@)], true)
    } else if t.last() == ',' {
        (seq![error_token("THERE IS A COMMA AT THE END OF THE ARRAY; NOT ALLOWED!"@)], true)
    } else {
        let a = inner.push(',');
        let (st, m) = array_run(a, part, g, a.len() as int);
        let array = ("ARRAY"@, ValueV::Array(st.elements));
        match m {
            Some(msg) => (seq![error_token(msg), array], false),
            None => (seq![array], false),
        }
    }
}


/// The tokens of one part of a line, the verines not yet used, and whether
/// the line's tokenizing stops; `vq` holds the tokens of the verines not yet
/// used (`None` where tokenizing one failed).
pub open spec fn classify_part(
    part: Seq<char>,
    g: Map<Seq<char>, ValueV>,
    vq: Seq<Option<Seq<TokenV>>>,
) -> Result<(Seq<(Seq<char>, ValueV)>, Seq<Option<Seq<TokenV>>>, bool), Fault> {
    if predefined_names().contains(part) {
        Ok((seq![("PREDEFINED_NAME"@, ValueV::String(part))], vq, false))
    } else if arithmetic_operators().contains(part) {
        Ok((seq![("ARITHMETIC_OPERATOR"@, ValueV::String(part))], vq, false))
    } else if comparing_operators().contains(part) {
        Ok((seq![("COMPARING_OPERATOR"@, ValueV::String(part))], vq, false))
    } else if part == "="@ {
        Ok((seq![("EQUAL_SIGN"@, ValueV::String(part))], vq, false))
    } else if part.len() == 0 {
        Err(Fault::EmptyPart)
    } else if part[0] == '"' && part.last() == '"' {
        if part.len() < 2 {
            Err(Fault::LoneQuote)
        } else {
            Ok((seq![("STRING"@, ValueV::String(part.subrange(1, part.len() - 1)))], vq, false))
        }
    } else if looks_numeric(part) {
        let (ts, stop) = number_tokens(part);
        Ok((ts, vq, stop))
    } else if part[0] == '(' && part.last() == ')' {
        if vq.len() == 0 {
            Err(Fault::MissingVerine)
        } else {
            match vq[0] {
                Some(ts) => Ok((seq![("VERINE"@, ValueV::Verine(ts))], vq.drop_first(), false)),
                None => Ok((Seq::empty(), vq.drop_first(), false)),
            }
        }
    } else if part[0] == '[' && part.last() == ']' {
        let (ts, stop) = array_tokens(part, g);
        Ok((ts, vq, stop))
    } else if forall|i: int| 0 <= i < part.len() ==> is_name_character(#[trigger] part[i]) {
        Ok((seq![("VARIABLE/FUNCTION_NAME"@, ValueV::String(part))], vq, false))
    } else {
        Ok((seq![error_token("VARIABLE/FUNCTION NAME INCLUDES INVALID CHARACTERS!"@)], vq, true))
    }
}

/// The tokens of the parts from index `i` on, with the verines `vq` left.
pub open spec fn part_tokens(
    parts: Seq<Seq<char>>,
    i: int,
    g: Map<Seq<char>, ValueV>,
    vq: Seq<Option<Seq<TokenV>>>,
) -> Result<Seq<(Seq<char>, ValueV)>, Fault>
    decreases parts.len() - i,
{
    if i < 0 || i >= parts.len() {
        Ok(Seq::empty())
    } else {
        match classify_part(parts[i], g, vq) {
            Err(f) => Err(f),
            Ok((ts, rest, stop)) => if stop {
                Ok(ts)
            } else {
                match part_tokens(parts, i + 1, g, rest) {
                    Ok(more) => Ok(ts + more),
                    Err(f) => Err(f),
                }
            },
        }
    }
}

pub open spec fn error_tokens(ms: Seq<Seq<char>>) -> Seq<(Seq<char>, ValueV)> {
    ms.map_values(|m: Seq<char>| error_token(m))
}

/// The tokens of a line of input, with the variables `g`.
///
/// A line whose first visible character is `#` is a comment. Otherwise the
/// verine expressions `(...)` are tokenized first (their errors come first),
/// then the trimmed line is split into parts and each part classified, until
/// the first part whose error ends the line.
pub open spec fn spec_make_tokens(input: Seq<char>, g: Map<Seq<char>, ValueV>) -> Result<
    Seq<(Seq<char>, ValueV)>,
    Fault,
> {
    let t = spec_trim(input);
    if t.len() == 0 {
        Err(Fault::EmptyLine)
    } else if t[0] == '#' {
        Ok(seq![("COMMENT"@, ValueV::String(t.drop_first()))])
    } else {
        let b = bar_verines(input);
        match verine_scan(b, b.len() as int) {
            Err(f) => Err(f),
            Ok(scan) => {
                let errs = error_tokens(scan.errors);
                match split_line(bar_verines(t).push(' ')) {
                    Parts::Error(m) => Ok(errs.push(error_token(m))),
                    Parts::Fault(f) => Err(f),
                    Parts::Parts(ps) => match part_tokens(ps, 0, g, scan.verines) {
                        Ok(ts) => Ok(errs + ts),
                        Err(f) => Err(f),
                    },
                }
            },
        }
    }
}


// ---------------------------------------------------------------------------
// Classifying: the executable part
// ---------------------------------------------------------------------------

/// Whether the characters `part` spell `w`.
fn spells(part: &[char], w: &str) -> (r: bool)
    ensures
        r == (part@ == w@),
{
    let cs = chars_of(w);
    if cs.len() != part.len() {
        return false;
    }
    let mut i: usize = 0;
    while i < cs.len()
        invariant
            cs@ == w@,
            cs@.len() == part@.len(),
            i <= cs@.len(),
            forall|j: int| 0 <= j < i ==> part@[j] == cs@[j],
        decreases cs.len() - i,
    {
        if part[i] != cs[i] {
            return false;
        }
        i += 1;
    }
    assert(part@ =~= cs@);
    true
}

/// Whether `part` spells one of the words of `list`.
fn spells_one_of(part: &[char], list: &[&'static str]) -> (r: bool)
    ensures
        r == words(list@).contains(part@),
{
    let mut i: usize = 0;
    while i < list.len()
        invariant
            i <= list@.len(),
            forall|j: int| 0 <= j < i ==> words(list@)[j] != part@,
        decreases list.len() - i,
    {
        if spells(part, list[i]) {
            assert(words(list@)[i as int] == part@);
            return true;
        }
        i += 1;
    }
    false
}

/// The token `(class, String(text))`.
fn text_token(class: &str, text: &[char]) -> (r: (String, ValueEnum))
    ensures
        r.0@ == class@,
        r.1@ == ValueV::String(text@),
{
    let v = string_of(text, 0, text.len());
    assert(text@.subrange(0, text@.len() as int) =~= text@);
    (string_from(class), ValueEnum::String(v))
}

/// The token that carries the error message `m`.
fn error_of(m: &str) -> (r: (String, ValueEnum))
    ensures
        (r.0@, r.1@) == error_token(m@),
{
    (string_from("ERROR_MESSAGE"), ValueEnum::String(string_from(m)))
}

/// The first error of the sign and point checks of a number, and the points
/// counted up to it.
fn scan_number(part: &Vec<char>) -> (r: (Option<&'static str>, usize))
    ensures
        number_scan(part@, 0, 0) == (
        match r.0 {
            Some(m) => Some(m@),
            None => None::<Seq<char>>,
        },
        r.1 as int),
{
    let bytes = crate::text::byte_length(part.as_slice());
    let mut dots: usize = 0;
    let mut k: usize = 0;
    while k < part.len()
        invariant
            k <= part@.len(),
            dots <= k,
            bytes == byte_len(part@),
            number_scan(part@, 0, 0) == number_scan(part@, k as int, dots as int),
        decreases part.len() - k,
    {
        let c = part[k];
        if k != 0 && c == '-' {
            return (Some("NEGATIVE SIGN HAS TO BE AT THE BEGINNING OF A NUMBER!"), dots);
        } else if c == '.' {
            if k == 0 {
                return (Some("DOT CAN'T BE AT THE BEGINNING OF THE NUMBER!"), dots);
            } else if k as u128 + 1 == bytes {
                return (Some("DOT CAN'T BE AT THE END OF THE NUMBER!"), dots);
            } else {
                dots += 1;
            }
        }
        k += 1;
    }
    (None, dots)
}

/// Whether every character of `part` is numeric, a `-` or a `.`.
fn is_numeric_part(part: &Vec<char>) -> (r: bool)
    ensures
        r == looks_numeric(part@),
{
    let mut i: usize = 0;
    while i < part.len()
        invariant
            i <= part@.len(),
            forall|j: int| 0 <= j < i ==> (unicode_numeric(#[trigger] part@[j]) || part@[j] == '-'
                || part@[j] == '.'),
        decreases part.len() - i,
    {
        let c = part[i];
        if !(crate::text::char_is_numeric(c) || c == '-' || c == '.') {
            return false;
        }
        i += 1;
    }
    true
}

/// Whether every character of `part` may stand in a name.
fn is_name_part(part: &Vec<char>) -> (r: bool)
    ensures
        r == (forall|i: int| 0 <= i < part@.len() ==> is_name_character(#[trigger] part@[i])),
{
    let mut i: usize = 0;
    while i < part.len()
        invariant
            i <= part@.len(),
            forall|j: int| 0 <= j < i ==> is_name_character(#[trigger] part@[j]),
        decreases part.len() - i,
    {
        let c = part[i];
        if !(('A' <= c && c <= 'Z') || c == '_') {
            assert(!is_name_character(part@[i as int]));
            return false;
        }
        i += 1;
    }
    true
}

/// The tokens of a numeric part, and whether the line's tokenizing stops.
fn number_part_tokens(part: &Vec<char>) -> (r: (Vec<(String, ValueEnum)>, bool))
    ensures
        (line_view(r.0@), r.1) == number_tokens(part@),
{
    let (err, dots) = scan_number(part);
    let mut out: Vec<(String, ValueEnum)> = Vec::new();
    match err {
        Some(m) => {
            out.push(error_of(m));
        },
        None => {},
    }
    let ghost first = line_view(out@);
    let r = if dots > 1 {
        out.push(error_of("THERE ARE TOO MANY DOTS IN THE NUMBER!"));
        (out, true)
    } else {
        match crate::text::parse_i32(part.as_slice()) {
            Some(v) => {
                out.push((string_from("INTEGER"), ValueEnum::Integer(v)));
                (out, false)
            },
            None => {
                if crate::text::is_f32_literal(part.as_slice()) {
                    let text = string_of(part.as_slice(), 0, part.len());
                    assert(part@.subrange(0, part@.len() as int) =~= part@);
                    out.push((string_from("FLOAT"), ValueEnum::Float(text)));
                    (out, false)
                } else {
                    out.push(error_of("THE NUMBER IS NOT I32 OR F32!"));
                    (out, true)
                }
            },
        }
    };
    assert(line_view(r.0@) =~= first.push(line_view(r.0@).last()));
    r
}


/// The element that the variable `name` holds, or the error message.
fn variable_element_of(g: &Variables, name: &Vec<char>) -> (r: Result<ArrayTypesEnum, String>)
    ensures
        match variable_element(g@, name@) {
            Ok(e) => r matches Ok(x) && x@ == e,
            Err(m) => r matches Err(t) && t@ == m,
        },
{
    let key = string_of(name.as_slice(), 0, name.len());
    assert(name@.subrange(0, name@.len() as int) =~= name@);
    match g.get(key.as_str()) {
        None => {
            let mut m = string_from("THERE IS NO VARIABLE CALLED ");
            crate::text::push_str(&mut m, key.as_str());
            crate::text::push_str(&mut m, "!");
            Err(m)
        },
        Some(ValueEnum::String(v)) => Ok(ArrayTypesEnum::String(v.clone())),
        Some(ValueEnum::Integer(v)) => Ok(ArrayTypesEnum::Integer(*v)),
        Some(ValueEnum::Float(v)) => Ok(ArrayTypesEnum::Float(v.clone())),
        Some(_) => Err(string_from("VARIABLES IN ARRAYS CAN'T BE ARRAYS!")),
    }
}

/// The number that `text` denotes as an element, or the error message.
fn number_element_of(text: &Vec<char>) -> (r: Result<ArrayTypesEnum, &'static str>)
    ensures
        match number_element(text@) {
            Ok(e) => r matches Ok(x) && x@ == e,
            Err(m) => r matches Err(t) && t@ == m,
        },
{
    match crate::text::parse_i32(text.as_slice()) {
        Some(v) => Ok(ArrayTypesEnum::Integer(v)),
        None => {
            if crate::text::is_f32_literal(text.as_slice()) {
                let f = string_of(text.as_slice(), 0, text.len());
                assert(text@.subrange(0, text@.len() as int) =~= text@);
                Ok(ArrayTypesEnum::Float(f))
            } else {
                Err("NUMBER ELEMENTS OF AN ARRAY HAVE TO BE I32 OR F32!")
            }
        },
    }
}

/// The reading of the elements of an array literal, as it runs.
struct ArrayReader {
    elements: Vec<ArrayTypesEnum>,
    current: Vec<char>,
    in_variable: bool,
    in_string: bool,
    in_number: bool,
    dots: usize,
    comma_seen: bool,
}

impl View for ArrayReader {
    type V = ArrayState;

    closed spec fn view(&self) -> ArrayState {
        ArrayState {
            elements: elements_view(self.elements@),
            current: self.current@,
            in_variable: self.in_variable,
            in_string: self.in_string,
            in_number: self.in_number,
            dots: self.dots as int,
            comma_seen: self.comma_seen,
        }
    }
}

impl ArrayReader {
    spec fn point_count(&self) -> int {
        self.dots as int
    }

    fn new() -> (r: ArrayReader)
        ensures
            r@ == array_start(),
            r.point_count() == 0,
    {
        let r = ArrayReader {
            elements: Vec::new(),
            current: Vec::new(),
            in_variable: false,
            in_string: false,
            in_number: false,
            dots: 0,
            comma_seen: true,
        };
        assert(r@ =~= array_start()) by {
            assert(elements_view(r.elements@) =~= Seq::<ElementV>::empty());
        }
        r
    }

    /// Appends an element.
    fn add(&mut self, e: ArrayTypesEnum)
        ensures
            final(self)@ == (ArrayState { elements: old(self)@.elements.push(e@), ..old(self)@ }),
            final(self).point_count() == old(self).point_count(),
    {
        let ghost before = self.elements@;
        self.elements.push(e);
        assert(elements_view(self.elements@) =~= elements_view(before).push(e@));
        assert(self@ =~= ArrayState { elements: old(self)@.elements.push(e@), ..old(self)@ });
    }

    /// Reads the character at index `k` of `a`; the error message where
    /// reading stops.
    fn step(
        &mut self,
        a: &Vec<char>,
        part: &Vec<char>,
        g: &Variables,
        a_bytes: u128,
        k: usize,
    ) -> (r: Option<String>)
        requires
            k < a@.len(),
            a_bytes == byte_len(a@),
            old(self).point_count() <= 1,
        ensures
            match array_step(a@, part@, g@, old(self)@, k as int) {
                ArrayStep::Go(st) => r is None && final(self)@ == st,
                ArrayStep::Stop(m) => r matches Some(t) && t@ == m,
            },
            r is Some ==> final(self)@ == old(self)@,
            final(self).point_count() <= 1,
    {
        let ghost st = self@;
        let c = a[k];
        if self.in_string && c != '"' && k as u128 + 1 == a_bytes {
            return Some(string_from("STRING IN THE ARRAY ISN'T CLOSED!"));
        }
        if c == '"' {
            if !self.in_string && !self.in_number {
                self.current.push(c);
                self.in_string = true;
            } else if self.in_number {
                return Some(string_from("INVALID CHARACTER IN THE ARRAY!"));
            } else {
                self.current.push(c);
                let mut text: Vec<char> = Vec::new();
                std::mem::swap(&mut text, &mut self.current);
                let v = string_of(text.as_slice(), 0, text.len());
                assert(text@.subrange(0, text@.len() as int) =~= text@);
                self.add(ArrayTypesEnum::String(v));
                self.in_string = false;
                self.comma_seen = false;
            }
        } else if c == '-' {
            if !self.in_string && !self.in_number && self.comma_seen {
                if k < a.len() - 1 && crate::text::char_is_numeric(a[k + 1]) {
                    self.current.push(c);
                    self.in_number = true;
                } else {
                    return Some(string_from("INVALID CHARACTER IN THE ARRAY!"));
                }
            }
        } else if c == ',' {
            if !self.in_string && !self.in_number && !self.in_variable {
                if !self.comma_seen {
                    self.comma_seen = true;
                } else {
                    return Some(string_from("THERE ARE TOO MANY COMMAS IN THE ARRAY!"));
                }
            } else if self.in_variable {
                match variable_element_of(g, &self.current) {
                    Err(m) => {
                        return Some(m);
                    },
                    Ok(e) => {
                        let is_string = match &e {
                            ArrayTypesEnum::String(_) => true,
                            _ => false,
                        };
                        self.add(e);
                        self.current = Vec::new();
                        if is_string {
                            self.in_string = false;
                            self.comma_seen = true;
                        } else {
                            self.in_variable = false;
                        }
                    },
                }
            } else if self.in_number {
                match number_element_of(&self.current) {
                    Err(m) => {
                        return Some(string_from(m));
                    },
                    Ok(e) => {
                        self.add(e);
                        self.current = Vec::new();
                        self.dots = 0;
                        self.in_number = false;
                    },
                }
            }
        } else if !self.comma_seen {
            return Some(string_from("A COMMA IS MISSING!"));
        } else if !self.in_string && !self.in_number && !self.in_variable {
            if crate::text::char_is_numeric(c) {
                self.current.push(c);
                self.in_number = true;
            } else if c != ' ' {
                self.current.push(c);
                self.in_variable = true;
            }
        } else if self.in_variable {
            if c == ' ' {
                match variable_element_of(g, &self.current) {
                    Err(m) => {
                        return Some(m);
                    },
                    Ok(e) => {
                        let is_string = match &e {
                            ArrayTypesEnum::String(_) => true,
                            _ => false,
                        };
                        self.add(e);
                        self.current = Vec::new();
                        if is_string {
                            self.in_string = false;
                        } else {
                            self.in_variable = false;
                        }
                        self.comma_seen = false;
                    },
                }
            } else if !(('A' <= c && c <= 'Z') || c == '_') {
                return Some(string_from("VARIABLE/FUNCTION NAME INCLUDES INVALID CHARACTERS!"));
            } else {
                self.current.push(c);
            }
        } else if self.in_string {
            if !is_string_char(c) {
                return Some(string_from("INVALID CHARACTER INSIDE OF THE STRING IN THE ARRAY!"));
            }
            self.current.push(c);
        } else if crate::text::char_is_numeric(c) {
            self.current.push(c);
        } else if c == ' ' {
            match number_element_of(part) {
                Err(m) => {
                    return Some(string_from(m));
                },
                Ok(e) => {
                    self.add(e);
                    self.current = Vec::new();
                    self.dots = 0;
                    self.in_number = false;
                    self.comma_seen = false;
                },
            }
        } else if c == '.' {
            if self.dots > 0 {
                return Some(string_from("THERE ARE TOO MANY DOTS IN THE NUMBER!"));
            }
            self.current.push(c);
            self.dots = self.dots + 1;
        } else {
            return Some(string_from("INVALID CHARACTER IN THE ARRAY!"));
        }
        assert(self@ =~= (match array_step(a@, part@, g@, st, k as int) {
            ArrayStep::Go(t) => t,
            ArrayStep::Stop(_) => st,
        }));
        None
    }
}


proof fn lemma_array_run_stays(a: Seq<char>, part: Seq<char>, g: Map<Seq<char>, ValueV>, k: int, m: int)
    requires
        0 <= k <= m,
        array_run(a, part, g, k).1 is Some,
    ensures
        array_run(a, part, g, m) == array_run(a, part, g, k),
    decreases m - k,
{
    if m > k {
        lemma_array_run_stays(a, part, g, k, m - 1);
    }
}

/// The tokens of an array part `[...]`, and whether the line's tokenizing
/// stops.
fn array_part_tokens(part: &Vec<char>, g: &Variables) -> (r: (Vec<(String, ValueEnum)>, bool))
    requires
        part@.len() >= 2,
    ensures
        (line_view(r.0@), r.1) == array_tokens(part@, g@),
{
    let inner = crate::text::chars_between(part.as_slice(), 1, part.len() - 1);
    let (ts, te) = crate::text::trim_bounds(inner.as_slice());
    let ghost t = spec_trim(inner@);
    assert(t.len() == te - ts);
    if ts == te {
        let mut out: Vec<(String, ValueEnum)> = Vec::new();
        let none: Vec<ArrayTypesEnum> = Vec::new();
        assert(elements_view(none@) =~= Seq::<ElementV>::empty());
        out.push((string_from("ARRAY"), ValueEnum::Array(none)));
        assert(line_view(out@) =~= seq![("ARRAY"@, ValueV::Array(Seq::empty()))]);
        return (out, true);
    }
    assert(t[0] == inner@[ts as int]);
    assert(t.last() == inner@[te - 1]);
    if inner[ts] == ',' {
        let out = vec![error_of("THERE IS A COMMA AT THE BEGINNING OF THE ARRAY; NOT ALLOWED!")];
        assert(line_view(out@) =~= seq![error_token("THERE IS A COMMA AT THE BEGINNING OF THE ARRAY; NOT ALLOWED!"@)]);
        return (out, true);
    }
    if inner[te - 1] == ',' {
        let out = vec![error_of("THERE IS A COMMA AT THE END OF THE ARRAY; NOT ALLOWED!")];
        assert(line_view(out@) =~= seq![error_token("THERE IS A COMMA AT THE END OF THE ARRAY; NOT ALLOWED!"@)]);
        return (out, true);
    }
    let mut a = inner;
    a.push(',');
    let bytes = crate::text::byte_length(a.as_slice());
    let mut reader = ArrayReader::new();
    let mut error: Option<String> = None;
    let mut k: usize = 0;
    while k < a.len() && error.is_none()
        invariant
            k <= a@.len(),
            bytes == byte_len(a@),
            reader.point_count() <= 1,
            match error {
                None => array_run(a@, part@, g@, k as int) == (reader@, None::<Seq<char>>),
                Some(m) => array_run(a@, part@, g@, a@.len() as int) == (reader@, Some(m@)),
            },
        decreases a.len() - k,
    {
        let ghost before = reader@;
        match reader.step(&a, part, g, bytes, k) {
            Some(m) => {
                proof {
                    assert(array_run(a@, part@, g@, k + 1) == (before, Some(m@)));
                    lemma_array_run_stays(a@, part@, g@, k + 1, a@.len() as int);
                }
                error = Some(m);
            },
            None => {},
        }
        k += 1;
    }
    let ArrayReader { elements, .. } = reader;
    let array = (string_from("ARRAY"), ValueEnum::Array(elements));
    let mut out: Vec<(String, ValueEnum)> = Vec::new();
    match error {
        Some(m) => {
            let e = (string_from("ERROR_MESSAGE"), ValueEnum::String(m));
            out.push(e);
        },
        None => {},
    }
    out.push(array);
    (out, false)
}


/// The tokens of one part of a line, the index of the first verine not yet
/// used, and whether the line's tokenizing stops.
fn classify(
    part: &Vec<char>,
    g: &Variables,
    verines: &Vec<Option<Vec<Token>>>,
    next: usize,
) -> (r: Result<(Vec<(String, ValueEnum)>, usize, bool), Fault>)
    requires
        next <= verines@.len(),
    ensures
        match classify_part(part@, g@, verines_view(verines@).skip(next as int)) {
            Ok((ts, rest, stop)) => r matches Ok((v, n, b)) && line_view(v@) == ts && n
                <= verines@.len() && verines_view(verines@).skip(n as int) == rest && b == stop,
            Err(f) => r == Err::<(Vec<(String, ValueEnum)>, usize, bool), Fault>(f),
        },
{
    let names = vec![
        "LET",
        "PRINT",
        "FN",
        "START",
        "END",
        "DO",
        "IF",
        "ELSE",
        "ELIF",
        "WHILE",
        "PUSH",
        "POP",
        "INSERT",
        "REMOVE",
        "SET",
        "GET",
        "ONTO",
        "FROM",
        "INTO",
        "AT",
        "TO",
        "LEN",
        "READLN",
        "STRING_FROM",
        "INTEGER_FROM",
        "HELP_FOR",
        "RESET",
        "STOP",
    ];
    let arithmetic = vec!["+", "-", "*", "/", "**"];
    let comparing = vec!["==", "!=", "<", ">", "<=", ">="];
    assert(words(names@) =~= predefined_names());
    assert(words(arithmetic@) =~= arithmetic_operators());
    assert(words(comparing@) =~= comparing_operators());
    let ghost vq = verines_view(verines@).skip(next as int);
    let n = part.len();
    if spells_one_of(part.as_slice(), names.as_slice()) {
        let v = vec![text_token("PREDEFINED_NAME", part.as_slice())];
        assert(line_view(v@) =~= seq![("PREDEFINED_NAME"@, ValueV::String(part@))]);
        return Ok((v, next, false));
    }
    if spells_one_of(part.as_slice(), arithmetic.as_slice()) {
        let v = vec![text_token("ARITHMETIC_OPERATOR", part.as_slice())];
        assert(line_view(v@) =~= seq![("ARITHMETIC_OPERATOR"@, ValueV::String(part@))]);
        return Ok((v, next, false));
    }
    if spells_one_of(part.as_slice(), comparing.as_slice()) {
        let v = vec![text_token("COMPARING_OPERATOR", part.as_slice())];
        assert(line_view(v@) =~= seq![("COMPARING_OPERATOR"@, ValueV::String(part@))]);
        return Ok((v, next, false));
    }
    if spells(part.as_slice(), "=") {
        let v = vec![text_token("EQUAL_SIGN", part.as_slice())];
        assert(line_view(v@) =~= seq![("EQUAL_SIGN"@, ValueV::String(part@))]);
        return Ok((v, next, false));
    }
    if n == 0 {
        return Err(Fault::EmptyPart);
    }
    let first = part[0];
    let last = part[n - 1];
    if first == '"' && last == '"' {
        if n < 2 {
            return Err(Fault::LoneQuote);
        }
        let text = string_of(part.as_slice(), 1, n - 1);
        let v = vec![(string_from("STRING"), ValueEnum::String(text))];
        assert(line_view(v@) =~= seq![("STRING"@, ValueV::String(part@.subrange(1, n - 1)))]);
        return Ok((v, next, false));
    }
    if is_numeric_part(part) {
        let (v, stop) = number_part_tokens(part);
        return Ok((v, next, stop));
    }
    if first == '(' && last == ')' {
        if next >= verines.len() {
            return Err(Fault::MissingVerine);
        }
        assert(vq[0] == verines_view(verines@)[next as int]);
        assert(verines_view(verines@).skip(next + 1) =~= vq.drop_first());
        match &verines[next] {
            Some(tokens) => {
                let v = vec![(string_from("VERINE"), ValueEnum::Verine(duplicate_tokens(tokens)))];
                assert(line_view(v@) =~= seq![("VERINE"@, ValueV::Verine(tokens_view(tokens@)))]);
                return Ok((v, next + 1, false));
            },
            None => {
                let v: Vec<(String, ValueEnum)> = Vec::new();
                assert(line_view(v@) =~= Seq::<(Seq<char>, ValueV)>::empty());
                return Ok((v, next + 1, false));
            },
        }
    }
    if first == '[' && last == ']' {
        let (v, stop) = array_part_tokens(part, g);
        return Ok((v, next, stop));
    }
    if is_name_part(part) {
        let v = vec![text_token("VARIABLE/FUNCTION_NAME", part.as_slice())];
        assert(line_view(v@) =~= seq![("VARIABLE/FUNCTION_NAME"@, ValueV::String(part@))]);
        Ok((v, next, false))
    } else {
        let v = vec![error_of("VARIABLE/FUNCTION NAME INCLUDES INVALID CHARACTERS!")];
        assert(line_view(v@) =~= seq![error_token("VARIABLE/FUNCTION NAME INCLUDES INVALID CHARACTERS!"@)]);
        Ok((v, next, true))
    }
}


/// `acc` put before the tokens of `r`.
pub open spec fn prepend(acc: Seq<(Seq<char>, ValueV)>, r: Result<Seq<(Seq<char>, ValueV)>, Fault>) -> Result<
    Seq<(Seq<char>, ValueV)>,
    Fault,
> {
    match r {
        Ok(t) => Ok(acc + t),
        Err(f) => Err(f),
    }
}

/// Splits a line of input into its tokens: pairs of a class (`COMMENT`,
/// `PREDEFINED_NAME`, `ARITHMETIC_OPERATOR`, `COMPARING_OPERATOR`,
/// `EQUAL_SIGN`, `STRING`, `INTEGER`, `FLOAT`, `VERINE`, `ARRAY`,
/// `VARIABLE/FUNCTION_NAME`, or `ERROR_MESSAGE` for a syntax error) and a
/// value. Variables named in an array literal are read from the variables
/// of `exec_data_variable`, which is left as it was.
pub fn make_tokens(input: String, exec_data_variable: &mut ExecData) -> (r: Result<
    Vec<(String, ValueEnum)>,
    Fault,
>)
    requires
        input@.len() < 0x7fff_ffff,
    ensures
        *final(exec_data_variable) == *old(exec_data_variable),
        match spec_make_tokens(input@, old(exec_data_variable).global_variables@) {
            Ok(ts) => r matches Ok(v) && line_view(v@) == ts,
            Err(f) => r == Err::<Vec<(String, ValueEnum)>, Fault>(f),
        },
        r matches Ok(v) ==> (line_view(v@).len() == 1 && line_view(v@)[0].0 == "COMMENT"@
            && line_view(v@)[0].1 is String) || well_formed_tokens(line_view(v@)),
{
    proof {
        law_tokens_well_formed(input@, exec_data_variable.global_variables@);
    }
    let g = &exec_data_variable.global_variables;
    let cs = chars_of(input.as_str());
    let (ts, te) = crate::text::trim_bounds(cs.as_slice());
    let ghost t = spec_trim(input@);
    if ts == te {
        return Err(Fault::EmptyLine);
    }
    assert(t[0] == cs@[ts as int]);
    if cs[ts] == '#' {
        let text = string_of(cs.as_slice(), ts + 1, te);
        let v = vec![(string_from("COMMENT"), ValueEnum::String(text))];
        assert(t.drop_first() =~= cs@.subrange(ts + 1, te as int));
        assert(line_view(v@) =~= seq![("COMMENT"@, ValueV::String(t.drop_first()))]);
        return Ok(v);
    }
    let bars = bars_to_parentheses(&cs);
    let (verines, errors) = match scan_verines(&bars) {
        Ok(p) => p,
        Err(f) => {
            return Err(f);
        },
    };
    let mut out: Vec<(String, ValueEnum)> = Vec::new();
    let mut e: usize = 0;
    while e < errors.len()
        invariant
            e <= errors@.len(),
            line_view(out@) == error_tokens(strings_view(errors@).take(e as int)),
        decreases errors.len() - e,
    {
        let ghost before = out@;
        out.push((string_from("ERROR_MESSAGE"), ValueEnum::String(errors[e].clone())));
        assert(line_view(out@) =~= line_view(before).push(error_token(errors@[e as int]@)));
        assert(strings_view(errors@).take(e + 1) =~= strings_view(errors@).take(e as int).push(
            errors@[e as int]@,
        ));
        assert(error_tokens(strings_view(errors@).take(e + 1)) =~= error_tokens(
            strings_view(errors@).take(e as int),
        ).push(error_token(errors@[e as int]@)));
        e += 1;
    }
    assert(strings_view(errors@).take(errors@.len() as int) =~= strings_view(errors@));
    let ghost errs = line_view(out@);
    let trimmed = crate::text::chars_between(cs.as_slice(), ts, te);
    assert(trimmed@ =~= t);
    let mut line = bars_to_parentheses(&trimmed);
    line.push(' ');
    assert(line@ =~= bar_verines(t).push(' '));
    let parts = match split_parts(&line) {
        Err(f) => {
            return Err(f);
        },
        Ok(Err(m)) => {
            let ghost before = out@;
            out.push((string_from("ERROR_MESSAGE"), ValueEnum::String(m)));
            assert(line_view(out@) =~= line_view(before).push(error_token(m@)));
            return Ok(out);
        },
        Ok(Ok(ps)) => ps,
    };
    let ghost ps = parts_view(parts@);
    let ghost whole = part_tokens(ps, 0, g@, verines_view(verines@));
    let mut next: usize = 0;
    let mut i: usize = 0;
    assert(verines_view(verines@).skip(0) =~= verines_view(verines@));
    assert(spec_make_tokens(input@, g@) == prepend(errs, whole));
    while i < parts.len()
        invariant
            spec_make_tokens(input@, old(exec_data_variable).global_variables@) == prepend(
                errs,
                whole,
            ),
            g@ == old(exec_data_variable).global_variables@,
            spec_make_tokens(input@, old(exec_data_variable).global_variables@) matches Ok(ts) ==> (ts.len() == 1
                && ts[0].0 == "COMMENT"@ && ts[0].1 is String) || well_formed_tokens(ts),
            i <= parts@.len(),
            next <= verines@.len(),
            ps == parts_view(parts@),
            prepend(errs, whole) == prepend(
                line_view(out@),
                part_tokens(ps, i as int, g@, verines_view(verines@).skip(next as int)),
            ),
        decreases parts.len() - i,
    {
        assert(ps[i as int] == parts@[i as int]@);
        match classify(&parts[i], g, &verines, next) {
            Err(f) => {
                return Err(f);
            },
            Ok((toks, n2, stop)) => {
                let ghost before = line_view(out@);
                let mut toks = toks;
                let ghost tv = line_view(toks@);
                out.append(&mut toks);
                assert(line_view(out@) =~= before + tv);
                if stop {
                    return Ok(out);
                }
                proof {
                    let rest = part_tokens(ps, i + 1, g@, verines_view(verines@).skip(n2 as int));
                    match rest {
                        Ok(more) => {
                            assert(before + (tv + more) =~= (before + tv) + more);
                        },
                        Err(_) => {},
                    }
                }
                next = n2;
            },
        }
        i += 1;
    }
    assert(errs + Seq::<(Seq<char>, ValueV)>::empty() =~= errs);
    Ok(out)
}


// ---------------------------------------------------------------------------
// What every token looks like
// ---------------------------------------------------------------------------

/// A token's value agrees with its class, and its class is one that the
/// tokenizer gives.
pub open spec fn well_formed_token(t: (Seq<char>, ValueV)) -> bool {
    let class = t.0;
    if class == "INTEGER"@ {
        t.1 is Integer
    } else if class == "FLOAT"@ {
        t.1 is Float
    } else if class == "ARRAY"@ {
        t.1 is Array
    } else if class == "VERINE"@ {
        t.1 is Verine
    } else {
        &&& t.1 is String
        &&& class == "PREDEFINED_NAME"@ || class == "ARITHMETIC_OPERATOR"@
            || class == "COMPARING_OPERATOR"@ || class == "EQUAL_SIGN"@ || class == "STRING"@
            || class == "VARIABLE/FUNCTION_NAME"@ || class == "ERROR_MESSAGE"@
        &&& class == "VARIABLE/FUNCTION_NAME"@ ==> t.1->String_0.len() > 0 && forall|i: int|
            0 <= i < t.1->String_0.len() ==> is_name_character(#[trigger] t.1->String_0[i])
    }
}

pub open spec fn well_formed_tokens(ts: Seq<(Seq<char>, ValueV)>) -> bool {
    forall|i: int| 0 <= i < ts.len() ==> well_formed_token(#[trigger] ts[i])
}

/// The classes of tokens are distinct words.
pub proof fn lemma_class_words()
    ensures
        "INTEGER"@.len() == 7 && "INTEGER"@[0] == 'I',
        "FLOAT"@.len() == 5 && "FLOAT"@[0] == 'F',
        "ARRAY"@.len() == 5 && "ARRAY"@[0] == 'A',
        "VERINE"@.len() == 6 && "VERINE"@[0] == 'V',
        "STRING"@.len() == 6 && "STRING"@[0] == 'S',
        "COMMENT"@.len() == 7 && "COMMENT"@[0] == 'C',
        "PREDEFINED_NAME"@.len() == 15,
        "ARITHMETIC_OPERATOR"@.len() == 19,
        "COMPARING_OPERATOR"@.len() == 18,
        "EQUAL_SIGN"@.len() == 10,
        "VARIABLE/FUNCTION_NAME"@.len() == 22,
        "ERROR_MESSAGE"@.len() == 13,
{
    reveal_strlit("INTEGER");
    reveal_strlit("FLOAT");
    reveal_strlit("ARRAY");
    reveal_strlit("VERINE");
    reveal_strlit("STRING");
    reveal_strlit("COMMENT");
    reveal_strlit("PREDEFINED_NAME");
    reveal_strlit("ARITHMETIC_OPERATOR");
    reveal_strlit("COMPARING_OPERATOR");
    reveal_strlit("EQUAL_SIGN");
    reveal_strlit("VARIABLE/FUNCTION_NAME");
    reveal_strlit("ERROR_MESSAGE");
}

proof fn lemma_concat_well_formed(a: Seq<(Seq<char>, ValueV)>, b: Seq<(Seq<char>, ValueV)>)
    requires
        well_formed_tokens(a),
        well_formed_tokens(b),
    ensures
        well_formed_tokens(a + b),
{
    assert forall|i: int| 0 <= i < (a + b).len() implies well_formed_token(#[trigger] (a + b)[i]) by {
        if i < a.len() {
            assert((a + b)[i] == a[i]);
        } else {
            assert((a + b)[i] == b[i - a.len()]);
        }
    }
}

proof fn lemma_errors_well_formed(ms: Seq<Seq<char>>)
    ensures
        well_formed_tokens(error_tokens(ms)),
{
    lemma_class_words();
    assert forall|i: int| 0 <= i < error_tokens(ms).len() implies well_formed_token(
        #[trigger] error_tokens(ms)[i],
    ) by {
        assert(error_tokens(ms)[i] == error_token(ms[i]));
    }
}

proof fn lemma_classify_well_formed(part: Seq<char>, g: Map<Seq<char>, ValueV>, vq: Seq<Option<Seq<TokenV>>>)
    ensures
        classify_part(part, g, vq) matches Ok((ts, _, _)) ==> well_formed_tokens(ts),
{
    lemma_class_words();
    if part.len() > 0 && !(part[0] == '"' && part.last() == '"') && looks_numeric(part) {
        let (err, dots) = number_scan(part, 0, 0);
        let first: Seq<(Seq<char>, ValueV)> = match err {
            Some(m) => seq![error_token(m)],
            None => Seq::empty(),
        };
        assert(well_formed_tokens(first));
        let (ts, _) = number_tokens(part);
        assert(ts.drop_last() =~= first);
        assert forall|i: int| 0 <= i < ts.len() implies well_formed_token(#[trigger] ts[i]) by {
            if i < ts.len() - 1 {
                assert(ts[i] == first[i]);
            }
        }
    }
    if part.len() >= 2 && part[0] == '[' && part.last() == ']' {
        let (ts, _) = array_tokens(part, g);
        let inner = part.subrange(1, part.len() - 1);
        let t = spec_trim(inner);
        if t.len() > 0 && t[0] != ',' && t.last() != ',' {
            assert forall|i: int| 0 <= i < ts.len() implies well_formed_token(#[trigger] ts[i]) by {}
        }
    }
}

proof fn lemma_part_tokens_well_formed(
    parts: Seq<Seq<char>>,
    i: int,
    g: Map<Seq<char>, ValueV>,
    vq: Seq<Option<Seq<TokenV>>>,
)
    ensures
        part_tokens(parts, i, g, vq) matches Ok(ts) ==> well_formed_tokens(ts),
    decreases parts.len() - i,
{
    if 0 <= i < parts.len() {
        lemma_classify_well_formed(parts[i], g, vq);
        match classify_part(parts[i], g, vq) {
            Ok((ts, rest, stop)) => {
                if !stop {
                    lemma_part_tokens_well_formed(parts, i + 1, g, rest);
                    match part_tokens(parts, i + 1, g, rest) {
                        Ok(more) => {
                            lemma_concat_well_formed(ts, more);
                        },
                        Err(_) => {},
                    }
                }
            },
            Err(_) => {},
        }
    }
}

/// A comment is a line of its own: one `COMMENT` token. Every token of any
/// other line has a value that agrees with its class, and a class that the
/// tokenizer gives; a variable or function name is made of upper-case
/// letters and `_`, and is not empty.
pub proof fn law_tokens_well_formed(input: Seq<char>, g: Map<Seq<char>, ValueV>)
    ensures
        spec_make_tokens(input, g) matches Ok(ts) ==> (ts.len() == 1 && ts[0].0 == "COMMENT"@ && ts[0].1 is String)
            || well_formed_tokens(ts),
{
    lemma_class_words();
    let t = spec_trim(input);
    if t.len() > 0 && t[0] != '#' {
        let b = bar_verines(input);
        match verine_scan(b, b.len() as int) {
            Ok(scan) => {
                let errs = error_tokens(scan.errors);
                lemma_errors_well_formed(scan.errors);
                match split_line(bar_verines(t).push(' ')) {
                    Parts::Error(m) => {
                        assert(errs.push(error_token(m)) =~= errs + seq![error_token(m)]);
                        lemma_concat_well_formed(errs, seq![error_token(m)]);
                    },
                    Parts::Parts(ps) => {
                        lemma_part_tokens_well_formed(ps, 0, g, scan.verines);
                        match part_tokens(ps, 0, g, scan.verines) {
                            Ok(ts) => {
                                lemma_concat_well_formed(errs, ts);
                            },
                            Err(_) => {},
                        }
                    },
                    Parts::Fault(_) => {},
                }
            },
            Err(_) => {},
        }
    }
}

/// A character of a string literal: an upper-case letter, a digit, a space
/// or one of the marks `,` `.` `:` `!` `?`.
pub open spec fn literal_character(c: char) -> bool {
    ('A' <= c && c <= 'Z') || ('0' <= c && c <= '9') || c == ' ' || c == ',' || c == '.' || c == ':'
        || c == '!' || c == '?'
}

/// No word of the tables of names and operators starts with a quote.
proof fn lemma_words_unquoted()
    ensures
        forall|x: Seq<char>| #[trigger] predefined_names().contains(x) ==> x.len() > 0 && x[0] != '"',
        forall|x: Seq<char>| #[trigger] arithmetic_operators().contains(x) ==> x.len() > 0 && x[0] != '"',
        forall|x: Seq<char>| #[trigger] comparing_operators().contains(x) ==> x.len() > 0 && x[0] != '"',
        "="@.len() > 0 && "="@[0] != '"',
{
    reveal_strlit("LET");
    reveal_strlit("PRINT");
    reveal_strlit("FN");
    reveal_strlit("START");
    reveal_strlit("END");
    reveal_strlit("DO");
    reveal_strlit("IF");
    reveal_strlit("ELSE");
    reveal_strlit("ELIF");
    reveal_strlit("WHILE");
    reveal_strlit("PUSH");
    reveal_strlit("POP");
    reveal_strlit("INSERT");
    reveal_strlit("REMOVE");
    reveal_strlit("SET");
    reveal_strlit("GET");
    reveal_strlit("ONTO");
    reveal_strlit("FROM");
    reveal_strlit("INTO");
    reveal_strlit("AT");
    reveal_strlit("TO");
    reveal_strlit("LEN");
    reveal_strlit("READLN");
    reveal_strlit("STRING_FROM");
    reveal_strlit("INTEGER_FROM");
    reveal_strlit("HELP_FOR");
    reveal_strlit("RESET");
    reveal_strlit("STOP");
    reveal_strlit("+");
    reveal_strlit("-");
    reveal_strlit("*");
    reveal_strlit("/");
    reveal_strlit("**");
    reveal_strlit("==");
    reveal_strlit("!=");
    reveal_strlit("<");
    reveal_strlit(">");
    reveal_strlit("<=");
    reveal_strlit(">=");
    reveal_strlit("=");
    assert("LET"@[0] != '"');
    assert("PRINT"@[0] != '"');
    assert("FN"@[0] != '"');
    assert("START"@[0] != '"');
    assert("END"@[0] != '"');
    assert("DO"@[0] != '"');
    assert("IF"@[0] != '"');
    assert("ELSE"@[0] != '"');
    assert("ELIF"@[0] != '"');
    assert("WHILE"@[0] != '"');
    assert("PUSH"@[0] != '"');
    assert("POP"@[0] != '"');
    assert("INSERT"@[0] != '"');
    assert("REMOVE"@[0] != '"');
    assert("SET"@[0] != '"');
    assert("GET"@[0] != '"');
    assert("ONTO"@[0] != '"');
    assert("FROM"@[0] != '"');
    assert("INTO"@[0] != '"');
    assert("AT"@[0] != '"');
    assert("TO"@[0] != '"');
    assert("LEN"@[0] != '"');
    assert("READLN"@[0] != '"');
    assert("STRING_FROM"@[0] != '"');
    assert("INTEGER_FROM"@[0] != '"');
    assert("HELP_FOR"@[0] != '"');
    assert("RESET"@[0] != '"');
    assert("STOP"@[0] != '"');
    assert("+"@[0] != '"');
    assert("-"@[0] != '"');
    assert("*"@[0] != '"');
    assert("/"@[0] != '"');
    assert("**"@[0] != '"');
    assert("=="@[0] != '"');
    assert("!="@[0] != '"');
    assert("<"@[0] != '"');
    assert(">"@[0] != '"');
    assert("<="@[0] != '"');
    assert(">="@[0] != '"');
    assert("="@[0] != '"');
    assert forall|x: Seq<char>| #[trigger] predefined_names().contains(x) implies x.len() > 0 && x[0] != '"' by {
        let j = choose|j: int| 0 <= j < predefined_names().len() && predefined_names()[j] == x;
    }
    assert forall|x: Seq<char>| #[trigger] arithmetic_operators().contains(x) implies x.len() > 0 && x[0] != '"' by {
        let j = choose|j: int| 0 <= j < arithmetic_operators().len() && arithmetic_operators()[j] == x;
    }
    assert forall|x: Seq<char>| #[trigger] comparing_operators().contains(x) implies x.len() > 0 && x[0] != '"' by {
        let j = choose|j: int| 0 <= j < comparing_operators().len() && comparing_operators()[j] == x;
    }
}

/// Splitting goes on over the characters of a name, outside any string,
/// array or verine, adding them to the part being read.
proof fn lemma_split_word(line: Seq<char>, k0: int, k: int, st0: SplitState)
    requires
        0 <= k0 <= k <= line.len(),
        split_run(line, k0) == Split::Go(st0),
        st0.current.len() == 0,
        !st0.array_started,
        !st0.verine_started,
        !st0.string_started,
        st0.open == 0,
        forall|j: int| k0 <= j < k ==> is_name_character(#[trigger] line[j]),
    ensures
        split_run(line, k) == Split::Go(
            SplitState {
                current: line.subrange(k0, k),
                last: if k > k0 {
                    line[k - 1]
                } else {
                    st0.last
                },
                ..st0
            },
        ),
    decreases k - k0,
{
    if k == k0 {
        assert(line.subrange(k0, k) =~= st0.current);
        assert(SplitState { current: line.subrange(k0, k), last: st0.last, ..st0 } =~= st0);
    } else {
        lemma_split_word(line, k0, k - 1, st0);
        let c = line[k - 1];
        assert(is_name_character(c));
        let cur = line.subrange(k0, k - 1);
        if cur.len() > 0 {
            assert(cur[0] == line[k0]);
            assert(is_name_character(line[k0]));
        }
        assert(cur.push(c) =~= line.subrange(k0, k));
    }
}

/// Inside a string opened by a quote, splitting adds each character of a
/// string literal to the part being read (a space right after the opening
/// quote would end the part).
proof fn lemma_split_string(line: Seq<char>, k0: int, k: int, st0: SplitState)
    requires
        0 <= k0 <= k <= line.len(),
        split_run(line, k0) == Split::Go(st0),
        st0.current == seq!['"'],
        !st0.array_started,
        !st0.verine_started,
        st0.string_started,
        forall|j: int| k0 <= j < k ==> literal_character(#[trigger] line[j]),
        k == k0 || line[k0] != ' ',
    ensures
        split_run(line, k) == Split::Go(
            SplitState {
                current: seq!['"'] + line.subrange(k0, k),
                last: if k > k0 {
                    line[k - 1]
                } else {
                    st0.last
                },
                ..st0
            },
        ),
    decreases k - k0,
{
    if k == k0 {
        assert(seq!['"'] + line.subrange(k0, k) =~= st0.current);
        assert(SplitState { current: seq!['"'] + line.subrange(k0, k), last: st0.last, ..st0 } =~= st0);
    } else {
        lemma_split_string(line, k0, k - 1, st0);
        let c = line[k - 1];
        assert(literal_character(c));
        let cur = seq!['"'] + line.subrange(k0, k - 1);
        assert(cur[0] == '"');
        if k - 1 > k0 {
            assert(cur.last() == line[k - 2]);
            assert(literal_character(line[k - 2]));
        }
        assert(cur.push(c) =~= seq!['"'] + line.subrange(k0, k));
    }
}

/// A string literal stands for its text: a line of a statement name and a
/// string literal of letters, digits, spaces and the marks `,` `.` `:` `!`
/// `?` (not starting with a space) splits into the name and the literal,
/// which become the name's token and one `STRING` token holding the text
/// between the quotes.
pub proof fn law_string_literal(w: Seq<char>, s: Seq<char>, g: Map<Seq<char>, ValueV>, vq: Seq<Option<Seq<TokenV>>>)
    requires
        w.len() > 0,
        forall|i: int| 0 <= i < w.len() ==> is_name_character(#[trigger] w[i]),
        predefined_names().contains(w),
        forall|i: int| 0 <= i < s.len() ==> literal_character(#[trigger] s[i]),
        s.len() == 0 || s[0] != ' ',
    ensures
        split_line(w + seq![' ', '"'] + s + seq!['"', ' ']) == Parts::Parts(seq![w, seq!['"'] + s + seq!['"']]),
        part_tokens(seq![w, seq!['"'] + s + seq!['"']], 0, g, vq) == Ok::<Seq<(Seq<char>, ValueV)>, Fault>(
            seq![("PREDEFINED_NAME"@, ValueV::String(w)), ("STRING"@, ValueV::String(s))],
        ),
{
    let line = w + seq![' ', '"'] + s + seq!['"', ' '];
    let n = w.len() as int;
    let m = s.len() as int;
    assert(line.len() == n + m + 4);
    assert forall|j: int| 0 <= j < n implies is_name_character(#[trigger] line[j]) by {
        assert(line[j] == w[j]);
    }
    lemma_split_word(line, 0, n, split_start());
    let st1 = SplitState { current: w, last: w[n - 1], ..split_start() };
    assert(line.subrange(0, n) =~= w);
    assert(line[n - 1] == w[n - 1]);
    assert(split_run(line, n) == Split::Go(st1));
    assert(line[n] == ' ');
    assert(is_name_character(w[0]));
    assert(is_name_character(w[n - 1]));
    let st2 = SplitState { parts: seq![w], current: Seq::empty(), last: ' ', ..st1 };
    assert(seq![w] =~= Seq::<Seq<char>>::empty().push(w));
    assert(split_run(line, n + 1) == Split::Go(st2));
    assert(line[n + 1] == '"');
    let st3 = SplitState { current: seq!['"'], any_string: true, string_started: true, last: '"', ..st2 };
    assert(Seq::<char>::empty().push('"') =~= seq!['"']);
    assert(split_run(line, n + 2) == Split::Go(st3));
    assert forall|j: int| n + 2 <= j < n + 2 + m implies literal_character(#[trigger] line[j]) by {
        assert(line[j] == s[j - n - 2]);
    }
    if m > 0 {
        assert(line[n + 2] == s[0]);
    }
    lemma_split_string(line, n + 2, n + 2 + m, st3);
    let lit = seq!['"'] + s + seq!['"'];
    assert(line.subrange(n + 2, n + 2 + m) =~= s);
    let st4 = SplitState { current: seq!['"'] + s, last: if m > 0 { s[m - 1] } else { '"' }, ..st3 };
    if m > 0 {
        assert(line[n + 2 + m - 1] == s[m - 1]);
    }
    assert(split_run(line, n + 2 + m) == Split::Go(st4));
    assert(line[n + 2 + m] == '"');
    assert((seq!['"'] + s).push('"') =~= lit);
    let st5 = SplitState { current: lit, string_started: false, last: '"', ..st4 };
    assert(split_run(line, n + 3 + m) == Split::Go(st5));
    assert(line[n + 3 + m] == ' ');
    assert(lit.last() == '"');
    let st6 = SplitState { parts: seq![w, lit], current: Seq::empty(), last: ' ', ..st5 };
    assert(seq![w].push(lit) =~= seq![w, lit]);
    assert(split_run(line, n + 4 + m) == Split::Go(st6));
    assert(!line.contains('[')) by {
        if line.contains('[') {
            let j = choose|j: int| 0 <= j < line.len() && line[j] == '[';
            if j < n {
                assert(is_name_character(line[j]));
            } else if n + 2 <= j < n + 2 + m {
                assert(literal_character(line[j]));
            }
        }
    }
    lemma_words_unquoted();
    assert(lit[0] == '"');
    assert(!predefined_names().contains(lit));
    assert(!arithmetic_operators().contains(lit));
    assert(!comparing_operators().contains(lit));
    assert(lit != "="@);
    assert(lit.subrange(1, lit.len() - 1) =~= s);
    let parts = seq![w, lit];
    assert(classify_part(parts[1], g, vq) == Ok::<_, Fault>((seq![("STRING"@, ValueV::String(s))], vq, false)));
    assert(part_tokens(parts, 2, g, vq) == Ok::<Seq<(Seq<char>, ValueV)>, Fault>(Seq::empty()));
    assert(seq![("STRING"@, ValueV::String(s))] + Seq::<(Seq<char>, ValueV)>::empty() =~= seq![("STRING"@, ValueV::String(s))]);
    assert(classify_part(parts[0], g, vq) == Ok::<_, Fault>((seq![("PREDEFINED_NAME"@, ValueV::String(w))], vq, false)));
    assert(part_tokens(parts, 1, g, vq) == Ok::<Seq<(Seq<char>, ValueV)>, Fault>(
        seq![("STRING"@, ValueV::String(s))],
    ));
    assert(seq![("PREDEFINED_NAME"@, ValueV::String(w))] + seq![("STRING"@, ValueV::String(s))] =~= seq![("PREDEFINED_NAME"@, ValueV::String(w)), ("STRING"@, ValueV::String(s))]);
    assert(part_tokens(parts, 0, g, vq) == Ok::<Seq<(Seq<char>, ValueV)>, Fault>(
        seq![("PREDEFINED_NAME"@, ValueV::String(w)), ("STRING"@, ValueV::String(s))],
    ));
}

/// A line without bars reads as it is, with no verine between bars open.
proof fn lemma_no_bars_stay(s: Seq<char>, k: int)
    requires
        0 <= k <= s.len(),
        forall|j: int| 0 <= j < s.len() ==> #[trigger] s[j] != '|',
    ensures
        !bar_run(s, k).0.bar,
        bar_run(s, k).1 == s.take(k),
    decreases k,
{
    if k > 0 {
        lemma_no_bars_stay(s, k - 1);
        assert(s[k - 1] != '|');
        assert(s.take(k - 1).push(s[k - 1]) =~= s.take(k));
    } else {
        assert(s.take(0) =~= Seq::<char>::empty());
    }
}

/// A line without parentheses holds no verine.
proof fn lemma_no_parens_scan(s: Seq<char>, k: int)
    requires
        0 <= k <= s.len(),
        forall|j: int| 0 <= j < s.len() ==> #[trigger] s[j] != '(' && s[j] != ')',
    ensures
        verine_scan(s, k) == Ok::<VerineScan, Fault>(
            VerineScan { openings: 0, from: 0, verines: Seq::empty(), errors: Seq::empty() },
        ),
    decreases k,
{
    if k > 0 {
        lemma_no_parens_scan(s, k - 1);
        assert(s[k - 1] != '(' && s[k - 1] != ')');
    }
}

/// A line of a statement name and a string literal of letters, digits,
/// spaces and the marks `,` `.` `:` `!` `?` (not starting with a space)
/// tokenizes to the name's token and one `STRING` token holding the text
/// between the quotes, with no error token (where the first letter of the
/// name and the quote are no white space, as `char::is_whitespace` has it).
pub proof fn law_string_literal_tokens(w: Seq<char>, s: Seq<char>, g: Map<Seq<char>, ValueV>)
    requires
        w.len() > 0,
        forall|i: int| 0 <= i < w.len() ==> is_name_character(#[trigger] w[i]),
        predefined_names().contains(w),
        forall|i: int| 0 <= i < s.len() ==> literal_character(#[trigger] s[i]),
        s.len() == 0 || s[0] != ' ',
        !unicode_whitespace(w[0]),
        !unicode_whitespace('"'),
    ensures
        spec_make_tokens(w + seq![' ', '"'] + s + seq!['"'], g) == Ok::<Seq<(Seq<char>, ValueV)>, Fault>(
            seq![("PREDEFINED_NAME"@, ValueV::String(w)), ("STRING"@, ValueV::String(s))],
        ),
{
    let input = w + seq![' ', '"'] + s + seq!['"'];
    let n = w.len() as int;
    let m = s.len() as int;
    assert(input[0] == w[0]);
    assert(input.last() == '"');
    assert(trim_start_count(input) == 0);
    assert(input.skip(0) =~= input);
    assert(trim_end_count(input) == 0);
    assert(input.take(input.len() as int) =~= input);
    assert(spec_trim(input) == input);
    assert forall|j: int| 0 <= j < input.len() implies #[trigger] input[j] != '|' && input[j] != '(' && input[j]
        != ')' && input[j] != '#' by {
        if j < n {
            assert(input[j] == w[j]);
            assert(is_name_character(w[j]));
        } else if n + 2 <= j < n + 2 + m {
            assert(input[j] == s[j - n - 2]);
            assert(literal_character(s[j - n - 2]));
        }
    }
    lemma_no_bars_stay(input, input.len() as int);
    assert(bar_verines(input) == input);
    lemma_no_parens_scan(input, input.len() as int);
    assert(error_tokens(Seq::empty()) =~= Seq::<(Seq<char>, ValueV)>::empty());
    assert(input.push(' ') =~= w + seq![' ', '"'] + s + seq!['"', ' ']);
    law_string_literal(w, s, g, Seq::empty());
    assert(Seq::<(Seq<char>, ValueV)>::empty() + seq![
        ("PREDEFINED_NAME"@, ValueV::String(w)),
        ("STRING"@, ValueV::String(s)),
    ] =~= seq![("PREDEFINED_NAME"@, ValueV::String(w)), ("STRING"@, ValueV::String(s))]);
}

} // verus!
