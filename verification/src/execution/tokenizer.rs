//! A tokenizer for lines of whole words: names, operators, quoted strings,
//! integers, comments, and arrays of strings or of integers.

use vstd::prelude::*;

use crate::fault::Fault;
use crate::text::{
    byte_len, byte_slice, char_at_byte_offset, chars_between, chars_of, spec_parse_i32, spec_trim,
    string_from, string_of, unicode_numeric,
};

verus! {

/// The value of a token.
#[derive(Debug)]
pub enum ValueEnum {
    String(String),
    IntegerVector(Vec<i32>),
    StringVector(Vec<String>),
}

/// The mathematical form of a token's value.
pub enum ValueV {
    String(Seq<char>),
    IntegerVector(Seq<i32>),
    StringVector(Seq<Seq<char>>),
}

pub open spec fn texts_view(v: Seq<String>) -> Seq<Seq<char>> {
    v.map_values(|s: String| s@)
}

impl View for ValueEnum {
    type V = ValueV;

    open spec fn view(&self) -> ValueV {
        match self {
            ValueEnum::String(s) => ValueV::String(s@),
            ValueEnum::IntegerVector(v) => ValueV::IntegerVector(v@),
            ValueEnum::StringVector(v) => ValueV::StringVector(texts_view(v@)),
        }
    }
}

pub open spec fn tokens_view(l: Seq<(String, ValueEnum)>) -> Seq<(Seq<char>, ValueV)> {
    l.map_values(|p: (String, ValueEnum)| (p.0@, p.1@))
}

/// The token that carries the error message `m`.
pub open spec fn error_token(m: Seq<char>) -> (Seq<char>, ValueV) {
    ("ERROR_MESSAGE"@, ValueV::String(m))
}

// ---------------------------------------------------------------------------
// Splitting a line into parts
// ---------------------------------------------------------------------------

/// The state of the split: the part being read, the array being read,
/// whether an array is open, and the parts found.
#[verifier::ext_equal]
pub struct Splitting {
    pub current: Seq<char>,
    pub array_token: Seq<char>,
    pub array_started: bool,
    pub parts: Seq<Seq<char>>,
}

pub open spec fn quote_open(s: Seq<char>) -> bool {
    s.len() > 0 && s[0] == '"' && !(s.last() == '"')
}

/// The split after the character `c`; `None` at a `]` that closes no array.
/// Arrays `[...]` are parts of their own; each space ends a part unless it
/// stands in a quoted string that is still open.
pub open spec fn split_step(st: Splitting, c: char) -> Option<Splitting> {
    if c == '[' {
        Some(Splitting { array_token: st.array_token.push(c), array_started: true, ..st })
    } else if c == ']' {
        if st.array_started {
            Some(
                Splitting {
                    array_token: Seq::empty(),
                    parts: st.parts.push(st.array_token.push(c)),
                    array_started: false,
                    ..st
                },
            )
        } else {
            None
        }
    } else if st.array_started {
        Some(Splitting { array_token: st.array_token.push(c), ..st })
    } else if c == ' ' {
        if quote_open(st.current) {
            Some(Splitting { current: st.current.push(c), ..st })
        } else {
            Some(Splitting { parts: st.parts.push(st.current), current: Seq::empty(), ..st })
        }
    } else {
        Some(Splitting { current: st.current.push(c), ..st })
    }
}

/// The split after the first `k` characters of `line`.
pub open spec fn split_run(line: Seq<char>, k: int) -> Option<Splitting>
    decreases k,
{
    if k <= 0 {
        Some(
            Splitting {
                current: Seq::empty(),
                array_token: Seq::empty(),
                array_started: false,
                parts: Seq::empty(),
            },
        )
    } else {
        match split_run(line, k - 1) {
            Some(st) => split_step(st, line[k - 1]),
            None => None,
        }
    }
}

pub open spec fn parts_view(p: Seq<Vec<char>>) -> Seq<Seq<char>> {
    p.map_values(|v: Vec<char>| v@)
}

proof fn lemma_split_run_stays(line: Seq<char>, k: int, m: int)
    requires
        0 <= k <= m,
        split_run(line, k) is None,
    ensures
        split_run(line, m) is None,
    decreases m - k,
{
    if m > k {
        lemma_split_run_stays(line, k, m - 1);
    }
}

/// The parts of `line`, or `None` at a `]` that closes no array.
fn split_words(line: &Vec<char>) -> (r: Option<Vec<Vec<char>>>)
    ensures
        match split_run(line@, line@.len() as int) {
            Some(st) => r matches Some(v) && parts_view(v@) == st.parts,
            None => r is None,
        },
{
    let mut current: Vec<char> = Vec::new();
    let mut array_token: Vec<char> = Vec::new();
    let mut array_started = false;
    let mut parts: Vec<Vec<char>> = Vec::new();
    let mut i: usize = 0;
    assert(parts_view(parts@) =~= Seq::<Seq<char>>::empty());
    while i < line.len()
        invariant
            i <= line@.len(),
            split_run(line@, i as int) == Some(
                Splitting {
                    current: current@,
                    array_token: array_token@,
                    array_started: array_started,
                    parts: parts_view(parts@),
                },
            ),
        decreases line.len() - i,
    {
        let c = line[i];
        let ghost before = parts@;
        if c == '[' {
            array_token.push(c);
            array_started = true;
        } else if c == ']' {
            if array_started {
                array_token.push(c);
                let mut t: Vec<char> = Vec::new();
                std::mem::swap(&mut t, &mut array_token);
                parts.push(t);
                assert(parts_view(parts@) =~= parts_view(before).push(t@));
                array_started = false;
            } else {
                proof {
                    lemma_split_run_stays(line@, i + 1, line@.len() as int);
                }
                return None;
            }
        } else if array_started {
            array_token.push(c);
        } else if c == ' ' {
            let open = current.len() > 0 && current[0] == '"' && !(current[current.len() - 1]
                == '"');
            if open {
                current.push(c);
            } else {
                let mut t: Vec<char> = Vec::new();
                std::mem::swap(&mut t, &mut current);
                parts.push(t);
                assert(parts_view(parts@) =~= parts_view(before).push(t@));
            }
        } else {
            current.push(c);
        }
        i += 1;
    }
    Some(parts)
}


// ---------------------------------------------------------------------------
// Arrays of strings and arrays of integers
// ---------------------------------------------------------------------------

/// The state of reading an array of strings: the strings read, the string
/// being read, whether the next `"` opens a string, and the commas since the
/// last string.
#[verifier::ext_equal]
pub struct StringArrayState {
    pub elements: Seq<Seq<char>>,
    pub current: Seq<char>,
    pub first_quote: bool,
    pub commas: int,
}

/// Reading goes on, or stops with an error token.
pub enum StringArrayStep {
    Go(StringArrayState),
    Stop((Seq<char>, ValueV)),
}

/// Reading the character `c` of an array of strings.
pub open spec fn string_array_step(st: StringArrayState, c: char) -> StringArrayStep {
    if c == '"' {
        if st.commas == 1 {
            if st.first_quote {
                StringArrayStep::Go(StringArrayState { current: st.current.push(c), first_quote: false, ..st })
            } else {
                StringArrayStep::Go(
                    StringArrayState {
                        elements: st.elements.push(st.current.push(c)),
                        current: Seq::empty(),
                        first_quote: true,
                        commas: 0,
                    },
                )
            }
        } else if st.commas == 0 {
            StringArrayStep::Stop(error_token("COMMA BETWEEN ELEMENTS OF ARRAY MISSING!"@))
        } else if st.commas > 1 {
            StringArrayStep::Stop(
                ("ERROR_MESSAG"@, ValueV::String("TOO MANY COMMAS BETWEEN ELEMENTS OF ARRAY!"@)),
            )
        } else {
            StringArrayStep::Go(st)
        }
    } else if !st.first_quote {
        StringArrayStep::Go(StringArrayState { current: st.current.push(c), ..st })
    } else if c == ',' {
        StringArrayStep::Go(StringArrayState { commas: st.commas + 1, ..st })
    } else if c != ' ' {
        StringArrayStep::Stop(
            error_token("INVALID CHARACTER IN ARRAY! MAYBE THERE A ARE QUOTES MISSING?"@),
        )
    } else {
        StringArrayStep::Go(st)
    }
}

/// The state after the first `k` characters of `a`, and the error token
/// where reading stopped before.
pub open spec fn string_array_run(a: Seq<char>, k: int) -> (StringArrayState, Option<(Seq<char>, ValueV)>)
    decreases k,
{
    if k <= 0 {
        (StringArrayState { elements: Seq::empty(), current: Seq::empty(), first_quote: true, commas: 1 }, None)
    } else {
        let (st, stop) = string_array_run(a, k - 1);
        if stop is Some {
            (st, stop)
        } else {
            match string_array_step(st, a[k - 1]) {
                StringArrayStep::Go(next) => (next, None),
                StringArrayStep::Stop(t) => (st, Some(t)),
            }
        }
    }
}

/// The state of reading an array of integers: the integers read, the digits
/// being read, whether a number started and may go on, the commas since the
/// last number, and the errors met that do not stop reading.
#[verifier::ext_equal]
pub struct IntegerArrayState {
    pub elements: Seq<i32>,
    pub current: Seq<char>,
    pub started: bool,
    pub valid: bool,
    pub commas: int,
    pub errors: Seq<Seq<char>>,
}

/// Reading goes on, or stops with an error message.
pub enum IntegerArrayStep {
    Go(IntegerArrayState),
    Stop(Seq<char>),
}

/// Reading the character `c` of an array of integers.
pub open spec fn integer_array_step(st: IntegerArrayState, c: char) -> IntegerArrayStep {
    if unicode_numeric(c) {
        if st.commas == 1 {
            if !st.started {
                IntegerArrayStep::Go(
                    IntegerArrayState { current: st.current.push(c), started: true, valid: true, ..st },
                )
            } else if st.valid {
                IntegerArrayStep::Go(IntegerArrayState { current: st.current.push(c), ..st })
            } else {
                IntegerArrayStep::Stop("INVALID FORMATION OF ELEMENTS OF ARRAY!"@)
            }
        } else if st.commas == 0 {
            IntegerArrayStep::Stop("COMMA BETWEEN ELEMENTS OF ARRAY MISSING!"@)
        } else if st.commas > 1 {
            IntegerArrayStep::Stop("TOO MANY COMMAS BETWEEN ELEMENTS OF ARRAY!"@)
        } else {
            IntegerArrayStep::Go(st)
        }
    } else if c == ' ' {
        if st.started {
            IntegerArrayStep::Go(IntegerArrayState { valid: false, ..st })
        } else {
            IntegerArrayStep::Go(st)
        }
    } else if c == ',' {
        match spec_parse_i32(st.current) {
            Some(n) => IntegerArrayStep::Go(
                IntegerArrayState {
                    elements: st.elements.push(n),
                    current: Seq::empty(),
                    started: false,
                    valid: false,
                    commas: 1,
                    ..st
                },
            ),
            None => IntegerArrayStep::Stop("INTEGER ELEMENTS OF AN ARRAY HAVE TO BE I32!"@),
        }
    } else {
        IntegerArrayStep::Go(IntegerArrayState { errors: st.errors.push("INVALID CHARACTER IN ARRAY!"@), ..st })
    }
}

/// The state after the first `k` characters of `a`, and the error message
/// where reading stopped before.
pub open spec fn integer_array_run(a: Seq<char>, k: int) -> (IntegerArrayState, Option<Seq<char>>)
    decreases k,
{
    if k <= 0 {
        (
            IntegerArrayState {
                elements: Seq::empty(),
                current: Seq::empty(),
                started: false,
                valid: false,
                commas: 1,
                errors: Seq::empty(),
            },
            None,
        )
    } else {
        let (st, stop) = integer_array_run(a, k - 1);
        if stop is Some {
            (st, stop)
        } else {
            match integer_array_step(st, a[k - 1]) {
                IntegerArrayStep::Go(next) => (next, None),
                IntegerArrayStep::Stop(m) => (st, Some(m)),
            }
        }
    }
}

pub open spec fn error_tokens(ms: Seq<Seq<char>>) -> Seq<(Seq<char>, ValueV)> {
    ms.map_values(|m: Seq<char>| error_token(m))
}

/// Some character of `s` is numeric.
pub open spec fn has_numeric(s: Seq<char>) -> bool {
    exists|i: int| 0 <= i < s.len() && #[trigger] unicode_numeric(s[i])
}

/// The tokens of an array part `[...]`, and whether tokenizing the line
/// stops: an array of strings if it holds a `"`, else an array of integers
/// if it holds a digit.
pub open spec fn array_word_tokens(part: Seq<char>) -> (Seq<(Seq<char>, ValueV)>, bool) {
    let array = part.subrange(1, part.len() - 1);
    let t = spec_trim(array);
    let misplaced = seq![error_token("THERE IS A COMMA AT WRONG PLACE IN THE ARRAY!"@)];
    if t.len() == 0 {
        (seq![error_token("ARRAY IS EMPTY!"@)], true)
    } else if part.contains('"') {
        if t[0] == ',' || t.last() == ',' {
            (misplaced, true)
        } else {
            let (st, stop) = string_array_run(array, array.len() as int);
            let first = match stop {
                Some(tok) => seq![tok],
                None => Seq::empty(),
            };
            (first.push(("STRING_ARRAY"@, ValueV::StringVector(st.elements))), false)
        }
    } else if has_numeric(part) {
        if t[0] == ',' || t.last() == ',' {
            (misplaced, true)
        } else {
            let a = array.push(',');
            let (st, stop) = integer_array_run(a, a.len() as int);
            let errs = match stop {
                Some(m) => error_tokens(st.errors.push(m)),
                None => error_tokens(st.errors),
            };
            (errs.push(("INTEGER_ARRAY"@, ValueV::IntegerVector(st.elements))), false)
        }
    } else {
        (seq![error_token("ELEMENTS OF ARRAY DON'T SEEM TO BE STRINGS OR INTEGERS!"@)], true)
    }
}


proof fn lemma_string_array_stays(a: Seq<char>, k: int, m: int)
    requires
        0 <= k <= m,
        string_array_run(a, k).1 is Some,
    ensures
        string_array_run(a, m) == string_array_run(a, k),
    decreases m - k,
{
    if m > k {
        lemma_string_array_stays(a, k, m - 1);
    }
}

proof fn lemma_integer_array_stays(a: Seq<char>, k: int, m: int)
    requires
        0 <= k <= m,
        integer_array_run(a, k).1 is Some,
    ensures
        integer_array_run(a, m) == integer_array_run(a, k),
    decreases m - k,
{
    if m > k {
        lemma_integer_array_stays(a, k, m - 1);
    }
}

/// The token that carries the error message `m`.
fn error_of(m: &str) -> (r: (String, ValueEnum))
    ensures
        (r.0@, r.1@) == error_token(m@),
{
    (string_from("ERROR_MESSAGE"), ValueEnum::String(string_from(m)))
}

/// Reads an array of strings: the strings read, and the error token where
/// reading stopped.
fn read_string_array(a: &Vec<char>) -> (r: (Vec<String>, Option<(String, ValueEnum)>))
    ensures
        ({
            let (st, stop) = string_array_run(a@, a@.len() as int);
            &&& texts_view(r.0@) == st.elements
            &&& match stop {
                Some(t) => r.1 matches Some(x) && (x.0@, x.1@) == t,
                None => r.1 is None,
            }
        }),
{
    let mut elements: Vec<String> = Vec::new();
    let mut current: Vec<char> = Vec::new();
    let mut first_quote = true;
    let mut commas: u128 = 1;
    let mut k: usize = 0;
    assert(texts_view(elements@) =~= Seq::<Seq<char>>::empty());
    while k < a.len()
        invariant
            k <= a@.len(),
            commas <= k + 1,
            string_array_run(a@, k as int) == (
                StringArrayState {
                    elements: texts_view(elements@),
                    current: current@,
                    first_quote: first_quote,
                    commas: commas as int,
                },
                None::<(Seq<char>, ValueV)>,
            ),
        decreases a.len() - k,
    {
        let c = a[k];
        let stop: Option<(String, ValueEnum)> = if c == '"' {
            if commas == 1 {
                if first_quote {
                    current.push(c);
                    first_quote = false;
                } else {
                    current.push(c);
                    let text = string_of(current.as_slice(), 0, current.len());
                    assert(current@.subrange(0, current@.len() as int) =~= current@);
                    let ghost before = elements@;
                    elements.push(text);
                    assert(texts_view(elements@) =~= texts_view(before).push(current@));
                    current = Vec::new();
                    first_quote = true;
                    commas = 0;
                }
                None
            } else if commas == 0 {
                Some(error_of("COMMA BETWEEN ELEMENTS OF ARRAY MISSING!"))
            } else {
                Some(
                    (
                        string_from("ERROR_MESSAG"),
                        ValueEnum::String(string_from("TOO MANY COMMAS BETWEEN ELEMENTS OF ARRAY!")),
                    ),
                )
            }
        } else if !first_quote {
            current.push(c);
            None
        } else if c == ',' {
            commas = commas + 1;
            None
        } else if c != ' ' {
            Some(error_of("INVALID CHARACTER IN ARRAY! MAYBE THERE A ARE QUOTES MISSING?"))
        } else {
            None
        };
        match stop {
            Some(t) => {
                proof {
                    lemma_string_array_stays(a@, k + 1, a@.len() as int);
                }
                return (elements, Some(t));
            },
            None => {},
        }
        k += 1;
    }
    (elements, None)
}

/// Reads an array of integers: the integers read, the errors met, and the
/// error message where reading stopped.
fn read_integer_array(a: &Vec<char>) -> (r: (Vec<i32>, Vec<String>, Option<&'static str>))
    ensures
        ({
            let (st, stop) = integer_array_run(a@, a@.len() as int);
            &&& r.0@ == st.elements
            &&& texts_view(r.1@) == st.errors
            &&& match stop {
                Some(m) => r.2 matches Some(x) && x@ == m,
                None => r.2 is None,
            }
        }),
{
    let mut elements: Vec<i32> = Vec::new();
    let mut current: Vec<char> = Vec::new();
    let mut started = false;
    let mut valid = false;
    let mut errors: Vec<String> = Vec::new();
    let commas: u64 = 1;
    let mut k: usize = 0;
    assert(texts_view(errors@) =~= Seq::<Seq<char>>::empty());
    while k < a.len()
        invariant
            k <= a@.len(),
            commas == 1,
            integer_array_run(a@, k as int) == (
                IntegerArrayState {
                    elements: elements@,
                    current: current@,
                    started: started,
                    valid: valid,
                    commas: commas as int,
                    errors: texts_view(errors@),
                },
                None::<Seq<char>>,
            ),
        decreases a.len() - k,
    {
        let c = a[k];
        let stop: Option<&'static str> = if crate::text::char_is_numeric(c) {
            if !started {
                current.push(c);
                started = true;
                valid = true;
                None
            } else if valid {
                current.push(c);
                None
            } else {
                Some("INVALID FORMATION OF ELEMENTS OF ARRAY!")
            }
        } else if c == ' ' {
            if started {
                valid = false;
            }
            None
        } else if c == ',' {
            match crate::text::parse_i32(current.as_slice()) {
                Some(n) => {
                    elements.push(n);
                    current = Vec::new();
                    started = false;
                    valid = false;
                    None
                },
                None => Some("INTEGER ELEMENTS OF AN ARRAY HAVE TO BE I32!"),
            }
        } else {
            let ghost before = errors@;
            errors.push(string_from("INVALID CHARACTER IN ARRAY!"));
            assert(texts_view(errors@) =~= texts_view(before).push("INVALID CHARACTER IN ARRAY!"@));
            None
        };
        match stop {
            Some(m) => {
                proof {
                    lemma_integer_array_stays(a@, k + 1, a@.len() as int);
                }
                return (elements, errors, Some(m));
            },
            None => {},
        }
        k += 1;
    }
    (elements, errors, None)
}


/// Whether `c` occurs in `s`.
fn holds(s: &[char], c: char) -> (r: bool)
    ensures
        r == s@.contains(c),
{
    let mut i: usize = 0;
    while i < s.len()
        invariant
            i <= s@.len(),
            forall|j: int| 0 <= j < i ==> s@[j] != c,
        decreases s.len() - i,
    {
        if s[i] == c {
            return true;
        }
        i += 1;
    }
    false
}

/// Whether some character of `s` is numeric.
fn holds_numeric(s: &[char]) -> (r: bool)
    ensures
        r == has_numeric(s@),
{
    let mut i: usize = 0;
    while i < s.len()
        invariant
            i <= s@.len(),
            forall|j: int| 0 <= j < i ==> !unicode_numeric(#[trigger] s@[j]),
        decreases s.len() - i,
    {
        if crate::text::char_is_numeric(s[i]) {
            return true;
        }
        i += 1;
    }
    false
}

/// The tokens of an array part `[...]`, and whether tokenizing the line
/// stops.
fn array_part(part: &Vec<char>) -> (r: (Vec<(String, ValueEnum)>, bool))
    requires
        part@.len() >= 2,
    ensures
        (tokens_view(r.0@), r.1) == array_word_tokens(part@),
{
    let array = chars_between(part.as_slice(), 1, part.len() - 1);
    let (ts, te) = crate::text::trim_bounds(array.as_slice());
    let ghost t = spec_trim(array@);
    if ts == te {
        let v = vec![error_of("ARRAY IS EMPTY!")];
        assert(tokens_view(v@) =~= seq![error_token("ARRAY IS EMPTY!"@)]);
        return (v, true);
    }
    assert(t[0] == array@[ts as int]);
    assert(t.last() == array@[te - 1]);
    let misplaced = array[ts] == ',' || array[te - 1] == ',';
    if holds(part.as_slice(), '"') {
        if misplaced {
            let v = vec![error_of("THERE IS A COMMA AT WRONG PLACE IN THE ARRAY!")];
            assert(tokens_view(v@) =~= seq![error_token("THERE IS A COMMA AT WRONG PLACE IN THE ARRAY!"@)]);
            return (v, true);
        }
        let (elements, stop) = read_string_array(&array);
        let mut v: Vec<(String, ValueEnum)> = Vec::new();
        match stop {
            Some(t) => {
                v.push(t);
            },
            None => {},
        }
        let ghost first = tokens_view(v@);
        let ghost els = texts_view(elements@);
        v.push((string_from("STRING_ARRAY"), ValueEnum::StringVector(elements)));
        assert(tokens_view(v@) =~= first.push(("STRING_ARRAY"@, ValueV::StringVector(els))));
        (v, false)
    } else if holds_numeric(part.as_slice()) {
        if misplaced {
            let v = vec![error_of("THERE IS A COMMA AT WRONG PLACE IN THE ARRAY!")];
            assert(tokens_view(v@) =~= seq![error_token("THERE IS A COMMA AT WRONG PLACE IN THE ARRAY!"@)]);
            return (v, true);
        }
        let mut a = array;
        a.push(',');
        let (elements, errors, stop) = read_integer_array(&a);
        let mut v: Vec<(String, ValueEnum)> = Vec::new();
        let mut e: usize = 0;
        while e < errors.len()
            invariant
                e <= errors@.len(),
                tokens_view(v@) == error_tokens(texts_view(errors@).take(e as int)),
            decreases errors.len() - e,
        {
            let ghost before = v@;
            v.push((string_from("ERROR_MESSAGE"), ValueEnum::String(errors[e].clone())));
            assert(tokens_view(v@) =~= tokens_view(before).push(error_token(errors@[e as int]@)));
            assert(texts_view(errors@).take(e + 1) =~= texts_view(errors@).take(e as int).push(
                errors@[e as int]@,
            ));
            assert(error_tokens(texts_view(errors@).take(e + 1)) =~= error_tokens(
                texts_view(errors@).take(e as int),
            ).push(error_token(errors@[e as int]@)));
            e += 1;
        }
        assert(texts_view(errors@).take(errors@.len() as int) =~= texts_view(errors@));
        let ghost before = tokens_view(v@);
        match stop {
            Some(m) => {
                v.push(error_of(m));
                assert(tokens_view(v@) =~= error_tokens(texts_view(errors@).push(m@))) by {
                    assert(tokens_view(v@) =~= before.push(error_token(m@)));
                }
            },
            None => {},
        }
        let ghost errs = tokens_view(v@);
        let ghost els = elements@;
        v.push((string_from("INTEGER_ARRAY"), ValueEnum::IntegerVector(elements)));
        assert(tokens_view(v@) =~= errs.push(("INTEGER_ARRAY"@, ValueV::IntegerVector(els))));
        (v, false)
    } else {
        let v = vec![error_of("ELEMENTS OF ARRAY DON'T SEEM TO BE STRINGS OR INTEGERS!")];
        assert(tokens_view(v@) =~= seq![error_token("ELEMENTS OF ARRAY DON'T SEEM TO BE STRINGS OR INTEGERS!"@)]);
        (v, true)
    }
}


// ---------------------------------------------------------------------------
// Classifying the parts
// ---------------------------------------------------------------------------

pub open spec fn words(v: Seq<&'static str>) -> Seq<Seq<char>> {
    v.map_values(|w: &'static str| w@)
}

/// The predefined names of these lines.
pub open spec fn names() -> Seq<Seq<char>> {
    words(
        seq![
            "LET",
            "PRINT",
            "FN",
            "START",
            "END",
            "DO",
            "IF",
            "ELSE",
            "WHILE",
            "RESET",
            "PUSH",
            "POP",
            "FROM",
            "ON",
            "AT",
        ],
    )
}

/// The operators of these lines.
pub open spec fn operators() -> Seq<Seq<char>> {
    words(seq!["+", "-", "*", "/", "**", "//", "=", "==", "!="])
}

/// The tokens of one part of `line` (the input and a space), and whether
/// tokenizing stops; `first` says that no part came before.
pub open spec fn word_tokens(part: Seq<char>, first: bool, line: Seq<char>) -> Result<
    (Seq<(Seq<char>, ValueV)>, bool),
    Fault,
> {
    if names().contains(part) {
        Ok((seq![("PREDEFINED_NAME"@, ValueV::String(part))], false))
    } else if operators().contains(part) {
        Ok((seq![("OPERATOR"@, ValueV::String(part))], false))
    } else if part.len() == 0 {
        Err(Fault::EmptyPart)
    } else if part[0] == '"' && part.last() == '"' {
        Ok((seq![("STRING"@, ValueV::String(part))], false))
    } else if spec_parse_i32(part) is Some {
        Ok((seq![("INTEGER"@, ValueV::String(part))], false))
    } else if part[0] == '[' && part.last() == ']' {
        Ok(array_word_tokens(part))
    } else if part[0] == '#' {
        if first {
            match byte_slice(line, 1, byte_len(line) as int) {
                Some(text) => Ok((seq![("COMMENT"@, ValueV::String(text))], true)),
                None => Err(Fault::CharBoundary),
            }
        } else {
            Ok(
                (
                    seq![
                        error_token(
                            "IT'S NOT ALLOWED TO PUT A COMMENT AFTER SOMETHING. ONE COMMENT TAKES ONE LINE!"@,
                        ),
                    ],
                    true,
                ),
            )
        }
    } else if forall|i: int| 0 <= i < part.len() ==> (('A' <= #[trigger] part[i] && part[i] <= 'Z')
        || part[i] == '_') {
        Ok((seq![("VARIABLE/FUNCTION_NAME"@, ValueV::String(part))], false))
    } else {
        Ok((seq![error_token("VARIABLE/FUNCTION NAME INCLUDES INVALID CHARACTERS!"@)], true))
    }
}

/// The tokens of the parts from index `i` on.
pub open spec fn words_from(parts: Seq<Seq<char>>, i: int, line: Seq<char>) -> Result<
    Seq<(Seq<char>, ValueV)>,
    Fault,
>
    decreases parts.len() - i,
{
    if i < 0 || i >= parts.len() {
        Ok(Seq::empty())
    } else {
        match word_tokens(parts[i], i == 0, line) {
            Err(f) => Err(f),
            Ok((ts, stop)) => if stop {
                Ok(ts)
            } else {
                match words_from(parts, i + 1, line) {
                    Ok(more) => Ok(ts + more),
                    Err(f) => Err(f),
                }
            },
        }
    }
}

/// The tokens of a line of whole words.
pub open spec fn spec_make_tokens(input: Seq<char>) -> Result<Seq<(Seq<char>, ValueV)>, Fault> {
    let line = input.push(' ');
    if line.contains('[') && !line.contains(']') {
        Ok(seq![error_token("A [ ALWAYS NEEDS A ] ! ORDER: [ AND THEN ] !"@)])
    } else {
        match split_run(line, line.len() as int) {
            None => Ok(seq![error_token("A ] ALWAYS NEEDS A [ ! ORDER: [ AND THEN ] !"@)]),
            Some(st) => if st.parts.len() == 0 {
                Err(Fault::NoParts)
            } else if st.parts.last().len() == 0 {
                words_from(st.parts.drop_last(), 0, line)
            } else {
                words_from(st.parts, 0, line)
            },
        }
    }
}


/// Whether the characters `part` spell `w`.
fn spells(part: &[char], w: &str) -> (r: bool)
    ensures
        r == (part@ == w@),
{
    let cs = chars_of(w);
    if cs.len() != part.len() {
        return false;
    }
    let mut i: usize = 0;
    while i < cs.len()
        invariant
            cs@ == w@,
            cs@.len() == part@.len(),
            i <= cs@.len(),
            forall|j: int| 0 <= j < i ==> part@[j] == cs@[j],
        decreases cs.len() - i,
    {
        if part[i] != cs[i] {
            return false;
        }
        i += 1;
    }
    assert(part@ =~= cs@);
    true
}

/// Whether `part` spells one of the words of `list`.
fn spells_one_of(part: &[char], list: &[&'static str]) -> (r: bool)
    ensures
        r == words(list@).contains(part@),
{
    let mut i: usize = 0;
    while i < list.len()
        invariant
            i <= list@.len(),
            forall|j: int| 0 <= j < i ==> words(list@)[j] != part@,
        decreases list.len() - i,
    {
        if spells(part, list[i]) {
            assert(words(list@)[i as int] == part@);
            return true;
        }
        i += 1;
    }
    false
}

/// The token `(class, String(text))`.
fn text_token(class: &str, text: &[char]) -> (r: (String, ValueEnum))
    ensures
        r.0@ == class@,
        r.1@ == ValueV::String(text@),
{
    let v = string_of(text, 0, text.len());
    assert(text@.subrange(0, text@.len() as int) =~= text@);
    (string_from(class), ValueEnum::String(v))
}

/// Whether every character of `part` is a capital letter or `_`.
fn name_characters(part: &[char]) -> (r: bool)
    ensures
        r == (forall|i: int| 0 <= i < part@.len() ==> (('A' <= #[trigger] part@[i] && part@[i] <= 'Z')
            || part@[i] == '_')),
{
    let mut i: usize = 0;
    while i < part.len()
        invariant
            i <= part@.len(),
            forall|j: int| 0 <= j < i ==> (('A' <= #[trigger] part@[j] && part@[j] <= 'Z') || part@[j] == '_'),
        decreases part.len() - i,
    {
        let c = part[i];
        if !(('A' <= c && c <= 'Z') || c == '_') {
            assert(!(('A' <= part@[i as int] && part@[i as int] <= 'Z') || part@[i as int] == '_'));
            return false;
        }
        i += 1;
    }
    true
}

/// The tokens of one part of `line`, and whether tokenizing stops.
fn word_part(part: &Vec<char>, first: bool, line: &Vec<char>) -> (r: Result<(Vec<(String, ValueEnum)>, bool), Fault>)
    ensures
        match word_tokens(part@, first, line@) {
            Ok((ts, stop)) => r matches Ok((v, b)) && tokens_view(v@) == ts && b == stop,
            Err(f) => r == Err::<(Vec<(String, ValueEnum)>, bool), Fault>(f),
        },
{
    let names_list = vec![
        "LET",
        "PRINT",
        "FN",
        "START",
        "END",
        "DO",
        "IF",
        "ELSE",
        "WHILE",
        "RESET",
        "PUSH",
        "POP",
        "FROM",
        "ON",
        "AT",
    ];
    let operator_list = vec!["+", "-", "*", "/", "**", "//", "=", "==", "!="];
    assert(words(names_list@) =~= names());
    assert(words(operator_list@) =~= operators());
    if spells_one_of(part.as_slice(), names_list.as_slice()) {
        let v = vec![text_token("PREDEFINED_NAME", part.as_slice())];
        assert(tokens_view(v@) =~= seq![("PREDEFINED_NAME"@, ValueV::String(part@))]);
        return Ok((v, false));
    }
    if spells_one_of(part.as_slice(), operator_list.as_slice()) {
        let v = vec![text_token("OPERATOR", part.as_slice())];
        assert(tokens_view(v@) =~= seq![("OPERATOR"@, ValueV::String(part@))]);
        return Ok((v, false));
    }
    let n = part.len();
    if n == 0 {
        return Err(Fault::EmptyPart);
    }
    if part[0] == '"' && part[n - 1] == '"' {
        let v = vec![text_token("STRING", part.as_slice())];
        assert(tokens_view(v@) =~= seq![("STRING"@, ValueV::String(part@))]);
        return Ok((v, false));
    }
    if crate::text::parse_i32(part.as_slice()).is_some() {
        let v = vec![text_token("INTEGER", part.as_slice())];
        assert(tokens_view(v@) =~= seq![("INTEGER"@, ValueV::String(part@))]);
        return Ok((v, false));
    }
    if part[0] == '[' && part[n - 1] == ']' {
        return Ok(array_part(part));
    }
    if part[0] == '#' {
        if first {
            let k1 = char_at_byte_offset(line.as_slice(), 1);
            proof {
                crate::text::lemma_end_is_boundary(line@);
                crate::text::lemma_char_at_byte_bound(line@, 1);
            }
            match k1 {
                Some(a) => {
                    let text = string_of(line.as_slice(), a, line.len());
                    let v = vec![(string_from("COMMENT"), ValueEnum::String(text))];
                    assert(tokens_view(v@) =~= seq![("COMMENT"@, ValueV::String(line@.subrange(a as int, line@.len() as int)))]);
                    return Ok((v, true));
                },
                None => {
                    return Err(Fault::CharBoundary);
                },
            }
        }
        let v = vec![error_of("IT'S NOT ALLOWED TO PUT A COMMENT AFTER SOMETHING. ONE COMMENT TAKES ONE LINE!")];
        assert(tokens_view(v@) =~= seq![error_token("IT'S NOT ALLOWED TO PUT A COMMENT AFTER SOMETHING. ONE COMMENT TAKES ONE LINE!"@)]);
        return Ok((v, true));
    }
    if !name_characters(part.as_slice()) {
        let v = vec![error_of("VARIABLE/FUNCTION NAME INCLUDES INVALID CHARACTERS!")];
        assert(tokens_view(v@) =~= seq![error_token("VARIABLE/FUNCTION NAME INCLUDES INVALID CHARACTERS!"@)]);
        return Ok((v, true));
    }
    let v = vec![text_token("VARIABLE/FUNCTION_NAME", part.as_slice())];
    assert(tokens_view(v@) =~= seq![("VARIABLE/FUNCTION_NAME"@, ValueV::String(part@))]);
    Ok((v, false))
}

/// `acc` put before the tokens of `r`.
pub open spec fn prepend(acc: Seq<(Seq<char>, ValueV)>, r: Result<Seq<(Seq<char>, ValueV)>, Fault>) -> Result<
    Seq<(Seq<char>, ValueV)>,
    Fault,
> {
    match r {
        Ok(t) => Ok(acc + t),
        Err(f) => Err(f),
    }
}

/// Splits a line of whole words into tokens: pairs of a class
/// (`PREDEFINED_NAME`, `OPERATOR`, `STRING`, `INTEGER`, `STRING_ARRAY`,
/// `INTEGER_ARRAY`, `COMMENT`, `VARIABLE/FUNCTION_NAME`, or an error class)
/// and a value. Tokenizing stops at the first part whose error ends the line.
pub fn make_tokens(input: String) -> (r: Result<Vec<(String, ValueEnum)>, Fault>)
    ensures
        match spec_make_tokens(input@) {
            Ok(ts) => r matches Ok(v) && tokens_view(v@) == ts,
            Err(f) => r == Err::<Vec<(String, ValueEnum)>, Fault>(f),
        },
{
    let mut line = chars_of(input.as_str());
    line.push(' ');
    assert(line@ =~= input@.push(' '));
    if holds(line.as_slice(), '[') && !holds(line.as_slice(), ']') {
        let v = vec![error_of("A [ ALWAYS NEEDS A ] ! ORDER: [ AND THEN ] !")];
        assert(tokens_view(v@) =~= seq![error_token("A [ ALWAYS NEEDS A ] ! ORDER: [ AND THEN ] !"@)]);
        return Ok(v);
    }
    let parts = match split_words(&line) {
        None => {
            let v = vec![error_of("A ] ALWAYS NEEDS A [ ! ORDER: [ AND THEN ] !")];
            assert(tokens_view(v@) =~= seq![error_token("A ] ALWAYS NEEDS A [ ! ORDER: [ AND THEN ] !"@)]);
            return Ok(v);
        },
        Some(p) => p,
    };
    if parts.len() == 0 {
        return Err(Fault::NoParts);
    }
    let mut parts = parts;
    if parts[parts.len() - 1].len() == 0 {
        let ghost before = parts@;
        parts.pop();
        assert(parts_view(parts@) =~= parts_view(before).drop_last());
    }
    let ghost ps = parts_view(parts@);
    let ghost whole = words_from(ps, 0, line@);
    let mut out: Vec<(String, ValueEnum)> = Vec::new();
    let mut i: usize = 0;
    assert(tokens_view(out@) =~= Seq::<(Seq<char>, ValueV)>::empty());
    assert(prepend(Seq::empty(), whole) == whole) by {
        match whole {
            Ok(t) => {
                assert(Seq::<(Seq<char>, ValueV)>::empty() + t =~= t);
            },
            Err(_) => {},
        }
    }
    while i < parts.len()
        invariant
            spec_make_tokens(input@) == whole,
            ps == parts_view(parts@),
            i <= parts@.len(),
            whole == prepend(tokens_view(out@), words_from(ps, i as int, line@)),
        decreases parts.len() - i,
    {
        assert(ps[i as int] == parts@[i as int]@);
        match word_part(&parts[i], i == 0, &line) {
            Err(f) => {
                return Err(f);
            },
            Ok((toks, stop)) => {
                let ghost before = tokens_view(out@);
                let mut toks = toks;
                let ghost tv = tokens_view(toks@);
                out.append(&mut toks);
                assert(tokens_view(out@) =~= before + tv);
                if stop {
                    return Ok(out);
                }
                proof {
                    match words_from(ps, i + 1, line@) {
                        Ok(more) => {
                            assert(before + (tv + more) =~= (before + tv) + more);
                        },
                        Err(_) => {},
                    }
                }
            },
        }
        i += 1;
    }
    assert(tokens_view(out@) + Seq::<(Seq<char>, ValueV)>::empty() =~= tokens_view(out@));
    Ok(out)
}

} // verus!
