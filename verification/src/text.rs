//! Characters and strings: the Unicode character classes the language uses,
//! decimal integers, the shape of floating-point literals, and trimming.

use vstd::prelude::*;

verus! {

broadcast use vstd::seq_lib::group_seq_properties;

// ---------------------------------------------------------------------------
// Unicode character classes
// ---------------------------------------------------------------------------

/// The Unicode `White_Space` property, as `char::is_whitespace` computes it.
pub uninterp spec fn unicode_whitespace(c: char) -> bool;

/// The Unicode classes `Alphabetic`, `Nd`, `Nl` and `No` together, as
/// `char::is_alphanumeric` computes them.
pub uninterp spec fn unicode_alphanumeric(c: char) -> bool;

/// The Unicode classes `Nd`, `Nl` and `No`, as `char::is_numeric` computes them.
pub uninterp spec fn unicode_numeric(c: char) -> bool;

/// The Unicode `Lowercase` property, as `char::is_lowercase` computes it.
pub uninterp spec fn unicode_lowercase(c: char) -> bool;

/// `char::is_lowercase`.
///
/// Trusted: std defines the result as the Unicode `Lowercase` property; in
/// the ASCII range it holds exactly of the letters `a` to `z`.
#[verifier::external_body]
pub(crate) fn char_is_lowercase(c: char) -> (r: bool)
    ensures
        r == unicode_lowercase(c),
        (c as u32) < 128 ==> (r <==> ('a' <= c && c <= 'z')),
{
    c.is_lowercase()
}

/// `char::is_whitespace`.
///
/// Trusted: std defines the result as the Unicode `White_Space` property; in
/// the ASCII range that property holds exactly of tab, line feed, vertical
/// tab, form feed, carriage return and space.
#[verifier::external_body]
pub(crate) fn char_is_whitespace(c: char) -> (r: bool)
    ensures
        r == unicode_whitespace(c),
        (c as u32) < 128 ==> (r <==> (c == ' ' || ('\t' <= c && c <= '\r'))),
{
    c.is_whitespace()
}

/// `char::is_alphanumeric`.
///
/// Trusted: std defines the result as "alphabetic or numeric" in the Unicode
/// sense; in the ASCII range these are exactly the letters and the digits.
#[verifier::external_body]
pub(crate) fn char_is_alphanumeric(c: char) -> (r: bool)
    ensures
        r == unicode_alphanumeric(c),
        (c as u32) < 128 ==> (r <==> (('A' <= c && c <= 'Z') || ('a' <= c && c <= 'z') || (
        '0' <= c && c <= '9'))),
{
    c.is_alphanumeric()
}

/// `char::is_numeric`.
///
/// Trusted: std defines the result as the Unicode number categories; in the
/// ASCII range they hold exactly of the ten digits.
#[verifier::external_body]
pub(crate) fn char_is_numeric(c: char) -> (r: bool)
    ensures
        r == unicode_numeric(c),
        (c as u32) < 128 ==> (r <==> ('0' <= c && c <= '9')),
{
    c.is_numeric()
}

/// `String::push`.
///
/// Trusted: appends `c` to the characters of `s`.
#[verifier::external_body]
pub(crate) fn push_char(s: &mut String, c: char)
    ensures
        final(s)@ == old(s)@.push(c),
{
    s.push(c)
}

// ---------------------------------------------------------------------------
// Conversions between strings and character vectors
// ---------------------------------------------------------------------------

/// The characters of a string slice, in order.
pub fn chars_of(s: &str) -> (r: Vec<char>)
    ensures
        r@ == s@,
{
    let mut v: Vec<char> = Vec::new();
    for c in it: s.chars()
        invariant
            v@ == it.seq().take(it.index() as int),
            it.seq() == s@,
    {
        v.push(c);
    }
    v
}

/// A string made of the characters `s[from..to]`.
pub fn string_of(s: &[char], from: usize, to: usize) -> (r: String)
    requires
        from <= to <= s@.len(),
    ensures
        r@ == s@.subrange(from as int, to as int),
{
    let mut out = String::new();
    let mut i = from;
    while i < to
        invariant
            from <= i <= to <= s@.len(),
            out@ == s@.subrange(from as int, i as int),
        decreases to - i,
    {
        push_char(&mut out, s[i]);
        i += 1;
    }
    out
}

/// Appends the characters of `t` to `s`.
pub fn push_str(s: &mut String, t: &str)
    ensures
        final(s)@ == old(s)@ + t@,
{
    let cs = chars_of(t);
    let mut i: usize = 0;
    while i < cs.len()
        invariant
            i <= cs@.len(),
            cs@ == t@,
            s@ == old(s)@ + t@.take(i as int),
        decreases cs.len() - i,
    {
        push_char(s, cs[i]);
        i += 1;
    }
}

/// A string holding the characters of `s`.
pub fn string_from(s: &str) -> (r: String)
    ensures
        r@ == s@,
{
    let mut r = String::new();
    push_str(&mut r, s);
    assert(r@ =~= s@);
    r
}

// ---------------------------------------------------------------------------
// Decimal integers (`str::parse::<i32>` and the `Display` of `i32`)
// ---------------------------------------------------------------------------

pub open spec fn is_digit(c: char) -> bool {
    '0' <= c && c <= '9'
}

pub open spec fn all_digits(s: Seq<char>) -> bool {
    forall|i: int| 0 <= i < s.len() ==> is_digit(#[trigger] s[i])
}

pub open spec fn digit_value(c: char) -> int {
    c as int - '0' as int
}

/// The number that a string of decimal digits denotes.
pub open spec fn digits_value(s: Seq<char>) -> int
    decreases s.len(),
{
    if s.len() == 0 {
        0
    } else {
        digits_value(s.drop_last()) * 10 + digit_value(s.last())
    }
}

/// `str::parse::<i32>`: an optional `+` or `-` and at least one ASCII digit,
/// denoting a number in the range of `i32`.
pub open spec fn spec_parse_i32(s: Seq<char>) -> Option<i32> {
    let signed = s.len() > 0 && (s[0] == '+' || s[0] == '-');
    let body = if signed {
        s.drop_first()
    } else {
        s
    };
    if body.len() > 0 && all_digits(body) {
        let v = if signed && s[0] == '-' {
            -digits_value(body)
        } else {
            digits_value(body)
        };
        if i32::MIN <= v && v <= i32::MAX {
            Some(v as i32)
        } else {
            None
        }
    } else {
        None
    }
}

proof fn lemma_digits_value_nonneg(s: Seq<char>)
    requires
        all_digits(s),
    ensures
        digits_value(s) >= 0,
    decreases s.len(),
{
    if s.len() > 0 {
        lemma_digits_value_nonneg(s.drop_last());
    }
}

proof fn lemma_digits_value_grows(s: Seq<char>, k: int)
    requires
        all_digits(s),
        0 <= k <= s.len(),
    ensures
        digits_value(s.take(k)) <= digits_value(s),
    decreases s.len(),
{
    if k < s.len() {
        lemma_digits_value_nonneg(s.drop_last());
        assert(s.drop_last().take(k) =~= s.take(k));
        lemma_digits_value_grows(s.drop_last(), k);
    } else {
        assert(s.take(k) =~= s);
    }
}

/// Parses a decimal `i32` as `str::parse::<i32>` does.
pub fn parse_i32(s: &[char]) -> (r: Option<i32>)
    ensures
        r == spec_parse_i32(s@),
{
    assert(s@.subrange(0, s@.len() as int) =~= s@);
    parse_i32_range(s, 0, s.len())
}

/// Parses the characters `s[from..to]` as `str::parse::<i32>` does.
pub fn parse_i32_range(s: &[char], from: usize, to: usize) -> (r: Option<i32>)
    requires
        from <= to <= s@.len(),
    ensures
        r == spec_parse_i32(s@.subrange(from as int, to as int)),
{
    let ghost t = s@.subrange(from as int, to as int);
    if from == to {
        return None;
    }
    let signed = s[from] == '+' || s[from] == '-';
    let start: usize = if signed {
        from + 1
    } else {
        from
    };
    let ghost body = s@.subrange(start as int, to as int);
    assert(body =~= (if signed {
        t.drop_first()
    } else {
        t
    }));
    if start == to {
        return None;
    }
    match digits_i64(s, start, to) {
        None => None,
        Some(acc) => {
            if signed && s[from] == '-' {
                Some((-acc) as i32)
            } else if acc <= 2147483647 {
                Some(acc as i32)
            } else {
                None
            }
        },
    }
}

/// The value of the digits `s[start..to]` if they are all digits and the
/// value is at most 2^31; `None` otherwise.
fn digits_i64(s: &[char], start: usize, to: usize) -> (r: Option<i64>)
    requires
        start <= to <= s@.len(),
    ensures
        ({
            let body = s@.subrange(start as int, to as int);
            match r {
                Some(v) => all_digits(body) && v == digits_value(body) && 0 <= v <= 2147483648,
                None => !all_digits(body) || digits_value(body) > 2147483648,
            }
        }),
{
    let n = to;
    let ghost body = s@.subrange(start as int, n as int);
    let mut acc: i64 = 0;
    let mut i = start;
    while i < n
        invariant
            start <= i <= n,
            n <= s@.len(),
            n == to,
            body == s@.subrange(start as int, n as int),
            all_digits(body.take(i - start)),
            acc == digits_value(body.take(i - start)),
            0 <= acc <= 2147483648,
        decreases n - i,
    {
        let c = s[i];
        if !('0' <= c && c <= '9') {
            assert(body[i - start] == c);
            return None;
        }
        proof {
            let k = i - start;
            assert(body.take(k + 1).drop_last() =~= body.take(k));
            assert(body.take(k + 1).last() == c);
            assert(digits_value(body.take(k + 1)) == acc * 10 + digit_value(c));
        }
        acc = acc * 10 + (c as u32 - '0' as u32) as i64;
        i += 1;
        if acc > 2147483648 {
            proof {
                if all_digits(body) {
                    lemma_digits_value_grows(body, i - start);
                }
            }
            return None;
        }
    }
    assert(body.take(n - start) =~= body);
    Some(acc)
}

/// The decimal digit character for `d < 10`.
pub open spec fn digit_char(d: nat) -> char {
    (48 + d) as char
}

/// The decimal digits of a natural number, without leading zeros.
pub open spec fn nat_text(n: nat) -> Seq<char>
    decreases n,
{
    if n < 10 {
        seq![digit_char(n)]
    } else {
        nat_text(n / 10).push(digit_char(n % 10))
    }
}

/// The text that the `Display` of `i32` writes.
pub open spec fn int_text(v: int) -> Seq<char> {
    if v < 0 {
        seq!['-'] + nat_text((-v) as nat)
    } else {
        nat_text(v as nat)
    }
}

proof fn lemma_nat_text_digits(n: nat)
    ensures
        nat_text(n).len() > 0,
        all_digits(nat_text(n)),
        digits_value(nat_text(n)) == n,
    decreases n,
{
    assert(digit_value(digit_char(n % 10)) == n % 10);
    assert(is_digit(digit_char(n % 10)));
    if n >= 10 {
        lemma_nat_text_digits(n / 10);
        let t = nat_text(n / 10).push(digit_char(n % 10));
        assert(t.drop_last() =~= nat_text(n / 10));
        assert(digits_value(t) == digits_value(nat_text(n / 10)) * 10 + digit_value(digit_char(n % 10)));
        assert(n == (n / 10) * 10 + n % 10);
        assert(nat_text(n) == t);
        assert(digits_value(nat_text(n)) == n);
        assert forall|i: int| 0 <= i < t.len() implies is_digit(#[trigger] t[i]) by {
            if i < t.len() - 1 {
                assert(t[i] == nat_text(n / 10)[i]);
            }
        }
    } else {
        assert(nat_text(n).drop_last() =~= Seq::<char>::empty());
        assert(nat_text(n).last() == digit_char(n));
        assert(n % 10 == n);
        assert(digits_value(nat_text(n)) == digits_value(Seq::<char>::empty()) * 10 + digit_value(digit_char(n)));
    }
}

/// What `Display` writes for an `i32` reads back, with `str::parse::<i32>`,
/// as the same number.
pub proof fn law_integer_text_round_trip(v: i32)
    ensures
        spec_parse_i32(int_text(v as int)) == Some(v),
{
    if v < 0 {
        let m = (-v) as nat;
        lemma_nat_text_digits(m);
        let s = int_text(v as int);
        assert(s.drop_first() =~= nat_text(m));
    } else {
        lemma_nat_text_digits(v as nat);
        assert(is_digit(nat_text(v as nat)[0]));
    }
}

/// Writes `n` in decimal, as `u64::to_string` does.
pub fn u64_text(n: u64) -> (r: String)
    ensures
        r@ == nat_text(n as nat),
{
    let mut m: u64 = n;
    let mut rev: Vec<char> = Vec::new();
    let ghost mut suffix: Seq<char> = Seq::empty();
    assert(nat_text(n as nat) + suffix =~= nat_text(n as nat));
    while m >= 10
        invariant
            m <= n,
            nat_text(n as nat) == nat_text(m as nat) + suffix,
            suffix == rev@.reverse(),
        decreases m,
    {
        let d = (m % 10) as u8;
        let c = (48u8 + d) as char;
        assert(c == digit_char((m % 10) as nat));
        proof {
            assert(nat_text(m as nat) == nat_text((m / 10) as nat).push(c));
            assert(nat_text(m as nat) + suffix =~= nat_text((m / 10) as nat) + (seq![c] + suffix));
            assert((rev@.push(c)).reverse() =~= seq![c] + rev@.reverse());
            suffix = seq![c] + suffix;
        }
        rev.push(c);
        m = m / 10;
    }
    let c0 = (48u8 + m as u8) as char;
    assert(nat_text(m as nat) == seq![c0]);
    let mut out = String::new();
    push_char(&mut out, c0);
    let mut j = rev.len();
    while j > 0
        invariant
            j <= rev@.len(),
            out@ == seq![c0] + rev@.reverse().take((rev@.len() - j) as int),
        decreases j,
    {
        j -= 1;
        assert(rev@.reverse()[(rev@.len() - j - 1) as int] == rev@[j as int]);
        assert(rev@.reverse().take((rev@.len() - j) as int) =~= rev@.reverse().take(
            (rev@.len() - j - 1) as int,
        ).push(rev@[j as int]));
        push_char(&mut out, rev[j]);
    }
    assert(rev@.reverse().take(rev@.len() as int) =~= rev@.reverse());
    assert(out@ =~= nat_text(n as nat));
    out
}

/// Writes `v` in decimal, as `i32::to_string` does.
pub fn i32_text(v: i32) -> (r: String)
    ensures
        r@ == int_text(v as int),
{
    let neg = v < 0;
    let mag: u64 = if neg {
        (-(v as i64)) as u64
    } else {
        v as u64
    };
    let digits = u64_text(mag);
    if neg {
        let mut out = String::new();
        push_char(&mut out, '-');
        push_str(&mut out, digits.as_str());
        assert(out@ =~= seq!['-'] + nat_text(mag as nat));
        out
    } else {
        digits
    }
}

/// Writes `n` in decimal, as `usize::to_string` does.
pub fn usize_text(n: usize) -> (r: String)
    ensures
        r@ == nat_text(n as nat),
{
    u64_text(n as u64)
}

// ---------------------------------------------------------------------------
// Floating-point literals (the grammar of `str::parse::<f32>`)
// ---------------------------------------------------------------------------

/// The index after the run of ASCII digits of `s` that starts at `i`.
pub open spec fn digit_run(s: Seq<char>, i: int) -> int
    decreases s.len() - i,
{
    if 0 <= i < s.len() && is_digit(s[i]) {
        digit_run(s, i + 1)
    } else {
        i
    }
}

/// `s` without a leading `+` or `-`.
pub open spec fn unsigned_part(s: Seq<char>) -> Seq<char> {
    if s.len() > 0 && (s[0] == '+' || s[0] == '-') {
        s.drop_first()
    } else {
        s
    }
}

/// An exponent after its `e`: an optional sign and at least one digit.
pub open spec fn exponent_digits(x: Seq<char>) -> bool {
    let y = unsigned_part(x);
    y.len() > 0 && all_digits(y)
}

/// `Digit+ | Digit+ '.' Digit* | Digit* '.' Digit+`, then an optional
/// exponent `('e' | 'E') Sign? Digit+`.
pub open spec fn decimal_shape(b: Seq<char>) -> bool {
    let i1 = digit_run(b, 0);
    let has_point = i1 < b.len() && b[i1] == '.';
    let i2 = if has_point {
        digit_run(b, i1 + 1)
    } else {
        i1
    };
    let fraction = if has_point {
        i2 - (i1 + 1)
    } else {
        0
    };
    &&& (i1 > 0 || fraction > 0)
    &&& (i2 == b.len() || ((b[i2] == 'e' || b[i2] == 'E') && exponent_digits(
        b.subrange(i2 + 1, b.len() as int),
    )))
}

/// `c` is the lower-case ASCII letter `w` in either case.
pub open spec fn same_letter(c: char, w: char) -> bool {
    c == w || (c as u32) + 32 == w as u32
}

/// `s` spells `word` (lower-case ASCII letters) in any mix of cases.
pub open spec fn equals_ignoring_case(s: Seq<char>, word: Seq<char>) -> bool {
    s.len() == word.len() && forall|i: int| 0 <= i < s.len() ==> same_letter(#[trigger] s[i], word[i])
}

/// The strings that `str::parse::<f32>` accepts: an optional sign, then
/// `inf`, `infinity` or `nan` in any case, or a decimal number.
pub open spec fn f32_literal(s: Seq<char>) -> bool {
    let b = unsigned_part(s);
    ||| equals_ignoring_case(b, seq!['i', 'n', 'f'])
    ||| equals_ignoring_case(b, seq!['i', 'n', 'f', 'i', 'n', 'i', 't', 'y'])
    ||| equals_ignoring_case(b, seq!['n', 'a', 'n'])
    ||| decimal_shape(b)
}

proof fn lemma_digit_run(s: Seq<char>, i: int)
    requires
        0 <= i <= s.len(),
    ensures
        i <= digit_run(s, i) <= s.len(),
        forall|j: int| i <= j < digit_run(s, i) ==> is_digit(#[trigger] s[j]),
        digit_run(s, i) < s.len() ==> !is_digit(s[digit_run(s, i)]),
    decreases s.len() - i,
{
    if i < s.len() && is_digit(s[i]) {
        lemma_digit_run(s, i + 1);
    }
}

/// The index after the run of ASCII digits of `s` that starts at `i`.
fn skip_digits(s: &[char], i: usize) -> (r: usize)
    requires
        i <= s@.len(),
    ensures
        r == digit_run(s@, i as int),
{
    let mut k = i;
    while k < s.len() && '0' <= s[k] && s[k] <= '9'
        invariant
            i <= k <= s@.len(),
            digit_run(s@, i as int) == digit_run(s@, k as int),
        decreases s.len() - k,
    {
        k += 1;
    }
    k
}

/// Whether `s` spells `word` in any mix of cases.
fn equal_ignoring_case(s: &[char], word: &[char]) -> (r: bool)
    ensures
        r == equals_ignoring_case(s@, word@),
{
    if s.len() != word.len() {
        return false;
    }
    let mut i: usize = 0;
    while i < word.len()
        invariant
            s@.len() == word@.len(),
            i <= word@.len(),
            forall|j: int| 0 <= j < i ==> same_letter(#[trigger] s@[j], word@[j]),
        decreases word.len() - i,
    {
        let c = s[i];
        let w = word[i];
        if !(c == w || (c as u32) as u64 + 32 == (w as u32) as u64) {
            return false;
        }
        i += 1;
    }
    true
}

/// The characters `s[from..]`.
pub fn chars_from(s: &[char], from: usize) -> (r: Vec<char>)
    requires
        from <= s@.len(),
    ensures
        r@ == s@.subrange(from as int, s@.len() as int),
{
    let mut v: Vec<char> = Vec::new();
    let mut i = from;
    while i < s.len()
        invariant
            from <= i <= s@.len(),
            v@ == s@.subrange(from as int, i as int),
        decreases s.len() - i,
    {
        v.push(s[i]);
        i += 1;
    }
    v
}

/// Whether `b` is a decimal number with an optional exponent.
fn has_decimal_shape(b: &[char]) -> (r: bool)
    ensures
        r == decimal_shape(b@),
{
    proof {
        lemma_digit_run(b@, 0);
    }
    let i1 = skip_digits(b, 0);
    let has_point = i1 < b.len() && b[i1] == '.';
    let i2 = if has_point {
        skip_digits(b, i1 + 1)
    } else {
        i1
    };
    proof {
        if has_point {
            lemma_digit_run(b@, i1 + 1);
        }
    }
    let fraction_digits = has_point && i2 > i1 + 1;
    if !(i1 > 0 || fraction_digits) {
        return false;
    }
    if i2 == b.len() {
        return true;
    }
    if b[i2] != 'e' && b[i2] != 'E' {
        return false;
    }
    let x = chars_from(b, i2 + 1);
    let start: usize = if x.len() > 0 && (x[0] == '+' || x[0] == '-') {
        1
    } else {
        0
    };
    assert(unsigned_part(x@) =~= x@.subrange(start as int, x@.len() as int));
    if start == x.len() {
        return false;
    }
    let e = skip_digits(x.as_slice(), start);
    proof {
        lemma_digit_run(x@, start as int);
        if e < x@.len() {
            assert(unsigned_part(x@)[e - start] == x@[e as int]);
        } else {
            assert forall|j: int| 0 <= j < unsigned_part(x@).len() implies is_digit(
                #[trigger] unsigned_part(x@)[j],
            ) by {
                assert(unsigned_part(x@)[j] == x@[start + j]);
            }
        }
    }
    e == x.len()
}

/// Whether `str::parse::<f32>` accepts `s`.
pub fn is_f32_literal(s: &[char]) -> (r: bool)
    ensures
        r == f32_literal(s@),
{
    let start: usize = if s.len() > 0 && (s[0] == '+' || s[0] == '-') {
        1
    } else {
        0
    };
    let b = chars_from(s, start);
    assert(b@ =~= unsigned_part(s@));
    let inf = ['i', 'n', 'f'];
    let infinity = ['i', 'n', 'f', 'i', 'n', 'i', 't', 'y'];
    let nan = ['n', 'a', 'n'];
    assert(inf@ =~= seq!['i', 'n', 'f']);
    assert(infinity@ =~= seq!['i', 'n', 'f', 'i', 'n', 'i', 't', 'y']);
    assert(nan@ =~= seq!['n', 'a', 'n']);
    equal_ignoring_case(b.as_slice(), &inf) || equal_ignoring_case(b.as_slice(), &infinity)
        || equal_ignoring_case(b.as_slice(), &nan) || has_decimal_shape(b.as_slice())
}

// ---------------------------------------------------------------------------
// Byte offsets in UTF-8 (`str::len` and byte-indexed slicing)
// ---------------------------------------------------------------------------

/// The number of bytes of `c` in UTF-8.
pub open spec fn char_width(c: char) -> nat {
    let v = c as u32;
    if v < 0x80 {
        1
    } else if v < 0x800 {
        2
    } else if v < 0x10000 {
        3
    } else {
        4
    }
}

/// The number of bytes of `s` in UTF-8 (what `str::len` gives).
pub open spec fn byte_len(s: Seq<char>) -> nat
    decreases s.len(),
{
    if s.len() == 0 {
        0
    } else {
        byte_len(s.drop_last()) + char_width(s.last())
    }
}

/// The index `j >= k` of the character of `s` whose encoding starts at byte
/// `b` (`s.len()` where `b` is the byte length of `s`); `None` where byte `b`
/// lies inside a character or past the end.
pub open spec fn char_at_byte_from(s: Seq<char>, b: int, k: int) -> Option<int>
    decreases s.len() - k,
{
    if k < 0 || k > s.len() {
        None
    } else if byte_len(s.take(k)) == b {
        Some(k)
    } else if byte_len(s.take(k)) > b || k == s.len() {
        None
    } else {
        char_at_byte_from(s, b, k + 1)
    }
}

/// The index of the character of `s` whose encoding starts at byte `b`.
pub open spec fn char_at_byte(s: Seq<char>, b: int) -> Option<int> {
    char_at_byte_from(s, b, 0)
}

/// The characters of `s` between the byte offsets `b1` and `b2`, as
/// `&s[b1..b2]` gives them; `None` where that slice panics.
pub open spec fn byte_slice(s: Seq<char>, b1: int, b2: int) -> Option<Seq<char>> {
    match char_at_byte(s, b1) {
        Some(k1) => match char_at_byte(s, b2) {
            Some(k2) => if k1 <= k2 {
                Some(s.subrange(k1, k2))
            } else {
                None
            },
            None => None,
        },
        None => None,
    }
}

pub proof fn lemma_char_at_byte_bound(s: Seq<char>, b: int)
    ensures
        char_at_byte(s, b) matches Some(k) ==> 0 <= k <= s.len(),
{
    lemma_char_at_byte_from_bound(s, b, 0);
}

proof fn lemma_char_at_byte_from_bound(s: Seq<char>, b: int, k: int)
    ensures
        char_at_byte_from(s, b, k) matches Some(j) ==> k <= j <= s.len(),
    decreases s.len() - k,
{
    if 0 <= k < s.len() && byte_len(s.take(k)) < b {
        lemma_char_at_byte_from_bound(s, b, k + 1);
    }
}

/// The characters `s[from..to]`.
pub fn chars_between(s: &[char], from: usize, to: usize) -> (r: Vec<char>)
    requires
        from <= to <= s@.len(),
    ensures
        r@ == s@.subrange(from as int, to as int),
{
    let mut v: Vec<char> = Vec::new();
    let mut i = from;
    while i < to
        invariant
            from <= i <= to <= s@.len(),
            v@ == s@.subrange(from as int, i as int),
        decreases to - i,
    {
        v.push(s[i]);
        i += 1;
    }
    v
}

/// The end of a string is where its last character's encoding ends.
pub proof fn lemma_end_is_boundary(s: Seq<char>)
    ensures
        char_at_byte(s, byte_len(s) as int) == Some(s.len() as int),
{
    lemma_end_from(s, 0);
}

proof fn lemma_end_from(s: Seq<char>, k: int)
    requires
        0 <= k <= s.len(),
    ensures
        char_at_byte_from(s, byte_len(s) as int, k) == Some(s.len() as int),
    decreases s.len() - k,
{
    if k < s.len() {
        lemma_prefix_shorter(s, k);
        lemma_end_from(s, k + 1);
    } else {
        assert(s.take(k) =~= s);
    }
}

proof fn lemma_prefix_shorter(s: Seq<char>, k: int)
    requires
        0 <= k < s.len(),
    ensures
        byte_len(s.take(k)) < byte_len(s),
    decreases s.len() - k,
{
    assert(s.take(k + 1).drop_last() =~= s.take(k));
    if k + 1 < s.len() {
        lemma_prefix_shorter(s, k + 1);
    } else {
        assert(s.take(k + 1) =~= s);
    }
}

/// In a string of ASCII characters, each character is one byte.
pub proof fn lemma_ascii_bytes(s: Seq<char>)
    requires
        forall|i: int| 0 <= i < s.len() ==> (#[trigger] s[i] as u32) < 0x80,
    ensures
        byte_len(s) == s.len(),
    decreases s.len(),
{
    if s.len() > 0 {
        lemma_ascii_bytes(s.drop_last());
    }
}

/// In a string of ASCII characters, byte `b` starts character `b`.
pub proof fn lemma_ascii_char_at_byte(s: Seq<char>, b: int)
    requires
        forall|i: int| 0 <= i < s.len() ==> (#[trigger] s[i] as u32) < 0x80,
        0 <= b <= s.len(),
    ensures
        char_at_byte(s, b) == Some(b),
{
    lemma_ascii_char_at_byte_from(s, b, 0);
}

proof fn lemma_ascii_char_at_byte_from(s: Seq<char>, b: int, k: int)
    requires
        forall|i: int| 0 <= i < s.len() ==> (#[trigger] s[i] as u32) < 0x80,
        0 <= k <= b <= s.len(),
    ensures
        char_at_byte_from(s, b, k) == Some(b),
    decreases b - k,
{
    assert forall|i: int| 0 <= i < s.take(k).len() implies (#[trigger] s.take(k)[i] as u32) < 0x80 by {
        assert(s.take(k)[i] == s[i]);
    }
    lemma_ascii_bytes(s.take(k));
    if k < b {
        lemma_ascii_char_at_byte_from(s, b, k + 1);
    }
}

pub proof fn lemma_byte_len_bound(s: Seq<char>)
    ensures
        s.len() <= byte_len(s) <= 4 * s.len(),
    decreases s.len(),
{
    if s.len() > 0 {
        lemma_byte_len_bound(s.drop_last());
    }
}

/// The number of bytes of `c` in UTF-8.
pub fn width_of(c: char) -> (r: u8)
    ensures
        r == char_width(c),
{
    let v = c as u32;
    if v < 0x80 {
        1
    } else if v < 0x800 {
        2
    } else if v < 0x10000 {
        3
    } else {
        4
    }
}

/// The number of bytes of `s` in UTF-8.
pub fn byte_length(s: &[char]) -> (r: u128)
    ensures
        r == byte_len(s@),
{
    let mut n: u128 = 0;
    let mut i: usize = 0;
    while i < s.len()
        invariant
            i <= s@.len(),
            n == byte_len(s@.take(i as int)),
        decreases s.len() - i,
    {
        proof {
            lemma_byte_len_bound(s@.take(i as int));
            assert(s@.take(i + 1).drop_last() =~= s@.take(i as int));
        }
        n = n + width_of(s[i]) as u128;
        i += 1;
    }
    assert(s@.take(s@.len() as int) =~= s@);
    n
}

/// The index of the character of `s` whose encoding starts at byte `b`.
pub fn char_at_byte_offset(s: &[char], b: usize) -> (r: Option<usize>)
    ensures
        r matches Some(k) ==> char_at_byte(s@, b as int) == Some(k as int),
        r is None ==> char_at_byte(s@, b as int) is None,
{
    let mut off: u128 = 0;
    let mut k: usize = 0;
    loop
        invariant
            k <= s@.len(),
            off == byte_len(s@.take(k as int)),
            off <= b,
            char_at_byte(s@, b as int) == char_at_byte_from(s@, b as int, k as int),
        decreases s@.len() - k,
    {
        if off == b as u128 {
            return Some(k);
        }
        if k == s.len() {
            return None;
        }
        proof {
            assert(s@.take(k + 1).drop_last() =~= s@.take(k as int));
        }
        off = off + width_of(s[k]) as u128;
        k += 1;
        if off > b as u128 {
            return None;
        }
    }
}

// ---------------------------------------------------------------------------
// Trimming
// ---------------------------------------------------------------------------

/// `s` without its leading and trailing Unicode whitespace (`str::trim`).
pub open spec fn trim_start_count(s: Seq<char>) -> nat
    decreases s.len(),
{
    if s.len() > 0 && unicode_whitespace(s[0]) {
        1 + trim_start_count(s.drop_first())
    } else {
        0
    }
}

pub open spec fn trim_end_count(s: Seq<char>) -> nat
    decreases s.len(),
{
    if s.len() > 0 && unicode_whitespace(s.last()) {
        1 + trim_end_count(s.drop_last())
    } else {
        0
    }
}

pub open spec fn spec_trim(s: Seq<char>) -> Seq<char> {
    let t = s.skip(trim_start_count(s) as int);
    t.take(t.len() - trim_end_count(t))
}

proof fn lemma_trim_start_bound(s: Seq<char>)
    ensures
        trim_start_count(s) <= s.len(),
    decreases s.len(),
{
    if s.len() > 0 && unicode_whitespace(s[0]) {
        lemma_trim_start_bound(s.drop_first());
    }
}

proof fn lemma_trim_end_bound(s: Seq<char>)
    ensures
        trim_end_count(s) <= s.len(),
    decreases s.len(),
{
    if s.len() > 0 && unicode_whitespace(s.last()) {
        lemma_trim_end_bound(s.drop_last());
    }
}

/// The bounds `(start, end)` of `s` without leading and trailing whitespace.
pub fn trim_bounds(s: &[char]) -> (r: (usize, usize))
    ensures
        r.0 <= r.1 <= s@.len(),
        s@.subrange(r.0 as int, r.1 as int) == spec_trim(s@),
{
    let n = s.len();
    let mut a: usize = 0;
    while a < n && char_is_whitespace(s[a])
        invariant
            a <= n == s@.len(),
            trim_start_count(s@) == a + trim_start_count(s@.skip(a as int)),
        decreases n - a,
    {
        assert(s@.skip(a as int).drop_first() =~= s@.skip(a + 1));
        a += 1;
    }
    assert(trim_start_count(s@.skip(a as int)) == 0);
    let ghost t = s@.skip(a as int);
    let mut b: usize = n;
    while b > a && char_is_whitespace(s[b - 1])
        invariant
            a <= b <= n == s@.len(),
            t == s@.skip(a as int),
            trim_end_count(t) == (n - b) + trim_end_count(t.take(b - a)),
        decreases b,
    {
        assert(t.take(b - a).drop_last() =~= t.take(b - a - 1));
        b -= 1;
    }
    assert(trim_end_count(t.take(b - a)) == 0);
    assert(s@.subrange(a as int, b as int) =~= t.take(t.len() - trim_end_count(t)));
    (a, b)
}

} // verus!
