//! The interpreter: executes the tokenized lines of a program, one at a time.

use vstd::prelude::*;

pub mod tokenizer;

use crate::fault::Fault;
use crate::runtime::{Comparison, Runtime, f32_host, lemma_f32_order_dual, reversed};
use crate::text::{char_at_byte, int_text, push_str, string_from};
use crate::tokenizer::{
    ArrayTypesEnum, ElementV, ValueEnum, ValueV, duplicate_elements, duplicate_tokens, elements_view,
    strings_view, tokens_view,
};
use crate::evaluation::{EvalOutcome, eval};
use crate::verine_expression::{Token, TokenV, Tokenizer, TokenizerError, TokenizerErrorV};
use crate::variables::{Functions, Variables, block_view, line_view, str_equal};

verus! {

// ---------------------------------------------------------------------------
// Indentation
// ---------------------------------------------------------------------------

/// The four spaces that one level of block code indents.
pub open spec fn one_level() -> Seq<char> {
    seq![' ', ' ', ' ', ' ']
}

/// Opens one more level of block code.
pub fn add_indentation(indentation: &mut String)
    ensures
        final(indentation)@ == old(indentation)@ + one_level(),
{
    proof {
        reveal_strlit("    ");
        assert("    "@ =~= one_level());
    }
    push_str(indentation, "    ");
}

/// Closes one level of block code: drops the first four bytes (the four
/// spaces of a level), which must end at a character.
pub fn subtract_indentation(indentation: &mut String)
    requires
        char_at_byte(old(indentation)@, 4) is Some,
    ensures
        final(indentation)@ == old(indentation)@.skip(char_at_byte(old(indentation)@, 4).unwrap()),
{
    let cs = crate::text::chars_of(indentation.as_str());
    proof {
        crate::text::lemma_char_at_byte_bound(cs@, 4);
    }
    let k = match crate::text::char_at_byte_offset(cs.as_slice(), 4) {
        Some(k) => k,
        None => {
            return;
        },
    };
    *indentation = crate::text::string_of(cs.as_slice(), k, cs.len());
    assert(cs@.subrange(k as int, cs@.len() as int) =~= cs@.skip(k as int));
}

/// An indentation of four spaces per open block.
pub open spec fn well_indented(s: Seq<char>) -> bool {
    s.len() % 4 == 0 && forall|i: int| 0 <= i < s.len() ==> s[i] == ' '
}

/// Opening a level keeps an indentation well formed.
pub proof fn lemma_open_level(s: Seq<char>)
    requires
        well_indented(s),
    ensures
        well_indented(s + one_level()),
{
    assert forall|i: int| 0 <= i < (s + one_level()).len() implies (s + one_level())[i] == ' ' by {
        if i < s.len() {
            assert((s + one_level())[i] == s[i]);
        }
    }
}

/// Closing a level of a well-formed indentation drops four spaces.
pub proof fn lemma_close_level(s: Seq<char>)
    requires
        well_indented(s),
        s.len() >= 4,
    ensures
        char_at_byte(s, 4) == Some(4int),
        well_indented(s.skip(4)),
{
    assert forall|i: int| 0 <= i < s.len() implies (#[trigger] s[i] as u32) < 0x80 by {
        assert(s[i] == ' ');
    }
    crate::text::lemma_ascii_char_at_byte(s, 4);
    assert forall|i: int| 0 <= i < s.skip(4).len() implies s.skip(4)[i] == ' ' by {
        assert(s.skip(4)[i] == s[i + 4]);
    }
}

/// `new` has a well-formed indentation where `old` has one.
pub open spec fn keeps_indentation(old: ExecData, new: ExecData) -> bool {
    well_indented(old.indentation@) ==> well_indented(new.indentation@)
}

/// Opening one more level of block code and closing one gives back the
/// indentation there was, where it is made of spaces.
pub proof fn law_indentation_round_trip(s: Seq<char>)
    requires
        forall|i: int| 0 <= i < s.len() ==> s[i] == ' ',
    ensures
        char_at_byte(s + one_level(), 4) is Some,
        (s + one_level()).skip(char_at_byte(s + one_level(), 4).unwrap()) == s,
{
    let t = s + one_level();
    assert forall|i: int| 0 <= i < t.len() implies (#[trigger] t[i] as u32) < 0x80 by {
        assert(t[i] == ' ');
    }
    crate::text::lemma_ascii_char_at_byte(t, 4);
    assert(t.skip(4) =~= s) by {
        assert forall|i: int| 0 <= i < s.len() implies t.skip(4)[i] == s[i] by {
            assert(t[i + 4] == ' ');
        }
    }
}

// ---------------------------------------------------------------------------
// The order of the tokens of each statement
// ---------------------------------------------------------------------------

/// The allowed token orders for a statement: each position gives the class
/// of the token and its text (`?` for any text).
pub enum OrderEnum {
    SingleOption(Vec<(&'static str, &'static str)>),
    MultipleOptions(Vec<Vec<(&'static str, &'static str)>>),
}

/// The mathematical form of an order.
pub enum OrderV {
    Single(Seq<(Seq<char>, Seq<char>)>),
    Multiple(Seq<Seq<(Seq<char>, Seq<char>)>>),
}

pub open spec fn pattern_view(p: Seq<(&'static str, &'static str)>) -> Seq<(Seq<char>, Seq<char>)> {
    p.map_values(|e: (&'static str, &'static str)| (e.0@, e.1@))
}

impl View for OrderEnum {
    type V = OrderV;

    open spec fn view(&self) -> OrderV {
        match self {
            OrderEnum::SingleOption(p) => OrderV::Single(pattern_view(p@)),
            OrderEnum::MultipleOptions(ps) => OrderV::Multiple(
                ps@.map_values(|p: Vec<(&'static str, &'static str)>| pattern_view(p@)),
            ),
        }
    }
}

/// The classes of a value position.
pub open spec fn value_kinds() -> Seq<Seq<char>> {
    seq!["STRING"@, "INTEGER"@, "FLOAT"@, "VARIABLE/FUNCTION_NAME"@, "VERINE"@]
}

/// The classes of the value that `LET` binds.
pub open spec fn let_kinds() -> Seq<Seq<char>> {
    seq!["STRING"@, "INTEGER"@, "FLOAT"@, "VARIABLE/FUNCTION_NAME"@, "VERINE"@, "ARRAY"@]
}

/// The classes of an index position.
pub open spec fn index_kinds() -> Seq<Seq<char>> {
    seq!["INTEGER"@, "VARIABLE/FUNCTION_NAME"@, "VERINE"@]
}

pub open spec fn kinds_view(k: Seq<&'static str>) -> Seq<Seq<char>> {
    k.map_values(|s: &'static str| s@)
}

/// `t` with position `slot` standing for any token of class `class`.
pub open spec fn with_class(t: Seq<(Seq<char>, Seq<char>)>, slot: int, class: Seq<char>) -> Seq<(Seq<char>, Seq<char>)> {
    t.update(slot, (class, "?"@))
}

/// The orders `t` with position `a` of each class of `ka`.
pub open spec fn product1(t: Seq<(Seq<char>, Seq<char>)>, a: int, ka: Seq<Seq<char>>) -> Seq<Seq<(Seq<char>, Seq<char>)>> {
    Seq::new(ka.len(), |k: int| with_class(t, a, ka[k]))
}

/// The orders `t` with position `a` of each class of `ka` and position `b`
/// of each class of `kb` (`a` varying slowest).
pub open spec fn product2(
    t: Seq<(Seq<char>, Seq<char>)>,
    a: int,
    ka: Seq<Seq<char>>,
    b: int,
    kb: Seq<Seq<char>>,
) -> Seq<Seq<(Seq<char>, Seq<char>)>> {
    Seq::new(
        ka.len() * kb.len(),
        |k: int| with_class(with_class(t, a, ka[k / kb.len() as int]), b, kb[k % kb.len() as int]),
    )
}

pub open spec fn name_token(n: &str) -> (Seq<char>, Seq<char>) {
    ("PREDEFINED_NAME"@, n@)
}

pub open spec fn any_of(class: Seq<char>) -> (Seq<char>, Seq<char>) {
    (class, "?"@)
}

pub open spec fn variable() -> (Seq<char>, Seq<char>) {
    any_of("VARIABLE/FUNCTION_NAME"@)
}

/// The orders of the statements, by the name they start with.
pub open spec fn name_order(name: Seq<char>) -> Option<OrderV> {
    if name == "LET"@ {
        Some(
            OrderV::Multiple(
                product1(
                    seq![name_token("LET"), variable(), ("EQUAL_SIGN"@, "="@), any_of("STRING"@)],
                    3,
                    let_kinds(),
                ),
            ),
        )
    } else if name == "PRINT"@ {
        Some(OrderV::Multiple(product1(seq![name_token("PRINT"), any_of("STRING"@)], 1, value_kinds())))
    } else if name == "FN"@ {
        Some(OrderV::Single(seq![name_token("FN"), variable(), name_token("START")]))
    } else if name == "DO"@ {
        Some(OrderV::Single(seq![name_token("DO"), variable()]))
    } else if name == "IF"@ || name == "ELIF"@ || name == "WHILE"@ {
        Some(
            OrderV::Multiple(
                product2(
                    seq![
                        ("PREDEFINED_NAME"@, name),
                        any_of("STRING"@),
                        any_of("COMPARING_OPERATOR"@),
                        any_of("STRING"@),
                        name_token("START"),
                    ],
                    1,
                    value_kinds(),
                    3,
                    value_kinds(),
                ),
            ),
        )
    } else if name == "PUSH"@ {
        Some(
            OrderV::Multiple(
                product1(
                    seq![name_token("PUSH"), any_of("STRING"@), name_token("ONTO"), variable()],
                    1,
                    value_kinds(),
                ),
            ),
        )
    } else if name == "POP"@ {
        Some(OrderV::Single(seq![name_token("POP"), name_token("FROM"), variable()]))
    } else if name == "INSERT"@ {
        Some(
            OrderV::Multiple(
                product2(
                    seq![
                        name_token("INSERT"),
                        any_of("STRING"@),
                        name_token("INTO"),
                        variable(),
                        name_token("AT"),
                        any_of("INTEGER"@),
                    ],
                    1,
                    value_kinds(),
                    5,
                    index_kinds(),
                ),
            ),
        )
    } else if name == "REMOVE"@ {
        Some(
            OrderV::Single(
                seq![name_token("REMOVE"), name_token("FROM"), variable(), name_token("AT"), any_of("INTEGER"@)],
            ),
        )
    } else if name == "SET"@ {
        Some(
            OrderV::Multiple(
                product2(
                    seq![
                        name_token("SET"),
                        variable(),
                        name_token("AT"),
                        any_of("INTEGER"@),
                        name_token("TO"),
                        any_of("STRING"@),
                    ],
                    3,
                    index_kinds(),
                    5,
                    value_kinds(),
                ),
            ),
        )
    } else if name == "HELP_FOR"@ {
        Some(OrderV::Single(seq![name_token("HELP_FOR"), any_of("PREDEFINED_NAME"@)]))
    } else {
        None
    }
}

/// No statement has more than thirty orders.
pub proof fn lemma_few_orders(name: Seq<char>)
    ensures
        name_order(name) matches Some(OrderV::Multiple(ps)) ==> ps.len() <= 30,
{
    assert(value_kinds().len() == 5);
    assert(let_kinds().len() == 6);
    assert(index_kinds().len() == 3);
}

fn kinds_of_values() -> (r: Vec<&'static str>)
    ensures
        kinds_view(r@) == value_kinds(),
        r@.len() == 5,
{
    let r = vec!["STRING", "INTEGER", "FLOAT", "VARIABLE/FUNCTION_NAME", "VERINE"];
    assert(kinds_view(r@) =~= value_kinds());
    r
}

fn kinds_of_let() -> (r: Vec<&'static str>)
    ensures
        kinds_view(r@) == let_kinds(),
{
    let r = vec!["STRING", "INTEGER", "FLOAT", "VARIABLE/FUNCTION_NAME", "VERINE", "ARRAY"];
    assert(kinds_view(r@) =~= let_kinds());
    r
}

fn kinds_of_indices() -> (r: Vec<&'static str>)
    ensures
        kinds_view(r@) == index_kinds(),
        r@.len() == 3,
{
    let r = vec!["INTEGER", "VARIABLE/FUNCTION_NAME", "VERINE"];
    assert(kinds_view(r@) =~= index_kinds());
    r
}

pub open spec fn options_view(ps: Seq<Vec<(&'static str, &'static str)>>) -> Seq<Seq<(Seq<char>, Seq<char>)>> {
    ps.map_values(|p: Vec<(&'static str, &'static str)>| pattern_view(p@))
}

/// A copy of `t` with position `slot` standing for any token of class `class`.
fn set_class(t: &Vec<(&'static str, &'static str)>, slot: usize, class: &'static str) -> (r: Vec<(&'static str, &'static str)>)
    requires
        slot < t@.len(),
    ensures
        r@.len() == t@.len(),
        pattern_view(r@) == with_class(pattern_view(t@), slot as int, class@),
{
    let mut r: Vec<(&'static str, &'static str)> = Vec::new();
    let mut i: usize = 0;
    while i < t.len()
        invariant
            i <= t@.len(),
            r@ == t@.take(i as int),
        decreases t.len() - i,
    {
        r.push(t[i]);
        assert(t@.take(i + 1) =~= t@.take(i as int).push(t@[i as int]));
        i += 1;
    }
    assert(t@.take(t@.len() as int) =~= t@);
    r.set(slot, (class, "?"));
    assert(pattern_view(r@) =~= with_class(pattern_view(t@), slot as int, class@));
    r
}

/// The orders `t` with position `a` of each class of `ka`.
fn options1(t: &Vec<(&'static str, &'static str)>, a: usize, ka: &Vec<&'static str>) -> (r: Vec<Vec<(&'static str, &'static str)>>)
    requires
        a < t@.len(),
    ensures
        options_view(r@) == product1(pattern_view(t@), a as int, kinds_view(ka@)),
{
    let mut out: Vec<Vec<(&'static str, &'static str)>> = Vec::new();
    let mut i: usize = 0;
    while i < ka.len()
        invariant
            a < t@.len(),
            i <= ka@.len(),
            options_view(out@) =~= Seq::new(i as nat, |k: int| with_class(pattern_view(t@), a as int, kinds_view(ka@)[k])),
        decreases ka.len() - i,
    {
        let p = set_class(t, a, ka[i]);
        let ghost before = options_view(out@);
        out.push(p);
        assert(options_view(out@) =~= before.push(pattern_view(p@)));
        i += 1;
    }
    out
}

/// The orders `t` with position `a` of each class of `ka` and position `b`
/// of each class of `kb`.
fn options2(
    t: &Vec<(&'static str, &'static str)>,
    a: usize,
    ka: &Vec<&'static str>,
    b: usize,
    kb: &Vec<&'static str>,
) -> (r: Vec<Vec<(&'static str, &'static str)>>)
    requires
        a < t@.len(),
        b < t@.len(),
        kb@.len() > 0,
        ka@.len() * kb@.len() < 1000,
    ensures
        options_view(r@) == product2(pattern_view(t@), a as int, kinds_view(ka@), b as int, kinds_view(kb@)),
{
    let ghost tv = pattern_view(t@);
    let ghost kav = kinds_view(ka@);
    let ghost kbv = kinds_view(kb@);
    let ghost nb = kb@.len() as int;
    let mut out: Vec<Vec<(&'static str, &'static str)>> = Vec::new();
    let mut i: usize = 0;
    while i < ka.len()
        invariant
            a < t@.len(),
            b < t@.len(),
            nb == kb@.len() > 0,
            ka@.len() * kb@.len() < 1000,
            tv == pattern_view(t@),
            kav == kinds_view(ka@),
            kbv == kinds_view(kb@),
            i <= ka@.len(),
            options_view(out@) =~= Seq::new(
                (i * nb) as nat,
                |k: int| with_class(with_class(tv, a as int, kav[k / nb]), b as int, kbv[k % nb]),
            ),
        decreases ka.len() - i,
    {
        let first = set_class(t, a, ka[i]);
        let mut j: usize = 0;
        proof {
            assert(i * nb + nb <= ka@.len() * nb) by (nonlinear_arith)
                requires
                    i < ka@.len(),
                    nb > 0,
            ;
        }
        while j < kb.len()
            invariant
                a < t@.len(),
                b < t@.len(),
                nb == kb@.len() > 0,
                tv == pattern_view(t@),
                kav == kinds_view(ka@),
                kbv == kinds_view(kb@),
                i < ka@.len(),
                i * nb + nb <= ka@.len() * nb,
                ka@.len() * kb@.len() < 1000,
                j <= kb@.len(),
                first@.len() == t@.len(),
                pattern_view(first@) == with_class(tv, a as int, kav[i as int]),
                options_view(out@) =~= Seq::new(
                    (i * nb + j) as nat,
                    |k: int| with_class(with_class(tv, a as int, kav[k / nb]), b as int, kbv[k % nb]),
                ),
            decreases kb.len() - j,
        {
            let p = set_class(&first, b, kb[j]);
            proof {
                let k = i * nb + j;
                vstd::arithmetic::div_mod::lemma_fundamental_div_mod_converse(k, nb, i as int, j as int);
            }
            let ghost before = options_view(out@);
            out.push(p);
            assert(options_view(out@) =~= before.push(pattern_view(p@)));
            j += 1;
        }
        assert(i * nb + nb == (i + 1) * nb) by (nonlinear_arith);
        i += 1;
    }
    out
}

/// The order of the statement that starts with `name`, if there is one.
pub fn predefined_name_order(name: &str) -> (r: Option<OrderEnum>)
    ensures
        match name_order(name@) {
            Some(o) => r matches Some(x) && x@ == o,
            None => r is None,
        },
{
    let var = ("VARIABLE/FUNCTION_NAME", "?");
    if str_equal(name, "LET") {
        let t = vec![("PREDEFINED_NAME", "LET"), var, ("EQUAL_SIGN", "="), ("STRING", "?")];
        assert(pattern_view(t@) =~= seq![name_token("LET"), variable(), ("EQUAL_SIGN"@, "="@), any_of("STRING"@)]);
        return Some(OrderEnum::MultipleOptions(options1(&t, 3, &kinds_of_let())));
    }
    if str_equal(name, "PRINT") {
        let t = vec![("PREDEFINED_NAME", "PRINT"), ("STRING", "?")];
        assert(pattern_view(t@) =~= seq![name_token("PRINT"), any_of("STRING"@)]);
        return Some(OrderEnum::MultipleOptions(options1(&t, 1, &kinds_of_values())));
    }
    if str_equal(name, "FN") {
        let t = vec![("PREDEFINED_NAME", "FN"), var, ("PREDEFINED_NAME", "START")];
        assert(pattern_view(t@) =~= seq![name_token("FN"), variable(), name_token("START")]);
        return Some(OrderEnum::SingleOption(t));
    }
    if str_equal(name, "DO") {
        let t = vec![("PREDEFINED_NAME", "DO"), var];
        assert(pattern_view(t@) =~= seq![name_token("DO"), variable()]);
        return Some(OrderEnum::SingleOption(t));
    }
    let is_if = str_equal(name, "IF");
    let is_elif = str_equal(name, "ELIF");
    let is_while = str_equal(name, "WHILE");
    if is_if || is_elif || is_while {
        let n: &'static str = if is_if {
            "IF"
        } else if is_elif {
            "ELIF"
        } else {
            "WHILE"
        };
        let t = vec![
            ("PREDEFINED_NAME", n),
            ("STRING", "?"),
            ("COMPARING_OPERATOR", "?"),
            ("STRING", "?"),
            ("PREDEFINED_NAME", "START"),
        ];
        assert(pattern_view(t@) =~= seq![
            ("PREDEFINED_NAME"@, name@),
            any_of("STRING"@),
            any_of("COMPARING_OPERATOR"@),
            any_of("STRING"@),
            name_token("START"),
        ]);
        let kv = kinds_of_values();
        assert(kv@.len() * kv@.len() == 25);
        return Some(OrderEnum::MultipleOptions(options2(&t, 1, &kv, 3, &kv)));
    }
    if str_equal(name, "PUSH") {
        let t = vec![("PREDEFINED_NAME", "PUSH"), ("STRING", "?"), ("PREDEFINED_NAME", "ONTO"), var];
        assert(pattern_view(t@) =~= seq![name_token("PUSH"), any_of("STRING"@), name_token("ONTO"), variable()]);
        return Some(OrderEnum::MultipleOptions(options1(&t, 1, &kinds_of_values())));
    }
    if str_equal(name, "POP") {
        let t = vec![("PREDEFINED_NAME", "POP"), ("PREDEFINED_NAME", "FROM"), var];
        assert(pattern_view(t@) =~= seq![name_token("POP"), name_token("FROM"), variable()]);
        return Some(OrderEnum::SingleOption(t));
    }
    if str_equal(name, "INSERT") {
        let t = vec![
            ("PREDEFINED_NAME", "INSERT"),
            ("STRING", "?"),
            ("PREDEFINED_NAME", "INTO"),
            var,
            ("PREDEFINED_NAME", "AT"),
            ("INTEGER", "?"),
        ];
        assert(pattern_view(t@) =~= seq![
            name_token("INSERT"),
            any_of("STRING"@),
            name_token("INTO"),
            variable(),
            name_token("AT"),
            any_of("INTEGER"@),
        ]);
        let kv = kinds_of_values();
        let ki = kinds_of_indices();
        assert(kv@.len() * ki@.len() == 15);
        return Some(OrderEnum::MultipleOptions(options2(&t, 1, &kv, 5, &ki)));
    }
    if str_equal(name, "REMOVE") {
        let t = vec![
            ("PREDEFINED_NAME", "REMOVE"),
            ("PREDEFINED_NAME", "FROM"),
            var,
            ("PREDEFINED_NAME", "AT"),
            ("INTEGER", "?"),
        ];
        assert(pattern_view(t@) =~= seq![name_token("REMOVE"), name_token("FROM"), variable(), name_token("AT"), any_of("INTEGER"@)]);
        return Some(OrderEnum::SingleOption(t));
    }
    if str_equal(name, "SET") {
        let t = vec![
            ("PREDEFINED_NAME", "SET"),
            var,
            ("PREDEFINED_NAME", "AT"),
            ("INTEGER", "?"),
            ("PREDEFINED_NAME", "TO"),
            ("STRING", "?"),
        ];
        assert(pattern_view(t@) =~= seq![
            name_token("SET"),
            variable(),
            name_token("AT"),
            any_of("INTEGER"@),
            name_token("TO"),
            any_of("STRING"@),
        ]);
        let kv = kinds_of_values();
        let ki = kinds_of_indices();
        assert(ki@.len() * kv@.len() == 15);
        return Some(OrderEnum::MultipleOptions(options2(&t, 3, &ki, 5, &kv)));
    }
    if str_equal(name, "HELP_FOR") {
        let t = vec![("PREDEFINED_NAME", "HELP_FOR"), ("PREDEFINED_NAME", "?")];
        assert(pattern_view(t@) =~= seq![name_token("HELP_FOR"), any_of("PREDEFINED_NAME"@)]);
        return Some(OrderEnum::SingleOption(t));
    }
    None
}

// ---------------------------------------------------------------------------
// Checking a line against the orders of its statement
// ---------------------------------------------------------------------------

/// Whether the class of token `e` of `line` differs from that of the order.
pub open spec fn key_mismatch(line: Seq<(Seq<char>, ValueV)>, p: Seq<(Seq<char>, Seq<char>)>, e: int) -> bool {
    line[e].0 != p[e].0
}

/// Whether the text of token `e` of `line` differs from that of the order
/// (only a string token has a text to compare; `?` allows any).
pub open spec fn value_mismatch(line: Seq<(Seq<char>, ValueV)>, p: Seq<(Seq<char>, Seq<char>)>, e: int) -> bool {
    line[e].1 matches ValueV::String(tc) && tc != p[e].1 && p[e].1 != "?"@
}

/// Checking against a single order stops at the first token that does not
/// fit: `Some(true)` if its class is wrong, `Some(false)` if its text is.
pub open spec fn single_failure(line: Seq<(Seq<char>, ValueV)>, p: Seq<(Seq<char>, Seq<char>)>, e: int) -> Option<bool>
    decreases p.len() - e,
{
    if e < 0 || e >= p.len() {
        None
    } else if key_mismatch(line, p, e) {
        Some(true)
    } else if value_mismatch(line, p, e) {
        Some(false)
    } else {
        single_failure(line, p, e + 1)
    }
}

pub open spec fn keys_fit(line: Seq<(Seq<char>, ValueV)>, p: Seq<(Seq<char>, Seq<char>)>) -> bool {
    forall|e: int| 0 <= e < p.len() ==> !key_mismatch(line, p, e)
}

pub open spec fn values_fit(line: Seq<(Seq<char>, ValueV)>, p: Seq<(Seq<char>, Seq<char>)>) -> bool {
    forall|e: int| 0 <= e < p.len() ==> !value_mismatch(line, p, e)
}

/// Whether some order has more tokens than `n`.
pub open spec fn shorter_than_some(n: nat, ps: Seq<Seq<(Seq<char>, Seq<char>)>>) -> bool {
    exists|o: int| 0 <= o < ps.len() && n < (#[trigger] ps[o]).len()
}

/// Whether some order has fewer tokens than `n`.
pub open spec fn longer_than_some(n: nat, ps: Seq<Seq<(Seq<char>, Seq<char>)>>) -> bool {
    exists|o: int| 0 <= o < ps.len() && n > (#[trigger] ps[o]).len()
}

pub open spec fn order_message(pre: &str, name: Seq<char>, post: &str) -> Seq<char> {
    pre@ + name + post@
}

/// What checking `line` against the orders of its statement gives.
pub open spec fn order_check(line: Seq<(Seq<char>, ValueV)>) -> Result<(), Seq<char>> {
    let clean = line[0].1->String_0;
    match name_order(clean) {
        None => Err(order_message("EXECUTION ERROR: '", clean, "' IS NEVER AT THE BEGINNING!")),
        Some(OrderV::Single(p)) => if line.len() < p.len() {
            Err(order_message("EXECUTION ERROR: THERE ARE LESS TOKENS THAN '", clean, "' NEEDS!"))
        } else if line.len() > p.len() {
            Err(order_message("EXECUTION ERROR: THERE ARE MORE TOKENS THAN '", clean, "' NEEDS!"))
        } else {
            match single_failure(line, p, 0) {
                Some(true) => Err(order_message("EXECUTION ERROR: KEY ORDER FOR '", clean, "' ISN'T RIGHT!")),
                Some(false) => Err(order_message("EXECUTION ERROR: VALUE ORDER FOR '", clean, "' ISN'T RIGHT!")),
                None => Ok(()),
            }
        },
        Some(OrderV::Multiple(ps)) => if shorter_than_some(line.len(), ps) {
            Err(order_message("EXECUTION ERROR: THERE ARE LESS TOKENS THAN '", clean, "' NEEDS!"))
        } else if longer_than_some(line.len(), ps) {
            Err(order_message("EXECUTION ERROR: THERE ARE MORE TOKENS THAN '", clean, "' NEEDS!"))
        } else if !exists|o: int| 0 <= o < ps.len() && keys_fit(line, #[trigger] ps[o]) {
            Err(order_message("EXECUTION ERROR: KEY ORDER FOR '", clean, "' ISN'T RIGHT!"))
        } else if !exists|o: int| 0 <= o < ps.len() && values_fit(line, #[trigger] ps[o]) {
            Err(order_message("EXECUTION ERROR: VALUE ORDER FOR '", clean, "' ISN'T RIGHT!"))
        } else {
            Ok(())
        },
    }
}

/// The message `pre`, `name`, `post`.
fn message(pre: &str, name: &str, post: &str) -> (r: String)
    ensures
        r@ == pre@ + name@ + post@,
{
    let mut m = String::new();
    push_str(&mut m, pre);
    push_str(&mut m, name);
    push_str(&mut m, post);
    assert(m@ =~= pre@ + name@ + post@);
    m
}

/// Whether token `e` of `line` has the class and text that `p` asks for:
/// `(class fits, text fits)`.
fn token_fits(line: &Vec<(String, ValueEnum)>, p: &Vec<(&'static str, &'static str)>, e: usize) -> (r: (bool, bool))
    requires
        e < line@.len(),
        e < p@.len(),
    ensures
        r.0 == !key_mismatch(line_view(line@), pattern_view(p@), e as int),
        r.1 == !value_mismatch(line_view(line@), pattern_view(p@), e as int),
{
    let key_ok = str_equal(line[e].0.as_str(), p[e].0);
    let value_ok = match &line[e].1 {
        ValueEnum::String(tc) => str_equal(tc.as_str(), p[e].1) || str_equal(p[e].1, "?"),
        _ => true,
    };
    (key_ok, value_ok)
}

/// Whether `line` agrees with the classes (`.0`) and with the texts (`.1`) of `p`.
fn fits_pattern(line: &Vec<(String, ValueEnum)>, p: &Vec<(&'static str, &'static str)>) -> (r: (bool, bool))
    requires
        p@.len() <= line@.len(),
    ensures
        r.0 == keys_fit(line_view(line@), pattern_view(p@)),
        r.1 == values_fit(line_view(line@), pattern_view(p@)),
{
    let mut keys = true;
    let mut values = true;
    let mut e: usize = 0;
    while e < p.len()
        invariant
            e <= p@.len() <= line@.len(),
            keys == forall|j: int| 0 <= j < e ==> !key_mismatch(line_view(line@), pattern_view(p@), j),
            values == forall|j: int| 0 <= j < e ==> !value_mismatch(line_view(line@), pattern_view(p@), j),
        decreases p.len() - e,
    {
        let (k, v) = token_fits(line, p, e);
        if !k {
            keys = false;
        }
        if !v {
            values = false;
        }
        e += 1;
    }
    (keys, values)
}

/// Checks that the tokens of `line` follow one of the orders of the
/// statement it starts with.
pub fn is_key_and_value_order_right(line: &Vec<(String, ValueEnum)>) -> (r: Result<(), String>)
    requires
        line@.len() > 0,
        line@[0].1 is String,
    ensures
        match order_check(line_view(line@)) {
            Ok(()) => r is Ok,
            Err(m) => r matches Err(x) && x@ == m,
        },
{
    let ghost lv = line_view(line@);
    let clean = match &line[0].1 {
        ValueEnum::String(clean) => clean,
        _ => {
            return Ok(());
        },
    };
    let name = clean.as_str();
    assert(lv[0].1 == ValueV::String(name@));
    assert(lv.len() == line@.len());
    match predefined_name_order(name) {
        None => Err(message("EXECUTION ERROR: '", name, "' IS NEVER AT THE BEGINNING!")),
        Some(OrderEnum::SingleOption(v)) => {
            if line.len() < v.len() {
                return Err(message("EXECUTION ERROR: THERE ARE LESS TOKENS THAN '", name, "' NEEDS!"));
            }
            if line.len() > v.len() {
                return Err(message("EXECUTION ERROR: THERE ARE MORE TOKENS THAN '", name, "' NEEDS!"));
            }
            let mut e: usize = 0;
            while e < v.len()
                invariant
                    e <= v@.len() == line@.len(),
                    lv == line_view(line@),
                    single_failure(lv, pattern_view(v@), 0) == single_failure(lv, pattern_view(v@), e as int),
                    name_order(name@) == Some(OrderV::Single(pattern_view(v@))),
                    lv.len() == line@.len(),
                    line@.len() > 0,
                    lv[0].1 == ValueV::String(name@),
                decreases v.len() - e,
            {
                let (k, val) = token_fits(line, &v, e);
                if !k {
                    return Err(message("EXECUTION ERROR: KEY ORDER FOR '", name, "' ISN'T RIGHT!"));
                }
                if !val {
                    return Err(message("EXECUTION ERROR: VALUE ORDER FOR '", name, "' ISN'T RIGHT!"));
                }
                e += 1;
            }
            Ok(())
        },
        Some(OrderEnum::MultipleOptions(v)) => {
            let ghost ps = v@.map_values(|p: Vec<(&'static str, &'static str)>| pattern_view(p@));
            let mut too_few = false;
            let mut too_many = false;
            let mut o: usize = 0;
            while o < v.len()
                invariant
                    o <= v@.len(),
                    ps == v@.map_values(|p: Vec<(&'static str, &'static str)>| pattern_view(p@)),
                    ps.len() == v@.len(),
                    too_few == exists|j: int| 0 <= j < o && line@.len() < ps[j].len(),
                    too_many == exists|j: int| 0 <= j < o && line@.len() > ps[j].len(),
                    name_order(name@) == Some(OrderV::Multiple(ps)),
                    lv == line_view(line@),
                    lv.len() == line@.len(),
                    line@.len() > 0,
                    lv[0].1 == ValueV::String(name@),
                decreases v.len() - o,
            {
                assert(ps[o as int].len() == v@[o as int]@.len());
                if line.len() < v[o].len() {
                    too_few = true;
                }
                if line.len() > v[o].len() {
                    too_many = true;
                }
                o += 1;
            }
            if too_few {
                assert(shorter_than_some(lv.len(), ps));
                return Err(message("EXECUTION ERROR: THERE ARE LESS TOKENS THAN '", name, "' NEEDS!"));
            }
            if too_many {
                assert(longer_than_some(lv.len(), ps));
                return Err(message("EXECUTION ERROR: THERE ARE MORE TOKENS THAN '", name, "' NEEDS!"));
            }
            assert(!shorter_than_some(lv.len(), ps));
            assert(!longer_than_some(lv.len(), ps));
            let mut one_key = false;
            let mut one_value = false;
            let mut o: usize = 0;
            while o < v.len()
                invariant
                    o <= v@.len(),
                    ps == v@.map_values(|p: Vec<(&'static str, &'static str)>| pattern_view(p@)),
                    lv == line_view(line@),
                    forall|j: int| 0 <= j < v@.len() ==> ps[j].len() == line@.len(),
                    !shorter_than_some(lv.len(), ps),
                    !longer_than_some(lv.len(), ps),
                    one_key == exists|j: int| 0 <= j < o && keys_fit(lv, #[trigger] ps[j]),
                    one_value == exists|j: int| 0 <= j < o && values_fit(lv, #[trigger] ps[j]),
                    name_order(name@) == Some(OrderV::Multiple(ps)),
                    lv.len() == line@.len(),
                    line@.len() > 0,
                    lv[0].1 == ValueV::String(name@),
                decreases v.len() - o,
            {
                assert(ps[o as int] == pattern_view(v@[o as int]@));
                let (k, val) = fits_pattern(line, &v[o]);
                if k {
                    one_key = true;
                }
                if val {
                    one_value = true;
                }
                o += 1;
            }
            if !one_key {
                return Err(message("EXECUTION ERROR: KEY ORDER FOR '", name, "' ISN'T RIGHT!"));
            }
            if !one_value {
                return Err(message("EXECUTION ERROR: VALUE ORDER FOR '", name, "' ISN'T RIGHT!"));
            }
            Ok(())
        },
    }
}

// ---------------------------------------------------------------------------
// Conditions of IF, ELIF and WHILE
// ---------------------------------------------------------------------------

/// Lexicographic order of strings by their characters (the order of `str`,
/// since UTF-8 keeps the order of code points).
pub open spec fn text_less(a: Seq<char>, b: Seq<char>) -> bool
    decreases a.len(),
{
    if a.len() == 0 {
        b.len() > 0
    } else if b.len() == 0 {
        false
    } else if a[0] != b[0] {
        a[0] < b[0]
    } else {
        text_less(a.drop_first(), b.drop_first())
    }
}

/// Whether `op` is one of the six comparing operators.
pub open spec fn is_comparing(op: Seq<char>) -> bool {
    op == "=="@ || op == "!="@ || op == "<"@ || op == ">"@ || op == "<="@ || op == ">="@
}

/// `less`/`equal`/`greater` read through the comparing operator `op`.
pub open spec fn ordered(op: Seq<char>, less: bool, equal: bool, greater: bool) -> bool {
    if op == "=="@ {
        equal
    } else if op == "!="@ {
        !equal
    } else if op == "<"@ {
        less
    } else if op == ">"@ {
        greater
    } else if op == "<="@ {
        less || equal
    } else {
        greater || equal
    }
}

/// `a op b`: `None` where the interpreter has no rule (an unknown operator,
/// or values of different kinds). Two floats are compared in `f32`.
pub open spec fn compare_values(op: Seq<char>, a: ValueV, b: ValueV) -> Option<bool> {
    if !is_comparing(op) {
        None
    } else {
        match (a, b) {
            (ValueV::String(x), ValueV::String(y)) => Some(ordered(op, text_less(x, y), x == y, text_less(y, x))),
            (ValueV::Integer(x), ValueV::Integer(y)) => Some(ordered(op, x < y, x == y, x > y)),
            (ValueV::Float(x), ValueV::Float(y)) => {
                let c = (f32_host().compare)(x, y);
                Some(
                    ordered(
                        op,
                        c == Some(Comparison::Less),
                        c == Some(Comparison::Equal),
                        c == Some(Comparison::Greater),
                    ),
                )
            },
            _ => None,
        }
    }
}

/// The condition of the first line of a block: its tokens 1 and 3 compared by `op`.
pub open spec fn block_condition(op: Seq<char>, b: Seq<Seq<(Seq<char>, ValueV)>>) -> Option<bool> {
    if b.len() > 0 && b[0].len() >= 4 {
        compare_values(op, b[0][1].1, b[0][3].1)
    } else {
        None
    }
}

/// The comparing operators are distinct words.
pub proof fn lemma_comparing_words()
    ensures
        "=="@.len() == 2 && "=="@[0] == '=',
        "!="@.len() == 2 && "!="@[0] == '!',
        "<"@.len() == 1 && "<"@[0] == '<',
        ">"@.len() == 1 && ">"@[0] == '>',
        "<="@.len() == 2 && "<="@[0] == '<',
        ">="@.len() == 2 && ">="@[0] == '>',
{
    reveal_strlit("==");
    reveal_strlit("!=");
    reveal_strlit("<");
    reveal_strlit(">");
    reveal_strlit("<=");
    reveal_strlit(">=");
}

/// Exactly one of `a < b`, `a == b` and `b < a` holds for strings.
pub proof fn lemma_text_trichotomy(a: Seq<char>, b: Seq<char>)
    ensures
        text_less(a, b) || a == b || text_less(b, a),
        !(text_less(a, b) && a == b),
        !(text_less(a, b) && text_less(b, a)),
    decreases a.len(),
{
    if a.len() > 0 && b.len() > 0 {
        if a[0] == b[0] {
            lemma_text_trichotomy(a.drop_first(), b.drop_first());
            if a.drop_first() == b.drop_first() {
                assert(a =~= seq![a[0]] + a.drop_first());
                assert(b =~= seq![b[0]] + b.drop_first());
            }
            if a == b {
                assert(a.drop_first() == b.drop_first());
            }
        } else {
        }
    } else if a.len() == 0 && b.len() == 0 {
        assert(a =~= b);
    }
}

/// For two strings, two integers or two floats, `!=` holds exactly where
/// `==` does not; for two strings or two integers, `>=` holds exactly where
/// `<` does not, and `<=` where `>` does not (two floats may have no order).
pub proof fn law_comparisons_complement(a: ValueV, b: ValueV)
    requires
        (a is String && b is String) || (a is Integer && b is Integer) || (a is Float && b is Float),
    ensures
        compare_values("=="@, a, b) matches Some(x) && compare_values("!="@, a, b) == Some(!x),
        !(a is Float) ==> (compare_values("<"@, a, b) matches Some(x) && compare_values(">="@, a, b) == Some(!x)),
        !(a is Float) ==> (compare_values(">"@, a, b) matches Some(x) && compare_values("<="@, a, b) == Some(!x)),
{
    lemma_comparing_words();
    match (a, b) {
        (ValueV::String(x), ValueV::String(y)) => {
            lemma_text_trichotomy(x, y);
        },
        _ => {},
    }
}

/// `a op b` for two floats whose `f32` order is `order` (`None`
/// where they have none, as with a NaN): only `!=` holds then.
pub fn float_condition(operator: &str, order: Option<Comparison>) -> (r: bool)
    requires
        is_comparing(operator@),
    ensures
        r == ordered(
            operator@,
            order == Some(Comparison::Less),
            order == Some(Comparison::Equal),
            order == Some(Comparison::Greater),
        ),
{
    let (less, equal, greater) = match order {
        Some(Comparison::Less) => (true, false, false),
        Some(Comparison::Equal) => (false, true, false),
        Some(Comparison::Greater) => (false, false, true),
        None => (false, false, false),
    };
    if str_equal(operator, "==") {
        equal
    } else if str_equal(operator, "!=") {
        !equal
    } else if str_equal(operator, "<") {
        less
    } else if str_equal(operator, ">") {
        greater
    } else if str_equal(operator, "<=") {
        less || equal
    } else {
        greater || equal
    }
}

/// Whether `a` comes before `b` in the order of strings.
fn string_less(a: &str, b: &str) -> (r: bool)
    ensures
        r == text_less(a@, b@),
{
    let x = crate::text::chars_of(a);
    let y = crate::text::chars_of(b);
    let mut i: usize = 0;
    assert(x@.skip(0) =~= x@);
    assert(y@.skip(0) =~= y@);
    while i < x.len() && i < y.len() && x[i] == y[i]
        invariant
            x@ == a@,
            y@ == b@,
            i <= x@.len(),
            i <= y@.len(),
            text_less(a@, b@) == text_less(x@.skip(i as int), y@.skip(i as int)),
        decreases x.len() - i,
    {
        assert(x@.skip(i as int).drop_first() =~= x@.skip(i + 1));
        assert(y@.skip(i as int).drop_first() =~= y@.skip(i + 1));
        i += 1;
    }
    if i == x.len() {
        i < y.len()
    } else if i == y.len() {
        false
    } else {
        x[i] < y[i]
    }
}

/// Whether the first line of `block_code` has values at positions 1 and 3
/// that the comparing operator `operator` can compare (two strings, two
/// integers or two floats).
pub fn is_block_condition_defined(operator: &str, block_code: &Vec<Vec<(String, ValueEnum)>>) -> (r: bool)
    ensures
        r == block_condition(operator@, block_view(block_code@)) is Some,
{
    let ghost bv = block_view(block_code@);
    if block_code.len() == 0 || block_code[0].len() < 4 {
        return false;
    }
    assert(bv[0] == line_view(block_code@[0]@));
    if !(str_equal(operator, "==") || str_equal(operator, "!=") || str_equal(operator, "<")
        || str_equal(operator, ">") || str_equal(operator, "<=") || str_equal(operator, ">=")) {
        return false;
    }
    match (&block_code[0][1].1, &block_code[0][3].1) {
        (ValueEnum::String(_), ValueEnum::String(_)) => true,
        (ValueEnum::Integer(_), ValueEnum::Integer(_)) => true,
        (ValueEnum::Float(_), ValueEnum::Float(_)) => true,
        _ => false,
    }
}

/// Compares the values at positions 1 and 3 of the first line of
/// `block_code` by the comparing operator `operator`. The operator must be
/// one of the six comparing operators and the two values of one kind:
/// callers test this first (`is_block_condition_defined`).
pub fn check_block_code_condition<R: Runtime>(
    operator: &str,
    block_code: &Vec<Vec<(String, ValueEnum)>>,
    rt: &R,
) -> (r: bool)
    requires
        block_condition(operator@, block_view(block_code@)) is Some,
    ensures
        block_condition(operator@, block_view(block_code@)) == Some(r),
{
    let ghost bv = block_view(block_code@);
    assert(bv[0] == line_view(block_code@[0]@));
    let is_eq = str_equal(operator, "==");
    let is_ne = str_equal(operator, "!=");
    let is_lt = str_equal(operator, "<");
    let is_gt = str_equal(operator, ">");
    let is_le = str_equal(operator, "<=");
    let (less, equal, greater) = match (&block_code[0][1].1, &block_code[0][3].1) {
        (ValueEnum::String(a), ValueEnum::String(b)) => (
            string_less(a.as_str(), b.as_str()),
            str_equal(a.as_str(), b.as_str()),
            string_less(b.as_str(), a.as_str()),
        ),
        (ValueEnum::Integer(a), ValueEnum::Integer(b)) => (*a < *b, *a == *b, *a > *b),
        (ValueEnum::Float(a), ValueEnum::Float(b)) => {
            let order = rt.float_compare(a.as_str(), b.as_str());
            return float_condition(operator, order);
        },
        _ => {
            proof {
                assert(false);
            }
            (false, false, false)
        },
    };
    if is_eq {
        equal
    } else if is_ne {
        !equal
    } else if is_lt {
        less
    } else if is_gt {
        greater
    } else if is_le {
        less || equal
    } else {
        greater || equal
    }
}

// ---------------------------------------------------------------------------
// Lines and blocks
// ---------------------------------------------------------------------------

/// A copy of a line.
pub fn duplicate_line(l: &Vec<(String, ValueEnum)>) -> (r: Vec<(String, ValueEnum)>)
    ensures
        line_view(r@) == line_view(l@),
{
    let mut out: Vec<(String, ValueEnum)> = Vec::new();
    let mut i: usize = 0;
    while i < l.len()
        invariant
            i <= l@.len(),
            line_view(out@) == line_view(l@.take(i as int)),
        decreases l.len() - i,
    {
        let ghost before = line_view(out@);
        out.push((l[i].0.clone(), l[i].1.duplicate()));
        assert(line_view(out@) =~= before.push((l@[i as int].0@, l@[i as int].1@)));
        assert(line_view(l@.take(i + 1)) =~= line_view(l@.take(i as int)).push(
            (l@[i as int].0@, l@[i as int].1@),
        ));
        i += 1;
    }
    assert(l@.take(l@.len() as int) =~= l@);
    out
}

/// A copy of the lines `b[from..to]`.
pub fn duplicate_lines(b: &Vec<Vec<(String, ValueEnum)>>, from: usize, to: usize) -> (r: Vec<
    Vec<(String, ValueEnum)>,
>)
    requires
        from <= to <= b@.len(),
    ensures
        block_view(r@) == block_view(b@).subrange(from as int, to as int),
{
    let mut out: Vec<Vec<(String, ValueEnum)>> = Vec::new();
    let mut i = from;
    while i < to
        invariant
            from <= i <= to <= b@.len(),
            block_view(out@) == block_view(b@).subrange(from as int, i as int),
        decreases to - i,
    {
        let ghost before = block_view(out@);
        out.push(duplicate_line(&b[i]));
        assert(block_view(out@) =~= before.push(line_view(b@[i as int]@)));
        assert(block_view(b@).subrange(from as int, i + 1) =~= block_view(b@).subrange(
            from as int,
            i as int,
        ).push(line_view(b@[i as int]@)));
        i += 1;
    }
    out
}

/// What updating the condition of a `WHILE` block gives.
pub enum WhileUpdate {
    /// The first line lacks the tokens the update reads.
    Fault,
    /// A variable is missing: the message.
    Failed(Seq<char>),
    /// The block with the variables of the condition replaced by their
    /// values, and the text of the error slot after the update.
    Updated(Seq<Seq<(Seq<char>, ValueV)>>, Seq<char>),
}

pub open spec fn no_variable_message(name: Seq<char>) -> Seq<char> {
    "EXECUTION ERROR: THERE IS NO VARIABLE CALLED "@ + name + "!"@
}

/// Replaces the variable at position `p` of the first line by its value (a
/// string or an integer); `msg` goes to the error slot for another value.
pub open spec fn update_position(
    b: Seq<Seq<(Seq<char>, ValueV)>>,
    g: Map<Seq<char>, ValueV>,
    p: int,
    err: Seq<char>,
    msg: Seq<char>,
) -> WhileUpdate {
    let line = b[0];
    if line[p].0 != "VARIABLE/FUNCTION_NAME"@ {
        WhileUpdate::Updated(b, err)
    } else {
        match line[p].1 {
            ValueV::String(name) => if !g.contains_key(name) {
                WhileUpdate::Failed(no_variable_message(name))
            } else {
                match g[name] {
                    ValueV::String(v) => WhileUpdate::Updated(
                        b.update(0, line.update(p, ("STRING"@, ValueV::String(v)))),
                        err,
                    ),
                    ValueV::Integer(v) => WhileUpdate::Updated(
                        b.update(0, line.update(p, ("INTEGER"@, ValueV::Integer(v)))),
                        err,
                    ),
                    _ => WhileUpdate::Updated(b, msg),
                }
            },
            _ => WhileUpdate::Fault,
        }
    }
}

pub open spec fn first_variable_message() -> Seq<char> {
    "EXECUTION ERROR: FIRST VARIABLE HAS TO BE A STRING OR INTEGER!"@
}

pub open spec fn second_variable_message() -> Seq<char> {
    "EXECUTION ERROR: SECOND VARIABLE HAS TO BE A STRING OR INTEGER!"@
}

/// The block of a `WHILE` with the variables of its condition (positions 1
/// and 3 of the first line) replaced by their current values.
pub open spec fn while_update(b: Seq<Seq<(Seq<char>, ValueV)>>, g: Map<Seq<char>, ValueV>, err: Seq<char>) -> WhileUpdate {
    if b.len() == 0 || b[0].len() < 4 {
        WhileUpdate::Fault
    } else {
        match update_position(b, g, 1, err, first_variable_message()) {
            WhileUpdate::Updated(b1, e1) => update_position(b1, g, 3, e1, second_variable_message()),
            other => other,
        }
    }
}

/// Replaces the variable at position `p` of the first line by its value.
fn update_one(
    block: &mut Vec<Vec<(String, ValueEnum)>>,
    global_variables: &Variables,
    p: usize,
    error: &mut String,
    msg: &str,
) -> (r: Result<Result<(), String>, Fault>)
    requires
        old(block)@.len() > 0,
        p < old(block)@[0]@.len(),
    ensures
        final(block)@.len() == old(block)@.len(),
        final(block)@[0]@.len() == old(block)@[0]@.len(),
        match update_position(block_view(old(block)@), global_variables@, p as int, old(error)@, msg@) {
            WhileUpdate::Fault => r == Err::<Result<(), String>, Fault>(Fault::Unreachable),
            WhileUpdate::Failed(m) => r matches Ok(Err(x)) && x@ == m,
            WhileUpdate::Updated(nb, e) => r == Ok::<Result<(), String>, Fault>(Ok(()))
                && block_view(final(block)@) == nb && final(error)@ == e,
        },
{
    let ghost bv = block_view(block@);
    assert(bv[0] == line_view(block@[0]@));
    if !str_equal(block[0][p].0.as_str(), "VARIABLE/FUNCTION_NAME") {
        return Ok(Ok(()));
    }
    let name = match &block[0][p].1 {
        ValueEnum::String(name) => name.clone(),
        _ => {
            return Err(Fault::Unreachable);
        },
    };
    let (key, value) = match global_variables.get(name.as_str()) {
        None => {
            let mut m = string_from("EXECUTION ERROR: THERE IS NO VARIABLE CALLED ");
            push_str(&mut m, name.as_str());
            push_str(&mut m, "!");
            return Ok(Err(m));
        },
        Some(ValueEnum::String(v)) => (string_from("STRING"), ValueEnum::String(v.clone())),
        Some(ValueEnum::Integer(v)) => (string_from("INTEGER"), ValueEnum::Integer(*v)),
        Some(_) => {
            *error = string_from(msg);
            return Ok(Ok(()));
        },
    };
    let mut line = duplicate_line(&block[0]);
    let ghost lv = line_view(line@);
    line.set(p, (key, value));
    assert(line_view(line@) =~= lv.update(p as int, (line@[p as int].0@, line@[p as int].1@)));
    block.set(0, line);
    assert(block_view(block@) =~= bv.update(0, line_view(line@)));
    Ok(Ok(()))
}

/// The block of a `WHILE` with the variables of its condition replaced by
/// their current values. A variable that holds neither a string nor an
/// integer stays, and a message goes to `error`.
pub fn update_while_condition_values(
    block_code: &Vec<Vec<(String, ValueEnum)>>,
    global_variables: &Variables,
    error: &mut String,
) -> (r: Result<Result<Vec<Vec<(String, ValueEnum)>>, String>, Fault>)
    ensures
        match while_update(block_view(block_code@), global_variables@, old(error)@) {
            WhileUpdate::Fault => r == Err::<Result<Vec<Vec<(String, ValueEnum)>>, String>, Fault>(
                Fault::Unreachable,
            ),
            WhileUpdate::Failed(m) => r matches Ok(Err(x)) && x@ == m,
            WhileUpdate::Updated(nb, e) => r matches Ok(Ok(v)) && block_view(v@) == nb
                && final(error)@ == e,
        },
{
    if block_code.len() == 0 || block_code[0].len() < 4 {
        return Err(Fault::Unreachable);
    }
    assert(block_view(block_code@)[0] == line_view(block_code@[0]@));
    let mut clone = duplicate_lines(block_code, 0, block_code.len());
    assert(block_view(block_code@).subrange(0, block_code@.len() as int) =~= block_view(block_code@));
    assert(block_view(clone@)[0] == line_view(clone@[0]@));
    match update_one(&mut clone, global_variables, 1, error, "EXECUTION ERROR: FIRST VARIABLE HAS TO BE A STRING OR INTEGER!") {
        Err(f) => {
            return Err(f);
        },
        Ok(Err(m)) => {
            return Ok(Err(m));
        },
        Ok(Ok(())) => {},
    }
    assert(block_view(clone@)[0] == line_view(clone@[0]@));
    match update_one(&mut clone, global_variables, 3, error, "EXECUTION ERROR: SECOND VARIABLE HAS TO BE A STRING OR INTEGER!") {
        Err(f) => {
            return Err(f);
        },
        Ok(Err(m)) => {
            return Ok(Err(m));
        },
        Ok(Ok(())) => {},
    }
    Ok(Ok(clone))
}

// ---------------------------------------------------------------------------
// Helpers for the execution of a line
// ---------------------------------------------------------------------------

/// Index `i` holds the first token of class `k`.
pub open spec fn first_key(l: Seq<(Seq<char>, ValueV)>, k: Seq<char>, i: int) -> bool {
    0 <= i < l.len() && l[i].0 == k && forall|j: int| 0 <= j < i ==> l[j].0 != k
}

/// Some token of `l` has class `k`.
pub open spec fn has_key(l: Seq<(Seq<char>, ValueV)>, k: Seq<char>) -> bool {
    exists|i: int| 0 <= i < l.len() && l[i].0 == k
}

/// No token of `l` carries a verine.
pub open spec fn no_verines(l: Seq<(Seq<char>, ValueV)>) -> bool {
    forall|i: int| 0 <= i < l.len() ==> !(l[i].1 is Verine)
}

/// The value of the first token of class `k` in `l`.
pub open spec fn value_of_key(l: Seq<(Seq<char>, ValueV)>, k: Seq<char>) -> Option<ValueV>
    decreases l.len(),
{
    if l.len() == 0 {
        None
    } else if l[0].0 == k {
        Some(l[0].1)
    } else {
        value_of_key(l.drop_first(), k)
    }
}

pub proof fn lemma_value_of_key(l: Seq<(Seq<char>, ValueV)>, k: Seq<char>)
    ensures
        forall|i: int| first_key(l, k, i) ==> value_of_key(l, k) == Some(l[i].1),
        !has_key(l, k) ==> value_of_key(l, k) is None,
    decreases l.len(),
{
    if l.len() > 0 {
        lemma_value_of_key(l.drop_first(), k);
        if l[0].0 != k {
            assert forall|i: int| first_key(l, k, i) implies value_of_key(l, k) == Some(l[i].1) by {
                assert(first_key(l.drop_first(), k, i - 1));
            }
            if !has_key(l, k) {
                assert(!has_key(l.drop_first(), k)) by {
                    if has_key(l.drop_first(), k) {
                        let j = choose|j: int| 0 <= j < l.len() - 1 && l.drop_first()[j].0 == k;
                        assert(l[j + 1].0 == k);
                    }
                }
            }
        } else {
            assert forall|i: int| first_key(l, k, i) implies value_of_key(l, k) == Some(l[i].1) by {
                if i > 0 {
                    assert(l[0].0 != k);
                }
            }
            assert(has_key(l, k)) by {
                assert(l[0].0 == k);
            }
        }
    }
}

/// The message of the syntax error that the line carries, if it carries one.
pub open spec fn syntax_error_of(l: Seq<(Seq<char>, ValueV)>) -> Option<Seq<char>> {
    match value_of_key(l, "ERROR_MESSAGE"@) {
        Some(ValueV::String(m)) => Some(m),
        _ => None,
    }
}

/// The line is a comment (and no syntax error).
pub open spec fn is_comment(l: Seq<(Seq<char>, ValueV)>) -> bool {
    &&& value_of_key(l, "ERROR_MESSAGE"@) is None
    &&& value_of_key(l, "COMMENT"@) matches Some(ValueV::String(_))
}

/// The line is neither a syntax error nor a comment.
pub open spec fn is_plain(l: Seq<(Seq<char>, ValueV)>) -> bool {
    value_of_key(l, "ERROR_MESSAGE"@) is None && value_of_key(l, "COMMENT"@) is None
}

/// The line starts with the statement `name`.
pub open spec fn starts_with(l: Seq<(Seq<char>, ValueV)>, name: Seq<char>) -> bool {
    l.len() > 0 && l[0].1 == ValueV::String(name)
}

/// The line is the statement `name` alone.
pub open spec fn is_alone(l: Seq<(Seq<char>, ValueV)>, name: Seq<char>) -> bool {
    l.len() == 1 && l[0].1 == ValueV::String(name)
}

/// The index of the first token of class `key`.
pub fn find_key(line: &Vec<(String, ValueEnum)>, key: &str) -> (r: Option<usize>)
    ensures
        match r {
            Some(i) => first_key(line_view(line@), key@, i as int),
            None => !has_key(line_view(line@), key@),
        },
{
    let ghost lv = line_view(line@);
    let mut i: usize = 0;
    while i < line.len()
        invariant
            i <= line@.len(),
            lv == line_view(line@),
            forall|j: int| 0 <= j < i ==> lv[j].0 != key@,
        decreases line.len() - i,
    {
        assert(lv[i as int] == (line@[i as int].0@, line@[i as int].1@));
        if str_equal(line[i].0.as_str(), key) {
            return Some(i);
        }
        i += 1;
    }
    None
}

/// The message for an error of a verine.
fn verine_error_message(e: &TokenizerError) -> (r: Result<String, Fault>)
    ensures
        match verine_error_text(e@) {
            Some(m) => r matches Ok(x) && x@ == m,
            None => r == Err::<String, Fault>(Fault::Unreachable),
        },
{
    let text = match e {
        TokenizerError::StdInError => string_from("PROBLEMS READING USER INPUT!"),
        TokenizerError::VariableNotFound(var) => {
            let mut m = string_from("THERE IS NO VARIABLE CALLED ");
            push_str(&mut m, var.as_str());
            push_str(&mut m, "!");
            m
        },
        TokenizerError::NumberNotAnInteger(var) => {
            let mut m = string_from("'");
            push_str(&mut m, var.as_str());
            push_str(&mut m, "' IS NOT A INTEGER!");
            m
        },
        TokenizerError::InvalidOperands => string_from("INVALID OPERANDS!"),
        TokenizerError::InvalidIndex(i) => {
            let mut m = string_from("'");
            push_str(&mut m, i.as_str());
            push_str(&mut m, "' IS NOT A VALID INDEX!");
            m
        },
        TokenizerError::IndexOutOfBounds => string_from("INDEX IS OUT OF BOUNDS!"),
        TokenizerError::TypeNotIndexable => string_from("TYPE IS NOT INDEXABLE!"),
        TokenizerError::TypeHasNoLength => string_from("TYPE HAS NO LENGTH!"),
        TokenizerError::DivisionByZero => string_from("CAN'T DIVIDE BY ZERO!"),
        TokenizerError::InvalidExpression => string_from("INVALID VERINE EXPRESSION!"),
        TokenizerError::UnexpectedCharacter(_) => {
            return Err(Fault::Unreachable);
        },
    };
    let mut m = string_from("EXECUTION ERROR: ");
    push_str(&mut m, text.as_str());
    Ok(m)
}

/// The message for an error of a verine (`None` for an error that
/// tokenizing finds first).
pub open spec fn verine_error_text(e: TokenizerErrorV) -> Option<Seq<char>> {
    let text = match e {
        TokenizerErrorV::StdInError => Some("PROBLEMS READING USER INPUT!"@),
        TokenizerErrorV::VariableNotFound(v) => Some("THERE IS NO VARIABLE CALLED "@ + v + "!"@),
        TokenizerErrorV::NumberNotAnInteger(v) => Some("'"@ + v + "' IS NOT A INTEGER!"@),
        TokenizerErrorV::InvalidOperands => Some("INVALID OPERANDS!"@),
        TokenizerErrorV::InvalidIndex(i) => Some("'"@ + i + "' IS NOT A VALID INDEX!"@),
        TokenizerErrorV::IndexOutOfBounds => Some("INDEX IS OUT OF BOUNDS!"@),
        TokenizerErrorV::TypeNotIndexable => Some("TYPE IS NOT INDEXABLE!"@),
        TokenizerErrorV::TypeHasNoLength => Some("TYPE HAS NO LENGTH!"@),
        TokenizerErrorV::DivisionByZero => Some("CAN'T DIVIDE BY ZERO!"@),
        TokenizerErrorV::InvalidExpression => Some("INVALID VERINE EXPRESSION!"@),
        TokenizerErrorV::UnexpectedCharacter(_) => None,
    };
    match text {
        Some(t) => Some("EXECUTION ERROR: "@ + t),
        None => None,
    }
}

/// `m` is the message of some error of a verine.
pub open spec fn is_verine_error(m: Seq<char>) -> bool {
    exists|e: TokenizerErrorV| #[trigger] verine_error_text(e) == Some(m)
}

/// What evaluating the verines of a line gives.
pub enum VerineLine {
    /// The line with each verine replaced by its value.
    Line(Seq<(Seq<char>, ValueV)>),
    /// The message of the first verine that fails.
    Failed(Seq<char>),
    /// A verine's value depends on the lines of input it reads, overflows,
    /// or has no rule.
    Undetermined,
}

/// The line `l` from index `i` on with its verines evaluated, with the
/// variables `g`, where the values do not depend on the lines of input.
pub open spec fn evaluated_from(l: Seq<(Seq<char>, ValueV)>, i: int, g: Map<Seq<char>, ValueV>) -> VerineLine
    decreases l.len() - i,
{
    if i < 0 || i >= l.len() {
        VerineLine::Line(l)
    } else {
        match l[i].1 {
            ValueV::Verine(ts) => match eval(ts, g) {
                EvalOutcome::Value(TokenV::String(v)) => evaluated_from(
                    l.update(i, ("STRING"@, ValueV::String(v))),
                    i + 1,
                    g,
                ),
                EvalOutcome::Value(TokenV::Integer(v)) => evaluated_from(
                    l.update(i, ("INTEGER"@, ValueV::Integer(v))),
                    i + 1,
                    g,
                ),
                EvalOutcome::Value(TokenV::Float(v)) => evaluated_from(
                    l.update(i, ("FLOAT"@, ValueV::Float(v))),
                    i + 1,
                    g,
                ),
                EvalOutcome::Error(e) => match verine_error_text(e) {
                    Some(m) => VerineLine::Failed(m),
                    None => VerineLine::Undetermined,
                },
                _ => VerineLine::Undetermined,
            },
            _ => evaluated_from(l, i + 1, g),
        }
    }
}

/// Evaluating the verines of a line keeps its length and every token that
/// is not a verine.
pub proof fn lemma_evaluated_keeps(l: Seq<(Seq<char>, ValueV)>, i: int, g: Map<Seq<char>, ValueV>)
    ensures
        evaluated_from(l, i, g) matches VerineLine::Line(l2) ==> l2.len() == l.len() && forall|j: int|
            0 <= j < l.len() && !(l[j].1 is Verine) ==> #[trigger] l2[j] == l[j],
    decreases l.len() - i,
{
    if 0 <= i < l.len() {
        match l[i].1 {
            ValueV::Verine(ts) => match eval(ts, g) {
                EvalOutcome::Value(TokenV::String(v)) => {
                    lemma_evaluated_keeps(l.update(i, ("STRING"@, ValueV::String(v))), i + 1, g);
                },
                EvalOutcome::Value(TokenV::Integer(v)) => {
                    lemma_evaluated_keeps(l.update(i, ("INTEGER"@, ValueV::Integer(v))), i + 1, g);
                },
                EvalOutcome::Value(TokenV::Float(v)) => {
                    lemma_evaluated_keeps(l.update(i, ("FLOAT"@, ValueV::Float(v))), i + 1, g);
                },
                _ => {},
            },
            _ => {
                lemma_evaluated_keeps(l, i + 1, g);
            },
        }
    }
}

/// A token that a verine's value becomes: a string, an integer or a float
/// of the class that names it.
pub open spec fn scalar_token(t: (Seq<char>, ValueV)) -> bool {
    ||| t.1 is String && t.0 == "STRING"@
    ||| t.1 is Integer && t.0 == "INTEGER"@
    ||| t.1 is Float && t.0 == "FLOAT"@
}

/// `l2` is the line `l` with each verine replaced by some value.
pub open spec fn valued(l: Seq<(Seq<char>, ValueV)>, l2: Seq<(Seq<char>, ValueV)>) -> bool {
    &&& l2.len() == l.len()
    &&& forall|i: int|
        0 <= i < l.len() ==> if (#[trigger] l[i]).1 is Verine {
            scalar_token(l2[i])
        } else {
            l2[i] == l[i]
        }
}

/// The line's first token carries a word.
pub open spec fn starts_with_word(l: Seq<(Seq<char>, ValueV)>) -> bool {
    l.len() > 0 && l[0].1 is String
}

/// What a line `l` does at the top level from `old` to `new` with the
/// result `r`: its verines are evaluated first (the first that fails is
/// the error); then `STOP` alone changes nothing, and any other statement
/// has its effect. Where a verine's value depends on a line of input, the line
/// either changes nothing and ends with a fault or with the message of a
/// verine's error, or does what it does with some value in place of each
/// verine.
pub open spec fn top_level_outcome(
    old: ExecData,
    l: Seq<(Seq<char>, ValueV)>,
    steps: int,
    new: ExecData,
    r: Result<Result<(), String>, Fault>,
) -> bool
    decreases steps, 3int, 0int,
{
    match evaluated_from(l, 0, old.global_variables@) {
        VerineLine::Failed(m) => (r matches Ok(Err(e)) && e@ == m) && new == old,
        VerineLine::Line(l2) => if is_alone(l2, "STOP"@) {
            r == Ok::<Result<(), String>, Fault>(Ok(())) && new == old
        } else {
            statement_outcome(old, l2, steps, new, r)
        },
        VerineLine::Undetermined => (r is Err || (r matches Ok(Err(e)) && is_verine_error(e@))) && new == old || exists|l2: Seq<(Seq<char>, ValueV)>|
            #[trigger] valued(l, l2) && if is_alone(l2, "STOP"@) {
                r == Ok::<Result<(), String>, Fault>(Ok(())) && new == old
            } else {
                statement_outcome(old, l2, steps, new, r)
            },
    }
}

/// A line without verines is what evaluating its verines gives.
pub proof fn lemma_no_verines_evaluate(l: Seq<(Seq<char>, ValueV)>, g: Map<Seq<char>, ValueV>, i: int)
    requires
        no_verines(l),
        0 <= i,
    ensures
        evaluated_from(l, i, g) == VerineLine::Line(l),
    decreases l.len() - i,
{
    if i < l.len() {
        lemma_no_verines_evaluate(l, g, i + 1);
    }
}

/// Replaces each verine of `line` by its value, and remembers the verine
/// and its position in `saved`.
fn evaluate_verines<R: Runtime>(
    line: &mut Vec<(String, ValueEnum)>,
    saved: &mut Vec<(usize, Vec<Token>)>,
    global_variables: &Variables,
    rt: &mut R,
) -> (r: Result<Result<(), String>, Fault>)
    ensures
        final(line)@.len() == old(line)@.len(),
        no_verines(line_view(old(line)@)) ==> line_view(final(line)@) == line_view(old(line)@)
            && final(saved)@ == old(saved)@ && r == Ok::<Result<(), String>, Fault>(Ok(())),
        match evaluated_from(line_view(old(line)@), 0, global_variables@) {
            VerineLine::Line(l2) => r == Ok::<Result<(), String>, Fault>(Ok(())) && line_view(
                final(line)@,
            ) == l2,
            VerineLine::Failed(m) => r matches Ok(Err(x)) && x@ == m,
            VerineLine::Undetermined => true,
        },
        old(saved)@.len() == 0 && verines_marked(line_view(old(line)@)) && (r matches Ok(Ok(_)))
            ==> restored(line_view(final(line)@), saved_view(final(saved)@)) == line_view(old(line)@),
        (r matches Ok(Ok(_))) ==> valued(line_view(old(line)@), line_view(final(line)@)),
        r matches Ok(Err(x)) ==> is_verine_error(x@),
{
    let ghost lv = line_view(line@);
    let ghost marked = old(saved)@.len() == 0 && verines_marked(lv);
    let mut i: usize = 0;
    while i < line.len()
        invariant
            i <= line@.len() == old(line)@.len(),
            no_verines(lv) ==> line_view(line@) == lv && saved@ == old(saved)@,
            lv == line_view(old(line)@),
            evaluated_from(lv, 0, global_variables@) is Undetermined || evaluated_from(
                lv,
                0,
                global_variables@,
            ) == evaluated_from(line_view(line@), i as int, global_variables@),
            marked == (old(saved)@.len() == 0 && verines_marked(lv)),
            marked ==> restored(line_view(line@), saved_view(saved@)) == lv,
            marked ==> forall|j: int| i <= j < lv.len() ==> #[trigger] line_view(line@)[j] == lv[j],
            marked ==> forall|k: int| 0 <= k < saved@.len() ==> (#[trigger] saved_view(saved@)[k]).0 < i,
            line_view(line@).len() == lv.len(),
            forall|j: int|
                0 <= j < lv.len() ==> if (#[trigger] lv[j]).1 is Verine && j < i {
                    scalar_token(line_view(line@)[j])
                } else {
                    line_view(line@)[j] == lv[j]
                },
        decreases line.len() - i,
    {
        assert(line_view(line@)[i as int] == (line@[i as int].0@, line@[i as int].1@));
        let tokens = match &line[i].1 {
            ValueEnum::Verine(tokens) => duplicate_tokens(tokens),
            _ => {
                i += 1;
                continue ;
            },
        };
        let ghost sv0 = saved_view(saved@);
        saved.push((i, duplicate_tokens(&tokens)));
        let ghost before = line_view(line@);
        let ghost ts = tokens_view(tokens@);
        assert(before[i as int].1 == ValueV::Verine(ts));
        assert(saved_view(saved@) =~= sv0.push((i as int, ts)));
        let ghost outcome = eval(ts, global_variables@);
        let (key, value) = match Tokenizer::evaluate(tokens, global_variables, rt) {
            Err(f) => {
                return Err(f);
            },
            Ok(Err(e)) => {
                return match verine_error_message(&e) {
                    Ok(m) => {
                        assert(verine_error_text(e@) == Some(m@));
                        Ok(Err(m))
                    },
                    Err(f) => Err(f),
                };
            },
            Ok(Ok(Token::String(s))) => (string_from("STRING"), ValueEnum::String(s)),
            Ok(Ok(Token::Integer(v))) => (string_from("INTEGER"), ValueEnum::Integer(v)),
            Ok(Ok(Token::Float(f))) => (string_from("FLOAT"), ValueEnum::Float(f)),
            Ok(Ok(_)) => {
                return Err(Fault::Unreachable);
            },
        };
        let ghost entry = (key@, value@);
        assert(scalar_token(entry));
        line.set(i, (key, value));
        assert(line_view(line@) =~= before.update(i as int, entry));
        proof {
            if marked {
                assert(before[i as int] == lv[i as int]);
                assert(lv[i as int].0 == "VERINE"@);
                lemma_restored_tokens(before, sv0);
                lemma_restored_update(before, sv0, i as int, entry);
                let sv1 = sv0.push((i as int, ts));
                assert(sv1.drop_last() =~= sv0);
                assert(restored(before, sv0).update(i as int, entry).update(i as int, ("VERINE"@, ValueV::Verine(ts)))
                    =~= lv);
            }
        }
        proof {
            match outcome {
                EvalOutcome::Value(TokenV::String(v)) => {
                    assert(entry == ("STRING"@, ValueV::String(v)));
                },
                EvalOutcome::Value(TokenV::Integer(v)) => {
                    assert(entry == ("INTEGER"@, ValueV::Integer(v)));
                },
                EvalOutcome::Value(TokenV::Float(v)) => {
                    assert(entry == ("FLOAT"@, ValueV::Float(v)));
                },
                _ => {},
            }
        }
        i += 1;
    }
    assert(valued(lv, line_view(line@)));
    Ok(Ok(()))
}

/// The remembered verines `saved` (a position and the tokens) put back into
/// the line `l`, in order.
pub open spec fn restored(l: Seq<(Seq<char>, ValueV)>, saved: Seq<(int, Seq<TokenV>)>) -> Seq<(Seq<char>, ValueV)>
    decreases saved.len(),
{
    if saved.len() == 0 {
        l
    } else {
        let l1 = restored(l, saved.drop_last());
        let i = saved.last().0;
        if 0 <= i < l1.len() {
            l1.update(i, ("VERINE"@, ValueV::Verine(saved.last().1)))
        } else {
            l1
        }
    }
}

/// The mathematical form of remembered verines.
pub open spec fn saved_view(s: Seq<(usize, Vec<Token>)>) -> Seq<(int, Seq<TokenV>)> {
    s.map_values(|p: (usize, Vec<Token>)| (p.0 as int, tokens_view(p.1@)))
}

/// Each verine of the line `l` is a token of the class `VERINE`.
pub open spec fn verines_marked(l: Seq<(Seq<char>, ValueV)>) -> bool {
    forall|i: int| 0 <= i < l.len() && (#[trigger] l[i]).1 is Verine ==> l[i].0 == "VERINE"@
}

/// Putting verines back keeps the length, and each token is the one of `l`
/// or a verine.
pub proof fn lemma_restored_tokens(l: Seq<(Seq<char>, ValueV)>, saved: Seq<(int, Seq<TokenV>)>)
    ensures
        restored(l, saved).len() == l.len(),
        forall|j: int|
            0 <= j < l.len() ==> #[trigger] restored(l, saved)[j] == l[j] || restored(l, saved)[j].1 is Verine,
    decreases saved.len(),
{
    if saved.len() > 0 {
        lemma_restored_tokens(l, saved.drop_last());
    }
}

/// Putting back verines at positions other than `i` commutes with setting
/// the token at `i`.
proof fn lemma_restored_update(
    l: Seq<(Seq<char>, ValueV)>,
    saved: Seq<(int, Seq<TokenV>)>,
    i: int,
    t: (Seq<char>, ValueV),
)
    requires
        0 <= i < l.len(),
        forall|k: int| 0 <= k < saved.len() ==> (#[trigger] saved[k]).0 != i,
    ensures
        restored(l.update(i, t), saved) == restored(l, saved).update(i, t),
    decreases saved.len(),
{
    lemma_restored_tokens(l, saved);
    lemma_restored_tokens(l.update(i, t), saved);
    if saved.len() > 0 {
        let s1 = saved.drop_last();
        assert forall|k: int| 0 <= k < s1.len() implies (#[trigger] s1[k]).0 != i by {
            assert(s1[k] == saved[k]);
        }
        lemma_restored_update(l, s1, i, t);
        assert(saved.last() == saved[saved.len() - 1]);
        let a = restored(l.update(i, t), saved);
        let b = restored(l, saved).update(i, t);
        assert(a =~= b);
    }
}

/// Puts the remembered verines back at their positions.
fn restore_verines(line: &mut Vec<(String, ValueEnum)>, saved: Vec<(usize, Vec<Token>)>)
    ensures
        saved@.len() == 0 ==> final(line)@ == old(line)@,
        line_view(final(line)@) == restored(line_view(old(line)@), saved_view(saved@)),
{
    let ghost sv = saved_view(saved@);
    let ghost l0 = line_view(line@);
    let mut k: usize = 0;
    assert(sv.take(0) =~= Seq::<(int, Seq<TokenV>)>::empty());
    while k < saved.len()
        invariant
            k <= saved@.len(),
            sv == saved_view(saved@),
            l0 == line_view(old(line)@),
            saved@.len() == 0 ==> line@ == old(line)@,
            line_view(line@) == restored(l0, sv.take(k as int)),
        decreases saved.len() - k,
    {
        let ghost before = line_view(line@);
        assert(sv.take(k + 1).drop_last() =~= sv.take(k as int));
        assert(sv.take(k + 1).last() == sv[k as int]);
        proof {
            lemma_restored_tokens(l0, sv.take(k as int));
        }
        let i = saved[k].0;
        if i < line.len() {
            let toks = duplicate_tokens(&saved[k].1);
            line.set(i, (string_from("VERINE"), ValueEnum::Verine(toks)));
            assert(line_view(line@) =~= before.update(i as int, ("VERINE"@, ValueV::Verine(sv[k as int].1))));
        }
        k += 1;
    }
    assert(sv.take(saved@.len() as int) =~= sv);
}

/// The class of the token that carries the value `v`.
pub open spec fn kind_of(v: ValueV) -> Seq<char> {
    match v {
        ValueV::String(_) => "STRING"@,
        ValueV::Integer(_) => "INTEGER"@,
        ValueV::Float(_) => "FLOAT"@,
        ValueV::Array(_) => "ARRAY"@,
        ValueV::Verine(_) => "VERINE"@,
    }
}

/// `v` is of one of the allowed kinds.
pub open spec fn allowed(v: ValueV, strings: bool, integers: bool, floats: bool, arrays: bool) -> bool {
    match v {
        ValueV::String(_) => strings,
        ValueV::Integer(_) => integers,
        ValueV::Float(_) => floats,
        ValueV::Array(_) => arrays,
        ValueV::Verine(_) => false,
    }
}

/// The value a variable holds, as a token of a line, if it is of one of the
/// allowed kinds (`strings`, `integers`, `floats`, `arrays`).
fn variable_token(
    name: &String,
    global_variables: &Variables,
    strings: bool,
    integers: bool,
    floats: bool,
    arrays: bool,
    wrong_kind: &str,
) -> (r: Result<Result<(String, ValueEnum), String>, Fault>)
    ensures
        !global_variables@.contains_key(name@) ==> (r matches Ok(Err(m)) && m@ == no_variable_message(name@)),
        global_variables@.contains_key(name@) && allowed(global_variables@[name@], strings, integers, floats, arrays)
            ==> (r matches Ok(Ok(t)) && t.0@ == kind_of(global_variables@[name@]) && t.1@
            == global_variables@[name@]),
        global_variables@.contains_key(name@) && !allowed(global_variables@[name@], strings, integers, floats, arrays)
            && !(arrays && global_variables@[name@] is Verine) ==> (r matches Ok(Err(m)) && m@ == wrong_kind@),
{
    match global_variables.get(name.as_str()) {
        None => {
            let mut m = string_from("EXECUTION ERROR: THERE IS NO VARIABLE CALLED ");
            push_str(&mut m, name.as_str());
            push_str(&mut m, "!");
            Ok(Err(m))
        },
        Some(ValueEnum::String(v)) => if strings {
            Ok(Ok((string_from("STRING"), ValueEnum::String(v.clone()))))
        } else {
            Ok(Err(string_from(wrong_kind)))
        },
        Some(ValueEnum::Integer(v)) => if integers {
            Ok(Ok((string_from("INTEGER"), ValueEnum::Integer(*v))))
        } else {
            Ok(Err(string_from(wrong_kind)))
        },
        Some(ValueEnum::Float(v)) => if floats {
            Ok(Ok((string_from("FLOAT"), ValueEnum::Float(v.clone()))))
        } else {
            Ok(Err(string_from(wrong_kind)))
        },
        Some(ValueEnum::Array(v)) => if arrays {
            Ok(Ok((string_from("ARRAY"), ValueEnum::Array(duplicate_elements(v)))))
        } else {
            Ok(Err(string_from(wrong_kind)))
        },
        Some(ValueEnum::Verine(_)) => if arrays {
            Err(Fault::Unreachable)
        } else {
            Ok(Err(string_from(wrong_kind)))
        },
    }
}

/// Replaces the variable at position `p` of `line` by its value.
fn substitute_at(
    line: &mut Vec<(String, ValueEnum)>,
    p: usize,
    global_variables: &Variables,
    strings: bool,
    integers: bool,
    floats: bool,
    arrays: bool,
    wrong_kind: &str,
) -> (r: Result<Result<(), String>, Fault>)
    ensures
        final(line)@.len() == old(line)@.len(),
        p < old(line)@.len() && old(line)@[p as int].0@ != "VARIABLE/FUNCTION_NAME"@ ==> final(line)@
            == old(line)@ && r == Ok::<Result<(), String>, Fault>(Ok(())),
        p < old(line)@.len() && old(line)@[p as int].0@ == "VARIABLE/FUNCTION_NAME"@ ==> (old(
            line,
        )@[p as int].1 matches ValueEnum::String(name) ==> {
            let g = global_variables@;
            &&& !g.contains_key(name@) ==> (r matches Ok(Err(m)) && m@ == no_variable_message(name@)
                && final(line)@ == old(line)@)
            &&& g.contains_key(name@) && allowed(g[name@], strings, integers, floats, arrays) ==> (r
                == Ok::<Result<(), String>, Fault>(Ok(())) && line_view(final(line)@) == line_view(
                old(line)@,
            ).update(p as int, (kind_of(g[name@]), g[name@])))
            &&& g.contains_key(name@) && !allowed(g[name@], strings, integers, floats, arrays) && !(arrays
                && g[name@] is Verine) ==> (r matches Ok(Err(m)) && m@ == wrong_kind@ && final(line)@ == old(line)@)
        }),
{
    if p >= line.len() {
        return Err(Fault::Unreachable);
    }
    if !str_equal(line[p].0.as_str(), "VARIABLE/FUNCTION_NAME") {
        return Ok(Ok(()));
    }
    let name = match &line[p].1 {
        ValueEnum::String(name) => name.clone(),
        _ => {
            return Err(Fault::Unreachable);
        },
    };
    match variable_token(&name, global_variables, strings, integers, floats, arrays, wrong_kind) {
        Err(f) => Err(f),
        Ok(Err(m)) => Ok(Err(m)),
        Ok(Ok(t)) => {
            line.set(p, t);
            Ok(Ok(()))
        },
    }
}

/// Whether `line[i]` has the string value `s`.
fn value_is(line: &Vec<(String, ValueEnum)>, i: usize, s: &str) -> (r: bool)
    ensures
        r == (i < line@.len() && (line@[i as int].1 matches ValueEnum::String(v) && v@ == s@)),
{
    if i >= line.len() {
        return false;
    }
    match &line[i].1 {
        ValueEnum::String(v) => str_equal(v.as_str(), s),
        _ => false,
    }
}

/// The string value of `line[i]`.
fn string_value(line: &Vec<(String, ValueEnum)>, i: usize) -> (r: Result<String, Fault>)
    ensures
        match r {
            Ok(v) => i < line@.len() && (line@[i as int].1 matches ValueEnum::String(w) && v@ == w@),
            Err(f) => f == Fault::Unreachable && !(i < line@.len() && line@[i as int].1 is String),
        },
{
    if i >= line.len() {
        return Err(Fault::Unreachable);
    }
    match &line[i].1 {
        ValueEnum::String(v) => Ok(v.clone()),
        _ => Err(Fault::Unreachable),
    }
}

/// The integer value of `line[i]`.
fn integer_value(line: &Vec<(String, ValueEnum)>, i: usize) -> (r: Result<i32, Fault>)
    ensures
        i < line@.len() ==> (line@[i as int].1 matches ValueEnum::Integer(v) ==> r == Ok::<i32, Fault>(v)),
{
    if i >= line.len() {
        return Err(Fault::Unreachable);
    }
    match &line[i].1 {
        ValueEnum::Integer(v) => Ok(*v),
        _ => Err(Fault::Unreachable),
    }
}

/// The array element that `line[i]` holds, if it holds a string, an integer
/// or a float.
fn element_value(line: &Vec<(String, ValueEnum)>, i: usize) -> (r: Result<Option<ArrayTypesEnum>, Fault>)
    ensures
        i < line@.len() ==> match element_of(line@[i as int].1@) {
            Some(e) => r matches Ok(Some(x)) && x@ == e,
            None => r == Ok::<Option<ArrayTypesEnum>, Fault>(None),
        },
{
    if i >= line.len() {
        return Err(Fault::Unreachable);
    }
    match &line[i].1 {
        ValueEnum::String(v) => Ok(Some(ArrayTypesEnum::String(v.clone()))),
        ValueEnum::Integer(v) => Ok(Some(ArrayTypesEnum::Integer(*v))),
        ValueEnum::Float(v) => Ok(Some(ArrayTypesEnum::Float(v.clone()))),
        _ => Ok(None),
    }
}

/// One order written as the help lists it: `KEY:VALUE, KEY:VALUE, ...`.
pub open spec fn order_line(p: Seq<(Seq<char>, Seq<char>)>) -> Seq<char>
    decreases p.len(),
{
    if p.len() == 0 {
        Seq::empty()
    } else {
        let prev = order_line(p.drop_last());
        (if p.len() > 1 {
            prev + ", "@
        } else {
            prev
        }) + p.last().0 + ":"@ + p.last().1
    }
}

/// One order written as the help lists it.
fn order_text(p: &Vec<(&'static str, &'static str)>) -> (r: String)
    ensures
        r@ == order_line(pattern_view(p@)),
{
    let ghost pv = pattern_view(p@);
    let mut m = String::new();
    let mut i: usize = 0;
    assert(pv.take(0) =~= Seq::<(Seq<char>, Seq<char>)>::empty());
    while i < p.len()
        invariant
            i <= p@.len(),
            pv == pattern_view(p@),
            m@ == order_line(pv.take(i as int)),
        decreases p.len() - i,
    {
        let ghost before = m@;
        assert(pv.take(i + 1).drop_last() =~= pv.take(i as int));
        assert(pv.take(i + 1).last() == pv[i as int]);
        if i > 0 {
            push_str(&mut m, ", ");
        }
        push_str(&mut m, p[i].0);
        push_str(&mut m, ":");
        push_str(&mut m, p[i].1);
        assert(m@ =~= order_line(pv.take(i + 1)));
        i += 1;
    }
    assert(pv.take(p@.len() as int) =~= pv);
    m
}

/// `new` has recorded the line `l` of the block that `old` was reading: among
/// the lines of the block, or among those of the function being defined.
pub open spec fn records(old: ExecData, new: ExecData, l: Seq<(Seq<char>, ValueV)>) -> bool {
    &&& new.printed == old.printed
    &&& new.global_variables@ == old.global_variables@
    &&& new.current_block_type == old.current_block_type
    &&& if old.current_block_type.0@ == "normal"@ {
        block_view(new.block_code@) == block_view(old.block_code@).push(l) && new.functions@
            == old.functions@
    } else if old.current_block_type.0@ == "function"@ {
        &&& new.functions@ == old.functions@.insert(
            old.current_block_type.1@,
            old.functions@[old.current_block_type.1@].push(l),
        )
        &&& block_view(new.block_code@) == block_view(old.block_code@)
    } else {
        block_view(new.block_code@) == block_view(old.block_code@) && new.functions@
            == old.functions@
    }
}

/// The function that `s` is defining, if any, is known.
pub open spec fn recording_possible(s: ExecData) -> bool {
    s.current_block_type.0@ == "function"@ ==> s.functions@.contains_key(s.current_block_type.1@)
}

/// `new` is `old` without the lines of the block that was being read.
pub open spec fn block_dropped(old: ExecData, new: ExecData) -> bool {
    &&& new.block_code@.len() == 0
    &&& new.global_variables == old.global_variables
    &&& new.indentation == old.indentation
    &&& new.functions == old.functions
    &&& new.current_block_type == old.current_block_type
    &&& new.printed == old.printed
}

/// What executing the line `l` with `steps` steps left does, from the state
/// `old` to the state `new` with the result `r`: a line with a syntax error
/// fails with it and a comment does nothing; `RESET` forgets all variables
/// and `STOP` changes nothing (the runtime ends the program); inside a block
/// the line does what `in_block_outcome` says (in the body of a `WHILE`, a
/// line with verines has them evaluated first, and is recorded as it was),
/// and at the top level a statement does what `top_level_outcome` says. The
/// indentation stays well formed.
pub open spec fn exec_outcome(
    old: ExecData,
    l: Seq<(Seq<char>, ValueV)>,
    from_while: bool,
    steps: int,
    new: ExecData,
    r: Result<Result<(), String>, Fault>,
) -> bool
    decreases steps, 4int, 0int,
{
    &&& keeps_indentation(old, new)
    &&& syntax_error_of(l) is Some ==> (r matches Ok(Err(e)) && e@ == "SYNTAX ERROR: "@ + syntax_error_of(
        l,
    ).unwrap()) && new == old
    &&& is_comment(l) ==> r == Ok::<Result<(), String>, Fault>(Ok(())) && new == old
    &&& is_plain(l) && is_alone(l, "RESET"@) ==> {
        &&& r == Ok::<Result<(), String>, Fault>(Ok(()))
        &&& new.global_variables@ == Map::<Seq<char>, ValueV>::empty()
        &&& new.indentation == old.indentation
        &&& new.block_code == old.block_code
        &&& new.functions == old.functions
        &&& new.current_block_type == old.current_block_type
        &&& new.printed == old.printed
    }
    &&& is_plain(l) && !is_alone(l, "RESET"@) && (!from_while || no_verines(l)) && old.indentation@.len()
        > 0 ==> if is_alone(l, "STOP"@) {
        r == Ok::<Result<(), String>, Fault>(Ok(())) && new == old
    } else {
        in_block_outcome(old, l, steps, new, r)
    }
    &&& is_plain(l) && from_while && starts_with_word(l) && !no_verines(l) && verines_marked(l)
        && old.indentation@.len() > 0 ==> match evaluated_from(l, 0, old.global_variables@) {
        VerineLine::Failed(m) => (r matches Ok(Err(e)) && e@ == m) && new == old,
        VerineLine::Line(_) => in_block_outcome(old, l, steps, new, r),
        VerineLine::Undetermined => (r is Err || (r matches Ok(Err(e)) && is_verine_error(e@))) && new == old || in_block_outcome(
            old,
            l,
            steps,
            new,
            r,
        ),
    }
    &&& is_plain(l) && is_alone(l, "STOP"@) ==> r == Ok::<Result<(), String>, Fault>(Ok(())) && new == old
    &&& is_plain(l) && !is_alone(l, "RESET"@) && starts_with_word(l) && old.indentation@.len() == 0
        ==> top_level_outcome(old, l, steps, new, r)
}

/// Names a state and a result that a step reaches: always true, it marks
/// where such a pair is taken as the witness of a step.
pub open spec fn reached(s: ExecData, r: Result<Result<(), String>, Fault>) -> bool {
    true
}

/// Running the lines `lines` one after the other from the state `old`, each
/// as `exec_outcome` says with one step less, until one does not end with
/// `Ok(Ok(()))`: its result is then the result of the whole; `new` is the
/// state reached.
pub open spec fn runs(
    old: ExecData,
    lines: Seq<Seq<(Seq<char>, ValueV)>>,
    from_while: bool,
    steps: int,
    new: ExecData,
    r: Result<Result<(), String>, Fault>,
) -> bool
    decreases steps, 0int, lines.len(),
{
    if lines.len() == 0 {
        r == Ok::<Result<(), String>, Fault>(Ok(())) && new == old
    } else {
        &&& steps > 0
        &&& exists|mid: ExecData, r1: Result<Result<(), String>, Fault>|
            #![trigger reached(mid, r1)]
            reached(mid, r1) && exec_outcome(old, lines[0], from_while, steps - 1, mid, r1) && if r1 matches Ok(Ok(_)) {
                runs(mid, lines.drop_first(), from_while, steps, new, r)
            } else {
                r == r1 && new == mid
            }
    }
}

/// One more line run before the lines `lines.drop_first()`.
proof fn lemma_runs_step(
    old: ExecData,
    lines: Seq<Seq<(Seq<char>, ValueV)>>,
    from_while: bool,
    steps: int,
    mid: ExecData,
    r1: Result<Result<(), String>, Fault>,
    new: ExecData,
    r: Result<Result<(), String>, Fault>,
)
    requires
        lines.len() > 0,
        steps > 0,
        exec_outcome(old, lines[0], from_while, steps - 1, mid, r1),
        if r1 matches Ok(Ok(_)) {
            runs(mid, lines.drop_first(), from_while, steps, new, r)
        } else {
            r == r1 && new == mid
        },
    ensures
        runs(old, lines, from_while, steps, new, r),
{
    assert(reached(mid, r1));
}

/// A run of the lines `lines` one at a time: `states[i]` is the state
/// before line `i` runs and `results[i]` what running it gave; every line
/// before the last one run succeeded.
pub open spec fn ran_in_turn(
    lines: Seq<Seq<(Seq<char>, ValueV)>>,
    from_while: bool,
    steps: int,
    states: Seq<ExecData>,
    results: Seq<Result<Result<(), String>, Fault>>,
) -> bool {
    &&& results.len() <= lines.len()
    &&& states.len() == results.len() + 1
    &&& forall|i: int|
        0 <= i < results.len() ==> exec_outcome(
            states[i],
            lines[i],
            from_while,
            steps - 1,
            states[i + 1],
            #[trigger] results[i],
        )
    &&& forall|i: int| 0 <= i < results.len() - 1 ==> #[trigger] results[i] matches Ok(Ok(_))
}

/// How a run of lines one at a time ends: all the lines ran and succeeded
/// and the whole succeeds, or the last line run failed and its result is
/// that of the whole.
pub open spec fn run_ended(
    lines: Seq<Seq<(Seq<char>, ValueV)>>,
    results: Seq<Result<Result<(), String>, Fault>>,
    r: Result<Result<(), String>, Fault>,
) -> bool {
    ||| results.len() == lines.len() && (results.len() == 0 || results.last() matches Ok(Ok(_))) && r == Ok::<
        Result<(), String>,
        Fault,
    >(Ok(()))
    ||| results.len() > 0 && !(results.last() matches Ok(Ok(_))) && r == results.last()
}

/// `runs` is a run of the lines one at a time from `old`.
proof fn lemma_runs_in_turn(
    old: ExecData,
    lines: Seq<Seq<(Seq<char>, ValueV)>>,
    from_while: bool,
    steps: int,
    new: ExecData,
    r: Result<Result<(), String>, Fault>,
) -> (w: (Seq<ExecData>, Seq<Result<Result<(), String>, Fault>>))
    requires
        runs(old, lines, from_while, steps, new, r),
    ensures
        ran_in_turn(lines, from_while, steps, w.0, w.1),
        w.0[0] == old,
        w.0.last() == new,
        run_ended(lines, w.1, r),
    decreases lines.len(),
{
    if lines.len() == 0 {
        (seq![old], Seq::empty())
    } else {
        let (mid, r1) = choose|mid: ExecData, r1: Result<Result<(), String>, Fault>|
            #![trigger reached(mid, r1)]
            reached(mid, r1) && exec_outcome(old, lines[0], from_while, steps - 1, mid, r1) && if r1 matches Ok(
                Ok(_),
            ) {
                runs(mid, lines.drop_first(), from_while, steps, new, r)
            } else {
                r == r1 && new == mid
            };
        if r1 matches Ok(Ok(_)) {
            let (st, rs) = lemma_runs_in_turn(mid, lines.drop_first(), from_while, steps, new, r);
            let states = seq![old] + st;
            let results = seq![r1] + rs;
            assert(results[0] == r1);
            assert forall|i: int| 0 <= i < results.len() implies exec_outcome(
                states[i],
                lines[i],
                from_while,
                steps - 1,
                states[i + 1],
                #[trigger] results[i],
            ) by {
                if i > 0 {
                    assert(lines[i] == lines.drop_first()[i - 1]);
                    assert(results[i] == rs[i - 1]);
                    assert(states[i] == st[i - 1]);
                }
            }
            assert forall|i: int| 0 <= i < results.len() - 1 implies #[trigger] results[i] matches Ok(Ok(_)) by {
                if i > 0 {
                    assert(results[i] == rs[i - 1]);
                }
            }
            assert(results.len() > 1 ==> results.last() == rs.last());
            assert(states.last() == st.last());
            if rs.len() == 0 {
                assert(results.last() == r1);
            }
            (states, results)
        } else {
            let states = seq![old, mid];
            let results = seq![r1];
            (states, results)
        }
    }
}

/// Running a block runs its lines one at a time, each as executing that
/// line does, from the state in which no block is being read: every line up
/// to the first that does not succeed runs and no line after it; the whole
/// succeeds where every line did, and else gives what the failing line gave.
pub proof fn law_block_runs_in_turn(
    old: ExecData,
    lines: Seq<Seq<(Seq<char>, ValueV)>>,
    from_while: bool,
    steps: int,
    new: ExecData,
    r: Result<Result<(), String>, Fault>,
)
    requires
        runs_block(old, lines, from_while, steps, new, r),
        steps > 0,
    ensures
        exists|states: Seq<ExecData>, results: Seq<Result<Result<(), String>, Fault>>|
            #[trigger] ran_in_turn(lines, from_while, steps, states, results) && block_dropped(old, states[0])
                && new == states.last() && run_ended(lines, results, r),
{
    let start = choose|start: ExecData| #[trigger] block_dropped(old, start) && runs(start, lines, from_while, steps, new, r);
    let (states, results) = lemma_runs_in_turn(start, lines, from_while, steps, new, r);
    assert(ran_in_turn(lines, from_while, steps, states, results));
}

/// Running `lines` from `old` without the lines of the block being read;
/// with no steps left, nothing runs.
pub open spec fn runs_block(
    old: ExecData,
    lines: Seq<Seq<(Seq<char>, ValueV)>>,
    from_while: bool,
    steps: int,
    new: ExecData,
    r: Result<Result<(), String>, Fault>,
) -> bool
    decreases steps, 0int, lines.len() + 1,
{
    if steps <= 0 {
        r == Err::<Result<(), String>, Fault>(Fault::OutOfSteps) && block_dropped(old, new)
    } else {
        exists|start: ExecData| #[trigger] block_dropped(old, start) && runs(start, lines, from_while, steps, new, r)
    }
}

/// The line `l` with the variable at position `p` replaced by its value,
/// which has to be a string or an integer (`msg` where it is neither).
pub open spec fn substitute_one(
    l: Seq<(Seq<char>, ValueV)>,
    g: Map<Seq<char>, ValueV>,
    p: int,
    msg: Seq<char>,
) -> Result<Seq<(Seq<char>, ValueV)>, Seq<char>> {
    if l[p].0 != "VARIABLE/FUNCTION_NAME"@ {
        Ok(l)
    } else {
        let name = l[p].1->String_0;
        if !g.contains_key(name) {
            Err(no_variable_message(name))
        } else if g[name] is String || g[name] is Integer {
            Ok(l.update(p, (kind_of(g[name]), g[name])))
        } else {
            Err(msg)
        }
    }
}

/// An `ELIF` line with the variables it compares replaced by their values.
pub open spec fn elif_substituted(l: Seq<(Seq<char>, ValueV)>, g: Map<Seq<char>, ValueV>) -> Result<
    Seq<(Seq<char>, ValueV)>,
    Seq<char>,
> {
    match substitute_one(l, g, 1, first_variable_message()) {
        Ok(l1) => substitute_one(l1, g, 3, second_variable_message()),
        Err(m) => Err(m),
    }
}

/// The variables that an `ELIF` line compares are named by strings.
pub open spec fn elif_names_ok(l: Seq<(Seq<char>, ValueV)>) -> bool {
    &&& l.len() >= 4
    &&& l[1].0 == "VARIABLE/FUNCTION_NAME"@ ==> l[1].1 is String
    &&& l[3].0 == "VARIABLE/FUNCTION_NAME"@ ==> l[3].1 is String
}

/// What the condition of an `ELIF` line gives.
pub enum Verdict {
    /// The line is not one that the tokenizer builds, or it compares
    /// values of different kinds.
    Open,
    /// The line fails with this message.
    Failed(Seq<char>),
    /// The condition holds or not.
    Holds(bool),
}

/// The condition of the `ELIF` line `l`: its order is checked, the
/// variables it compares are replaced by their values, and the values are
/// compared.
pub open spec fn elif_verdict(l: Seq<(Seq<char>, ValueV)>, g: Map<Seq<char>, ValueV>) -> Verdict {
    match order_check(l) {
        Err(m) => Verdict::Failed(m),
        Ok(()) => if !elif_names_ok(l) {
            Verdict::Open
        } else {
            match elif_substituted(l, g) {
                Err(m) => Verdict::Failed(m),
                Ok(l2) => if !(l2[2].1 is String) {
                    Verdict::Open
                } else {
                    match compare_values(l2[2].1->String_0, l2[1].1, l2[3].1) {
                        Some(c) => Verdict::Holds(c),
                        None => Verdict::Open,
                    }
                },
            }
        },
    }
}

/// What the scan of the lines of an `IF` block finds.
pub enum IfScan {
    /// The block is not one that the tokenizer and the statements build
    /// (a line without a leading word, an `ELIF` that cannot be compared).
    Open,
    /// A line fails with this message.
    Failed(Seq<char>),
    /// The positions of the `ELIF` lines, of the last `ELIF` whose condition
    /// holds and of the last `ELSE`.
    Found { elifs: Seq<int>, right: Option<int>, else_at: Option<int> },
}

/// The message for an `ELSE` with more tokens.
pub open spec fn else_message() -> Seq<char> {
    "EXECUTION ERROR: THERE ARE MORE TOKENS THAN ELSE NEEDS!"@
}

/// The scan of the lines `b[pos..]` of an `IF` block: each `ELIF` has its
/// order checked, its variables replaced and its condition evaluated; each
/// `ELSE` has to stand alone. The first failure ends the scan.
pub open spec fn if_scan(b: Seq<Seq<(Seq<char>, ValueV)>>, g: Map<Seq<char>, ValueV>, pos: int) -> IfScan
    decreases b.len() - pos,
{
    if pos < 0 || pos >= b.len() {
        IfScan::Found { elifs: Seq::empty(), right: None, else_at: None }
    } else {
        let l = b[pos];
        if l.len() == 0 || !(l[0].1 is String) {
            IfScan::Open
        } else if l[0].1->String_0 == "ELIF"@ {
            match elif_verdict(l, g) {
                Verdict::Holds(c) => match if_scan(b, g, pos + 1) {
                    IfScan::Found { elifs, right, else_at } => IfScan::Found {
                        elifs: seq![pos] + elifs,
                        right: if right is Some {
                            right
                        } else if c {
                            Some(pos)
                        } else {
                            None
                        },
                        else_at,
                    },
                    other => other,
                },
                Verdict::Failed(m) => IfScan::Failed(m),
                Verdict::Open => IfScan::Open,
            }
        } else if l[0].1->String_0 == "ELSE"@ {
            if l.len() != 1 {
                IfScan::Failed(else_message())
            } else {
                match if_scan(b, g, pos + 1) {
                    IfScan::Found { elifs, right, else_at } => IfScan::Found {
                        elifs,
                        right,
                        else_at: if else_at is Some {
                            else_at
                        } else {
                            Some(pos)
                        },
                    },
                    other => other,
                }
            }
        } else {
            if_scan(b, g, pos + 1)
        }
    }
}

/// What running the `IF` block `old.block_code` does: the lines up to the
/// first `ELIF` (or the last `ELSE`) where its condition holds; else the one
/// line after the last `ELIF` whose condition holds; else the lines after
/// the last `ELSE`; else nothing.
pub open spec fn if_outcome(old: ExecData, steps: int, new: ExecData, r: Result<Result<(), String>, Fault>) -> bool
    decreases steps, 1int, 0int,
{
    let b = block_view(old.block_code@);
    let n = b.len();
    if n == 0 || b[0].len() < 3 || !(b[0][2].1 is String) {
        true
    } else {
        match if_scan(b, old.global_variables@, 0) {
            IfScan::Open => true,
            IfScan::Failed(m) => (r matches Ok(Err(e)) && e@ == m) && new == old,
            IfScan::Found { elifs, right, else_at } => {
                let if_end = if elifs.len() > 0 {
                    elifs[0]
                } else if else_at is Some {
                    else_at.unwrap()
                } else {
                    n as int
                };
                if if_end < 1 {
                    r == Err::<Result<(), String>, Fault>(Fault::Unreachable) && new == old
                } else {
                match block_condition(b[0][2].1->String_0, b) {
                    None => r == Err::<Result<(), String>, Fault>(Fault::Unreachable) && new == old,
                    Some(c) => if c {
                        runs_block(old, b.subrange(1, if_end), false, steps, new, r)
                    } else if right is Some {
                        let k = right.unwrap();
                        if k + 1 < n {
                            runs_block(old, b.subrange(k + 1, k + 2), false, steps, new, r)
                        } else {
                            r == Err::<Result<(), String>, Fault>(Fault::MissingLine)
                        }
                    } else if else_at is Some {
                        runs_block(old, b.subrange(else_at.unwrap() + 1, n as int), false, steps, new, r)
                    } else {
                        r == Ok::<Result<(), String>, Fault>(Ok(())) && new == old
                    },
                }
                }
            },
        }
    }
}

/// The scan of a whole `IF` block from what the scan found before `pos`
/// (the `ELIF` lines `pe`, the last `ELIF` that holds `pr`, the last `ELSE`
/// `pel`) and the scan from `pos` on.
pub open spec fn combine_scan(pe: Seq<int>, pr: Option<int>, pel: Option<int>, rest: IfScan) -> IfScan {
    match rest {
        IfScan::Found { elifs, right, else_at } => IfScan::Found {
            elifs: pe + elifs,
            right: if right is Some {
                right
            } else {
                pr
            },
            else_at: if else_at is Some {
                else_at
            } else {
                pel
            },
        },
        other => other,
    }
}

/// `ELIF` and `ELSE` are distinct words.
pub proof fn lemma_branch_words()
    ensures
        "ELIF"@ != "ELSE"@,
        "IF"@ != "WHILE"@,
{
    reveal_strlit("ELIF");
    reveal_strlit("ELSE");
    reveal_strlit("IF");
    reveal_strlit("WHILE");
    assert("ELIF"@[2] != "ELSE"@[2]);
    assert("IF"@.len() != "WHILE"@.len());
}

/// `new` is `old` with the outermost level of block code closed.
pub open spec fn level_closed(old: ExecData, new: ExecData) -> bool {
    &&& new.indentation@ == Seq::<char>::empty()
    &&& new.global_variables == old.global_variables
    &&& new.block_code == old.block_code
    &&& new.functions == old.functions
    &&& new.current_block_type == old.current_block_type
    &&& new.printed == old.printed
}

/// `new` is `old` with no kind of block being read.
pub open spec fn block_type_cleared(old: ExecData, new: ExecData) -> bool {
    &&& new.current_block_type.0@ == Seq::<char>::empty()
    &&& new.current_block_type.1 == old.current_block_type.1
    &&& new.global_variables == old.global_variables
    &&& new.indentation == old.indentation
    &&& new.block_code == old.block_code
    &&& new.functions == old.functions
    &&& new.printed == old.printed
}

/// `new` is `old` with the lines `b` of a block read again.
pub open spec fn block_restored(old: ExecData, b: Seq<Seq<(Seq<char>, ValueV)>>, new: ExecData) -> bool {
    &&& block_view(new.block_code@) == b
    &&& new.global_variables == old.global_variables
    &&& new.indentation == old.indentation
    &&& new.functions == old.functions
    &&& new.current_block_type == old.current_block_type
    &&& new.printed == old.printed
}

/// The interpreter stops with `Fault::Unreachable` and changes nothing:
/// a line or block that the tokenizer and the statements never build.
pub open spec fn halted(old: ExecData, new: ExecData, r: Result<Result<(), String>, Fault>) -> bool {
    r == Err::<Result<(), String>, Fault>(Fault::Unreachable) && new == old
}

/// What running the block `s.block_code` that has just been closed does:
/// an `IF` block as `if_outcome` says, a `WHILE` block as `while_rounds`
/// says, any other block nothing.
pub open spec fn block_outcome(s: ExecData, steps: int, new: ExecData, r: Result<Result<(), String>, Fault>) -> bool
    decreases steps, 2int, 0int,
{
    let b = block_view(s.block_code@);
    if b.len() == 0 || b[0].len() == 0 || !(b[0][0].1 is String) {
        halted(s, new, r)
    } else if b[0][0].1->String_0 == "IF"@ {
        if_outcome(s, steps, new, r)
    } else if b[0][0].1->String_0 == "WHILE"@ {
        if b[0].len() < 3 || !(b[0][2].1 is String) {
            true
        } else {
            while_rounds(s, b[0][2].1->String_0, Seq::empty(), steps, steps, new, r)
        }
    } else {
        r == Ok::<Result<(), String>, Fault>(Ok(())) && new == s
    }
}

/// The rounds of a `WHILE` block from the state `s`, with at most `rounds`
/// rounds left: the variables of the condition take their current values
/// (`err` is the slot for a variable of another kind); while the condition
/// holds by `op`, the lines after the first run and the block is read again.
pub open spec fn while_rounds(
    s: ExecData,
    op: Seq<char>,
    err: Seq<char>,
    rounds: int,
    steps: int,
    new: ExecData,
    r: Result<Result<(), String>, Fault>,
) -> bool
    decreases steps, 1int, rounds,
{
    let b = block_view(s.block_code@);
    if rounds <= 0 {
        r == Err::<Result<(), String>, Fault>(Fault::OutOfSteps) && new == s
    } else {
        match while_update(b, s.global_variables@, err) {
            WhileUpdate::Fault => r == Err::<Result<(), String>, Fault>(Fault::Unreachable) && new == s,
            WhileUpdate::Failed(m) => (r matches Ok(Err(x)) && x@ == m) && new == s,
            WhileUpdate::Updated(nb, e) => match block_condition(op, nb) {
                None => r == Err::<Result<(), String>, Fault>(Fault::Unreachable) && new == s,
                Some(false) => r == Ok::<Result<(), String>, Fault>(Ok(())) && new == s,
                Some(true) => exists|mid: ExecData, r1: Result<Result<(), String>, Fault>|
                    #![trigger reached(mid, r1)]
                    runs_block(s, b.drop_first(), true, steps, mid, r1) && if r1 matches Ok(Ok(_)) {
                        exists|s2: ExecData|
                            #[trigger] block_restored(mid, b, s2) && while_rounds(s2, op, e, rounds - 1, steps, new, r)
                    } else {
                        r == r1 && new == mid
                    },
            },
        }
    }
}

/// The lines of `b` from `pos` on start with a word other than `ELIF` and
/// `ELSE`.
pub open spec fn plain_lines(b: Seq<Seq<(Seq<char>, ValueV)>>, pos: int) -> bool {
    forall|i: int|
        pos <= i < b.len() ==> (#[trigger] b[i]).len() > 0 && b[i][0].1 is String && !starts_with(b[i], "ELIF"@)
            && !starts_with(b[i], "ELSE"@)
}

/// The scan of lines without `ELIF` and `ELSE` finds no branch.
proof fn lemma_plain_scan(b: Seq<Seq<(Seq<char>, ValueV)>>, g: Map<Seq<char>, ValueV>, pos: int)
    requires
        0 <= pos,
        plain_lines(b, pos),
    ensures
        if_scan(b, g, pos) == (IfScan::Found { elifs: Seq::empty(), right: None, else_at: None }),
    decreases b.len() - pos,
{
    if pos < b.len() {
        lemma_plain_scan(b, g, pos + 1);
        assert(b[pos][0].1 is String);
    }
}

/// An `IF` block without `ELIF` and `ELSE` lines runs all its lines after
/// the first where its condition holds, and changes nothing where it does
/// not.
pub proof fn law_plain_if(s: ExecData, steps: int, new: ExecData, r: Result<Result<(), String>, Fault>)
    requires
        if_outcome(s, steps, new, r),
        block_view(s.block_code@).len() > 0,
        block_view(s.block_code@)[0].len() >= 3,
        block_view(s.block_code@)[0][2].1 is String,
        plain_lines(block_view(s.block_code@), 0),
        block_condition(block_view(s.block_code@)[0][2].1->String_0, block_view(s.block_code@)) is Some,
    ensures
        ({
            let b = block_view(s.block_code@);
            if block_condition(b[0][2].1->String_0, b)->Some_0 {
                runs_block(s, b.subrange(1, b.len() as int), false, steps, new, r)
            } else {
                r == Ok::<Result<(), String>, Fault>(Ok(())) && new == s
            }
        }),
{
    lemma_plain_scan(block_view(s.block_code@), s.global_variables@, 0);
}

/// The lines `b[from..to]` start with a word other than `ELIF` and `ELSE`.
pub open spec fn plain_between(b: Seq<Seq<(Seq<char>, ValueV)>>, from: int, to: int) -> bool {
    forall|i: int|
        from <= i < to ==> (#[trigger] b[i]).len() > 0 && b[i][0].1 is String && !starts_with(b[i], "ELIF"@)
            && !starts_with(b[i], "ELSE"@)
}

/// The scan of lines with one `ELSE`, at `e`, and no `ELIF` finds that `ELSE`.
proof fn lemma_else_scan(b: Seq<Seq<(Seq<char>, ValueV)>>, g: Map<Seq<char>, ValueV>, pos: int, e: int)
    requires
        0 <= pos <= e < b.len(),
        plain_between(b, pos, e),
        is_alone(b[e], "ELSE"@),
        plain_lines(b, e + 1),
    ensures
        if_scan(b, g, pos) == (IfScan::Found { elifs: Seq::empty(), right: None, else_at: Some(e) }),
    decreases e - pos,
{
    lemma_branch_words();
    if pos < e {
        lemma_else_scan(b, g, pos + 1, e);
        assert(b[pos][0].1 is String);
    } else {
        lemma_plain_scan(b, g, e + 1);
    }
}

/// An `IF` block with one `ELSE` and no `ELIF` runs the lines before the
/// `ELSE` where its condition holds, and the lines after it where it does
/// not.
pub proof fn law_if_else(s: ExecData, e: int, steps: int, new: ExecData, r: Result<Result<(), String>, Fault>)
    requires
        if_outcome(s, steps, new, r),
        1 <= e < block_view(s.block_code@).len(),
        block_view(s.block_code@)[0].len() >= 3,
        block_view(s.block_code@)[0][2].1 is String,
        plain_between(block_view(s.block_code@), 0, e),
        is_alone(block_view(s.block_code@)[e], "ELSE"@),
        plain_lines(block_view(s.block_code@), e + 1),
        block_condition(block_view(s.block_code@)[0][2].1->String_0, block_view(s.block_code@)) is Some,
    ensures
        ({
            let b = block_view(s.block_code@);
            if block_condition(b[0][2].1->String_0, b)->Some_0 {
                runs_block(s, b.subrange(1, e), false, steps, new, r)
            } else {
                runs_block(s, b.subrange(e + 1, b.len() as int), false, steps, new, r)
            }
        }),
{
    lemma_else_scan(block_view(s.block_code@), s.global_variables@, 0, e);
}

/// A `WHILE` block whose condition does not hold, with the current values of
/// its variables, runs nothing and changes nothing.
pub proof fn law_while_stops(
    s: ExecData,
    op: Seq<char>,
    err: Seq<char>,
    rounds: int,
    steps: int,
    new: ExecData,
    r: Result<Result<(), String>, Fault>,
)
    requires
        while_rounds(s, op, err, rounds, steps, new, r),
        rounds > 0,
        while_update(block_view(s.block_code@), s.global_variables@, err) is Updated,
        block_condition(op, while_update(block_view(s.block_code@), s.global_variables@, err)->Updated_0)
            == Some(false),
    ensures
        r == Ok::<Result<(), String>, Fault>(Ok(())),
        new == s,
{
}

/// Pushing a value onto an array and popping it again gives the variables
/// back.
pub proof fn law_push_pop(
    s0: ExecData,
    push: Seq<(Seq<char>, ValueV)>,
    s1: ExecData,
    r1: Result<Result<(), String>, Fault>,
    pop: Seq<(Seq<char>, ValueV)>,
    s2: ExecData,
    r2: Result<Result<(), String>, Fault>,
    steps: int,
)
    requires
        statement_outcome(s0, push, steps, s1, r1),
        statement_outcome(s1, pop, steps, s2, r2),
        starts_with(push, "PUSH"@),
        push.len() == 4,
        push[0].0 == "PREDEFINED_NAME"@,
        order_check(push) is Ok,
        push[1].0 != "VARIABLE/FUNCTION_NAME"@,
        element_of(push[1].1) is Some,
        push[3].1 is String,
        s0.global_variables@.contains_key(push[3].1->String_0),
        s0.global_variables@[push[3].1->String_0] is Array,
        starts_with(pop, "POP"@),
        pop.len() == 3,
        pop[0].0 == "PREDEFINED_NAME"@,
        order_check(pop) is Ok,
        pop[2].1 == push[3].1,
    ensures
        r1 == Ok::<Result<(), String>, Fault>(Ok(())),
        r2 == Ok::<Result<(), String>, Fault>(Ok(())),
        s2.global_variables@ == s0.global_variables@,
{
    lemma_words();
    let g = s0.global_variables@;
    let name = push[3].1->String_0;
    assert(values_substituted(push, g) == Some(Ok::<Seq<(Seq<char>, ValueV)>, Seq<char>>(push)));
    assert(values_substituted(pop, s1.global_variables@) == Some(
        Ok::<Seq<(Seq<char>, ValueV)>, Seq<char>>(pop),
    ));
    let a = g[name]->Array_0;
    let x = element_of(push[1].1).unwrap();
    assert(s1.global_variables@ == g.insert(name, ValueV::Array(a.push(x))));
    assert(a.push(x).drop_last() =~= a);
    assert(s2.global_variables@ =~= g);
}

/// `DO` of a defined function runs the lines recorded after its `FN` line,
/// in order, as `runs_block` says.
pub proof fn law_do_runs_body(
    old: ExecData,
    l: Seq<(Seq<char>, ValueV)>,
    steps: int,
    new: ExecData,
    r: Result<Result<(), String>, Fault>,
)
    requires
        statement_outcome(old, l, steps, new, r),
        starts_with(l, "DO"@),
        l.len() == 2,
        l[0].0 == "PREDEFINED_NAME"@,
        order_check(l) is Ok,
        l[1].1 is String,
        old.functions@.contains_key(l[1].1->String_0),
        old.functions@[l[1].1->String_0].len() > 0,
    ensures
        runs_block(old, old.functions@[l[1].1->String_0].drop_first(), false, steps, new, r),
{
    lemma_words();
    assert(values_substituted(l, old.global_variables@) == Some(Ok::<Seq<(Seq<char>, ValueV)>, Seq<char>>(l)));
}

/// The classes of the tokens that statements are made of.
pub open spec fn statement_class(c: Seq<char>) -> bool {
    c == "PREDEFINED_NAME"@ || c == "VARIABLE/FUNCTION_NAME"@ || c == "STRING"@ || c == "INTEGER"@ || c
        == "FLOAT"@
}

/// A line of statement tokens is neither a syntax error nor a comment.
proof fn lemma_plain_line(l: Seq<(Seq<char>, ValueV)>)
    requires
        forall|i: int| 0 <= i < l.len() ==> statement_class(#[trigger] l[i].0),
    ensures
        is_plain(l),
{
    reveal_strlit("PREDEFINED_NAME");
    reveal_strlit("VARIABLE/FUNCTION_NAME");
    reveal_strlit("STRING");
    reveal_strlit("INTEGER");
    reveal_strlit("FLOAT");
    reveal_strlit("ERROR_MESSAGE");
    reveal_strlit("COMMENT");
    lemma_value_of_key(l, "ERROR_MESSAGE"@);
    lemma_value_of_key(l, "COMMENT"@);
    assert forall|i: int| 0 <= i < l.len() implies l[i].0 != "ERROR_MESSAGE"@ && l[i].0 != "COMMENT"@ by {
        assert(statement_class(l[i].0));
        assert("ERROR_MESSAGE"@.len() == 13);
        assert("COMMENT"@.len() == 7);
        assert("INTEGER"@[0] != "COMMENT"@[0]);
    }
}

/// At the top level, a line of more than one statement token and without
/// verines does what its statement does.
proof fn lemma_top_statement(
    old: ExecData,
    l: Seq<(Seq<char>, ValueV)>,
    steps: int,
    new: ExecData,
    r: Result<Result<(), String>, Fault>,
)
    requires
        exec_outcome(old, l, false, steps, new, r),
        old.indentation@.len() == 0,
        forall|i: int| 0 <= i < l.len() ==> statement_class(#[trigger] l[i].0),
        no_verines(l),
        l.len() > 1,
        l[0].1 is String,
    ensures
        statement_outcome(old, l, steps, new, r),
{
    lemma_plain_line(l);
    lemma_no_verines_evaluate(l, old.global_variables@, 0);
}

/// The line `DO f`.
pub open spec fn do_line(f: Seq<char>) -> Seq<(Seq<char>, ValueV)> {
    seq![("PREDEFINED_NAME"@, ValueV::String("DO"@)), ("VARIABLE/FUNCTION_NAME"@, ValueV::String(f))]
}

/// Executing `DO f` at the top level, where the function `f` is defined,
/// runs the lines recorded after its `FN` line one after the other, each as
/// executing that line does, from the state in which no block is being
/// read, until one of them does not succeed; the result is that of the
/// last line run.
pub proof fn law_do_line_runs_lines(
    old: ExecData,
    f: Seq<char>,
    steps: int,
    new: ExecData,
    r: Result<Result<(), String>, Fault>,
)
    requires
        exec_outcome(old, do_line(f), false, steps, new, r),
        old.indentation@.len() == 0,
        old.functions@.contains_key(f),
        old.functions@[f].len() > 0,
    ensures
        runs_block(old, old.functions@[f].drop_first(), false, steps, new, r),
{
    let l = do_line(f);
    lemma_words();
    reveal_strlit("PREDEFINED_NAME");
    reveal_strlit("VARIABLE/FUNCTION_NAME");
    lemma_top_statement(old, l, steps, new, r);
    reveal_with_fuel(single_failure, 3);
    assert(order_check(l) is Ok);
    law_do_runs_body(old, l, steps, new, r);
}

/// The line `PUSH v ONTO name`, with `v` a token.
pub open spec fn push_line(v: (Seq<char>, ValueV), name: Seq<char>) -> Seq<(Seq<char>, ValueV)> {
    seq![
        ("PREDEFINED_NAME"@, ValueV::String("PUSH"@)),
        v,
        ("PREDEFINED_NAME"@, ValueV::String("ONTO"@)),
        ("VARIABLE/FUNCTION_NAME"@, ValueV::String(name)),
    ]
}

/// The line `POP FROM name`.
pub open spec fn pop_line(name: Seq<char>) -> Seq<(Seq<char>, ValueV)> {
    seq![
        ("PREDEFINED_NAME"@, ValueV::String("POP"@)),
        ("PREDEFINED_NAME"@, ValueV::String("FROM"@)),
        ("VARIABLE/FUNCTION_NAME"@, ValueV::String(name)),
    ]
}

/// `PUSH v ONTO name` with a string, integer or float literal `v` is in
/// one of the orders of `PUSH`.
proof fn lemma_push_order(v: (Seq<char>, ValueV), name: Seq<char>)
    requires
        scalar_token(v),
    ensures
        order_check(push_line(v, name)) is Ok,
        statement_class(v.0),
        v.0 != "VARIABLE/FUNCTION_NAME"@,
{
    reveal_strlit("ELIF");
    let push = push_line(v, name);
    lemma_words();
    lemma_branch_words();
    reveal_strlit("PREDEFINED_NAME");
    reveal_strlit("VARIABLE/FUNCTION_NAME");
    reveal_strlit("STRING");
    reveal_strlit("INTEGER");
    reveal_strlit("FLOAT");
    reveal_strlit("ONTO");
    reveal_strlit("?");
    let ps = product1(seq![name_token("PUSH"), any_of("STRING"@), name_token("ONTO"), variable()], 1, value_kinds());
    assert(push[0].1->String_0 == "PUSH"@);
    assert(name_order("PUSH"@) == Some(OrderV::Multiple(ps)));
    let o: int = if v.0 == "STRING"@ {
        0
    } else if v.0 == "INTEGER"@ {
        1
    } else {
        2
    };
    assert(ps[o][1].0 == v.0);
    assert(keys_fit(push, ps[o]));
    assert(values_fit(push, ps[o]));
    assert forall|k: int| 0 <= k < ps.len() implies (#[trigger] ps[k]).len() == 4 by {}
    assert(!shorter_than_some(push.len(), ps));
    assert(!longer_than_some(push.len(), ps));
}

/// `POP FROM name` is in the order of `POP`.
proof fn lemma_pop_order(name: Seq<char>)
    ensures
        order_check(pop_line(name)) is Ok,
{
    reveal_strlit("ELIF");
    let pop = pop_line(name);
    lemma_words();
    lemma_branch_words();
    reveal_strlit("PREDEFINED_NAME");
    reveal_strlit("VARIABLE/FUNCTION_NAME");
    reveal_strlit("FROM");
    reveal_strlit("?");
    reveal_with_fuel(single_failure, 4);
    assert(name_order("POP"@) == Some(OrderV::Single(seq![name_token("POP"), name_token("FROM"), variable()])));
}

/// The line `SET v AT i TO x`, with a variable `i` as the index.
pub open spec fn set_line_at_variable(v: Seq<char>, i: Seq<char>, x: (Seq<char>, ValueV)) -> Seq<
    (Seq<char>, ValueV),
> {
    seq![
        ("PREDEFINED_NAME"@, ValueV::String("SET"@)),
        ("VARIABLE/FUNCTION_NAME"@, ValueV::String(v)),
        ("PREDEFINED_NAME"@, ValueV::String("AT"@)),
        ("VARIABLE/FUNCTION_NAME"@, ValueV::String(i)),
        ("PREDEFINED_NAME"@, ValueV::String("TO"@)),
        x,
    ]
}

/// The line `INSERT x INTO v AT i`, with a variable `i` as the index.
pub open spec fn insert_line_at_variable(x: (Seq<char>, ValueV), v: Seq<char>, i: Seq<char>) -> Seq<
    (Seq<char>, ValueV),
> {
    seq![
        ("PREDEFINED_NAME"@, ValueV::String("INSERT"@)),
        x,
        ("PREDEFINED_NAME"@, ValueV::String("INTO"@)),
        ("VARIABLE/FUNCTION_NAME"@, ValueV::String(v)),
        ("PREDEFINED_NAME"@, ValueV::String("AT"@)),
        ("VARIABLE/FUNCTION_NAME"@, ValueV::String(i)),
    ]
}

/// A variable may stand as the index of `SET` and of `INSERT`: with a value
/// `x` that is a literal, a variable or a verine, the lines
/// `SET v AT i TO x` and `INSERT x INTO v AT i` are in the order of their
/// statement.
pub proof fn law_variable_index_order(v: Seq<char>, i: Seq<char>, x: (Seq<char>, ValueV))
    requires
        value_kinds().contains(x.0),
    ensures
        order_check(set_line_at_variable(v, i, x)) is Ok,
        order_check(insert_line_at_variable(x, v, i)) is Ok,
{
    reveal_strlit("ELIF");
    lemma_words();
    lemma_branch_words();
    reveal_strlit("PREDEFINED_NAME");
    reveal_strlit("VARIABLE/FUNCTION_NAME");
    reveal_strlit("STRING");
    reveal_strlit("INTEGER");
    reveal_strlit("FLOAT");
    reveal_strlit("VERINE");
    reveal_strlit("AT");
    reveal_strlit("TO");
    reveal_strlit("INTO");
    reveal_strlit("?");
    let kv = value_kinds();
    let ki = index_kinds();
    assert(kv.len() == 5);
    assert(ki.len() == 3);
    let j = choose|j: int| 0 <= j < kv.len() && kv[j] == x.0;
    let set = set_line_at_variable(v, i, x);
    let ts = seq![
        name_token("SET"),
        variable(),
        name_token("AT"),
        any_of("INTEGER"@),
        name_token("TO"),
        any_of("STRING"@),
    ];
    let ps = product2(ts, 3, ki, 5, kv);
    assert(name_order("SET"@) == Some(OrderV::Multiple(ps)));
    assert(ps.len() == 15);
    let o = 5 + j;
    assert(o / 5 == 1 && o % 5 == j);
    assert(ps[o] == with_class(with_class(ts, 3, ki[1]), 5, kv[j]));
    assert(keys_fit(set, ps[o]));
    assert(values_fit(set, ps[o]));
    assert forall|k: int| 0 <= k < ps.len() implies (#[trigger] ps[k]).len() == 6 by {}
    assert(!shorter_than_some(set.len(), ps));
    assert(!longer_than_some(set.len(), ps));
    let ins = insert_line_at_variable(x, v, i);
    let ti = seq![
        name_token("INSERT"),
        any_of("STRING"@),
        name_token("INTO"),
        variable(),
        name_token("AT"),
        any_of("INTEGER"@),
    ];
    let qs = product2(ti, 1, kv, 5, ki);
    assert(name_order("INSERT"@) == Some(OrderV::Multiple(qs)));
    assert(qs.len() == 15);
    let p = j * 3 + 1;
    assert(p / 3 == j && p % 3 == 1);
    assert(qs[p] == with_class(with_class(ti, 1, kv[j]), 5, ki[1]));
    assert(keys_fit(ins, qs[p]));
    assert(values_fit(ins, qs[p]));
    assert forall|k: int| 0 <= k < qs.len() implies (#[trigger] qs[k]).len() == 6 by {}
    assert(!shorter_than_some(ins.len(), qs));
    assert(!longer_than_some(ins.len(), qs));
}

/// At the top level, `PUSH v ONTO name` with a string, integer or float
/// literal `v` and an array `name` appends `v` to the array, and a
/// following `POP FROM name` gives all the variables back as they were.
pub proof fn law_push_pop_lines(
    s0: ExecData,
    v: (Seq<char>, ValueV),
    name: Seq<char>,
    s1: ExecData,
    r1: Result<Result<(), String>, Fault>,
    s2: ExecData,
    r2: Result<Result<(), String>, Fault>,
    steps: int,
)
    requires
        exec_outcome(s0, push_line(v, name), false, steps, s1, r1),
        exec_outcome(s1, pop_line(name), false, steps, s2, r2),
        s0.indentation@.len() == 0,
        scalar_token(v),
        s0.global_variables@.contains_key(name),
        s0.global_variables@[name] is Array,
    ensures
        r1 == Ok::<Result<(), String>, Fault>(Ok(())),
        s1.global_variables@ == s0.global_variables@.insert(
            name,
            ValueV::Array(s0.global_variables@[name]->Array_0.push(element_of(v.1).unwrap())),
        ),
        r2 == Ok::<Result<(), String>, Fault>(Ok(())),
        s2.global_variables@ == s0.global_variables@,
{
    let push = push_line(v, name);
    let pop = pop_line(name);
    lemma_words();
    lemma_top_statement(s0, push, steps, s1, r1);
    lemma_push_order(v, name);
    let g = s0.global_variables@;
    assert(values_substituted(push, g) == Some(Ok::<Seq<(Seq<char>, ValueV)>, Seq<char>>(push)));
    assert(s1.indentation == s0.indentation);
    lemma_top_statement(s1, pop, steps, s2, r2);
    lemma_pop_order(name);
    law_push_pop(s0, push, s1, r1, pop, s2, r2, steps);
}

/// The line `END`.
pub open spec fn end_line() -> Seq<(Seq<char>, ValueV)> {
    seq![("PREDEFINED_NAME"@, ValueV::String("END"@))]
}

/// The lines that an `IF` block `b` with its one `ELSE` at `e` runs: those
/// before the `ELSE` where its condition holds, those after it where not.
pub open spec fn if_else_branch(b: Seq<Seq<(Seq<char>, ValueV)>>, e: int) -> Seq<Seq<(Seq<char>, ValueV)>> {
    if block_condition(b[0][2].1->String_0, b)->Some_0 {
        b.subrange(1, e)
    } else {
        b.subrange(e + 1, b.len() as int)
    }
}

/// The `END` that closes an `IF` block with one `ELSE` and no `ELIF`, read
/// one level below the top, leaves that level and runs the lines of the
/// branch that the condition picks, each as executing that line does, from
/// the state in which no block is being read, until one does not succeed:
/// the result is that of the last line run.
pub proof fn law_end_runs_if_else(s: ExecData, e: int, steps: int, new: ExecData, r: Result<Result<(), String>, Fault>)
    requires
        exec_outcome(s, end_line(), false, steps, new, r),
        s.indentation@ == one_level(),
        s.current_block_type.0@ == "normal"@,
        starts_with(block_view(s.block_code@)[0], "IF"@),
        1 <= e < block_view(s.block_code@).len(),
        block_view(s.block_code@)[0].len() >= 3,
        block_view(s.block_code@)[0][2].1 is String,
        plain_between(block_view(s.block_code@), 0, e),
        is_alone(block_view(s.block_code@)[e], "ELSE"@),
        plain_lines(block_view(s.block_code@), e + 1),
        block_condition(block_view(s.block_code@)[0][2].1->String_0, block_view(s.block_code@)) is Some,
    ensures
        exists|closed: ExecData, mid: ExecData, r1: Result<Result<(), String>, Fault>|
            #![trigger level_closed(s, closed), reached(mid, r1)]
            level_closed(s, closed) && runs_block(
                closed,
                if_else_branch(block_view(s.block_code@), e),
                false,
                steps,
                mid,
                r1,
            ) && if r1 matches Ok(Ok(_)) {
                r == Ok::<Result<(), String>, Fault>(Ok(())) && block_type_cleared(mid, new)
            } else {
                r == r1 && new == mid
            },
{
    let l = end_line();
    lemma_words();
    reveal_strlit("PREDEFINED_NAME");
    assert(statement_class(l[0].0));
    lemma_plain_line(l);
    assert(in_block_outcome(s, l, steps, new, r));
    assert(s.current_block_type.0@ != "function"@);
    let (closed, mid, r1) = choose|closed: ExecData, mid: ExecData, r1: Result<Result<(), String>, Fault>|
        #![trigger level_closed(s, closed), reached(mid, r1)]
        reached(mid, r1) && level_closed(s, closed) && block_outcome(closed, steps, mid, r1) && if r1 matches Ok(
            Ok(_),
        ) {
            r == Ok::<Result<(), String>, Fault>(Ok(())) && block_type_cleared(mid, new)
        } else {
            r == r1 && new == mid
        };
    assert(block_view(closed.block_code@) == block_view(s.block_code@));
    assert(if_outcome(closed, steps, mid, r1));
    law_if_else(closed, e, steps, mid, r1);
    assert(reached(mid, r1));
}

/// Comparing with the operands swapped: `==` and `!=` give the same, `<`
/// gives what `>` gives the other way round, and `<=` what `>=` gives.
pub proof fn law_comparisons_swap(a: ValueV, b: ValueV)
    requires
        (a is String && b is String) || (a is Integer && b is Integer) || (a is Float && b is Float),
    ensures
        compare_values("=="@, a, b) == compare_values("=="@, b, a),
        compare_values("!="@, a, b) == compare_values("!="@, b, a),
        compare_values("<"@, a, b) == compare_values(">"@, b, a),
        compare_values("<="@, a, b) == compare_values(">="@, b, a),
{
    lemma_comparing_words();
    match (a, b) {
        (ValueV::String(x), ValueV::String(y)) => {
            lemma_text_trichotomy(x, y);
        },
        (ValueV::Float(x), ValueV::Float(y)) => {
            lemma_f32_order_dual();
            assert((f32_host().compare)(x, y) == reversed((f32_host().compare)(y, x)));
        },
        _ => {},
    }
}

/// What a line `l` inside a block does, from the state `old` to the state
/// `new` with the result `r`, with `steps` steps left: `FN` is refused; the
/// `END` that closes a function ends its definition; the `END` that closes
/// the outermost block runs it as `block_outcome` says and, where that
/// succeeds, no block is read any more; any other line is recorded, and `IF`
/// and `WHILE` open one more level and an inner `END` closes one.
pub open spec fn in_block_outcome(
    old: ExecData,
    l: Seq<(Seq<char>, ValueV)>,
    steps: int,
    new: ExecData,
    r: Result<Result<(), String>, Fault>,
) -> bool
    decreases steps, 3int, 0int,
{
    if starts_with(l, "FN"@) {
        &&& r matches Ok(Err(e))
        &&& e@ == "EXECUTION ERROR: FUNCTIONS CAN'T BE INSIDE OF OTHER CODE BLOCKS!"@
        &&& new == old
    } else if is_alone(l, "END"@) && old.indentation@ == one_level()
        && old.current_block_type.0@ == "function"@ {
        &&& r == Ok::<Result<(), String>, Fault>(Ok(()))
        &&& new.indentation@ == Seq::<char>::empty()
        &&& new.current_block_type.0@ == Seq::<char>::empty()
        &&& new.current_block_type.1@ == Seq::<char>::empty()
        &&& new.global_variables@ == old.global_variables@
        &&& new.functions@ == old.functions@
        &&& block_view(new.block_code@) == block_view(old.block_code@)
        &&& new.printed == old.printed
    } else if is_alone(l, "END"@) && old.indentation@ == one_level() && old.current_block_type.0@ == "normal"@ {
        exists|closed: ExecData, mid: ExecData, r1: Result<Result<(), String>, Fault>|
            #![trigger level_closed(old, closed), reached(mid, r1)]
            reached(mid, r1) && level_closed(old, closed) && block_outcome(closed, steps, mid, r1) && if r1 matches Ok(Ok(_)) {
                r == Ok::<Result<(), String>, Fault>(Ok(())) && block_type_cleared(mid, new)
            } else {
                r == r1 && new == mid
            }
    } else if l.len() > 0 && l[0].1 is String && recording_possible(old) && (is_alone(l, "END"@)
        ==> (char_at_byte(old.indentation@, 4) matches Some(k) && k < old.indentation@.len())) {
        &&& r == Ok::<Result<(), String>, Fault>(Ok(()))
        &&& records(old, new, l)
        &&& new.indentation@ == if starts_with(l, "IF"@) || starts_with(l, "WHILE"@) {
            old.indentation@ + one_level()
        } else if is_alone(l, "END"@) {
            old.indentation@.skip(char_at_byte(old.indentation@, 4).unwrap())
        } else {
            old.indentation@
        }
    } else {
        true
    }
}

/// The words that tell statements and blocks apart are distinct.
pub proof fn lemma_words()
    ensures
        "IF"@.len() == 2 && "IF"@[0] == 'I',
        "FN"@.len() == 2 && "FN"@[0] == 'F',
        "DO"@.len() == 2 && "DO"@[0] == 'D',
        "END"@.len() == 3 && "END"@[0] == 'E',
        "LET"@.len() == 3 && "LET"@[0] == 'L',
        "SET"@.len() == 3 && "SET"@[0] == 'S',
        "POP"@.len() == 3 && "POP"@[0] == 'P',
        "STOP"@.len() == 4 && "STOP"@[0] == 'S',
        "PUSH"@.len() == 4 && "PUSH"@[0] == 'P',
        "WHILE"@.len() == 5 && "WHILE"@[0] == 'W',
        "RESET"@.len() == 5 && "RESET"@[0] == 'R',
        "PRINT"@.len() == 5 && "PRINT"@[0] == 'P',
        "INSERT"@.len() == 6 && "INSERT"@[0] == 'I',
        "REMOVE"@.len() == 6 && "REMOVE"@[0] == 'R',
        "HELP_FOR"@.len() == 8 && "HELP_FOR"@[0] == 'H',
        "normal"@.len() == 6 && "normal"@[0] == 'n',
        "function"@.len() == 8 && "function"@[0] == 'f',
{
    reveal_strlit("IF");
    reveal_strlit("FN");
    reveal_strlit("DO");
    reveal_strlit("END");
    reveal_strlit("LET");
    reveal_strlit("SET");
    reveal_strlit("POP");
    reveal_strlit("STOP");
    reveal_strlit("PUSH");
    reveal_strlit("WHILE");
    reveal_strlit("RESET");
    reveal_strlit("PRINT");
    reveal_strlit("INSERT");
    reveal_strlit("REMOVE");
    reveal_strlit("HELP_FOR");
    reveal_strlit("normal");
    reveal_strlit("function");
}

/// The line `l` with the variable at position `p` replaced by its value,
/// which has to be of an allowed kind (`msg` where it is not); `None` where
/// no rule applies (no such position, a name that is no string, a stored
/// verine where arrays are allowed).
pub open spec fn substituted_at(
    l: Seq<(Seq<char>, ValueV)>,
    g: Map<Seq<char>, ValueV>,
    p: int,
    strings: bool,
    integers: bool,
    floats: bool,
    arrays: bool,
    msg: Seq<char>,
) -> Option<Result<Seq<(Seq<char>, ValueV)>, Seq<char>>> {
    if p < 0 || p >= l.len() {
        None
    } else if l[p].0 != "VARIABLE/FUNCTION_NAME"@ {
        Some(Ok(l))
    } else if !(l[p].1 is String) {
        None
    } else {
        let name = l[p].1->String_0;
        if !g.contains_key(name) {
            Some(Err(no_variable_message(name)))
        } else if allowed(g[name], strings, integers, floats, arrays) {
            Some(Ok(l.update(p, (kind_of(g[name]), g[name]))))
        } else if arrays && g[name] is Verine {
            None
        } else {
            Some(Err(msg))
        }
    }
}

/// After the substitution `prev`, the one at position `p`.
pub open spec fn then_at(
    prev: Option<Result<Seq<(Seq<char>, ValueV)>, Seq<char>>>,
    g: Map<Seq<char>, ValueV>,
    p: int,
    strings: bool,
    integers: bool,
    floats: bool,
    msg: Seq<char>,
) -> Option<Result<Seq<(Seq<char>, ValueV)>, Seq<char>>> {
    match prev {
        Some(Ok(l1)) => substituted_at(l1, g, p, strings, integers, floats, false, msg),
        other => other,
    }
}

/// The statement `l` with the variables whose values it takes replaced by
/// their values: the value of `LET` (any value), of `PRINT`, the operands of
/// `IF`, the value of `PUSH` and `INSERT` (a string, an integer or a float),
/// the index of `INSERT` and `SET` (an integer), and the value of `SET`.
pub open spec fn values_substituted(l: Seq<(Seq<char>, ValueV)>, g: Map<Seq<char>, ValueV>) -> Option<
    Result<Seq<(Seq<char>, ValueV)>, Seq<char>>,
> {
    let first = "EXECUTION ERROR: FIRST VARIABLE HAS TO BE A STRING, INTEGER OR FLOAT!"@;
    if starts_with(l, "LET"@) {
        substituted_at(l, g, 3, true, true, true, true, Seq::empty())
    } else if starts_with(l, "PRINT"@) {
        substituted_at(l, g, 1, true, true, true, false, "EXECUTION ERROR: CAN'T PRINT THIS VARIABLE!"@)
    } else if starts_with(l, "IF"@) {
        then_at(
            substituted_at(l, g, 1, true, true, true, false, first),
            g,
            3,
            true,
            true,
            true,
            "EXECUTION ERROR: SECOND VARIABLE HAS TO BE A STRING, INTEGER OR FLOAT!"@,
        )
    } else if starts_with(l, "PUSH"@) {
        substituted_at(l, g, 1, true, true, true, false, first)
    } else if starts_with(l, "INSERT"@) {
        then_at(
            substituted_at(l, g, 1, true, true, true, false, first),
            g,
            5,
            false,
            true,
            false,
            "EXECUTION ERROR: THIRD VARIABLE HAS TO BE AN INTEGER!"@,
        )
    } else if starts_with(l, "SET"@) {
        then_at(
            substituted_at(l, g, 3, false, true, false, false, "EXECUTION ERROR: SECOND VARIABLE HAS TO BE AN INTEGER!"@),
            g,
            5,
            true,
            true,
            true,
            "EXECUTION ERROR: THIRD VARIABLE HAS TO BE A STRING, INTEGER OR FLOAT!"@,
        )
    } else {
        Some(Ok(l))
    }
}

/// The message for help on a word that starts no statement.
pub open spec fn no_help(keyword: Seq<char>) -> Seq<char> {
    "EXECUTION ERROR: CAN'T PRINT HELP FOR "@ + keyword
        + " BECAUSE IT'S NOT A PREDEFINED NAME WHICH IS AT THE BEGINNING OF A LINE!"@
}

/// What a statement `l` does at the top level, from `old` to `new` with the
/// result `r`: a line must start with a predefined name and follow the
/// order of its statement; then the statement takes effect.
pub open spec fn statement_outcome(
    old: ExecData,
    l: Seq<(Seq<char>, ValueV)>,
    steps: int,
    new: ExecData,
    r: Result<Result<(), String>, Fault>,
) -> bool
    decreases steps, 2int, 0int,
{
    if l.len() == 0 {
        halted(old, new, r)
    } else if l[0].0 != "PREDEFINED_NAME"@ {
        &&& r matches Ok(Err(e))
        &&& e@
            == "EXECUTION ERROR: EVERY LINE HAS TO START WITH A PREDEFINED NAME (EXCEPT FOR COMMENT-LINES) !"@
        &&& new == old
    } else if !(l[0].1 is String) {
        halted(old, new, r)
    } else {
        match order_check(l) {
            Err(m) => (r matches Ok(Err(e)) && e@ == m) && new == old,
            Ok(()) => match values_substituted(l, old.global_variables@) {
                None => true,
                Some(Err(m)) => (r matches Ok(Err(e)) && e@ == m) && new == old,
                Some(Ok(l2)) => statement_effect(old, l2, steps, new, r),
            },
        }
    }
}

/// The array element that a value is, if it is a string, an integer or a
/// float.
pub open spec fn element_of(v: ValueV) -> Option<ElementV> {
    match v {
        ValueV::String(s) => Some(ElementV::String(s)),
        ValueV::Integer(i) => Some(ElementV::Integer(i)),
        ValueV::Float(f) => Some(ElementV::Float(f)),
        _ => None,
    }
}

/// The text that `PRINT` writes for a value: a string as it is, an integer
/// in decimal, a float as `Debug` writes its `f32` value.
pub open spec fn print_text(v: ValueV) -> Option<Seq<char>> {
    match v {
        ValueV::String(s) => Some(s),
        ValueV::Integer(i) => Some(int_text(i as int)),
        ValueV::Float(f) => Some((f32_host().debug)(f)),
        _ => None,
    }
}

/// `new` is `old` with the lines `lines` printed.
pub open spec fn prints(old: ExecData, new: ExecData, lines: Seq<Seq<char>>) -> bool {
    &&& strings_view(new.printed@) == strings_view(old.printed@) + lines
    &&& new.global_variables == old.global_variables
    &&& new.indentation == old.indentation
    &&& new.block_code == old.block_code
    &&& new.functions == old.functions
    &&& new.current_block_type == old.current_block_type
}

/// The lines that `HELP_FOR` prints for the orders `o` of a statement.
pub open spec fn help_lines(o: OrderV) -> Seq<Seq<char>> {
    match o {
        OrderV::Single(p) => seq!["-SINGLE OPTION-"@, "1: '"@ + order_line(p) + "'"@],
        OrderV::Multiple(ps) => seq!["-MULTIPLE OPTIONS-"@] + option_lines(ps, ps.len() as int),
    }
}

/// The numbered lines of the first `k` options `ps`.
pub open spec fn option_lines(ps: Seq<Seq<(Seq<char>, Seq<char>)>>, k: int) -> Seq<Seq<char>> {
    Seq::new(
        k as nat,
        |j: int|
            int_text(j + 1) + ": '"@ + order_line(ps[j]) + "'"@,
    )
}

/// `new` differs from `old` in the global variables at most.
pub open spec fn only_variables_change(old: ExecData, new: ExecData) -> bool {
    &&& new.indentation == old.indentation
    &&& new.block_code == old.block_code
    &&& new.functions == old.functions
    &&& new.current_block_type == old.current_block_type
    &&& new.printed == old.printed
}

/// The effect of a statement `l` whose order is right and whose variables
/// have their values: `LET` binds a value, `PRINT` changes no state, `FN`
/// starts the definition of a function, `DO` runs the lines of a function
/// after its `FN` line (and fails for an unknown function), `IF` and `WHILE`
/// open a block, `POP`, `PUSH`, `INSERT`, `REMOVE` and `SET` change an
/// array, and `HELP_FOR` changes no state (and fails for a word that starts
/// no statement).
pub open spec fn statement_effect(
    old: ExecData,
    l: Seq<(Seq<char>, ValueV)>,
    steps: int,
    new: ExecData,
    r: Result<Result<(), String>, Fault>,
) -> bool
    decreases steps, 1int, 0int,
{
    let g = old.global_variables@;
    let ok = r == Ok::<Result<(), String>, Fault>(Ok(()));
    if starts_with(l, "LET"@) && l.len() == 4 && l[1].1 is String {
        ok && only_variables_change(old, new) && new.global_variables@ == g.insert(l[1].1->String_0, l[3].1)
    } else if starts_with(l, "PRINT"@) && l.len() == 2 && (l[1].1 is String || l[1].1 is Integer
        || l[1].1 is Float) {
        &&& ok
        &&& prints(old, new, seq![print_text(l[1].1).unwrap()])
    } else if starts_with(l, "FN"@) && l.len() == 3 && l[1].1 is String {
        let name = l[1].1->String_0;
        &&& ok
        &&& new.functions@ == old.functions@.insert(name, seq![l])
        &&& new.current_block_type.0@ == "function"@
        &&& new.current_block_type.1@ == name
        &&& new.indentation@ == old.indentation@ + one_level()
        &&& new.global_variables@ == g
        &&& block_view(new.block_code@) == block_view(old.block_code@)
        &&& new.printed == old.printed
    } else if starts_with(l, "DO"@) && l.len() == 2 && l[1].1 is String {
        let name = l[1].1->String_0;
        if !old.functions@.contains_key(name) {
            &&& r matches Ok(Err(e))
            &&& e@ == "EXECUTION ERROR: THERE IS NO FUNCTION CALLED "@ + name + "!"@
            &&& new == old
        } else if old.functions@[name].len() == 0 {
            halted(old, new, r)
        } else {
            runs_block(old, old.functions@[name].drop_first(), false, steps, new, r)
        }
    } else if (starts_with(l, "IF"@) || starts_with(l, "WHILE"@)) && l.len() == 5 {
        &&& ok
        &&& block_view(new.block_code@) == block_view(old.block_code@).push(l)
        &&& new.current_block_type.0@ == "normal"@
        &&& new.current_block_type.1 == old.current_block_type.1
        &&& new.indentation@ == old.indentation@ + one_level()
        &&& new.global_variables@ == g
        &&& new.functions@ == old.functions@
        &&& new.printed == old.printed
    } else if starts_with(l, "POP"@) && l.len() == 3 && l[2].1 is String {
        let name = l[2].1->String_0;
        if !g.contains_key(name) {
            (r matches Ok(Err(e)) && e@ == no_variable_message(name)) && new == old
        } else {
            match g[name] {
                ValueV::Array(a) => ok && only_variables_change(old, new) && new.global_variables@
                    == g.insert(
                    name,
                    ValueV::Array(
                        if a.len() > 0 {
                            a.drop_last()
                        } else {
                            a
                        },
                    ),
                ),
                _ => (r matches Ok(Err(e)) && e@ == "EXECUTION  ERROR: YOU CAN ONLY POP FROM ARRAYS!"@)
                    && new == old,
            }
        }
    } else if starts_with(l, "PUSH"@) && l.len() == 4 && l[3].1 is String {
        let name = l[3].1->String_0;
        if !g.contains_key(name) {
            (r matches Ok(Err(e)) && e@ == no_variable_message(name)) && new == old
        } else {
            match g[name] {
                ValueV::Array(a) => match element_of(l[1].1) {
                    Some(x) => ok && only_variables_change(old, new) && new.global_variables@ == g.insert(
                        name,
                        ValueV::Array(a.push(x)),
                    ),
                    None => (r matches Ok(Err(e)) && e@
                        == "EXECUTION ERROR: YOU HAVE TO PUSH A STRING, INTEGER OR FLOAT ONTO AN ARRAY!"@)
                        && new == old,
                },
                _ => halted(old, new, r),
            }
        }
    } else if starts_with(l, "INSERT"@) && l.len() == 6 && l[3].1 is String && l[5].1 is Integer {
        let name = l[3].1->String_0;
        let i = l[5].1->Integer_0 as int;
        if !g.contains_key(name) {
            (r matches Ok(Err(e)) && e@ == no_variable_message(name)) && new == old
        } else {
            match g[name] {
                ValueV::Array(a) => if i < 0 || (i >= a.len() && i != 0) {
                    (r matches Ok(Err(e)) && e@ == "EXECUTION ERROR: INDEX IS OUT OF BOUNDS!"@) && new == old
                } else {
                    match element_of(l[1].1) {
                        Some(x) => ok && only_variables_change(old, new) && new.global_variables@
                            == g.insert(name, ValueV::Array(a.insert(i, x))),
                        None => (r matches Ok(Err(e)) && e@
                            == "EXECUTION ERROR: YOU HAVE TO INSERT A STRING, INTEGER OR FLOAT INTO AN ARRAY!"@)
                            && new == old,
                    }
                },
                _ => (r matches Ok(Err(e)) && e@ == "EXECUTION ERROR: YOU CAN ONLY INSERT INTO ARRAYS!"@)
                    && new == old,
            }
        }
    } else if starts_with(l, "REMOVE"@) && l.len() == 5 && l[2].1 is String && l[4].1 is Integer {
        let name = l[2].1->String_0;
        let i = l[4].1->Integer_0 as int;
        if !g.contains_key(name) {
            (r matches Ok(Err(e)) && e@ == no_variable_message(name)) && new == old
        } else {
            match g[name] {
                ValueV::Array(a) => if i < 0 || i >= a.len() {
                    (r matches Ok(Err(e)) && e@ == "EXECUTION ERROR: INDEX IS OUT OF BOUNDS!"@) && new == old
                } else {
                    ok && only_variables_change(old, new) && new.global_variables@ == g.insert(
                        name,
                        ValueV::Array(a.remove(i)),
                    )
                },
                _ => halted(old, new, r),
            }
        }
    } else if starts_with(l, "SET"@) && l.len() == 6 && l[1].1 is String && l[3].1 is Integer {
        let name = l[1].1->String_0;
        let i = l[3].1->Integer_0 as int;
        if !g.contains_key(name) {
            (r matches Ok(Err(e)) && e@ == no_variable_message(name)) && new == old
        } else {
            match g[name] {
                ValueV::Array(a) => if i < 0 || i >= a.len() {
                    (r matches Ok(Err(e)) && e@ == "EXECUTION ERROR: INDEX IS OUT OF BOUNDS!"@) && new == old
                } else {
                    match element_of(l[5].1) {
                        Some(x) => ok && only_variables_change(old, new) && new.global_variables@
                            == g.insert(name, ValueV::Array(a.update(i, x))),
                        None => halted(old, new, r),
                    }
                },
                _ => halted(old, new, r),
            }
        }
    } else if starts_with(l, "HELP_FOR"@) && l.len() == 2 && l[1].1 is String {
        match name_order(l[1].1->String_0) {
            None => (r matches Ok(Err(e)) && e@ == no_help(l[1].1->String_0)) && new == old,
            Some(o) => ok && prints(old, new, help_lines(o)),
        }
    } else {
        true
    }
}

/// After `LET name = value` with a literal value, `name` holds that value,
/// every other variable holds what it held, and nothing else changed.
pub proof fn law_let_binds(
    old: ExecData,
    l: Seq<(Seq<char>, ValueV)>,
    steps: int,
    new: ExecData,
    r: Result<Result<(), String>, Fault>,
)
    requires
        statement_outcome(old, l, steps, new, r),
        starts_with(l, "LET"@),
        l.len() == 4,
        l[0].0 == "PREDEFINED_NAME"@,
        order_check(l) is Ok,
        l[1].1 is String,
        l[3].0 != "VARIABLE/FUNCTION_NAME"@,
    ensures
        r == Ok::<Result<(), String>, Fault>(Ok(())),
        new.global_variables@.contains_key(l[1].1->String_0),
        new.global_variables@[l[1].1->String_0] == l[3].1,
        forall|k: Seq<char>|
            k != l[1].1->String_0 ==> (new.global_variables@.contains_key(k)
                == old.global_variables@.contains_key(k) && new.global_variables@[k]
                == old.global_variables@[k]),
        only_variables_change(old, new),
{
}

/// After `LET name = source` where `source` is a variable, `name` holds what
/// `source` held; where `source` does not exist, nothing changes.
pub proof fn law_let_copies(
    old: ExecData,
    l: Seq<(Seq<char>, ValueV)>,
    steps: int,
    new: ExecData,
    r: Result<Result<(), String>, Fault>,
)
    requires
        statement_outcome(old, l, steps, new, r),
        starts_with(l, "LET"@),
        l.len() == 4,
        l[0].0 == "PREDEFINED_NAME"@,
        order_check(l) is Ok,
        l[1].1 is String,
        l[3].0 == "VARIABLE/FUNCTION_NAME"@,
        l[3].1 is String,
        !(old.global_variables@.contains_key(l[3].1->String_0) && old.global_variables@[l[3].1->String_0] is Verine),
    ensures
        old.global_variables@.contains_key(l[3].1->String_0) ==> r == Ok::<Result<(), String>, Fault>(Ok(()))
            && new.global_variables@[l[1].1->String_0] == old.global_variables@[l[3].1->String_0],
        !old.global_variables@.contains_key(l[3].1->String_0) ==> (r matches Ok(Err(e)) && e@
            == no_variable_message(l[3].1->String_0)) && new == old,
{
}

// ---------------------------------------------------------------------------
// The interpreter's state and the execution of a line
// ---------------------------------------------------------------------------

/// The state of the interpreter between lines.
pub struct ExecData {
    /// The global variables.
    pub global_variables: Variables,
    /// Four spaces per open block.
    pub indentation: String,
    /// The lines of the open `IF` or `WHILE` block (the first is its head).
    pub block_code: Vec<Vec<(String, ValueEnum)>>,
    /// The functions (their first line is the `FN` line).
    pub functions: Functions,
    /// The kind of the open block (`normal` or `function`) and the name of
    /// the function being defined.
    pub current_block_type: (String, String),
    /// The lines the program has printed, in order.
    pub printed: Vec<String>,
}

impl ExecData {
    /// An interpreter with no variable, no function and no open block.
    pub fn new() -> (r: Self)
        ensures
            r.global_variables@ == Map::<Seq<char>, ValueV>::empty(),
            r.indentation@ == Seq::<char>::empty(),
            r.block_code@.len() == 0,
            r.functions@ == Map::<Seq<char>, Seq<Seq<(Seq<char>, ValueV)>>>::empty(),
            r.current_block_type.0@ == Seq::<char>::empty(),
            r.current_block_type.1@ == Seq::<char>::empty(),
            r.printed@.len() == 0,
    {
        Self {
            global_variables: Variables::new(),
            indentation: String::new(),
            block_code: Vec::new(),
            functions: Functions::new(),
            current_block_type: (String::new(), String::new()),
            printed: Vec::new(),
        }
    }

    /// Executes the lines of a block, in order, until one fails; the lines
    /// of the block that was being read are dropped first. `steps` bounds the
    /// loop rounds and nested calls that the lines may make.
    pub fn execute_block_code<R: Runtime>(
        &mut self,
        block_code: Vec<Vec<(String, ValueEnum)>>,
        called_from_block: bool,
        rt: &mut R,
        steps: u64,
    ) -> (r: Result<Result<(), String>, Fault>)
        ensures
            keeps_indentation(*old(self), *final(self)),
            runs_block(*old(self), block_view(block_code@), called_from_block, steps as int, *final(self), r),
        decreases steps, 0int,
    {
        self.block_code = Vec::new();
        let ghost start = *self;
        let ghost lines = block_view(block_code@);
        if steps == 0 {
            return Err(Fault::OutOfSteps);
        }
        let ghost st = steps as int;
        assert(block_dropped(*old(self), start));
        assert(lines.skip(0) =~= lines);
        let mut i: usize = 0;
        while i < block_code.len()
            invariant
                i <= block_code@.len(),
                steps > 0,
                st == steps as int,
                lines == block_view(block_code@),
                block_dropped(*old(self), start),
                keeps_indentation(*old(self), *self),
                forall|n2: ExecData, r2: Result<Result<(), String>, Fault>|
                    #[trigger] runs(*self, lines.skip(i as int), called_from_block, st, n2, r2) ==> runs(
                        start,
                        lines,
                        called_from_block,
                        st,
                        n2,
                        r2,
                    ),
            decreases block_code.len() - i,
        {
            let ghost cur = *self;
            let ghost rest = lines.skip(i as int);
            let line = duplicate_line(&block_code[i]);
            assert(line_view(line@) == lines[i as int]);
            assert(rest[0] == lines[i as int]);
            assert(rest.drop_first() =~= lines.skip(i + 1));
            let r1 = self.exec(line, called_from_block, rt, steps - 1);
            let ghost mid = *self;
            let finished = match &r1 {
                Ok(Ok(())) => false,
                _ => true,
            };
            if finished {
                assert(exec_outcome(cur, rest[0], called_from_block, st - 1, mid, r1));
                proof {
                    lemma_runs_step(cur, rest, called_from_block, st, mid, r1, mid, r1);
                }
                return r1;
            }
            assert forall|n2: ExecData, r2: Result<Result<(), String>, Fault>|
                #[trigger] runs(mid, lines.skip(i + 1), called_from_block, st, n2, r2) implies runs(
                    start,
                    lines,
                    called_from_block,
                    st,
                    n2,
                    r2,
                ) by {
                assert(rest.drop_first() == lines.skip(i + 1));
                lemma_runs_step(cur, rest, called_from_block, st, mid, r1, n2, r2);
            }
            i += 1;
        }
        assert(lines.skip(i as int).len() == 0);
        assert(runs(*self, lines.skip(i as int), called_from_block, st, *self, Ok::<Result<(), String>, Fault>(Ok(()))));
        Ok(Ok(()))
    }

    /// Executes one tokenized line.
    ///
    /// A line with a syntax error fails with it; a comment does nothing;
    /// `RESET` forgets all variables; `STOP` ends the program. At the top
    /// level the verines of the line are evaluated and the statement runs;
    /// inside a block the line is recorded, and the `END` that closes the
    /// outermost block runs it (`IF`/`ELIF`/`ELSE`, or `WHILE` until its
    /// condition fails) or ends the definition of a function. What `PRINT`
    /// and `HELP_FOR` print is added to `printed`. `steps` bounds the loop
    /// rounds and nested calls that the program may still make.
    pub fn exec<R: Runtime>(
        &mut self,
        token_collection: Vec<(String, ValueEnum)>,
        called_from_while: bool,
        rt: &mut R,
        steps: u64,
    ) -> (r: Result<Result<(), String>, Fault>)
        ensures
            exec_outcome(*old(self), line_view(token_collection@), called_from_while, steps as int, *final(self), r),
        decreases steps, 4int,
    {
        let ghost lv = line_view(token_collection@);
        proof {
            lemma_value_of_key(lv, "ERROR_MESSAGE"@);
            lemma_value_of_key(lv, "COMMENT"@);
            lemma_words();
        }
        let mut line = token_collection;
        match find_key(&line, "ERROR_MESSAGE") {
            Some(i) => {
                return match &line[i].1 {
                    ValueEnum::String(v) => {
                        let mut m = string_from("SYNTAX ERROR: ");
                        push_str(&mut m, v.as_str());
                        Ok(Err(m))
                    },
                    _ => Err(Fault::Unreachable),
                };
            },
            None => {},
        }
        match find_key(&line, "COMMENT") {
            Some(i) => {
                return match &line[i].1 {
                    ValueEnum::String(_) => Ok(Ok(())),
                    _ => Err(Fault::Unreachable),
                };
            },
            None => {},
        }
        if line.len() == 0 {
            return Err(Fault::Unreachable);
        }
        match &line[0].1 {
            ValueEnum::String(v) => {
                if str_equal(v.as_str(), "RESET") && line.len() == 1 {
                    self.global_variables.clear();
                    return Ok(Ok(()));
                }
            },
            _ => {
                return Err(Fault::Unreachable);
            },
        }
        let mut saved: Vec<(usize, Vec<Token>)> = Vec::new();
        proof {
            lemma_evaluated_keeps(lv, 0, self.global_variables@);
        }
        if called_from_while || self.indentation.as_str().is_empty() {
            rt.show(&self.printed);
            match evaluate_verines(&mut line, &mut saved, &self.global_variables, rt) {
                Ok(Ok(())) => {},
                other => {
                    return other;
                },
            }
            proof {
                assert(valued(lv, line_view(line@)));
                if evaluated_from(lv, 0, self.global_variables@) is Line && starts_with_word(lv) {
                    assert(!(lv[0].1 is Verine));
                    assert(line_view(line@)[0] == lv[0]);
                }
            }
        }
        match &line[0].1 {
            ValueEnum::String(v) => {
                if str_equal(v.as_str(), "STOP") && line.len() == 1 {
                    rt.show(&self.printed);
                    rt.stop();
                    return Ok(Ok(()));
                }
            },
            _ => {
                return Err(Fault::Unreachable);
            },
        }
        if !self.indentation.as_str().is_empty() {
            return self.exec_in_block(line, saved, rt, steps);
        }
        self.exec_statement(line, rt, steps)
    }

    /// A line inside a block: adjusts the indentation, runs the block at the
    /// `END` that closes it, and records the line.
    fn exec_in_block<R: Runtime>(
        &mut self,
        line: Vec<(String, ValueEnum)>,
        saved: Vec<(usize, Vec<Token>)>,
        rt: &mut R,
        steps: u64,
    ) -> (r: Result<Result<(), String>, Fault>)
        ensures
            keeps_indentation(*old(self), *final(self)),
            in_block_outcome(
                *old(self),
                restored(line_view(line@), saved_view(saved@)),
                steps as int,
                *final(self),
                r,
            ),
        decreases steps, 3int,
    {
        let ghost before = *self;
        let ghost lv = line_view(line@);
        let ghost orig = restored(lv, saved_view(saved@));
        proof {
            lemma_restored_tokens(lv, saved_view(saved@));
            if orig.len() > 0 && !(orig[0].1 is Verine) {
                assert(orig[0] == lv[0]);
            }
        }
        let ghost mut closed = before;
        let ghost mut ran = before;
        let ghost mut ran_result: Result<Result<(), String>, Fault> = Ok(Ok(()));
        proof {
            lemma_close_level(one_level());
            lemma_words();
            if well_indented(before.indentation@) {
                lemma_open_level(before.indentation@);
                if before.indentation@.len() >= 4 {
                    lemma_close_level(before.indentation@);
                }
            }
        }
        let mut line = line;
        let v = match string_value(&line, 0) {
            Ok(v) => v,
            Err(f) => {
                return Err(f);
            },
        };
        if str_equal(v.as_str(), "IF") || str_equal(v.as_str(), "WHILE") {
            add_indentation(&mut self.indentation);
        } else if str_equal(v.as_str(), "FN") {
            return Ok(Err(string_from("EXECUTION ERROR: FUNCTIONS CAN'T BE INSIDE OF OTHER CODE BLOCKS!")));
        } else if str_equal(v.as_str(), "END") && line.len() == 1 {
            let cs = crate::text::chars_of(self.indentation.as_str());
            if crate::text::char_at_byte_offset(cs.as_slice(), 4).is_none() {
                return Err(Fault::CharBoundary);
            }
            proof {
                crate::text::lemma_char_at_byte_bound(before.indentation@, 4);
            }
            subtract_indentation(&mut self.indentation);
            if self.indentation.as_str().is_empty() {
                if str_equal(self.current_block_type.0.as_str(), "normal") {
                    proof {
                        closed = *self;
                    }
                    let r1 = self.run_block(rt, steps);
                    proof {
                        ran = *self;
                        ran_result = r1;
                    }
                    let finished = match &r1 {
                        Ok(Ok(())) => false,
                        _ => true,
                    };
                    if finished {
                        proof {
                            assert(closed.indentation@ == Seq::<char>::empty());
                            assert(closed.global_variables == before.global_variables);
                            assert(closed.block_code == before.block_code);
                            assert(closed.functions == before.functions);
                            assert(closed.current_block_type == before.current_block_type);
                            assert(level_closed(before, closed));
                            assert(reached(ran, r1));
                        }
                        return r1;
                    }
                    proof {
                        assert(closed.indentation@ == Seq::<char>::empty());
                        assert(closed.global_variables == before.global_variables);
                        assert(closed.block_code == before.block_code);
                        assert(closed.functions == before.functions);
                        assert(closed.current_block_type == before.current_block_type);
                        assert(level_closed(before, closed));
                    }
                    self.current_block_type.0 = String::new();
                } else if str_equal(self.current_block_type.0.as_str(), "function") {
                    self.current_block_type.0 = String::new();
                    self.current_block_type.1 = String::new();
                }
            }
        }
        let ghost mid = self.block_code@;
        if str_equal(self.current_block_type.0.as_str(), "normal") {
            restore_verines(&mut line, saved);
            self.block_code.push(line);
            assert(block_view(self.block_code@) =~= block_view(mid).push(orig));
        } else if str_equal(self.current_block_type.0.as_str(), "function") {
            restore_verines(&mut line, saved);
            let name = self.current_block_type.1.clone();
            if !self.functions.push_line(name.as_str(), line) {
                return Err(Fault::Unreachable);
            }
        }
        proof {
            if !starts_with(orig, "FN"@) && !(is_alone(orig, "END"@) && before.indentation@ == one_level()
                && before.current_block_type.0@ == "function"@) && (is_alone(orig, "END"@) ==> (char_at_byte(
                before.indentation@,
                4,
            ) matches Some(k) && k < before.indentation@.len())) && orig[0].1 is String {
                assert(self.global_variables@ == before.global_variables@);
                assert(self.current_block_type == before.current_block_type);
                assert(records(before, *self, orig));
            }
            if starts_with(orig, "FN"@) {
                assert(false);
            } else if is_alone(orig, "END"@) && before.indentation@ == one_level()
                && before.current_block_type.0@ == "normal"@ {
                assert(level_closed(before, closed));
                assert(reached(ran, ran_result));
                assert(block_type_cleared(ran, *self));
            } else if is_alone(orig, "END"@) && before.indentation@ == one_level()
                && before.current_block_type.0@ == "function"@ {
                assert(self.indentation@ == Seq::<char>::empty());
                assert(self.current_block_type.0@ == Seq::<char>::empty());
                assert(self.functions@ == before.functions@);
                assert(block_view(self.block_code@) == block_view(before.block_code@));
            } else if orig.len() > 0 && orig[0].1 is String && recording_possible(before) && (is_alone(orig, "END"@)
                ==> (char_at_byte(before.indentation@, 4) matches Some(k) && k < before.indentation@.len())) {
                assert(self.indentation@ == if starts_with(orig, "IF"@) || starts_with(orig, "WHILE"@) {
                    before.indentation@ + one_level()
                } else if is_alone(orig, "END"@) {
                    before.indentation@.skip(char_at_byte(before.indentation@, 4).unwrap())
                } else {
                    before.indentation@
                });
            }
        }
        Ok(Ok(()))
    }

    /// Runs the block that has just been closed.
    fn run_block<R: Runtime>(&mut self, rt: &mut R, steps: u64) -> (r: Result<Result<(), String>, Fault>)
        ensures
            keeps_indentation(*old(self), *final(self)),
            block_outcome(*old(self), steps as int, *final(self), r),
        decreases steps, 2int,
    {
        proof {
            lemma_branch_words();
        }
        if self.block_code.len() == 0 {
            return Err(Fault::Unreachable);
        }
        let first = match string_value(&self.block_code[0], 0) {
            Ok(v) => v,
            Err(f) => {
                return Err(f);
            },
        };
        if str_equal(first.as_str(), "IF") {
            self.run_if(rt, steps)
        } else if str_equal(first.as_str(), "WHILE") {
            self.run_while(rt, steps)
        } else {
            Ok(Ok(()))
        }
    }

    /// The condition of the `ELIF` line `line`, with the variables it
    /// compares replaced by their values.
    fn elif_condition<R: Runtime>(&self, line: &Vec<(String, ValueEnum)>, rt: &R) -> (r: Result<
        Result<bool, String>,
        Fault,
    >)
        requires
            line@.len() > 0,
            line@[0].1 is String,
        ensures
            match elif_verdict(line_view(line@), self.global_variables@) {
                Verdict::Failed(m) => r matches Ok(Err(e)) && e@ == m,
                Verdict::Holds(c) => r == Ok::<Result<bool, String>, Fault>(Ok(c)),
                Verdict::Open => true,
            },
    {
        let ghost l = line_view(line@);
        match is_key_and_value_order_right(line) {
            Ok(()) => {},
            Err(e) => {
                return Ok(Err(e));
            },
        }
        let mut line_clone = duplicate_line(line);
        match substitute_at(
            &mut line_clone,
            1,
            &self.global_variables,
            true,
            true,
            false,
            false,
            "EXECUTION ERROR: FIRST VARIABLE HAS TO BE A STRING OR INTEGER!",
        ) {
            Ok(Ok(())) => {},
            Ok(Err(m)) => {
                return Ok(Err(m));
            },
            Err(f) => {
                return Err(f);
            },
        }
        match substitute_at(
            &mut line_clone,
            3,
            &self.global_variables,
            true,
            true,
            false,
            false,
            "EXECUTION ERROR: SECOND VARIABLE HAS TO BE A STRING OR INTEGER!",
        ) {
            Ok(Ok(())) => {},
            Ok(Err(m)) => {
                return Ok(Err(m));
            },
            Err(f) => {
                return Err(f);
            },
        }
        let elif_operator = match string_value(&line_clone, 2) {
            Ok(v) => v,
            Err(f) => {
                return Err(f);
            },
        };
        let ghost l2 = line_view(line_clone@);
        let condition = vec![line_clone];
        assert(block_view(condition@) =~= seq![l2]);
        if !is_block_condition_defined(elif_operator.as_str(), &condition) {
            return Err(Fault::Unreachable);
        }
        Ok(Ok(check_block_code_condition(elif_operator.as_str(), &condition, rt)))
    }

    /// Runs an `IF` block: the lines up to the first `ELIF` (or `ELSE`) if
    /// its condition holds; else the line after the last `ELIF` whose
    /// condition holds; else the lines after `ELSE`.
    fn run_if<R: Runtime>(&mut self, rt: &mut R, steps: u64) -> (r: Result<Result<(), String>, Fault>)
        ensures
            keeps_indentation(*old(self), *final(self)),
            if_outcome(*old(self), steps as int, *final(self), r),
        decreases steps, 1int,
    {
        let ghost b = block_view(self.block_code@);
        let ghost g = self.global_variables@;
        proof {
            lemma_branch_words();
        }
        if self.block_code.len() == 0 {
            return Err(Fault::Unreachable);
        }
        let operator = match string_value(&self.block_code[0], 2) {
            Ok(v) => v,
            Err(f) => {
                return Err(f);
            },
        };
        let mut is_there_elif_block = false;
        let mut is_elif_block_true = false;
        let mut where_are_elif_blocks: Vec<usize> = Vec::new();
        let mut where_is_right_elif_block: usize = 0;
        let mut is_there_else_block = false;
        let mut where_is_else_block: usize = 0;
        let ghost mut open = false;
        let n = self.block_code.len();
        let mut pos: usize = 0;
        proof {
            assert(where_are_elif_blocks@.map_values(|x: usize| x as int) =~= Seq::<int>::empty());
            assert(combine_scan(Seq::empty(), None, None, if_scan(b, g, 0)) == if_scan(b, g, 0));
        }
        while pos < n
            invariant
                *self == *old(self),
                b == block_view(self.block_code@),
                g == self.global_variables@,
                n == self.block_code@.len(),
                pos <= n,
                forall|j: int| 0 <= j < where_are_elif_blocks@.len() ==> where_are_elif_blocks@[j] < pos,
                is_there_elif_block == (where_are_elif_blocks@.len() > 0),
                is_elif_block_true ==> where_is_right_elif_block < where_are_elif_blocks@.len(),
                is_there_else_block ==> where_is_else_block < pos,
                open ==> if_scan(b, g, 0) is Open,
                !open ==> if_scan(b, g, 0) == combine_scan(
                    where_are_elif_blocks@.map_values(|x: usize| x as int),
                    if is_elif_block_true {
                        Some(where_are_elif_blocks@[where_is_right_elif_block as int] as int)
                    } else {
                        None
                    },
                    if is_there_else_block {
                        Some(where_is_else_block as int)
                    } else {
                        None
                    },
                    if_scan(b, g, pos as int),
                ),
            decreases n - pos,
        {
            let ghost pe = where_are_elif_blocks@.map_values(|x: usize| x as int);
            let ghost pr = if is_elif_block_true {
                Some(where_are_elif_blocks@[where_is_right_elif_block as int] as int)
            } else {
                None
            };
            let ghost pel = if is_there_else_block {
                Some(where_is_else_block as int)
            } else {
                None
            };
            let ghost l = b[pos as int];
            proof {
                lemma_branch_words();
            }
            assert(l == line_view(self.block_code@[pos as int]@));
            let first_token = match string_value(&self.block_code[pos], 0) {
                Ok(v) => v,
                Err(f) => {
                    return Err(f);
                },
            };
            if str_equal(first_token.as_str(), "ELIF") {
                is_there_elif_block = true;
                where_are_elif_blocks.push(pos);
                match self.elif_condition(&self.block_code[pos], rt) {
                    Err(f) => {
                        return Err(f);
                    },
                    Ok(Err(m)) => {
                        return Ok(Err(m));
                    },
                    Ok(Ok(c)) => {
                        proof {
                            if !(elif_verdict(l, g) is Holds) {
                                open = true;
                            }
                        }
                        if c {
                            is_elif_block_true = true;
                            where_is_right_elif_block = where_are_elif_blocks.len() - 1;
                        }
                    },
                }
            }
            if str_equal(first_token.as_str(), "ELSE") {
                if self.block_code[pos].len() == 1 {
                    is_there_else_block = true;
                    where_is_else_block = pos;
                } else {
                    assert(l.len() != 1);
                    assert(first_token@ != "ELIF"@);
                    return Ok(Err(string_from("EXECUTION ERROR: THERE ARE MORE TOKENS THAN ELSE NEEDS!")));
                }
            }
            proof {
                assert(where_are_elif_blocks@.map_values(|x: usize| x as int) =~= if first_token@ == "ELIF"@ {
                    pe.push(pos as int)
                } else {
                    pe
                });
                if !open {
                    match if_scan(b, g, pos + 1) {
                        IfScan::Found { elifs, right, else_at } => {
                            assert(pe.push(pos as int) + elifs =~= pe + (seq![pos as int] + elifs));
                        },
                        _ => {},
                    }
                }
            }
            pos += 1;
        }
        let mut else_part: Vec<Vec<(String, ValueEnum)>> = Vec::new();
        let if_end = if is_there_elif_block {
            where_are_elif_blocks[0]
        } else if is_there_else_block {
            where_is_else_block
        } else {
            n
        };
        if is_there_else_block {
            else_part = duplicate_lines(&self.block_code, where_is_else_block + 1, n);
        }
        if if_end < 1 {
            return Err(Fault::Unreachable);
        }
        let if_part = duplicate_lines(&self.block_code, 1, if_end);
        if !is_block_condition_defined(operator.as_str(), &self.block_code) {
            return Err(Fault::Unreachable);
        }
        let condition = check_block_code_condition(operator.as_str(), &self.block_code, rt);
        if condition {
            self.execute_block_code(if_part, false, rt, steps)
        } else if is_there_elif_block && is_elif_block_true {
            let start = where_are_elif_blocks[where_is_right_elif_block] + 1;
            if start >= n {
                return Err(Fault::MissingLine);
            }
            let elif_part = duplicate_lines(&self.block_code, start, start + 1);
            self.execute_block_code(elif_part, false, rt, steps)
        } else if is_there_else_block {
            self.execute_block_code(else_part, false, rt, steps)
        } else {
            Ok(Ok(()))
        }
    }

    /// Runs a `WHILE` block: its lines, for as long as its condition holds
    /// (with the current values of the variables it names).
    fn run_while<R: Runtime>(&mut self, rt: &mut R, steps: u64) -> (r: Result<Result<(), String>, Fault>)
        ensures
            keeps_indentation(*old(self), *final(self)),
            ({
                let b = block_view(old(self).block_code@);
                b.len() > 0 && b[0].len() >= 3 && b[0][2].1 is String ==> while_rounds(
                    *old(self),
                    b[0][2].1->String_0,
                    Seq::empty(),
                    steps as int,
                    steps as int,
                    *final(self),
                    r,
                )
            }),
        decreases steps, 1int,
    {
        let mut error = String::new();
        if self.block_code.len() == 0 {
            return Err(Fault::Unreachable);
        }
        let operator = match string_value(&self.block_code[0], 2) {
            Ok(v) => v,
            Err(f) => {
                return Err(f);
            },
        };
        let ghost st = steps as int;
        let ghost start = *self;
        let ghost op = operator@;
        assert(block_view(self.block_code@)[0] == line_view(self.block_code@[0]@));
        assert(op == block_view(self.block_code@)[0][2].1->String_0);
        assert(error@ =~= Seq::<char>::empty());
        let mut rounds = steps;
        loop
            invariant
                keeps_indentation(*old(self), *self),
                start == *old(self),
                st == steps as int,
                forall|n2: ExecData, r2: Result<Result<(), String>, Fault>|
                    #[trigger] while_rounds(*self, op, error@, rounds as int, st, n2, r2) ==> while_rounds(
                        start,
                        op,
                        Seq::empty(),
                        st,
                        st,
                        n2,
                        r2,
                    ),
                op == operator@,
                op == block_view(start.block_code@)[0][2].1->String_0,
            ensures
                while_rounds(start, op, Seq::empty(), st, st, *self, Ok::<Result<(), String>, Fault>(Ok(()))),
            decreases rounds,
        {
            let ghost cur = *self;
            let ghost b = block_view(self.block_code@);
            let ghost err0 = error@;
            if rounds == 0 {
                assert(while_rounds(cur, op, err0, rounds as int, st, cur, Err::<Result<(), String>, Fault>(Fault::OutOfSteps)));
                return Err(Fault::OutOfSteps);
            }
            let block_before = duplicate_lines(&self.block_code, 0, self.block_code.len());
            assert(b.subrange(0, b.len() as int) =~= b);
            let new_block_code = match update_while_condition_values(
                &self.block_code,
                &self.global_variables,
                &mut error,
            ) {
                Err(f) => {
                    assert(while_rounds(cur, op, err0, rounds as int, st, cur, Err::<Result<(), String>, Fault>(f)));
                    return Err(f);
                },
                Ok(Err(m)) => {
                    assert(while_rounds(cur, op, err0, rounds as int, st, cur, Ok::<Result<(), String>, Fault>(Err(m))));
                    return Ok(Err(m));
                },
                Ok(Ok(b2)) => b2,
            };
            if !is_block_condition_defined(operator.as_str(), &new_block_code) {
                assert(while_rounds(cur, op, err0, rounds as int, st, cur, Err::<Result<(), String>, Fault>(Fault::Unreachable)));
                return Err(Fault::Unreachable);
            }
            match check_block_code_condition(operator.as_str(), &new_block_code, rt) {
                true => {
                    if self.block_code.len() == 0 {
                        return Err(Fault::Unreachable);
                    }
                    let body = duplicate_lines(&self.block_code, 1, self.block_code.len());
                    assert(b.subrange(1, b.len() as int) =~= b.drop_first());
                    let r1 = self.execute_block_code(body, true, rt, steps);
                    let ghost mid = *self;
                    let finished = match &r1 {
                        Ok(Ok(())) => false,
                        _ => true,
                    };
                    if finished {
                        proof {
                            assert(reached(mid, r1));
                            assert(while_rounds(cur, op, err0, rounds as int, st, mid, r1));
                        }
                        return r1;
                    }
                    self.block_code = block_before;
                    proof {
                        let e1 = error@;
                        assert(block_restored(mid, b, *self));
                        assert forall|n2: ExecData, r2: Result<Result<(), String>, Fault>|
                            #[trigger] while_rounds(*self, op, e1, rounds - 1, st, n2, r2) implies while_rounds(
                                start,
                                op,
                                Seq::empty(),
                                st,
                                st,
                                n2,
                                r2,
                            ) by {
                            assert(reached(mid, r1));
                            assert(while_rounds(cur, op, err0, rounds as int, st, n2, r2));
                        }
                    }
                },
                false => {
                    assert(while_rounds(cur, op, err0, rounds as int, st, cur, Ok::<Result<(), String>, Fault>(Ok(()))));
                    break ;
                },
            }
            rounds = rounds - 1;
        }
        Ok(Ok(()))
    }
}

impl ExecData {
    /// Replaces the variables of a statement by their values, where the
    /// statement takes values: the value of `LET`, of `PRINT`, the operands
    /// of `IF`, the value of `PUSH` and `INSERT`, the index of `INSERT` and
    /// `SET`, and the value of `SET`.
    fn substitute_values(&self, line: &mut Vec<(String, ValueEnum)>) -> (r: Result<Result<(), String>, Fault>)
        ensures
            final(line)@.len() == old(line)@.len(),
            match values_substituted(line_view(old(line)@), self.global_variables@) {
                Some(Ok(l2)) => r == Ok::<Result<(), String>, Fault>(Ok(())) && line_view(final(line)@) == l2,
                Some(Err(m)) => r matches Ok(Err(e)) && e@ == m,
                None => true,
            },
    {
        proof {
            lemma_words();
        }
        let g = &self.global_variables;
        let first_msg = "EXECUTION ERROR: FIRST VARIABLE HAS TO BE A STRING, INTEGER OR FLOAT!";
        let r = if value_is(line, 0, "LET") {
            substitute_at(line, 3, g, true, true, true, true, "")
        } else if value_is(line, 0, "PRINT") {
            substitute_at(line, 1, g, true, true, true, false, "EXECUTION ERROR: CAN'T PRINT THIS VARIABLE!")
        } else if value_is(line, 0, "IF") {
            match substitute_at(line, 1, g, true, true, true, false, first_msg) {
                Ok(Ok(())) => substitute_at(
                    line,
                    3,
                    g,
                    true,
                    true,
                    true,
                    false,
                    "EXECUTION ERROR: SECOND VARIABLE HAS TO BE A STRING, INTEGER OR FLOAT!",
                ),
                other => other,
            }
        } else if value_is(line, 0, "PUSH") {
            substitute_at(line, 1, g, true, true, true, false, first_msg)
        } else if value_is(line, 0, "INSERT") {
            match substitute_at(line, 1, g, true, true, true, false, first_msg) {
                Ok(Ok(())) => substitute_at(
                    line,
                    5,
                    g,
                    false,
                    true,
                    false,
                    false,
                    "EXECUTION ERROR: THIRD VARIABLE HAS TO BE AN INTEGER!",
                ),
                other => other,
            }
        } else if value_is(line, 0, "SET") {
            match substitute_at(
                line,
                3,
                g,
                false,
                true,
                false,
                false,
                "EXECUTION ERROR: SECOND VARIABLE HAS TO BE AN INTEGER!",
            ) {
                Ok(Ok(())) => substitute_at(
                    line,
                    5,
                    g,
                    true,
                    true,
                    true,
                    false,
                    "EXECUTION ERROR: THIRD VARIABLE HAS TO BE A STRING, INTEGER OR FLOAT!",
                ),
                other => other,
            }
        } else {
            Ok(Ok(()))
        };
        r
    }

    /// The array that the variable named by `line[i]` holds.
    fn array_of(&self, line: &Vec<(String, ValueEnum)>, i: usize) -> (r: Result<
        Result<(String, Option<Vec<ArrayTypesEnum>>), String>,
        Fault,
    >)
        ensures
            i < line@.len() ==> (line@[i as int].1 matches ValueEnum::String(name) ==> {
                let g = self.global_variables@;
                &&& !g.contains_key(name@) ==> (r matches Ok(Err(m)) && m@ == no_variable_message(name@))
                &&& g.contains_key(name@) ==> (r matches Ok(Ok((n, a))) && n@ == name@ && match g[name@] {
                    ValueV::Array(v) => a matches Some(x) && elements_view(x@) == v,
                    _ => a is None,
                })
            }),
            r matches Err(f) ==> f == Fault::Unreachable,
    {
        let name = match string_value(line, i) {
            Ok(v) => v,
            Err(f) => {
                return Err(f);
            },
        };
        match self.global_variables.get(name.as_str()) {
            None => {
                let mut m = string_from("EXECUTION ERROR: THERE IS NO VARIABLE CALLED ");
                push_str(&mut m, name.as_str());
                push_str(&mut m, "!");
                Ok(Err(m))
            },
            Some(ValueEnum::Array(a)) => Ok(Ok((name, Some(duplicate_elements(a))))),
            Some(_) => Ok(Ok((name, None))),
        }
    }

    /// Prints the orders of the statement `keyword`.
    fn print_help(&mut self, keyword: &String) -> (r: Result<(), String>)
        ensures
            match name_order(keyword@) {
                None => (r matches Err(m) && m@ == no_help(keyword@)) && *final(self) == *old(self),
                Some(o) => r is Ok && prints(*old(self), *final(self), help_lines(o)),
            },
    {
        let ghost before = strings_view(self.printed@);
        proof {
            lemma_few_orders(keyword@);
        }
        match predefined_name_order(keyword.as_str()) {
            None => {
                let mut m = string_from("EXECUTION ERROR: CAN'T PRINT HELP FOR ");
                push_str(&mut m, keyword.as_str());
                push_str(
                    &mut m,
                    " BECAUSE IT'S NOT A PREDEFINED NAME WHICH IS AT THE BEGINNING OF A LINE!",
                );
                Err(m)
            },
            Some(OrderEnum::SingleOption(v)) => {
                self.printed.push(string_from("-SINGLE OPTION-"));
                let mut m = string_from("1: '");
                push_str(&mut m, order_text(&v).as_str());
                push_str(&mut m, "'");
                self.printed.push(m);
                assert(strings_view(self.printed@) =~= before + help_lines(name_order(keyword@).unwrap()));
                Ok(())
            },
            Some(OrderEnum::MultipleOptions(v)) => {
                let ghost ps = v@.map_values(|p: Vec<(&'static str, &'static str)>| pattern_view(p@));
                self.printed.push(string_from("-MULTIPLE OPTIONS-"));
                let mut p: usize = 0;
                assert(strings_view(self.printed@) =~= before + seq!["-MULTIPLE OPTIONS-"@] + option_lines(ps, 0));
                while p < v.len()
                    invariant
                        p <= v@.len() <= 30,
                        ps == v@.map_values(|q: Vec<(&'static str, &'static str)>| pattern_view(q@)),
                        strings_view(self.printed@) == before + seq!["-MULTIPLE OPTIONS-"@] + option_lines(ps, p as int),
                        self.global_variables == old(self).global_variables,
                        self.indentation == old(self).indentation,
                        self.block_code == old(self).block_code,
                        self.functions == old(self).functions,
                        self.current_block_type == old(self).current_block_type,
                    decreases v.len() - p,
                {
                    let mut m = crate::text::i32_text((p + 1) as i32);
                    push_str(&mut m, ": '");
                    push_str(&mut m, order_text(&v[p]).as_str());
                    push_str(&mut m, "'");
                    let ghost sv = strings_view(self.printed@);
                    self.printed.push(m);
                    assert(strings_view(self.printed@) =~= sv.push(m@));
                    assert(option_lines(ps, p + 1) =~= option_lines(ps, p as int).push(m@));
                    p += 1;
                }
                assert(strings_view(self.printed@) =~= before + help_lines(name_order(keyword@).unwrap()));
                Ok(())
            },
        }
    }

    /// Prints a value: a string as it is, an integer in decimal, a float as
    /// the host writes it with `Debug`.
    fn print_value<R: Runtime>(&mut self, v: &ValueEnum, rt: &R) -> (r: Result<(), Fault>)
        ensures
            (v@ is String || v@ is Integer || v@ is Float) ==> r is Ok && prints(
                *old(self),
                *final(self),
                seq![print_text(v@).unwrap()],
            ),
            r is Err ==> *final(self) == *old(self) && r == Err::<(), Fault>(Fault::Unreachable),
            final(self).indentation == old(self).indentation,
    {
        let text = match v {
            ValueEnum::String(s) => {
                let t = s.clone();
                assert(print_text(v@) == Some(t@));
                t
            },
            ValueEnum::Integer(i) => {
                let t = crate::text::i32_text(*i);
                assert(print_text(v@) == Some(t@));
                t
            },
            ValueEnum::Float(f) => {
                let t = rt.float_debug(f.as_str());
                assert(print_text(v@) == Some(t@));
                t
            },
            _ => {
                return Err(Fault::Unreachable);
            },
        };
        let ghost sv = strings_view(self.printed@);
        let ghost tv = text@;
        self.printed.push(text);
        assert(strings_view(self.printed@) =~= sv + seq![tv]);
        assert(strings_view(self.printed@).last() == tv);
        Ok(())
    }

    /// A statement at the top level.
    #[verifier::rlimit(40)]
    fn exec_statement<R: Runtime>(
        &mut self,
        line: Vec<(String, ValueEnum)>,
        rt: &mut R,
        steps: u64,
    ) -> (r: Result<Result<(), String>, Fault>)
        ensures
            keeps_indentation(*old(self), *final(self)),
            statement_outcome(*old(self), line_view(line@), steps as int, *final(self), r),
        decreases steps, 3int,
    {
        let ghost lv = line_view(line@);
        let ghost before = *self;
        proof {
            lemma_words();
            if well_indented(before.indentation@) {
                lemma_open_level(before.indentation@);
            }
        }
        let mut line = line;
        if line.len() == 0 {
            return Err(Fault::Unreachable);
        }
        if !str_equal(line[0].0.as_str(), "PREDEFINED_NAME") {
            return Ok(
                Err(
                    string_from(
                        "EXECUTION ERROR: EVERY LINE HAS TO START WITH A PREDEFINED NAME (EXCEPT FOR COMMENT-LINES) !",
                    ),
                ),
            );
        }
        let v = match string_value(&line, 0) {
            Ok(v) => v,
            Err(f) => {
                return Err(f);
            },
        };
        match is_key_and_value_order_right(&line) {
            Ok(()) => {},
            Err(e) => {
                return Ok(Err(e));
            },
        }
        match self.substitute_values(&mut line) {
            Ok(Ok(())) => {},
            other => {
                return other;
            },
        }
        let ghost sub = line_view(line@);
        assert(sub.len() == lv.len());
        let v = v.as_str();
        if str_equal(v, "LET") {
            assert(sub[1] == (line@[1].0@, line@[1].1@));
            let name = match string_value(&line, 1) {
                Ok(n) => n,
                Err(f) => {
                    return Err(f);
                },
            };
            if line.len() < 4 {
                return Err(Fault::Unreachable);
            }
            let value = line[3].1.duplicate();
            assert(sub[3] == (line@[3].0@, value@));
            self.global_variables.insert(name, value);
        }
        if str_equal(v, "PRINT") {
            if line.len() < 2 {
                return Err(Fault::Unreachable);
            }
            if let Err(f) = self.print_value(&line[1].1, rt) {
                return Err(f);
            }
        } else if str_equal(v, "FN") {
            let fn_name = match string_value(&line, 1) {
                Ok(n) => n,
                Err(f) => {
                    return Err(f);
                },
            };
            let copy = duplicate_line(&line);
            let lines = vec![copy];
            assert(block_view(lines@) =~= seq![sub]);
            self.functions.insert(fn_name.clone(), lines);
            self.current_block_type.0 = string_from("function");
            self.current_block_type.1 = fn_name;
            add_indentation(&mut self.indentation);
        } else if str_equal(v, "DO") {
            let function_name = match string_value(&line, 1) {
                Ok(n) => n,
                Err(f) => {
                    return Err(f);
                },
            };
            let block = match self.functions.get(function_name.as_str()) {
                None => {
                    let mut m = string_from("EXECUTION ERROR: THERE IS NO FUNCTION CALLED ");
                    push_str(&mut m, function_name.as_str());
                    push_str(&mut m, "!");
                    return Ok(Err(m));
                },
                Some(code) => {
                    if code.len() < 1 {
                        return Err(Fault::Unreachable);
                    }
                    duplicate_lines(code, 1, code.len())
                },
            };
            return self.execute_block_code(block, false, rt, steps);
        } else if str_equal(v, "IF") || str_equal(v, "WHILE") {
            let ghost b = self.block_code@;
            self.block_code.push(line);
            assert(block_view(self.block_code@) =~= block_view(b).push(sub));
            self.current_block_type.0 = string_from("normal");
            add_indentation(&mut self.indentation);
        } else if str_equal(v, "PUSH") {
            let (name, array) = match self.array_of(&line, 3) {
                Err(f) => {
                    return Err(f);
                },
                Ok(Err(m)) => {
                    return Ok(Err(m));
                },
                Ok(Ok((name, Some(a)))) => (name, a),
                Ok(Ok((_, None))) => {
                    return Err(Fault::Unreachable);
                },
            };
            let mut array = array;
            match element_value(&line, 1) {
                Err(f) => {
                    return Err(f);
                },
                Ok(Some(e)) => {
                    let ghost a = array@;
                    let ghost ev = e@;
                    array.push(e);
                    assert(elements_view(array@) =~= elements_view(a).push(ev));
                    self.global_variables.insert(name, ValueEnum::Array(array));
                },
                Ok(None) => {
                    return Ok(
                        Err(
                            string_from(
                                "EXECUTION ERROR: YOU HAVE TO PUSH A STRING, INTEGER OR FLOAT ONTO AN ARRAY!",
                            ),
                        ),
                    );
                },
            }
        } else if str_equal(v, "POP") {
            let (name, array) = match self.array_of(&line, 2) {
                Err(f) => {
                    return Err(f);
                },
                Ok(Err(m)) => {
                    return Ok(Err(m));
                },
                Ok(Ok((name, Some(a)))) => (name, a),
                Ok(Ok((_, None))) => {
                    return Ok(Err(string_from("EXECUTION  ERROR: YOU CAN ONLY POP FROM ARRAYS!")));
                },
            };
            let mut array = array;
            let ghost a = array@;
            array.pop();
            assert(elements_view(array@) =~= if a.len() > 0 {
                elements_view(a).drop_last()
            } else {
                elements_view(a)
            });
            self.global_variables.insert(name, ValueEnum::Array(array));
        } else if str_equal(v, "INSERT") {
            let (name, array) = match self.array_of(&line, 3) {
                Err(f) => {
                    return Err(f);
                },
                Ok(Err(m)) => {
                    return Ok(Err(m));
                },
                Ok(Ok((name, Some(a)))) => (name, a),
                Ok(Ok((_, None))) => {
                    return Ok(Err(string_from("EXECUTION ERROR: YOU CAN ONLY INSERT INTO ARRAYS!")));
                },
            };
            let index = match integer_value(&line, 5) {
                Ok(i) => i,
                Err(f) => {
                    return Err(f);
                },
            };
            if index < 0 || ((index as usize) >= array.len() && index != 0) {
                return Ok(Err(string_from("EXECUTION ERROR: INDEX IS OUT OF BOUNDS!")));
            }
            let mut array = array;
            match element_value(&line, 1) {
                Err(f) => {
                    return Err(f);
                },
                Ok(Some(e)) => {
                    let ghost a = array@;
                    let ghost ev = e@;
                    array.insert(index as usize, e);
                    assert(elements_view(array@) =~= elements_view(a).insert(index as int, ev));
                    self.global_variables.insert(name, ValueEnum::Array(array));
                },
                Ok(None) => {
                    return Ok(
                        Err(
                            string_from(
                                "EXECUTION ERROR: YOU HAVE TO INSERT A STRING, INTEGER OR FLOAT INTO AN ARRAY!",
                            ),
                        ),
                    );
                },
            }
        } else if str_equal(v, "REMOVE") {
            let (name, array) = match self.array_of(&line, 2) {
                Err(f) => {
                    return Err(f);
                },
                Ok(Err(m)) => {
                    return Ok(Err(m));
                },
                Ok(Ok((name, Some(a)))) => (name, a),
                Ok(Ok((_, None))) => {
                    return Err(Fault::Unreachable);
                },
            };
            let index = match integer_value(&line, 4) {
                Ok(i) => i,
                Err(f) => {
                    return Err(f);
                },
            };
            if index < 0 || (index as usize) >= array.len() {
                return Ok(Err(string_from("EXECUTION ERROR: INDEX IS OUT OF BOUNDS!")));
            }
            let mut array = array;
            let ghost a = array@;
            array.remove(index as usize);
            assert(elements_view(array@) =~= elements_view(a).remove(index as int));
            self.global_variables.insert(name, ValueEnum::Array(array));
        } else if str_equal(v, "SET") {
            let (name, array) = match self.array_of(&line, 1) {
                Err(f) => {
                    return Err(f);
                },
                Ok(Err(m)) => {
                    return Ok(Err(m));
                },
                Ok(Ok((name, Some(a)))) => (name, a),
                Ok(Ok((_, None))) => {
                    return Err(Fault::Unreachable);
                },
            };
            let index = match integer_value(&line, 3) {
                Ok(i) => i,
                Err(f) => {
                    return Err(f);
                },
            };
            if index < 0 || (index as usize) >= array.len() {
                return Ok(Err(string_from("EXECUTION ERROR: INDEX IS OUT OF BOUNDS!")));
            }
            let mut array = array;
            match element_value(&line, 5) {
                Err(f) => {
                    return Err(f);
                },
                Ok(Some(e)) => {
                    let ghost a = array@;
                    let ghost ev = e@;
                    array.set(index as usize, e);
                    assert(elements_view(array@) =~= elements_view(a).update(index as int, ev));
                    self.global_variables.insert(name, ValueEnum::Array(array));
                },
                Ok(None) => {
                    return Err(Fault::Unreachable);
                },
            }
        } else if str_equal(v, "HELP_FOR") {
            let keyword = match string_value(&line, 1) {
                Ok(k) => k,
                Err(f) => {
                    return Err(f);
                },
            };
            match self.print_help(&keyword) {
                Ok(()) => {},
                Err(m) => {
                    return Ok(Err(m));
                },
            }
        }
        Ok(Ok(()))
    }
}


} // verus!
