//! Evaluation of verine expressions.
//!
//! A verine is evaluated in passes: the nested verines (between matching
//! bars) are evaluated first and stand for their values; then each `READLN`
//! reads a line of input; then `STRING_FROM x` and `INTEGER_FROM x` convert
//! their argument; then the expression is reduced from the left, without
//! precedence: `a op b` becomes its value, `GET FROM v AT i` the element,
//! `GET FROM v LEN` the length, until a single value remains at the front.

use vstd::prelude::*;

use crate::fault::Fault;
use crate::runtime::{Runtime, f32_host};
use crate::text::{chars_of, i32_text, int_text, parse_i32, push_char, push_str, spec_parse_i32, string_of};
use crate::tokenizer::{ArrayTypesEnum, ElementV, ValueEnum, ValueV, tokens_view};
use crate::variables::Variables;
use crate::verine_expression::{
    LexOutcome, Op, Token, TokenV, Tokenizer, TokenizerError, TokenizerErrorV, spec_tokenize,
};

verus! {

/// How an evaluation ends, as far as the library determines it.
pub enum EvalOutcome {
    /// The value of the expression.
    Value(TokenV),
    /// The error the expression gives.
    Error(TokenizerErrorV),
    /// An integer operation overflows `i32`.
    Overflow,
    /// The result depends on the lines of input that `READLN` reads.
    Runtime,
}

/// The value a single token stands for: a literal, or the value of a
/// variable that holds a string, an integer or a float.
pub open spec fn resolve(t: TokenV, g: Map<Seq<char>, ValueV>) -> Result<TokenV, TokenizerErrorV> {
    match t {
        TokenV::Id(v) => if !g.contains_key(v) {
            Err(TokenizerErrorV::VariableNotFound(v))
        } else {
            match g[v] {
                ValueV::String(s) => Ok(TokenV::String(s)),
                ValueV::Integer(i) => Ok(TokenV::Integer(i)),
                ValueV::Float(f) => Ok(TokenV::Float(f)),
                _ => Err(TokenizerErrorV::InvalidExpression),
            }
        },
        TokenV::Integer(_) | TokenV::Float(_) | TokenV::String(_) => Ok(t),
        _ => Err(TokenizerErrorV::InvalidExpression),
    }
}

pub open spec fn outcome_of(r: Result<TokenV, TokenizerErrorV>) -> EvalOutcome {
    match r {
        Ok(t) => EvalOutcome::Value(t),
        Err(e) => EvalOutcome::Error(e),
    }
}

/// `a op b` on two integers.
pub open spec fn integer_operation(a: i32, op: Op, b: i32) -> EvalOutcome {
    let v: int = match op {
        Op::Plus => a + b,
        Op::Minus => a - b,
        Op::Asterisk => a * b,
        _ => 0,
    };
    match op {
        Op::Slash => match a.checked_div(b) {
            Some(q) => EvalOutcome::Value(TokenV::Integer(q)),
            None => EvalOutcome::Error(TokenizerErrorV::DivisionByZero),
        },
        Op::Pow => EvalOutcome::Value(TokenV::Float((f32_host().powi)(a, b))),
        _ => if i32::MIN <= v <= i32::MAX {
            EvalOutcome::Value(TokenV::Integer(v as i32))
        } else {
            EvalOutcome::Overflow
        },
    }
}

/// `l op r` on two values.
pub open spec fn combine(l: TokenV, op: Op, r: TokenV) -> EvalOutcome {
    match (l, op, r) {
        (TokenV::String(a), Op::Plus, TokenV::String(b)) => EvalOutcome::Value(TokenV::String(a + b)),
        (TokenV::String(a), Op::Plus, TokenV::Integer(b)) => EvalOutcome::Value(
            TokenV::String(a + int_text(b as int)),
        ),
        (TokenV::String(a), Op::Plus, TokenV::Float(b)) => EvalOutcome::Value(
            TokenV::String(a + (f32_host().display)(b)),
        ),
        (TokenV::Integer(a), Op::Plus, TokenV::String(b)) => EvalOutcome::Value(
            TokenV::String(int_text(a as int) + b),
        ),
        (TokenV::Float(a), Op::Plus, TokenV::String(b)) => EvalOutcome::Value(
            TokenV::String((f32_host().display)(a) + b),
        ),
        (TokenV::Integer(a), _, TokenV::Integer(b)) => integer_operation(a, op, b),
        (TokenV::Integer(a), _, TokenV::Float(b)) => EvalOutcome::Value(
            TokenV::Float((f32_host().operation)(int_text(a as int), op, b)),
        ),
        (TokenV::Float(a), _, TokenV::Integer(b)) => EvalOutcome::Value(
            TokenV::Float((f32_host().operation)(a, op, int_text(b as int))),
        ),
        (TokenV::Float(a), _, TokenV::Float(b)) => EvalOutcome::Value(
            TokenV::Float((f32_host().operation)(a, op, b)),
        ),
        _ => EvalOutcome::Error(TokenizerErrorV::InvalidOperands),
    }
}

/// A token that is a value: a string, an integer or a float.
pub open spec fn is_value(t: TokenV) -> bool {
    t is String || t is Integer || t is Float
}

/// The token for an element of an array.
pub open spec fn element_token(e: ElementV) -> TokenV {
    match e {
        ElementV::String(s) => TokenV::String(s),
        ElementV::Integer(i) => TokenV::Integer(i),
        ElementV::Float(f) => TokenV::Float(f),
    }
}

/// `GET FROM var AT index`.
pub open spec fn get_at(var: Seq<char>, index: TokenV, g: Map<Seq<char>, ValueV>) -> Result<TokenV, TokenizerErrorV> {
    let idx: Result<int, TokenizerErrorV> = match index {
        TokenV::Id(id) => if !g.contains_key(id) {
            Err(TokenizerErrorV::VariableNotFound(id))
        } else {
            match g[id] {
                ValueV::Integer(i) => Ok(i as int),
                _ => Err(TokenizerErrorV::InvalidIndex(var)),
            }
        },
        TokenV::Integer(i) => Ok(i as int),
        _ => Err(TokenizerErrorV::InvalidIndex(var)),
    };
    match idx {
        Err(e) => Err(e),
        Ok(i) => if !g.contains_key(var) {
            Err(TokenizerErrorV::VariableNotFound(var))
        } else {
            match g[var] {
                ValueV::Array(a) => if 0 <= i < a.len() {
                    Ok(element_token(a[i]))
                } else {
                    Err(TokenizerErrorV::IndexOutOfBounds)
                },
                ValueV::String(s) => if 0 <= i < s.len() {
                    Ok(TokenV::String(seq![s[i]]))
                } else {
                    Err(TokenizerErrorV::IndexOutOfBounds)
                },
                _ => Err(TokenizerErrorV::TypeNotIndexable),
            }
        },
    }
}

/// `GET FROM var LEN`: the number of elements of an array, or the number of
/// UTF-8 bytes of a string.
pub open spec fn get_len(var: Seq<char>, g: Map<Seq<char>, ValueV>) -> Result<TokenV, TokenizerErrorV> {
    if !g.contains_key(var) {
        Err(TokenizerErrorV::VariableNotFound(var))
    } else {
        match g[var] {
            ValueV::Array(a) => Ok(TokenV::Integer((a.len() as usize) as i32)),
            ValueV::String(s) => Ok(TokenV::Integer((vstd::utf8::encode_utf8(s).len() as usize) as i32)),
            _ => Err(TokenizerErrorV::TypeHasNoLength),
        }
    }
}

/// The last pass: reduces the expression from the left.
pub open spec fn finish(l: Seq<TokenV>, g: Map<Seq<char>, ValueV>) -> EvalOutcome
    decreases l.len(),
{
    if l.len() >= 3 && l[1] is Operator {
        match resolve(l[0], g) {
            Err(e) => EvalOutcome::Error(e),
            Ok(a) => match resolve(l[2], g) {
                Err(e) => EvalOutcome::Error(e),
                Ok(b) => match combine(a, l[1]->Operator_0, b) {
                    EvalOutcome::Value(x) => finish(seq![x] + l.skip(3), g),
                    other => other,
                },
            },
        }
    } else if l.len() >= 5 && l[0] is Get && l[1] is From && l[2] is Id && l[3] is At {
        match get_at(l[2]->Id_0, l[4], g) {
            Err(e) => EvalOutcome::Error(e),
            Ok(x) => finish(seq![x] + l.skip(5), g),
        }
    } else if l.len() >= 4 && l[0] is Get && l[1] is From && l[2] is Id && l[3] is Len {
        match get_len(l[2]->Id_0, g) {
            Err(e) => EvalOutcome::Error(e),
            Ok(x) => finish(seq![x] + l.skip(4), g),
        }
    } else if l.len() >= 1 {
        outcome_of(resolve(l[0], g))
    } else {
        EvalOutcome::Error(TokenizerErrorV::InvalidExpression)
    }
}


/// An expression goes from the left, with no precedence among operators:
/// `a o1 b o2 c` on integers is `(a o1 b) o2 c`.
pub proof fn law_left_to_right(a: i32, o1: Op, b: i32, o2: Op, c: i32, g: Map<Seq<char>, ValueV>)
    ensures
        integer_operation(a, o1, b) matches EvalOutcome::Value(TokenV::Integer(x)) ==> finish(
            seq![
                TokenV::Integer(a),
                TokenV::Operator(o1),
                TokenV::Integer(b),
                TokenV::Operator(o2),
                TokenV::Integer(c),
            ],
            g,
        ) == integer_operation(x, o2, c),
{
    let l = seq![
        TokenV::Integer(a),
        TokenV::Operator(o1),
        TokenV::Integer(b),
        TokenV::Operator(o2),
        TokenV::Integer(c),
    ];
    if let EvalOutcome::Value(TokenV::Integer(x)) = integer_operation(a, o1, b) {
        assert(l[1] is Operator && l[1]->Operator_0 == o1);
        assert(resolve(l[0], g) == Ok::<TokenV, TokenizerErrorV>(TokenV::Integer(a)));
        assert(resolve(l[2], g) == Ok::<TokenV, TokenizerErrorV>(TokenV::Integer(b)));
        assert(combine(TokenV::Integer(a), o1, TokenV::Integer(b)) == integer_operation(a, o1, b));
        let l2 = seq![TokenV::Integer(x)] + l.skip(3);
        assert(l2 =~= seq![TokenV::Integer(x), TokenV::Operator(o2), TokenV::Integer(c)]);
        assert(finish(l, g) == finish(l2, g));
        assert(l2[1] is Operator && l2[1]->Operator_0 == o2);
        assert(resolve(l2[0], g) == Ok::<TokenV, TokenizerErrorV>(TokenV::Integer(x)));
        assert(resolve(l2[2], g) == Ok::<TokenV, TokenizerErrorV>(TokenV::Integer(c)));
        assert(combine(TokenV::Integer(x), o2, TokenV::Integer(c)) == integer_operation(x, o2, c));
        match integer_operation(x, o2, c) {
            EvalOutcome::Value(y) => {
                let l3 = seq![y] + l2.skip(3);
                assert(l3 =~= seq![y]);
                assert(finish(l2, g) == finish(l3, g));
                assert(y is Integer || y is Float);
                assert(finish(l3, g) == EvalOutcome::Value(y));
            },
            _ => {
                assert(finish(l2, g) == integer_operation(x, o2, c));
            },
        }
    }
}

/// `l2` is `l` with each `READLN` replaced by a string (a line of input).
pub open spec fn lines_read(l: Seq<TokenV>, l2: Seq<TokenV>) -> bool {
    &&& l2.len() == l.len()
    &&& forall|j: int|
        0 <= j < l.len() ==> if l[j] == TokenV::ReadLn {
            l2[j] is String
        } else {
            #[trigger] l2[j] == l[j]
        }
}

/// The expression once its verines are replaced by their values.
pub open spec fn eval_flat(l: Seq<TokenV>, g: Map<Seq<char>, ValueV>) -> EvalOutcome {
    if l.contains(TokenV::ReadLn) {
        EvalOutcome::Runtime
    } else {
        match convert(l, g) {
            Pass::Stop(o) => o,
            Pass::Tokens(l2) => finish(l2, g),
        }
    }
}

/// The values of the verines `rs[k..]`, where each has one.
proof fn lemma_range_values(l: Seq<TokenV>, rs: Seq<(int, int)>, k: int, g: Map<Seq<char>, ValueV>, vals: Seq<TokenV>)
    requires
        0 <= k <= rs.len(),
        eval_ranges(l, rs, k, g) == Pass::Tokens(vals),
    ensures
        vals.len() == rs.len() - k,
        forall|j: int|
            0 <= j < vals.len() ==> eval(l.subrange(rs[k + j].0 + 1, rs[k + j].1), g) == EvalOutcome::Value(
                #[trigger] vals[j],
            ),
    decreases rs.len() - k,
{
    if k < rs.len() {
        let o = rs[k].0;
        let c = rs[k].1;
        match eval(l.subrange(o + 1, c), g) {
            EvalOutcome::Value(v) => {
                match eval_ranges(l, rs, k + 1, g) {
                    Pass::Tokens(rest) => {
                        assert(vals =~= seq![v] + rest);
                        lemma_range_values(l, rs, k + 1, g, rest);
                        assert forall|j: int| 0 <= j < vals.len() implies eval(
                            l.subrange(rs[k + j].0 + 1, rs[k + j].1),
                            g,
                        ) == EvalOutcome::Value(#[trigger] vals[j]) by {
                            if j > 0 {
                                assert(vals[j] == rest[j - 1]);
                                assert(k + j == (k + 1) + (j - 1));
                            }
                        }
                    },
                    _ => {},
                }
            },
            _ => {},
        }
    }
}

/// The verines of an expression (the parts between bars) are evaluated
/// first, each on its own; the expression then goes on with their values
/// in their places.
pub proof fn law_verines_first(l: Seq<TokenV>, g: Map<Seq<char>, ValueV>, vals: Seq<TokenV>)
    requires
        eval_ranges(l, verine_ranges(l), 0, g) == Pass::Tokens(vals),
    ensures
        vals.len() == verine_ranges(l).len(),
        forall|j: int|
            0 <= j < vals.len() ==> eval(
                l.subrange(verine_ranges(l)[j].0 + 1, verine_ranges(l)[j].1),
                g,
            ) == EvalOutcome::Value(#[trigger] vals[j]),
        eval(l, g) == eval_flat(replaced(l, verine_ranges(l), vals, 0, 0), g),
{
    lemma_range_values(l, verine_ranges(l), 0, g, vals);
}

/// No token of `l` is a bar.
pub open spec fn no_bars(l: Seq<TokenV>) -> bool {
    forall|j: int| 0 <= j < l.len() ==> !(#[trigger] l[j] is OpenVerine) && !(l[j] is CloseVerine)
}

/// The number of opening bars of `l` less the number of closing ones.
pub open spec fn bar_depth(l: Seq<TokenV>) -> int
    decreases l.len(),
{
    if l.len() == 0 {
        0
    } else {
        bar_depth(l.drop_last()) + if l.last() is OpenVerine {
            1int
        } else if l.last() is CloseVerine {
            -1int
        } else {
            0int
        }
    }
}

/// Each closing bar of `l` closes an opening bar of `l`, and each opening
/// bar is closed.
pub open spec fn balanced(l: Seq<TokenV>) -> bool {
    &&& bar_depth(l) == 0
    &&& forall|j: int| 0 <= j <= l.len() ==> bar_depth(#[trigger] l.take(j)) >= 0
}

/// Scanning tokens without bars finds no verine.
proof fn lemma_scan_no_bars(l: Seq<TokenV>, i: int, k: int, level: int, open: int, acc: Seq<(int, int)>)
    requires
        0 <= i <= k <= l.len(),
        forall|j: int| i <= j < k ==> !(#[trigger] l[j] is OpenVerine) && !(l[j] is CloseVerine),
    ensures
        scan_ranges(l, i, level, open, acc) == scan_ranges(l, k, level, open, acc),
    decreases k - i,
{
    if i < k {
        lemma_scan_no_bars(l, i + 1, k, level, open, acc);
    }
}

/// Scanning a balanced part `l[s..s + n]` inside an open verine leaves the
/// verine open.
proof fn lemma_scan_balanced(l: Seq<TokenV>, s: int, n: int, j: int, open: int, acc: Seq<(int, int)>)
    requires
        0 <= s,
        0 <= j <= n,
        s + n <= l.len(),
        balanced(l.subrange(s, s + n)),
    ensures
        scan_ranges(l, s + j, 1 + bar_depth(l.subrange(s, s + n).take(j)), open, acc) == scan_ranges(
            l,
            s + n,
            1,
            open,
            acc,
        ),
    decreases n - j,
{
    let inner = l.subrange(s, s + n);
    if j < n {
        let d = bar_depth(inner.take(j));
        let t = l[s + j];
        assert(inner.take(j + 1).drop_last() =~= inner.take(j));
        assert(inner.take(j + 1).last() == t);
        assert(bar_depth(inner.take(j + 1)) >= 0);
        lemma_scan_balanced(l, s, n, j + 1, open, acc);
    } else {
        assert(inner.take(n) =~= inner);
    }
}

/// `replaced` copies the tokens from `i` on where no range is left.
proof fn lemma_replaced_copies(l: Seq<TokenV>, rs: Seq<(int, int)>, vals: Seq<TokenV>, i: int, k: int)
    requires
        0 <= i <= l.len(),
        k >= rs.len(),
    ensures
        replaced(l, rs, vals, i, k) == l.subrange(i, l.len() as int),
    decreases l.len() - i,
{
    if i < l.len() {
        lemma_replaced_copies(l, rs, vals, i + 1, k);
        assert(l.subrange(i, l.len() as int) =~= seq![l[i]] + l.subrange(i + 1, l.len() as int));
    } else {
        assert(l.subrange(i, l.len() as int) =~= Seq::<TokenV>::empty());
    }
}

/// `replaced` with one range `(o, c)` puts `v` in its place.
proof fn lemma_replaced_one(l: Seq<TokenV>, o: int, c: int, v: TokenV, i: int)
    requires
        0 <= i <= o < c < l.len(),
    ensures
        replaced(l, seq![(o, c)], seq![v], i, 0) == l.subrange(i, o) + seq![v] + l.subrange(c + 1, l.len() as int),
    decreases o - i,
{
    if i < o {
        lemma_replaced_one(l, o, c, v, i + 1);
        assert(l.subrange(i, o) =~= seq![l[i]] + l.subrange(i + 1, o));
    } else {
        lemma_replaced_copies(l, seq![(o, c)], seq![v], c + 1, 1);
        assert(l.subrange(i, o) =~= Seq::<TokenV>::empty());
    }
}

/// What `finish` gives as a value is a string, an integer or a float.
proof fn lemma_finish_value(l: Seq<TokenV>, g: Map<Seq<char>, ValueV>)
    ensures
        finish(l, g) matches EvalOutcome::Value(t) ==> is_value(t),
    decreases l.len(),
{
    if l.len() >= 3 && l[1] is Operator {
        match resolve(l[0], g) {
            Ok(a) => match resolve(l[2], g) {
                Ok(b) => match combine(a, l[1]->Operator_0, b) {
                    EvalOutcome::Value(x) => {
                        lemma_finish_value(seq![x] + l.skip(3), g);
                    },
                    _ => {},
                },
                _ => {},
            },
            _ => {},
        }
    } else if l.len() >= 5 && l[0] is Get && l[1] is From && l[2] is Id && l[3] is At {
        if let Ok(x) = get_at(l[2]->Id_0, l[4], g) {
            lemma_finish_value(seq![x] + l.skip(5), g);
        }
    } else if l.len() >= 4 && l[0] is Get && l[1] is From && l[2] is Id && l[3] is Len {
        if let Ok(x) = get_len(l[2]->Id_0, g) {
            lemma_finish_value(seq![x] + l.skip(4), g);
        }
    }
}

/// A bracketed verine is evaluated first and stands for its value: with no
/// bars in `xs` and `ys` and the bars of `inner` matched, the expression
/// `xs |inner| ys` gives what `xs v ys` gives where `inner` gives the
/// value `v`, and else what `inner` gives.
pub proof fn law_bracket_first(xs: Seq<TokenV>, inner: Seq<TokenV>, ys: Seq<TokenV>, g: Map<Seq<char>, ValueV>)
    requires
        no_bars(xs),
        no_bars(ys),
        balanced(inner),
    ensures
        eval(xs + seq![TokenV::OpenVerine] + inner + seq![TokenV::CloseVerine] + ys, g) == match eval(inner, g) {
            EvalOutcome::Value(v) => eval(xs + seq![v] + ys, g),
            other => other,
        },
{
    let l = xs + seq![TokenV::OpenVerine] + inner + seq![TokenV::CloseVerine] + ys;
    let o = xs.len() as int;
    let c = o + inner.len() + 1;
    assert(l.subrange(o + 1, c) =~= inner);
    assert forall|j: int| 0 <= j < o implies !(#[trigger] l[j] is OpenVerine) && !(l[j] is CloseVerine) by {
        assert(l[j] == xs[j]);
    }
    assert forall|j: int| c + 1 <= j < l.len() implies !(#[trigger] l[j] is OpenVerine) && !(l[j] is CloseVerine) by {
        assert(l[j] == ys[j - c - 1]);
    }
    lemma_scan_no_bars(l, 0, o, 0, 0, Seq::empty());
    assert(l[o] is OpenVerine);
    assert(inner.take(0) =~= Seq::<TokenV>::empty());
    lemma_scan_balanced(l, o + 1, inner.len() as int, 0, o, Seq::empty());
    assert(l[c] is CloseVerine);
    lemma_scan_no_bars(l, c + 1, l.len() as int, 0, o, seq![(o, c)]);
    assert(Seq::<(int, int)>::empty().push((o, c)) =~= seq![(o, c)]);
    assert(verine_ranges(l) == seq![(o, c)]);
    match eval(inner, g) {
        EvalOutcome::Value(v) => {
            lemma_finish_value(Seq::empty(), g);
            assert(eval_ranges(l, seq![(o, c)], 1, g) == Pass::Tokens(Seq::<TokenV>::empty()));
            assert(seq![v] + Seq::<TokenV>::empty() =~= seq![v]);
            assert(eval_ranges(l, seq![(o, c)], 0, g) == Pass::Tokens(seq![v]));
            lemma_replaced_one(l, o, c, v, 0);
            let l2 = xs + seq![v] + ys;
            assert(l.subrange(0, o) =~= xs);
            assert(l.subrange(c + 1, l.len() as int) =~= ys);
            assert(replaced(l, seq![(o, c)], seq![v], 0, 0) =~= l2);
            lemma_eval_value(inner, g);
            assert forall|j: int| 0 <= j < l2.len() implies !(#[trigger] l2[j] is OpenVerine) && !(
            l2[j] is CloseVerine) by {
                if j < o {
                    assert(l2[j] == xs[j]);
                } else if j > o {
                    assert(l2[j] == ys[j - o - 1]);
                }
            }
            lemma_scan_no_bars(l2, 0, l2.len() as int, 0, 0, Seq::empty());
            assert(verine_ranges(l2) =~= Seq::<(int, int)>::empty());
            lemma_replaced_copies(l2, Seq::empty(), Seq::empty(), 0, 0);
            assert(l2.subrange(0, l2.len() as int) =~= l2);
        },
        _ => {},
    }
}

/// What `eval` gives as a value is a string, an integer or a float.
pub proof fn lemma_eval_value(l: Seq<TokenV>, g: Map<Seq<char>, ValueV>)
    ensures
        eval(l, g) matches EvalOutcome::Value(t) ==> is_value(t),
{
    match eval_ranges(l, verine_ranges(l), 0, g) {
        Pass::Stop(o) => {
            lemma_ranges_stop(l, verine_ranges(l), 0, g);
        },
        Pass::Tokens(vals) => {
            let l1 = replaced(l, verine_ranges(l), vals, 0, 0);
            if !l1.contains(TokenV::ReadLn) {
                match convert(l1, g) {
                    Pass::Stop(o) => {
                        lemma_convert_stop(l1, g);
                    },
                    Pass::Tokens(l2) => {
                        lemma_finish_value(l2, g);
                    },
                }
            }
        },
    }
}

/// Where the pass over the verines stops, it stops at no value.
proof fn lemma_ranges_stop(l: Seq<TokenV>, rs: Seq<(int, int)>, k: int, g: Map<Seq<char>, ValueV>)
    ensures
        !(eval_ranges(l, rs, k, g) matches Pass::Stop(EvalOutcome::Value(_))),
    decreases rs.len() - k,
{
    if 0 <= k < rs.len() {
        lemma_ranges_stop(l, rs, k + 1, g);
    }
}

/// Where the conversion pass stops, it stops at no value.
proof fn lemma_convert_stop(l: Seq<TokenV>, g: Map<Seq<char>, ValueV>)
    ensures
        !(convert(l, g) matches Pass::Stop(EvalOutcome::Value(_))),
    decreases l.len(),
{
    if l.len() >= 2 && (l[0] is StringFrom || l[0] is IntegerFrom) {
        lemma_convert_stop(l.skip(2), g);
    } else if l.len() >= 1 {
        lemma_convert_stop(l.skip(1), g);
    }
}

/// The conversion pass leaves tokens without `STRING_FROM` and
/// `INTEGER_FROM` as they are.
proof fn lemma_convert_plain(l: Seq<TokenV>, g: Map<Seq<char>, ValueV>)
    requires
        forall|j: int| 0 <= j < l.len() ==> !(#[trigger] l[j] is StringFrom) && !(l[j] is IntegerFrom),
    ensures
        convert(l, g) == Pass::Tokens(l),
    decreases l.len(),
{
    if l.len() >= 1 {
        assert(!(l[0] is StringFrom) && !(l[0] is IntegerFrom));
        assert forall|j: int| 0 <= j < l.skip(1).len() implies !(#[trigger] l.skip(1)[j] is StringFrom) && !(
        l.skip(1)[j] is IntegerFrom) by {
            assert(l.skip(1)[j] == l[j + 1]);
        }
        lemma_convert_plain(l.skip(1), g);
        assert(seq![l[0]] + l.skip(1) =~= l);
    } else {
        assert(l =~= Seq::<TokenV>::empty());
    }
}

/// `GET FROM v AT idx`, with `idx` an integer literal or a variable, gives
/// what `get_at` gives.
proof fn lemma_eval_get_at(v: Seq<char>, idx: TokenV, g: Map<Seq<char>, ValueV>)
    requires
        idx is Integer || idx is Id,
    ensures
        eval(seq![TokenV::Get, TokenV::From, TokenV::Id(v), TokenV::At, idx], g) == outcome_of(get_at(v, idx, g)),
{
    let l = seq![TokenV::Get, TokenV::From, TokenV::Id(v), TokenV::At, idx];
    assert forall|j: int| 0 <= j < l.len() implies !(#[trigger] l[j] is OpenVerine) && !(l[j] is CloseVerine)
        && !(l[j] is StringFrom) && !(l[j] is IntegerFrom) && l[j] != TokenV::ReadLn by {}
    lemma_scan_no_bars(l, 0, l.len() as int, 0, 0, Seq::empty());
    assert(verine_ranges(l) =~= Seq::<(int, int)>::empty());
    lemma_replaced_copies(l, Seq::empty(), Seq::empty(), 0, 0);
    assert(l.subrange(0, l.len() as int) =~= l);
    assert(!l.contains(TokenV::ReadLn));
    lemma_convert_plain(l, g);
    assert(eval(l, g) == finish(l, g));
    assert(!(l[1] is Operator));
    match get_at(v, idx, g) {
        Ok(x) => {
            assert(seq![x] + l.skip(5) =~= seq![x]);
            lemma_get_at_value(v, idx, g);
            assert(resolve(x, g) == Ok::<TokenV, TokenizerErrorV>(x));
            assert(finish(seq![x], g) == EvalOutcome::Value(x));
        },
        Err(_) => {},
    }
}

/// What `get_at` gives is a string, an integer or a float.
proof fn lemma_get_at_value(v: Seq<char>, idx: TokenV, g: Map<Seq<char>, ValueV>)
    ensures
        get_at(v, idx, g) matches Ok(x) ==> is_value(x),
{
}

/// An index may be a variable: `GET FROM v AT i`, where the variable `i`
/// holds the integer `n`, gives what `GET FROM v AT n` gives; and with
/// `0 <= n` below the length of `v`, that is the element at `n` of an
/// array, or the character at `n` of a string.
pub proof fn law_get_at_variable_index(v: Seq<char>, i: Seq<char>, n: i32, g: Map<Seq<char>, ValueV>)
    requires
        g.contains_key(i),
        g[i] == ValueV::Integer(n),
    ensures
        eval(seq![TokenV::Get, TokenV::From, TokenV::Id(v), TokenV::At, TokenV::Id(i)], g) == eval(
            seq![TokenV::Get, TokenV::From, TokenV::Id(v), TokenV::At, TokenV::Integer(n)],
            g,
        ),
        g.contains_key(v) && g[v] is Array && 0 <= n < g[v]->Array_0.len() ==> match g[v]->Array_0[n as int] {
            ElementV::String(x) => eval(
                seq![TokenV::Get, TokenV::From, TokenV::Id(v), TokenV::At, TokenV::Id(i)],
                g,
            ) == EvalOutcome::Value(TokenV::String(x)),
            ElementV::Integer(x) => eval(
                seq![TokenV::Get, TokenV::From, TokenV::Id(v), TokenV::At, TokenV::Id(i)],
                g,
            ) == EvalOutcome::Value(TokenV::Integer(x)),
            ElementV::Float(x) => eval(
                seq![TokenV::Get, TokenV::From, TokenV::Id(v), TokenV::At, TokenV::Id(i)],
                g,
            ) == EvalOutcome::Value(TokenV::Float(x)),
        },
        g.contains_key(v) && g[v] is String && 0 <= n < g[v]->String_0.len() ==> eval(
            seq![TokenV::Get, TokenV::From, TokenV::Id(v), TokenV::At, TokenV::Id(i)],
            g,
        ) == EvalOutcome::Value(TokenV::String(seq![g[v]->String_0[n as int]])),
{
    lemma_eval_get_at(v, TokenV::Id(i), g);
    lemma_eval_get_at(v, TokenV::Integer(n), g);
}

/// A float and an integer combine as the float and the integer written as
/// a float do, in the same order: the left operand of the `f32` operation is
/// the left operand of the expression.
pub proof fn law_float_integer_operands(a: Seq<char>, op: Op, b: i32)
    ensures
        combine(TokenV::Float(a), op, TokenV::Integer(b)) == combine(
            TokenV::Float(a),
            op,
            TokenV::Float(int_text(b as int)),
        ),
        combine(TokenV::Integer(b), op, TokenV::Float(a)) == combine(
            TokenV::Float(int_text(b as int)),
            op,
            TokenV::Float(a),
        ),
        combine(TokenV::Float(a), op, TokenV::Integer(b)) == EvalOutcome::Value(
            TokenV::Float((f32_host().operation)(a, op, int_text(b as int))),
        ),
        combine(TokenV::Integer(b), op, TokenV::Float(a)) == EvalOutcome::Value(
            TokenV::Float((f32_host().operation)(int_text(b as int), op, a)),
        ),
        forall|c: Seq<char>|
            #[trigger] combine(TokenV::Float(a), op, TokenV::Float(c)) == EvalOutcome::Value(
                TokenV::Float((f32_host().operation)(a, op, c)),
            ),
{
}

/// The tokens a pass produces, or the outcome at which it stops.
pub enum Pass {
    Tokens(Seq<TokenV>),
    Stop(EvalOutcome),
}

/// `xs` in front of what a pass produces.
pub open spec fn prefixed(xs: Seq<TokenV>, p: Pass) -> Pass {
    match p {
        Pass::Tokens(ys) => Pass::Tokens(xs + ys),
        Pass::Stop(o) => Pass::Stop(o),
    }
}

/// The conversion pass: `STRING_FROM x` becomes the text of the integer `x`,
/// `INTEGER_FROM x` the integer that the string `x` denotes.
pub open spec fn convert(l: Seq<TokenV>, g: Map<Seq<char>, ValueV>) -> Pass
    decreases l.len(),
{
    if l.len() >= 2 && l[0] is StringFrom {
        match resolve(l[1], g) {
            Err(e) => Pass::Stop(EvalOutcome::Error(e)),
            Ok(TokenV::Integer(i)) => prefixed(
                seq![TokenV::String(int_text(i as int))],
                convert(l.skip(2), g),
            ),
            Ok(TokenV::Float(f)) => prefixed(
                seq![TokenV::String((f32_host().display)(f))],
                convert(l.skip(2), g),
            ),
            Ok(_) => Pass::Stop(EvalOutcome::Error(TokenizerErrorV::InvalidExpression)),
        }
    } else if l.len() >= 2 && l[0] is IntegerFrom {
        match resolve(l[1], g) {
            Err(e) => Pass::Stop(EvalOutcome::Error(e)),
            Ok(TokenV::String(s)) => match spec_parse_i32(s) {
                Some(v) => prefixed(seq![TokenV::Integer(v)], convert(l.skip(2), g)),
                None => Pass::Stop(EvalOutcome::Error(TokenizerErrorV::NumberNotAnInteger(s))),
            },
            Ok(_) => Pass::Stop(EvalOutcome::Error(TokenizerErrorV::InvalidExpression)),
        }
    } else if l.len() >= 1 {
        prefixed(seq![l[0]], convert(l.skip(1), g))
    } else {
        Pass::Tokens(Seq::empty())
    }
}

/// The top-level verines of `l` from index `i`: pairs of the index of an
/// opening bar and of its matching closing bar, in order.
pub open spec fn scan_ranges(l: Seq<TokenV>, i: int, level: int, open: int, acc: Seq<(int, int)>) -> Seq<(int, int)>
    decreases l.len() - i,
{
    if i < 0 || i >= l.len() {
        acc
    } else {
        match l[i] {
            TokenV::OpenVerine => scan_ranges(
                l,
                i + 1,
                level + 1,
                if level == 0 {
                    i
                } else {
                    open
                },
                acc,
            ),
            TokenV::CloseVerine => if level - 1 == 0 {
                scan_ranges(l, i + 1, 0, open, acc.push((open, i)))
            } else {
                scan_ranges(l, i + 1, level - 1, open, acc)
            },
            _ => scan_ranges(l, i + 1, level, open, acc),
        }
    }
}

pub open spec fn verine_ranges(l: Seq<TokenV>) -> Seq<(int, int)> {
    scan_ranges(l, 0, 0, 0, Seq::empty())
}

/// `l` with each range `rs[k]` (from index `i`, range `k` on) replaced by `vals[k]`.
pub open spec fn replaced(l: Seq<TokenV>, rs: Seq<(int, int)>, vals: Seq<TokenV>, i: int, k: int) -> Seq<TokenV>
    decreases l.len() - i,
{
    if i < 0 || i >= l.len() {
        Seq::empty()
    } else if 0 <= k < rs.len() && k < vals.len() && rs[k].0 == i && i <= rs[k].1 < l.len() {
        seq![vals[k]] + replaced(l, rs, vals, rs[k].1 + 1, k + 1)
    } else {
        seq![l[i]] + replaced(l, rs, vals, i + 1, k)
    }
}

/// The value of an expression.
pub open spec fn eval(l: Seq<TokenV>, g: Map<Seq<char>, ValueV>) -> EvalOutcome
    decreases l.len(), 2int, 0int,
{
    let rs = verine_ranges(l);
    match eval_ranges(l, rs, 0, g) {
        Pass::Stop(o) => o,
        Pass::Tokens(vals) => {
            let l1 = replaced(l, rs, vals, 0, 0);
            if l1.contains(TokenV::ReadLn) {
                EvalOutcome::Runtime
            } else {
                match convert(l1, g) {
                    Pass::Stop(o) => o,
                    Pass::Tokens(l2) => finish(l2, g),
                }
            }
        },
    }
}

/// The values of the verines `rs[k..]` of `l`, in order.
pub open spec fn eval_ranges(l: Seq<TokenV>, rs: Seq<(int, int)>, k: int, g: Map<Seq<char>, ValueV>) -> Pass
    decreases l.len(), 1int, rs.len() - k,
{
    if k < 0 || k >= rs.len() {
        Pass::Tokens(Seq::empty())
    } else {
        let o = rs[k].0;
        let c = rs[k].1;
        if 0 <= o < c < l.len() {
            match eval(l.subrange(o + 1, c), g) {
                EvalOutcome::Value(v) => prefixed(seq![v], eval_ranges(l, rs, k + 1, g)),
                other => Pass::Stop(other),
            }
        } else {
            Pass::Stop(EvalOutcome::Error(TokenizerErrorV::InvalidExpression))
        }
    }
}

pub open spec fn result_view(r: Result<Token, TokenizerError>) -> Result<TokenV, TokenizerErrorV> {
    match r {
        Ok(t) => Ok(t@),
        Err(e) => Err(e@),
    }
}

/// Whether an exec result agrees with a determined outcome.
pub open spec fn agrees(r: Result<Result<Token, TokenizerError>, Fault>, o: EvalOutcome) -> bool {
    match o {
        EvalOutcome::Value(t) => r matches Ok(Ok(x)) && x@ == t,
        EvalOutcome::Error(e) => r matches Ok(Err(x)) && x@ == e,
        EvalOutcome::Overflow => r == Err::<Result<Token, TokenizerError>, Fault>(
            Fault::IntegerOverflow,
        ),
        EvalOutcome::Runtime => true,
    }
}

/// The value a single token stands for.
fn resolve_token(t: &Token, g: &Variables) -> (r: Result<Token, TokenizerError>)
    ensures
        result_view(r) == resolve(t@, g@),
{
    match t {
        Token::Id(v) => match g.get(v.as_str()) {
            None => Err(TokenizerError::VariableNotFound(v.clone())),
            Some(ValueEnum::String(s)) => Ok(Token::String(s.clone())),
            Some(ValueEnum::Integer(i)) => Ok(Token::Integer(*i)),
            Some(ValueEnum::Float(f)) => Ok(Token::Float(f.clone())),
            Some(_) => Err(TokenizerError::InvalidExpression),
        },
        Token::Integer(i) => Ok(Token::Integer(*i)),
        Token::Float(f) => Ok(Token::Float(f.clone())),
        Token::String(s) => Ok(Token::String(s.clone())),
        _ => Err(TokenizerError::InvalidExpression),
    }
}

/// `a` followed by `b`.
fn concat(a: &str, b: &str) -> (r: String)
    ensures
        r@ == a@ + b@,
{
    let mut out = String::new();
    push_str(&mut out, a);
    push_str(&mut out, b);
    assert(out@ =~= a@ + b@);
    out
}

/// `l op r` on two values.
fn combine_values<R: Runtime>(l: &Token, op: Op, r: &Token, rt: &R) -> (res: Result<
    Result<Token, TokenizerError>,
    Fault,
>)
    ensures
        agrees(res, combine(l@, op, r@)),
{
    match (l, op, r) {
        (Token::String(a), Op::Plus, Token::String(b)) => Ok(Ok(Token::String(concat(a.as_str(), b.as_str())))),
        (Token::String(a), Op::Plus, Token::Integer(b)) => {
            let t = i32_text(*b);
            Ok(Ok(Token::String(concat(a.as_str(), t.as_str()))))
        },
        (Token::String(a), Op::Plus, Token::Float(b)) => {
            let t = rt.float_display(b.as_str());
            Ok(Ok(Token::String(concat(a.as_str(), t.as_str()))))
        },
        (Token::Integer(a), Op::Plus, Token::String(b)) => {
            let t = i32_text(*a);
            Ok(Ok(Token::String(concat(t.as_str(), b.as_str()))))
        },
        (Token::Float(a), Op::Plus, Token::String(b)) => {
            let t = rt.float_display(a.as_str());
            Ok(Ok(Token::String(concat(t.as_str(), b.as_str()))))
        },
        (Token::Integer(a), _, Token::Integer(b)) => {
            let a = *a;
            let b = *b;
            match op {
                Op::Plus => match a.checked_add(b) {
                    Some(v) => Ok(Ok(Token::Integer(v))),
                    None => Err(Fault::IntegerOverflow),
                },
                Op::Minus => match a.checked_sub(b) {
                    Some(v) => Ok(Ok(Token::Integer(v))),
                    None => Err(Fault::IntegerOverflow),
                },
                Op::Asterisk => match a.checked_mul(b) {
                    Some(v) => Ok(Ok(Token::Integer(v))),
                    None => Err(Fault::IntegerOverflow),
                },
                Op::Slash => match a.checked_div(b) {
                    Some(v) => Ok(Ok(Token::Integer(v))),
                    None => Ok(Err(TokenizerError::DivisionByZero)),
                },
                Op::Pow => Ok(Ok(Token::Float(rt.float_powi(a, b)))),
            }
        },
        (Token::Integer(a), _, Token::Float(b)) => {
            let t = i32_text(*a);
            Ok(Ok(Token::Float(rt.float_operation(t.as_str(), op, b.as_str()))))
        },
        (Token::Float(a), _, Token::Integer(b)) => {
            let t = i32_text(*b);
            Ok(Ok(Token::Float(rt.float_operation(a.as_str(), op, t.as_str()))))
        },
        (Token::Float(a), _, Token::Float(b)) => Ok(
            Ok(Token::Float(rt.float_operation(a.as_str(), op, b.as_str()))),
        ),
        _ => Ok(Err(TokenizerError::InvalidOperands)),
    }
}

/// The token for an element of an array.
fn element_to_token(e: &ArrayTypesEnum) -> (r: Token)
    ensures
        r@ == element_token(e@),
{
    match e {
        ArrayTypesEnum::String(s) => Token::String(s.clone()),
        ArrayTypesEnum::Integer(i) => Token::Integer(*i),
        ArrayTypesEnum::Float(f) => Token::Float(f.clone()),
    }
}

/// `GET FROM var AT index`.
fn get_element(var: &String, index: &Token, g: &Variables) -> (r: Result<Token, TokenizerError>)
    ensures
        result_view(r) == get_at(var@, index@, g@),
{
    let idx: i32 = match index {
        Token::Id(id) => match g.get(id.as_str()) {
            None => {
                return Err(TokenizerError::VariableNotFound(id.clone()));
            },
            Some(ValueEnum::Integer(i)) => *i,
            Some(_) => {
                return Err(TokenizerError::InvalidIndex(var.clone()));
            },
        },
        Token::Integer(i) => *i,
        _ => {
            return Err(TokenizerError::InvalidIndex(var.clone()));
        },
    };
    match g.get(var.as_str()) {
        None => Err(TokenizerError::VariableNotFound(var.clone())),
        Some(ValueEnum::Array(a)) => {
            if idx >= 0 && (idx as usize) < a.len() {
                Ok(element_to_token(&a[idx as usize]))
            } else {
                Err(TokenizerError::IndexOutOfBounds)
            }
        },
        Some(ValueEnum::String(s)) => {
            let cs = chars_of(s.as_str());
            if idx >= 0 && (idx as usize) < cs.len() {
                let mut t = String::new();
                push_char(&mut t, cs[idx as usize]);
                assert(t@ =~= seq![s@[idx as int]]);
                Ok(Token::String(t))
            } else {
                Err(TokenizerError::IndexOutOfBounds)
            }
        },
        Some(_) => Err(TokenizerError::TypeNotIndexable),
    }
}

/// `GET FROM var LEN`.
fn get_length(var: &String, g: &Variables) -> (r: Result<Token, TokenizerError>)
    ensures
        result_view(r) == get_len(var@, g@),
{
    match g.get(var.as_str()) {
        None => Err(TokenizerError::VariableNotFound(var.clone())),
        Some(ValueEnum::Array(a)) => Ok(Token::Integer(a.len() as i32)),
        Some(ValueEnum::String(s)) => Ok(Token::Integer(s.as_str().len() as i32)),
        Some(_) => Err(TokenizerError::TypeHasNoLength),
    }
}

/// The last pass of evaluation: reduces `l` from the left.
fn finish_tokens<R: Runtime>(l: &Vec<Token>, g: &Variables, rt: &R) -> (r: Result<
    Result<Token, TokenizerError>,
    Fault,
>)
    ensures
        agrees(r, finish(tokens_view(l@), g@)),
        r matches Ok(Ok(t)) ==> is_value(t@),
{
    let ghost lv = tokens_view(l@);
    let n = l.len();
    if n == 0 {
        return Ok(Err(TokenizerError::InvalidExpression));
    }
    let mut head = l[0].duplicate();
    assert(head@ == lv[0]);
    let mut k: usize = 1;
    assert(seq![head@] + lv.skip(1) =~= lv);
    loop
        invariant
            1 <= k <= n,
            n == l@.len(),
            lv == tokens_view(l@),
            finish(lv, g@) == finish(seq![head@] + lv.skip(k as int), g@),
        decreases n - k,
    {
        let ghost cur = seq![head@] + lv.skip(k as int);
        assert(cur.len() == 1 + n - k);
        assert(cur[0] == head@);
        assert(forall|j: int| 1 <= j < cur.len() ==> cur[j] == lv[k + j - 1] && lv[k + j - 1]
            == l@[k + j - 1]@);
        let is_op = n - k >= 2 && match &l[k] {
            Token::Operator(_) => true,
            _ => false,
        };
        if is_op {
            let op = match &l[k] {
                Token::Operator(o) => *o,
                _ => Op::Plus,
            };
            let a = match resolve_token(&head, g) {
                Ok(a) => a,
                Err(e) => {
                    return Ok(Err(e));
                },
            };
            let b = match resolve_token(&l[k + 1], g) {
                Ok(b) => b,
                Err(e) => {
                    return Ok(Err(e));
                },
            };
            match combine_values(&a, op, &b, rt) {
                Err(f) => {
                    return Err(f);
                },
                Ok(Err(e)) => {
                    return Ok(Err(e));
                },
                Ok(Ok(x)) => {
                    assert(cur.skip(3) =~= lv.skip(k + 2));
                    head = x;
                    k = k + 2;
                },
            }
        } else {
            let is_get = match &head {
                Token::Get => true,
                _ => false,
            };
            let is_from = n - k >= 3 && match &l[k] {
                Token::From => true,
                _ => false,
            };
            let var = if is_get && is_from {
                match &l[k + 1] {
                    Token::Id(v) => Some(v),
                    _ => None,
                }
            } else {
                None
            };
            let at = var.is_some() && n - k >= 4 && match &l[k + 2] {
                Token::At => true,
                _ => false,
            };
            let len = var.is_some() && match &l[k + 2] {
                Token::Len => true,
                _ => false,
            };
            if at {
                let v = var.unwrap();
                match get_element(v, &l[k + 3], g) {
                    Err(e) => {
                        return Ok(Err(e));
                    },
                    Ok(x) => {
                        assert(cur.skip(5) =~= lv.skip(k + 4));
                        head = x;
                        k = k + 4;
                    },
                }
            } else if len {
                let v = var.unwrap();
                match get_length(v, g) {
                    Err(e) => {
                        return Ok(Err(e));
                    },
                    Ok(x) => {
                        assert(cur.skip(4) =~= lv.skip(k + 3));
                        head = x;
                        k = k + 3;
                    },
                }
            } else {
                return match resolve_token(&head, g) {
                    Ok(t) => Ok(Ok(t)),
                    Err(e) => Ok(Err(e)),
                };
            }
        }
    }
}

proof fn lemma_prefixed_assoc(a: Seq<TokenV>, b: Seq<TokenV>, p: Pass)
    ensures
        prefixed(a, prefixed(b, p)) == prefixed(a + b, p),
{
    match p {
        Pass::Tokens(ys) => {
            assert(a + (b + ys) =~= (a + b) + ys);
        },
        _ => {},
    }
}

/// The conversion pass (`STRING_FROM`, `INTEGER_FROM`).
fn convert_tokens<R: Runtime>(l: &Vec<Token>, g: &Variables, rt: &R) -> (r: Result<
    Vec<Token>,
    Result<TokenizerError, Fault>,
>)
    ensures
        match convert(tokens_view(l@), g@) {
            Pass::Tokens(ts) => r matches Ok(v) && tokens_view(v@) == ts,
            Pass::Stop(EvalOutcome::Error(e)) => r matches Err(Ok(x)) && x@ == e,
            Pass::Stop(_) => false,
        },
{
    let ghost lv = tokens_view(l@);
    let n = l.len();
    let mut out: Vec<Token> = Vec::new();
    let mut i: usize = 0;
    assert(lv.skip(0) =~= lv);
    while i < n
        invariant
            i <= n == l@.len(),
            lv == tokens_view(l@),
            convert(lv, g@) == prefixed(tokens_view(out@), convert(lv.skip(i as int), g@)),
        decreases n - i,
    {
        let ghost rest = lv.skip(i as int);
        assert(rest.len() == n - i);
        assert(forall|j: int| 0 <= j < rest.len() ==> rest[j] == l@[i + j]@);
        let kind: u8 = if n - i >= 2 {
            match &l[i] {
                Token::StringFrom => 1,
                Token::IntegerFrom => 2,
                _ => 0,
            }
        } else {
            0
        };
        let ghost out_before = tokens_view(out@);
        if kind == 1 {
            match resolve_token(&l[i + 1], g) {
                Err(e) => {
                    return Err(Ok(e));
                },
                Ok(Token::Integer(v)) => {
                    out.push(Token::String(i32_text(v)));
                    proof {
                        assert(rest.skip(2) =~= lv.skip(i + 2));
                        assert(tokens_view(out@) =~= out_before + seq![TokenV::String(int_text(v as int))]);
                        lemma_prefixed_assoc(out_before, seq![TokenV::String(int_text(v as int))], convert(lv.skip(i + 2), g@));
                    }
                    i = i + 2;
                },
                Ok(Token::Float(f)) => {
                    let text = rt.float_display(f.as_str());
                    let ghost t = TokenV::String(text@);
                    out.push(Token::String(text));
                    proof {
                        assert(rest.skip(2) =~= lv.skip(i + 2));
                        assert(tokens_view(out@) =~= out_before + seq![t]);
                        lemma_prefixed_assoc(out_before, seq![t], convert(lv.skip(i + 2), g@));
                    }
                    i = i + 2;
                },
                Ok(_) => {
                    return Err(Ok(TokenizerError::InvalidExpression));
                },
            }
        } else if kind == 2 {
            match resolve_token(&l[i + 1], g) {
                Err(e) => {
                    return Err(Ok(e));
                },
                Ok(Token::String(s)) => {
                    let cs = chars_of(s.as_str());
                    match parse_i32(cs.as_slice()) {
                        Some(v) => {
                            out.push(Token::Integer(v));
                            proof {
                                assert(rest.skip(2) =~= lv.skip(i + 2));
                                assert(tokens_view(out@) =~= out_before + seq![TokenV::Integer(v)]);
                                lemma_prefixed_assoc(out_before, seq![TokenV::Integer(v)], convert(lv.skip(i + 2), g@));
                            }
                            i = i + 2;
                        },
                        None => {
                            return Err(Ok(TokenizerError::NumberNotAnInteger(s)));
                        },
                    }
                },
                Ok(_) => {
                    return Err(Ok(TokenizerError::InvalidExpression));
                },
            }
        } else {
            out.push(l[i].duplicate());
            proof {
                assert(rest.skip(1) =~= lv.skip(i + 1));
                assert(tokens_view(out@) =~= out_before + seq![rest[0]]);
                lemma_prefixed_assoc(out_before, seq![rest[0]], convert(lv.skip(i + 1), g@));
            }
            i = i + 1;
        }
    }
    assert(lv.skip(n as int) =~= Seq::<TokenV>::empty());
    assert(tokens_view(out@) + Seq::<TokenV>::empty() =~= tokens_view(out@));
    Ok(out)
}

/// The input pass: each `READLN` becomes the string of a line of input,
/// without its last character (the line end).
fn read_inputs<R: Runtime>(l: Vec<Token>, rt: &mut R) -> (r: Result<Vec<Token>, TokenizerError>)
    ensures
        !tokens_view(l@).contains(TokenV::ReadLn) ==> (r matches Ok(v) && tokens_view(v@)
            == tokens_view(l@)),
        r matches Ok(v) ==> tokens_view(v@).len() == tokens_view(l@).len() && forall|j: int|
            0 <= j < tokens_view(l@).len() ==> if tokens_view(l@)[j] == TokenV::ReadLn {
                tokens_view(v@)[j] is String
            } else {
                #[trigger] tokens_view(v@)[j] == tokens_view(l@)[j]
            },
        r matches Err(e) ==> e is StdInError && tokens_view(l@).contains(TokenV::ReadLn),
{
    let ghost lv = tokens_view(l@);
    let n = l.len();
    let mut out: Vec<Token> = Vec::new();
    let mut i: usize = 0;
    let ghost mut saw = false;
    while i < n
        invariant
            i <= n == l@.len(),
            lv == tokens_view(l@),
            saw ==> lv.contains(TokenV::ReadLn),
            !saw ==> tokens_view(out@) == lv.take(i as int),
            tokens_view(out@).len() == i,
            forall|j: int|
                0 <= j < i ==> if lv[j] == TokenV::ReadLn {
                    tokens_view(out@)[j] is String
                } else {
                    #[trigger] tokens_view(out@)[j] == lv[j]
                },
        decreases n - i,
    {
        assert(lv[i as int] == l@[i as int]@);
        let ghost before = tokens_view(out@);
        match &l[i] {
            Token::ReadLn => {
                proof {
                    saw = true;
                }
                match rt.read_line() {
                    None => {
                        assert(lv[i as int] == TokenV::ReadLn);
                        return Err(TokenizerError::StdInError);
                    },
                    Some(line) => {
                        let cs = chars_of(line.as_str());
                        let keep = if cs.len() > 0 {
                            cs.len() - 1
                        } else {
                            0
                        };
                        out.push(Token::String(string_of(cs.as_slice(), 0, keep)));
                        assert(tokens_view(out@) =~= before.push(tokens_view(out@)[i as int]));
                        assert(lv.contains(TokenV::ReadLn)) by {
                            assert(lv[i as int] == TokenV::ReadLn);
                        }
                    },
                }
            },
            t => {
                out.push(t.duplicate());
                assert(tokens_view(out@) =~= before.push(lv[i as int]));
                proof {
                    if !saw {
                        assert(lv.take(i + 1) =~= lv.take(i as int).push(lv[i as int]));
                        assert(tokens_view(out@) =~= before.push(lv[i as int]));
                    }
                }
            },
        }
        i = i + 1;
    }
    assert(lv.take(n as int) =~= lv);
    Ok(out)
}

/// The top-level verines of `l`.
fn find_ranges(l: &Vec<Token>) -> (r: Vec<(usize, usize)>)
    ensures
        r@.len() == verine_ranges(tokens_view(l@)).len(),
        forall|k: int|
            0 <= k < r@.len() ==> r@[k].0 as int == verine_ranges(tokens_view(l@))[k].0 && r@[k].1 as int
                == verine_ranges(tokens_view(l@))[k].1,
{
    let ghost lv = tokens_view(l@);
    let n = l.len();
    let mut acc: Vec<(usize, usize)> = Vec::new();
    let mut level: i128 = 0;
    let mut open: usize = 0;
    let mut i: usize = 0;
    let ghost mut accv: Seq<(int, int)> = Seq::empty();
    while i < n
        invariant
            i <= n == l@.len(),
            lv == tokens_view(l@),
            -(i as int) <= level <= i,
            open <= i,
            n <= usize::MAX,
            accv.len() == acc@.len(),
            forall|k: int|
                0 <= k < acc@.len() ==> acc@[k].0 as int == accv[k].0 && acc@[k].1 as int == accv[k].1,
            verine_ranges(lv) == scan_ranges(lv, i as int, level as int, open as int, accv),
        decreases n - i,
    {
        assert(lv[i as int] == l@[i as int]@);
        match &l[i] {
            Token::OpenVerine => {
                if level == 0 {
                    open = i;
                }
                level = level + 1;
            },
            Token::CloseVerine => {
                level = level - 1;
                if level == 0 {
                    acc.push((open, i));
                    proof {
                        accv = accv.push((open as int, i as int));
                    }
                }
            },
            _ => {},
        }
        i = i + 1;
    }
    acc
}

/// `l` with each verine `rs[k]` replaced by `vals[k]`.
fn replace_ranges(l: &Vec<Token>, rs: &Vec<(usize, usize)>, vals: Vec<Token>) -> (r: Vec<Token>)
    ensures
        tokens_view(r@) == replaced(
            tokens_view(l@),
            rs@.map_values(|p: (usize, usize)| (p.0 as int, p.1 as int)),
            tokens_view(vals@),
            0,
            0,
        ),
{
    let ghost lv = tokens_view(l@);
    let ghost rv = rs@.map_values(|p: (usize, usize)| (p.0 as int, p.1 as int));
    let ghost vv = tokens_view(vals@);
    let n = l.len();
    let mut out: Vec<Token> = Vec::new();
    let mut i: usize = 0;
    let mut k: usize = 0;
    while i < n
        invariant
            i <= n == l@.len(),
            lv == tokens_view(l@),
            rv == rs@.map_values(|p: (usize, usize)| (p.0 as int, p.1 as int)),
            vv == tokens_view(vals@),
            replaced(lv, rv, vv, 0, 0) == tokens_view(out@) + replaced(lv, rv, vv, i as int, k as int),
        decreases n - i,
    {
        let ghost before = tokens_view(out@);
        if k < rs.len() && k < vals.len() && rs[k].0 == i && i <= rs[k].1 && rs[k].1 < n {
            out.push(vals[k].duplicate());
            assert(tokens_view(out@) =~= before + seq![vv[k as int]]);
            i = rs[k].1 + 1;
            k = k + 1;
        } else {
            out.push(l[i].duplicate());
            assert(tokens_view(out@) =~= before + seq![lv[i as int]]);
            i = i + 1;
        }
    }
    assert(tokens_view(out@) + Seq::<TokenV>::empty() =~= tokens_view(out@));
    out
}

/// A copy of the tokens `l[from..to]`.
fn sub_tokens(l: &Vec<Token>, from: usize, to: usize) -> (r: Vec<Token>)
    requires
        from <= to <= l@.len(),
    ensures
        tokens_view(r@) == tokens_view(l@).subrange(from as int, to as int),
{
    let mut out: Vec<Token> = Vec::new();
    let mut i = from;
    while i < to
        invariant
            from <= i <= to <= l@.len(),
            tokens_view(out@) == tokens_view(l@).subrange(from as int, i as int),
        decreases to - i,
    {
        let ghost before = tokens_view(out@);
        out.push(l[i].duplicate());
        assert(tokens_view(out@) =~= before.push(l@[i as int]@));
        assert(tokens_view(l@).subrange(from as int, i + 1) =~= tokens_view(l@).subrange(
            from as int,
            i as int,
        ).push(l@[i as int]@));
        i = i + 1;
    }
    out
}

impl<'a> Tokenizer<'a> {
    /// Evaluates the tokens of a verine expression against the global
    /// variables. The runtime gives the lines that `READLN` reads and the
    /// results of float operations.
    pub fn evaluate<R: Runtime>(tokens: Vec<Token>, global_variables: &Variables, rt: &mut R) -> (r: Result<
        Result<Token, TokenizerError>,
        Fault,
    >)
        ensures
            agrees(r, eval(tokens_view(tokens@), global_variables@)),
            r matches Ok(Ok(t)) ==> is_value(t@),
            eval_ranges(tokens_view(tokens@), verine_ranges(tokens_view(tokens@)), 0, global_variables@) matches Pass::Tokens(vals)
                ==> (r matches Ok(Err(e)) && e is StdInError) || exists|l2: Seq<TokenV>|
                #[trigger] lines_read(replaced(tokens_view(tokens@), verine_ranges(tokens_view(tokens@)), vals, 0, 0), l2)
                    && agrees(r, eval_flat(l2, global_variables@)),
        decreases tokens@.len(),
    {
        let ghost lv = tokens_view(tokens@);
        let ghost g = global_variables@;
        let rs = find_ranges(&tokens);
        let ghost rv = rs@.map_values(|p: (usize, usize)| (p.0 as int, p.1 as int));
        assert(rv =~= verine_ranges(lv));
        let mut vals: Vec<Token> = Vec::new();
        let ghost mut dep = false;
        let mut k: usize = 0;
        while k < rs.len()
            invariant
                k <= rs@.len(),
                lv == tokens_view(tokens@),
                g == global_variables@,
                rv == rs@.map_values(|p: (usize, usize)| (p.0 as int, p.1 as int)),
                rv == verine_ranges(lv),
                vals@.len() == k,
                dep ==> eval(lv, g) is Runtime && eval_ranges(lv, rv, 0, g) is Stop,
                !dep ==> eval_ranges(lv, rv, 0, g) == prefixed(
                    tokens_view(vals@),
                    eval_ranges(lv, rv, k as int, g),
                ),
            decreases rs.len() - k,
        {
            let o = rs[k].0;
            let c = rs[k].1;
            assert(rv[k as int] == (o as int, c as int));
            if !(o < c && c < tokens.len()) {
                return Ok(Err(TokenizerError::InvalidExpression));
            }
            let sub = sub_tokens(&tokens, o + 1, c);
            let ghost sv = tokens_view(sub@);
            match Self::evaluate(sub, global_variables, rt) {
                Err(f) => {
                    return Err(f);
                },
                Ok(Err(e)) => {
                    return Ok(Err(e));
                },
                Ok(Ok(v)) => {
                    let ghost before = tokens_view(vals@);
                    vals.push(v);
                    proof {
                        assert(tokens_view(vals@) =~= before + seq![vals@[k as int]@]);
                        if !dep {
                            if eval(sv, g) is Runtime {
                                assert(eval_ranges(lv, rv, k as int, g) is Stop);
                                dep = true;
                            } else {
                                lemma_prefixed_assoc(
                                    before,
                                    seq![vals@[k as int]@],
                                    eval_ranges(lv, rv, k + 1, g),
                                );
                            }
                        }
                    }
                },
            }
            k = k + 1;
        }
        proof {
            if !dep {
                assert(tokens_view(vals@) + Seq::<TokenV>::empty() =~= tokens_view(vals@));
            }
        }
        let l1 = replace_ranges(&tokens, &rs, vals);
        let l1b = match read_inputs(l1, rt) {
            Err(e) => {
                return Ok(Err(e));
            },
            Ok(v) => v,
        };
        let ghost read = tokens_view(l1b@);
        proof {
            assert(lines_read(tokens_view(l1@), read));
            assert(!read.contains(TokenV::ReadLn)) by {
                if read.contains(TokenV::ReadLn) {
                    let j = choose|j: int| 0 <= j < read.len() && read[j] == TokenV::ReadLn;
                    assert(tokens_view(l1@)[j] != TokenV::ReadLn ==> read[j] == tokens_view(l1@)[j]);
                }
            }
        }
        let l2 = match convert_tokens(&l1b, global_variables, rt) {
            Err(Ok(e)) => {
                assert(agrees(Ok(Err(e)), eval_flat(read, g)));
                return Ok(Err(e));
            },
            Err(Err(f)) => {
                return Err(f);
            },
            Ok(v) => v,
        };
        let res = finish_tokens(&l2, global_variables, rt);
        assert(agrees(res, eval_flat(read, g)));
        res
    }

    /// Splits `input` into tokens and evaluates them against the global variables.
    pub fn tokenize_and_evaluate<R: Runtime>(input: &str, global_variables: &Variables, rt: &mut R) -> (r: Result<
        Result<Token, TokenizerError>,
        Fault,
    >)
        ensures
            match spec_tokenize(input@) {
                LexOutcome::Tokens(ts) => agrees(r, eval(ts, global_variables@)) && (eval_ranges(ts, verine_ranges(ts), 0, global_variables@) matches Pass::Tokens(vals)
                    ==> (r matches Ok(Err(e)) && e is StdInError) || exists|l2: Seq<TokenV>|
                    #[trigger] lines_read(replaced(ts, verine_ranges(ts), vals, 0, 0), l2) && agrees(
                        r,
                        eval_flat(l2, global_variables@),
                    )),
                LexOutcome::UnexpectedCharacter(c) => r matches Ok(
                    Err(TokenizerError::UnexpectedCharacter(d)),
                ) && d == c,
                LexOutcome::IntegerOverflow => r == Err::<Result<Token, TokenizerError>, Fault>(
                    Fault::IntegerOverflow,
                ),
                LexOutcome::NoProgress => r == Err::<Result<Token, TokenizerError>, Fault>(
                    Fault::NoProgress,
                ),
            },
            r matches Ok(Ok(t)) ==> is_value(t@),
    {
        let chars = chars_of(input);
        let mut tokenizer = Tokenizer::new(chars.as_slice());
        match tokenizer.tokenize() {
            Err(f) => Err(f),
            Ok(Err(e)) => Ok(Err(e)),
            Ok(Ok(tokens)) => Self::evaluate(tokens, global_variables, rt),
        }
    }
}

} // verus!
