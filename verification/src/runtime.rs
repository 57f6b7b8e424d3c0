//! What the interpreter asks of the program that runs it: lines of input,
//! showing what has been printed so far, stopping, and the arithmetic,
//! comparison and printing of `f32` values (held in this library as their
//! decimal text). What a program prints is kept by the library itself, in
//! `ExecData::printed`.

use vstd::prelude::*;

use crate::verine_expression::Op;

verus! {

/// The order of two floats, where they have one.
#[derive(Debug, Clone, Copy, PartialEq, Eq, Structural)]
pub enum Comparison {
    Less,
    Equal,
    Greater,
}

/// The `f32` arithmetic of a host, on floats written as text: what each of
/// its float services gives for given arguments.
pub struct FloatHost {
    /// `l op r` (`**` is `powf`), written as `Display` writes it.
    pub operation: spec_fn(Seq<char>, Op, Seq<char>) -> Seq<char>,
    /// `(l as f32).powi(r)`, written as `Display` writes it.
    pub powi: spec_fn(i32, i32) -> Seq<char>,
    /// The float that a text denotes, written as `Display` writes it.
    pub display: spec_fn(Seq<char>) -> Seq<char>,
    /// The float that a text denotes, written as `Debug` writes it.
    pub debug: spec_fn(Seq<char>) -> Seq<char>,
    /// `partial_cmp` of the floats that two texts denote.
    pub compare: spec_fn(Seq<char>, Seq<char>) -> Option<Comparison>,
}

/// The order `c` read the other way round.
pub open spec fn reversed(c: Option<Comparison>) -> Option<Comparison> {
    match c {
        Some(Comparison::Less) => Some(Comparison::Greater),
        Some(Comparison::Greater) => Some(Comparison::Less),
        other => other,
    }
}

/// `compare` gives, for two arguments swapped, the order read the other way
/// round (`a < b` exactly where `b > a`, as `PartialOrd` has it).
pub open spec fn is_dual(compare: spec_fn(Seq<char>, Seq<char>) -> Option<Comparison>) -> bool {
    forall|x: Seq<char>, y: Seq<char>| #[trigger] compare(x, y) == reversed(compare(y, x))
}

/// The `f32` arithmetic, on floats written as text. The library knows of it
/// that each service gives a result that depends on its arguments alone, and
/// that its order is dual.
pub open spec fn f32_host() -> FloatHost {
    choose|h: FloatHost| is_dual(h.compare)
}

/// The order of `f32_host` is dual.
pub proof fn lemma_f32_order_dual()
    ensures
        is_dual(f32_host().compare),
{
    let h = FloatHost {
        operation: |l: Seq<char>, op: Op, r: Seq<char>| l,
        powi: |l: i32, r: i32| Seq::<char>::empty(),
        display: |f: Seq<char>| f,
        debug: |f: Seq<char>| f,
        compare: |x: Seq<char>, y: Seq<char>| None::<Comparison>,
    };
    assert(is_dual(h.compare));
}

/// The services that the interpreter uses and does not compute itself.
///
/// The float services compute in `f32` (`f32_host`). Nothing is assumed of
/// the lines that `read_line` gives.
pub trait Runtime {
    /// Reads a line of input as `io::stdin().read_line` gives it (with its
    /// line end); `None` if reading fails.
    fn read_line(&mut self) -> Option<String>;

    /// Hands over the lines printed so far (those of `ExecData::printed`),
    /// before input may be read or the program may end, so that a host that
    /// writes output as it comes can write the ones it has not written yet.
    fn show(&mut self, printed: &Vec<String>);

    /// Ends the program (the language's `STOP`).
    fn stop(&mut self);

    /// `l op r` computed in `f32` on the floats that `l` and `r` denote,
    /// written as `Display` writes the result (`**` is `powf`).
    fn float_operation(&self, l: &str, op: Op, r: &str) -> (s: String)
        ensures
            s@ == (f32_host().operation)(l@, op, r@),
    ;

    /// `(l as f32).powi(r)`, written as `Display` writes it.
    fn float_powi(&self, l: i32, r: i32) -> (s: String)
        ensures
            s@ == (f32_host().powi)(l, r),
    ;

    /// The float that `f` denotes, written as `Display` writes it.
    fn float_display(&self, f: &str) -> (s: String)
        ensures
            s@ == (f32_host().display)(f@),
    ;

    /// The float that `f` denotes, written as `Debug` writes it.
    fn float_debug(&self, f: &str) -> (s: String)
        ensures
            s@ == (f32_host().debug)(f@),
    ;

    /// `partial_cmp` of the floats that `l` and `r` denote.
    fn float_compare(&self, l: &str, r: &str) -> (c: Option<Comparison>)
        ensures
            c == (f32_host().compare)(l@, r@),
    ;
}

} // verus!
