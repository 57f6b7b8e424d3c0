//! What the interpreter does where it has no rule: it stops.

use vstd::prelude::*;

verus! {

/// A state from which the interpreter cannot go on. The functions of this
/// library return it where the language gives no result: the caller reports
/// it and stops the program.
#[derive(Debug, Clone, Copy, PartialEq, Eq, Structural)]
pub enum Fault {
    /// An integer literal or an integer operation left the range of `i32`.
    IntegerOverflow,
    /// The expression tokenizer met a `.` that starts no token; it would make
    /// no further progress.
    NoProgress,
    /// A line reached a state that the interpreter treats as impossible
    /// (such as a comparison between a string and an integer).
    Unreachable,
    /// An `ELIF` whose condition holds stands on the last line of its block,
    /// so the line that it would run does not exist.
    MissingLine,
    /// A line to tokenize is empty or holds only whitespace.
    EmptyLine,
    /// A string is cut at a byte offset that lies inside a character or past
    /// its end.
    CharBoundary,
    /// A verine that is never closed takes the rest of the line, which then
    /// has no part.
    NoParts,
    /// A line has an empty part (an array or a verine followed by a space
    /// and more text).
    EmptyPart,
    /// A part of a line is a lone `"`.
    LoneQuote,
    /// A line has more verines than the scan for verine expressions found.
    MissingVerine,
    /// The program made more loop rounds or nested calls than the step
    /// budget that the caller gave.
    OutOfSteps,
}

} // verus!
