//! minosrus_lang: an interpreter for a small BASIC-like language of upper-case
//! words, with verine expressions `( ... )` evaluated from the left.
//!
//! - `tokenizer`: the tokens of a line (and the values of the language);
//! - `verine_expression`, `evaluation`: tokenizing and evaluating verines;
//! - `execution`: running a line, blocks (`IF`, `WHILE`) and functions;
//! - `program`: a line typed at the prompt, and a program file;
//! - `variables`: variables and functions by name;
//! - `text`: characters, numbers and strings;
//! - `runtime`: what the interpreter asks of the program that runs it;
//! - `fault`: the states in which the interpreter stops.

pub mod evaluation;
pub mod execution;
pub mod fault;
pub mod program;
pub mod runtime;
pub mod text;
pub mod tokenizer;
pub mod variables;
pub mod verine_expression;
