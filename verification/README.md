# minosrus_lang

An interpreter for minosrus_lang, a small BASIC-like language written in
upper case, with its logic verified by Verus.

```
> LET COUNTER = 1
> WHILE COUNTER <= 5 START
    > PRINT | "COUNTER: " + COUNTER |
    > LET COUNTER = | COUNTER + 1 |
    > END
```

## Layout

- `src/` — the verified library:
  - `tokenizer.rs` splits a line into tokens; its contract is the whole
    tokenizer as a specification (`spec_make_tokens`);
  - `verine_expression.rs` and `evaluation.rs` tokenize and evaluate verine
    expressions, from the left and without precedence;
  - `execution.rs` runs a tokenized line: statements, blocks and functions;
    `exec_outcome` states what a line does, including how the `END` that
    closes a block runs it (`IF`/`ELIF`/`ELSE`, `WHILE`) and how `DO` runs a
    function; `execution/tokenizer.rs` is a tokenizer for lines of whole
    words;
  - `program.rs` handles a line typed at the prompt and a program file;
  - `variables.rs`, `text.rs`, `runtime.rs`, `fault.rs` hold the variables,
    the character and number handling, the services the interpreter asks of
    its host (input, output, `f32` arithmetic), and the states in which it
    stops.
- `app/main.rs` — the command-line program (`--repl`, `--execute <file>`):
  reading, printing and `f32` arithmetic.
- `tests/` — tests of the library.

A verine may be written between bars, as above, or between parentheses.
What a program prints is kept in `ExecData::printed`, in order.

Floats are held by the library as the text of their `f32` value; their
arithmetic, comparison and printing are done by the host through the
`Runtime` trait, whose contracts name the `f32` results (`f32_host`), so
that what an expression, a condition or a `PRINT` gives is stated exactly
for floats too.
