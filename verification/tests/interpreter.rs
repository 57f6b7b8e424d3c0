use minosrus_lang::execution::ExecData;
use minosrus_lang::program::repl_input;
use minosrus_lang::runtime::{Comparison, Runtime};
use minosrus_lang::verine_expression::Op;

struct TestRuntime {
    inputs: Vec<String>,
    output: Vec<String>,
    shown: usize,
    stopped: bool,
}

impl TestRuntime {
    fn new() -> TestRuntime {
        TestRuntime { inputs: Vec::new(), output: Vec::new(), shown: 0, stopped: false }
    }
}

fn float(s: &str) -> f32 {
    s.parse::<f32>().unwrap()
}

impl Runtime for TestRuntime {
    fn read_line(&mut self) -> Option<String> {
        if self.inputs.is_empty() {
            None
        } else {
            Some(self.inputs.remove(0))
        }
    }
    fn show(&mut self, printed: &Vec<String>) {
        self.output.extend(printed[self.shown..].iter().cloned());
        self.shown = printed.len();
    }
    fn stop(&mut self) {
        self.stopped = true;
    }
    fn float_operation(&self, l: &str, op: Op, r: &str) -> String {
        let (a, b) = (float(l), float(r));
        let v = match op {
            Op::Plus => a + b,
            Op::Minus => a - b,
            Op::Asterisk => a * b,
            Op::Slash => a / b,
            Op::Pow => a.powf(b),
        };
        format!("{}", v)
    }
    fn float_powi(&self, l: i32, r: i32) -> String {
        format!("{}", (l as f32).powi(r))
    }
    fn float_display(&self, f: &str) -> String {
        format!("{}", float(f))
    }
    fn float_debug(&self, f: &str) -> String {
        format!("{:?}", float(f))
    }
    fn float_compare(&self, l: &str, r: &str) -> Option<Comparison> {
        match float(l).partial_cmp(&float(r)) {
            Some(std::cmp::Ordering::Less) => Some(Comparison::Less),
            Some(std::cmp::Ordering::Equal) => Some(Comparison::Equal),
            Some(std::cmp::Ordering::Greater) => Some(Comparison::Greater),
            None => None,
        }
    }
}

/// Types each line at the prompt; returns what was printed, messages included.
fn session(lines: &[&str]) -> (ExecData, Vec<String>) {
    let mut data = ExecData::new();
    let mut rt = TestRuntime::new();
    for line in lines {
        let input = format!("{}\n", line);
        let answer = repl_input(&mut data, input, &mut rt, u64::MAX).unwrap();
        rt.show(&data.printed);
        if let Some(m) = answer {
            rt.output.push(m);
        }
    }
    (data, rt.output)
}

fn variable(data: &ExecData, name: &str) -> String {
    format!("{:?}", data.global_variables.get(name))
}

#[test]
fn readme_print_hello_world() {
    let (_, out) = session(&["PRINT \"HELLO WORLD\""]);
    assert_eq!(out, vec!["HELLO WORLD"]);
}

#[test]
fn readme_while_counter() {
    let (data, out) = session(&[
        "LET COUNTER = 1",
        "WHILE COUNTER <= 5 START",
        "    PRINT | \"COUNTER: \" + COUNTER |",
        "    LET COUNTER = | COUNTER + 1 |",
        "    END",
    ]);
    assert_eq!(out, vec!["COUNTER: 1", "COUNTER: 2", "COUNTER: 3", "COUNTER: 4", "COUNTER: 5"]);
    assert_eq!(variable(&data, "COUNTER"), "Some(Integer(6))");
    assert_eq!(data.indentation, "");
}

#[test]
fn while_counter_with_parentheses() {
    let (data, out) = session(&[
        "LET COUNTER = 1",
        "WHILE COUNTER <= 5 START",
        "    PRINT (\"COUNTER: \" + COUNTER)",
        "    LET COUNTER = (COUNTER + 1)",
        "    END",
    ]);
    assert_eq!(out, vec!["COUNTER: 1", "COUNTER: 2", "COUNTER: 3", "COUNTER: 4", "COUNTER: 5"]);
    assert_eq!(variable(&data, "COUNTER"), "Some(Integer(6))");
    assert_eq!(data.indentation, "");
}

#[test]
fn let_binds_a_literal() {
    let (data, out) = session(&["LET X = 42", "LET S = \"HI\"", "LET F = 1.5"]);
    assert!(out.is_empty());
    assert_eq!(variable(&data, "X"), "Some(Integer(42))");
    assert_eq!(variable(&data, "S"), "Some(String(\"HI\"))");
    assert_eq!(variable(&data, "F"), "Some(Float(\"1.5\"))");
}

#[test]
fn let_copies_a_variable() {
    let (data, _) = session(&["LET X = 7", "LET Y = X"]);
    assert_eq!(variable(&data, "Y"), "Some(Integer(7))");
}

#[test]
fn let_from_missing_variable() {
    let (_, out) = session(&["LET Y = X"]);
    assert_eq!(out, vec!["EXECUTION ERROR: THERE IS NO VARIABLE CALLED X!"]);
}

#[test]
fn print_integer_and_float() {
    let (_, out) = session(&["LET X = 5", "PRINT X", "PRINT 2.50", "PRINT -3"]);
    assert_eq!(out, vec!["5", "2.5", "-3"]);
}

#[test]
fn reset_forgets_variables() {
    let (data, out) = session(&["LET X = 1", "RESET", "PRINT X"]);
    assert_eq!(variable(&data, "X"), "None");
    assert_eq!(out, vec!["EXECUTION ERROR: THERE IS NO VARIABLE CALLED X!"]);
}

#[test]
fn syntax_error_is_reported() {
    let (data, out) = session(&["PRINT \"HELLO"]);
    assert_eq!(out, vec!["SYNTAX ERROR: STRING ISN'T CLOSED!"]);
    assert_eq!(data.indentation, "");
}

#[test]
fn lowercase_input_is_refused() {
    let (data, out) = session(&["let x = 1"]);
    assert_eq!(out, vec!["SYNTAX ERROR: INPUT INCLUDES LOWERCASE CHARACTER!"]);
    assert_eq!(variable(&data, "X"), "None");
}

#[test]
fn blank_input_does_nothing() {
    let (_, out) = session(&["   "]);
    assert!(out.is_empty());
}

#[test]
fn comment_does_nothing() {
    let (data, out) = session(&["# A COMMENT"]);
    assert!(out.is_empty());
    assert_eq!(data.indentation, "");
}

#[test]
fn line_must_start_with_a_predefined_name() {
    let (_, out) = session(&["X = 5"]);
    assert_eq!(
        out,
        vec!["EXECUTION ERROR: EVERY LINE HAS TO START WITH A PREDEFINED NAME (EXCEPT FOR COMMENT-LINES) !"]
    );
}

#[test]
fn wrong_order_is_refused() {
    let (_, out) = session(&["LET X 5", "PRINT", "START"]);
    assert_eq!(
        out,
        vec![
            "EXECUTION ERROR: THERE ARE LESS TOKENS THAN 'LET' NEEDS!",
            "EXECUTION ERROR: THERE ARE LESS TOKENS THAN 'PRINT' NEEDS!",
            "EXECUTION ERROR: 'START' IS NEVER AT THE BEGINNING!",
        ]
    );
}

#[test]
fn if_runs_its_lines_when_true() {
    let (data, out) = session(&["IF 1 < 2 START", "    PRINT \"YES\"", "    END"]);
    assert_eq!(out, vec!["YES"]);
    assert_eq!(data.indentation, "");
}

#[test]
fn if_takes_the_else_part() {
    let (_, out) = session(&[
        "IF 2 < 1 START",
        "    PRINT \"YES\"",
        "    ELSE",
        "    PRINT \"NO\"",
        "    END",
    ]);
    assert_eq!(out, vec!["NO"]);
}

#[test]
fn if_takes_a_true_elif() {
    let (_, out) = session(&[
        "IF 2 < 1 START",
        "    PRINT \"ONE\"",
        "    ELIF 1 == 1 START",
        "    PRINT \"TWO\"",
        "    END",
    ]);
    assert_eq!(out, vec!["TWO"]);
}

#[test]
fn strings_compare_in_order() {
    let (_, out) = session(&["IF \"ABC\" < \"ABD\" START", "    PRINT \"LESS\"", "    END"]);
    assert_eq!(out, vec!["LESS"]);
}

#[test]
fn block_opens_indentation() {
    let (data, out) = session(&["IF 1 == 1 START"]);
    assert!(out.is_empty());
    assert_eq!(data.indentation, "    ");
    assert_eq!(data.block_code.len(), 1);
    assert_eq!(data.current_block_type.0, "normal");
}

#[test]
fn functions_are_defined_and_called() {
    let (data, out) = session(&["FN GREET START", "    PRINT \"HI\"", "    END", "DO GREET", "DO GREET"]);
    assert_eq!(out, vec!["HI", "HI"]);
    assert_eq!(data.indentation, "");
    assert_eq!(data.current_block_type.0, "");
}

#[test]
fn function_inside_block_is_refused() {
    let (_, out) = session(&["IF 1 == 1 START", "    FN F START"]);
    assert_eq!(out, vec!["EXECUTION ERROR: FUNCTIONS CAN'T BE INSIDE OF OTHER CODE BLOCKS!"]);
}

#[test]
fn unknown_function() {
    let (_, out) = session(&["DO NOTHING"]);
    assert_eq!(out, vec!["EXECUTION ERROR: THERE IS NO FUNCTION CALLED NOTHING!"]);
}

#[test]
fn array_statements() {
    let (data, out) = session(&[
        "LET A = [1, 2, 3]",
        "PUSH 4 ONTO A",
        "POP FROM A",
        "INSERT 9 INTO A AT 0",
        "REMOVE FROM A AT 1",
        "SET A AT 0 TO \"X\"",
    ]);
    assert!(out.is_empty(), "{:?}", out);
    assert_eq!(variable(&data, "A"), "Some(Array([String(\"X\"), Integer(2), Integer(3)]))");
}

#[test]
fn array_index_out_of_bounds() {
    let (_, out) = session(&["LET A = [1]", "REMOVE FROM A AT 5", "SET A AT 1 TO 2", "INSERT 1 INTO A AT 3"]);
    assert_eq!(
        out,
        vec![
            "EXECUTION ERROR: INDEX IS OUT OF BOUNDS!",
            "EXECUTION ERROR: INDEX IS OUT OF BOUNDS!",
            "EXECUTION ERROR: INDEX IS OUT OF BOUNDS!",
        ]
    );
}

#[test]
fn pop_from_non_array() {
    let (_, out) = session(&["LET A = 1", "POP FROM A"]);
    assert_eq!(out, vec!["EXECUTION  ERROR: YOU CAN ONLY POP FROM ARRAYS!"]);
}

#[test]
fn help_for_statements() {
    let (_, out) = session(&["HELP_FOR POP", "HELP_FOR ONTO"]);
    assert_eq!(
        out,
        vec![
            "-SINGLE OPTION-",
            "1: 'PREDEFINED_NAME:POP, PREDEFINED_NAME:FROM, VARIABLE/FUNCTION_NAME:?'",
            "EXECUTION ERROR: CAN'T PRINT HELP FOR ONTO BECAUSE IT'S NOT A PREDEFINED NAME WHICH IS AT THE BEGINNING OF A LINE!",
        ]
    );
}

#[test]
fn verine_errors_are_execution_errors() {
    let (_, out) = session(&["PRINT (1 / 0)", "PRINT (Y + 1)"]);
    assert_eq!(
        out,
        vec!["EXECUTION ERROR: CAN'T DIVIDE BY ZERO!", "EXECUTION ERROR: THERE IS NO VARIABLE CALLED Y!"]
    );
}

#[test]
fn verines_go_from_the_left() {
    let (_, out) = session(&["PRINT (1 + 2 * 3)"]);
    assert_eq!(out, vec!["9"]);
}

#[test]
fn stop_calls_the_runtime() {
    let mut data = ExecData::new();
    let mut rt = TestRuntime::new();
    let r = repl_input(&mut data, "STOP\n".to_string(), &mut rt, u64::MAX).unwrap();
    assert!(r.is_none());
    assert!(rt.stopped);
}

#[test]
fn readln_reads_a_line() {
    let mut data = ExecData::new();
    let mut rt = TestRuntime::new();
    rt.inputs.push("HELLO\n".to_string());
    repl_input(&mut data, "LET X = (READLN)\n".to_string(), &mut rt, u64::MAX).unwrap();
    assert_eq!(variable(&data, "X"), "Some(String(\"HELLO\"))");
}

#[test]
fn bars_inside_a_parenthesized_verine_group() {
    let (_, out) = session(&["PRINT (2 * |1 + 3|)"]);
    assert_eq!(out, vec!["8"]);
}

#[test]
fn host_results_are_values() {
    let (_, out) = session(&["PRINT (2 ** 3)", "PRINT (\"A\" + 1.5)", "PRINT (1.5 + \"A\")"]);
    assert_eq!(out, vec!["8.0", "A1.5", "1.5A"]);
}

#[test]
fn print_writes_the_value() {
    let (data, out) = session(&["PRINT \"HELLO WORLD\"", "PRINT -12"]);
    assert_eq!(out, vec!["HELLO WORLD", "-12"]);
    assert_eq!(data.printed, vec!["HELLO WORLD", "-12"]);
}

#[test]
fn float_conditions_pick_one_branch() {
    let (_, out) = session(&[
        "IF 1.5 < 2.5 START",
        "    PRINT \"YES\"",
        "    ELSE",
        "    PRINT \"NO\"",
        "    END",
        "IF 2.5 < 1.5 START",
        "    PRINT \"YES\"",
        "    ELSE",
        "    PRINT \"NO\"",
        "    END",
    ]);
    assert_eq!(out, vec!["YES", "NO"]);
}

#[test]
fn float_loop_that_never_holds() {
    let (data, out) = session(&[
        "LET N = 0",
        "WHILE 2.5 < 1.5 START",
        "    LET N = (N + 1)",
        "    END",
        "PRINT N",
    ]);
    assert_eq!(out, vec!["0"]);
    assert_eq!(variable(&data, "N"), "Some(Integer(0))");
}

#[test]
fn print_of_a_float_variable() {
    let (_, out) = session(&["LET F = (1.25 * 2)", "PRINT F", "IF F == 2.5 START", "    PRINT \"SAME\"", "    END"]);
    assert_eq!(out, vec!["2.5", "SAME"]);
}

#[test]
fn float_comparisons_with_swapped_operands() {
    let (_, out) = session(&[
        "IF 1.5 < 2.5 START",
        "    PRINT \"A\"",
        "    END",
        "IF 2.5 > 1.5 START",
        "    PRINT \"B\"",
        "    END",
        "IF 1.5 != 2.5 START",
        "    PRINT \"C\"",
        "    END",
        "IF 1.5 == 2.5 START",
        "    PRINT \"D\"",
        "    END",
    ]);
    assert_eq!(out, vec!["A", "B", "C"]);
}
