use minosrus_lang::execution::ExecData;
use minosrus_lang::program::repl_input;
use minosrus_lang::runtime::{Comparison, Runtime};
use minosrus_lang::verine_expression::Op;

struct Printer;

impl Runtime for Printer {
    fn read_line(&mut self) -> Option<String> {
        None
    }
    fn show(&mut self, _printed: &Vec<String>) {}
    fn stop(&mut self) {}
    fn float_operation(&self, _l: &str, _op: Op, _r: &str) -> String {
        String::new()
    }
    fn float_powi(&self, _l: i32, _r: i32) -> String {
        String::new()
    }
    fn float_display(&self, f: &str) -> String {
        f.to_string()
    }
    fn float_debug(&self, f: &str) -> String {
        f.to_string()
    }
    fn float_compare(&self, _l: &str, _r: &str) -> Option<Comparison> {
        None
    }
}

/// Types each line at the prompt; returns the state and what was printed,
/// messages included.
fn typed(lines: &[&str]) -> (ExecData, Vec<String>) {
    let mut data = ExecData::new();
    let mut rt = Printer;
    let mut output: Vec<String> = Vec::new();
    let mut shown = 0;
    for line in lines {
        let answer = repl_input(&mut data, line.to_string(), &mut rt, 1000).unwrap();
        output.extend(data.printed[shown..].iter().cloned());
        shown = data.printed.len();
        if let Some(m) = answer {
            output.push(m);
        }
    }
    (data, output)
}

#[test]
fn a_true_elif_runs_one_line() {
    let (_, out) = typed(&[
        "IF 2 < 1 START",
        "    PRINT \"ONE\"",
        "    ELIF 1 == 1 START",
        "    PRINT \"TWO\"",
        "    PRINT \"THREE\"",
        "    END",
    ]);
    assert_eq!(out, vec!["TWO"]);
}

#[test]
fn the_last_true_elif_wins() {
    let (_, out) = typed(&[
        "IF 2 < 1 START",
        "    PRINT \"ONE\"",
        "    ELIF 1 == 1 START",
        "    PRINT \"TWO\"",
        "    ELIF 2 == 2 START",
        "    PRINT \"THREE\"",
        "    END",
    ]);
    assert_eq!(out, vec!["THREE"]);
}

#[test]
fn a_true_if_runs_up_to_the_first_elif() {
    let (_, out) = typed(&[
        "IF 1 < 2 START",
        "    PRINT \"ONE\"",
        "    PRINT \"TWO\"",
        "    ELIF 1 == 1 START",
        "    PRINT \"THREE\"",
        "    END",
    ]);
    assert_eq!(out, vec!["ONE", "TWO"]);
}

#[test]
fn no_branch_holds() {
    let (data, out) = typed(&[
        "IF 2 < 1 START",
        "    PRINT \"ONE\"",
        "    ELIF 1 == 2 START",
        "    PRINT \"TWO\"",
        "    END",
    ]);
    assert!(out.is_empty());
    assert_eq!(data.indentation, "");
    assert_eq!(data.current_block_type.0, "");
}

#[test]
fn elif_with_a_missing_variable() {
    let (_, out) = typed(&[
        "IF 2 < 1 START",
        "    PRINT \"ONE\"",
        "    ELIF X == 1 START",
        "    PRINT \"TWO\"",
        "    END",
    ]);
    assert_eq!(out, vec!["EXECUTION ERROR: THERE IS NO VARIABLE CALLED X!"]);
}

#[test]
fn elif_reads_variables() {
    let (_, out) = typed(&[
        "LET X = 3",
        "IF 2 < 1 START",
        "    PRINT \"ONE\"",
        "    ELIF X == 3 START",
        "    PRINT \"TWO\"",
        "    END",
    ]);
    assert_eq!(out, vec!["TWO"]);
}

#[test]
fn if_reads_variables() {
    let (_, out) = typed(&["LET A = 2", "IF A > 1 START", "    PRINT \"BIG\"", "    END"]);
    assert_eq!(out, vec!["BIG"]);
}

#[test]
fn print_reads_a_variable() {
    let (_, out) = typed(&["LET A = \"HI\"", "PRINT A"]);
    assert_eq!(out, vec!["HI"]);
}

#[test]
fn print_a_missing_variable() {
    let (_, out) = typed(&["PRINT A"]);
    assert_eq!(out, vec!["EXECUTION ERROR: THERE IS NO VARIABLE CALLED A!"]);
}

#[test]
fn while_with_a_missing_variable() {
    let (_, out) = typed(&["WHILE X < 3 START", "    PRINT 1", "    END"]);
    assert_eq!(out, vec!["EXECUTION ERROR: THERE IS NO VARIABLE CALLED X!"]);
}

#[test]
fn while_that_never_holds() {
    let (data, out) = typed(&["LET X = 5", "WHILE X < 3 START", "    PRINT 1", "    END"]);
    assert!(out.is_empty());
    assert_eq!(data.indentation, "");
    assert_eq!(data.block_code.len(), 2);
}

#[test]
fn function_changes_variables() {
    let (data, out) = typed(&[
        "LET N = 1",
        "FN BUMP START",
        "    LET N = (N + 1)",
        "    END",
        "DO BUMP",
        "DO BUMP",
        "PRINT N",
    ]);
    assert_eq!(out, vec!["3"]);
    assert_eq!(format!("{:?}", data.global_variables.get("N")), "Some(Integer(3))");
}

#[test]
fn nested_block_in_a_loop_keeps_its_verines() {
    let (data, out) = typed(&[
        "LET N = 0",
        "WHILE N < 3 START",
        "    IF N == 1 START",
        "        PRINT (N + 10)",
        "        END",
        "    LET N = (N + 1)",
        "    END",
    ]);
    assert_eq!(out, vec!["11"]);
    assert_eq!(format!("{:?}", data.global_variables.get("N")), "Some(Integer(3))");
}

#[test]
fn push_then_pop_gives_the_array_back() {
    let (data, out) = typed(&["LET A = [1, 2]", "PUSH 3 ONTO A", "POP FROM A"]);
    assert!(out.is_empty());
    let (data2, _) = typed(&["LET A = [1, 2]"]);
    assert_eq!(
        format!("{:?}", data.global_variables.get("A")),
        format!("{:?}", data2.global_variables.get("A"))
    );
}

#[test]
fn comparisons_with_swapped_operands() {
    let (_, out) = typed(&[
        "IF 1 < 2 START",
        "    PRINT \"A\"",
        "    END",
        "IF 2 > 1 START",
        "    PRINT \"B\"",
        "    END",
        "IF \"X\" <= \"Y\" START",
        "    PRINT \"C\"",
        "    END",
        "IF \"Y\" >= \"X\" START",
        "    PRINT \"D\"",
        "    END",
    ]);
    assert_eq!(out, vec!["A", "B", "C", "D"]);
}

#[test]
fn do_runs_the_lines_of_the_function() {
    let (data, out) = typed(&["FN TWICE START", "    PRINT 1", "    PRINT 2", "    END", "DO TWICE"]);
    assert_eq!(out, vec!["1", "2"]);
    assert_eq!(data.printed, vec!["1", "2"]);
}

#[test]
fn help_for_prints_its_orders() {
    let (_, out) = typed(&["HELP_FOR POP"]);
    assert_eq!(out[0], "-SINGLE OPTION-");
    assert!(out[1].starts_with("1: '"));
}

#[test]
fn if_else_runs_the_lines_before_else_when_true() {
    let (_, out) = typed(&[
        "IF 1 < 2 START",
        "    PRINT \"A\"",
        "    PRINT \"B\"",
        "    ELSE",
        "    PRINT \"C\"",
        "    END",
    ]);
    assert_eq!(out, vec!["A", "B"]);
}

#[test]
fn do_gives_what_its_lines_give_one_by_one() {
    let (called, out1) = typed(&["LET A = [1]", "FN F START", "    PUSH 2 ONTO A", "    LET B = 3", "    END", "DO F"]);
    let (direct, out2) = typed(&["LET A = [1]", "PUSH 2 ONTO A", "LET B = 3"]);
    assert_eq!(out1, out2);
    assert_eq!(
        format!("{:?}", called.global_variables.get("A")),
        format!("{:?}", direct.global_variables.get("A"))
    );
    assert_eq!(
        format!("{:?}", called.global_variables.get("B")),
        format!("{:?}", direct.global_variables.get("B"))
    );
}

#[test]
fn a_block_stops_at_its_first_failing_line() {
    let (data, out) = typed(&["IF 1 < 2 START", "    LET A = 1", "    PRINT Z", "    LET B = 2", "    END"]);
    assert_eq!(out, vec!["EXECUTION ERROR: THERE IS NO VARIABLE CALLED Z!"]);
    assert!(data.global_variables.get("A").is_some());
    assert!(data.global_variables.get("B").is_none());
}

#[test]
fn end_runs_the_else_part_when_false() {
    let (data, out) = typed(&[
        "IF 2 < 1 START",
        "    PRINT \"A\"",
        "    ELSE",
        "    PRINT \"C\"",
        "    LET X = 7",
        "    END",
    ]);
    assert_eq!(out, vec!["C"]);
    assert_eq!(data.indentation, "");
    assert_eq!(format!("{:?}", data.global_variables.get("X")), "Some(Integer(7))");
}

#[test]
fn help_for_numbers_every_order() {
    let (_, out) = typed(&["HELP_FOR IF"]);
    assert_eq!(out[0], "-MULTIPLE OPTIONS-");
    assert_eq!(out.len(), 26);
    assert!(out[1].starts_with("1: '"));
    assert!(out[25].starts_with("25: '"));
}
