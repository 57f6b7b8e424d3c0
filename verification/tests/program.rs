use minosrus_lang::program::{includes_lowercase, is_blank, leading_indentation, run_file};
use minosrus_lang::runtime::{Comparison, Runtime};
use minosrus_lang::verine_expression::Op;

struct Printer;

impl Runtime for Printer {
    fn read_line(&mut self) -> Option<String> {
        None
    }
    fn show(&mut self, _printed: &Vec<String>) {}
    fn stop(&mut self) {}
    fn float_operation(&self, _l: &str, _op: Op, _r: &str) -> String {
        String::new()
    }
    fn float_powi(&self, l: i32, r: i32) -> String {
        format!("{}", (l as f32).powi(r))
    }
    fn float_display(&self, f: &str) -> String {
        format!("{}", f.parse::<f32>().unwrap())
    }
    fn float_debug(&self, f: &str) -> String {
        format!("{:?}", f.parse::<f32>().unwrap())
    }
    fn float_compare(&self, _l: &str, _r: &str) -> Option<Comparison> {
        None
    }
}

/// Runs a file; returns every line to print: what the program printed, then
/// the report.
fn run(lines: &[&str]) -> Vec<String> {
    let lines: Vec<String> = lines.iter().map(|l| l.to_string()).collect();
    let mut rt = Printer;
    run_file(&lines, &mut rt, u64::MAX).unwrap()
}

#[test]
fn file_runs_its_lines() {
    let all = run(&["LET X = 2", "", "PRINT X", "IF X == 2 START", "    PRINT \"TWO\"", "    END"]);
    assert_eq!(all, vec!["2", "TWO"]);
}

#[test]
fn file_with_syntax_errors_runs_nothing() {
    let report = run(&["PRINT \"A", "PRINT 1", "LET X = [1"]);
    assert_eq!(
        report,
        vec![
            "- ERROR OCCURED ON LINE NR. 1: 'PRINT \"A'",
            "  -> SYNTAX ERROR: STRING ISN'T CLOSED!",
            "- ERROR OCCURED ON LINE NR. 3: 'LET X = [1'",
            "  -> SYNTAX ERROR: A [ ALWAYS NEEDS A ] ! ORDER: [ AND THEN ] !",
            "\nABORTING DUE THE PREVIOUS 2 ERRORS!",
            "INTERPRETER STOPPED!",
        ]
    );
}

#[test]
fn file_with_one_syntax_error() {
    let report = run(&["PRINT \"A"]);
    assert_eq!(report[2], "\nABORTING DUE THE PREVIOUS 1 ERROR!");
}

#[test]
fn file_with_lowercase_stops() {
    let report = run(&["PRINT 1", "print 2"]);
    assert_eq!(
        report,
        vec![
            "- ERROR OCCURED ON LINE NR. 2: 'print 2'",
            "  -> INPUT ERROR: INPUT INCLUDES LOWERCASE CHARACTER!",
            "INTERPRETER STOPPPED!",
        ]
    );
}

#[test]
fn file_with_runtime_error() {
    let report = run(&["PRINT 1", "PRINT X", "PRINT 3"]);
    assert_eq!(
        report,
        vec![
            "1",
            "- ERROR OCCURED ON LINE NR. 2: 'PRINT X'",
            "  -> EXECUTION ERROR: THERE IS NO VARIABLE CALLED X!",
            "INTERPRETER STOPPED DUE PREVIOUS RUNTIME ERROR!",
        ]
    );
}

#[test]
fn file_with_wrong_indentation() {
    let report = run(&["  PRINT 1"]);
    assert_eq!(
        report,
        vec![
            "- ERROR OCCURED ON LINE NR. 1: '  PRINT 1'",
            "  -> INDENTATION ERROR!",
            "INTERPRETER STOPPED DUE PREVIOUS RUNTIME ERROR!",
        ]
    );
}

#[test]
fn file_with_open_block() {
    let report = run(&["IF 1 == 1 START", "\tPRINT 1"]);
    assert_eq!(
        report,
        vec![
            "- ERROR OCCURED ON LINE NR. 2: '\tPRINT 1'",
            "  -> EXECUTION ERROR: BLOCK CODE ISN'T CLOSED!",
            "INTERPRETER STOPPED DUE PREVIOUS RUNTIME ERROR!",
        ]
    );
}

#[test]
fn line_checks() {
    assert!(is_blank(" \t "));
    assert!(!is_blank(" X "));
    assert!(includes_lowercase("ABc"));
    assert!(!includes_lowercase("ABC"));
    assert_eq!(leading_indentation("  \tX "), 6);
    assert_eq!(leading_indentation("X"), 0);
}
