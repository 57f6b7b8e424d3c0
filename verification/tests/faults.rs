use minosrus_lang::execution::ExecData;
use minosrus_lang::fault::Fault;
use minosrus_lang::program::repl_input;
use minosrus_lang::runtime::{Comparison, Runtime};
use minosrus_lang::tokenizer::make_tokens;
use minosrus_lang::verine_expression::Op;

struct Silent;

impl Runtime for Silent {
    fn read_line(&mut self) -> Option<String> {
        None
    }
    fn show(&mut self, _printed: &Vec<String>) {}
    fn stop(&mut self) {}
    fn float_operation(&self, _l: &str, _op: Op, _r: &str) -> String {
        String::new()
    }
    fn float_powi(&self, _l: i32, _r: i32) -> String {
        String::new()
    }
    fn float_display(&self, f: &str) -> String {
        f.to_string()
    }
    fn float_debug(&self, f: &str) -> String {
        f.to_string()
    }
    fn float_compare(&self, _l: &str, _r: &str) -> Option<Comparison> {
        None
    }
}

fn fault_of(line: &str) -> Option<Fault> {
    let mut data = ExecData::new();
    make_tokens(line.to_string(), &mut data).err()
}

#[test]
fn verine_cut_inside_a_character() {
    assert_eq!(fault_of("ÉÉ(X)"), Some(Fault::CharBoundary));
}

#[test]
fn verine_with_too_large_integer() {
    assert_eq!(fault_of("PRINT (99999999999)"), Some(Fault::IntegerOverflow));
}

#[test]
fn verine_with_a_lone_point() {
    assert_eq!(fault_of("PRINT (.)"), Some(Fault::NoProgress));
}

#[test]
fn verine_inside_an_array_is_not_scanned() {
    assert_eq!(fault_of("[\"(\"](X)"), Some(Fault::MissingVerine));
}

#[test]
fn non_ascii_before_a_verine_shifts_its_text() {
    let mut data = ExecData::new();
    assert_eq!(
        format!("{:?}", make_tokens("É (X)".to_string(), &mut data)),
        "Ok([(\"ERROR_MESSAGE\", String(\"INVALID CHARACTER IN VERINE!\")), (\"ERROR_MESSAGE\", String(\"VARIABLE/FUNCTION NAME INCLUDES INVALID CHARACTERS!\"))])"
    );
}

#[test]
fn true_elif_on_the_last_line() {
    let mut data = ExecData::new();
    let mut rt = Silent;
    for line in ["IF 1 == 2 START", "    PRINT 1", "    ELIF 1 == 1 START"] {
        assert_eq!(repl_input(&mut data, line.to_string(), &mut rt, 100), Ok(None));
    }
    assert_eq!(repl_input(&mut data, "    END".to_string(), &mut rt, 100), Err(Fault::MissingLine));
}

#[test]
fn endless_loop_runs_out_of_steps() {
    let mut data = ExecData::new();
    let mut rt = Silent;
    for line in ["WHILE 1 == 1 START", "    PRINT 1"] {
        assert_eq!(repl_input(&mut data, line.to_string(), &mut rt, 100), Ok(None));
    }
    assert_eq!(repl_input(&mut data, "    END".to_string(), &mut rt, 100), Err(Fault::OutOfSteps));
}

#[test]
fn no_steps_left() {
    let mut data = ExecData::new();
    let mut rt = Silent;
    assert_eq!(data.execute_block_code(Vec::new(), false, &mut rt, 0), Err(Fault::OutOfSteps));
}
