use minosrus_lang::execution::{
    ExecData, add_indentation, check_block_code_condition, is_block_condition_defined,
    is_key_and_value_order_right,
    predefined_name_order, subtract_indentation, update_while_condition_values,
};
use minosrus_lang::runtime::{Comparison, Runtime};
use minosrus_lang::tokenizer::{ValueEnum, make_tokens};
use minosrus_lang::variables::Variables;
use minosrus_lang::verine_expression::Op;

struct NoRuntime;

impl Runtime for NoRuntime {
    fn read_line(&mut self) -> Option<String> {
        None
    }
    fn show(&mut self, _printed: &Vec<String>) {}
    fn stop(&mut self) {}
    fn float_operation(&self, _l: &str, _op: Op, _r: &str) -> String {
        String::new()
    }
    fn float_powi(&self, _l: i32, _r: i32) -> String {
        String::new()
    }
    fn float_display(&self, f: &str) -> String {
        f.to_string()
    }
    fn float_debug(&self, f: &str) -> String {
        f.to_string()
    }
    fn float_compare(&self, l: &str, r: &str) -> Option<Comparison> {
        match l.parse::<f32>().unwrap().partial_cmp(&r.parse::<f32>().unwrap()) {
            Some(std::cmp::Ordering::Less) => Some(Comparison::Less),
            Some(std::cmp::Ordering::Equal) => Some(Comparison::Equal),
            Some(std::cmp::Ordering::Greater) => Some(Comparison::Greater),
            None => None,
        }
    }
}

fn line(text: &str) -> Vec<(String, ValueEnum)> {
    let mut data = ExecData::new();
    make_tokens(text.to_string(), &mut data).unwrap()
}

#[test]
fn indentation_levels() {
    let mut s = String::new();
    add_indentation(&mut s);
    assert_eq!(s, "    ");
    add_indentation(&mut s);
    assert_eq!(s, "        ");
    subtract_indentation(&mut s);
    assert_eq!(s, "    ");
    subtract_indentation(&mut s);
    assert_eq!(s, "");
}

#[test]
fn order_checks() {
    assert_eq!(is_key_and_value_order_right(&line("LET X = 1")), Ok(()));
    assert_eq!(is_key_and_value_order_right(&line("LET X = [1]")), Ok(()));
    assert_eq!(is_key_and_value_order_right(&line("PRINT (1)")), Ok(()));
    assert_eq!(
        is_key_and_value_order_right(&line("POP FROM X Y")),
        Err("EXECUTION ERROR: THERE ARE MORE TOKENS THAN 'POP' NEEDS!".to_string())
    );
    assert_eq!(
        is_key_and_value_order_right(&line("POP ONTO X")),
        Err("EXECUTION ERROR: VALUE ORDER FOR 'POP' ISN'T RIGHT!".to_string())
    );
    assert_eq!(
        is_key_and_value_order_right(&line("POP 1 X")),
        Err("EXECUTION ERROR: KEY ORDER FOR 'POP' ISN'T RIGHT!".to_string())
    );
    assert_eq!(
        is_key_and_value_order_right(&line("LET X + 1")),
        Err("EXECUTION ERROR: KEY ORDER FOR 'LET' ISN'T RIGHT!".to_string())
    );
    assert_eq!(
        is_key_and_value_order_right(&line("FROM X")),
        Err("EXECUTION ERROR: 'FROM' IS NEVER AT THE BEGINNING!".to_string())
    );
}

#[test]
fn order_table() {
    assert!(predefined_name_order("LET").is_some());
    assert!(predefined_name_order("ONTO").is_none());
}

#[test]
fn block_conditions() {
    let rt = NoRuntime;
    assert!(check_block_code_condition("<", &vec![line("IF 1 < 2 START")], &rt));
    assert!(!check_block_code_condition(">=", &vec![line("IF 1 < 2 START")], &rt));
    assert!(check_block_code_condition("!=", &vec![line("IF \"A\" < \"B\" START")], &rt));
    assert!(check_block_code_condition("==", &vec![line("IF \"A\" < \"A\" START")], &rt));
    assert!(check_block_code_condition("<=", &vec![line("IF 1.5 < 2.5 START")], &rt));
}

#[test]
fn block_conditions_that_cannot_be_compared() {
    assert!(is_block_condition_defined("<", &vec![line("IF 1 < 2 START")]));
    assert!(is_block_condition_defined("==", &vec![line("IF 1.5 < 2.5 START")]));
    assert!(!is_block_condition_defined("<", &vec![line("IF 1 < \"A\" START")]));
    assert!(!is_block_condition_defined("<", &vec![line("IF 1 < 2.5 START")]));
    assert!(!is_block_condition_defined("=", &vec![line("IF 1 < 2 START")]));
}

#[test]
fn while_conditions_read_the_variables() {
    let mut vars = Variables::new();
    vars.insert("N".to_string(), ValueEnum::Integer(3));
    let block = vec![line("WHILE N < 5 START")];
    let mut error = String::new();
    let updated = update_while_condition_values(&block, &vars, &mut error).unwrap().unwrap();
    assert_eq!(format!("{:?}", updated[0][1]), "(\"INTEGER\", Integer(3))");
    let missing = vec![line("WHILE M < 5 START")];
    assert_eq!(
        format!("{:?}", update_while_condition_values(&missing, &vars, &mut error).unwrap()),
        "Err(\"EXECUTION ERROR: THERE IS NO VARIABLE CALLED M!\")"
    );
}

#[test]
fn new_state_is_empty() {
    let data = ExecData::new();
    assert_eq!(data.indentation, "");
    assert!(data.block_code.is_empty());
    assert_eq!(data.current_block_type, (String::new(), String::new()));
    assert!(data.global_variables.get("X").is_none());
    assert!(data.functions.get("F").is_none());
}

#[test]
fn block_code_runs_in_order() {
    let mut data = ExecData::new();
    let mut rt = NoRuntime;
    let block = vec![line("LET X = 1"), line("LET Y = X"), line("LET X = 2")];
    assert_eq!(data.execute_block_code(block, false, &mut rt, 10), Ok(Ok(())));
    assert_eq!(format!("{:?}", data.global_variables.get("Y")), "Some(Integer(1))");
    assert_eq!(format!("{:?}", data.global_variables.get("X")), "Some(Integer(2))");
    let failing = vec![line("PRINT \"A"), line("LET Z = 1")];
    assert_eq!(
        data.execute_block_code(failing, false, &mut rt, 10),
        Ok(Err("SYNTAX ERROR: STRING ISN'T CLOSED!".to_string()))
    );
    assert!(data.global_variables.get("Z").is_none());
}
