use minosrus_lang::runtime::{Comparison, Runtime};
use minosrus_lang::variables::Variables;
use minosrus_lang::tokenizer::{ArrayTypesEnum, ValueEnum};
use minosrus_lang::verine_expression::{Op, Tokenizer, is_punctuation, is_valid_identifier_character};

struct QuietRuntime {
    inputs: Vec<String>,
}

impl Runtime for QuietRuntime {
    fn read_line(&mut self) -> Option<String> {
        if self.inputs.is_empty() { None } else { Some(self.inputs.remove(0)) }
    }
    fn show(&mut self, _printed: &Vec<String>) {}
    fn stop(&mut self) {}
    fn float_operation(&self, l: &str, op: Op, r: &str) -> String {
        let (a, b) = (l.parse::<f32>().unwrap(), r.parse::<f32>().unwrap());
        let v = match op {
            Op::Plus => a + b,
            Op::Minus => a - b,
            Op::Asterisk => a * b,
            Op::Slash => a / b,
            Op::Pow => a.powf(b),
        };
        format!("{}", v)
    }
    fn float_powi(&self, l: i32, r: i32) -> String {
        format!("{}", (l as f32).powi(r))
    }
    fn float_display(&self, f: &str) -> String {
        format!("{}", f.parse::<f32>().unwrap())
    }
    fn float_debug(&self, f: &str) -> String {
        format!("{:?}", f.parse::<f32>().unwrap())
    }
    fn float_compare(&self, _l: &str, _r: &str) -> Option<Comparison> {
        None
    }
}

fn eval(text: &str, vars: &Variables) -> String {
    let mut rt = QuietRuntime { inputs: Vec::new() };
    format!("{:?}", Tokenizer::tokenize_and_evaluate(text, vars, &mut rt))
}

fn tokens(text: &str) -> String {
    let chars: Vec<char> = text.chars().collect();
    let mut t = Tokenizer::new(&chars);
    format!("{:?}", t.tokenize())
}

#[test]
fn tokenizing_expressions() {
    assert_eq!(
        tokens("GET FROM A AT 1"),
        "Ok(Ok([Get, From, Id(\"A\"), At, Integer(1)]))"
    );
    assert_eq!(tokens("-5 - 2.5"), "Ok(Ok([Integer(-5), Operator(Minus), Float(\"2.5\")]))");
    assert_eq!(tokens("2 ** 3"), "Ok(Ok([Integer(2), Operator(Pow), Integer(3)]))");
    assert_eq!(tokens("\"A\\\"B\""), "Ok(Ok([String(\"A\\\\\\\"B\")]))");
    assert_eq!(tokens("1 ; 2"), "Ok(Err(UnexpectedCharacter(';')))");
}

#[test]
fn evaluation_goes_from_the_left() {
    let vars = Variables::new();
    assert_eq!(eval("1 + 2 * 3", &vars), "Ok(Ok(Integer(9)))");
    assert_eq!(eval("10 - 2 - 3", &vars), "Ok(Ok(Integer(5)))");
    assert_eq!(eval("7 / 2", &vars), "Ok(Ok(Integer(3)))");
}

#[test]
fn evaluation_of_strings() {
    let vars = Variables::new();
    assert_eq!(eval("\"A\" + \"B\"", &vars), "Ok(Ok(String(\"AB\")))");
    assert_eq!(eval("\"N\" + 5", &vars), "Ok(Ok(String(\"N5\")))");
    assert_eq!(eval("5 + \"N\"", &vars), "Ok(Ok(String(\"5N\")))");
    assert_eq!(eval("STRING_FROM 12", &vars), "Ok(Ok(String(\"12\")))");
    assert_eq!(eval("INTEGER_FROM \"34\"", &vars), "Ok(Ok(Integer(34)))");
    assert_eq!(eval("INTEGER_FROM \"X\"", &vars), "Ok(Err(NumberNotAnInteger(\"X\")))");
}

#[test]
fn evaluation_errors() {
    let vars = Variables::new();
    assert_eq!(eval("1 / 0", &vars), "Ok(Err(DivisionByZero))");
    assert_eq!(eval("X", &vars), "Ok(Err(VariableNotFound(\"X\")))");
    assert_eq!(eval("\"A\" - 1", &vars), "Ok(Err(InvalidOperands))");
    assert_eq!(eval("2147483647 + 1", &vars), "Err(IntegerOverflow)");
}

#[test]
fn evaluation_with_variables() {
    let mut vars = Variables::new();
    vars.insert("X".to_string(), ValueEnum::Integer(4));
    vars.insert(
        "A".to_string(),
        ValueEnum::Array(vec![ArrayTypesEnum::Integer(10), ArrayTypesEnum::String("Z".to_string())]),
    );
    vars.insert("S".to_string(), ValueEnum::String("HEY".to_string()));
    assert_eq!(eval("X * X", &vars), "Ok(Ok(Integer(16)))");
    assert_eq!(eval("GET FROM A AT 1", &vars), "Ok(Ok(String(\"Z\")))");
    assert_eq!(eval("GET FROM A AT 2", &vars), "Ok(Err(IndexOutOfBounds))");
    assert_eq!(eval("GET FROM A LEN", &vars), "Ok(Ok(Integer(2)))");
    assert_eq!(eval("GET FROM S LEN", &vars), "Ok(Ok(Integer(3)))");
    assert_eq!(eval("GET FROM S AT 0", &vars), "Ok(Ok(String(\"H\")))");
    assert_eq!(eval("GET FROM X LEN", &vars), "Ok(Err(TypeHasNoLength))");
}

#[test]
fn nested_verines() {
    let vars = Variables::new();
    assert_eq!(eval("2 * | 1 + 2 |", &vars), "Ok(Ok(Integer(6)))");
}

#[test]
fn readln_drops_the_line_end() {
    let vars = Variables::new();
    let mut rt = QuietRuntime { inputs: vec!["ABC\n".to_string()] };
    assert_eq!(
        format!("{:?}", Tokenizer::tokenize_and_evaluate("READLN", &vars, &mut rt)),
        "Ok(Ok(String(\"ABC\")))"
    );
}

#[test]
fn float_operations_go_to_the_runtime() {
    let vars = Variables::new();
    assert_eq!(eval("1.5 + 1", &vars), "Ok(Ok(Float(\"2.5\")))");
}

#[test]
fn character_classes() {
    assert!(is_valid_identifier_character('A'));
    assert!(is_valid_identifier_character('_'));
    assert!(is_valid_identifier_character('7'));
    assert!(!is_valid_identifier_character('-'));
    assert!(is_punctuation('|'));
    assert!(is_punctuation('*'));
    assert!(!is_punctuation('('));
}

#[test]
fn variables_read_back_what_was_written() {
    let mut vars = Variables::new();
    vars.insert("A".to_string(), ValueEnum::Integer(1));
    vars.insert("A".to_string(), ValueEnum::Integer(2));
    assert_eq!(format!("{:?}", vars.get("A")), "Some(Integer(2))");
    assert_eq!(format!("{:?}", vars.get("B")), "None");
    vars.clear();
    assert_eq!(format!("{:?}", vars.get("A")), "None");
}

#[test]
fn a_bracketed_verine_stands_for_its_value() {
    let vars = Variables::new();
    assert_eq!(eval("10 - | 2 * 3 | + 1", &vars), eval("10 - 6 + 1", &vars));
    assert_eq!(eval("10 - | 2 * 3 | + 1", &vars), "Ok(Ok(Integer(5)))");
    assert_eq!(eval("1 + | X |", &vars), eval("X", &vars));
}

#[test]
fn readln_inside_an_expression() {
    let vars = Variables::new();
    let mut rt = QuietRuntime { inputs: vec!["AB\n".to_string()] };
    assert_eq!(
        format!("{:?}", Tokenizer::tokenize_and_evaluate("READLN + \"C\"", &vars, &mut rt)),
        "Ok(Ok(String(\"ABC\")))"
    );
    let mut empty = QuietRuntime { inputs: Vec::new() };
    assert_eq!(
        format!("{:?}", Tokenizer::tokenize_and_evaluate("1 + READLN", &vars, &mut empty)),
        "Ok(Err(StdInError))"
    );
}

#[test]
fn float_results_go_on_through_the_expression() {
    let vars = Variables::new();
    assert_eq!(eval("1.5 + 2 + 3", &vars), "Ok(Ok(Float(\"6.5\")))");
    assert_eq!(eval("10 - 2.5", &vars), "Ok(Ok(Float(\"7.5\")))");
    assert_eq!(eval("2 ** 3 + 1", &vars), "Ok(Ok(Float(\"9\")))");
    assert_eq!(eval("\"X\" + 1.5 + \"Y\"", &vars), "Ok(Ok(String(\"X1.5Y\")))");
    assert_eq!(eval("STRING_FROM 2.50", &vars), "Ok(Ok(String(\"2.5\")))");
}
