use minosrus_lang::execution::ExecData;
use minosrus_lang::fault::Fault;
use minosrus_lang::tokenizer::make_tokens;

fn tokens(line: &str) -> String {
    let mut data = ExecData::new();
    format!("{:?}", make_tokens(line.to_string(), &mut data))
}

#[test]
fn let_statement_tokens() {
    assert_eq!(
        tokens("LET X = 5"),
        "Ok([(\"PREDEFINED_NAME\", String(\"LET\")), (\"VARIABLE/FUNCTION_NAME\", String(\"X\")), (\"EQUAL_SIGN\", String(\"=\")), (\"INTEGER\", Integer(5))])"
    );
}

#[test]
fn string_and_operators() {
    assert_eq!(
        tokens("IF \"A B\" != -7 START"),
        "Ok([(\"PREDEFINED_NAME\", String(\"IF\")), (\"STRING\", String(\"A B\")), (\"COMPARING_OPERATOR\", String(\"!=\")), (\"INTEGER\", Integer(-7)), (\"PREDEFINED_NAME\", String(\"START\"))])"
    );
    assert_eq!(tokens("+"), "Ok([(\"ARITHMETIC_OPERATOR\", String(\"+\"))])");
}

#[test]
fn float_literal_keeps_its_text() {
    assert_eq!(tokens("1.50"), "Ok([(\"FLOAT\", Float(\"1.50\"))])");
}

#[test]
fn number_errors() {
    assert_eq!(
        tokens("1.2.3"),
        "Ok([(\"ERROR_MESSAGE\", String(\"THERE ARE TOO MANY DOTS IN THE NUMBER!\"))])"
    );
    assert_eq!(
        tokens("5-3"),
        "Ok([(\"ERROR_MESSAGE\", String(\"NEGATIVE SIGN HAS TO BE AT THE BEGINNING OF A NUMBER!\")), (\"ERROR_MESSAGE\", String(\"THE NUMBER IS NOT I32 OR F32!\"))])"
    );
    assert_eq!(
        tokens("1."),
        "Ok([(\"ERROR_MESSAGE\", String(\"DOT CAN'T BE AT THE END OF THE NUMBER!\")), (\"FLOAT\", Float(\"1.\"))])"
    );
    assert_eq!(
        tokens("99999999999"),
        "Ok([(\"FLOAT\", Float(\"99999999999\"))])"
    );
}

#[test]
fn comment_line() {
    assert_eq!(tokens("  # HELLO "), "Ok([(\"COMMENT\", String(\" HELLO\"))])");
}

#[test]
fn empty_line_is_a_fault() {
    assert_eq!(tokens("   "), format!("{:?}", Err::<(), Fault>(Fault::EmptyLine)));
}

#[test]
fn arrays() {
    assert_eq!(
        tokens("[1, \"A\", 2.5]"),
        "Ok([(\"ARRAY\", Array([Integer(1), String(\"\\\"A\\\"\"), Float(\"2.5\")]))])"
    );
    assert_eq!(tokens("[ ]"), "Ok([(\"ARRAY\", Array([]))])");
    assert_eq!(
        tokens("[,1]"),
        "Ok([(\"ERROR_MESSAGE\", String(\"THERE IS A COMMA AT THE BEGINNING OF THE ARRAY; NOT ALLOWED!\"))])"
    );
    assert_eq!(
        tokens("[1,]"),
        "Ok([(\"ERROR_MESSAGE\", String(\"THERE IS A COMMA AT THE END OF THE ARRAY; NOT ALLOWED!\"))])"
    );
    assert_eq!(
        tokens("[1,,2]"),
        "Ok([(\"ERROR_MESSAGE\", String(\"THERE ARE TOO MANY COMMAS IN THE ARRAY!\")), (\"ARRAY\", Array([Integer(1)]))])"
    );
}

#[test]
fn array_with_variables() {
    let mut data = ExecData::new();
    let mut rt_free = make_tokens("LET Y = 3".to_string(), &mut data).unwrap();
    assert_eq!(rt_free.len(), 4);
    let v = rt_free.pop().unwrap();
    data.global_variables.insert("Y".to_string(), v.1);
    assert_eq!(
        format!("{:?}", make_tokens("[Y, 1]".to_string(), &mut data)),
        "Ok([(\"ARRAY\", Array([Integer(3), Integer(1)]))])"
    );
    assert_eq!(
        format!("{:?}", make_tokens("[Z]".to_string(), &mut data)),
        "Ok([(\"ERROR_MESSAGE\", String(\"THERE IS NO VARIABLE CALLED Z!\")), (\"ARRAY\", Array([]))])"
    );
}

#[test]
fn bracket_errors() {
    assert_eq!(
        tokens("LET A = [1"),
        "Ok([(\"ERROR_MESSAGE\", String(\"A [ ALWAYS NEEDS A ] ! ORDER: [ AND THEN ] !\"))])"
    );
    assert_eq!(
        tokens("] ["),
        "Ok([(\"ERROR_MESSAGE\", String(\"A ] ALWAYS NEEDS A [ ! ORDER: [ AND THEN ] !\"))])"
    );
}

#[test]
fn string_errors() {
    assert_eq!(tokens("PRINT \"AB"), "Ok([(\"ERROR_MESSAGE\", String(\"STRING ISN'T CLOSED!\"))])");
    assert_eq!(
        tokens("PRINT \"A;B\""),
        "Ok([(\"ERROR_MESSAGE\", String(\"INVALID CHARACTER INSIDE OF THE STRING!\"))])"
    );
}

#[test]
fn invalid_name() {
    assert_eq!(
        tokens("LET X$ = 1"),
        "Ok([(\"PREDEFINED_NAME\", String(\"LET\")), (\"ERROR_MESSAGE\", String(\"VARIABLE/FUNCTION NAME INCLUDES INVALID CHARACTERS!\"))])"
    );
}

#[test]
fn verine_tokens() {
    assert_eq!(
        tokens("PRINT (X + 1)"),
        "Ok([(\"PREDEFINED_NAME\", String(\"PRINT\")), (\"VERINE\", Verine([Id(\"X\"), Operator(Plus), Integer(1)]))])"
    );
    assert_eq!(
        tokens("PRINT (X ; 1)"),
        "Ok([(\"ERROR_MESSAGE\", String(\"INVALID CHARACTER IN VERINE!\")), (\"PREDEFINED_NAME\", String(\"PRINT\"))])"
    );
}

#[test]
fn part_after_array_is_a_fault() {
    assert_eq!(tokens("[1] X"), format!("{:?}", Err::<(), Fault>(Fault::EmptyPart)));
}

#[test]
fn unclosed_verine_is_a_fault() {
    assert_eq!(tokens("(X"), format!("{:?}", Err::<(), Fault>(Fault::NoParts)));
}

#[test]
fn lone_quote_is_a_fault() {
    assert_eq!(tokens("\""), format!("{:?}", Err::<(), Fault>(Fault::LoneQuote)));
}

#[test]
fn verine_between_bars() {
    assert_eq!(
        tokens("PRINT | \"COUNTER: \" + COUNTER |"),
        "Ok([(\"PREDEFINED_NAME\", String(\"PRINT\")), (\"VERINE\", Verine([String(\"COUNTER: \"), Operator(Plus), Id(\"COUNTER\")]))])"
    );
}

#[test]
fn bar_verines_are_parenthesized_verines() {
    assert_eq!(tokens("PRINT |1 + 2|"), tokens("PRINT (1 + 2)"));
    assert_eq!(tokens("PRINT \"A|B\""), "Ok([(\"ERROR_MESSAGE\", String(\"INVALID CHARACTER INSIDE OF THE STRING!\"))])");
}
