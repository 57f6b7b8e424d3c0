use minosrus_lang::execution::tokenizer::make_tokens;
use minosrus_lang::fault::Fault;

fn words(line: &str) -> String {
    format!("{:?}", make_tokens(line.to_string()))
}

#[test]
fn word_line_tokens() {
    assert_eq!(
        words("LET X = 5"),
        "Ok([(\"PREDEFINED_NAME\", String(\"LET\")), (\"VARIABLE/FUNCTION_NAME\", String(\"X\")), (\"OPERATOR\", String(\"=\")), (\"INTEGER\", String(\"5\"))])"
    );
}

#[test]
fn word_strings_keep_their_quotes() {
    assert_eq!(
        words("PRINT \"A B\""),
        "Ok([(\"PREDEFINED_NAME\", String(\"PRINT\")), (\"STRING\", String(\"\\\"A B\\\"\"))])"
    );
}

#[test]
fn word_arrays() {
    assert_eq!(
        words("[\"A\", \"B\"]"),
        "Ok([(\"STRING_ARRAY\", StringVector([\"\\\"A\\\"\", \"\\\"B\\\"\"]))])"
    );
    assert_eq!(words("[1, 22]"), "Ok([(\"INTEGER_ARRAY\", IntegerVector([1, 22]))])");
    assert_eq!(words("[ ]"), "Ok([(\"ERROR_MESSAGE\", String(\"ARRAY IS EMPTY!\"))])");
    assert_eq!(
        words("[X]"),
        "Ok([(\"ERROR_MESSAGE\", String(\"ELEMENTS OF ARRAY DON'T SEEM TO BE STRINGS OR INTEGERS!\"))])"
    );
    assert_eq!(
        words("[1 2]"),
        "Ok([(\"ERROR_MESSAGE\", String(\"INVALID FORMATION OF ELEMENTS OF ARRAY!\")), (\"INTEGER_ARRAY\", IntegerVector([]))])"
    );
    assert_eq!(
        words("[1, X]"),
        "Ok([(\"ERROR_MESSAGE\", String(\"INVALID CHARACTER IN ARRAY!\")), (\"ERROR_MESSAGE\", String(\"INTEGER ELEMENTS OF AN ARRAY HAVE TO BE I32!\")), (\"INTEGER_ARRAY\", IntegerVector([1]))])"
    );
    assert_eq!(
        words("[\"A\" \"B\"]"),
        "Ok([(\"ERROR_MESSAGE\", String(\"COMMA BETWEEN ELEMENTS OF ARRAY MISSING!\")), (\"STRING_ARRAY\", StringVector([\"\\\"A\\\"\"]))])"
    );
    assert_eq!(
        words("[\"A\",, \"B\"]"),
        "Ok([(\"ERROR_MESSAG\", String(\"TOO MANY COMMAS BETWEEN ELEMENTS OF ARRAY!\")), (\"STRING_ARRAY\", StringVector([\"\\\"A\\\"\"]))])"
    );
}

#[test]
fn word_comments() {
    assert_eq!(words("#NOTE"), "Ok([(\"COMMENT\", String(\"NOTE \"))])");
    assert_eq!(
        words("LET #NOTE"),
        "Ok([(\"PREDEFINED_NAME\", String(\"LET\")), (\"ERROR_MESSAGE\", String(\"IT'S NOT ALLOWED TO PUT A COMMENT AFTER SOMETHING. ONE COMMENT TAKES ONE LINE!\"))])"
    );
}

#[test]
fn word_errors() {
    assert_eq!(
        words("LET x"),
        "Ok([(\"PREDEFINED_NAME\", String(\"LET\")), (\"ERROR_MESSAGE\", String(\"VARIABLE/FUNCTION NAME INCLUDES INVALID CHARACTERS!\"))])"
    );
    assert_eq!(
        words("[1"),
        "Ok([(\"ERROR_MESSAGE\", String(\"A [ ALWAYS NEEDS A ] ! ORDER: [ AND THEN ] !\"))])"
    );
    assert_eq!(words("LET  X"), format!("{:?}", Err::<(), Fault>(Fault::EmptyPart)));
}
