use eval_nix::lexer::{Token, Tokens};
use eval_nix::parse_nix_instantiate::{
    evaluation_args, interpret_output, parse_nix_instantiate, InstantiationError, ParseError, Value,
};

#[test]
fn test_parse_literals() {
    assert!(parse_nix_instantiate("null") == Ok(Value::Null));
    assert!(parse_nix_instantiate("true") == Ok(Value::Bool(true)));
    assert!(parse_nix_instantiate("false") == Ok(Value::Bool(false)));
    assert!(parse_nix_instantiate("<CODE>") == Ok(Value::Unevaluated));
    assert!(parse_nix_instantiate("<CYCLE>") == Ok(Value::Unevaluated));
    assert!(parse_nix_instantiate("<LAMBDA>") == Ok(Value::Function));
    assert!(parse_nix_instantiate("<PRIMOP>") == Ok(Value::Function));
}

#[test]
fn test_parse_strings() {
    assert!(parse_nix_instantiate("\"quote me\"") == Ok(Value::String("quote me".to_string())));
    assert!(
        parse_nix_instantiate(r#""I am a\nmore \"complex\" string.""#)
            == Ok(Value::String("I am a\nmore \"complex\" string.".to_string()))
    );
}

#[test]
fn test_parse_nums() {
    assert!(parse_nix_instantiate("123") == Ok(Value::Number(123)));
    assert!(parse_nix_instantiate("-123") == Ok(Value::Number(-123)));
}

#[test]
fn test_parse_list() {
    let res = parse_nix_instantiate("[1 2 3]");
    let expected = Ok(Value::List(vec![Value::Number(1), Value::Number(2), Value::Number(3)]));
    assert!(res == expected, "expected {:?}, but got {:?}", expected, res);
    let res = parse_nix_instantiate("[1 <CODE> 4]");
    let expected = Ok(Value::List(vec![Value::Number(1), Value::Unevaluated, Value::Number(4)]));
    assert!(res == expected, "expected {:?}, but got {:?}", expected, res);
}

#[test]
fn test_parse_nested_list() {
    let res = parse_nix_instantiate("[1 2 [3 4]]");
    let expected = Ok(Value::List(vec![Value::Number(1), Value::Number(2), Value::List(vec![Value::Number(3), Value::Number(4)])]));
    assert!(res == expected, "expected {:?}, but got {:?}", expected, res);
}

#[test]
fn test_parse_set() {
    let res = parse_nix_instantiate("{x = 1; y = 2;}");
    let expected = Ok(Value::AttrSet(vec![("x".to_string(), Value::Number(1)), ("y".to_string(), Value::Number(2))]));
    assert!(res == expected, "expected {:?}, but got {:?}", expected, res);
}

#[test]
fn test_nested_set() {
    let res = parse_nix_instantiate("{x = 1; y = {z = 2;};}");
    let expected = Ok(Value::AttrSet(vec![
        ("x".to_string(), Value::Number(1)),
        ("y".to_string(), Value::AttrSet(vec![("z".to_string(), Value::Number(2))])),
    ]));
    assert!(res == expected, "expected {:?}, but got {:?}", expected, res);
}

#[test]
fn duplicate_key_keeps_last_value() {
    assert_eq!(
        parse_nix_instantiate("{x = 1; x = 2;}"),
        Ok(Value::AttrSet(vec![("x".to_string(), Value::Number(2))]))
    );
    assert_eq!(
        parse_nix_instantiate("{x = 1; y = 3; x = 2;}"),
        Ok(Value::AttrSet(vec![("x".to_string(), Value::Number(2)), ("y".to_string(), Value::Number(3))]))
    );
}

#[test]
fn unterminated_list_is_end_of_input() {
    assert_eq!(parse_nix_instantiate("[1 2"), Err(ParseError::UnexpectedEndOfInput));
    assert_eq!(parse_nix_instantiate(""), Err(ParseError::UnexpectedEndOfInput));
    assert_eq!(parse_nix_instantiate("{x = 1;"), Err(ParseError::UnexpectedEndOfInput));
}

#[test]
fn missing_equals_is_unexpected_token() {
    assert_eq!(
        parse_nix_instantiate("{x 1;}"),
        Err(ParseError::UnexpectedToken(Token::Number(1)))
    );
    assert_eq!(
        parse_nix_instantiate("{1 = 2;}"),
        Err(ParseError::UnexpectedToken(Token::Number(1)))
    );
    assert_eq!(
        parse_nix_instantiate("{x = 1 }"),
        Err(ParseError::UnexpectedToken(Token::RCurly))
    );
    assert_eq!(
        parse_nix_instantiate("hello"),
        Err(ParseError::UnexpectedToken(Token::Ident("hello".to_string())))
    );
    assert_eq!(parse_nix_instantiate("]"), Err(ParseError::UnexpectedToken(Token::RBracket)));
}

#[test]
fn stray_characters_are_skipped() {
    assert_eq!(parse_nix_instantiate("[ 1 , 2 ]"), Ok(Value::List(vec![Value::Number(1), Value::Number(2)])));
    assert_eq!(parse_nix_instantiate("  \n\t 7"), Ok(Value::Number(7)));
    assert_eq!(parse_nix_instantiate("- 5"), Ok(Value::Number(5)));
}

#[test]
fn trailing_tokens_are_not_read() {
    assert_eq!(parse_nix_instantiate("1 2"), Ok(Value::Number(1)));
    assert_eq!(parse_nix_instantiate("[] ]"), Ok(Value::List(vec![])));
}

#[test]
fn integer_limits() {
    assert_eq!(
        parse_nix_instantiate("-9223372036854775808"),
        Ok(Value::Number(i64::MIN))
    );
    assert_eq!(
        parse_nix_instantiate("9223372036854775807"),
        Ok(Value::Number(i64::MAX))
    );
    assert_eq!(
        parse_nix_instantiate("9223372036854775808"),
        Err(ParseError::InvalidLiteral("9223372036854775808".to_string()))
    );
    assert_eq!(
        parse_nix_instantiate("-99999999999999999999999"),
        Err(ParseError::InvalidLiteral("-99999999999999999999999".to_string()))
    );
}

#[test]
fn bad_escape_is_invalid_literal() {
    assert_eq!(
        parse_nix_instantiate(r#""a\qb""#),
        Err(ParseError::InvalidLiteral(r#""a\qb""#.to_string()))
    );
}

#[test]
fn escapes_are_decoded() {
    assert_eq!(
        parse_nix_instantiate(r#""tab\there""#),
        Ok(Value::String("tab\there".to_string()))
    );
}

#[test]
fn paths_run_to_the_semicolon() {
    assert_eq!(
        parse_nix_instantiate("/nix/store/abc-hello"),
        Ok(Value::Path("/nix/store/abc-hello".to_string()))
    );
    assert_eq!(
        parse_nix_instantiate("{ src = /home/me/src; }"),
        Ok(Value::AttrSet(vec![("src".to_string(), Value::Path("/home/me/src".to_string()))]))
    );
}

#[test]
fn identifiers_and_keywords_in_sets() {
    assert_eq!(
        parse_nix_instantiate("{ foo-bar' = null; b = true; }"),
        Ok(Value::AttrSet(vec![("foo-bar'".to_string(), Value::Null), ("b".to_string(), Value::Bool(true))]))
    );
}

#[test]
fn cursor_peeks_without_consuming() {
    let mut tokens = Tokens::new("[ x ]");
    assert_eq!(tokens.peek(), Some(Ok(Token::LBracket)));
    assert_eq!(tokens.next(), Some(Ok(Token::LBracket)));
    assert_eq!(tokens.peek(), Some(Ok(Token::Ident("x".to_string()))));
    assert_eq!(tokens.next(), Some(Ok(Token::Ident("x".to_string()))));
    assert_eq!(tokens.next(), Some(Ok(Token::RBracket)));
    assert_eq!(tokens.next(), None);
    assert_eq!(tokens.peek(), None);
}

#[test]
fn successful_run_is_parsed() {
    assert_eq!(interpret_output(true, &b"42".to_vec(), vec![]), Ok(Value::Number(42)));
}

#[test]
fn failed_run_reports_its_diagnostic() {
    assert_eq!(
        interpret_output(false, &vec![], b"error: foo".to_vec()),
        Err(InstantiationError::EvaluationError("error: foo".to_string()))
    );
}

#[test]
fn failed_run_with_binary_diagnostic() {
    assert_eq!(
        interpret_output(false, &vec![], vec![0xff, 0xfe, 0x00]),
        Err(InstantiationError::UnparsableEvaluationError)
    );
}

#[test]
fn successful_run_with_unparsable_output() {
    assert_eq!(
        interpret_output(true, &b"[1 2".to_vec(), vec![]),
        Err(InstantiationError::ParseError(ParseError::UnexpectedEndOfInput))
    );
}

#[test]
fn invalid_utf8_output_is_decoded_lossily() {
    assert_eq!(
        interpret_output(true, &vec![0xff, b'"', 0xff, b'"'], vec![]),
        Ok(Value::String("\u{FFFD}".to_string()))
    );
}

#[test]
fn evaluator_argument_list() {
    let args = vec![
        ("a".to_string(), "1".to_string()),
        ("b".to_string(), "\"s\"".to_string()),
    ];
    assert_eq!(
        evaluation_args("./default.nix", Some("pkg".to_string()), &args),
        vec!["--eval", "./default.nix", "-A", "pkg", "--arg", "a", "1", "--arg", "b", "\"s\""]
    );
    assert_eq!(evaluation_args("/x.nix", None, &vec![]), vec!["--eval", "/x.nix"]);
}

fn first_token(text: &str) -> Option<Result<Token, String>> {
    Tokens::new(text).next()
}

#[test]
fn test_token_from_str() {
    assert!(first_token("null") == Some(Ok(Token::Null)));
    assert!(first_token("true") == Some(Ok(Token::Bool(true))));
    assert!(first_token("false") == Some(Ok(Token::Bool(false))));
    assert!(first_token("<CODE>") == Some(Ok(Token::CODE)));
    assert!(first_token("<LAMBDA>") == Some(Ok(Token::LAMBDA)));
    assert!(first_token("123") == Some(Ok(Token::Number(123))));
    assert!(first_token("-123") == Some(Ok(Token::Number(-123))));
    assert!(first_token("hello") == Some(Ok(Token::Ident("hello".to_string()))));
    assert!(first_token("\"quote me\"") == Some(Ok(Token::String("quote me".to_string()))));
    // The scanner closes a string at its first unescaped quote, so the inner
    // quotes of this literal are written escaped for it to be read whole.
    assert!(
        first_token(r#""I am a\nmore \"complex\" string.""#)
            == Some(Ok(Token::String("I am a\nmore \"complex\" string.".to_string())))
    );
}

#[test]
fn identifiers_continue_over_unicode_word_characters() {
    assert_eq!(first_token("hé"), Some(Ok(Token::Ident("hé".to_string()))));
    assert_eq!(first_token("x_ü1-'"), Some(Ok(Token::Ident("x_ü1-'".to_string()))));
    assert_eq!(first_token("é"), None);
    assert_eq!(
        parse_nix_instantiate("{ naïve = 1; }"),
        Ok(Value::AttrSet(vec![("naïve".to_string(), Value::Number(1))]))
    );
}

#[test]
fn attribute_sets_compare_as_mappings() {
    let a = Value::AttrSet(vec![("x".to_string(), Value::Number(1)), ("y".to_string(), Value::Number(2))]);
    let b = Value::AttrSet(vec![("y".to_string(), Value::Number(2)), ("x".to_string(), Value::Number(1))]);
    let c = Value::AttrSet(vec![("y".to_string(), Value::Number(3)), ("x".to_string(), Value::Number(1))]);
    let d = Value::AttrSet(vec![("x".to_string(), Value::Number(1))]);
    assert!(a == b);
    assert!(a != c);
    assert!(a != d);
    assert!(Value::List(vec![a]) == Value::List(vec![b]));
    assert!(Value::List(vec![Value::Number(1)]) != Value::List(vec![Value::Number(2)]));
    assert!(Value::Path("/a".to_string()) != Value::String("/a".to_string()));
    assert_eq!(
        parse_nix_instantiate("{y = 2; x = 1;}"),
        parse_nix_instantiate("{x = 1; y = 2;}")
    );
}
