use jupijson::loads;
use jupijson::tokens::TokenType;

#[test]
fn renders_nested_value() {
    let v = loads(r#"{"a": [1, 2.5e1, "s", true, null]}"#).unwrap();
    assert_eq!(v.render(), "{a: [1, 2.5e1, s, true, null]}");
}

#[test]
fn renders_leaves_and_empties() {
    assert_eq!(loads("false").unwrap().render(), "false");
    assert_eq!(loads("{}").unwrap().render(), "{}");
    assert_eq!(loads("[]").unwrap().render(), "[]");
    assert_eq!(loads("[[], {}]").unwrap().render(), "[[], {}]");
    assert_eq!(loads(r#"{"k":"v","n":{"x":-1}}"#).unwrap().render(), "{k: v, n: {x: -1}}");
}

#[test]
fn renders_tokens() {
    assert_eq!(TokenType::LeftBrace.render(), "LEFT_BRACE '{'");
    assert_eq!(TokenType::RightBracket.render(), "RIGHT_BRACKET ']'");
    assert_eq!(TokenType::Comma.render(), "COMMA ','");
    assert_eq!(TokenType::String("key".to_string()).render(), "STRING 'key'");
    assert_eq!(TokenType::Number("1.5".to_string()).render(), "NUMBER 1.5");
    assert_eq!(TokenType::Null.render(), "NULL");
}
