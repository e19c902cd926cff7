use jupijson::{loads, JsonParseError, JsonValue, ParserError, ScannerError};

fn number(v: &JsonValue) -> f64 {
    match v {
        JsonValue::Number(text) => text.parse::<f64>().unwrap(),
        other => panic!("not a number: {:?}", other),
    }
}

fn entries(v: &JsonValue) -> &Vec<(String, JsonValue)> {
    match v {
        JsonValue::Object(e) => e,
        other => panic!("not an object: {:?}", other),
    }
}

fn items(v: &JsonValue) -> &Vec<JsonValue> {
    match v {
        JsonValue::Array(a) => a,
        other => panic!("not an array: {:?}", other),
    }
}

fn get<'a>(v: &'a JsonValue, key: &str) -> Option<&'a JsonValue> {
    entries(v).iter().find(|(k, _)| k == key).map(|(_, v)| v)
}

fn same(a: &JsonValue, b: &JsonValue) -> bool {
    match (a, b) {
        (JsonValue::Null, JsonValue::Null) => true,
        (JsonValue::Boolean(x), JsonValue::Boolean(y)) => x == y,
        (JsonValue::String(x), JsonValue::String(y)) => x == y,
        (JsonValue::Number(_), JsonValue::Number(_)) => number(a) == number(b),
        (JsonValue::Array(x), JsonValue::Array(y)) => {
            x.len() == y.len() && x.iter().zip(y.iter()).all(|(p, q)| same(p, q))
        }
        (JsonValue::Object(x), JsonValue::Object(y)) => {
            x.len() == y.len()
                && x.iter().all(|(k, v)| get(b, k).map_or(false, |w| same(v, w)))
        }
        _ => false,
    }
}

#[test]
fn leaf_number_integer() {
    let v = loads("42").unwrap();
    assert_eq!(number(&v), 42.0);
}

#[test]
fn leaf_number_exponent() {
    let v = loads("-3.5e2").unwrap();
    assert_eq!(number(&v), -350.0);
    assert!(matches!(&v, JsonValue::Number(t) if t == "-3.5e2"));
}

#[test]
fn leaf_keywords() {
    assert!(matches!(loads("true"), Ok(JsonValue::Boolean(true))));
    assert!(matches!(loads("false"), Ok(JsonValue::Boolean(false))));
    assert!(matches!(loads("null"), Ok(JsonValue::Null)));
}

#[test]
fn leaf_string() {
    assert!(matches!(loads("\"hi there\""), Ok(JsonValue::String(s)) if s == "hi there"));
}

#[test]
fn nested_structure() {
    let v = loads(r#"{"a": [1, 2, {"b": null}]}"#).unwrap();
    assert_eq!(entries(&v).len(), 1);
    let a = items(get(&v, "a").unwrap());
    assert_eq!(a.len(), 3);
    assert_eq!(number(&a[0]), 1.0);
    assert_eq!(number(&a[1]), 2.0);
    assert_eq!(entries(&a[2]).len(), 1);
    assert!(matches!(get(&a[2], "b"), Some(JsonValue::Null)));
}

#[test]
fn empty_object() {
    let v = loads("{}").unwrap();
    assert!(entries(&v).is_empty());
}

#[test]
fn empty_array() {
    let v = loads("[]").unwrap();
    assert!(items(&v).is_empty());
}

#[test]
fn duplicate_keys_last_wins() {
    let v = loads(r#"{"x":1,"x":2}"#).unwrap();
    assert_eq!(entries(&v).len(), 1);
    assert_eq!(number(get(&v, "x").unwrap()), 2.0);
}

#[test]
fn trailing_comma_is_unexpected() {
    assert_eq!(
        loads(r#"{"a":1,}"#).unwrap_err(),
        JsonParseError::ParsingError(ParserError::UnexpectedToken)
    );
}

#[test]
fn missing_brace_is_invalid_structure() {
    assert_eq!(
        loads(r#"{"a":1"#).unwrap_err(),
        JsonParseError::ParsingError(ParserError::InvalidStructure)
    );
}

#[test]
fn unknown_character_is_scan_error() {
    assert_eq!(
        loads("{#}").unwrap_err(),
        JsonParseError::ScanningError(ScannerError::InvalidToken)
    );
}

#[test]
fn whitespace_is_ignored() {
    let a = loads("  { \"a\" : 1 }  ").unwrap();
    let b = loads("{\"a\":1}").unwrap();
    assert!(same(&a, &b));
    let c = loads("\t[\n1 ,\r\n true ]\n").unwrap();
    assert_eq!(items(&c).len(), 2);
}

#[test]
fn every_kind_of_literal() {
    let v = loads(r#"{"o": {"k": "v"}, "a": [], "s": "t", "n": 0.5, "b": false, "z": null}"#)
        .unwrap();
    assert!(matches!(get(&v, "o"), Some(JsonValue::Object(_))));
    assert!(matches!(get(&v, "a"), Some(JsonValue::Array(_))));
    assert!(matches!(get(&v, "s"), Some(JsonValue::String(s)) if s == "t"));
    assert_eq!(number(get(&v, "n").unwrap()), 0.5);
    assert!(matches!(get(&v, "b"), Some(JsonValue::Boolean(false))));
    assert!(matches!(get(&v, "z"), Some(JsonValue::Null)));
}

#[test]
fn empty_text_is_invalid_structure() {
    assert_eq!(
        loads("").unwrap_err(),
        JsonParseError::ParsingError(ParserError::InvalidStructure)
    );
    assert_eq!(
        loads("   ").unwrap_err(),
        JsonParseError::ParsingError(ParserError::InvalidStructure)
    );
}

#[test]
fn value_in_key_position_is_unexpected() {
    assert_eq!(
        loads("{1:2}").unwrap_err(),
        JsonParseError::ParsingError(ParserError::UnexpectedToken)
    );
    assert_eq!(
        loads("{\"a\" 1}").unwrap_err(),
        JsonParseError::ParsingError(ParserError::UnexpectedToken)
    );
    assert_eq!(
        loads("[1 2]").unwrap_err(),
        JsonParseError::ParsingError(ParserError::UnexpectedToken)
    );
    assert_eq!(
        loads("]").unwrap_err(),
        JsonParseError::ParsingError(ParserError::UnexpectedToken)
    );
}

#[test]
fn truncated_array_is_invalid_structure() {
    assert_eq!(
        loads("[1, 2").unwrap_err(),
        JsonParseError::ParsingError(ParserError::InvalidStructure)
    );
    assert_eq!(
        loads("[").unwrap_err(),
        JsonParseError::ParsingError(ParserError::InvalidStructure)
    );
    assert_eq!(
        loads("{\"a\":").unwrap_err(),
        JsonParseError::ParsingError(ParserError::InvalidStructure)
    );
}

#[test]
fn trailing_tokens_are_ignored() {
    assert!(matches!(loads("true false"), Ok(JsonValue::Boolean(true))));
}

#[test]
fn unknown_words_are_dropped() {
    assert!(matches!(loads("foo null"), Ok(JsonValue::Null)));
    let v = loads("[nil]").unwrap();
    assert!(items(&v).is_empty());
}

#[test]
fn malformed_number_drops_its_first_character() {
    let v = loads("--5").unwrap();
    assert_eq!(number(&v), -5.0);
    let w = loads("[1.2.3]");
    assert!(w.is_err());
}

#[test]
fn string_escapes_are_kept_as_written() {
    let v = loads(r#""a\nb""#).unwrap();
    assert!(matches!(&v, JsonValue::String(s) if s == "a\\nb"));
}

#[test]
fn unterminated_string_runs_to_the_end() {
    assert!(matches!(loads("\"abc"), Ok(JsonValue::String(s)) if s == "abc"));
}

#[test]
fn non_ascii_text() {
    let v = loads("{\"clé\": \"été\"}").unwrap();
    assert!(matches!(get(&v, "clé"), Some(JsonValue::String(s)) if s == "été"));
    assert!(matches!(loads("\u{3000}null"), Ok(JsonValue::Null)));
}

#[test]
fn repeated_key_keeps_its_place_and_last_value() {
    let v = loads(r#"{"x":1,"y":true,"x":3,"x":4}"#).unwrap();
    let e = entries(&v);
    assert_eq!(e.len(), 2);
    assert_eq!(e[0].0, "x");
    assert_eq!(number(&e[0].1), 4.0);
    assert!(matches!(&e[1], (k, JsonValue::Boolean(true)) if k == "y"));
}

#[test]
fn compact_text_parses_back() {
    let text = r#"{"a":[1,{"b":null,"c":"d"},[]],"e":-2.5E+3,"f":{}}"#;
    let v = loads(text).unwrap();
    assert_eq!(entries(&v).len(), 3);
    assert_eq!(number(get(&v, "e").unwrap()), -2500.0);
    let a = items(get(&v, "a").unwrap());
    assert_eq!(a.len(), 3);
    assert!(matches!(get(&a[1], "c"), Some(JsonValue::String(s)) if s == "d"));
    assert!(items(&a[2]).is_empty());
    assert!(entries(get(&v, "f").unwrap()).is_empty());
}

#[test]
fn uneven_white_space_between_tokens() {
    let a = loads("\n[ 1,\t{\"k\" :\r\n\"v\"}  ,[ ]\n]").unwrap();
    let b = loads("[1,{\"k\":\"v\"},[]]").unwrap();
    assert!(same(&a, &b));
}

#[test]
fn truncated_nested_value_is_invalid_structure() {
    for text in ["{", "{\"a\"", "{\"a\":", "{\"a\":[1", "[{\"a\":1}", "[[]"] {
        assert_eq!(
            loads(text).unwrap_err(),
            JsonParseError::ParsingError(ParserError::InvalidStructure),
            "{}",
            text
        );
    }
}
