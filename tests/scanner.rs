use jupijson::tokens::TokenType;
use jupijson::{Parser, ParserError, Scanner, ScannerError};

#[test]
fn scans_punctuation_and_literals() {
    let mut s = Scanner::new("{\"k\": [1, true, false, null]}");
    let t = s.scan_tokens().unwrap();
    assert_eq!(
        t,
        vec![
            TokenType::LeftBrace,
            TokenType::String("k".to_string()),
            TokenType::Colon,
            TokenType::LeftBracket,
            TokenType::Number("1".to_string()),
            TokenType::Comma,
            TokenType::True,
            TokenType::Comma,
            TokenType::False,
            TokenType::Comma,
            TokenType::Null,
            TokenType::RightBracket,
            TokenType::RightBrace,
        ]
    );
}

#[test]
fn scan_stops_at_unknown_character() {
    let mut s = Scanner::new("[1, @]");
    assert_eq!(s.scan_tokens(), Err(ScannerError::InvalidToken));
}

#[test]
fn number_runs_and_signs() {
    let mut s = Scanner::new("1e5,-0.25E-3,+1");
    assert_eq!(s.scan_tokens(), Err(ScannerError::InvalidToken));
    let mut s = Scanner::new("1e5,-0.25E-3,5.");
    assert_eq!(
        s.scan_tokens().unwrap(),
        vec![
            TokenType::Number("1e5".to_string()),
            TokenType::Comma,
            TokenType::Number("-0.25E-3".to_string()),
            TokenType::Comma,
            TokenType::Number("5.".to_string()),
        ]
    );
}

#[test]
fn rejected_number_runs() {
    let mut s = Scanner::new("1e -- 7");
    assert_eq!(s.scan_tokens().unwrap(), vec![TokenType::Number("7".to_string())]);
    let mut s = Scanner::new("1.2.3");
    assert_eq!(s.scan_tokens(), Err(ScannerError::InvalidToken));
}

#[test]
fn parser_leaves_later_tokens() {
    let mut p = Parser::new(vec![TokenType::Null, TokenType::Comma]);
    assert!(p.parse().is_ok());
    let mut p = Parser::new(vec![TokenType::Colon]);
    assert_eq!(p.parse().unwrap_err(), ParserError::UnexpectedToken);
    let mut p = Parser::new(vec![]);
    assert_eq!(p.parse().unwrap_err(), ParserError::InvalidStructure);
}

#[test]
fn keyword_runs_must_match_exactly() {
    let mut s = Scanner::new("truex True nul null");
    assert_eq!(s.scan_tokens().unwrap(), vec![TokenType::Null]);
}

#[test]
fn string_token_ends_after_closing_quote() {
    let mut s = Scanner::new("\"ab\":\"\"");
    assert_eq!(
        s.scan_tokens().unwrap(),
        vec![
            TokenType::String("ab".to_string()),
            TokenType::Colon,
            TokenType::String(String::new()),
        ]
    );
}
