use vstd::prelude::*;

pub mod lexical;
pub mod parser;
pub mod roundtrip;
pub mod scanner;
pub mod spacing;
pub mod tokens;
pub mod value;

pub use parser::{Parser, ParserError};
pub use scanner::{Scanner, ScannerError};
pub use value::{JsonData, JsonValue};

use parser::value_at;
use roundtrip::{lemma_parsed_well_formed, well_formed};
use scanner::lex;

verus! {

/// Which stage failed, and why.
#[derive(Debug, Clone, Copy, PartialEq, Eq, Structural)]
pub enum JsonParseError {
    ScanningError(ScannerError),
    ParsingError(ParserError),
}

/// The value that the text `s` stands for: the first value of its tokens.
pub open spec fn decode(s: Seq<char>) -> Result<JsonData, JsonParseError> {
    match lex(s) {
        Err(e) => Err(JsonParseError::ScanningError(e)),
        Ok(t) => match value_at(t, 0) {
            Err(e) => Err(JsonParseError::ParsingError(e)),
            Ok((v, _)) => Ok(v),
        },
    }
}

/// Parses a JSON text.
pub fn loads(json_str: &str) -> (r: Result<JsonValue, JsonParseError>)
    ensures
        match r {
            Ok(v) => decode(json_str@) == Ok::<JsonData, JsonParseError>(v@),
            Err(e) => decode(json_str@) == Err::<JsonData, JsonParseError>(e),
        },
        r matches Ok(v) ==> well_formed(v@),
{
    let mut scanner = Scanner::new(json_str);
    let tokens = match scanner.scan_tokens() {
        Ok(t) => t,
        Err(e) => {
            return Err(JsonParseError::ScanningError(e));
        },
    };
    let mut parser = Parser::new(tokens);
    proof {
        lemma_parsed_well_formed(parser.input(), 0);
    }
    match parser.parse() {
        Ok(v) => Ok(v),
        Err(e) => Err(JsonParseError::ParsingError(e)),
    }
}

} // verus!
