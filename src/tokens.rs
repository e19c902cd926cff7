use vstd::prelude::*;
use vstd::string::StringExecFns;

verus! {

/// A lexical unit of JSON text. Number literals keep their source text.
#[derive(Debug, Clone, PartialEq, Eq)]
pub enum TokenType {
    LeftBrace,
    RightBrace,
    LeftBracket,
    RightBracket,
    Colon,
    Comma,
    String(String),
    Number(String),
    True,
    False,
    Null,
}

/// The mathematical model of a token.
pub enum Tok {
    LeftBrace,
    RightBrace,
    LeftBracket,
    RightBracket,
    Colon,
    Comma,
    Str(Seq<char>),
    Num(Seq<char>),
    True,
    False,
    Null,
}

impl View for TokenType {
    type V = Tok;

    open spec fn view(&self) -> Tok {
        match self {
            TokenType::LeftBrace => Tok::LeftBrace,
            TokenType::RightBrace => Tok::RightBrace,
            TokenType::LeftBracket => Tok::LeftBracket,
            TokenType::RightBracket => Tok::RightBracket,
            TokenType::Colon => Tok::Colon,
            TokenType::Comma => Tok::Comma,
            TokenType::String(s) => Tok::Str(s@),
            TokenType::Number(s) => Tok::Num(s@),
            TokenType::True => Tok::True,
            TokenType::False => Tok::False,
            TokenType::Null => Tok::Null,
        }
    }
}

/// The models of a sequence of tokens.
pub open spec fn toks(v: Seq<TokenType>) -> Seq<Tok> {
    v.map_values(|t: TokenType| t@)
}

/// The display text of a token: its kind, then the text it carries.
pub open spec fn described(t: Tok) -> Seq<char> {
    match t {
        Tok::LeftBrace => "LEFT_BRACE '{'"@,
        Tok::RightBrace => "RIGHT_BRACE '}'"@,
        Tok::LeftBracket => "LEFT_BRACKET '['"@,
        Tok::RightBracket => "RIGHT_BRACKET ']'"@,
        Tok::Colon => "COLON ':'"@,
        Tok::Comma => "COMMA ','"@,
        Tok::Str(s) => "STRING '"@ + s + "'"@,
        Tok::Num(n) => "NUMBER "@ + n,
        Tok::True => "TRUE"@,
        Tok::False => "FALSE"@,
        Tok::Null => "NULL"@,
    }
}

impl TokenType {
    pub fn render(&self) -> (r: String)
        ensures
            r@ == described(self@),
    {
        match self {
            TokenType::LeftBrace => "LEFT_BRACE '{'".to_owned(),
            TokenType::RightBrace => "RIGHT_BRACE '}'".to_owned(),
            TokenType::LeftBracket => "LEFT_BRACKET '['".to_owned(),
            TokenType::RightBracket => "RIGHT_BRACKET ']'".to_owned(),
            TokenType::Colon => "COLON ':'".to_owned(),
            TokenType::Comma => "COMMA ','".to_owned(),
            TokenType::String(s) => {
                let mut r = "STRING '".to_owned();
                r.append(s.as_str());
                r.append("'");
                r
            },
            TokenType::Number(n) => {
                let mut r = "NUMBER ".to_owned();
                r.append(n.as_str());
                r
            },
            TokenType::True => "TRUE".to_owned(),
            TokenType::False => "FALSE".to_owned(),
            TokenType::Null => "NULL".to_owned(),
        }
    }
}

} // verus!
