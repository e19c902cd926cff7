use vstd::prelude::*;

use crate::tokens::{toks, Tok, TokenType};
use crate::value::{
    entries_view, insert_entry, items_view, lemma_view_containers, put, unique_keys, JsonData,
    JsonValue,
};

verus! {

/// Why parsing stopped.
#[derive(Debug, Clone, Copy, PartialEq, Eq, Structural)]
pub enum ParserError {
    /// A token stands where the grammar allows none of its kind.
    UnexpectedToken,
    /// The tokens ran out before the value was complete.
    InvalidStructure,
}

/// The value whose first token is at `i`, and the position after its last token.
pub open spec fn value_at(t: Seq<Tok>, i: nat) -> Result<(JsonData, nat), ParserError>
    decreases t.len() - i, 1int,
{
    if i >= t.len() {
        Err(ParserError::InvalidStructure)
    } else {
        match t[i as int] {
            Tok::LeftBrace => object_at(t, i),
            Tok::LeftBracket => array_at(t, i),
            Tok::Str(s) => Ok((JsonData::Str(s), i + 1)),
            Tok::Num(n) => Ok((JsonData::Number(n), i + 1)),
            Tok::True => Ok((JsonData::Boolean(true), i + 1)),
            Tok::False => Ok((JsonData::Boolean(false), i + 1)),
            Tok::Null => Ok((JsonData::Null, i + 1)),
            _ => Err(ParserError::UnexpectedToken),
        }
    }
}

/// The object whose opening brace is at `i`.
pub open spec fn object_at(t: Seq<Tok>, i: nat) -> Result<(JsonData, nat), ParserError>
    decreases t.len() - i, 0int,
{
    if i + 1 >= t.len() {
        Err(ParserError::InvalidStructure)
    } else if t[i + 1int] is RightBrace {
        Ok((JsonData::Object(Seq::empty()), i + 2))
    } else {
        members_at(t, i + 1, Seq::empty())
    }
}

/// The rest of an object from the key at `j` on, after the entries `acc`.
pub open spec fn members_at(t: Seq<Tok>, j: nat, acc: Seq<(Seq<char>, JsonData)>) -> Result<
    (JsonData, nat),
    ParserError,
>
    decreases t.len() - j, 0int,
{
    if j >= t.len() {
        Err(ParserError::InvalidStructure)
    } else if !(t[j as int] is Str) {
        Err(ParserError::UnexpectedToken)
    } else if j + 1 >= t.len() {
        Err(ParserError::InvalidStructure)
    } else if !(t[j + 1int] is Colon) {
        Err(ParserError::UnexpectedToken)
    } else {
        match value_at(t, j + 2) {
            Err(e) => Err(e),
            Ok((v, n)) => {
                let entries = put(acc, t[j as int]->Str_0, v);
                if n >= t.len() {
                    Err(ParserError::InvalidStructure)
                } else if t[n as int] is RightBrace {
                    Ok((JsonData::Object(entries), n + 1))
                } else if !(t[n as int] is Comma) {
                    Err(ParserError::UnexpectedToken)
                } else if j < n {
                    // always so, as a value takes at least one token; the test
                    // makes the recursion visibly well founded
                    members_at(t, n + 1, entries)
                } else {
                    Err(ParserError::InvalidStructure)
                }
            },
        }
    }
}

/// The array whose opening bracket is at `i`.
pub open spec fn array_at(t: Seq<Tok>, i: nat) -> Result<(JsonData, nat), ParserError>
    decreases t.len() - i, 0int,
{
    if i + 1 >= t.len() {
        Err(ParserError::InvalidStructure)
    } else if t[i + 1int] is RightBracket {
        Ok((JsonData::Array(Seq::empty()), i + 2))
    } else {
        elements_at(t, i + 1, Seq::empty())
    }
}

/// The rest of an array from the item at `j` on, after the items `acc`.
pub open spec fn elements_at(t: Seq<Tok>, j: nat, acc: Seq<JsonData>) -> Result<
    (JsonData, nat),
    ParserError,
>
    decreases t.len() - j, 2int,
{
    if j >= t.len() {
        Err(ParserError::InvalidStructure)
    } else {
        match value_at(t, j) {
            Err(e) => Err(e),
            Ok((v, n)) => {
                let items = acc.push(v);
                if n >= t.len() {
                    Err(ParserError::InvalidStructure)
                } else if t[n as int] is RightBracket {
                    Ok((JsonData::Array(items), n + 1))
                } else if !(t[n as int] is Comma) {
                    Err(ParserError::UnexpectedToken)
                } else if j <= n {
                    // always so, as a value takes at least one token; the test
                    // makes the recursion visibly well founded
                    elements_at(t, n + 1, items)
                } else {
                    Err(ParserError::InvalidStructure)
                }
            },
        }
    }
}

/// Whether `out` is what `r` describes: the value's model with the cursor at
/// `pos`, or the same error.
pub open spec fn outcome_is(
    r: Result<(JsonData, nat), ParserError>,
    out: Result<JsonValue, ParserError>,
    pos: nat,
) -> bool {
    match out {
        Ok(v) => r == Ok::<(JsonData, nat), ParserError>((v@, pos)),
        Err(e) => r == Err::<(JsonData, nat), ParserError>(e),
    }
}

/// Builds one value from a sequence of tokens, from a cursor that moves over them.
pub struct Parser {
    tokens: Vec<TokenType>,
    current: usize,
}

impl Parser {
    /// The tokens being parsed.
    pub closed spec fn input(&self) -> Seq<Tok> {
        toks(self.tokens@)
    }

    /// The cursor, as a token index.
    pub closed spec fn position(&self) -> nat {
        self.current as nat
    }

    pub fn new(tokens: Vec<TokenType>) -> (r: Parser)
        ensures
            r.input() == toks(tokens@),
            r.position() == 0,
    {
        Parser { tokens, current: 0 }
    }

    /// Parses one value from the cursor on. Tokens after it are left alone.
    pub fn parse(&mut self) -> (r: Result<JsonValue, ParserError>)
        ensures
            final(self).input() == old(self).input(),
            outcome_is(value_at(old(self).input(), old(self).position()), r, final(self).position()),
    {
        self.parse_value()
    }

    fn parse_value(&mut self) -> (r: Result<JsonValue, ParserError>)
        ensures
            final(self).tokens@ == old(self).tokens@,
            outcome_is(value_at(old(self).input(), old(self).position()), r, final(self).position()),
            r is Ok ==> final(self).current > old(self).current,
        decreases old(self).tokens.len() - old(self).current, 1int,
    {
        if self.current >= self.tokens.len() {
            return Err(ParserError::InvalidStructure);
        }
        let ghost t = self.input();
        assert(t[self.current as int] == self.tokens@[self.current as int]@);
        let r = match &self.tokens[self.current] {
            TokenType::LeftBrace => {
                return self.parse_object();
            },
            TokenType::LeftBracket => {
                return self.parse_array();
            },
            TokenType::String(s) => JsonValue::String(s.clone()),
            TokenType::Number(n) => JsonValue::Number(n.clone()),
            TokenType::True => JsonValue::Boolean(true),
            TokenType::False => JsonValue::Boolean(false),
            TokenType::Null => JsonValue::Null,
            _ => {
                return Err(ParserError::UnexpectedToken);
            },
        };
        self.current = self.current + 1;
        Ok(r)
    }

    fn parse_object(&mut self) -> (r: Result<JsonValue, ParserError>)
        requires
            old(self).current < old(self).tokens.len(),
            old(self).tokens@[old(self).current as int] is LeftBrace,
        ensures
            final(self).tokens@ == old(self).tokens@,
            outcome_is(object_at(old(self).input(), old(self).position()), r, final(self).position()),
            r is Ok ==> final(self).current > old(self).current,
        decreases old(self).tokens.len() - old(self).current, 0int,
    {
        let ghost t = self.input();
        let ghost i = self.current;
        self.current = self.current + 1;
        if self.current >= self.tokens.len() {
            return Err(ParserError::InvalidStructure);
        }
        assert(t[self.current as int] == self.tokens@[self.current as int]@);
        if let TokenType::RightBrace = self.tokens[self.current] {
            self.current = self.current + 1;
            let r = JsonValue::Object(Vec::new());
            proof {
                lemma_view_containers(&r);
                assert(entries_view(Seq::empty()) =~= Seq::empty());
            }
            return Ok(r);
        }
        let mut object: Vec<(String, JsonValue)> = Vec::new();
        assert(entries_view(object@) =~= Seq::empty());
        loop
            invariant
                self.tokens@ == old(self).tokens@,
                t == self.input(),
                t == old(self).input(),
                i == old(self).current,
                i < self.current,
                object_at(t, i as nat) == members_at(t, self.current as nat, entries_view(object@)),
                unique_keys(entries_view(object@)),
            decreases self.tokens.len() - self.current,
        {
            if self.current >= self.tokens.len() {
                return Err(ParserError::InvalidStructure);
            }
            let j = self.current;
            assert(t[j as int] == self.tokens@[j as int]@);
            let key = match &self.tokens[self.current] {
                TokenType::String(s) => s.clone(),
                _ => {
                    return Err(ParserError::UnexpectedToken);
                },
            };
            self.current = self.current + 1;
            if self.current >= self.tokens.len() {
                return Err(ParserError::InvalidStructure);
            }
            assert(t[self.current as int] == self.tokens@[self.current as int]@);
            if let TokenType::Colon = self.tokens[self.current] {
                self.current = self.current + 1;
            } else {
                return Err(ParserError::UnexpectedToken);
            }
            let value = match self.parse_value() {
                Ok(v) => v,
                Err(e) => {
                    return Err(e);
                },
            };
            let n = self.current;
            insert_entry(&mut object, key, value);
            if self.current >= self.tokens.len() {
                return Err(ParserError::InvalidStructure);
            }
            assert(t[n as int] == self.tokens@[n as int]@);
            match self.tokens[self.current] {
                TokenType::Comma => {
                    self.current = self.current + 1;
                },
                TokenType::RightBrace => {
                    self.current = self.current + 1;
                    let r = JsonValue::Object(object);
                    proof {
                        lemma_view_containers(&r);
                    }
                    return Ok(r);
                },
                _ => {
                    return Err(ParserError::UnexpectedToken);
                },
            }
        }
    }

    fn parse_array(&mut self) -> (r: Result<JsonValue, ParserError>)
        requires
            old(self).current < old(self).tokens.len(),
            old(self).tokens@[old(self).current as int] is LeftBracket,
        ensures
            final(self).tokens@ == old(self).tokens@,
            outcome_is(array_at(old(self).input(), old(self).position()), r, final(self).position()),
            r is Ok ==> final(self).current > old(self).current,
        decreases old(self).tokens.len() - old(self).current, 0int,
    {
        let ghost t = self.input();
        let ghost i = self.current;
        self.current = self.current + 1;
        if self.current >= self.tokens.len() {
            return Err(ParserError::InvalidStructure);
        }
        assert(t[self.current as int] == self.tokens@[self.current as int]@);
        if let TokenType::RightBracket = self.tokens[self.current] {
            self.current = self.current + 1;
            let r = JsonValue::Array(Vec::new());
            proof {
                lemma_view_containers(&r);
                assert(items_view(Seq::empty()) =~= Seq::empty());
            }
            return Ok(r);
        }
        let mut array: Vec<JsonValue> = Vec::new();
        assert(items_view(array@) =~= Seq::empty());
        loop
            invariant
                self.tokens@ == old(self).tokens@,
                t == self.input(),
                t == old(self).input(),
                i == old(self).current,
                i < self.current,
                array_at(t, i as nat) == elements_at(t, self.current as nat, items_view(array@)),
            decreases self.tokens.len() - self.current,
        {
            if self.current >= self.tokens.len() {
                return Err(ParserError::InvalidStructure);
            }
            let value = match self.parse_value() {
                Ok(v) => v,
                Err(e) => {
                    return Err(e);
                },
            };
            let ghost items = items_view(array@);
            array.push(value);
            assert(items_view(array@) =~= items.push(value@));
            let n = self.current;
            if self.current >= self.tokens.len() {
                return Err(ParserError::InvalidStructure);
            }
            assert(t[n as int] == self.tokens@[n as int]@);
            match self.tokens[self.current] {
                TokenType::Comma => {
                    self.current = self.current + 1;
                },
                TokenType::RightBracket => {
                    self.current = self.current + 1;
                    let r = JsonValue::Array(array);
                    proof {
                        lemma_view_containers(&r);
                    }
                    return Ok(r);
                },
                _ => {
                    return Err(ParserError::UnexpectedToken);
                },
            }
        }
    }
}

} // verus!
