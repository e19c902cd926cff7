use vstd::prelude::*;

use crate::lexical::{
    alphabetic, float_literal, is_alphabetic, is_digit, is_float_literal, is_white_space,
    number_char, white_space,
};
use crate::tokens::{toks, Tok, TokenType};

verus! {

/// Why scanning stopped: a character that begins no token.
#[derive(Debug, Clone, Copy, PartialEq, Eq, Structural)]
pub enum ScannerError {
    InvalidToken,
}

/// The token that a punctuation character stands for on its own.
pub open spec fn single_token(c: char) -> Option<Tok> {
    if c == '{' {
        Some(Tok::LeftBrace)
    } else if c == '}' {
        Some(Tok::RightBrace)
    } else if c == '[' {
        Some(Tok::LeftBracket)
    } else if c == ']' {
        Some(Tok::RightBracket)
    } else if c == ':' {
        Some(Tok::Colon)
    } else if c == ',' {
        Some(Tok::Comma)
    } else {
        None
    }
}

/// Whether a token, or a run that may make one, can begin with `c`.
pub open spec fn begins_token(c: char) -> bool {
    single_token(c) is Some || c == '"' || is_digit(c) || c == '-' || alphabetic(c)
}

/// The token that an alphabetic word stands for; other words stand for none.
pub open spec fn keyword(w: Seq<char>) -> Option<Tok> {
    if w == seq!['t', 'r', 'u', 'e'] {
        Some(Tok::True)
    } else if w == seq!['f', 'a', 'l', 's', 'e'] {
        Some(Tok::False)
    } else if w == seq!['n', 'u', 'l', 'l'] {
        Some(Tok::Null)
    } else {
        None
    }
}

/// How many characters from `j` on come before the next quote (or the end).
pub open spec fn string_run(s: Seq<char>, j: nat) -> nat
    decreases s.len() - j,
{
    if j < s.len() && s[j as int] != '"' {
        1 + string_run(s, j + 1)
    } else {
        0
    }
}

/// How many number characters follow one another from `j` on.
pub open spec fn number_run(s: Seq<char>, j: nat) -> nat
    decreases s.len() - j,
{
    if j < s.len() && number_char(s[j as int]) {
        1 + number_run(s, j + 1)
    } else {
        0
    }
}

/// How many alphabetic characters follow one another from `j` on.
pub open spec fn alpha_run(s: Seq<char>, j: nat) -> nat
    decreases s.len() - j,
{
    if j < s.len() && alphabetic(s[j as int]) {
        1 + alpha_run(s, j + 1)
    } else {
        0
    }
}

/// `ts` with `p` in front, if scanning succeeded.
pub open spec fn prefixed(p: Seq<Tok>, r: Result<Seq<Tok>, ScannerError>) -> Result<
    Seq<Tok>,
    ScannerError,
> {
    match r {
        Ok(ts) => Ok(p + ts),
        Err(e) => Err(e),
    }
}

/// The tokens of `s` from position `i` on.
///
/// White space is skipped. A quote opens a string that runs to the next quote,
/// with no escapes. A digit or minus sign starts a run of number characters,
/// which is a number token if the run is a float literal; otherwise the first
/// character is dropped. An alphabetic run is a keyword token, or is dropped.
/// Any other character that is not punctuation is an error.
pub open spec fn scan_from(s: Seq<char>, i: nat) -> Result<Seq<Tok>, ScannerError>
    decreases (if i < s.len() {
        s.len() - i
    } else {
        0
    }),
{
    if i >= s.len() {
        Ok(Seq::empty())
    } else {
        let c = s[i as int];
        if white_space(c) {
            scan_from(s, i + 1)
        } else if single_token(c) is Some {
            prefixed(seq![single_token(c)->0], scan_from(s, i + 1))
        } else if c == '"' {
            let n = string_run(s, i + 1);
            prefixed(seq![Tok::Str(s.subrange(i + 1 as int, i + 1 + n as int))], scan_from(s, i + n + 2))
        } else if is_digit(c) || c == '-' {
            let n = 1 + number_run(s, i + 1);
            let lit = s.subrange(i as int, i + n as int);
            if float_literal(lit) {
                prefixed(seq![Tok::Num(lit)], scan_from(s, i + n))
            } else {
                scan_from(s, i + 1)
            }
        } else if alphabetic(c) {
            let n = 1 + alpha_run(s, i + 1);
            match keyword(s.subrange(i as int, i + n as int)) {
                Some(t) => prefixed(seq![t], scan_from(s, i + n)),
                None => scan_from(s, i + n),
            }
        } else {
            Err(ScannerError::InvalidToken)
        }
    }
}

/// The tokens of the whole text `s`.
pub open spec fn lex(s: Seq<char>) -> Result<Seq<Tok>, ScannerError> {
    scan_from(s, 0)
}

pub proof fn lemma_prefixed_twice(p: Seq<Tok>, q: Seq<Tok>, r: Result<Seq<Tok>, ScannerError>)
    ensures
        prefixed(p, prefixed(q, r)) == prefixed(p + q, r),
{
    if let Ok(ts) = r {
        assert(p + (q + ts) == (p + q) + ts);
    }
}

/// The keyword token that `s[lo..hi]` spells, if any.
fn keyword_token(s: &str, lo: usize, hi: usize) -> (r: Option<TokenType>)
    requires
        lo <= hi <= s@.len(),
    ensures
        match r {
            Some(t) => keyword(s@.subrange(lo as int, hi as int)) == Some(t@),
            None => keyword(s@.subrange(lo as int, hi as int)) is None,
        },
{
    let ghost w = s@.subrange(lo as int, hi as int);
    let ghost t4 = seq!['t', 'r', 'u', 'e'];
    let ghost f5 = seq!['f', 'a', 'l', 's', 'e'];
    let ghost n4 = seq!['n', 'u', 'l', 'l'];
    assert(t4[0] == 't' && t4[1] == 'r' && t4[2] == 'u' && t4[3] == 'e' && t4.len() == 4);
    assert(f5[0] == 'f' && f5[1] == 'a' && f5[2] == 'l' && f5[3] == 's' && f5[4] == 'e'
        && f5.len() == 5);
    assert(n4[0] == 'n' && n4[1] == 'u' && n4[2] == 'l' && n4[3] == 'l' && n4.len() == 4);
    if hi - lo == 4 {
        let c0 = s.get_char(lo);
        let c1 = s.get_char(lo + 1);
        let c2 = s.get_char(lo + 2);
        let c3 = s.get_char(lo + 3);
        assert(w[0] == c0 && w[1] == c1 && w[2] == c2 && w[3] == c3);
        if c0 == 't' && c1 == 'r' && c2 == 'u' && c3 == 'e' {
            assert(w =~= t4);
            return Some(TokenType::True);
        }
        assert(w != t4);
        if c0 == 'n' && c1 == 'u' && c2 == 'l' && c3 == 'l' {
            assert(w =~= n4);
            return Some(TokenType::Null);
        }
        assert(w != n4);
    } else if hi - lo == 5 {
        let c0 = s.get_char(lo);
        let c1 = s.get_char(lo + 1);
        let c2 = s.get_char(lo + 2);
        let c3 = s.get_char(lo + 3);
        let c4 = s.get_char(lo + 4);
        assert(w[0] == c0 && w[1] == c1 && w[2] == c2 && w[3] == c3 && w[4] == c4);
        if c0 == 'f' && c1 == 'a' && c2 == 'l' && c3 == 's' && c4 == 'e' {
            assert(w =~= f5);
            return Some(TokenType::False);
        }
        assert(w != f5);
    }
    None
}

/// Turns a text into tokens, from a cursor that moves over its characters.
pub struct Scanner {
    source: String,
    tokens: Vec<TokenType>,
    current: usize,
    length: usize,
}

impl Scanner {
    /// The text being scanned.
    pub closed spec fn text(&self) -> Seq<char> {
        self.source@
    }

    /// The tokens found so far.
    pub closed spec fn emitted(&self) -> Seq<Tok> {
        toks(self.tokens@)
    }

    /// The cursor, as a character index.
    pub closed spec fn position(&self) -> nat {
        self.current as nat
    }

    pub closed spec fn wf(&self) -> bool {
        &&& self.length == self.source@.len()
        &&& self.current <= self.length
    }

    /// What the whole scan gives, from the tokens found so far on.
    pub open spec fn outcome(&self) -> Result<Seq<Tok>, ScannerError> {
        prefixed(self.emitted(), scan_from(self.text(), self.position()))
    }

    pub fn new(json_str: &str) -> (r: Scanner)
        ensures
            r.wf(),
            r.text() == json_str@,
            r.position() == 0,
            r.emitted() == Seq::<Tok>::empty(),
    {
        let r = Scanner {
            source: json_str.to_owned(),
            tokens: Vec::new(),
            current: 0,
            length: json_str.unicode_len(),
        };
        assert(toks(r.tokens@) =~= Seq::<Tok>::empty());
        r
    }

    fn is_at_end(&self) -> (r: bool)
        requires
            self.wf(),
        ensures
            r == (self.current >= self.source@.len()),
    {
        self.current >= self.length
    }

    fn advance(&mut self) -> (c: char)
        requires
            old(self).wf(),
            old(self).current < old(self).source@.len(),
        ensures
            final(self).wf(),
            c == old(self).source@[old(self).current as int],
            final(self).current == old(self).current + 1,
            final(self).source == old(self).source,
            final(self).tokens == old(self).tokens,
    {
        let c = self.source.as_str().get_char(self.current);
        self.current = self.current + 1;
        c
    }

    fn emit(&mut self, t: TokenType)
        ensures
            final(self).tokens@ == old(self).tokens@.push(t),
            final(self).emitted() == old(self).emitted() + seq![t@],
            final(self).source == old(self).source,
            final(self).current == old(self).current,
            final(self).length == old(self).length,
    {
        self.tokens.push(t);
        assert(toks(self.tokens@) =~= toks(old(self).tokens@) + seq![t@]);
    }

    /// Scans the whole text from the cursor on.
    pub fn scan_tokens(&mut self) -> (r: Result<Vec<TokenType>, ScannerError>)
        requires
            old(self).wf(),
        ensures
            match r {
                Ok(v) => old(self).outcome() == Ok::<Seq<Tok>, ScannerError>(toks(v@)),
                Err(e) => old(self).outcome() == Err::<Seq<Tok>, ScannerError>(e),
            },
    {
        while !self.is_at_end()
            invariant
                self.wf(),
                self.text() == old(self).text(),
                self.outcome() == old(self).outcome(),
            ensures
                self.wf(),
                self.outcome() == old(self).outcome(),
                self.current >= self.length,
            decreases self.length - self.current,
        {
            let ghost c0 = self.current;
            while !self.is_at_end()
                invariant
                    self.wf(),
                    c0 <= self.current,
                    self.text() == old(self).text(),
                    self.outcome() == old(self).outcome(),
                ensures
                    c0 <= self.current,
                    self.wf(),
                    self.text() == old(self).text(),
                    self.outcome() == old(self).outcome(),
                    self.current < self.length ==> !white_space(self.source@[self.current as int]),
                decreases self.length - self.current,
            {
                let c = self.source.as_str().get_char(self.current);
                if !is_white_space(c) {
                    break;
                }
                self.advance();
            }
            if self.is_at_end() {
                break;
            }
            self.scan_token()?;
        }
        assert(self.outcome() == Ok::<Seq<Tok>, ScannerError>(self.emitted() + Seq::empty()));
        assert(self.emitted() + Seq::empty() == self.emitted());
        let mut out = Vec::new();
        std::mem::swap(&mut out, &mut self.tokens);
        Ok(out)
    }

    fn scan_token(&mut self) -> (r: Result<(), ScannerError>)
        requires
            old(self).wf(),
            old(self).current < old(self).source@.len(),
            !white_space(old(self).source@[old(self).current as int]),
        ensures
            final(self).wf(),
            final(self).text() == old(self).text(),
            match r {
                Ok(()) => final(self).outcome() == old(self).outcome() && final(self).current
                    > old(self).current,
                Err(e) => old(self).outcome() == Err::<Seq<Tok>, ScannerError>(e),
            },
            r is Ok <==> begins_token(old(self).source@[old(self).current as int]),
            r is Err ==> r == Err::<(), ScannerError>(ScannerError::InvalidToken)
                && final(self).tokens@ == old(self).tokens@,
            single_token(old(self).source@[old(self).current as int]) is Some ==> {
                &&& final(self).emitted() == old(self).emitted() + seq![
                    single_token(old(self).source@[old(self).current as int])->0,
                ]
                &&& final(self).current == old(self).current + 1
            },
    {
        let ghost s = self.source@;
        let ghost i = self.current as nat;
        let c = self.advance();
        let t = if c == '{' {
            TokenType::LeftBrace
        } else if c == '}' {
            TokenType::RightBrace
        } else if c == '[' {
            TokenType::LeftBracket
        } else if c == ']' {
            TokenType::RightBracket
        } else if c == ':' {
            TokenType::Colon
        } else if c == ',' {
            TokenType::Comma
        } else if c == '"' {
            self.scan_string();
            return Ok(());
        } else if ('0' <= c && c <= '9') || c == '-' {
            self.scan_number();
            return Ok(());
        } else if is_alphabetic(c) {
            self.scan_keyword();
            return Ok(());
        } else {
            return Err(ScannerError::InvalidToken);
        };
        proof {
            lemma_prefixed_twice(old(self).emitted(), seq![t@], scan_from(s, i + 1));
        }
        self.emit(t);
        Ok(())
    }

    fn scan_string(&mut self)
        requires
            old(self).wf(),
            1 <= old(self).current,
            old(self).source@[old(self).current - 1] == '"',
            !white_space(old(self).source@[old(self).current - 1]),
        ensures
            final(self).wf(),
            final(self).text() == old(self).text(),
            final(self).outcome() == prefixed(
                old(self).emitted(),
                scan_from(old(self).text(), (old(self).current - 1) as nat),
            ),
            final(self).current >= old(self).current,
            final(self).emitted() == old(self).emitted() + seq![
                Tok::Str(
                    old(self).text().subrange(
                        old(self).current as int,
                        old(self).current + string_run(old(self).text(), old(self).current as nat),
                    ),
                ),
            ],
            final(self).current == if old(self).current + string_run(
                old(self).text(),
                old(self).current as nat,
            ) < old(self).text().len() {
                old(self).current + string_run(old(self).text(), old(self).current as nat) + 1
            } else {
                old(self).text().len() as int
            },
    {
        let ghost s = self.source@;
        let begin = self.current;
        let mut end: usize = begin;
        while end < self.length
            invariant
                self.wf(),
                s == self.source@,
                begin <= end <= self.length,
                string_run(s, begin as nat) == (end - begin) + string_run(s, end as nat),
            ensures
                begin <= end <= self.length,
                string_run(s, begin as nat) == (end - begin) + string_run(s, end as nat),
                end < self.length ==> s[end as int] == '"',
            decreases self.length - end,
        {
            if self.source.as_str().get_char(end) == '"' {
                break;
            }
            end = end + 1;
        }
        let text = self.source.as_str().substring_char(begin, end).to_owned();
        let ghost n = string_run(s, begin as nat);
        assert(n == end - begin);
        let ghost t = Tok::Str(s.subrange(begin as int, end as int));
        proof {
            lemma_prefixed_twice(self.emitted(), seq![t], scan_from(s, end as nat + 1));
        }
        self.emit(TokenType::String(text));
        if end < self.length {
            self.current = end + 1;
        } else {
            self.current = end;
            assert(scan_from(s, end as nat + 1) == scan_from(s, end as nat));
        }
    }

    fn scan_number(&mut self)
        requires
            old(self).wf(),
            1 <= old(self).current,
            is_digit(old(self).source@[old(self).current - 1]) || old(self).source@[old(
                self,
            ).current - 1] == '-',
            !white_space(old(self).source@[old(self).current - 1]),
        ensures
            final(self).wf(),
            final(self).text() == old(self).text(),
            final(self).outcome() == prefixed(
                old(self).emitted(),
                scan_from(old(self).text(), (old(self).current - 1) as nat),
            ),
            final(self).current >= old(self).current,
            ({
                let s = old(self).text();
                let i = old(self).current - 1;
                let lit = s.subrange(i, i + 1 + number_run(s, old(self).current as nat));
                if float_literal(lit) {
                    &&& final(self).emitted() == old(self).emitted() + seq![Tok::Num(lit)]
                    &&& final(self).current == i + lit.len()
                } else {
                    &&& final(self).tokens@ == old(self).tokens@
                    &&& final(self).current == old(self).current
                }
            }),
    {
        let ghost s = self.source@;
        let begin = self.current - 1;
        let mut end: usize = self.current;
        while end < self.length
            invariant
                self.wf(),
                s == self.source@,
                begin < end <= self.length,
                number_run(s, begin as nat + 1) == (end - begin - 1) + number_run(s, end as nat),
            ensures
                begin < end <= self.length,
                number_run(s, begin as nat + 1) == (end - begin - 1) + number_run(s, end as nat),
                end < self.length ==> !number_char(s[end as int]),
            decreases self.length - end,
        {
            let ch = self.source.as_str().get_char(end);
            if !(('0' <= ch && ch <= '9') || ch == '.' || ch == 'e' || ch == 'E' || ch == '-' || ch
                == '+') {
                break;
            }
            end = end + 1;
        }
        if is_float_literal(self.source.as_str(), begin, end) {
            let text = self.source.as_str().substring_char(begin, end).to_owned();
            let ghost t = Tok::Num(s.subrange(begin as int, end as int));
            proof {
                lemma_prefixed_twice(self.emitted(), seq![t], scan_from(s, end as nat));
            }
            self.emit(TokenType::Number(text));
            self.current = end;
        }
    }

    fn scan_keyword(&mut self)
        requires
            old(self).wf(),
            1 <= old(self).current,
            alphabetic(old(self).source@[old(self).current - 1]),
            !white_space(old(self).source@[old(self).current - 1]),
            !is_digit(old(self).source@[old(self).current - 1]),
            old(self).source@[old(self).current - 1] != '-',
            old(self).source@[old(self).current - 1] != '"',
            single_token(old(self).source@[old(self).current - 1]) is None,
        ensures
            final(self).wf(),
            final(self).text() == old(self).text(),
            final(self).outcome() == prefixed(
                old(self).emitted(),
                scan_from(old(self).text(), (old(self).current - 1) as nat),
            ),
            final(self).current >= old(self).current,
            final(self).current == old(self).current + alpha_run(
                old(self).text(),
                old(self).current as nat,
            ),
            ({
                let s = old(self).text();
                let i = old(self).current - 1;
                match keyword(s.subrange(i, final(self).current as int)) {
                    Some(t) => final(self).emitted() == old(self).emitted() + seq![t],
                    None => final(self).tokens@ == old(self).tokens@,
                }
            }),
    {
        let ghost s = self.source@;
        let begin = self.current - 1;
        let mut end: usize = self.current;
        while end < self.length
            invariant
                self.wf(),
                s == self.source@,
                begin < end <= self.length,
                alpha_run(s, begin as nat + 1) == (end - begin - 1) + alpha_run(s, end as nat),
            ensures
                begin < end <= self.length,
                alpha_run(s, begin as nat + 1) == (end - begin - 1) + alpha_run(s, end as nat),
                end < self.length ==> !alphabetic(s[end as int]),
            decreases self.length - end,
        {
            if !is_alphabetic(self.source.as_str().get_char(end)) {
                break;
            }
            end = end + 1;
        }
        self.current = end;
        match keyword_token(self.source.as_str(), begin, end) {
            Some(t) => {
                proof {
                    lemma_prefixed_twice(self.emitted(), seq![t@], scan_from(s, end as nat));
                }
                self.emit(t);
            },
            None => {},
        }
    }
}

} // verus!
