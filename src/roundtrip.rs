use vstd::prelude::*;

use crate::lexical::{float_literal, is_digit, number_char};
use crate::parser::{elements_at, members_at, value_at, ParserError};
use crate::scanner::{
    alpha_run, keyword, lemma_prefixed_twice, lex, number_run, prefixed, scan_from, string_run,
};
use crate::{decode, JsonParseError};
use crate::tokens::Tok;
use crate::value::{has_key, lookup, put, unique_keys, JsonData};

verus! {

/// Whether every object inside `v`, `v` included, has unique keys.
pub open spec fn well_formed(v: JsonData) -> bool
    decreases v,
{
    match v {
        JsonData::Object(e) => unique_keys(e) && forall|i: int|
            0 <= i < e.len() ==> well_formed(#[trigger] e[i].1),
        JsonData::Array(a) => forall|i: int| 0 <= i < a.len() ==> well_formed(#[trigger] a[i]),
        _ => true,
    }
}

/// The tokens that spell `v`.
pub open spec fn tokens_of(v: JsonData) -> Seq<Tok>
    decreases v,
{
    match v {
        JsonData::Object(e) => seq![Tok::LeftBrace] + members_tokens(e) + seq![Tok::RightBrace],
        JsonData::Array(a) => seq![Tok::LeftBracket] + items_tokens(a) + seq![Tok::RightBracket],
        JsonData::Str(s) => seq![Tok::Str(s)],
        JsonData::Number(n) => seq![Tok::Num(n)],
        JsonData::Boolean(b) => seq![
            if b {
                Tok::True
            } else {
                Tok::False
            },
        ],
        JsonData::Null => seq![Tok::Null],
    }
}

/// The tokens of an object's entries, `key : value`, separated by commas.
pub open spec fn members_tokens(e: Seq<(Seq<char>, JsonData)>) -> Seq<Tok>
    decreases e,
{
    if e.len() == 0 {
        Seq::empty()
    } else {
        let first = seq![Tok::Str(e[0].0), Tok::Colon] + tokens_of(e[0].1);
        if e.len() == 1 {
            first
        } else {
            first + seq![Tok::Comma] + members_tokens(e.skip(1))
        }
    }
}

/// The tokens of an array's items, separated by commas.
pub open spec fn items_tokens(a: Seq<JsonData>) -> Seq<Tok>
    decreases a,
{
    if a.len() == 0 {
        Seq::empty()
    } else if a.len() == 1 {
        tokens_of(a[0])
    } else {
        tokens_of(a[0]) + seq![Tok::Comma] + items_tokens(a.skip(1))
    }
}

/// The items `w` stand in `t` from position `i` on.
pub open spec fn holds_at<A>(t: Seq<A>, i: nat, w: Seq<A>) -> bool {
    i + w.len() <= t.len() && forall|k: int| 0 <= k < w.len() ==> t[i + k] == #[trigger] w[k]
}

pub(crate) proof fn lemma_holds_concat<A>(t: Seq<A>, i: nat, a: Seq<A>, b: Seq<A>)
    requires
        holds_at(t, i, a + b),
    ensures
        holds_at(t, i, a),
        holds_at(t, i + a.len(), b),
{
    assert forall|k: int| 0 <= k < a.len() implies t[i + k] == #[trigger] a[k] by {
        assert((a + b)[k] == a[k]);
    }
    assert forall|k: int| 0 <= k < b.len() implies t[i + a.len() + k] == #[trigger] b[k] by {
        assert((a + b)[a.len() + k] == b[k]);
    }
}

/// The tokens of a well-formed value parse back to that value, whatever follows them.
pub proof fn lemma_tokens_parse_back(t: Seq<Tok>, i: nat, v: JsonData)
    requires
        well_formed(v),
        holds_at(t, i, tokens_of(v)),
    ensures
        value_at(t, i) == Ok::<(JsonData, nat), crate::parser::ParserError>(
            (v, i + tokens_of(v).len()),
        ),
    decreases v,
{
    let w = tokens_of(v);
    assert(t[i as int + 0] == w[0]);
    match v {
        JsonData::Object(e) => {
            let m = members_tokens(e);
            lemma_holds_concat(t, i, seq![Tok::LeftBrace] + m, seq![Tok::RightBrace]);
            lemma_holds_concat(t, i, seq![Tok::LeftBrace], m);
            assert(t[i as int + 1 + m.len() + 0] == seq![Tok::RightBrace][0]);
            if e.len() == 0 {
                assert(e =~= Seq::empty());
            } else {
                lemma_holds_concat(t, i + 1, m, seq![Tok::RightBrace]);
                assert(holds_at(t, i + 1, m + seq![Tok::RightBrace])) by {
                    assert forall|k: int| 0 <= k < m.len() + 1 implies t[i + 1 + k] == #[trigger] (m
                        + seq![Tok::RightBrace])[k] by {
                        if k < m.len() {
                            assert(t[i + 1 + k] == m[k]);
                        } else {
                            assert(t[i as int + 1 + m.len() + 0] == seq![Tok::RightBrace][0]);
                        }
                    }
                }
                lemma_first_member(e);
                assert(t[i as int + 1 + 0] == m[0]);
                lemma_members_parse_back(t, i + 1, Seq::empty(), e);
                assert(Seq::<(Seq<char>, JsonData)>::empty() + e =~= e);
            }
        },
        JsonData::Array(a) => {
            let m = items_tokens(a);
            lemma_holds_concat(t, i, seq![Tok::LeftBracket] + m, seq![Tok::RightBracket]);
            lemma_holds_concat(t, i, seq![Tok::LeftBracket], m);
            assert(t[i as int + 1 + m.len() + 0] == seq![Tok::RightBracket][0]);
            if a.len() == 0 {
                assert(a =~= Seq::empty());
            } else {
                assert(holds_at(t, i + 1, m + seq![Tok::RightBracket])) by {
                    assert forall|k: int| 0 <= k < m.len() + 1 implies t[i + 1 + k] == #[trigger] (m
                        + seq![Tok::RightBracket])[k] by {
                        if k < m.len() {
                            assert(t[i + 1 + k] == m[k]);
                        } else {
                            assert(t[i as int + 1 + m.len() + 0] == seq![Tok::RightBracket][0]);
                        }
                    }
                }
                lemma_first_item(a);
                assert(t[i as int + 1 + 0] == m[0]);
                lemma_items_parse_back(t, i + 1, Seq::empty(), a);
                assert(Seq::<JsonData>::empty() + a =~= a);
            }
        },
        _ => {},
    }
}

proof fn lemma_first_member(e: Seq<(Seq<char>, JsonData)>)
    requires
        e.len() > 0,
    ensures
        members_tokens(e).len() >= 2,
        members_tokens(e)[0] == Tok::Str(e[0].0),
{
    let first = seq![Tok::Str(e[0].0), Tok::Colon] + tokens_of(e[0].1);
    assert(first[0] == Tok::Str(e[0].0));
    if e.len() > 1 {
        assert((first + seq![Tok::Comma] + members_tokens(e.skip(1)))[0] == first[0]);
    }
}

proof fn lemma_first_item(a: Seq<JsonData>)
    requires
        a.len() > 0,
    ensures
        items_tokens(a).len() >= 1,
        items_tokens(a).len() >= tokens_of(a[0]).len(),
        !(items_tokens(a)[0] is RightBracket),
{
    lemma_tokens_nonempty(a[0]);
    if a.len() > 1 {
        assert((tokens_of(a[0]) + seq![Tok::Comma] + items_tokens(a.skip(1)))[0] == tokens_of(
            a[0],
        )[0]);
    }
}

proof fn lemma_tokens_nonempty(v: JsonData)
    ensures
        tokens_of(v).len() >= 1,
        !(tokens_of(v)[0] is RightBracket),
{
    match v {
        JsonData::Object(e) => {
            assert((seq![Tok::LeftBrace] + members_tokens(e) + seq![Tok::RightBrace])[0]
                == Tok::LeftBrace);
        },
        JsonData::Array(a) => {
            assert((seq![Tok::LeftBracket] + items_tokens(a) + seq![Tok::RightBracket])[0]
                == Tok::LeftBracket);
        },
        _ => {},
    }
}

proof fn lemma_members_parse_back(
    t: Seq<Tok>,
    j: nat,
    acc: Seq<(Seq<char>, JsonData)>,
    e: Seq<(Seq<char>, JsonData)>,
)
    requires
        e.len() > 0,
        unique_keys(acc + e),
        forall|k: int| 0 <= k < e.len() ==> well_formed(#[trigger] e[k].1),
        holds_at(t, j, members_tokens(e) + seq![Tok::RightBrace]),
    ensures
        members_at(t, j, acc) == Ok::<(JsonData, nat), crate::parser::ParserError>(
            (JsonData::Object(acc + e), j + members_tokens(e).len() + 1),
        ),
    decreases e,
{
    let x = e[0].1;
    let key = e[0].0;
    let first = seq![Tok::Str(key), Tok::Colon] + tokens_of(x);
    let m = members_tokens(e);
    let rest = if e.len() == 1 {
        seq![Tok::RightBrace]
    } else {
        seq![Tok::Comma] + members_tokens(e.skip(1)) + seq![Tok::RightBrace]
    };
    assert(m + seq![Tok::RightBrace] =~= first + rest);
    lemma_holds_concat(t, j, first, rest);
    lemma_holds_concat(t, j, seq![Tok::Str(key), Tok::Colon], tokens_of(x));
    assert(t[j as int + 0] == seq![Tok::Str(key), Tok::Colon][0]);
    assert(t[j as int + 1] == seq![Tok::Str(key), Tok::Colon][1]);
    assert(well_formed(e[0].1));
    lemma_tokens_parse_back(t, j + 2, x);
    let n = j + 2 + tokens_of(x).len();
    assert(n == j + first.len());
    assert(t[n as int] == rest[0]);
    assert(!has_key(acc, key)) by {
        if has_key(acc, key) {
            let c = choose|c: int| 0 <= c < acc.len() && (#[trigger] acc[c]).0 == key;
            assert((acc + e)[c] == acc[c]);
            assert((acc + e)[acc.len() as int] == e[0]);
        }
    }
    assert(put(acc, key, x) == acc.push((key, x)));
    let acc2 = acc.push((key, x));
    assert(e[0] == (key, x));
    if e.len() == 1 {
        assert(acc2 =~= acc + e);
    } else {
        let tail = e.skip(1);
        assert(acc2 + tail =~= acc + e);
        assert(seq![Tok::Comma] + members_tokens(tail) + seq![Tok::RightBrace] =~= seq![Tok::Comma] + (
            members_tokens(tail) + seq![Tok::RightBrace]));
        lemma_holds_concat(t, n, seq![Tok::Comma], members_tokens(tail) + seq![Tok::RightBrace]);
        assert forall|k: int| 0 <= k < tail.len() implies well_formed(#[trigger] tail[k].1) by {
            assert(tail[k] == e[k + 1]);
        }
        lemma_members_parse_back(t, n + 1, acc2, tail);
    }
}

proof fn lemma_items_parse_back(t: Seq<Tok>, j: nat, acc: Seq<JsonData>, a: Seq<JsonData>)
    requires
        a.len() > 0,
        forall|k: int| 0 <= k < a.len() ==> well_formed(#[trigger] a[k]),
        holds_at(t, j, items_tokens(a) + seq![Tok::RightBracket]),
    ensures
        elements_at(t, j, acc) == Ok::<(JsonData, nat), crate::parser::ParserError>(
            (JsonData::Array(acc + a), j + items_tokens(a).len() + 1),
        ),
    decreases a,
{
    let x = a[0];
    let first = tokens_of(x);
    let rest = if a.len() == 1 {
        seq![Tok::RightBracket]
    } else {
        seq![Tok::Comma] + items_tokens(a.skip(1)) + seq![Tok::RightBracket]
    };
    assert(items_tokens(a) + seq![Tok::RightBracket] =~= first + rest);
    lemma_holds_concat(t, j, first, rest);
    lemma_tokens_parse_back(t, j, x);
    lemma_tokens_nonempty(x);
    let n = j + first.len();
    assert(t[n as int] == rest[0]);
    let acc2 = acc.push(x);
    if a.len() == 1 {
        assert(acc2 =~= acc + a);
    } else {
        let tail = a.skip(1);
        assert(acc2 + tail =~= acc + a);
        assert(seq![Tok::Comma] + items_tokens(tail) + seq![Tok::RightBracket] =~= seq![Tok::Comma] + (
            items_tokens(tail) + seq![Tok::RightBracket]));
        lemma_holds_concat(t, n, seq![Tok::Comma], items_tokens(tail) + seq![Tok::RightBracket]);
        assert forall|k: int| 0 <= k < tail.len() implies well_formed(#[trigger] tail[k]) by {
            assert(tail[k] == a[k + 1]);
        }
        lemma_items_parse_back(t, n + 1, acc2, tail);
    }
}

/// Whether `s` holds no quote.
pub open spec fn unquoted(s: Seq<char>) -> bool {
    forall|i: int| 0 <= i < s.len() ==> s[i] != '"'
}

/// Whether `n` is a JSON number literal: a float literal made of number
/// characters that starts with a digit or a minus sign.
pub open spec fn number_text(n: Seq<char>) -> bool {
    &&& float_literal(n)
    &&& n.len() > 0
    &&& (is_digit(n[0]) || n[0] == '-')
    &&& forall|i: int| 0 <= i < n.len() ==> number_char(#[trigger] n[i])
}

/// Whether every string and key inside `v` is free of quotes and every number
/// is a JSON number literal.
pub open spec fn writable(v: JsonData) -> bool
    decreases v,
{
    match v {
        JsonData::Object(e) => (forall|i: int| 0 <= i < e.len() ==> unquoted(#[trigger] e[i].0)) && (
        forall|i: int| 0 <= i < e.len() ==> writable(#[trigger] e[i].1)),
        JsonData::Array(a) => forall|i: int| 0 <= i < a.len() ==> writable(#[trigger] a[i]),
        JsonData::Str(s) => unquoted(s),
        JsonData::Number(n) => number_text(n),
        _ => true,
    }
}

pub(crate) proof fn lemma_writable_entries(v: JsonData, e: Seq<(Seq<char>, JsonData)>)
    requires
        writable(v),
        v == JsonData::Object(e),
    ensures
        forall|k: int| 0 <= k < e.len() ==> unquoted(#[trigger] e[k].0) && writable(e[k].1),
{
    match v {
        JsonData::Object(f) => {
            assert(f == e);
            assert(forall|i: int| 0 <= i < f.len() ==> unquoted(#[trigger] f[i].0));
            assert(forall|i: int| 0 <= i < f.len() ==> writable(#[trigger] f[i].1));
        },
        _ => {},
    }
}

/// The compact JSON text of `v`: strings quoted, no white space.
pub open spec fn json_text(v: JsonData) -> Seq<char>
    decreases v,
{
    match v {
        JsonData::Object(e) => seq!['{'] + members_text(e) + seq!['}'],
        JsonData::Array(a) => seq!['['] + items_text(a) + seq![']'],
        JsonData::Str(s) => seq!['"'] + s + seq!['"'],
        JsonData::Number(n) => n,
        JsonData::Boolean(b) => if b {
            seq!['t', 'r', 'u', 'e']
        } else {
            seq!['f', 'a', 'l', 's', 'e']
        },
        JsonData::Null => seq!['n', 'u', 'l', 'l'],
    }
}

/// The text of an object's entries, `"key":value`, separated by commas.
pub open spec fn members_text(e: Seq<(Seq<char>, JsonData)>) -> Seq<char>
    decreases e,
{
    if e.len() == 0 {
        Seq::empty()
    } else {
        let first = seq!['"'] + e[0].0 + seq!['"', ':'] + json_text(e[0].1);
        if e.len() == 1 {
            first
        } else {
            first + seq![','] + members_text(e.skip(1))
        }
    }
}

/// The text of an array's items, separated by commas.
pub open spec fn items_text(a: Seq<JsonData>) -> Seq<char>
    decreases a,
{
    if a.len() == 0 {
        Seq::empty()
    } else if a.len() == 1 {
        json_text(a[0])
    } else {
        json_text(a[0]) + seq![','] + items_text(a.skip(1))
    }
}

/// Whether `c` is one of the four white space characters that JSON allows.
pub open spec fn json_space(c: char) -> bool {
    c == ' ' || c == '\t' || c == '\n' || c == '\r'
}

/// Whether position `j` of `s` ends a value: the end, a comma, a closing
/// bracket or white space.
pub open spec fn ends_value(s: Seq<char>, j: nat) -> bool {
    j == s.len() || (j < s.len() && (s[j as int] == ',' || s[j as int] == '}' || s[j as int]
        == ']' || json_space(s[j as int])))
}

pub(crate) proof fn lemma_string_run(s: Seq<char>, j: nat, end: nat)
    requires
        j <= end <= s.len(),
        forall|k: int| j <= k < end ==> s[k] != '"',
        end == s.len() || s[end as int] == '"',
    ensures
        string_run(s, j) == end - j,
    decreases end - j,
{
    if j < end {
        lemma_string_run(s, j + 1, end);
    }
}

proof fn lemma_number_run(s: Seq<char>, j: nat, end: nat)
    requires
        j <= end <= s.len(),
        forall|k: int| j <= k < end ==> number_char(#[trigger] s[k]),
        ends_value(s, end),
    ensures
        number_run(s, j) == end - j,
    decreases end - j,
{
    if j < end {
        lemma_number_run(s, j + 1, end);
    }
}

proof fn lemma_alpha_run(s: Seq<char>, j: nat, end: nat, w: Seq<char>)
    requires
        j <= end <= s.len(),
        end - j <= w.len(),
        forall|k: int| j <= k < end ==> s[k] == w[w.len() - (end - j) + (k - j)],
        forall|k: int| 0 <= k < w.len() ==> 'a' <= #[trigger] w[k] && w[k] <= 'z',
        ends_value(s, end),
    ensures
        alpha_run(s, j) == end - j,
    decreases end - j,
{
    if j < end {
        lemma_alpha_run(s, j + 1, end, w);
    }
}

pub(crate) proof fn lemma_prefixed_three(
    a: Seq<Tok>,
    b: Seq<Tok>,
    c: Seq<Tok>,
    r: Result<Seq<Tok>, crate::scanner::ScannerError>,
)
    ensures
        prefixed(a, prefixed(b, prefixed(c, r))) == prefixed(a + b + c, r),
{
    lemma_prefixed_twice(b, c, r);
    lemma_prefixed_twice(a, b + c, r);
    assert(a + (b + c) =~= a + b + c);
}

/// Scanning the text of a writable value gives its tokens, and goes on after it.
pub(crate) proof fn lemma_scan_value(s: Seq<char>, i: nat, v: JsonData)
    requires
        writable(v),
        holds_at(s, i, json_text(v)),
        ends_value(s, i + json_text(v).len()),
    ensures
        scan_from(s, i) == prefixed(tokens_of(v), scan_from(s, i + json_text(v).len())),
    decreases v,
{
    let w = json_text(v);
    let end = i + w.len();
    assert(s[i as int + 0] == w[0]);
    match v {
        JsonData::Str(x) => {
            assert forall|k: int| i + 1 <= k < i + 1 + x.len() implies s[k] != '"' by {
                assert(s[i as int + (k - i)] == w[k - i]);
                assert(w[k - i] == x[k - i - 1]);
            }
            assert(s[i as int + (x.len() + 1)] == w[x.len() + 1int]);
            lemma_string_run(s, i + 1, i + 1 + x.len());
            assert(s.subrange(i + 1int, i + 1 + x.len() as int) =~= x) by {
                assert forall|k: int| 0 <= k < x.len() implies s.subrange(i + 1int, i + 1 + x.len() as int)[k] == x[k] by {
                    assert(s[i as int + (k + 1)] == w[k + 1]);
                }
            }
        },
        JsonData::Number(n) => {
            assert forall|k: int| i + 1 <= k < end implies number_char(#[trigger] s[k]) by {
                assert(s[i as int + (k - i)] == w[k - i]);
            }
            lemma_number_run(s, i + 1, end);
            assert(s.subrange(i as int, end as int) =~= n) by {
                assert forall|k: int| 0 <= k < n.len() implies s.subrange(i as int, end as int)[k]
                    == n[k] by {
                    assert(s[i as int + k] == w[k]);
                }
            }
        },
        JsonData::Boolean(_) | JsonData::Null => {
            assert forall|k: int| i + 1 <= k < end implies s[k] == w[w.len() - (end - (i + 1)) + (
            k - (i + 1))] by {
                assert(s[i as int + (k - i)] == w[k - i]);
            }
            lemma_alpha_run(s, i + 1, end, w);
            assert(s.subrange(i as int, end as int) =~= w) by {
                assert forall|k: int| 0 <= k < w.len() implies s.subrange(i as int, end as int)[k]
                    == w[k] by {
                    assert(s[i as int + k] == w[k]);
                }
            }
            assert(keyword(w) == Some(tokens_of(v)[0]));
        },
        JsonData::Object(e) => {
            let m = members_text(e);
            lemma_holds_concat(s, i, seq!['{'] + m, seq!['}']);
            lemma_holds_concat(s, i, seq!['{'], m);
            let close = i + 1 + m.len();
            assert(s[close as int] == seq!['}'][0]) by {
                assert(s[i as int + 1 + m.len() + 0] == seq!['}'][0]);
            }
            if e.len() == 0 {
                assert(m.len() == 0);
                assert(tokens_of(v) =~= seq![Tok::LeftBrace] + seq![Tok::RightBrace]);
                lemma_prefixed_twice(seq![Tok::LeftBrace], seq![Tok::RightBrace], scan_from(s, end));
            } else {
                lemma_writable_entries(v, e);
                lemma_scan_members(s, i + 1, e);
                lemma_prefixed_three(
                    seq![Tok::LeftBrace],
                    members_tokens(e),
                    seq![Tok::RightBrace],
                    scan_from(s, end),
                );
            }
        },
        JsonData::Array(a) => {
            let m = items_text(a);
            lemma_holds_concat(s, i, seq!['['] + m, seq![']']);
            lemma_holds_concat(s, i, seq!['['], m);
            let close = i + 1 + m.len();
            assert(s[close as int] == seq![']'][0]) by {
                assert(s[i as int + 1 + m.len() + 0] == seq![']'][0]);
            }
            if a.len() == 0 {
                assert(m.len() == 0);
                assert(tokens_of(v) =~= seq![Tok::LeftBracket] + seq![Tok::RightBracket]);
                lemma_prefixed_twice(
                    seq![Tok::LeftBracket],
                    seq![Tok::RightBracket],
                    scan_from(s, end),
                );
            } else {
                lemma_scan_items(s, i + 1, a);
                lemma_prefixed_three(
                    seq![Tok::LeftBracket],
                    items_tokens(a),
                    seq![Tok::RightBracket],
                    scan_from(s, end),
                );
            }
        },
    }
}

proof fn lemma_scan_members(s: Seq<char>, j: nat, e: Seq<(Seq<char>, JsonData)>)
    requires
        e.len() > 0,
        forall|k: int| 0 <= k < e.len() ==> unquoted(#[trigger] e[k].0) && writable(e[k].1),
        holds_at(s, j, members_text(e)),
        j + members_text(e).len() < s.len(),
        s[j as int + members_text(e).len()] == '}',
    ensures
        scan_from(s, j) == prefixed(members_tokens(e), scan_from(s, j + members_text(e).len())),
    decreases e,
{
    let key = e[0].0;
    let x = e[0].1;
    assert(unquoted(key) && writable(x));
    let head = seq!['"'] + key + seq!['"', ':'];
    let first = head + json_text(x);
    let m = members_text(e);
    let after = j + m.len();
    if e.len() == 1 {
        lemma_holds_concat(s, j, head, json_text(x));
    } else {
        lemma_holds_concat(s, j, first + seq![','], members_text(e.skip(1)));
        lemma_holds_concat(s, j, first, seq![',']);
        lemma_holds_concat(s, j, head, json_text(x));
    }
    let vpos = j + head.len();
    let vend = vpos + json_text(x).len();
    assert(ends_value(s, vend)) by {
        if e.len() == 1 {
            assert(vend == after);
        } else {
            assert(s[vend as int + 0] == seq![','][0]);
        }
    }
    lemma_scan_value(s, vpos, x);
    // the key
    assert(s[j as int] == '"') by {
        assert(s[j as int + 0] == head[0]);
    }
    assert forall|k: int| j + 1 <= k < j + 1 + key.len() implies s[k] != '"' by {
        assert(s[j as int + (k - j)] == head[k - j]);
        assert(head[k - j] == key[k - j - 1]);
    }
    assert(s[j as int + 1 + key.len()] == '"') by {
        assert(s[j as int + (key.len() + 1)] == head[key.len() + 1int]);
    }
    assert(s[j as int + 2 + key.len()] == ':') by {
        assert(s[j as int + (key.len() + 2)] == head[key.len() + 2int]);
    }
    lemma_string_run(s, j + 1, j + 1 + key.len());
    assert(s.subrange(j + 1int, j + 1 + key.len() as int) =~= key) by {
        assert forall|k: int| 0 <= k < key.len() implies s.subrange(j + 1int, j + 1 + key.len() as int)[k]
            == key[k] by {
            assert(s[j as int + (k + 1)] == head[k + 1]);
        }
    }
    let colon = (j + 2 + key.len()) as nat;
    assert(scan_from(s, colon) == prefixed(seq![Tok::Colon], scan_from(s, vpos)));
    let ktok = seq![Tok::Str(key)];
    let vt = tokens_of(x);
    assert(scan_from(s, j) == prefixed(ktok, scan_from(s, colon)));
    if e.len() == 1 {
        lemma_prefixed_three(ktok, seq![Tok::Colon], vt, scan_from(s, vend));
        assert(members_tokens(e) == seq![Tok::Str(key), Tok::Colon] + vt);
        assert(ktok + seq![Tok::Colon] + vt =~= seq![Tok::Str(key), Tok::Colon] + vt);
    } else {
        let tail = e.skip(1);
        assert(s[vend as int] == ',') by {
            assert(s[vend as int + 0] == seq![','][0]);
        }
        assert forall|k: int| 0 <= k < tail.len() implies unquoted(#[trigger] tail[k].0)
            && writable(tail[k].1) by {
            assert(tail[k] == e[k + 1]);
        }
        assert(vend + 1 + members_text(tail).len() == after);
        lemma_scan_members(s, vend + 1, tail);
        let rest = scan_from(s, after);
        lemma_prefixed_three(seq![Tok::Comma], members_tokens(tail), Seq::empty(), rest);
        assert(scan_from(s, vend) == prefixed(seq![Tok::Comma], prefixed(members_tokens(tail), rest)));
        lemma_prefixed_twice(seq![Tok::Comma], members_tokens(tail), rest);
        lemma_prefixed_three(ktok, seq![Tok::Colon], vt, prefixed(
            seq![Tok::Comma] + members_tokens(tail),
            rest,
        ));
        lemma_prefixed_twice(ktok + seq![Tok::Colon] + vt, seq![Tok::Comma] + members_tokens(tail), rest);
        assert(ktok + seq![Tok::Colon] + vt + (seq![Tok::Comma] + members_tokens(tail))
            =~= members_tokens(e));
    }
}

proof fn lemma_scan_items(s: Seq<char>, j: nat, a: Seq<JsonData>)
    requires
        a.len() > 0,
        forall|k: int| 0 <= k < a.len() ==> writable(#[trigger] a[k]),
        holds_at(s, j, items_text(a)),
        j + items_text(a).len() < s.len(),
        s[j as int + items_text(a).len()] == ']',
    ensures
        scan_from(s, j) == prefixed(items_tokens(a), scan_from(s, j + items_text(a).len())),
    decreases a,
{
    let x = a[0];
    assert(writable(x));
    let m = items_text(a);
    let after = j + m.len();
    if a.len() > 1 {
        lemma_holds_concat(s, j, json_text(x) + seq![','], items_text(a.skip(1)));
        lemma_holds_concat(s, j, json_text(x), seq![',']);
    }
    let vend = j + json_text(x).len();
    assert(ends_value(s, vend)) by {
        if a.len() == 1 {
            assert(vend == after);
        } else {
            assert(s[vend as int + 0] == seq![','][0]);
        }
    }
    lemma_scan_value(s, j, x);
    let vt = tokens_of(x);
    if a.len() > 1 {
        let tail = a.skip(1);
        assert(s[vend as int] == ',') by {
            assert(s[vend as int + 0] == seq![','][0]);
        }
        assert forall|k: int| 0 <= k < tail.len() implies writable(#[trigger] tail[k]) by {
            assert(tail[k] == a[k + 1]);
        }
        assert(vend + 1 + items_text(tail).len() == after);
        lemma_scan_items(s, vend + 1, tail);
        let rest = scan_from(s, after);
        lemma_prefixed_twice(seq![Tok::Comma], items_tokens(tail), rest);
        lemma_prefixed_twice(vt, seq![Tok::Comma] + items_tokens(tail), rest);
        assert(vt + (seq![Tok::Comma] + items_tokens(tail)) =~= items_tokens(a));
    }
}

/// The compact JSON text of any value whose objects have unique keys, whose
/// strings hold no quote and whose numbers are JSON number literals parses
/// back to that very value; in particular parsing succeeds and gives a value
/// of the same kind.
pub proof fn lemma_text_round_trip(v: JsonData)
    requires
        well_formed(v),
        writable(v),
    ensures
        decode(json_text(v)) == Ok::<JsonData, JsonParseError>(v),
{
    let s = json_text(v);
    let t = tokens_of(v);
    lemma_scan_value(s, 0, v);
    assert(t + Seq::empty() =~= t);
    assert(lex(s) == Ok::<Seq<Tok>, crate::scanner::ScannerError>(t));
    lemma_tokens_parse_back(t, 0, v);
}

proof fn lemma_put_well_formed(e: Seq<(Seq<char>, JsonData)>, k: Seq<char>, x: JsonData)
    requires
        unique_keys(e),
        forall|a: int| 0 <= a < e.len() ==> well_formed(#[trigger] e[a].1),
        well_formed(x),
    ensures
        unique_keys(put(e, k, x)),
        forall|a: int|
            0 <= a < put(e, k, x).len() ==> well_formed(#[trigger] put(e, k, x)[a].1),
{
    crate::value::lemma_put_last_wins(e, k, x, k);
    let f = put(e, k, x);
    assert forall|a: int| 0 <= a < f.len() implies well_formed(#[trigger] f[a].1) by {
        if a < e.len() && f[a] != e[a] {
            assert(f[a] == (k, x));
        }
        if a >= e.len() {
            assert(f[a] == (k, x));
        }
    }
}

/// Every value that the parser builds is well formed: the keys of each of its
/// objects are unique.
pub proof fn lemma_parsed_well_formed(t: Seq<Tok>, i: nat)
    ensures
        value_at(t, i) matches Ok((v, _)) ==> well_formed(v),
    decreases t.len() - i, 1int,
{
    if i < t.len() {
        match t[i as int] {
            Tok::LeftBrace => {
                if i + 1 < t.len() && !(t[i + 1int] is RightBrace) {
                    lemma_members_well_formed(t, i + 1, Seq::empty());
                }
            },
            Tok::LeftBracket => {
                if i + 1 < t.len() && !(t[i + 1int] is RightBracket) {
                    lemma_elements_well_formed(t, i + 1, Seq::empty());
                }
            },
            _ => {},
        }
    }
}

proof fn lemma_members_well_formed(t: Seq<Tok>, j: nat, acc: Seq<(Seq<char>, JsonData)>)
    requires
        unique_keys(acc),
        forall|a: int| 0 <= a < acc.len() ==> well_formed(#[trigger] acc[a].1),
    ensures
        members_at(t, j, acc) matches Ok((v, _)) ==> well_formed(v),
    decreases t.len() - j, 0int,
{
    if j + 1 < t.len() && t[j as int] is Str && t[j + 1int] is Colon {
        lemma_parsed_well_formed(t, j + 2);
        if let Ok((x, n)) = value_at(t, j + 2) {
            lemma_put_well_formed(acc, t[j as int]->Str_0, x);
            if n < t.len() && j < n {
                lemma_members_well_formed(t, n + 1, put(acc, t[j as int]->Str_0, x));
            }
        }
    }
}

proof fn lemma_elements_well_formed(t: Seq<Tok>, j: nat, acc: Seq<JsonData>)
    requires
        forall|a: int| 0 <= a < acc.len() ==> well_formed(#[trigger] acc[a]),
    ensures
        elements_at(t, j, acc) matches Ok((v, _)) ==> well_formed(v),
    decreases t.len() - j, 2int,
{
    if j < t.len() {
        lemma_parsed_well_formed(t, j);
        if let Ok((x, n)) = value_at(t, j) {
            let items = acc.push(x);
            assert forall|a: int| 0 <= a < items.len() implies well_formed(#[trigger] items[a]) by {
                if a < acc.len() {
                    assert(items[a] == acc[a]);
                }
            }
            if n < t.len() && j <= n {
                lemma_elements_well_formed(t, n + 1, items);
            }
        }
    }
}

/// Scanning skips a run of white space.
pub(crate) proof fn lemma_skip_space(s: Seq<char>, i: nat, j: nat)
    requires
        i <= j <= s.len(),
        forall|k: int| i <= k < j ==> json_space(#[trigger] s[k]),
    ensures
        scan_from(s, i) == scan_from(s, j),
    decreases j - i,
{
    if i < j {
        lemma_skip_space(s, i + 1, j);
    }
}

/// An opening brace or bracket followed at once by its closing one is an empty
/// object or array, two tokens long.
pub proof fn lemma_empty_containers(t: Seq<Tok>, i: nat)
    requires
        i + 1 < t.len(),
    ensures
        t[i as int] is LeftBrace && t[i + 1int] is RightBrace ==> value_at(t, i) == Ok::<
            (JsonData, nat),
            crate::parser::ParserError,
        >((JsonData::Object(Seq::empty()), i + 2)),
        t[i as int] is LeftBracket && t[i + 1int] is RightBracket ==> value_at(t, i) == Ok::<
            (JsonData, nat),
            crate::parser::ParserError,
        >((JsonData::Array(Seq::empty()), i + 2)),
{
}

/// The first tokens of `w`, but not all of them, stand in `t` from `i` to its end.
pub open spec fn cut_at(t: Seq<Tok>, i: nat, w: Seq<Tok>) -> bool {
    i <= t.len() < i + w.len() && forall|k: int| 0 <= k < t.len() - i ==> t[i + k] == #[trigger] w[k]
}

/// Tokens that stop partway through a well-formed value give `InvalidStructure`.
pub proof fn lemma_truncated(t: Seq<Tok>, i: nat, v: JsonData)
    requires
        well_formed(v),
        cut_at(t, i, tokens_of(v)),
    ensures
        value_at(t, i) == Err::<(JsonData, nat), ParserError>(ParserError::InvalidStructure),
    decreases v,
{
    let w = tokens_of(v);
    if i < t.len() {
        assert(t[i + 0int] == w[0]);
        match v {
            JsonData::Object(e) => {
                let m = members_tokens(e);
                assert(w =~= seq![Tok::LeftBrace] + (m + seq![Tok::RightBrace]));
                if i + 1 < t.len() {
                    assert(t[i + 1int] == w[1]);
                    if e.len() == 0 {
                        assert(w.len() == 2);
                    } else {
                        lemma_first_member(e);
                        assert(cut_at(t, i + 1, m + seq![Tok::RightBrace])) by {
                            assert forall|k: int| 0 <= k < t.len() - (i + 1) implies t[i + 1 + k]
                                == #[trigger] (m + seq![Tok::RightBrace])[k] by {
                                assert(t[i + (k + 1)] == w[k + 1]);
                            }
                        }
                        lemma_members_truncated(t, i + 1, Seq::empty(), e);
                    }
                }
            },
            JsonData::Array(a) => {
                let m = items_tokens(a);
                assert(w =~= seq![Tok::LeftBracket] + (m + seq![Tok::RightBracket]));
                if i + 1 < t.len() {
                    assert(t[i + 1int] == w[1]);
                    if a.len() == 0 {
                        assert(w.len() == 2);
                    } else {
                        lemma_first_item(a);
                        assert(cut_at(t, i + 1, m + seq![Tok::RightBracket])) by {
                            assert forall|k: int| 0 <= k < t.len() - (i + 1) implies t[i + 1 + k]
                                == #[trigger] (m + seq![Tok::RightBracket])[k] by {
                                assert(t[i + (k + 1)] == w[k + 1]);
                            }
                        }
                        lemma_items_truncated(t, i + 1, Seq::empty(), a);
                    }
                }
            },
            _ => {},
        }
    }
}

proof fn lemma_members_truncated(
    t: Seq<Tok>,
    j: nat,
    acc: Seq<(Seq<char>, JsonData)>,
    e: Seq<(Seq<char>, JsonData)>,
)
    requires
        e.len() > 0,
        forall|k: int| 0 <= k < e.len() ==> well_formed(#[trigger] e[k].1),
        cut_at(t, j, members_tokens(e) + seq![Tok::RightBrace]),
    ensures
        members_at(t, j, acc) == Err::<(JsonData, nat), ParserError>(ParserError::InvalidStructure),
    decreases e,
{
    let key = e[0].0;
    let x = e[0].1;
    assert(well_formed(x));
    let xt = tokens_of(x);
    let rest = if e.len() == 1 {
        seq![Tok::RightBrace]
    } else {
        seq![Tok::Comma] + (members_tokens(e.skip(1)) + seq![Tok::RightBrace])
    };
    let w = members_tokens(e) + seq![Tok::RightBrace];
    assert(w =~= seq![Tok::Str(key), Tok::Colon] + xt + rest);
    if j < t.len() {
        assert(t[j + 0int] == w[0]);
        if j + 1 < t.len() {
            assert(t[j + 1int] == w[1]);
            let n = j + 2 + xt.len();
            if t.len() < n {
                assert(cut_at(t, j + 2, xt)) by {
                    assert forall|k: int| 0 <= k < t.len() - (j + 2) implies t[j + 2 + k]
                        == #[trigger] xt[k] by {
                        assert(t[j + (k + 2)] == w[k + 2]);
                    }
                }
                lemma_truncated(t, j + 2, x);
            } else {
                assert(holds_at(t, j + 2, xt)) by {
                    assert forall|k: int| 0 <= k < xt.len() implies t[j + 2 + k] == #[trigger] xt[k] by {
                        assert(t[j + (k + 2)] == w[k + 2]);
                    }
                }
                lemma_tokens_parse_back(t, j + 2, x);
                if n < t.len() {
                    assert(t[n as int] == w[n - j]);
                    assert(w[n - j] == rest[0]);
                    if e.len() > 1 {
                        let tail = e.skip(1);
                        assert forall|k: int| 0 <= k < tail.len() implies well_formed(
                            #[trigger] tail[k].1,
                        ) by {
                            assert(tail[k] == e[k + 1]);
                        }
                        assert(cut_at(t, n + 1, members_tokens(tail) + seq![Tok::RightBrace])) by {
                            assert forall|k: int| 0 <= k < t.len() - (n + 1) implies t[n + 1 + k]
                                == #[trigger] (members_tokens(tail) + seq![Tok::RightBrace])[k] by {
                                assert(t[j + (n - j + 1 + k)] == w[n - j + 1 + k]);
                            }
                        }
                        lemma_members_truncated(t, n + 1, put(acc, key, x), tail);
                    }
                }
            }
        }
    }
}

proof fn lemma_items_truncated(t: Seq<Tok>, j: nat, acc: Seq<JsonData>, a: Seq<JsonData>)
    requires
        a.len() > 0,
        forall|k: int| 0 <= k < a.len() ==> well_formed(#[trigger] a[k]),
        cut_at(t, j, items_tokens(a) + seq![Tok::RightBracket]),
    ensures
        elements_at(t, j, acc) == Err::<(JsonData, nat), ParserError>(ParserError::InvalidStructure),
    decreases a,
{
    let x = a[0];
    assert(well_formed(x));
    let xt = tokens_of(x);
    let rest = if a.len() == 1 {
        seq![Tok::RightBracket]
    } else {
        seq![Tok::Comma] + (items_tokens(a.skip(1)) + seq![Tok::RightBracket])
    };
    let w = items_tokens(a) + seq![Tok::RightBracket];
    assert(w =~= xt + rest);
    if j < t.len() {
        let n = j + xt.len();
        if t.len() < n {
            assert(cut_at(t, j, xt)) by {
                assert forall|k: int| 0 <= k < t.len() - j implies t[j + k] == #[trigger] xt[k] by {
                    assert(t[j + k] == w[k]);
                }
            }
            lemma_truncated(t, j, x);
        } else {
            assert(holds_at(t, j, xt)) by {
                assert forall|k: int| 0 <= k < xt.len() implies t[j + k] == #[trigger] xt[k] by {
                    assert(t[j + k] == w[k]);
                }
            }
            lemma_tokens_parse_back(t, j, x);
            if n < t.len() {
                assert(t[n as int] == w[n - j]);
                assert(w[n - j] == rest[0]);
                if a.len() > 1 {
                    let tail = a.skip(1);
                    assert forall|k: int| 0 <= k < tail.len() implies well_formed(#[trigger] tail[k]) by {
                        assert(tail[k] == a[k + 1]);
                    }
                    assert(cut_at(t, n + 1, items_tokens(tail) + seq![Tok::RightBracket])) by {
                        assert forall|k: int| 0 <= k < t.len() - (n + 1) implies t[n + 1 + k]
                            == #[trigger] (items_tokens(tail) + seq![Tok::RightBracket])[k] by {
                            assert(t[j + (n - j + 1 + k)] == w[n - j + 1 + k]);
                        }
                    }
                    lemma_items_truncated(t, n + 1, acc.push(x), tail);
                }
            }
        }
    }
}

/// The entries `acc` with each entry of `e` bound in turn.
pub open spec fn put_all(acc: Seq<(Seq<char>, JsonData)>, e: Seq<(Seq<char>, JsonData)>) -> Seq<
    (Seq<char>, JsonData),
>
    decreases e.len(),
{
    if e.len() == 0 {
        acc
    } else {
        put_all(put(acc, e[0].0, e[0].1), e.skip(1))
    }
}

proof fn lemma_put_all_keys(acc: Seq<(Seq<char>, JsonData)>, e: Seq<(Seq<char>, JsonData)>, k: Seq<char>)
    requires
        unique_keys(acc),
    ensures
        unique_keys(put_all(acc, e)),
        (forall|j: int| 0 <= j < e.len() ==> (#[trigger] e[j]).0 != k) ==> lookup(put_all(acc, e), k)
            == lookup(acc, k),
    decreases e.len(),
{
    if e.len() > 0 {
        crate::value::lemma_put_last_wins(acc, e[0].0, e[0].1, k);
        let tail = e.skip(1);
        if forall|j: int| 0 <= j < e.len() ==> (#[trigger] e[j]).0 != k {
            assert(e[0].0 != k);
            assert forall|j: int| 0 <= j < tail.len() implies (#[trigger] tail[j]).0 != k by {
                assert(tail[j] == e[j + 1]);
            }
        }
        lemma_put_all_keys(put(acc, e[0].0, e[0].1), tail, k);
    }
}

proof fn lemma_put_all_last(acc: Seq<(Seq<char>, JsonData)>, e: Seq<(Seq<char>, JsonData)>, last: int)
    requires
        unique_keys(acc),
        0 <= last < e.len(),
        forall|j: int| last < j < e.len() ==> (#[trigger] e[j]).0 != e[last].0,
    ensures
        lookup(put_all(acc, e), e[last].0) == Some(e[last].1),
    decreases e.len(),
{
    let k = e[last].0;
    let tail = e.skip(1);
    let acc2 = put(acc, e[0].0, e[0].1);
    crate::value::lemma_put_last_wins(acc, e[0].0, e[0].1, k);
    if last == 0 {
        assert forall|j: int| 0 <= j < tail.len() implies (#[trigger] tail[j]).0 != k by {
            assert(tail[j] == e[j + 1]);
        }
        lemma_put_all_keys(acc2, tail, k);
    } else {
        assert(tail[last - 1] == e[last]);
        assert forall|j: int| last - 1 < j < tail.len() implies (#[trigger] tail[j]).0 != tail[last
            - 1].0 by {
            assert(tail[j] == e[j + 1]);
        }
        lemma_put_all_last(acc2, tail, last - 1);
    }
}

#[verifier::rlimit(30)]
proof fn lemma_members_parse_all(
    t: Seq<Tok>,
    j: nat,
    acc: Seq<(Seq<char>, JsonData)>,
    e: Seq<(Seq<char>, JsonData)>,
)
    requires
        e.len() > 0,
        forall|k: int| 0 <= k < e.len() ==> well_formed(#[trigger] e[k].1),
        holds_at(t, j, members_tokens(e) + seq![Tok::RightBrace]),
    ensures
        members_at(t, j, acc) == Ok::<(JsonData, nat), ParserError>(
            (JsonData::Object(put_all(acc, e)), j + members_tokens(e).len() + 1),
        ),
    decreases e,
{
    let x = e[0].1;
    let key = e[0].0;
    let first = seq![Tok::Str(key), Tok::Colon] + tokens_of(x);
    let rest = if e.len() == 1 {
        seq![Tok::RightBrace]
    } else {
        seq![Tok::Comma] + members_tokens(e.skip(1)) + seq![Tok::RightBrace]
    };
    assert(members_tokens(e) + seq![Tok::RightBrace] =~= first + rest);
    lemma_holds_concat(t, j, first, rest);
    lemma_holds_concat(t, j, seq![Tok::Str(key), Tok::Colon], tokens_of(x));
    assert(t[j as int + 0] == seq![Tok::Str(key), Tok::Colon][0]);
    assert(t[j as int + 1] == seq![Tok::Str(key), Tok::Colon][1]);
    assert(well_formed(e[0].1));
    lemma_tokens_parse_back(t, j + 2, x);
    let n = j + 2 + tokens_of(x).len();
    assert(t[n as int] == rest[0]);
    let acc2 = put(acc, key, x);
    let tail = e.skip(1);
    assert(put_all(acc, e) == put_all(acc2, tail));
    assert(value_at(t, j + 2) == Ok::<(JsonData, nat), ParserError>((x, n)));
    if e.len() == 1 {
        assert(tail.len() == 0);
        assert(put_all(acc2, tail) == acc2);
        assert(t[n as int] is RightBrace);
        assert(members_at(t, j, acc) == Ok::<(JsonData, nat), ParserError>(
            (JsonData::Object(acc2), n + 1),
        ));
    } else {
        assert(t[n as int] is Comma);
        assert(seq![Tok::Comma] + members_tokens(tail) + seq![Tok::RightBrace] =~= seq![Tok::Comma] + (
            members_tokens(tail) + seq![Tok::RightBrace]));
        lemma_holds_concat(t, n, seq![Tok::Comma], members_tokens(tail) + seq![Tok::RightBrace]);
        assert forall|k: int| 0 <= k < tail.len() implies well_formed(#[trigger] tail[k].1) by {
            assert(tail[k] == e[k + 1]);
        }
        lemma_members_parse_all(t, n + 1, acc2, tail);
    }
}

/// Keys may repeat in an object's text: the object holds each key once, bound
/// to the value written last for it.
pub proof fn lemma_last_key_wins(t: Seq<Tok>, i: nat, e: Seq<(Seq<char>, JsonData)>, last: int)
    requires
        e.len() > 0,
        forall|k: int| 0 <= k < e.len() ==> well_formed(#[trigger] e[k].1),
        holds_at(t, i, tokens_of(JsonData::Object(e))),
    ensures
        value_at(t, i) == Ok::<(JsonData, nat), ParserError>(
            (JsonData::Object(put_all(Seq::empty(), e)), i + tokens_of(JsonData::Object(e)).len()),
        ),
        unique_keys(put_all(Seq::empty(), e)),
        0 <= last < e.len() && (forall|j: int| last < j < e.len() ==> (#[trigger] e[j]).0 != e[last].0)
            ==> lookup(put_all(Seq::empty(), e), e[last].0) == Some(e[last].1),
{
    let w = tokens_of(JsonData::Object(e));
    let m = members_tokens(e);
    assert(w =~= seq![Tok::LeftBrace] + (m + seq![Tok::RightBrace]));
    assert(t[i + 0int] == w[0]);
    lemma_first_member(e);
    assert(t[i + 1int] == w[1]);
    assert(holds_at(t, i + 1, m + seq![Tok::RightBrace])) by {
        assert forall|k: int| 0 <= k < m.len() + 1 implies t[i + 1 + k] == #[trigger] (m + seq![
            Tok::RightBrace,
        ])[k] by {
            assert(t[i + (k + 1)] == w[k + 1]);
        }
    }
    lemma_members_parse_all(t, i + 1, Seq::empty(), e);
    assert(unique_keys(Seq::<(Seq<char>, JsonData)>::empty()));
    lemma_put_all_keys(Seq::empty(), e, Seq::empty());
    if 0 <= last < e.len() && (forall|j: int| last < j < e.len() ==> (#[trigger] e[j]).0 != e[last].0) {
        lemma_put_all_last(Seq::empty(), e, last);
    }
}

} // verus!
