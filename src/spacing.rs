use vstd::prelude::*;

use crate::roundtrip::{
    ends_value, holds_at, items_tokens, json_space, json_text, lemma_holds_concat,
    lemma_prefixed_three, lemma_scan_value, lemma_skip_space, lemma_string_run,
    lemma_tokens_parse_back, members_tokens, tokens_of, unquoted, well_formed, writable,
};
use crate::scanner::{lemma_prefixed_twice, lex, prefixed, scan_from, single_token};
use crate::tokens::Tok;
use crate::value::JsonData;
use crate::{decode, JsonParseError};

verus! {

/// Whether `g` is made of JSON white space alone.
pub open spec fn all_space(g: Seq<char>) -> bool {
    forall|k: int| 0 <= k < g.len() ==> json_space(#[trigger] g[k])
}

/// The JSON text of `v`, whose first token has index `n`, with the white space
/// `gap(k)` after the token of index `k`.
pub open spec fn spaced_text(v: JsonData, gap: spec_fn(int) -> Seq<char>, n: int) -> Seq<char>
    decreases v,
{
    match v {
        JsonData::Object(e) => seq!['{'] + gap(n) + spaced_members(e, gap, n + 1) + seq!['}'] + gap(
            n + 1 + members_tokens(e).len(),
        ),
        JsonData::Array(a) => seq!['['] + gap(n) + spaced_items(a, gap, n + 1) + seq![']'] + gap(
            n + 1 + items_tokens(a).len(),
        ),
        _ => json_text(v) + gap(n),
    }
}

/// The text of an object's entries, with a gap after every token.
pub open spec fn spaced_members(
    e: Seq<(Seq<char>, JsonData)>,
    gap: spec_fn(int) -> Seq<char>,
    n: int,
) -> Seq<char>
    decreases e,
{
    if e.len() == 0 {
        Seq::empty()
    } else {
        let x = e[0].1;
        let first = seq!['"'] + e[0].0 + seq!['"'] + gap(n) + seq![':'] + gap(n + 1) + spaced_text(
            x,
            gap,
            n + 2,
        );
        if e.len() == 1 {
            first
        } else {
            let c = n + 2 + tokens_of(x).len();
            first + seq![','] + gap(c) + spaced_members(e.skip(1), gap, c + 1)
        }
    }
}

/// The text of an array's items, with a gap after every token.
pub open spec fn spaced_items(a: Seq<JsonData>, gap: spec_fn(int) -> Seq<char>, n: int) -> Seq<
    char,
>
    decreases a,
{
    if a.len() == 0 {
        Seq::empty()
    } else if a.len() == 1 {
        spaced_text(a[0], gap, n)
    } else {
        let c = n + tokens_of(a[0]).len();
        spaced_text(a[0], gap, n) + seq![','] + gap(c) + spaced_items(a.skip(1), gap, c + 1)
    }
}

/// Whether every gap is made of white space.
pub open spec fn all_gaps_space(gap: spec_fn(int) -> Seq<char>) -> bool {
    forall|k: int| all_space(#[trigger] gap(k))
}

proof fn lemma_gap(s: Seq<char>, p: nat, g: Seq<char>)
    requires
        all_space(g),
        holds_at(s, p, g),
    ensures
        scan_from(s, p) == scan_from(s, p + g.len()),
{
    assert forall|k: int| p <= k < p + g.len() implies json_space(#[trigger] s[k]) by {
        assert(s[p + (k - p)] == g[k - p]);
    }
    lemma_skip_space(s, p, p + g.len());
}

proof fn lemma_punct(s: Seq<char>, p: nat, c: char, g: Seq<char>)
    requires
        all_space(g),
        p < s.len(),
        s[p as int] == c,
        single_token(c) is Some,
        holds_at(s, p + 1, g),
    ensures
        scan_from(s, p) == prefixed(seq![single_token(c)->0], scan_from(s, p + 1 + g.len())),
{
    lemma_gap(s, p + 1, g);
}

proof fn lemma_scan_string(s: Seq<char>, p: nat, x: Seq<char>)
    requires
        unquoted(x),
        holds_at(s, p, seq!['"'] + x + seq!['"']),
    ensures
        scan_from(s, p) == prefixed(seq![Tok::Str(x)], scan_from(s, p + x.len() + 2)),
{
    let w = seq!['"'] + x + seq!['"'];
    assert(s[p + 0int] == w[0]);
    assert forall|k: int| p + 1 <= k < p + 1 + x.len() implies s[k] != '"' by {
        assert(s[p + (k - p)] == w[k - p]);
        assert(w[k - p] == x[k - p - 1]);
    }
    assert(s[p as int + (x.len() + 1)] == w[x.len() + 1int]);
    lemma_string_run(s, p + 1, p + 1 + x.len());
    assert(s.subrange(p + 1int, p + 1 + x.len() as int) =~= x) by {
        assert forall|k: int| 0 <= k < x.len() implies s.subrange(
            p + 1int,
            p + 1 + x.len() as int,
        )[k] == x[k] by {
            assert(s[p + (k + 1)] == w[k + 1]);
        }
    }
}

proof fn lemma_scan_spaced(s: Seq<char>, i: nat, v: JsonData, gap: spec_fn(int) -> Seq<char>, n: int)
    requires
        writable(v),
        all_gaps_space(gap),
        holds_at(s, i, spaced_text(v, gap, n)),
        ends_value(s, i + spaced_text(v, gap, n).len()),
    ensures
        scan_from(s, i) == prefixed(tokens_of(v), scan_from(s, i + spaced_text(v, gap, n).len())),
    decreases v,
{
    let w = spaced_text(v, gap, n);
    let end = i + w.len();
    match v {
        JsonData::Object(e) => {
            let g = gap(n);
            let g2 = gap(n + 1 + members_tokens(e).len());
            let m = spaced_members(e, gap, n + 1);
            lemma_holds_concat(s, i, seq!['{'] + g + m + seq!['}'], g2);
            lemma_holds_concat(s, i, seq!['{'] + g + m, seq!['}']);
            lemma_holds_concat(s, i, seq!['{'] + g, m);
            lemma_holds_concat(s, i, seq!['{'], g);
            assert(s[i + 0int] == seq!['{'][0]);
            let p2 = i + 1 + g.len();
            let close = p2 + m.len();
            assert(s[close + 0int] == seq!['}'][0]);
            lemma_punct(s, i, '{', g);
            lemma_punct(s, close, '}', g2);
            if e.len() == 0 {
                assert(m.len() == 0);
                assert(tokens_of(v) =~= seq![Tok::LeftBrace] + seq![Tok::RightBrace]);
                lemma_prefixed_twice(seq![Tok::LeftBrace], seq![Tok::RightBrace], scan_from(s, end));
            } else {
                crate::roundtrip::lemma_writable_entries(v, e);
                lemma_scan_spaced_members(s, p2, e, gap, n + 1);
                lemma_prefixed_three(
                    seq![Tok::LeftBrace],
                    members_tokens(e),
                    seq![Tok::RightBrace],
                    scan_from(s, end),
                );
            }
        },
        JsonData::Array(a) => {
            let g = gap(n);
            let g2 = gap(n + 1 + items_tokens(a).len());
            let m = spaced_items(a, gap, n + 1);
            lemma_holds_concat(s, i, seq!['['] + g + m + seq![']'], g2);
            lemma_holds_concat(s, i, seq!['['] + g + m, seq![']']);
            lemma_holds_concat(s, i, seq!['['] + g, m);
            lemma_holds_concat(s, i, seq!['['], g);
            assert(s[i + 0int] == seq!['['][0]);
            let p2 = i + 1 + g.len();
            let close = p2 + m.len();
            assert(s[close + 0int] == seq![']'][0]);
            lemma_punct(s, i, '[', g);
            lemma_punct(s, close, ']', g2);
            if a.len() == 0 {
                assert(m.len() == 0);
                assert(tokens_of(v) =~= seq![Tok::LeftBracket] + seq![Tok::RightBracket]);
                lemma_prefixed_twice(
                    seq![Tok::LeftBracket],
                    seq![Tok::RightBracket],
                    scan_from(s, end),
                );
            } else {
                lemma_scan_spaced_items(s, p2, a, gap, n + 1);
                lemma_prefixed_three(
                    seq![Tok::LeftBracket],
                    items_tokens(a),
                    seq![Tok::RightBracket],
                    scan_from(s, end),
                );
            }
        },
        _ => {
            let g = gap(n);
            let core = json_text(v);
            lemma_holds_concat(s, i, core, g);
            let cend = i + core.len();
            assert(ends_value(s, cend)) by {
                if g.len() > 0 {
                    assert(s[cend + 0int] == g[0]);
                }
            }
            lemma_scan_value(s, i, v);
            lemma_gap(s, cend, g);
        },
    }
}

proof fn lemma_scan_spaced_members(
    s: Seq<char>,
    j: nat,
    e: Seq<(Seq<char>, JsonData)>,
    gap: spec_fn(int) -> Seq<char>,
    n: int,
)
    requires
        e.len() > 0,
        all_gaps_space(gap),
        forall|k: int| 0 <= k < e.len() ==> unquoted(#[trigger] e[k].0) && writable(e[k].1),
        holds_at(s, j, spaced_members(e, gap, n)),
        j + spaced_members(e, gap, n).len() < s.len(),
        s[j as int + spaced_members(e, gap, n).len()] == '}',
    ensures
        scan_from(s, j) == prefixed(
            members_tokens(e),
            scan_from(s, j + spaced_members(e, gap, n).len()),
        ),
    decreases e,
{
    let key = e[0].0;
    let x = e[0].1;
    assert(unquoted(key) && writable(x));
    let g0 = gap(n);
    let g1 = gap(n + 1);
    let kq = seq!['"'] + key + seq!['"'];
    let vt = spaced_text(x, gap, n + 2);
    let first = kq + g0 + seq![':'] + g1 + vt;
    let m = spaced_members(e, gap, n);
    let after = j + m.len();
    let c = n + 2 + tokens_of(x).len();
    let gc = gap(c);
    if e.len() > 1 {
        lemma_holds_concat(s, j, first + seq![','] + gc, spaced_members(e.skip(1), gap, c + 1));
        lemma_holds_concat(s, j, first + seq![','], gc);
        lemma_holds_concat(s, j, first, seq![',']);
    }
    lemma_holds_concat(s, j, kq + g0 + seq![':'] + g1, vt);
    lemma_holds_concat(s, j, kq + g0 + seq![':'], g1);
    lemma_holds_concat(s, j, kq + g0, seq![':']);
    lemma_holds_concat(s, j, kq, g0);
    let colon = j + kq.len() + g0.len();
    let vpos = colon + 1 + g1.len();
    let vend = vpos + vt.len();
    assert(s[colon + 0int] == seq![':'][0]);
    lemma_scan_string(s, j, key);
    lemma_gap(s, j + kq.len(), g0);
    lemma_punct(s, colon, ':', g1);
    assert(ends_value(s, vend)) by {
        if e.len() == 1 {
            assert(vend == after);
        } else {
            assert(s[vend + 0int] == seq![','][0]);
        }
    }
    lemma_scan_spaced(s, vpos, x, gap, n + 2);
    let ktok = seq![Tok::Str(key)];
    let xt = tokens_of(x);
    if e.len() == 1 {
        lemma_prefixed_three(ktok, seq![Tok::Colon], xt, scan_from(s, vend));
        assert(members_tokens(e) == seq![Tok::Str(key), Tok::Colon] + xt);
        assert(ktok + seq![Tok::Colon] + xt =~= seq![Tok::Str(key), Tok::Colon] + xt);
    } else {
        let tail = e.skip(1);
        assert(s[vend + 0int] == seq![','][0]);
        lemma_punct(s, vend, ',', gc);
        assert forall|k: int| 0 <= k < tail.len() implies unquoted(#[trigger] tail[k].0)
            && writable(tail[k].1) by {
            assert(tail[k] == e[k + 1]);
        }
        let tpos = vend + 1 + gc.len();
        assert(tpos + spaced_members(tail, gap, c + 1).len() == after);
        lemma_scan_spaced_members(s, tpos, tail, gap, c + 1);
        let rest = scan_from(s, after);
        lemma_prefixed_twice(seq![Tok::Comma], members_tokens(tail), rest);
        lemma_prefixed_three(ktok, seq![Tok::Colon], xt, prefixed(
            seq![Tok::Comma] + members_tokens(tail),
            rest,
        ));
        lemma_prefixed_twice(ktok + seq![Tok::Colon] + xt, seq![Tok::Comma] + members_tokens(tail), rest);
        assert(ktok + seq![Tok::Colon] + xt + (seq![Tok::Comma] + members_tokens(tail))
            =~= members_tokens(e));
    }
}

proof fn lemma_scan_spaced_items(
    s: Seq<char>,
    j: nat,
    a: Seq<JsonData>,
    gap: spec_fn(int) -> Seq<char>,
    n: int,
)
    requires
        a.len() > 0,
        all_gaps_space(gap),
        forall|k: int| 0 <= k < a.len() ==> writable(#[trigger] a[k]),
        holds_at(s, j, spaced_items(a, gap, n)),
        j + spaced_items(a, gap, n).len() < s.len(),
        s[j as int + spaced_items(a, gap, n).len()] == ']',
    ensures
        scan_from(s, j) == prefixed(items_tokens(a), scan_from(s, j + spaced_items(a, gap, n).len())),
    decreases a,
{
    let x = a[0];
    assert(writable(x));
    let vt = spaced_text(x, gap, n);
    let m = spaced_items(a, gap, n);
    let after = j + m.len();
    let c = n + tokens_of(x).len();
    let gc = gap(c);
    if a.len() > 1 {
        lemma_holds_concat(s, j, vt + seq![','] + gc, spaced_items(a.skip(1), gap, c + 1));
        lemma_holds_concat(s, j, vt + seq![','], gc);
        lemma_holds_concat(s, j, vt, seq![',']);
    }
    let vend = j + vt.len();
    assert(ends_value(s, vend)) by {
        if a.len() == 1 {
            assert(vend == after);
        } else {
            assert(s[vend + 0int] == seq![','][0]);
        }
    }
    lemma_scan_spaced(s, j, x, gap, n);
    let xt = tokens_of(x);
    if a.len() > 1 {
        let tail = a.skip(1);
        assert(s[vend + 0int] == seq![','][0]);
        lemma_punct(s, vend, ',', gc);
        assert forall|k: int| 0 <= k < tail.len() implies writable(#[trigger] tail[k]) by {
            assert(tail[k] == a[k + 1]);
        }
        let tpos = vend + 1 + gc.len();
        assert(tpos + spaced_items(tail, gap, c + 1).len() == after);
        lemma_scan_spaced_items(s, tpos, tail, gap, c + 1);
        let rest = scan_from(s, after);
        lemma_prefixed_twice(seq![Tok::Comma], items_tokens(tail), rest);
        lemma_prefixed_twice(xt, seq![Tok::Comma] + items_tokens(tail), rest);
        assert(xt + (seq![Tok::Comma] + items_tokens(tail)) =~= items_tokens(a));
    }
}

/// White space changes nothing: with any white space before the text and any
/// white space after each of its tokens, the JSON text of a value parses back
/// to that value, as its compact text does.
pub proof fn lemma_white_space_insensitive(
    v: JsonData,
    before: Seq<char>,
    gap: spec_fn(int) -> Seq<char>,
)
    requires
        well_formed(v),
        writable(v),
        all_space(before),
        all_gaps_space(gap),
    ensures
        decode(before + spaced_text(v, gap, 0)) == Ok::<JsonData, JsonParseError>(v),
        decode(before + spaced_text(v, gap, 0)) == decode(json_text(v)),
{
    let w = spaced_text(v, gap, 0);
    let s = before + w;
    let i = before.len();
    let end = i + w.len();
    assert forall|k: int| 0 <= k < w.len() implies s[i + k] == #[trigger] w[k] by {}
    assert(ends_value(s, end));
    assert forall|k: int| 0 <= k < i implies json_space(#[trigger] s[k]) by {
        assert(s[k] == before[k]);
    }
    lemma_skip_space(s, 0, i);
    lemma_scan_spaced(s, i, v, gap, 0);
    let t = tokens_of(v);
    assert(t + Seq::empty() =~= t);
    assert(lex(s) == Ok::<Seq<Tok>, crate::scanner::ScannerError>(t));
    lemma_tokens_parse_back(t, 0, v);
    crate::roundtrip::lemma_text_round_trip(v);
}

} // verus!
