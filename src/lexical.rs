use vstd::prelude::*;

verus! {

/// Whether `c` has the Unicode White_Space property.
pub uninterp spec fn unicode_white_space(c: char) -> bool;

/// Whether `c` has the Unicode Alphabetic property.
pub uninterp spec fn unicode_alphabetic(c: char) -> bool;

pub open spec fn is_ascii_char(c: char) -> bool {
    (c as u32) < 128
}

/// White space: among ASCII characters, tab, line feed, vertical tab, form feed,
/// carriage return and space.
pub open spec fn white_space(c: char) -> bool {
    if is_ascii_char(c) {
        c == ' ' || ('\t' <= c && c <= '\r')
    } else {
        unicode_white_space(c)
    }
}

/// Alphabetic characters: among ASCII characters, the Latin letters.
pub open spec fn alphabetic(c: char) -> bool {
    if is_ascii_char(c) {
        ('a' <= c && c <= 'z') || ('A' <= c && c <= 'Z')
    } else {
        unicode_alphabetic(c)
    }
}

/// Relies on `char::is_whitespace`: it tests the Unicode White_Space property,
/// which among ASCII characters holds of tab, line feed, vertical tab, form feed,
/// carriage return and space alone.
#[verifier::external_body]
pub(crate) fn is_white_space(c: char) -> (r: bool)
    ensures
        r == unicode_white_space(c),
        r == white_space(c),
{
    c.is_whitespace()
}

/// Relies on `char::is_alphabetic`: it tests the Unicode Alphabetic property,
/// which among ASCII characters holds of the Latin letters alone.
#[verifier::external_body]
pub(crate) fn is_alphabetic(c: char) -> (r: bool)
    ensures
        r == unicode_alphabetic(c),
        r == alphabetic(c),
{
    c.is_alphabetic()
}

pub open spec fn is_digit(c: char) -> bool {
    '0' <= c && c <= '9'
}

/// Characters that a number literal may be made of.
pub open spec fn number_char(c: char) -> bool {
    is_digit(c) || c == '.' || c == 'e' || c == 'E' || c == '-' || c == '+'
}

pub open spec fn all_digits(s: Seq<char>) -> bool {
    forall|i: int| 0 <= i < s.len() ==> is_digit(#[trigger] s[i])
}

/// Digits with at most one decimal point, and at least one digit.
pub open spec fn decimal(m: Seq<char>) -> bool {
    (m.len() > 0 && all_digits(m)) || (m.len() >= 2 && exists|k: int|
        0 <= k < m.len() && #[trigger] m[k] == '.' && all_digits(m.take(k)) && all_digits(
            m.skip(k + 1),
        ))
}

/// An exponent's digits, with an optional sign.
pub open spec fn exponent(x: Seq<char>) -> bool {
    (x.len() > 0 && all_digits(x)) || (x.len() >= 2 && (x[0] == '+' || x[0] == '-')
        && all_digits(x.skip(1)))
}

pub open spec fn unsigned_float(u: Seq<char>) -> bool {
    decimal(u) || exists|k: int|
        0 <= k < u.len() && (#[trigger] u[k] == 'e' || u[k] == 'E') && decimal(u.take(k))
            && exponent(u.skip(k + 1))
}

/// The text of a finite decimal floating-point literal, with an optional sign:
/// the texts that parse as a 64-bit float, among those made of number characters.
pub open spec fn float_literal(s: Seq<char>) -> bool {
    unsigned_float(s) || (s.len() > 0 && (s[0] == '+' || s[0] == '-') && unsigned_float(
        s.skip(1),
    ))
}

proof fn lemma_decimal_chars(m: Seq<char>)
    requires
        decimal(m),
    ensures
        forall|i: int| 0 <= i < m.len() ==> is_digit(#[trigger] m[i]) || m[i] == '.',
{
    if !(m.len() > 0 && all_digits(m)) {
        let k = choose|k: int|
            0 <= k < m.len() && #[trigger] m[k] == '.' && all_digits(m.take(k)) && all_digits(
                m.skip(k + 1),
            );
        assert forall|i: int| 0 <= i < m.len() implies is_digit(#[trigger] m[i]) || m[i] == '.' by {
            if i < k {
                assert(m.take(k)[i] == m[i]);
            } else if i > k {
                assert(m.skip(k + 1)[i - k - 1] == m[i]);
            }
        }
    }
}

/// End of the run of digits of `s` that starts at `i` and stops at `hi` at the latest.
fn digits_end(s: &str, i: usize, hi: usize) -> (e: usize)
    requires
        i <= hi <= s@.len(),
    ensures
        i <= e <= hi,
        forall|j: int| i <= j < e ==> is_digit(#[trigger] s@[j]),
        e < hi ==> !is_digit(s@[e as int]),
{
    let mut e: usize = i;
    while e < hi
        invariant
            i <= e <= hi <= s@.len(),
            forall|j: int| i <= j < e ==> is_digit(#[trigger] s@[j]),
        decreases hi - e,
    {
        let c = s.get_char(e);
        if !('0' <= c && c <= '9') {
            return e;
        }
        e = e + 1;
    }
    e
}

fn is_decimal(s: &str, lo: usize, hi: usize) -> (r: bool)
    requires
        lo <= hi <= s@.len(),
    ensures
        r == decimal(s@.subrange(lo as int, hi as int)),
{
    let ghost m = s@.subrange(lo as int, hi as int);
    let e1 = digits_end(s, lo, hi);
    if e1 == hi {
        assert(all_digits(m)) by {
            assert forall|i: int| 0 <= i < m.len() implies is_digit(#[trigger] m[i]) by {
                assert(m[i] == s@[lo + i]);
            }
        }
        return hi > lo;
    }
    let ghost k1 = e1 - lo;
    assert(m[k1] == s@[e1 as int]);
    if s.get_char(e1) != '.' {
        proof {
            assert(!all_digits(m));
            if decimal(m) {
                lemma_decimal_chars(m);
            }
        }
        return false;
    }
    let e2 = digits_end(s, e1 + 1, hi);
    proof {
        assert forall|i: int| 0 <= i < k1 implies is_digit(#[trigger] m.take(k1)[i]) by {
            assert(m.take(k1)[i] == s@[lo + i]);
        }
        assert(!all_digits(m));
    }
    if e2 == hi {
        proof {
            assert forall|i: int| 0 <= i < m.skip(k1 + 1).len() implies is_digit(
                #[trigger] m.skip(k1 + 1)[i],
            ) by {
                assert(m.skip(k1 + 1)[i] == s@[e1 + 1 + i]);
            }
        }
        return hi - lo >= 2;
    }
    proof {
        let k2 = e2 - lo;
        assert(m[k2] == s@[e2 as int]);
        if decimal(m) {
            let k = choose|k: int|
                0 <= k < m.len() && #[trigger] m[k] == '.' && all_digits(m.take(k)) && all_digits(
                    m.skip(k + 1),
                );
            if k < k1 {
                assert(m[k] == s@[lo + k]);
            } else if k > k1 {
                assert(m.take(k)[k1] == m[k1]);
            } else {
                assert(m.skip(k + 1)[k2 - k - 1] == m[k2]);
                lemma_decimal_chars(m);
            }
        }
    }
    false
}

fn is_exponent(s: &str, lo: usize, hi: usize) -> (r: bool)
    requires
        lo <= hi <= s@.len(),
    ensures
        r == exponent(s@.subrange(lo as int, hi as int)),
{
    let ghost x = s@.subrange(lo as int, hi as int);
    if lo == hi {
        return false;
    }
    let c = s.get_char(lo);
    assert(x[0] == c);
    let from: usize = if c == '+' || c == '-' { lo + 1 } else { lo };
    let e = digits_end(s, from, hi);
    proof {
        if e < hi {
            assert(x[e - lo] == s@[e as int]);
            if from > lo {
                assert(x.skip(1)[e - lo - 1] == s@[e as int]);
            }
        } else {
            if from == lo {
                assert forall|i: int| 0 <= i < x.len() implies is_digit(#[trigger] x[i]) by {
                    assert(x[i] == s@[lo + i]);
                }
            } else {
                assert forall|i: int| 0 <= i < x.skip(1).len() implies is_digit(
                    #[trigger] x.skip(1)[i],
                ) by {
                    assert(x.skip(1)[i] == s@[lo + 1 + i]);
                }
                assert(!is_digit(x[0]));
            }
        }
    }
    e == hi && hi > from
}

fn is_unsigned_float(s: &str, lo: usize, hi: usize) -> (r: bool)
    requires
        lo <= hi <= s@.len(),
    ensures
        r == unsigned_float(s@.subrange(lo as int, hi as int)),
{
    let ghost u = s@.subrange(lo as int, hi as int);
    let mut k: usize = lo;
    while k < hi
        invariant
            lo <= k <= hi <= s@.len(),
            u == s@.subrange(lo as int, hi as int),
            forall|j: int| lo <= j < k ==> s@[j] != 'e' && s@[j] != 'E',
        ensures
            lo <= k <= hi,
            forall|j: int| lo <= j < k ==> s@[j] != 'e' && s@[j] != 'E',
            k < hi ==> s@[k as int] == 'e' || s@[k as int] == 'E',
        decreases hi - k,
    {
        let c = s.get_char(k);
        if c == 'e' || c == 'E' {
            break;
        }
        k = k + 1;
    }
    let ghost kk = k - lo;
    if k == hi {
        proof {
            assert forall|j: int| 0 <= j < u.len() implies u[j] != 'e' && #[trigger] u[j] != 'E' by {
                assert(u[j] == s@[lo + j]);
            }
        }
        return is_decimal(s, lo, hi);
    }
    assert(u[kk] == s@[k as int]);
    assert(u.take(kk) == s@.subrange(lo as int, k as int));
    assert(u.skip(kk + 1) == s@.subrange(k + 1, hi as int));
    let d = is_decimal(s, lo, k);
    let x = is_exponent(s, k + 1, hi);
    proof {
        if decimal(u) {
            lemma_decimal_chars(u);
        }
        if d && x {
            assert(0 <= kk < u.len() && (u[kk] == 'e' || u[kk] == 'E') && decimal(u.take(kk))
                && exponent(u.skip(kk + 1)));
        }
        if unsigned_float(u) && !decimal(u) {
            let j = choose|j: int|
                0 <= j < u.len() && (#[trigger] u[j] == 'e' || u[j] == 'E') && decimal(u.take(j))
                    && exponent(u.skip(j + 1));
            if j < kk {
                assert(u[j] == s@[lo + j]);
            } else if j > kk {
                lemma_decimal_chars(u.take(j));
                assert(u.take(j)[kk] == u[kk]);
            }
        }
    }
    d && x
}

/// Whether `s[lo..hi]` is the text of a 64-bit float literal.
pub(crate) fn is_float_literal(s: &str, lo: usize, hi: usize) -> (r: bool)
    requires
        lo <= hi <= s@.len(),
    ensures
        r == float_literal(s@.subrange(lo as int, hi as int)),
{
    let ghost t = s@.subrange(lo as int, hi as int);
    if lo < hi {
        let c = s.get_char(lo);
        assert(t[0] == c);
        if c == '+' || c == '-' {
            assert(t.skip(1) == s@.subrange(lo + 1, hi as int));
            proof {
                if unsigned_float(t) {
                    if decimal(t) {
                        lemma_decimal_chars(t);
                    } else {
                        let j = choose|j: int|
                            0 <= j < t.len() && (#[trigger] t[j] == 'e' || t[j] == 'E') && decimal(
                                t.take(j),
                            ) && exponent(t.skip(j + 1));
                        assert(t.take(j).len() == 0 || t.take(j)[0] == c);
                        if j > 0 {
                            lemma_decimal_chars(t.take(j));
                        }
                    }
                }
            }
            return is_unsigned_float(s, lo + 1, hi);
        }
    }
    is_unsigned_float(s, lo, hi)
}

} // verus!
