//! Recognition of the decimal texts that the standard library reads as a
//! binary64 value (`f64::from_str`), following the grammar its
//! documentation gives:
//!
//! ```text
//! Float  ::= Sign? ( 'inf' | 'infinity' | 'nan' | Number )
//! Number ::= ( Digit+ | Digit+ '.' Digit* | Digit* '.' Digit+ ) Exp?
//! Exp    ::= 'e' Sign? Digit+
//! Sign   ::= [+-]
//! Digit  ::= [0-9]
//! ```
//! where letters match regardless of ASCII case.
use vstd::prelude::*;
use crate::text::{ascii_lower_code, eq_ignore_ascii_case, chars_of, lower_code};

verus! {

pub open spec fn is_digit(c: char) -> bool {
    48 <= (c as u32) <= 57
}

pub open spec fn is_sign(c: char) -> bool {
    c == '+' || c == '-'
}

pub open spec fn is_exp_mark(c: char) -> bool {
    c == 'e' || c == 'E'
}

pub open spec fn all_digits(s: Seq<char>) -> bool {
    forall|i: int| 0 <= i < s.len() ==> is_digit(#[trigger] s[i])
}

/// `Digit+ | Digit+ '.' Digit* | Digit* '.' Digit+`
pub open spec fn valid_mantissa(m: Seq<char>) -> bool {
    ||| (m.len() > 0 && all_digits(m))
    ||| (exists|p: int|
        0 <= p < m.len() && #[trigger] m[p] == '.' && m.len() >= 2 && all_digits(m.subrange(0, p))
            && all_digits(m.subrange(p + 1, m.len() as int)))
}

/// `Sign? Digit+`
pub open spec fn valid_exponent(x: Seq<char>) -> bool {
    let d = if x.len() > 0 && is_sign(x[0]) {
        x.drop_first()
    } else {
        x
    };
    d.len() > 0 && all_digits(d)
}

/// `Number` of the grammar.
pub open spec fn valid_number(t: Seq<char>) -> bool {
    ||| ((forall|i: int| 0 <= i < t.len() ==> !is_exp_mark(#[trigger] t[i])) && valid_mantissa(t))
    ||| (exists|p: int|
        0 <= p < t.len() && is_exp_mark(#[trigger] t[p]) && valid_mantissa(t.subrange(0, p))
            && valid_exponent(t.subrange(p + 1, t.len() as int)))
}

/// The text after an optional leading sign.
pub open spec fn unsigned_part(s: Seq<char>) -> Seq<char> {
    if s.len() > 0 && is_sign(s[0]) {
        s.drop_first()
    } else {
        s
    }
}

/// The text is read as a binary64 value by the standard library.
pub open spec fn float_literal(s: Seq<char>) -> bool {
    let t = unsigned_part(s);
    ||| eq_ignore_ascii_case(t, seq!['i', 'n', 'f'])
    ||| eq_ignore_ascii_case(t, seq!['i', 'n', 'f', 'i', 'n', 'i', 't', 'y'])
    ||| eq_ignore_ascii_case(t, seq!['n', 'a', 'n'])
    ||| valid_number(t)
}

/// `v[lo..]` equals `word` up to ASCII case (`word` is lower-case ASCII).
fn tail_is_word(v: &Vec<char>, lo: usize, word: &Vec<char>) -> (r: bool)
    requires
        lo <= v@.len(),
        forall|i: int| 0 <= i < word@.len() ==> ascii_lower_code(#[trigger] word@[i]) == word@[i] as u32,
    ensures
        r == eq_ignore_ascii_case(v@.subrange(lo as int, v@.len() as int), word@),
{
    let ghost t = v@.subrange(lo as int, v@.len() as int);
    if v.len() - lo != word.len() {
        return false;
    }
    let n = v.len();
    let mut i: usize = 0;
    while i < word.len()
        invariant
            n == v@.len(),
            lo <= v@.len(),
            v@.len() - lo == word@.len(),
            t == v@.subrange(lo as int, v@.len() as int),
            i <= word@.len(),
            forall|j: int| 0 <= j < word@.len() ==> ascii_lower_code(#[trigger] word@[j]) == word@[j] as u32,
            forall|j: int| 0 <= j < i ==> #[trigger] ascii_lower_code(t[j]) == ascii_lower_code(word@[j]),
        decreases word@.len() - i,
    {
        assert(lo + i < v@.len());
        if lower_code(v[lo + i]) != (word[i] as u32) {
            assert(t[i as int] == v@[lo + i]);
            return false;
        }
        assert(t[i as int] == v@[lo + i]);
        i = i + 1;
    }
    true
}

/// `v[lo..hi]` is all digits.
fn digits_between(v: &Vec<char>, lo: usize, hi: usize) -> (r: bool)
    requires
        lo <= hi <= v@.len(),
    ensures
        r == all_digits(v@.subrange(lo as int, hi as int)),
{
    let mut i = lo;
    while i < hi
        invariant
            lo <= i <= hi <= v@.len(),
            forall|j: int| lo <= j < i ==> is_digit(#[trigger] v@[j]),
        decreases hi - i,
    {
        let u = v[i] as u32;
        if !(48 <= u && u <= 57) {
            assert(v@.subrange(lo as int, hi as int)[i - lo] == v@[i as int]);
            return false;
        }
        i = i + 1;
    }
    assert forall|j: int| 0 <= j < hi - lo implies is_digit(
        #[trigger] v@.subrange(lo as int, hi as int)[j],
    ) by {
        assert(v@.subrange(lo as int, hi as int)[j] == v@[lo + j]);
    }
    true
}

/// The first position in `v[lo..hi]` holding `c`, or `hi`.
fn find_char(v: &Vec<char>, lo: usize, hi: usize, c: char, c2: char) -> (r: usize)
    requires
        lo <= hi <= v@.len(),
    ensures
        lo <= r <= hi,
        forall|j: int| lo <= j < r ==> #[trigger] v@[j] != c && v@[j] != c2,
        r < hi ==> (v@[r as int] == c || v@[r as int] == c2),
{
    let mut i = lo;
    while i < hi
        invariant
            lo <= i <= hi <= v@.len(),
            forall|j: int| lo <= j < i ==> #[trigger] v@[j] != c && v@[j] != c2,
        decreases hi - i,
    {
        if v[i] == c || v[i] == c2 {
            return i;
        }
        i = i + 1;
    }
    hi
}

/// `v[lo..hi]` is a valid mantissa.
fn mantissa_between(v: &Vec<char>, lo: usize, hi: usize) -> (r: bool)
    requires
        lo <= hi <= v@.len(),
    ensures
        r == valid_mantissa(v@.subrange(lo as int, hi as int)),
{
    let ghost m = v@.subrange(lo as int, hi as int);
    let p = find_char(v, lo, hi, '.', '.');
    if p == hi {
        let r = hi > lo && digits_between(v, lo, hi);
        proof {
            if !r && valid_mantissa(m) {
                let q = choose|q: int|
                    0 <= q < m.len() && #[trigger] m[q] == '.' && m.len() >= 2 && all_digits(
                        m.subrange(0, q),
                    ) && all_digits(m.subrange(q + 1, m.len() as int));
                assert(m[q] == v@[lo + q]);
            }
        }
        r
    } else {
        let a = digits_between(v, lo, p);
        let b = digits_between(v, p + 1, hi);
        let r = hi - lo >= 2 && a && b;
        proof {
            let pp = p - lo;
            assert(m[pp] == v@[p as int]);
            assert(m.subrange(0, pp) =~= v@.subrange(lo as int, p as int));
            assert(m.subrange(pp + 1, m.len() as int) =~= v@.subrange(p + 1, hi as int));
            if r {
                assert(0 <= pp < m.len() && m[pp] == '.');
            }
            if valid_mantissa(m) && !r {
                if m.len() > 0 && all_digits(m) {
                    assert(is_digit(m[pp]));
                } else {
                    let q = choose|q: int|
                        0 <= q < m.len() && #[trigger] m[q] == '.' && m.len() >= 2 && all_digits(
                            m.subrange(0, q),
                        ) && all_digits(m.subrange(q + 1, m.len() as int));
                    assert(m[q] == v@[lo + q]);
                    if q < pp {
                    } else if q > pp {
                        assert(m.subrange(0, q)[pp] == m[pp]);
                        assert(is_digit(m.subrange(0, q)[pp]));
                    }
                }
            }
        }
        r
    }
}

/// `v[lo..]` is a valid exponent.
fn exponent_from(v: &Vec<char>, lo: usize) -> (r: bool)
    requires
        lo <= v@.len(),
    ensures
        r == valid_exponent(v@.subrange(lo as int, v@.len() as int)),
{
    let ghost x = v@.subrange(lo as int, v@.len() as int);
    let n = v.len();
    if lo < n && (v[lo] == '+' || v[lo] == '-') {
        assert(x[0] == v@[lo as int]);
        assert(x.drop_first() =~= v@.subrange(lo + 1, n as int));
        n > lo + 1 && digits_between(v, lo + 1, n)
    } else {
        proof {
            if lo < n {
                assert(x[0] == v@[lo as int]);
            }
        }
        n > lo && digits_between(v, lo, n)
    }
}

/// Whether the standard library reads `s` as a binary64 value.
pub fn is_float_literal(s: &str) -> (r: bool)
    ensures
        r == float_literal(s@),
{
    let v = chars_of(s);
    let n = v.len();
    let start: usize = if n > 0 && (v[0] == '+' || v[0] == '-') {
        1
    } else {
        0
    };
    let ghost t = unsigned_part(s@);
    assert(t =~= v@.subrange(start as int, n as int));
    let inf_word = vec!['i', 'n', 'f'];
    let infinity_word = vec!['i', 'n', 'f', 'i', 'n', 'i', 't', 'y'];
    let nan_word = vec!['n', 'a', 'n'];
    assert(inf_word@ =~= seq!['i', 'n', 'f']);
    assert(infinity_word@ =~= seq!['i', 'n', 'f', 'i', 'n', 'i', 't', 'y']);
    assert(nan_word@ =~= seq!['n', 'a', 'n']);
    if tail_is_word(&v, start, &inf_word) || tail_is_word(&v, start, &infinity_word) || tail_is_word(
        &v,
        start,
        &nan_word,
    ) {
        return true;
    }
    let e = find_char(&v, start, n, 'e', 'E');
    let r = if e == n {
        mantissa_between(&v, start, n)
    } else {
        mantissa_between(&v, start, e) && exponent_from(&v, e + 1)
    };
    proof {
        let pe = e - start;
        assert forall|i: int| 0 <= i < pe implies !is_exp_mark(#[trigger] t[i]) by {
            assert(t[i] == v@[start + i]);
        }
        if e == n {
            assert(!valid_number(t) || r) by {
                if valid_number(t) && !(forall|i: int| 0 <= i < t.len() ==> !is_exp_mark(#[trigger] t[i])) {
                }
                if valid_number(t) && (forall|i: int| 0 <= i < t.len() ==> !is_exp_mark(#[trigger] t[i])) {
                }
            }
        } else {
            assert(t[pe] == v@[e as int]);
            assert(t.subrange(0, pe) =~= v@.subrange(start as int, e as int));
            assert(t.subrange(pe + 1, t.len() as int) =~= v@.subrange(e + 1, n as int));
            if valid_number(t) && !r {
                if forall|i: int| 0 <= i < t.len() ==> !is_exp_mark(#[trigger] t[i]) {
                    assert(!is_exp_mark(t[pe]));
                } else {
                    let q = choose|q: int|
                        0 <= q < t.len() && is_exp_mark(#[trigger] t[q]) && valid_mantissa(
                            t.subrange(0, q),
                        ) && valid_exponent(t.subrange(q + 1, t.len() as int));
                    if q > pe {
                        let m = t.subrange(0, q);
                        assert(m[pe] == t[pe]);
                        if m.len() > 0 && all_digits(m) {
                            assert(is_digit(m[pe]));
                        } else {
                            let d = choose|d: int|
                                0 <= d < m.len() && #[trigger] m[d] == '.' && m.len() >= 2
                                    && all_digits(m.subrange(0, d)) && all_digits(
                                    m.subrange(d + 1, m.len() as int),
                                );
                            if pe < d {
                                assert(m.subrange(0, d)[pe] == m[pe]);
                                assert(is_digit(m.subrange(0, d)[pe]));
                            } else if pe > d {
                                assert(m.subrange(d + 1, m.len() as int)[pe - d - 1] == m[pe]);
                                assert(is_digit(m.subrange(d + 1, m.len() as int)[pe - d - 1]));
                            }
                        }
                    } else if q < pe {
                        assert(t[q] == v@[start + q]);
                    }
                }
            }
        }
    }
    r
}

} // verus!
