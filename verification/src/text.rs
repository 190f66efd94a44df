//! Executable text helpers: character vectors, trimming, searching, and
//! the decimal float literal check, each verified against the model.

use vstd::prelude::*;

use crate::model::{
    all_digits, find_char, find_exp, is_digit, is_exponent, is_float_literal, is_mantissa, is_ws,
    lemma_find_char, lemma_find_exp, lemma_trim_is, trim,
};

verus! {

/// Relies on `String::push`: appends the given character to the end.
pub assume_specification[ String::push ](s: &mut String, ch: char)
    ensures
        final(s)@ == old(s)@.push(ch),
;

/// The characters of `s` as a vector.
pub fn chars_of(s: &str) -> (r: Vec<char>)
    ensures
        r@ == s@,
{
    let n = s.unicode_len();
    let mut r: Vec<char> = Vec::new();
    let mut i: usize = 0;
    while i < n
        invariant
            i <= n,
            n == s@.len(),
            r@ == s@.take(i as int),
        decreases n - i,
    {
        let c = s.get_char(i);
        r.push(c);
        i = i + 1;
        proof {
            assert(r@ =~= s@.take(i as int));
        }
    }
    proof {
        assert(r@ =~= s@);
    }
    r
}

/// The characters of `v` gathered into a string.
pub fn string_of(v: &Vec<char>) -> (r: String)
    ensures
        r@ == v@,
{
    let mut r = String::new();
    let mut i: usize = 0;
    while i < v.len()
        invariant
            i <= v@.len(),
            r@ == v@.take(i as int),
        decreases v@.len() - i,
    {
        r.push(v[i]);
        i = i + 1;
        proof {
            assert(r@ =~= v@.take(i as int));
        }
    }
    proof {
        assert(r@ =~= v@);
    }
    r
}

/// The characters of `v[lo..hi]` as a fresh vector.
pub fn copy_range(v: &Vec<char>, lo: usize, hi: usize) -> (r: Vec<char>)
    requires
        lo <= hi <= v@.len(),
    ensures
        r@ == v@.subrange(lo as int, hi as int),
{
    let mut r: Vec<char> = Vec::new();
    let mut i: usize = lo;
    while i < hi
        invariant
            lo <= i <= hi <= v@.len(),
            r@ == v@.subrange(lo as int, i as int),
        decreases hi - i,
    {
        r.push(v[i]);
        i = i + 1;
        proof {
            assert(r@ =~= v@.subrange(lo as int, i as int));
        }
    }
    r
}

/// Whitespace test matching the model's [`is_ws`].
pub fn is_ws_char(c: char) -> (r: bool)
    ensures
        r == is_ws(c),
{
    c == ' ' || c == '\t' || c == '\n' || c == '\r'
}

/// Digit test matching the model's [`is_digit`].
pub fn is_digit_char(c: char) -> (r: bool)
    ensures
        r == is_digit(c),
{
    (c as u32) >= ('0' as u32) && (c as u32) <= ('9' as u32)
}

/// `v` without surrounding whitespace.
pub fn trim_vec(v: &Vec<char>) -> (r: Vec<char>)
    ensures
        r@ == trim(v@),
{
    let n = v.len();
    let mut lo: usize = 0;
    while lo < n && is_ws_char(v[lo])
        invariant
            lo <= n,
            n == v@.len(),
            forall|j: int| 0 <= j < lo ==> is_ws(#[trigger] v@[j]),
        decreases n - lo,
    {
        lo = lo + 1;
    }
    let mut hi: usize = n;
    while hi > lo && is_ws_char(v[hi - 1])
        invariant
            lo <= hi <= n,
            n == v@.len(),
            forall|j: int| hi <= j < n ==> is_ws(#[trigger] v@[j]),
        decreases hi,
    {
        hi = hi - 1;
    }
    let mut r: Vec<char> = Vec::new();
    let mut i: usize = lo;
    while i < hi
        invariant
            lo <= i <= hi <= n,
            n == v@.len(),
            r@ == v@.subrange(lo as int, i as int),
        decreases hi - i,
    {
        r.push(v[i]);
        i = i + 1;
        proof {
            assert(r@ =~= v@.subrange(lo as int, i as int));
        }
    }
    proof {
        lemma_trim_is(v@, lo as int, hi as int);
    }
    r
}

/// First occurrence of `c` in `v` at or after `lo` and before `hi`,
/// reported as an absolute index, matching [`find_char`] on the subrange.
pub fn find_char_range(v: &Vec<char>, lo: usize, hi: usize, c: char) -> (r: Option<usize>)
    requires
        lo <= hi <= v@.len(),
    ensures
        match find_char(v@.subrange(lo as int, hi as int), c) {
            None => r is None,
            Some(k) => r == Some((lo + k) as usize),
        },
{
    let ghost sub = v@.subrange(lo as int, hi as int);
    let mut i: usize = lo;
    while i < hi
        invariant
            lo <= i <= hi <= v@.len(),
            sub == v@.subrange(lo as int, hi as int),
            forall|j: int| lo <= j < i ==> (#[trigger] v@[j]) != c,
        decreases hi - i,
    {
        if v[i] == c {
            proof {
                lemma_find_char(sub, c);
                assert(sub[i - lo] == c);
                assert forall|j: int| 0 <= j < i - lo implies (#[trigger] sub[j]) != c by {
                    assert(sub[j] == v@[lo + j]);
                }
            }
            return Some(i);
        }
        i = i + 1;
    }
    proof {
        lemma_find_char(sub, c);
        assert forall|j: int| 0 <= j < sub.len() implies (#[trigger] sub[j]) != c by {
            assert(sub[j] == v@[lo + j]);
        }
    }
    None
}

/// Whether `v[lo..hi]` is all digits, matching [`all_digits`].
fn digits_range(v: &Vec<char>, lo: usize, hi: usize) -> (r: bool)
    requires
        lo <= hi <= v@.len(),
    ensures
        r == all_digits(v@.subrange(lo as int, hi as int)),
{
    let ghost sub = v@.subrange(lo as int, hi as int);
    let mut i: usize = lo;
    while i < hi
        invariant
            lo <= i <= hi <= v@.len(),
            sub == v@.subrange(lo as int, hi as int),
            forall|j: int| lo <= j < i ==> is_digit(#[trigger] v@[j]),
        decreases hi - i,
    {
        if !is_digit_char(v[i]) {
            proof {
                assert(sub[i - lo] == v@[i as int]);
            }
            return false;
        }
        i = i + 1;
    }
    proof {
        assert forall|j: int| 0 <= j < sub.len() implies is_digit(#[trigger] sub[j]) by {
            assert(sub[j] == v@[lo + j]);
        }
    }
    true
}

/// Case-insensitive letter test against a lower/upper pair.
fn eqci_char(c: char, lo: char, up: char) -> (r: bool)
    ensures
        r == crate::model::eqci(c, lo, up),
{
    c == lo || c == up
}

/// Whether `v[lo..hi]` is a mantissa: digits with at most one point and at
/// least one digit, matching [`is_mantissa`].
fn mantissa_range(v: &Vec<char>, lo: usize, hi: usize) -> (r: bool)
    requires
        lo <= hi <= v@.len(),
    ensures
        r == is_mantissa(v@.subrange(lo as int, hi as int)),
{
    let ghost m = v@.subrange(lo as int, hi as int);
    match find_char_range(v, lo, hi, '.') {
        None => {
            let r = hi > lo && digits_range(v, lo, hi);
            proof {
                assert(v@.subrange(lo as int, hi as int) == m);
            }
            r
        },
        Some(d) => {
            proof {
                lemma_find_char(m, '.');
                assert(v@.subrange(lo as int, d as int) =~= m.take(d as int - lo));
                assert(v@.subrange(d as int + 1, hi as int) =~= m.skip(d as int - lo + 1));
            }
            let da = digits_range(v, lo, d);
            let db = digits_range(v, d + 1, hi);
            da && db && (d > lo || d + 1 < hi)
        },
    }
}

/// Whether `v[lo..hi]` is an exponent part: optional sign then at least
/// one digit, matching [`is_exponent`].
fn exponent_range(v: &Vec<char>, lo: usize, hi: usize) -> (r: bool)
    requires
        lo <= hi <= v@.len(),
    ensures
        r == is_exponent(v@.subrange(lo as int, hi as int)),
{
    let ghost e = v@.subrange(lo as int, hi as int);
    let slo: usize = if lo < hi && (v[lo] == '+' || v[lo] == '-') {
        lo + 1
    } else {
        lo
    };
    proof {
        assert(v@.subrange(slo as int, hi as int) =~= crate::model::strip_sign(e));
    }
    slo < hi && digits_range(v, slo, hi)
}

/// Whether the whole of `v` is a decimal float literal, matching
/// [`is_float_literal`].
pub fn is_float_vec(v: &Vec<char>) -> (r: bool)
    ensures
        r == is_float_literal(v@),
{
    let n = v.len();
    let slo: usize = if n > 0 && (v[0] == '+' || v[0] == '-') {
        1
    } else {
        0
    };
    let ghost b = crate::model::strip_sign(v@);
    proof {
        assert(v@.subrange(slo as int, n as int) =~= b);
    }
    // Special words: inf, infinity, nan, case-insensitive.
    if n - slo == 3 && eqci_char(v[slo], 'i', 'I') && eqci_char(v[slo + 1], 'n', 'N')
        && eqci_char(v[slo + 2], 'f', 'F') {
        proof {
            assert(b[0] == v@[slo as int]);
            assert(b[1] == v@[slo + 1 as int]);
            assert(b[2] == v@[slo + 2 as int]);
        }
        return true;
    }
    if n - slo == 8 && eqci_char(v[slo], 'i', 'I') && eqci_char(v[slo + 1], 'n', 'N')
        && eqci_char(v[slo + 2], 'f', 'F') && eqci_char(v[slo + 3], 'i', 'I')
        && eqci_char(v[slo + 4], 'n', 'N') && eqci_char(v[slo + 5], 'i', 'I')
        && eqci_char(v[slo + 6], 't', 'T') && eqci_char(v[slo + 7], 'y', 'Y') {
        proof {
            assert forall|k: int| 0 <= k < 8 implies (#[trigger] b[k]) == v@[slo + k] by {}
        }
        return true;
    }
    if n - slo == 3 && eqci_char(v[slo], 'n', 'N') && eqci_char(v[slo + 1], 'a', 'A')
        && eqci_char(v[slo + 2], 'n', 'N') {
        proof {
            assert(b[0] == v@[slo as int]);
            assert(b[1] == v@[slo + 1 as int]);
            assert(b[2] == v@[slo + 2 as int]);
        }
        return true;
    }
    let ghost not_special = !crate::model::is_inf_word(b) && !crate::model::is_infinity_word(b)
        && !crate::model::is_nan_word(b);
    proof {
        assert forall|k: int| 0 <= k < b.len() implies (#[trigger] b[k]) == v@[slo + k] by {}
    }
    // Find the exponent marker in the unsigned body.
    let mut j: usize = slo;
    while j < n && !(v[j] == 'e' || v[j] == 'E')
        invariant
            slo <= j <= n,
            n == v@.len(),
            forall|k: int| slo <= k < j ==> (#[trigger] v@[k]) != 'e' && v@[k] != 'E',
        decreases n - j,
    {
        j = j + 1;
    }
    proof {
        lemma_find_exp(b);
    }
    if j == n {
        proof {
            assert forall|k: int| 0 <= k < b.len() implies (#[trigger] b[k]) != 'e' && b[k]
                != 'E' by {
                assert(b[k] == v@[slo + k]);
            }
            assert(find_exp(b) is None);
        }
        mantissa_range(v, slo, n)
    } else {
        let je = j;
        proof {
            assert(b[je as int - slo] == v@[je as int]);
            assert forall|k: int| 0 <= k < je as int - slo implies (#[trigger] b[k]) != 'e' && b[k]
                != 'E' by {
                assert(b[k] == v@[slo + k]);
            }
            assert(find_exp(b) == Some(je as int - slo));
            assert(v@.subrange(slo as int, je as int) =~= b.take(je as int - slo));
            assert(v@.subrange(je as int + 1, n as int) =~= b.skip(je as int - slo + 1));
        }
        let ma = mantissa_range(v, slo, je);
        let ex = exponent_range(v, je + 1, n);
        ma && ex
    }
}

} // verus!
