//! Recognizing the texts that denote a double-precision float.
//!
//! Acceptance is purely grammatical: an optional sign, then `inf`,
//! `infinity` or `nan` in any letter case, or a decimal number made of
//! digits with at most one dot and at least one digit, optionally followed
//! by an exponent marker `e` or `E`, an optional sign and one or more
//! digits.  Out-of-range numbers still match: they denote an infinity or
//! zero rather than failing.

use crate::num::all_digits;
use crate::num::digit_check;
use crate::num::is_digit;
use crate::text::find_char;
use crate::text::lemma_find_char_first;
use vstd::prelude::*;
use vstd::string::StrSliceExecFns;

verus! {

/// Whether `c` is a leading sign.
pub open spec fn is_sign(c: char) -> bool {
    c == '+' || c == '-'
}

/// `t` without its leading sign, if it has one.
pub open spec fn strip_sign(t: Seq<char>) -> Seq<char> {
    if t.len() > 0 && is_sign(t[0]) {
        t.subrange(1, t.len() as int)
    } else {
        t
    }
}

/// Whether `u` spells `inf` in any letter case.
pub open spec fn is_inf_text(u: Seq<char>) -> bool {
    u.len() == 3 && (u[0] == 'i' || u[0] == 'I') && (u[1] == 'n' || u[1] == 'N') && (u[2] == 'f'
        || u[2] == 'F')
}

/// Whether `u` spells `infinity` in any letter case.
pub open spec fn is_infinity_text(u: Seq<char>) -> bool {
    u.len() == 8 && (u[0] == 'i' || u[0] == 'I') && (u[1] == 'n' || u[1] == 'N') && (u[2] == 'f'
        || u[2] == 'F') && (u[3] == 'i' || u[3] == 'I') && (u[4] == 'n' || u[4] == 'N') && (u[5]
        == 'i' || u[5] == 'I') && (u[6] == 't' || u[6] == 'T') && (u[7] == 'y' || u[7] == 'Y')
}

/// Whether `u` spells `nan` in any letter case.
pub open spec fn is_nan_text(u: Seq<char>) -> bool {
    u.len() == 3 && (u[0] == 'n' || u[0] == 'N') && (u[1] == 'a' || u[1] == 'A') && (u[2] == 'n'
        || u[2] == 'N')
}

/// Whether `m` is a mantissa: only digits and dots, at most one dot, and at
/// least one digit.
pub open spec fn is_mantissa(m: Seq<char>) -> bool {
    (forall|i: int| 0 <= i < m.len() ==> is_digit(m[i]) || m[i] == '.') && (forall|i: int, j: int|
        0 <= i < j < m.len() ==> !(m[i] == '.' && m[j] == '.')) && (exists|i: int|
        0 <= i < m.len() && is_digit(m[i]))
}

/// Whether `x`, the part after the exponent marker, is an optional sign
/// followed by one or more digits.
pub open spec fn is_exp_digits(x: Seq<char>) -> bool {
    let y = strip_sign(x);
    y.len() > 0 && all_digits(y)
}

/// The index of the first exponent marker in `s`, or `-1` if there is none.
pub open spec fn find_e(s: Seq<char>) -> int
    decreases s.len(),
{
    if s.len() == 0 {
        -1
    } else if s[0] == 'e' || s[0] == 'E' {
        0
    } else {
        let r = find_e(s.subrange(1, s.len() as int));
        if r < 0 {
            -1
        } else {
            r + 1
        }
    }
}

/// Knowing where the first exponent marker sits (or that there is none)
/// fixes the result of `find_e`.
proof fn lemma_find_e_first(s: Seq<char>, i: int)
    requires
        0 <= i <= s.len(),
        forall|j: int| 0 <= j < i ==> s[j] != 'e' && s[j] != 'E',
        i < s.len() ==> (s[i] == 'e' || s[i] == 'E'),
    ensures
        i < s.len() ==> find_e(s) == i,
        i == s.len() ==> find_e(s) == -1,
    decreases s.len(),
{
    if s.len() == 0 {
    } else if s[0] == 'e' || s[0] == 'E' {
        assert(i == 0);
    } else {
        let t = s.subrange(1, s.len() as int);
        assert(forall|j: int| 0 <= j < t.len() ==> t[j] == s[j + 1]);
        lemma_find_e_first(t, i - 1);
    }
}

/// Whether `u` (already stripped of its sign) is a decimal number text,
/// exponent part included.
pub open spec fn is_number_text(u: Seq<char>) -> bool {
    let e = find_e(u);
    if e < 0 {
        is_mantissa(u)
    } else {
        is_mantissa(u.subrange(0, e)) && is_exp_digits(u.subrange(e + 1, u.len() as int))
    }
}

/// Whether `t` is a text that denotes a double-precision float.
pub open spec fn is_float_text(t: Seq<char>) -> bool {
    let u = strip_sign(t);
    is_inf_text(u) || is_infinity_text(u) || is_nan_text(u) || is_number_text(u)
}

proof fn lemma_find_e_bounds(s: Seq<char>)
    ensures
        find_e(s) == -1 || (0 <= find_e(s) < s.len() && (s[find_e(s)] == 'e' || s[find_e(s)]
            == 'E')),
    decreases s.len(),
{
    if s.len() == 0 {
    } else if s[0] == 'e' || s[0] == 'E' {
    } else {
        lemma_find_e_bounds(s.subrange(1, s.len() as int));
    }
}

/// A float text never contains a tab: every character of it is a sign, a
/// letter of the special spellings, a digit, a dot or an exponent marker.
pub proof fn lemma_float_text_no_tab(t: Seq<char>)
    requires
        is_float_text(t),
    ensures
        find_char(t, '\t') == -1,
{
    assert('\t' as u32 == 9);
    let u = strip_sign(t);
    let off: int = t.len() - u.len();
    assert forall|j: int| 0 <= j < t.len() implies t[j] != '\t' by {
        if j < off {
            assert(t[j] == '+' || t[j] == '-');
        } else {
            let k = j - off;
            assert(u[k] == t[j]);
            if is_inf_text(u) || is_infinity_text(u) || is_nan_text(u) {
                assert(u[k] != '\t');
            } else {
                let e = find_e(u);
                lemma_find_e_bounds(u);
                if e < 0 {
                    assert(is_digit(u[k]) || u[k] == '.');
                } else if k < e {
                    let m = u.subrange(0, e);
                    assert(m[k] == u[k]);
                    assert(is_digit(u[k]) || u[k] == '.');
                } else if k == e {
                    assert(u[k] == 'e' || u[k] == 'E');
                } else {
                    let x = u.subrange(e + 1, u.len() as int);
                    let y = strip_sign(x);
                    let soff: int = x.len() - y.len();
                    let xk = k - e - 1;
                    assert(x[xk] == u[k]);
                    if xk < soff {
                        assert(x[xk] == '+' || x[xk] == '-');
                    } else {
                        assert(y[xk - soff] == x[xk]);
                        assert(is_digit(x[xk]));
                    }
                }
            }
        }
    }
    lemma_find_char_first(t, '\t', t.len() as int);
}

/// Neither boolean literal reads as a float text.
pub proof fn lemma_bool_literals_not_float()
    ensures
        !is_float_text(seq!['t', 'r', 'u', 'e']),
        !is_float_text(seq!['f', 'a', 'l', 's', 'e']),
{
    let t = seq!['t', 'r', 'u', 'e'];
    assert(strip_sign(t) == t);
    lemma_find_e_first(t, 3);
    assert(find_e(t) == 3);
    let m = t.subrange(0, 3);
    assert(m[0] == 't');
    assert(!(is_digit(m[0]) || m[0] == '.'));
    assert(!is_mantissa(m));
    let f = seq!['f', 'a', 'l', 's', 'e'];
    assert(strip_sign(f) == f);
    lemma_find_e_first(f, 4);
    assert(find_e(f) == 4);
    let fm = f.subrange(0, 4);
    assert(fm[0] == 'f');
    assert(!(is_digit(fm[0]) || fm[0] == '.'));
    assert(!is_mantissa(fm));
}

fn is_inf_str(u: &str) -> (b: bool)
    ensures
        b == is_inf_text(u@),
{
    if u.unicode_len() != 3 {
        return false;
    }
    let c0 = u.get_char(0);
    let c1 = u.get_char(1);
    let c2 = u.get_char(2);
    (c0 == 'i' || c0 == 'I') && (c1 == 'n' || c1 == 'N') && (c2 == 'f' || c2 == 'F')
}

fn is_infinity_str(u: &str) -> (b: bool)
    ensures
        b == is_infinity_text(u@),
{
    if u.unicode_len() != 8 {
        return false;
    }
    let c0 = u.get_char(0);
    let c1 = u.get_char(1);
    let c2 = u.get_char(2);
    let c3 = u.get_char(3);
    let c4 = u.get_char(4);
    let c5 = u.get_char(5);
    let c6 = u.get_char(6);
    let c7 = u.get_char(7);
    (c0 == 'i' || c0 == 'I') && (c1 == 'n' || c1 == 'N') && (c2 == 'f' || c2 == 'F') && (c3 == 'i'
        || c3 == 'I') && (c4 == 'n' || c4 == 'N') && (c5 == 'i' || c5 == 'I') && (c6 == 't' || c6
        == 'T') && (c7 == 'y' || c7 == 'Y')
}

fn is_nan_str(u: &str) -> (b: bool)
    ensures
        b == is_nan_text(u@),
{
    if u.unicode_len() != 3 {
        return false;
    }
    let c0 = u.get_char(0);
    let c1 = u.get_char(1);
    let c2 = u.get_char(2);
    (c0 == 'n' || c0 == 'N') && (c1 == 'a' || c1 == 'A') && (c2 == 'n' || c2 == 'N')
}

fn check_mantissa(m: &str) -> (b: bool)
    ensures
        b == is_mantissa(m@),
{
    let n = m.unicode_len();
    let mut i: usize = 0;
    let mut seen_digit: bool = false;
    let mut seen_dot: bool = false;
    let ghost mut dig_idx: int = 0;
    let ghost mut dot_idx: int = 0;
    while i < n
        invariant
            0 <= i <= n,
            n == m@.len(),
            forall|j: int| 0 <= j < i ==> is_digit(m@[j]) || m@[j] == '.',
            seen_digit ==> 0 <= dig_idx < i && is_digit(m@[dig_idx]),
            !seen_digit ==> (forall|j: int| 0 <= j < i ==> !is_digit(m@[j])),
            seen_dot ==> 0 <= dot_idx < i && m@[dot_idx] == '.',
            !seen_dot ==> (forall|j: int| 0 <= j < i ==> m@[j] != '.'),
            forall|a: int, b: int| 0 <= a < b < i ==> !(m@[a] == '.' && m@[b] == '.'),
        decreases n - i,
    {
        let c = m.get_char(i);
        if digit_check(c) {
            seen_digit = true;
            proof {
                dig_idx = i as int;
            }
        } else if c == '.' {
            if seen_dot {
                assert(!is_mantissa(m@));
                return false;
            }
            seen_dot = true;
            proof {
                dot_idx = i as int;
            }
        } else {
            assert(!(is_digit(m@[i as int]) || m@[i as int] == '.'));
            return false;
        }
        i = i + 1;
    }
    if seen_digit {
        assert(is_mantissa(m@));
    } else {
        assert(!is_mantissa(m@));
    }
    seen_digit
}

fn check_exp(x: &str) -> (b: bool)
    ensures
        b == is_exp_digits(x@),
{
    let n = x.unicode_len();
    let start: usize = if n > 0 {
        let c = x.get_char(0);
        if c == '+' || c == '-' {
            1
        } else {
            0
        }
    } else {
        0
    };
    proof {
        assert(strip_sign(x@) =~= x@.subrange(start as int, n as int));
    }
    if start == n {
        return false;
    }
    let mut i: usize = start;
    while i < n
        invariant
            start <= i <= n,
            n == x@.len(),
            strip_sign(x@) == x@.subrange(start as int, n as int),
            forall|j: int| start <= j < i ==> is_digit(x@[j]),
        decreases n - i,
    {
        if !digit_check(x.get_char(i)) {
            proof {
                assert(strip_sign(x@).len() == n - start);
                assert(strip_sign(x@)[i - start] == x@[i as int]);
            }
            return false;
        }
        i = i + 1;
    }
    assert forall|k: int| 0 <= k < strip_sign(x@).len() implies is_digit(strip_sign(x@)[k]) by {
        assert(strip_sign(x@)[k] == x@[k + start]);
    }
    true
}

fn is_number_str(u: &str) -> (b: bool)
    ensures
        b == is_number_text(u@),
{
    let n = u.unicode_len();
    let mut i: usize = 0;
    let mut found: bool = false;
    while i < n && !found
        invariant
            0 <= i <= n,
            n == u@.len(),
            forall|j: int| 0 <= j < i ==> u@[j] != 'e' && u@[j] != 'E',
            found ==> i < n && (u@[i as int] == 'e' || u@[i as int] == 'E'),
        decreases n - i + (if found {
            0int
        } else {
            1int
        }),
    {
        let c = u.get_char(i);
        if c == 'e' || c == 'E' {
            found = true;
        } else {
            i = i + 1;
        }
    }
    if !found {
        proof {
            lemma_find_e_first(u@, n as int);
        }
        check_mantissa(u)
    } else {
        proof {
            lemma_find_e_first(u@, i as int);
        }
        let m = u.substring_char(0, i);
        let x = u.substring_char(i + 1, n);
        proof {
            assert(m@ =~= u@.subrange(0, i as int));
            assert(x@ =~= u@.subrange(i as int + 1, n as int));
        }
        let bm = check_mantissa(m);
        if !bm {
            false
        } else {
            check_exp(x)
        }
    }
}

/// Whether `s` is a text that denotes a double-precision float, as
/// executable code.
pub fn is_float_str(s: &str) -> (b: bool)
    ensures
        b == is_float_text(s@),
{
    let n = s.unicode_len();
    let start: usize = if n > 0 {
        let c = s.get_char(0);
        if c == '+' || c == '-' {
            1
        } else {
            0
        }
    } else {
        0
    };
    let u = s.substring_char(start, n);
    proof {
        assert(u@ =~= strip_sign(s@));
    }
    if is_inf_str(u) {
        return true;
    }
    if is_infinity_str(u) {
        return true;
    }
    if is_nan_str(u) {
        return true;
    }
    is_number_str(u)
}

} // verus!
