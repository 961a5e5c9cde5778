//! Recognition of tokens that read as a floating-point number, following
//! the grammar that the standard library documents for parsing `f64`:
//!
//! ```text
//! Float  ::= Sign? ( 'inf' | 'infinity' | 'nan' | Number )
//! Number ::= ( Digit+ | Digit+ '.' Digit* | Digit* '.' Digit+ ) Exp?
//! Exp    ::= 'e' Sign? Digit+
//! Sign   ::= [+-]
//! Digit  ::= [0-9]
//! ```
//!
//! Letters are matched without regard to ASCII case.
use vstd::prelude::*;

verus! {

pub open spec fn is_digit(c: char) -> bool {
    '0' <= c && c <= '9'
}

pub open spec fn is_sign(c: char) -> bool {
    c == '+' || c == '-'
}

pub open spec fn is_exp_mark(c: char) -> bool {
    c == 'e' || c == 'E'
}

pub open spec fn all_digits(s: Seq<char>) -> bool {
    forall|i: int| 0 <= i < s.len() ==> is_digit(#[trigger] s[i])
}

/// `Digit+ | Digit+ '.' Digit* | Digit* '.' Digit+`
pub open spec fn is_mantissa(s: Seq<char>) -> bool {
    (s.len() > 0 && all_digits(s)) || (s.len() >= 2 && exists|k: int|
        0 <= k < s.len() && s[k] == '.' && all_digits(#[trigger] s.take(k)) && all_digits(
            s.skip(k + 1),
        ))
}

/// `Sign? Digit+`
pub open spec fn is_exponent(s: Seq<char>) -> bool {
    if s.len() > 0 && is_sign(s[0]) {
        s.len() > 1 && all_digits(s.drop_first())
    } else {
        s.len() > 0 && all_digits(s)
    }
}

/// `Number`: a mantissa, then maybe an exponent mark and an exponent.
pub open spec fn is_number(s: Seq<char>) -> bool {
    is_mantissa(s) || exists|k: int|
        0 <= k < s.len() && is_exp_mark(s[k]) && is_mantissa(#[trigger] s.take(k)) && is_exponent(
            s.skip(k + 1),
        )
}

/// `c` is the lower-case ASCII letter `l` in either case.
pub open spec fn letter_ci(c: char, l: char) -> bool {
    c == l || (c as u32) + 32 == (l as u32)
}

/// `s` spells the lower-case ASCII word `w`, in any mix of cases.
pub open spec fn word_ci(s: Seq<char>, w: Seq<char>) -> bool {
    s.len() == w.len() && forall|i: int| 0 <= i < s.len() ==> letter_ci(#[trigger] s[i], w[i])
}

pub open spec fn is_special(s: Seq<char>) -> bool {
    word_ci(s, seq!['i', 'n', 'f']) || word_ci(s, seq!['i', 'n', 'f', 'i', 'n', 'i', 't', 'y'])
        || word_ci(s, seq!['n', 'a', 'n'])
}

/// The whole of `s` reads as a floating-point number.
pub open spec fn is_float_text(s: Seq<char>) -> bool {
    let body = if s.len() > 0 && is_sign(s[0]) {
        s.drop_first()
    } else {
        s
    };
    is_special(body) || is_number(body)
}

/// The index of the first character of `s` that `is_dot` (or, when `is_dot`
/// is false, that is an exponent mark) picks, or the length of `s`.
fn find_first(s: &str, dot: bool) -> (r: usize)
    ensures
        r <= s@.len(),
        r < s@.len() ==> (if dot { s@[r as int] == '.' } else { is_exp_mark(s@[r as int]) }),
        forall|k: int|
            0 <= k < r ==> (if dot { s@[k] != '.' } else { !is_exp_mark(#[trigger] s@[k]) }),
{
    let n = s.unicode_len();
    let mut i: usize = 0;
    while i < n
        invariant
            n == s@.len(),
            i <= n,
            forall|k: int|
                0 <= k < i ==> (if dot { s@[k] != '.' } else { !is_exp_mark(#[trigger] s@[k]) }),
        decreases n - i,
    {
        let c = s.get_char(i);
        if (dot && c == '.') || (!dot && (c == 'e' || c == 'E')) {
            return i;
        }
        i = i + 1;
    }
    n
}

fn digits_only(s: &str) -> (r: bool)
    ensures
        r == all_digits(s@),
{
    let n = s.unicode_len();
    let mut i: usize = 0;
    while i < n
        invariant
            n == s@.len(),
            i <= n,
            forall|k: int| 0 <= k < i ==> is_digit(#[trigger] s@[k]),
        decreases n - i,
    {
        let c = s.get_char(i);
        if !('0' <= c && c <= '9') {
            return false;
        }
        i = i + 1;
    }
    true
}

fn mantissa(s: &str) -> (r: bool)
    ensures
        r == is_mantissa(s@),
{
    let n = s.unicode_len();
    let p = find_first(s, true);
    if p == n {
        if n > 0 && digits_only(s) {
            return true;
        }
        assert(!is_mantissa(s@));
        return false;
    }
    assert(!all_digits(s@)) by {
        assert(!is_digit(s@[p as int]));
    }
    let before = s.substring_char(0, p);
    let after = s.substring_char(p + 1, n);
    assert(before@ == s@.take(p as int));
    assert(after@ == s@.skip(p + 1));
    let r = n >= 2 && digits_only(before) && digits_only(after);
    if !r && n >= 2 {
        assert forall|k: int|
            0 <= k < s@.len() && s@[k] == '.' && all_digits(#[trigger] s@.take(k)) implies !all_digits(
            s@.skip(k + 1),
        ) by {
            if k > p {
                assert(s@.take(k)[p as int] == '.');
                assert(!is_digit(s@.take(k)[p as int]));
            } else if k < p {
                assert(s@[k] != '.');
            }
        }
    }
    r
}

fn exponent(s: &str) -> (r: bool)
    ensures
        r == is_exponent(s@),
{
    let n = s.unicode_len();
    if n > 0 && (s.get_char(0) == '+' || s.get_char(0) == '-') {
        let rest = s.substring_char(1, n);
        assert(rest@ == s@.drop_first());
        n > 1 && digits_only(rest)
    } else {
        n > 0 && digits_only(s)
    }
}

fn number(s: &str) -> (r: bool)
    ensures
        r == is_number(s@),
{
    let n = s.unicode_len();
    let q = find_first(s, false);
    if q == n {
        return mantissa(s);
    }
    assert(!is_mantissa(s@)) by {
        assert(!is_digit(s@[q as int]));
        if s@.len() >= 2 && exists|k: int|
            0 <= k < s@.len() && s@[k] == '.' && all_digits(#[trigger] s@.take(k)) && all_digits(
                s@.skip(k + 1),
            ) {
            let k = choose|k: int|
                0 <= k < s@.len() && s@[k] == '.' && all_digits(#[trigger] s@.take(k)) && all_digits(
                    s@.skip(k + 1),
                );
            if k > q {
                assert(s@.take(k)[q as int] == s@[q as int]);
            } else {
                assert(s@.skip(k + 1)[q - k - 1] == s@[q as int]);
            }
        }
    }
    let before = s.substring_char(0, q);
    let after = s.substring_char(q + 1, n);
    assert(before@ == s@.take(q as int));
    assert(after@ == s@.skip(q + 1));
    let r = mantissa(before) && exponent(after);
    if !r {
        assert forall|k: int|
            0 <= k < s@.len() && is_exp_mark(s@[k]) && #[trigger] is_mantissa(s@.take(k))
            implies !is_exponent(s@.skip(k + 1)) by {
            if k > q {
                let t = s@.take(k);
                assert(t[q as int] == s@[q as int]);
                assert(!is_digit(t[q as int]));
                assert(!all_digits(t));
                if exists|m: int|
                    0 <= m < t.len() && t[m] == '.' && all_digits(#[trigger] t.take(m))
                        && all_digits(t.skip(m + 1)) {
                    let m = choose|m: int|
                        0 <= m < t.len() && t[m] == '.' && all_digits(#[trigger] t.take(m))
                            && all_digits(t.skip(m + 1));
                    if m > q {
                        assert(t.take(m)[q as int] == t[q as int]);
                    } else {
                        assert(t.skip(m + 1)[q - m - 1] == t[q as int]);
                    }
                }
            }
        }
    }
    r
}

/// Whether `s`, lower-cased in ASCII, is the word `w` (given in lower case).
fn word_ci_exec(s: &str, w: &str) -> (r: bool)
    requires
        forall|i: int| 0 <= i < w@.len() ==> 'a' <= #[trigger] w@[i] && w@[i] <= 'z',
    ensures
        r == word_ci(s@, w@),
{
    let n = s.unicode_len();
    if n != w.unicode_len() {
        return false;
    }
    let mut i: usize = 0;
    while i < n
        invariant
            n == s@.len(),
            n == w@.len(),
            i <= n,
            forall|k: int| 0 <= k < i ==> letter_ci(#[trigger] s@[k], w@[k]),
        decreases n - i,
    {
        let c = s.get_char(i);
        let l = w.get_char(i);
        if !(c == l || (c as u32) + 32 == (l as u32)) {
            return false;
        }
        i = i + 1;
    }
    true
}

/// Whether the whole of `s` reads as a floating-point number.
pub fn is_float(s: &str) -> (r: bool)
    ensures
        r == is_float_text(s@),
{
    let n = s.unicode_len();
    let body = if n > 0 && (s.get_char(0) == '+' || s.get_char(0) == '-') {
        s.substring_char(1, n)
    } else {
        s.substring_char(0, n)
    };
    proof {
        if n > 0 && is_sign(s@[0]) {
            assert(body@ == s@.drop_first());
        } else {
            assert(body@ == s@);
        }
        reveal_strlit("inf");
        reveal_strlit("infinity");
        reveal_strlit("nan");
    }
    let inf = "inf";
    let infinity = "infinity";
    let nan = "nan";
    assert(inf@ == seq!['i', 'n', 'f']);
    assert(infinity@ == seq!['i', 'n', 'f', 'i', 'n', 'i', 't', 'y']);
    assert(nan@ == seq!['n', 'a', 'n']);
    word_ci_exec(body, inf) || word_ci_exec(body, infinity) || word_ci_exec(body, nan) || number(
        body,
    )
}

} // verus!
