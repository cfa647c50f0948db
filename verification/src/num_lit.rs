//! The numeric literal grammar: the spellings a scalar token may take to be
//! classified as a number. It covers optionally signed decimal forms with an
//! optional fraction and exponent, and the case-insensitive special spellings
//! `inf`, `infinity` and `nan`, so integer spellings are a subset of it.
use vstd::prelude::*;

verus! {

/// Whether `c` is a decimal digit.
pub open spec fn is_digit(c: char) -> bool {
    '0' <= c && c <= '9'
}

/// Whether `c` equals the lowercase letter `l`, ignoring case.
pub open spec fn eq_ci(c: char, l: char) -> bool {
    c == l || c as int == l as int - 32
}

/// Whether every character in `s[lo..hi]` is a decimal digit.
pub open spec fn digits_in(s: Seq<char>, lo: int, hi: int) -> bool {
    forall|j: int| lo <= j < hi ==> is_digit(#[trigger] s[j])
}

/// The first index at or after `i` holding `e` or `E`, or `s.len()`.
pub open spec fn e_idx(s: Seq<char>, i: int) -> int
    decreases s.len() - i,
{
    if i < 0 || i >= s.len() {
        s.len() as int
    } else if s[i] == 'e' || s[i] == 'E' {
        i
    } else {
        e_idx(s, i + 1)
    }
}

/// The first index in `[i, hi)` holding `.`, or `hi`.
pub open spec fn dot_idx(s: Seq<char>, i: int, hi: int) -> int
    decreases hi - i,
{
    if i < 0 || i >= hi || i >= s.len() {
        hi
    } else if s[i] == '.' {
        i
    } else {
        dot_idx(s, i + 1, hi)
    }
}

/// Whether `s[o..]` is one of the special spellings, ignoring case.
pub open spec fn is_special_ci(s: Seq<char>, o: int) -> bool {
    ||| (s.len() - o == 3 && eq_ci(s[o], 'i') && eq_ci(s[o + 1], 'n') && eq_ci(s[o + 2], 'f'))
    ||| (s.len() - o == 8 && eq_ci(s[o], 'i') && eq_ci(s[o + 1], 'n') && eq_ci(s[o + 2], 'f')
        && eq_ci(s[o + 3], 'i') && eq_ci(s[o + 4], 'n') && eq_ci(s[o + 5], 'i')
        && eq_ci(s[o + 6], 't') && eq_ci(s[o + 7], 'y'))
    ||| (s.len() - o == 3 && eq_ci(s[o], 'n') && eq_ci(s[o + 1], 'a') && eq_ci(s[o + 2], 'n'))
}

/// Whether `s[lo..hi]` is a decimal mantissa: digits, or digits around one
/// dot with at least one digit on some side.
pub open spec fn is_mantissa(s: Seq<char>, lo: int, hi: int) -> bool {
    let dp = dot_idx(s, lo, hi);
    if dp == hi {
        lo < hi && digits_in(s, lo, hi)
    } else {
        digits_in(s, lo, dp) && digits_in(s, dp + 1, hi) && (lo < dp || dp + 1 < hi)
    }
}

/// Whether `s[i..]` is an exponent body: an optional sign then digits.
pub open spec fn is_exp_part(s: Seq<char>, i: int) -> bool {
    let o2 = if i < s.len() && (s[i] == '+' || s[i] == '-') { i + 1 } else { i };
    o2 < s.len() && digits_in(s, o2, s.len() as int)
}

/// Whether `s[o..]` is a mantissa with an optional exponent.
pub open spec fn is_mant_exp(s: Seq<char>, o: int) -> bool {
    let ep = e_idx(s, o);
    is_mantissa(s, o, ep) && (ep == s.len() || is_exp_part(s, ep + 1))
}

/// Whether `s` is a numeric literal: an optional sign followed by a special
/// spelling or a mantissa with optional exponent.
pub open spec fn is_number_lit(s: Seq<char>) -> bool {
    let o: int = if s.len() > 0 && (s[0] == '+' || s[0] == '-') { 1 } else { 0 };
    is_special_ci(s, o) || is_mant_exp(s, o)
}

/// Whether `c` is a decimal digit.
pub fn digit_check(c: char) -> (r: bool)
    ensures
        r == is_digit(c),
{
    '0' <= c && c <= '9'
}

fn ci_check(c: char, l: char, u: char) -> (r: bool)
    requires
        u as int == l as int - 32,
    ensures
        r == eq_ci(c, l),
{
    c == l || c == u
}

fn digits_range(s: &[char], lo: usize, hi: usize) -> (r: bool)
    requires
        lo <= hi <= s@.len(),
    ensures
        r == digits_in(s@, lo as int, hi as int),
{
    let mut i: usize = lo;
    while i < hi
        invariant
            lo <= i <= hi <= s@.len(),
            forall|j: int| lo <= j < i ==> is_digit(#[trigger] s@[j]),
        decreases hi - i,
    {
        if !digit_check(s[i]) {
            return false;
        }
        i = i + 1;
    }
    true
}

fn find_e(s: &[char], from: usize) -> (r: usize)
    requires
        from <= s@.len(),
    ensures
        r == e_idx(s@, from as int),
        from <= r <= s@.len(),
        r < s@.len() ==> (s@[r as int] == 'e' || s@[r as int] == 'E'),
{
    let n = s.len();
    let mut i: usize = from;
    while i < n
        invariant
            from <= i <= n,
            n == s@.len(),
            e_idx(s@, from as int) == e_idx(s@, i as int),
        decreases n - i,
    {
        if s[i] == 'e' || s[i] == 'E' {
            return i;
        }
        i = i + 1;
    }
    n
}

fn find_dot(s: &[char], from: usize, hi: usize) -> (r: usize)
    requires
        from <= hi <= s@.len(),
    ensures
        r == dot_idx(s@, from as int, hi as int),
        from <= r <= hi,
        r < hi ==> s@[r as int] == '.',
{
    let mut i: usize = from;
    while i < hi
        invariant
            from <= i <= hi <= s@.len(),
            dot_idx(s@, from as int, hi as int) == dot_idx(s@, i as int, hi as int),
        decreases hi - i,
    {
        if s[i] == '.' {
            return i;
        }
        i = i + 1;
    }
    hi
}

/// Whether the characters of `s` form a numeric literal.
pub fn number_lit_check(s: &[char]) -> (r: bool)
    ensures
        r == is_number_lit(s@),
{
    let n = s.len();
    let o: usize = if n > 0 && (s[0] == '+' || s[0] == '-') { 1 } else { 0 };
    // Special spellings, ignoring case.
    let special = if n - o == 3 {
        (ci_check(s[o], 'i', 'I') && ci_check(s[o + 1], 'n', 'N') && ci_check(s[o + 2], 'f', 'F'))
            || (ci_check(s[o], 'n', 'N') && ci_check(s[o + 1], 'a', 'A')
                && ci_check(s[o + 2], 'n', 'N'))
    } else if n - o == 8 {
        ci_check(s[o], 'i', 'I') && ci_check(s[o + 1], 'n', 'N') && ci_check(s[o + 2], 'f', 'F')
            && ci_check(s[o + 3], 'i', 'I') && ci_check(s[o + 4], 'n', 'N')
            && ci_check(s[o + 5], 'i', 'I') && ci_check(s[o + 6], 't', 'T')
            && ci_check(s[o + 7], 'y', 'Y')
    } else {
        false
    };
    if special {
        return true;
    }
    assert(!is_special_ci(s@, o as int));
    // Mantissa with optional exponent.
    let ep = find_e(s, o);
    let dp = find_dot(s, o, ep);
    let mant_ok = if dp == ep {
        o < ep && digits_range(s, o, ep)
    } else {
        digits_range(s, o, dp) && digits_range(s, dp + 1, ep) && (o < dp || dp + 1 < ep)
    };
    if !mant_ok {
        return false;
    }
    if ep == n {
        return true;
    }
    let o2: usize = if ep + 1 < n && (s[ep + 1] == '+' || s[ep + 1] == '-') { ep + 2 } else {
        ep + 1
    };
    o2 < n && digits_range(s, o2, n)
}

} // verus!
