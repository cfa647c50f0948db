//! Backslash escaping of string values. The reserved characters `(` `)` `[`
//! `]` `,` `\` escape to a backslash and themselves; newline, tab and
//! carriage return escape to `\n` `\t` `\r`. Unescaping recognizes those
//! three letters and passes any other escaped character through literally,
//! which makes unescaping a left inverse of escaping.
use vstd::prelude::*;
use crate::text::{str_to_chars, chars_to_string};

verus! {

/// Whether `c` must be escaped when a string value is rendered.
pub open spec fn is_reserved(c: char) -> bool {
    c == '(' || c == ')' || c == '[' || c == ']' || c == ',' || c == '\\' || c == '\n'
        || c == '\t' || c == '\r'
}

/// The character written after the backslash when `c` is escaped.
pub open spec fn esc_code(c: char) -> char {
    if c == '\n' { 'n' } else if c == '\t' { 't' } else if c == '\r' { 'r' } else { c }
}

/// The character an escape sequence `\c` stands for.
pub open spec fn unesc_code(c: char) -> char {
    if c == 'n' { '\n' } else if c == 't' { '\t' } else if c == 'r' { '\r' } else { c }
}

/// The escaped rendering of `s`.
pub open spec fn escd(s: Seq<char>) -> Seq<char>
    decreases s.len(),
{
    if s.len() == 0 {
        Seq::empty()
    } else if is_reserved(s[0]) {
        seq!['\\', esc_code(s[0])] + escd(s.drop_first())
    } else {
        seq![s[0]] + escd(s.drop_first())
    }
}

/// The text an escaped rendering stands for. A trailing lone backslash
/// stands for nothing.
pub open spec fn unescd(s: Seq<char>) -> Seq<char>
    decreases s.len(),
{
    if s.len() == 0 {
        Seq::empty()
    } else if s[0] == '\\' {
        if s.len() == 1 {
            Seq::empty()
        } else {
            seq![unesc_code(s[1])] + unescd(s.skip(2))
        }
    } else {
        seq![s[0]] + unescd(s.drop_first())
    }
}

/// Unescaping undoes escaping on every string.
pub proof fn lemma_unescape_escape(s: Seq<char>)
    ensures
        unescd(escd(s)) == s,
    decreases s.len(),
{
    if s.len() == 0 {
    } else {
        let rest = s.drop_first();
        lemma_unescape_escape(rest);
        if is_reserved(s[0]) {
            let e = seq!['\\', esc_code(s[0])] + escd(rest);
            assert(e[0] == '\\');
            assert(e.len() >= 2);
            assert(e[1] == esc_code(s[0]));
            assert(e.skip(2) =~= escd(rest));
            assert(unesc_code(esc_code(s[0])) == s[0]);
            assert(unescd(escd(s)) =~= s);
        } else {
            let e = seq![s[0]] + escd(rest);
            assert(e[0] == s[0]);
            assert(s[0] != '\\');
            assert(e.drop_first() =~= escd(rest));
            assert(unescd(escd(s)) =~= s);
        }
    }
}

/// The escaped rendering of `s`, over character vectors.
pub fn escape_chars(s: &[char]) -> (r: Vec<char>)
    ensures
        r@ == escd(s@),
{
    let n = s.len();
    let mut r: Vec<char> = Vec::new();
    let mut i: usize = 0;
    assert(s@.skip(0) =~= s@);
    while i < n
        invariant
            n == s@.len(),
            i <= n,
            r@ + escd(s@.skip(i as int)) =~= escd(s@),
        decreases n - i,
    {
        let c = s[i];
        proof {
            assert(s@.skip(i as int).len() == n - i);
            assert(s@.skip(i as int)[0] == s@[i as int]);
            assert(s@.skip(i as int).drop_first() =~= s@.skip(i + 1));
        }
        if c == '(' || c == ')' || c == '[' || c == ']' || c == ',' || c == '\\' || c == '\n'
            || c == '\t' || c == '\r' {
            r.push('\\');
            if c == '\n' {
                r.push('n');
            } else if c == '\t' {
                r.push('t');
            } else if c == '\r' {
                r.push('r');
            } else {
                r.push(c);
            }
        } else {
            r.push(c);
        }
        i = i + 1;
    }
    assert(s@.skip(n as int) =~= Seq::<char>::empty());
    r
}

/// The text the escaped rendering `s` stands for, over character vectors.
pub fn unescape_chars(s: &[char]) -> (r: Vec<char>)
    ensures
        r@ == unescd(s@),
{
    let n = s.len();
    let mut r: Vec<char> = Vec::new();
    let mut i: usize = 0;
    assert(s@.skip(0) =~= s@);
    while i < n
        invariant
            n == s@.len(),
            i <= n,
            r@ + unescd(s@.skip(i as int)) =~= unescd(s@),
        decreases n - i,
    {
        let c = s[i];
        proof {
            assert(s@.skip(i as int)[0] == s@[i as int]);
            assert(s@.skip(i as int).drop_first() =~= s@.skip(i + 1));
            if c == '\\' && i + 1 < n {
                assert(s@.skip(i as int)[1] == s@[i + 1]);
                assert(s@.skip(i as int).skip(2) =~= s@.skip(i + 2));
            }
        }
        if c == '\\' {
            if i + 1 < n {
                let d = s[i + 1];
                if d == 'n' {
                    r.push('\n');
                } else if d == 't' {
                    r.push('\t');
                } else if d == 'r' {
                    r.push('\r');
                } else {
                    r.push(d);
                }
                i = i + 2;
            } else {
                i = i + 1;
            }
        } else {
            r.push(c);
            i = i + 1;
        }
    }
    assert(s@.skip(n as int) =~= Seq::<char>::empty());
    r
}

/// The escaped rendering of `s`: each reserved character becomes a
/// backslash sequence, every other character stands as itself.
pub fn escape(s: &str) -> (r: String)
    ensures
        r@ == escd(s@),
{
    let cs = str_to_chars(s);
    let out = escape_chars(cs.as_slice());
    chars_to_string(&out)
}

/// The text `s` stands for once backslash sequences are decoded.
pub fn unescape(s: &str) -> (r: String)
    ensures
        r@ == unescd(s@),
{
    let cs = str_to_chars(s);
    let out = unescape_chars(cs.as_slice());
    chars_to_string(&out)
}

} // verus!
