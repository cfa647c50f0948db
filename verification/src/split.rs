//! The balanced top-level split: the one scanning primitive behind data
//! rows, array literals and inline-object pair lists. A comma separates
//! tokens only while the scanner stands outside every parenthesis and
//! bracket group and not right after a backslash; tokens keep their
//! delimiters and escapes verbatim.
use vstd::prelude::*;
use crate::text::trimmed;

verus! {

/// One pass of the scanner from position `i` with escape flag `esc`,
/// parenthesis depth `d`, bracket depth `b`, the token built so far and the
/// tokens already split off. The token under construction is always pushed
/// at the end, even when empty.
pub open spec fn split_rec(
    s: Seq<char>,
    i: int,
    esc: bool,
    d: int,
    b: int,
    cur: Seq<char>,
    acc: Seq<Seq<char>>,
) -> Seq<Seq<char>>
    decreases s.len() - i,
{
    if i < 0 || i >= s.len() {
        acc.push(cur)
    } else {
        let c = s[i];
        if esc {
            split_rec(s, i + 1, false, d, b, cur.push(c), acc)
        } else if c == '\\' {
            split_rec(s, i + 1, true, d, b, cur.push('\\'), acc)
        } else if c == '(' {
            split_rec(s, i + 1, false, d + 1, b, cur.push(c), acc)
        } else if c == ')' {
            split_rec(s, i + 1, false, d - 1, b, cur.push(c), acc)
        } else if c == '[' {
            split_rec(s, i + 1, false, d, b + 1, cur.push(c), acc)
        } else if c == ']' {
            split_rec(s, i + 1, false, d, b - 1, cur.push(c), acc)
        } else if c == ',' && d == 0 && b == 0 {
            split_rec(s, i + 1, false, d, b, Seq::empty(), acc.push(cur))
        } else {
            split_rec(s, i + 1, false, d, b, cur.push(c), acc)
        }
    }
}

/// The top-level comma split of `s`; the final token is kept even when it
/// is empty, so the result is never empty.
pub open spec fn split_top(s: Seq<char>) -> Seq<Seq<char>> {
    split_rec(s, 0, false, 0, 0, Seq::empty(), Seq::empty())
}

/// The top-level comma split with a trailing all-whitespace token dropped:
/// the shape used for array elements and inline-object pairs.
pub open spec fn split_units(s: Seq<char>) -> Seq<Seq<char>> {
    let ts = split_top(s);
    if trimmed(ts.last()).len() == 0 {
        ts.drop_last()
    } else {
        ts
    }
}

/// Every token that the scanner still has to produce is bounded by the
/// unread input plus the token under construction; finished tokens stay.
pub proof fn lemma_split_rec_bound(
    s: Seq<char>,
    i: int,
    esc: bool,
    d: int,
    b: int,
    cur: Seq<char>,
    acc: Seq<Seq<char>>,
)
    requires
        0 <= i <= s.len(),
    ensures
        split_rec(s, i, esc, d, b, cur, acc).len() > acc.len(),
        forall|k: int|
            0 <= k < acc.len() ==> #[trigger] split_rec(s, i, esc, d, b, cur, acc)[k] == acc[k],
        forall|k: int|
            acc.len() <= k < split_rec(s, i, esc, d, b, cur, acc).len()
                ==> (#[trigger] split_rec(s, i, esc, d, b, cur, acc)[k]).len() <= cur.len() + (
            s.len() - i),
    decreases s.len() - i,
{
    if i >= s.len() {
    } else {
        let c = s[i];
        if esc {
            lemma_split_rec_bound(s, i + 1, false, d, b, cur.push(c), acc);
        } else if c == '\\' {
            lemma_split_rec_bound(s, i + 1, true, d, b, cur.push('\\'), acc);
        } else if c == '(' {
            lemma_split_rec_bound(s, i + 1, false, d + 1, b, cur.push(c), acc);
        } else if c == ')' {
            lemma_split_rec_bound(s, i + 1, false, d - 1, b, cur.push(c), acc);
        } else if c == '[' {
            lemma_split_rec_bound(s, i + 1, false, d, b + 1, cur.push(c), acc);
        } else if c == ']' {
            lemma_split_rec_bound(s, i + 1, false, d, b - 1, cur.push(c), acc);
        } else if c == ',' && d == 0 && b == 0 {
            lemma_split_rec_bound(s, i + 1, false, d, b, Seq::empty(), acc.push(cur));
        } else {
            lemma_split_rec_bound(s, i + 1, false, d, b, cur.push(c), acc);
        }
    }
}

/// Every token of the top-level split is no longer than the input, and the
/// split is never empty.
pub proof fn lemma_split_top_bound(s: Seq<char>)
    ensures
        split_top(s).len() > 0,
        forall|k: int|
            0 <= k < split_top(s).len() ==> (#[trigger] split_top(s)[k]).len() <= s.len(),
{
    lemma_split_rec_bound(s, 0, false, 0, 0, Seq::empty(), Seq::empty());
}

/// Every token of the unit split is no longer than the input.
pub proof fn lemma_split_units_bound(s: Seq<char>)
    ensures
        forall|k: int|
            0 <= k < split_units(s).len() ==> (#[trigger] split_units(s)[k]).len() <= s.len(),
{
    lemma_split_top_bound(s);
}

/// The character sequences of a vector of character vectors.
pub open spec fn seqs_of(ts: Seq<Vec<char>>) -> Seq<Seq<char>> {
    ts.map_values(|t: Vec<char>| t@)
}

/// Splits `s` into its top-level comma tokens; the final token is kept even
/// when empty.
pub fn split_top_chars(s: &[char]) -> (r: Vec<Vec<char>>)
    ensures
        seqs_of(r@) == split_top(s@),
{
    let n = s.len();
    let mut acc: Vec<Vec<char>> = Vec::new();
    let mut cur: Vec<char> = Vec::new();
    let mut esc: bool = false;
    let mut d: i128 = 0;
    let mut b: i128 = 0;
    let mut i: usize = 0;
    assert(seqs_of(acc@) =~= Seq::<Seq<char>>::empty());
    while i < n
        invariant
            n == s@.len(),
            i <= n,
            -(i as int) <= d <= i as int,
            -(i as int) <= b <= i as int,
            split_rec(s@, i as int, esc, d as int, b as int, cur@, seqs_of(acc@)) == split_top(
                s@,
            ),
        decreases n - i,
    {
        let c = s[i];
        if esc {
            cur.push(c);
            esc = false;
        } else if c == '\\' {
            esc = true;
            cur.push('\\');
        } else if c == '(' {
            d = d + 1;
            cur.push(c);
        } else if c == ')' {
            d = d - 1;
            cur.push(c);
        } else if c == '[' {
            b = b + 1;
            cur.push(c);
        } else if c == ']' {
            b = b - 1;
            cur.push(c);
        } else if c == ',' && d == 0 && b == 0 {
            let ghost pre = acc@;
            let done = cur;
            cur = Vec::new();
            acc.push(done);
            assert(seqs_of(acc@) =~= seqs_of(pre).push(done@));
        } else {
            cur.push(c);
        }
        i = i + 1;
    }
    let ghost pre = acc@;
    let ghost last_tok = cur@;
    acc.push(cur);
    assert(seqs_of(acc@) =~= seqs_of(pre).push(last_tok));
    acc
}

/// Splits `s` into its top-level comma tokens and drops a trailing
/// all-whitespace token.
pub fn split_units_chars(s: &[char]) -> (r: Vec<Vec<char>>)
    ensures
        seqs_of(r@) == split_units(s@),
{
    let mut ts = split_top_chars(s);
    proof {
        lemma_split_top_bound(s@);
        assert(seqs_of(ts@).len() == ts@.len());
    }
    let last = &ts[ts.len() - 1];
    let lt = crate::text::trim_chars(last.as_slice());
    proof {
        assert(seqs_of(ts@)[ts@.len() - 1] == ts@.last()@);
    }
    if lt.len() == 0 {
        let _ = ts.pop();
        proof {
            assert(seqs_of(ts@) =~= split_top(s@).drop_last());
        }
    }
    ts
}

} // verus!
