//! The recursive-descent parser from ORT text to a value tree. Every
//! function is specified against a total mathematical reading of the
//! grammar; the document layer adds positioned errors for malformed headers,
//! unmatched field-spec parentheses and row/field count mismatches.
use vstd::prelude::*;
use crate::error::{OrtError, OrtResult};
use crate::escape::unescd;
use crate::escape::unescape_chars;
use crate::num_lit::{is_number_lit, number_lit_check};
use crate::ort_value::{OrtValue, ValModel, upsert, obj_insert, entry_models_of, models_of,
    lemma_models_of, lemma_entry_models_of};
use crate::split::{split_top, split_units, split_top_chars, split_units_chars, seqs_of,
    lemma_split_units_bound};
use crate::text::{trimmed, trim_chars, lemma_trimmed_le, subvec, chars_to_string};

verus! {

broadcast use vstd::std_specs::vec::group_vec_axioms, vstd::seq::group_seq_axioms;

/// How an unescaped scalar token reads: a numeric literal, one of the two
/// boolean spellings, or plain text.
pub open spec fn classify_scalar(u: Seq<char>) -> ValModel {
    if is_number_lit(u) {
        ValModel::Number(u)
    } else if u == seq!['t', 'r', 'u', 'e'] {
        ValModel::Bool(true)
    } else if u == seq!['f', 'a', 'l', 's', 'e'] {
        ValModel::Bool(false)
    } else {
        ValModel::Text(u)
    }
}

/// The first index at or after `i` holding `:`, or `s.len()`.
pub open spec fn colon_idx(s: Seq<char>, i: int) -> int
    decreases s.len() - i,
{
    if i < 0 || i >= s.len() {
        s.len() as int
    } else if s[i] == ':' {
        i
    } else {
        colon_idx(s, i + 1)
    }
}

/// The value a single token stands for: nothing, an array or object
/// literal, or a scalar. Total; no token is rejected.
pub open spec fn spec_value(s: Seq<char>) -> ValModel
    decreases s.len(), 0int, 0int,
        via spec_value_dec
{
    let t = trimmed(s);
    if t.len() == 0 {
        ValModel::Null
    } else if t.len() >= 2 && t[0] == '[' && t[t.len() - 1] == ']' {
        let inner = t.subrange(1, t.len() - 1);
        if trimmed(inner).len() == 0 {
            ValModel::Arr(Seq::empty())
        } else {
            ValModel::Arr(spec_elems(split_units(inner), inner.len() as int))
        }
    } else if t.len() >= 2 && t[0] == '(' && t[t.len() - 1] == ')' {
        let inner = t.subrange(1, t.len() - 1);
        if trimmed(inner).len() == 0 {
            ValModel::Obj(Seq::empty())
        } else {
            ValModel::Obj(spec_pairs(split_units(inner), inner.len() as int, Seq::empty()))
        }
    } else {
        classify_scalar(unescd(t))
    }
}

/// The values of an array literal's tokens, in order. `bound` carries the
/// enclosing text's length; a token over the bound reads as `Null`, which
/// never happens for tokens of a real split.
pub open spec fn spec_elems(toks: Seq<Seq<char>>, bound: int) -> Seq<ValModel>
    decreases bound, 1int, toks.len(),
{
    if toks.len() == 0 || bound < 0 {
        Seq::empty()
    } else {
        let tok = toks[0];
        let v = if tok.len() <= bound {
            spec_value(tok)
        } else {
            ValModel::Null
        };
        seq![v] + spec_elems(toks.drop_first(), bound)
    }
}

/// The entries an inline object literal's pair tokens build, left to right,
/// with keyed-insertion semantics; a token without a colon adds nothing.
/// `bound` is as in [`spec_elems`].
pub open spec fn spec_pairs(
    toks: Seq<Seq<char>>,
    bound: int,
    acc: Seq<(Seq<char>, ValModel)>,
) -> Seq<(Seq<char>, ValModel)>
    decreases bound, 1int, toks.len(),
        via spec_pairs_dec
{
    if toks.len() == 0 || bound < 0 {
        acc
    } else {
        let pair = toks[0];
        let rest = toks.drop_first();
        let p = colon_idx(pair, 0);
        if p == pair.len() {
            spec_pairs(rest, bound, acc)
        } else {
            let k = trimmed(pair.take(p));
            let v = if pair.len() <= bound {
                spec_value(pair.skip(p + 1))
            } else {
                ValModel::Null
            };
            spec_pairs(rest, bound, upsert(acc, k, v))
        }
    }
}

#[via_fn]
proof fn spec_value_dec(s: Seq<char>) {
    lemma_trimmed_le(s);
}

#[via_fn]
proof fn spec_pairs_dec(toks: Seq<Seq<char>>, bound: int, acc: Seq<(Seq<char>, ValModel)>) {
    if toks.len() > 0 && bound >= 0 {
        lemma_colon_idx_bounds(toks[0], 0);
    }
}

/// Where the colon search can land: between `i` and the end.
pub proof fn lemma_colon_idx_bounds(s: Seq<char>, i: int)
    requires
        0 <= i <= s.len(),
    ensures
        i <= colon_idx(s, i) <= s.len(),
        colon_idx(s, i) < s.len() ==> s[colon_idx(s, i)] == ':',
    decreases s.len() - i,
{
    if i < s.len() && s[i] != ':' {
        lemma_colon_idx_bounds(s, i + 1);
    }
}

/// Pointwise reading of [`spec_elems`] for tokens within the bound.
pub proof fn lemma_spec_elems(toks: Seq<Seq<char>>, bound: int)
    requires
        bound >= 0,
        forall|k: int| 0 <= k < toks.len() ==> (#[trigger] toks[k]).len() <= bound,
    ensures
        spec_elems(toks, bound).len() == toks.len(),
        forall|k: int|
            0 <= k < toks.len() ==> spec_elems(toks, bound)[k] == spec_value(#[trigger] toks[k]),
    decreases toks.len(),
{
    if toks.len() > 0 {
        assert(forall|k: int|
            0 <= k < toks.drop_first().len() ==> (#[trigger] toks.drop_first()[k]).len()
                <= bound) by {
            assert(forall|k: int|
                0 <= k < toks.drop_first().len() ==> toks.drop_first()[k] == toks[k + 1]);
        }
        lemma_spec_elems(toks.drop_first(), bound);
        assert forall|k: int|
            0 <= k < toks.len() implies spec_elems(toks, bound)[k] == spec_value(
            #[trigger] toks[k],
        ) by {
            if k > 0 {
                assert(toks.drop_first()[k - 1] == toks[k]);
                assert(spec_elems(toks, bound)[k] == spec_elems(toks.drop_first(), bound)[k - 1]);
            }
        }
    }
}

/// The first index of `s` at or after `from` holding `:`, or `s.len()`.
pub fn find_colon(s: &[char], from: usize) -> (r: usize)
    requires
        from <= s@.len(),
    ensures
        r == colon_idx(s@, from as int),
        from <= r <= s@.len(),
        r < s@.len() ==> s@[r as int] == ':',
{
    let n = s.len();
    let mut i: usize = from;
    while i < n
        invariant
            from <= i <= n,
            n == s@.len(),
            colon_idx(s@, from as int) == colon_idx(s@, i as int),
        decreases n - i,
    {
        if s[i] == ':' {
            return i;
        }
        i = i + 1;
    }
    n
}

fn lit_true_check(u: &[char]) -> (r: bool)
    ensures
        r == (u@ == seq!['t', 'r', 'u', 'e']),
{
    if u.len() == 4 && u[0] == 't' && u[1] == 'r' && u[2] == 'u' && u[3] == 'e' {
        assert(u@ =~= seq!['t', 'r', 'u', 'e']);
        true
    } else {
        assert(u@ != seq!['t', 'r', 'u', 'e']) by {
            if u@.len() == 4 {
            }
        }
        false
    }
}

fn lit_false_check(u: &[char]) -> (r: bool)
    ensures
        r == (u@ == seq!['f', 'a', 'l', 's', 'e']),
{
    if u.len() == 5 && u[0] == 'f' && u[1] == 'a' && u[2] == 'l' && u[3] == 's' && u[4] == 'e' {
        assert(u@ =~= seq!['f', 'a', 'l', 's', 'e']);
        true
    } else {
        assert(u@ != seq!['f', 'a', 'l', 's', 'e']) by {
            if u@.len() == 5 {
            }
        }
        false
    }
}

/// Decodes one token: empty reads as null, balanced brackets as an array
/// literal, balanced parentheses as an inline object literal, and anything
/// else as a scalar after unescaping. Total: every token decodes.
pub fn parse_value_chars(s: &[char]) -> (v: OrtValue)
    ensures
        v.model() == spec_value(s@),
    decreases s@.len(),
{
    proof {
        lemma_trimmed_le(s@);
    }
    let t = trim_chars(s);
    let tl = t.len();
    if tl == 0 {
        return OrtValue::Null;
    }
    if tl >= 2 && t[0] == '[' && t[tl - 1] == ']' {
        let inner = subvec(t.as_slice(), 1, tl - 1);
        let itr = trim_chars(inner.as_slice());
        if itr.len() == 0 {
            let empty_elems: Vec<OrtValue> = Vec::new();
            return OrtValue::Array(empty_elems);
        }
        let toks = split_units_chars(inner.as_slice());
        proof {
            lemma_split_units_bound(inner@);
            lemma_spec_elems(seqs_of(toks@), inner@.len() as int);
        }
        let ghost gt = seqs_of(toks@);
        let mut elems: Vec<OrtValue> = Vec::new();
        let n = toks.len();
        let mut i: usize = 0;
        while i < n
            invariant
                n == toks@.len(),
                i <= n,
                gt == seqs_of(toks@),
                gt == split_units(inner@),
                inner@.len() < s@.len(),
                gt.len() == n,
                forall|k: int| 0 <= k < n ==> (#[trigger] gt[k]).len() <= inner@.len(),
                forall|k: int| 0 <= k < n ==> gt[k] == (#[trigger] toks@[k])@,
                elems@.len() == i,
                forall|k: int| 0 <= k < i ==> (#[trigger] elems@[k]).model() == spec_value(gt[k]),
            decreases n - i,
        {
            let v = parse_value_chars(toks[i].as_slice());
            elems.push(v);
            i = i + 1;
        }
        proof {
            lemma_models_of(elems@);
            lemma_spec_elems(gt, inner@.len() as int);
            assert forall|k: int|
                0 <= k < n implies models_of(elems@)[k] == spec_elems(
                gt,
                inner@.len() as int,
            )[k] by {
                assert(models_of(elems@)[k] == elems@[k].model());
                assert(spec_elems(gt, inner@.len() as int)[k] == spec_value(gt[k]));
            }
            assert(models_of(elems@) =~= spec_elems(gt, inner@.len() as int));
        }
        return OrtValue::Array(elems);
    }
    if tl >= 2 && t[0] == '(' && t[tl - 1] == ')' {
        let inner = subvec(t.as_slice(), 1, tl - 1);
        let itr = trim_chars(inner.as_slice());
        if itr.len() == 0 {
            let empty_entries: Vec<(String, OrtValue)> = Vec::new();
            return OrtValue::Object(empty_entries);
        }
        let toks = split_units_chars(inner.as_slice());
        proof {
            lemma_split_units_bound(inner@);
        }
        let ghost gt = seqs_of(toks@);
        let ghost bound = inner@.len() as int;
        let mut entries: Vec<(String, OrtValue)> = Vec::new();
        proof {
            assert(gt.skip(0) =~= gt);
            assert(entry_models_of(entries@) =~= Seq::<(Seq<char>, ValModel)>::empty());
        }
        let n = toks.len();
        let mut i: usize = 0;
        while i < n
            invariant
                n == toks@.len(),
                i <= n,
                gt == seqs_of(toks@),
                gt == split_units(inner@),
                bound == inner@.len(),
                inner@.len() < s@.len(),
                gt.len() == n,
                forall|k: int| 0 <= k < n ==> (#[trigger] gt[k]).len() <= bound,
                forall|k: int| 0 <= k < n ==> gt[k] == (#[trigger] toks@[k])@,
                spec_pairs(gt.skip(i as int), bound, entry_models_of(entries@)) == spec_pairs(
                    gt,
                    bound,
                    Seq::empty(),
                ),
            decreases n - i,
        {
            let pair = &toks[i];
            let ghost pre_acc = entry_models_of(entries@);
            proof {
                assert(gt.skip(i as int)[0] == gt[i as int]);
                assert(gt.skip(i as int).drop_first() =~= gt.skip(i + 1));
            }
            let p = find_colon(pair.as_slice(), 0);
            if p < pair.len() {
                let kchars = subvec(pair.as_slice(), 0, p);
                let ktrim = trim_chars(kchars.as_slice());
                let key = chars_to_string(&ktrim);
                let vchars = subvec(pair.as_slice(), p + 1, pair.len());
                let v = parse_value_chars(vchars.as_slice());
                proof {
                    assert(pair@.take(p as int) =~= kchars@);
                    assert(pair@.skip(p + 1) =~= vchars@);
                }
                obj_insert(&mut entries, key, v);
                proof {
                    assert(entry_models_of(entries@) == upsert(
                        pre_acc,
                        trimmed(pair@.take(p as int)),
                        spec_value(pair@.skip(p + 1)),
                    ));
                    assert(spec_pairs(gt.skip(i as int), bound, pre_acc) == spec_pairs(
                        gt.skip(i + 1),
                        bound,
                        entry_models_of(entries@),
                    ));
                }
            } else {
                proof {
                    assert(spec_pairs(gt.skip(i as int), bound, pre_acc) == spec_pairs(
                        gt.skip(i + 1),
                        bound,
                        pre_acc,
                    ));
                }
            }
            i = i + 1;
        }
        proof {
            assert(gt.skip(n as int) =~= Seq::<Seq<char>>::empty());
            assert(spec_pairs(gt.skip(n as int), bound, entry_models_of(entries@))
                == entry_models_of(entries@));
        }
        return OrtValue::Object(entries);
    }
    let u = unescape_chars(t.as_slice());
    if number_lit_check(u.as_slice()) {
        return OrtValue::Number(chars_to_string(&u));
    }
    if lit_true_check(u.as_slice()) {
        return OrtValue::Bool(true);
    }
    if lit_false_check(u.as_slice()) {
        return OrtValue::Bool(false);
    }
    OrtValue::String(chars_to_string(&u))
}

/// One column of a section header: a leaf name, or a name with its own
/// sub-schema. Field specifications live only while a section is decoded.
#[derive(Debug, PartialEq)]
pub enum Field {
    Simple(String),
    Nested(String, Vec<Field>),
}

/// The mathematical shape of a field specification.
pub enum FieldModel {
    Simple(Seq<char>),
    Nested(Seq<char>, Seq<FieldModel>),
}

/// The mathematical shapes of a field list, in order.
pub open spec fn field_models_of(fs: Seq<Field>) -> Seq<FieldModel>
    decreases fs,
{
    if fs.len() == 0 {
        Seq::empty()
    } else {
        seq![fs[0].model()] + field_models_of(fs.drop_first())
    }
}

impl Field {
    /// The mathematical shape of this field.
    pub open spec fn model(self) -> FieldModel
        decreases self,
    {
        match self {
            Field::Simple(name) => FieldModel::Simple(name@),
            Field::Nested(name, subs) => FieldModel::Nested(name@, field_models_of(subs@)),
        }
    }
}

/// Appending a field appends its shape.
pub proof fn lemma_field_models_push(fs: Seq<Field>, f: Field)
    ensures
        field_models_of(fs.push(f)) == field_models_of(fs).push(f.model()),
    decreases fs,
{
    if fs.len() == 0 {
        assert(fs.push(f).len() == 1);
        assert(fs.push(f)[0] == f);
        assert(fs.push(f).drop_first() =~= Seq::<Field>::empty());
        assert(field_models_of(fs.push(f)) == seq![f.model()] + field_models_of(
            fs.push(f).drop_first(),
        ));
        assert(field_models_of(Seq::<Field>::empty()) == Seq::<FieldModel>::empty());
        assert(field_models_of(fs.push(f)) =~= field_models_of(fs).push(f.model()));
    } else {
        assert(fs.push(f).drop_first() =~= fs.drop_first().push(f));
        lemma_field_models_push(fs.drop_first(), f);
        assert(fs.push(f)[0] == fs[0]);
        assert(field_models_of(fs.push(f)) == seq![fs[0].model()] + field_models_of(
            fs.drop_first().push(f),
        ));
        assert(field_models_of(fs) == seq![fs[0].model()] + field_models_of(fs.drop_first()));
        assert(field_models_of(fs.push(f)) =~= field_models_of(fs).push(f.model()));
    }
}

/// Pointwise reading of [`field_models_of`].
pub proof fn lemma_field_models_of(fs: Seq<Field>)
    ensures
        field_models_of(fs).len() == fs.len(),
        forall|i: int| 0 <= i < fs.len() ==> field_models_of(fs)[i] == (#[trigger] fs[i]).model(),
    decreases fs,
{
    if fs.len() > 0 {
        lemma_field_models_of(fs.drop_first());
        assert forall|i: int|
            0 <= i < fs.len() implies field_models_of(fs)[i] == (#[trigger] fs[i]).model() by {
            if i > 0 {
                assert(fs.drop_first()[i - 1] == fs[i]);
                assert(field_models_of(fs)[i] == field_models_of(fs.drop_first())[i - 1]);
            }
        }
    }
}

/// The name a field binds its decoded value to.
pub open spec fn field_name(f: FieldModel) -> Seq<char> {
    match f {
        FieldModel::Simple(name) => name,
        FieldModel::Nested(name, _) => name,
    }
}

/// The position where the parenthesis group opened before `i` at depth `d`
/// closes, or `s.len()` when it never does.
pub open spec fn close_idx(s: Seq<char>, i: int, d: int) -> int
    decreases s.len() - i,
{
    if i < 0 || i >= s.len() {
        s.len() as int
    } else {
        let d2 = if s[i] == '(' {
            d + 1
        } else if s[i] == ')' {
            d - 1
        } else {
            d
        };
        if d2 == 0 {
            i
        } else {
            close_idx(s, i + 1, d2)
        }
    }
}

/// Where the close search can land: between `i` and the end.
pub proof fn lemma_close_idx_bounds(s: Seq<char>, i: int, d: int)
    requires
        0 <= i <= s.len(),
    ensures
        i <= close_idx(s, i, d) <= s.len(),
    decreases s.len() - i,
{
    if i < s.len() {
        let d2 = if s[i] == '(' { d + 1 } else if s[i] == ')' { d - 1 } else { d };
        if d2 != 0 {
            lemma_close_idx_bounds(s, i + 1, d2);
        }
    }
}

/// The field-spec scan from position `i`, with the name being built and the
/// fields already recognized. `None` is the unmatched-closing-parenthesis
/// error; a name followed by a parenthesized group becomes a nested field
/// whose sub-spec is read from the group's inside.
pub open spec fn sfr(s: Seq<char>, i: int, cur: Seq<char>, acc: Seq<FieldModel>) -> Option<
    Seq<FieldModel>,
>
    decreases s.len() - i, 0int,
        via sfr_dec
{
    if i < 0 || i >= s.len() {
        let f = trimmed(cur);
        if f.len() > 0 {
            Some(acc.push(FieldModel::Simple(f)))
        } else {
            Some(acc)
        }
    } else {
        let c = s[i];
        if c == '(' {
            let name = trimmed(cur);
            let j = close_idx(s, i + 1, 1);
            let inner = s.subrange(i + 1, j);
            match sfr(inner, 0, Seq::empty(), Seq::empty()) {
                Option::None => Option::None,
                Option::Some(nested) => {
                    let next = if j + 1 <= s.len() {
                        j + 1
                    } else {
                        s.len() as int
                    };
                    sfr(s, next, Seq::empty(), acc.push(FieldModel::Nested(name, nested)))
                },
            }
        } else if c == ')' {
            Option::None
        } else if c == ',' {
            let f = trimmed(cur);
            if f.len() > 0 {
                sfr(s, i + 1, Seq::empty(), acc.push(FieldModel::Simple(f)))
            } else {
                sfr(s, i + 1, Seq::empty(), acc)
            }
        } else {
            sfr(s, i + 1, cur.push(c), acc)
        }
    }
}

#[via_fn]
proof fn sfr_dec(s: Seq<char>, i: int, cur: Seq<char>, acc: Seq<FieldModel>) {
    if 0 <= i < s.len() && s[i] == '(' {
        lemma_close_idx_bounds(s, i + 1, 1);
    }
}

/// The fields a header's field-spec text declares, or `None` on an
/// unmatched closing parenthesis.
pub open spec fn spec_fields(s: Seq<char>) -> Option<Seq<FieldModel>> {
    sfr(s, 0, Seq::empty(), Seq::empty())
}

/// The position where the group opened before `from` (at depth 1) closes,
/// or the length when it never does.
fn find_close(s: &[char], from: usize) -> (r: usize)
    requires
        from <= s@.len(),
    ensures
        r == close_idx(s@, from as int, 1),
        from <= r <= s@.len(),
{
    proof {
        lemma_close_idx_bounds(s@, from as int, 1);
    }
    let n = s.len();
    let mut i: usize = from;
    let mut d: i128 = 1;
    while i < n
        invariant
            from <= i <= n,
            n == s@.len(),
            1 - (i as int) <= d <= 1 + i as int,
            d != 0,
            close_idx(s@, from as int, 1) == close_idx(s@, i as int, d as int),
        decreases n - i,
    {
        let c = s[i];
        let d2: i128 = if c == '(' {
            d + 1
        } else if c == ')' {
            d - 1
        } else {
            d
        };
        if d2 == 0 {
            return i;
        }
        d = d2;
        i = i + 1;
    }
    n
}

/// Reads a field-spec text into fields; the error is an unmatched closing
/// parenthesis.
fn parse_fields_chars(s: &[char]) -> (r: Result<Vec<Field>, ()>)
    ensures
        match r {
            Ok(fs) => spec_fields(s@) == Some(field_models_of(fs@)),
            Err(()) => spec_fields(s@) is None,
        },
    decreases s@.len(),
{
    let n = s.len();
    let mut acc: Vec<Field> = Vec::new();
    let mut cur: Vec<char> = Vec::new();
    let mut i: usize = 0;
    proof {
        assert(field_models_of(acc@) =~= Seq::<FieldModel>::empty());
    }
    while i < n
        invariant
            i <= n,
            n == s@.len(),
            sfr(s@, i as int, cur@, field_models_of(acc@)) == spec_fields(s@),
        decreases n - i,
    {
        let c = s[i];
        if c == '(' {
            let tcur = trim_chars(cur.as_slice());
            let name = chars_to_string(&tcur);
            let j = find_close(s, i + 1);
            let inner = subvec(s, i + 1, j);
            proof {
                assert(inner@ =~= s@.subrange(i + 1, j as int));
            }
            match parse_fields_chars(inner.as_slice()) {
                Ok(nested) => {
                    let ghost pre = acc@;
                    acc.push(Field::Nested(name, nested));
                    proof {
                        lemma_field_models_push(pre, acc@.last());
                        assert(acc@ =~= pre.push(acc@.last()));
                    }
                    cur = Vec::new();
                    if j >= n {
                        i = n;
                    } else {
                        i = j + 1;
                    }
                },
                Err(()) => {
                    return Err(());
                },
            }
        } else if c == ')' {
            return Err(());
        } else if c == ',' {
            let tcur = trim_chars(cur.as_slice());
            if tcur.len() > 0 {
                let ghost pre = acc@;
                let name = chars_to_string(&tcur);
                acc.push(Field::Simple(name));
                proof {
                    lemma_field_models_push(pre, acc@.last());
                    assert(acc@ =~= pre.push(acc@.last()));
                }
            }
            cur = Vec::new();
            i = i + 1;
        } else {
            cur.push(c);
            i = i + 1;
        }
    }
    let tcur = trim_chars(cur.as_slice());
    if tcur.len() > 0 {
        let ghost pre = acc@;
        let name = chars_to_string(&tcur);
        acc.push(Field::Simple(name));
        proof {
            lemma_field_models_push(pre, acc@.last());
            assert(acc@ =~= pre.push(acc@.last()));
        }
    }
    Ok(acc)
}

/// Reads the comma-separated, optionally parenthesized column names of a
/// section header. `line` and `line_num` position the error report when a
/// closing parenthesis has no opener.
pub fn parse_fields(fields_str: &str, line: &str, line_num: usize) -> (r: OrtResult<Vec<Field>>)
    ensures
        match r {
            Ok(fs) => spec_fields(fields_str@) == Some(field_models_of(fs@)),
            Err(e) => {
                &&& spec_fields(fields_str@) is None
                &&& e.line == line_num
                &&& e.code@ == line@
                &&& e.message@ == "Unmatched closing parenthesis"@
            },
        },
{
    let cs = crate::text::str_to_chars(fields_str);
    match parse_fields_chars(cs.as_slice()) {
        Ok(fs) => Ok(fs),
        Err(()) => Err(
            OrtError::new(
                line_num,
                line.to_owned(),
                String::from_str("Unmatched closing parenthesis"),
            ),
        ),
    }
}

/// `s` with every leading `c` removed.
pub open spec fn strip_lead(s: Seq<char>, c: char) -> Seq<char>
    decreases s.len(),
{
    if s.len() > 0 && s[0] == c {
        strip_lead(s.drop_first(), c)
    } else {
        s
    }
}

/// `s` with every trailing `c` removed.
pub open spec fn strip_trail(s: Seq<char>, c: char) -> Seq<char>
    decreases s.len(),
{
    if s.len() > 0 && s[s.len() - 1] == c {
        strip_trail(s.drop_last(), c)
    } else {
        s
    }
}

proof fn lemma_strip_lead_skip(s: Seq<char>, c: char, i: int)
    requires
        0 <= i <= s.len(),
        forall|j: int| 0 <= j < i ==> s[j] == c,
        i == s.len() || s[i] != c,
    ensures
        strip_lead(s, c) == s.skip(i),
    decreases i,
{
    if i > 0 {
        assert(s.drop_first() =~= s.skip(1));
        assert(s.skip(1).skip(i - 1) =~= s.skip(i));
        lemma_strip_lead_skip(s.skip(1), c, i - 1);
    } else {
        assert(s.skip(0) =~= s);
    }
}

proof fn lemma_strip_trail_take(s: Seq<char>, c: char, j: int)
    requires
        0 <= j <= s.len(),
        forall|k: int| j <= k < s.len() ==> s[k] == c,
        j == 0 || s[j - 1] != c,
    ensures
        strip_trail(s, c) == s.take(j),
    decreases s.len() - j,
{
    if j < s.len() {
        assert(s.drop_last() =~= s.take(s.len() - 1));
        lemma_strip_trail_take(s.take(s.len() - 1), c, j);
        assert(s.take(s.len() - 1).take(j) =~= s.take(j));
    } else {
        assert(s.take(s.len() as int) =~= s);
    }
}

/// `s[from..to]` with every leading and trailing `c` removed, as a copy.
fn strip_both_chars(s: &[char], c: char) -> (r: Vec<char>)
    ensures
        r@ == strip_trail(strip_lead(s@, c), c),
{
    let n = s.len();
    let mut lo: usize = 0;
    while lo < n && s[lo] == c
        invariant
            lo <= n,
            n == s@.len(),
            forall|j: int| 0 <= j < lo ==> s@[j] == c,
        decreases n - lo,
    {
        lo = lo + 1;
    }
    proof {
        lemma_strip_lead_skip(s@, c, lo as int);
    }
    let mut hi: usize = n;
    while hi > lo && s[hi - 1] == c
        invariant
            lo <= hi <= n,
            n == s@.len(),
            forall|k: int| hi <= k < n ==> s@[k] == c,
        decreases hi,
    {
        hi = hi - 1;
    }
    proof {
        let t = s@.skip(lo as int);
        lemma_strip_trail_take(t, c, hi - lo);
        assert(t.take(hi - lo) =~= s@.subrange(lo as int, hi as int));
    }
    subvec(s, lo, hi)
}

/// Whether a line reads as a section header once trimmed: it starts with a
/// colon, or its final character is a colon.
pub open spec fn is_header_of(line: Seq<char>) -> bool {
    let t = trimmed(line);
    t.len() > 0 && (t[0] == ':' || t[t.len() - 1] == ':')
}

/// Whether a line is recognized as a section header: it starts with `:`
/// (anonymous), or ends, after trimming, with `:` (named).
pub fn is_header(line: &str) -> (r: bool)
    ensures
        r == is_header_of(line@),
{
    let cs = crate::text::str_to_chars(line);
    let t = trim_chars(cs.as_slice());
    let tl = t.len();
    tl > 0 && (t[0] == ':' || t[tl - 1] == ':')
}

/// Whether a header line parses: every line starting with a colon does, and
/// a named header needs some colon after the key.
pub open spec fn header_ok(line: Seq<char>) -> bool {
    line.len() > 0 && line[0] == ':' || colon_idx(line, 0) < line.len()
}

/// The key a header binds its section to; the anonymous form has none.
pub open spec fn header_key(line: Seq<char>) -> Option<Seq<char>> {
    if line.len() > 0 && line[0] == ':' {
        Option::None
    } else {
        Option::Some(trimmed(line.take(colon_idx(line, 0))))
    }
}

/// The field-spec text between a header's colons.
pub open spec fn header_fields(line: Seq<char>) -> Seq<char> {
    if line.len() > 0 && line[0] == ':' {
        strip_trail(strip_lead(line, ':'), ':')
    } else {
        trimmed(strip_trail(line.skip(colon_idx(line, 0) + 1), ':'))
    }
}

/// The model of an optional key as the parser returns it.
pub open spec fn opt_str_model(o: Option<String>) -> Option<Seq<char>> {
    match o {
        Option::Some(s) => Option::Some(s@),
        Option::None => Option::None,
    }
}

/// Splits a header line into its optional key and its field-spec text. A
/// line starting with `:` is an anonymous header whose content stands
/// between the outer colons; otherwise the text before the first colon is
/// the key and the rest, with trailing colons removed, the field spec. The
/// error is a line with no colon at all.
pub fn parse_header(line: &str, line_num: usize) -> (r: OrtResult<(Option<String>, String)>)
    ensures
        match r {
            Ok(kf) => {
                &&& header_ok(line@)
                &&& opt_str_model(kf.0) == header_key(line@)
                &&& kf.1@ == header_fields(line@)
            },
            Err(e) => {
                &&& !header_ok(line@)
                &&& e.line == line_num
                &&& e.code@ == line@
                &&& e.message@ == "Invalid header format"@
            },
        },
{
    let cs = crate::text::str_to_chars(line);
    let n = cs.len();
    if n > 0 && cs[0] == ':' {
        let content = strip_both_chars(cs.as_slice(), ':');
        return Ok((None, chars_to_string(&content)));
    }
    let p = find_colon(cs.as_slice(), 0);
    if p == n {
        return Err(
            OrtError::new(line_num, line.to_owned(), String::from_str("Invalid header format")),
        );
    }
    let kpart = subvec(cs.as_slice(), 0, p);
    let ktrim = trim_chars(kpart.as_slice());
    let rest = subvec(cs.as_slice(), p + 1, n);
    proof {
        assert(kpart@ =~= line@.take(p as int));
        assert(rest@ =~= line@.skip(p + 1));
    }
    let stripped = strip_both_trail_only(rest.as_slice(), ':');
    let ftrim = trim_chars(stripped.as_slice());
    Ok((Some(chars_to_string(&ktrim)), chars_to_string(&ftrim)))
}

/// `s` with every trailing `c` removed, as a copy.
fn strip_both_trail_only(s: &[char], c: char) -> (r: Vec<char>)
    ensures
        r@ == strip_trail(s@, c),
{
    let n = s.len();
    let mut hi: usize = n;
    while hi > 0 && s[hi - 1] == c
        invariant
            hi <= n,
            n == s@.len(),
            forall|k: int| hi <= k < n ==> s@[k] == c,
        decreases hi,
    {
        hi = hi - 1;
    }
    proof {
        lemma_strip_trail_take(s@, c, hi as int);
        assert(s@.take(hi as int) =~= s@.subrange(0, hi as int));
    }
    subvec(s, 0, hi)
}

/// The character sequences of a run of strings.
pub open spec fn strs_of(vs: Seq<String>) -> Seq<Seq<char>> {
    vs.map_values(|v: String| v@)
}

/// Splits one data line into its top-level comma-separated value tokens.
/// Never fails; the token count is checked against the field spec by the
/// caller.
pub fn parse_data_values(line: &str, _line_num: usize) -> (r: OrtResult<Vec<String>>)
    ensures
        r is Ok,
        match r {
            Ok(vs) => strs_of(vs@) == split_top(line@),
            Err(_) => false,
        },
{
    let cs = crate::text::str_to_chars(line);
    let toks = split_top_chars(cs.as_slice());
    let mut out: Vec<String> = Vec::new();
    let n = toks.len();
    let mut i: usize = 0;
    proof {
        assert(seqs_of(toks@).len() == n);
    }
    while i < n
        invariant
            i <= n,
            n == toks@.len(),
            seqs_of(toks@) == split_top(line@),
            out@.len() == i,
            forall|k: int| 0 <= k < i ==> (#[trigger] out@[k])@ == seqs_of(toks@)[k],
        decreases n - i,
    {
        let t = chars_to_string(&toks[i]);
        out.push(t);
        i = i + 1;
    }
    proof {
        assert(strs_of(out@) =~= split_top(line@));
    }
    Ok(out)
}

/// Splits an inline object body into its top-level comma-separated pair
/// tokens, dropping a trailing all-whitespace token. Never fails.
pub fn split_pairs(s: &str) -> (r: OrtResult<Vec<String>>)
    ensures
        r is Ok,
        match r {
            Ok(vs) => strs_of(vs@) == split_units(s@),
            Err(_) => false,
        },
{
    let cs = crate::text::str_to_chars(s);
    let toks = split_units_chars(cs.as_slice());
    let mut out: Vec<String> = Vec::new();
    let n = toks.len();
    let mut i: usize = 0;
    proof {
        assert(seqs_of(toks@).len() == n);
    }
    while i < n
        invariant
            i <= n,
            n == toks@.len(),
            seqs_of(toks@) == split_units(s@),
            out@.len() == i,
            forall|k: int| 0 <= k < i ==> (#[trigger] out@[k])@ == seqs_of(toks@)[k],
        decreases n - i,
    {
        let t = chars_to_string(&toks[i]);
        out.push(t);
        i = i + 1;
    }
    proof {
        assert(strs_of(out@) =~= split_units(s@));
    }
    Ok(out)
}

/// The mathematical shape of a parse error: its 1-based line, the verbatim
/// offending line, and the message.
pub struct ErrModel {
    pub line: int,
    pub code: Seq<char>,
    pub msg: Seq<char>,
}

/// The message for a data line whose token count misses the field count.
pub open spec fn msg_count(n: nat, m: nat) -> Seq<char> {
    "Expected "@ + crate::text::dec_of(n) + " values but got "@ + crate::text::dec_of(m)
}

/// The message for a nested tuple whose part count misses its sub-spec.
pub open spec fn msg_nested_count(n: nat, m: nat) -> Seq<char> {
    "Expected "@ + crate::text::dec_of(n) + " nested values but got "@ + crate::text::dec_of(m)
}

fn count_message(n: usize, m: usize, nested: bool) -> (r: String)
    ensures
        nested ==> r@ == msg_nested_count(n as nat, m as nat),
        !nested ==> r@ == msg_count(n as nat, m as nat),
{
    let mut v = crate::text::str_to_chars("Expected ");
    let dn = crate::text::usize_to_dec(n);
    crate::text::push_all(&mut v, dn.as_slice());
    let mid = if nested {
        crate::text::str_to_chars(" nested values but got ")
    } else {
        crate::text::str_to_chars(" values but got ")
    };
    proof {
        if nested {
            assert(" nested values but got "@ =~= seq![' '] + "nested values but got "@) by {
                reveal_strlit(" nested values but got ");
                reveal_strlit("nested values but got ");
            }
        }
    }
    crate::text::push_all(&mut v, mid.as_slice());
    let dm = crate::text::usize_to_dec(m);
    crate::text::push_all(&mut v, dm.as_slice());
    chars_to_string(&v)
}

/// How one token decodes against one field. A leaf field decodes it as a
/// value; a nested field reads nothing as null, `()` as the empty object, a
/// bracketed token as an array, a parenthesized tuple positionally against
/// the sub-spec, and anything else as a plain value. The error is a tuple
/// whose part count misses the sub-spec.
pub open spec fn spec_field_value(f: FieldModel, tok: Seq<char>) -> Result<ValModel, Seq<char>>
    decreases f, 0int,
{
    match f {
        FieldModel::Simple(_) => Result::Ok(spec_value(tok)),
        FieldModel::Nested(_, subs) => {
            let t = trimmed(tok);
            if t.len() == 0 {
                Result::Ok(ValModel::Null)
            } else if t == seq!['(', ')'] {
                Result::Ok(ValModel::Obj(Seq::empty()))
            } else if t[0] == '[' && t[t.len() - 1] == ']' {
                Result::Ok(spec_value(t))
            } else if !(t[0] == '(' && t[t.len() - 1] == ')') {
                Result::Ok(spec_value(t))
            } else {
                let inner = t.subrange(1, t.len() - 1);
                let vals = split_top(inner);
                if vals.len() != subs.len() {
                    Result::Err(msg_nested_count(subs.len(), vals.len()))
                } else {
                    match spec_fv_list(subs, vals, Seq::empty()) {
                        Result::Ok(entries) => Result::Ok(ValModel::Obj(entries)),
                        Result::Err(m) => Result::Err(m),
                    }
                }
            }
        },
    }
}

/// Decodes tokens against fields positionally, building entries with
/// keyed-insertion semantics; the first error wins.
pub open spec fn spec_fv_list(
    subs: Seq<FieldModel>,
    vals: Seq<Seq<char>>,
    acc: Seq<(Seq<char>, ValModel)>,
) -> Result<Seq<(Seq<char>, ValModel)>, Seq<char>>
    decreases subs, 1int,
{
    if subs.len() == 0 {
        Result::Ok(acc)
    } else {
        match spec_field_value(subs[0], vals[0]) {
            Result::Err(m) => Result::Err(m),
            Result::Ok(v) => spec_fv_list(
                subs.drop_first(),
                vals.drop_first(),
                upsert(acc, field_name(subs[0]), v),
            ),
        }
    }
}

/// Decodes one token against one field; the error text reports a nested
/// tuple whose part count misses the field's sub-spec.
pub fn parse_field_value(f: &Field, tok: &[char]) -> (r: Result<OrtValue, String>)
    ensures
        match r {
            Ok(v) => spec_field_value(f.model(), tok@) == Result::<ValModel, Seq<char>>::Ok(
                v.model(),
            ),
            Err(m) => spec_field_value(f.model(), tok@) == Result::<ValModel, Seq<char>>::Err(m@),
        },
    decreases f,
{
    match f {
        Field::Simple(_) => Ok(parse_value_chars(tok)),
        Field::Nested(_, subs) => {
            let t = trim_chars(tok);
            let tl = t.len();
            if tl == 0 {
                return Ok(OrtValue::Null);
            }
            if tl == 2 && t[0] == '(' && t[1] == ')' {
                assert(t@ =~= seq!['(', ')']);
                let empty_entries: Vec<(String, OrtValue)> = Vec::new();
                return Ok(OrtValue::Object(empty_entries));
            }
            assert(t@ != seq!['(', ')']) by {
                if t@.len() == 2 {
                }
            }
            if t[0] == '[' && t[tl - 1] == ']' {
                return Ok(parse_value_chars(t.as_slice()));
            }
            if !(t[0] == '(' && t[tl - 1] == ')') {
                return Ok(parse_value_chars(t.as_slice()));
            }
            let inner = subvec(t.as_slice(), 1, tl - 1);
            proof {
                assert(inner@ =~= t@.subrange(1, t@.len() - 1));
            }
            let vals = split_top_chars(inner.as_slice());
            proof {
                assert(seqs_of(vals@).len() == vals@.len());
            }
            if vals.len() != subs.len() {
                proof {
                    lemma_field_models_of(subs@);
                }
                return Err(count_message(subs.len(), vals.len(), true));
            }
            let ghost gsubs = field_models_of(subs@);
            let ghost gvals = seqs_of(vals@);
            proof {
                lemma_field_models_of(subs@);
            }
            let mut entries: Vec<(String, OrtValue)> = Vec::new();
            let n = subs.len();
            let mut j: usize = 0;
            proof {
                assert(gsubs.skip(0) =~= gsubs);
                assert(gvals.skip(0) =~= gvals);
                assert(entry_models_of(entries@) =~= Seq::<(Seq<char>, ValModel)>::empty());
            }
            #[verifier::loop_isolation(false)]
            while j < n
                invariant
                    j <= n,
                    n == subs@.len(),
                    n == vals@.len(),
                    gsubs == field_models_of(subs@),
                    gvals == seqs_of(vals@),
                    gsubs.len() == n,
                    gvals.len() == n,
                    forall|k: int| 0 <= k < n ==> gsubs[k] == (#[trigger] subs@[k]).model(),
                    forall|k: int| 0 <= k < n ==> gvals[k] == (#[trigger] vals@[k])@,
                    spec_fv_list(gsubs.skip(j as int), gvals.skip(j as int), entry_models_of(
                        entries@,
                    )) == spec_fv_list(gsubs, gvals, Seq::empty()),
                decreases n - j,
            {
                let ghost pre_acc = entry_models_of(entries@);
                proof {
                    assert(gsubs.skip(j as int)[0] == gsubs[j as int]);
                    assert(gvals.skip(j as int)[0] == gvals[j as int]);
                    assert(gsubs.skip(j as int).drop_first() =~= gsubs.skip(j + 1));
                    assert(gvals.skip(j as int).drop_first() =~= gvals.skip(j + 1));
                }
                match parse_field_value(&subs[j], vals[j].as_slice()) {
                    Ok(v) => {
                        let key = match &subs[j] {
                            Field::Simple(name) => name.clone(),
                            Field::Nested(name, _) => name.clone(),
                        };
                        proof {
                            assert(key@ == field_name(gsubs[j as int]));
                        }
                        obj_insert(&mut entries, key, v);
                    },
                    Err(m) => {
                        proof {
                            assert(spec_fv_list(gsubs, gvals, Seq::empty())
                                == Result::<Seq<(Seq<char>, ValModel)>, Seq<char>>::Err(m@));
                        }
                        return Err(m);
                    },
                }
                j = j + 1;
            }
            proof {
                assert(gsubs.skip(n as int) =~= Seq::<FieldModel>::empty());
            }
            Ok(OrtValue::Object(entries))
        },
    }
}

/// How many data lines follow position `i`: blank and comment lines are
/// passed over, and the run ends at the next line recognized as a header or
/// at the end of input.
pub open spec fn count_data(ls: Seq<Seq<char>>, i: int) -> int
    decreases ls.len() - i,
{
    if i < 0 || i >= ls.len() {
        0
    } else {
        let l = trimmed(ls[i]);
        if l.len() == 0 || l[0] == '#' {
            count_data(ls, i + 1)
        } else if colon_idx(l, 0) < l.len() && is_header_of(ls[i]) {
            0
        } else {
            1 + count_data(ls, i + 1)
        }
    }
}

/// The count is bounded by the lines that remain.
pub proof fn lemma_count_data_bounds(ls: Seq<Seq<char>>, i: int)
    requires
        0 <= i <= ls.len(),
    ensures
        0 <= count_data(ls, i) <= ls.len() - i,
    decreases ls.len() - i,
{
    if i < ls.len() {
        lemma_count_data_bounds(ls, i + 1);
    }
}

/// The rows a section's data lines decode to, read from position `i` while
/// `remaining` rows are owed: blank and comment lines are passed over; with
/// no fields the first data line's single value is the section's result;
/// otherwise each line must split into exactly one token per field.
pub open spec fn spec_data_lines(
    ls: Seq<Seq<char>>,
    i: int,
    fields: Seq<FieldModel>,
    remaining: int,
    rows: Seq<ValModel>,
) -> Result<ValModel, ErrModel>
    decreases ls.len() - i,
{
    if i < 0 || i >= ls.len() || remaining <= 0 {
        Result::Ok(ValModel::Arr(rows))
    } else {
        let l = trimmed(ls[i]);
        if l.len() == 0 || l[0] == '#' {
            spec_data_lines(ls, i + 1, fields, remaining, rows)
        } else if fields.len() == 0 {
            Result::Ok(spec_value(l))
        } else {
            let toks = split_top(l);
            if toks.len() != fields.len() {
                Result::Err(
                    ErrModel {
                        line: i + 1,
                        code: l,
                        msg: msg_count(fields.len(), toks.len()),
                    },
                )
            } else {
                match spec_fv_list(fields, toks, Seq::empty()) {
                    Result::Err(m) => Result::Err(ErrModel { line: i + 1, code: l, msg: m }),
                    Result::Ok(entries) => spec_data_lines(
                        ls,
                        i + 1,
                        fields,
                        remaining - 1,
                        rows.push(ValModel::Obj(entries)),
                    ),
                }
            }
        }
    }
}

/// Decodes the data lines that follow a header against its fields.
fn build_data_lines(
    lines: &Vec<Vec<char>>,
    start: usize,
    fields: &Vec<Field>,
    count: usize,
) -> (r: OrtResult<OrtValue>)
    requires
        start <= lines@.len(),
    ensures
        ({
            let sp = spec_data_lines(
                seqs_of(lines@),
                start as int,
                field_models_of(fields@),
                count as int,
                Seq::empty(),
            );
            match r {
                Ok(v) => sp == Result::<ValModel, ErrModel>::Ok(v.model()),
                Err(e) => match sp {
                    Result::Ok(_) => false,
                    Result::Err(em) => e.line == em.line && e.code@ == em.code && e.message@
                        == em.msg,
                },
            }
        }),
{
    let ghost gl = seqs_of(lines@);
    let ghost fm = field_models_of(fields@);
    proof {
        lemma_field_models_of(fields@);
        assert(gl.len() == lines@.len());
        assert(forall|k: int| 0 <= k < lines@.len() ==> gl[k] == (#[trigger] lines@[k])@);
    }
    let n = lines.len();
    let mut rows: Vec<OrtValue> = Vec::new();
    let mut i: usize = start;
    let mut processed: usize = 0;
    proof {
        assert(models_of(rows@) =~= Seq::<ValModel>::empty());
    }
    #[verifier::loop_isolation(false)]
    while i < n && processed < count
        invariant
            start <= i,
            i <= n,
            processed <= count,
            models_of(rows@).len() == rows@.len(),
            spec_data_lines(gl, i as int, fm, count - processed, models_of(rows@))
                == spec_data_lines(gl, start as int, fm, count as int, Seq::empty()),
        decreases n - i,
    {
        let l = trim_chars(lines[i].as_slice());
        let ll = l.len();
        if ll == 0 || l[0] == '#' {
            i = i + 1;
            continue;
        }
        if fields.len() == 0 {
            let v = parse_value_chars(l.as_slice());
            return Ok(v);
        }
        let toks = split_top_chars(l.as_slice());
        proof {
            assert(seqs_of(toks@).len() == toks@.len());
        }
        if toks.len() != fields.len() {
            let msg = count_message(fields.len(), toks.len(), false);
            let code = chars_to_string(&l);
            return Err(OrtError::new(i + 1, code, msg));
        }
        let ghost gtoks = seqs_of(toks@);
        let mut entries: Vec<(String, OrtValue)> = Vec::new();
        let fn_count = fields.len();
        let mut j: usize = 0;
        proof {
            assert(fm.skip(0) =~= fm);
            assert(gtoks.skip(0) =~= gtoks);
            assert(entry_models_of(entries@) =~= Seq::<(Seq<char>, ValModel)>::empty());
        }
        #[verifier::loop_isolation(false)]
        while j < fn_count
            invariant
                j <= fn_count,
                spec_fv_list(fm.skip(j as int), gtoks.skip(j as int), entry_models_of(entries@))
                    == spec_fv_list(fm, gtoks, Seq::empty()),
            decreases fn_count - j,
        {
            proof {
                assert(fm.skip(j as int)[0] == fm[j as int]);
                assert(gtoks.skip(j as int)[0] == gtoks[j as int]);
                assert(fm.skip(j as int).drop_first() =~= fm.skip(j + 1));
                assert(gtoks.skip(j as int).drop_first() =~= gtoks.skip(j + 1));
            }
            match parse_field_value(&fields[j], toks[j].as_slice()) {
                Ok(v) => {
                    let key = match &fields[j] {
                        Field::Simple(name) => name.clone(),
                        Field::Nested(name, _) => name.clone(),
                    };
                    proof {
                        assert(key@ == field_name(fm[j as int]));
                    }
                    obj_insert(&mut entries, key, v);
                },
                Err(m) => {
                    let code = chars_to_string(&l);
                    return Err(OrtError::new(i + 1, code, m));
                },
            }
            j = j + 1;
        }
        proof {
            assert(fm.skip(fn_count as int) =~= Seq::<FieldModel>::empty());
        }
        let ghost pre_rows = rows@;
        rows.push(OrtValue::Object(entries));
        proof {
            crate::ort_value::lemma_models_push(pre_rows, rows@.last());
            assert(rows@ =~= pre_rows.push(rows@.last()));
        }
        i = i + 1;
        processed = processed + 1;
    }
    Ok(OrtValue::Array(rows))
}

/// Counts the data lines that follow position `start`.
fn count_lines(lines: &Vec<Vec<char>>, start: usize) -> (r: usize)
    requires
        start <= lines@.len(),
    ensures
        r == count_data(seqs_of(lines@), start as int),
        r <= lines@.len() - start,
{
    let ghost gl = seqs_of(lines@);
    proof {
        lemma_count_data_bounds(gl, start as int);
        assert(gl.len() == lines@.len());
        assert(forall|k: int| 0 <= k < lines@.len() ==> gl[k] == (#[trigger] lines@[k])@);
    }
    let n = lines.len();
    let mut cnt: usize = 0;
    let mut j: usize = start;
    #[verifier::loop_isolation(false)]
    while j < n
        invariant
            start <= j <= n,
            cnt <= j - start,
            count_data(gl, start as int) == cnt + count_data(gl, j as int),
        decreases n - j,
    {
        let l = trim_chars(lines[j].as_slice());
        let ll = l.len();
        if ll == 0 || l[0] == '#' {
            j = j + 1;
            continue;
        }
        let p = find_colon(l.as_slice(), 0);
        if p < ll && ll > 0 && (l[0] == ':' || l[ll - 1] == ':') {
            return cnt;
        }
        proof {
            lemma_count_data_bounds(gl, j + 1);
        }
        cnt = cnt + 1;
        j = j + 1;
    }
    cnt
}

/// The first index at or after `i` holding a newline, or `s.len()`.
pub open spec fn nl_idx(s: Seq<char>, i: int) -> int
    decreases s.len() - i,
{
    if i < 0 || i >= s.len() {
        s.len() as int
    } else if s[i] == '\n' {
        i
    } else {
        nl_idx(s, i + 1)
    }
}

proof fn lemma_nl_idx_bounds(s: Seq<char>, i: int)
    requires
        0 <= i <= s.len(),
    ensures
        i <= nl_idx(s, i) <= s.len(),
    decreases s.len() - i,
{
    if i < s.len() && s[i] != '\n' {
        lemma_nl_idx_bounds(s, i + 1);
    }
}

/// A line with a carriage return dropped from its end, for line endings
/// written as a carriage return and a newline.
pub open spec fn strip_cr(l: Seq<char>) -> Seq<char> {
    if l.len() > 0 && l[l.len() - 1] == '\r' {
        l.drop_last()
    } else {
        l
    }
}

/// The lines of the text from position `pos`: pieces between newlines, each
/// with a trailing carriage return dropped; a final line ending yields no
/// empty last line.
pub open spec fn lines_rec(s: Seq<char>, pos: int) -> Seq<Seq<char>>
    decreases s.len() - pos, 0int,
        via lines_rec_dec
{
    if pos < 0 || pos >= s.len() {
        Seq::empty()
    } else {
        let p = nl_idx(s, pos);
        if p >= s.len() {
            seq![strip_cr(s.subrange(pos, s.len() as int))]
        } else {
            seq![strip_cr(s.subrange(pos, p))] + lines_rec(s, p + 1)
        }
    }
}

#[via_fn]
proof fn lines_rec_dec(s: Seq<char>, pos: int) {
    if 0 <= pos < s.len() {
        lemma_nl_idx_bounds(s, pos);
    }
}

/// The lines of the whole text.
pub open spec fn lines_of(s: Seq<char>) -> Seq<Seq<char>> {
    lines_rec(s, 0)
}

fn find_nl(s: &[char], from: usize) -> (r: usize)
    requires
        from <= s@.len(),
    ensures
        r == nl_idx(s@, from as int),
        from <= r <= s@.len(),
        r < s@.len() ==> s@[r as int] == '\n',
{
    let n = s.len();
    let mut i: usize = from;
    while i < n
        invariant
            from <= i <= n,
            n == s@.len(),
            nl_idx(s@, from as int) == nl_idx(s@, i as int),
        decreases n - i,
    {
        if s[i] == '\n' {
            return i;
        }
        i = i + 1;
    }
    n
}

/// Splits the text into its lines.
fn split_lines(s: &[char]) -> (r: Vec<Vec<char>>)
    ensures
        seqs_of(r@) == lines_of(s@),
{
    let n = s.len();
    let mut acc: Vec<Vec<char>> = Vec::new();
    let mut pos: usize = 0;
    proof {
        assert(seqs_of(acc@) =~= Seq::<Seq<char>>::empty());
        assert(seqs_of(acc@) + lines_rec(s@, 0) =~= lines_of(s@));
    }
    #[verifier::loop_isolation(false)]
    while pos < n
        invariant
            pos <= n,
            seqs_of(acc@) + lines_rec(s@, pos as int) =~= lines_of(s@),
        decreases n - pos,
    {
        let p = find_nl(s, pos);
        let mut line = subvec(s, pos, p);
        if line.len() > 0 && line[line.len() - 1] == '\r' {
            let _ = line.pop();
        }
        proof {
            assert(line@ =~= strip_cr(s@.subrange(pos as int, p as int)));
        }
        let ghost pre = acc@;
        let ghost lv = line@;
        acc.push(line);
        proof {
            assert(seqs_of(acc@) =~= seqs_of(pre).push(lv));
            if p >= n {
                assert(lines_rec(s@, pos as int) =~= seq![lv]);
                assert(seqs_of(acc@) + lines_rec(s@, n as int) =~= lines_of(s@));
            } else {
                assert(lines_rec(s@, pos as int) =~= seq![lv] + lines_rec(s@, p + 1));
                assert(seqs_of(acc@) + lines_rec(s@, p + 1) =~= lines_of(s@));
            }
        }
        if p >= n {
            pos = n;
        } else {
            pos = p + 1;
        }
    }
    proof {
        assert(lines_rec(s@, n as int) =~= Seq::<Seq<char>>::empty());
        assert(seqs_of(acc@) =~= lines_of(s@));
    }
    acc
}

/// The value a whole document parses to, read from line `i` with the named
/// sections decoded so far: blank, comment and headerless lines are passed
/// over; a named section is inserted under its key; an anonymous section's
/// value is the document's result at once, a single-row anonymous section
/// unwrapping to its one record.
pub open spec fn spec_doc(
    ls: Seq<Seq<char>>,
    i: int,
    acc: Seq<(Seq<char>, ValModel)>,
) -> Result<ValModel, ErrModel>
    decreases ls.len() - i, 0int,
        via spec_doc_dec
{
    if i < 0 || i >= ls.len() {
        Result::Ok(ValModel::Obj(acc))
    } else {
        let l = trimmed(ls[i]);
        if l.len() == 0 || l[0] == '#' {
            spec_doc(ls, i + 1, acc)
        } else if colon_idx(l, 0) < l.len() {
            if !header_ok(l) {
                Result::Err(ErrModel { line: i + 1, code: l, msg: "Invalid header format"@ })
            } else {
                match spec_fields(header_fields(l)) {
                    Option::None => Result::Err(
                        ErrModel {
                            line: i + 1,
                            code: l,
                            msg: "Unmatched closing parenthesis"@,
                        },
                    ),
                    Option::Some(fields) => {
                        let cnt = count_data(ls, i + 1);
                        match spec_data_lines(ls, i + 1, fields, cnt, Seq::empty()) {
                            Result::Err(e) => Result::Err(e),
                            Result::Ok(vals) => match header_key(l) {
                                Option::Some(k) => spec_doc(ls, i + cnt + 1, upsert(acc, k, vals)),
                                Option::None => {
                                    if fields.len() > 0 && cnt == 1 && vals is Arr
                                        && vals->Arr_0.len() == 1 {
                                        Result::Ok(vals->Arr_0[0])
                                    } else {
                                        Result::Ok(vals)
                                    }
                                },
                            },
                        }
                    },
                }
            }
        } else {
            spec_doc(ls, i + 1, acc)
        }
    }
}

#[via_fn]
proof fn spec_doc_dec(ls: Seq<Seq<char>>, i: int, acc: Seq<(Seq<char>, ValModel)>) {
    if 0 <= i < ls.len() {
        lemma_count_data_bounds(ls, i + 1);
    }
}

/// The value the document text parses to, or its first error.
pub open spec fn spec_parse(t: Seq<char>) -> Result<ValModel, ErrModel> {
    spec_doc(lines_of(t), 0, Seq::empty())
}

/// Parses a whole ORT document. The result is the object of its named
/// sections, or an anonymous section's value directly; the error carries
/// the 1-based line number, the offending line and a message.
pub fn parse_ort(content: &str) -> (r: OrtResult<OrtValue>)
    ensures
        ({
            let sp = spec_parse(content@);
            match r {
                Ok(v) => sp == Result::<ValModel, ErrModel>::Ok(v.model()) && crate::ort_value::wf(
                    v.model(),
                ),
                Err(e) => match sp {
                    Result::Ok(_) => false,
                    Result::Err(em) => e.line == em.line && e.code@ == em.code && e.message@
                        == em.msg,
                },
            }
        }),
{
    proof {
        lemma_spec_parse_wf(content@);
    }
    let cs = crate::text::str_to_chars(content);
    let lines = split_lines(cs.as_slice());
    let ghost gl = seqs_of(lines@);
    proof {
        assert(gl.len() == lines@.len());
        assert(forall|k: int| 0 <= k < lines@.len() ==> gl[k] == (#[trigger] lines@[k])@);
    }
    let n = lines.len();
    let mut result: Vec<(String, OrtValue)> = Vec::new();
    let mut li: usize = 0;
    proof {
        assert(entry_models_of(result@) =~= Seq::<(Seq<char>, ValModel)>::empty());
    }
    #[verifier::loop_isolation(false)]
    while li < n
        invariant
            li <= n,
            spec_doc(gl, li as int, entry_models_of(result@)) == spec_doc(gl, 0, Seq::empty()),
        decreases n - li,
    {
        let l = trim_chars(lines[li].as_slice());
        let ll = l.len();
        if ll == 0 || l[0] == '#' {
            li = li + 1;
            continue;
        }
        let p = find_colon(l.as_slice(), 0);
        if p == ll {
            li = li + 1;
            continue;
        }
        // A section starts here.
        let lstr = chars_to_string(&l);
        let header = parse_header(lstr.as_str(), li + 1);
        match header {
            Err(e) => {
                return Err(e);
            },
            Ok((key_opt, fields_str)) => {
                match parse_fields(fields_str.as_str(), lstr.as_str(), li + 1) {
                    Err(e) => {
                        return Err(e);
                    },
                    Ok(fields) => {
                        let cnt = count_lines(&lines, li + 1);
                        match build_data_lines(&lines, li + 1, &fields, cnt) {
                            Err(e) => {
                                return Err(e);
                            },
                            Ok(vals) => {
                                match key_opt {
                                    Some(k) => {
                                        obj_insert(&mut result, k, vals);
                                        li = li + cnt + 1;
                                    },
                                    None => {
                                        if fields.len() > 0 && cnt == 1 {
                                            if let OrtValue::Array(mut arr) = vals {
                                                proof {
                                                    crate::ort_value::lemma_models_of(arr@);
                                                }
                                                if arr.len() == 1 {
                                                    let one = arr.pop().unwrap();
                                                    return Ok(one);
                                                }
                                                return Ok(OrtValue::Array(arr));
                                            } else {
                                                return Ok(vals);
                                            }
                                        }
                                        return Ok(vals);
                                    },
                                }
                            },
                        }
                    },
                }
            },
        }
    }
    Ok(OrtValue::Object(result))
}

/// The character sequences of a run of string slices.
pub open spec fn strs_ref_of(ls: Seq<&str>) -> Seq<Seq<char>> {
    ls.map_values(|l: &str| l@)
}

/// Reads the section that starts at `start_idx`: its optional key, its
/// fields, and how many data lines follow before the next header.
pub fn parse_section(lines: &[&str], start_idx: usize) -> (r: OrtResult<
    (Option<String>, Vec<Field>, usize),
>)
    requires
        start_idx < lines@.len(),
    ensures
        ({
            let l = trimmed(lines@[start_idx as int]@);
            match r {
                Ok(kfc) => {
                    &&& header_ok(l)
                    &&& opt_str_model(kfc.0) == header_key(l)
                    &&& spec_fields(header_fields(l)) == Some(field_models_of(kfc.1@))
                    &&& kfc.2 == count_data(strs_ref_of(lines@), start_idx + 1)
                },
                Err(e) => {
                    &&& e.line == start_idx + 1
                    &&& e.code@ == l
                    &&& (!header_ok(l) && e.message@ == "Invalid header format"@ || header_ok(l)
                        && spec_fields(header_fields(l)) is None && e.message@
                        == "Unmatched closing parenthesis"@)
                },
            }
        }),
{
    let mut cl: Vec<Vec<char>> = Vec::new();
    let n = lines.len();
    let mut i: usize = 0;
    while i < n
        invariant
            i <= n,
            n == lines@.len(),
            cl@.len() == i,
            forall|k: int| 0 <= k < i ==> (#[trigger] cl@[k])@ == lines@[k]@,
        decreases n - i,
    {
        cl.push(crate::text::str_to_chars(lines[i]));
        i = i + 1;
    }
    proof {
        assert(seqs_of(cl@) =~= strs_ref_of(lines@));
    }
    let t = trim_chars(cl[start_idx].as_slice());
    let lstr = chars_to_string(&t);
    let (key_opt, fields_str) = match parse_header(lstr.as_str(), start_idx + 1) {
        Ok(kf) => kf,
        Err(e) => {
            return Err(e);
        },
    };
    let fields = match parse_fields(fields_str.as_str(), lstr.as_str(), start_idx + 1) {
        Ok(fs) => fs,
        Err(e) => {
            return Err(e);
        },
    };
    let cnt = count_lines(&cl, start_idx + 1);
    Ok((key_opt, fields, cnt))
}

/// Every value the token grammar yields is well-formed: numeric nodes hold
/// numeric literals and object keys stay distinct.
pub proof fn lemma_spec_value_wf(s: Seq<char>)
    ensures
        crate::ort_value::wf(spec_value(s)),
    decreases s.len(), 0int, 0int,
{
    lemma_trimmed_le(s);
    let t = trimmed(s);
    if t.len() == 0 {
    } else if t.len() >= 2 && t[0] == '[' && t[t.len() - 1] == ']' {
        let inner = t.subrange(1, t.len() - 1);
        if trimmed(inner).len() > 0 {
            lemma_split_units_bound(inner);
            lemma_spec_elems_wf(split_units(inner), inner.len() as int);
            let es = spec_elems(split_units(inner), inner.len() as int);
            assert(spec_value(s) == ValModel::Arr(es));
            assert forall|k: int| 0 <= k < es.len() implies crate::ort_value::wf(
                #[trigger] es[k],
            ) by {
                assert(es[k] == spec_elems(split_units(inner), inner.len() as int)[k]);
            }
            assert(crate::ort_value::wf(ValModel::Arr(es)));
        }
    } else if t.len() >= 2 && t[0] == '(' && t[t.len() - 1] == ')' {
        let inner = t.subrange(1, t.len() - 1);
        if trimmed(inner).len() > 0 {
            lemma_split_units_bound(inner);
            lemma_spec_pairs_wf(split_units(inner), inner.len() as int, Seq::empty());
            let en = spec_pairs(split_units(inner), inner.len() as int, Seq::empty());
            assert(spec_value(s) == ValModel::Obj(en));
            assert forall|k: int| 0 <= k < en.len() implies crate::ort_value::wf(
                (#[trigger] en[k]).1,
            ) by {
                assert(en[k] == spec_pairs(split_units(inner), inner.len() as int, Seq::empty())[k]);
            }
            assert(crate::ort_value::wf(ValModel::Obj(en)));
        }
    } else {
    }
}

/// Every element an array literal's tokens yield is well-formed.
pub proof fn lemma_spec_elems_wf(toks: Seq<Seq<char>>, bound: int)
    ensures
        forall|k: int|
            0 <= k < spec_elems(toks, bound).len() ==> crate::ort_value::wf(
                #[trigger] spec_elems(toks, bound)[k],
            ),
    decreases bound, 1int, toks.len(),
{
    if toks.len() == 0 || bound < 0 {
    } else {
        let tok = toks[0];
        if tok.len() <= bound {
            lemma_spec_value_wf(tok);
        }
        lemma_spec_elems_wf(toks.drop_first(), bound);
        assert forall|k: int|
            0 <= k < spec_elems(toks, bound).len() implies crate::ort_value::wf(
            #[trigger] spec_elems(toks, bound)[k],
        ) by {
            if k > 0 {
                assert(spec_elems(toks, bound)[k] == spec_elems(toks.drop_first(), bound)[k - 1]);
            }
        }
    }
}

/// Whether every value of an entry run is well-formed.
pub open spec fn entries_wf(en: Seq<(Seq<char>, ValModel)>) -> bool {
    forall|k: int| 0 <= k < en.len() ==> crate::ort_value::wf((#[trigger] en[k]).1)
}

/// Keyed insertion of a well-formed value keeps every value well-formed.
pub proof fn lemma_upsert_wf(en: Seq<(Seq<char>, ValModel)>, k: Seq<char>, v: ValModel)
    requires
        entries_wf(en),
        crate::ort_value::wf(v),
    ensures
        entries_wf(upsert(en, k, v)),
{
    crate::ort_value::lemma_key_idx(en, k);
    let r = upsert(en, k, v);
    assert forall|j: int| 0 <= j < r.len() implies crate::ort_value::wf((#[trigger] r[j]).1) by {
        if j < en.len() && r[j] == en[j] {
        }
    }
}

/// The entries an inline object literal's tokens build are well-formed.
pub proof fn lemma_spec_pairs_wf(toks: Seq<Seq<char>>, bound: int, acc: Seq<(Seq<char>, ValModel)>)
    requires
        crate::ort_value::keys_unique(acc),
        entries_wf(acc),
    ensures
        crate::ort_value::keys_unique(spec_pairs(toks, bound, acc)),
        entries_wf(spec_pairs(toks, bound, acc)),
    decreases bound, 1int, toks.len(),
{
    if toks.len() == 0 || bound < 0 {
    } else {
        let pair = toks[0];
        let rest = toks.drop_first();
        let p = colon_idx(pair, 0);
        if p == pair.len() {
            lemma_spec_pairs_wf(rest, bound, acc);
        } else {
            lemma_colon_idx_bounds(pair, 0);
            let k = trimmed(pair.take(p));
            let v = if pair.len() <= bound {
                spec_value(pair.skip(p + 1))
            } else {
                ValModel::Null
            };
            if pair.len() <= bound {
                lemma_spec_value_wf(pair.skip(p + 1));
            }
            crate::ort_value::lemma_upsert_unique(acc, k, v);
            lemma_upsert_wf(acc, k, v);
            lemma_spec_pairs_wf(rest, bound, upsert(acc, k, v));
        }
    }
}

/// Every value one token yields against one field is well-formed.
pub proof fn lemma_spec_field_value_wf(f: FieldModel, tok: Seq<char>)
    ensures
        spec_field_value(f, tok) matches Result::Ok(v) ==> crate::ort_value::wf(v),
    decreases f, 0int,
{
    match f {
        FieldModel::Simple(_) => {
            lemma_spec_value_wf(tok);
        },
        FieldModel::Nested(_, subs) => {
            let t = trimmed(tok);
            if t.len() == 0 {
            } else if t == seq!['(', ')'] {
            } else if t[0] == '[' && t[t.len() - 1] == ']' {
                lemma_spec_value_wf(t);
                lemma_trimmed_idem(tok);
            } else if !(t[0] == '(' && t[t.len() - 1] == ')') {
                lemma_spec_value_wf(t);
                lemma_trimmed_idem(tok);
            } else {
                let inner = t.subrange(1, t.len() - 1);
                let vals = split_top(inner);
                if vals.len() == subs.len() {
                    lemma_spec_fv_list_wf(subs, vals, Seq::empty());
                }
            }
        },
    }
}

/// Trimming is idempotent: parsing a token trims it once more without
/// changing it.
proof fn lemma_trimmed_idem(s: Seq<char>)
    ensures
        spec_value(trimmed(s)) == spec_value(s),
{
    lemma_trim_idem_parts(s);
}

proof fn lemma_trim_idem_parts(s: Seq<char>)
    ensures
        trimmed(trimmed(s)) == trimmed(s),
{
    lemma_trim_front_no_lead(s);
    let f = crate::text::trim_front(s);
    lemma_trim_back_no_trail(f);
    let t = crate::text::trim_back(f);
    assert(t.len() > 0 ==> !crate::text::is_space(t[0])) by {
        lemma_trim_back_keeps_head(f);
    }
    assert(crate::text::trim_front(t) == t);
    assert(crate::text::trim_back(t) == t);
}

proof fn lemma_trim_front_no_lead(s: Seq<char>)
    ensures
        crate::text::trim_front(s).len() > 0 ==> !crate::text::is_space(
            crate::text::trim_front(s)[0],
        ),
    decreases s.len(),
{
    if s.len() > 0 && crate::text::is_space(s[0]) {
        lemma_trim_front_no_lead(s.drop_first());
    }
}

proof fn lemma_trim_back_no_trail(s: Seq<char>)
    ensures
        crate::text::trim_back(s).len() > 0 ==> !crate::text::is_space(
            crate::text::trim_back(s)[crate::text::trim_back(s).len() - 1],
        ),
    decreases s.len(),
{
    if s.len() > 0 && crate::text::is_space(s[s.len() - 1]) {
        lemma_trim_back_no_trail(s.drop_last());
    }
}

proof fn lemma_trim_back_keeps_head(s: Seq<char>)
    ensures
        crate::text::trim_back(s).len() > 0 ==> crate::text::trim_back(s)[0] == s[0],
    decreases s.len(),
{
    if s.len() > 0 && crate::text::is_space(s[s.len() - 1]) {
        lemma_trim_back_keeps_head(s.drop_last());
    }
}

/// Every row object a field list builds is well-formed.
pub proof fn lemma_spec_fv_list_wf(
    subs: Seq<FieldModel>,
    vals: Seq<Seq<char>>,
    acc: Seq<(Seq<char>, ValModel)>,
)
    requires
        crate::ort_value::keys_unique(acc),
        entries_wf(acc),
    ensures
        spec_fv_list(subs, vals, acc) matches Result::Ok(en) ==> crate::ort_value::keys_unique(en)
            && entries_wf(en),
    decreases subs, 1int,
{
    if subs.len() == 0 {
    } else {
        match spec_field_value(subs[0], vals[0]) {
            Result::Err(_) => {},
            Result::Ok(v) => {
                lemma_spec_field_value_wf(subs[0], vals[0]);
                let k = field_name(subs[0]);
                crate::ort_value::lemma_upsert_unique(acc, k, v);
                lemma_upsert_wf(acc, k, v);
                lemma_spec_fv_list_wf(subs.drop_first(), vals.drop_first(), upsert(acc, k, v));
            },
        }
    }
}

/// Every value a section's data lines yield is well-formed.
pub proof fn lemma_spec_data_lines_wf(
    ls: Seq<Seq<char>>,
    i: int,
    fields: Seq<FieldModel>,
    remaining: int,
    rows: Seq<ValModel>,
)
    requires
        forall|k: int| 0 <= k < rows.len() ==> crate::ort_value::wf(#[trigger] rows[k]),
    ensures
        spec_data_lines(ls, i, fields, remaining, rows) matches Result::Ok(v)
            ==> crate::ort_value::wf(v),
    decreases ls.len() - i,
{
    if i < 0 || i >= ls.len() || remaining <= 0 {
    } else {
        let l = trimmed(ls[i]);
        if l.len() == 0 || l[0] == '#' {
            lemma_spec_data_lines_wf(ls, i + 1, fields, remaining, rows);
        } else if fields.len() == 0 {
            lemma_spec_value_wf(l);
            lemma_trimmed_idem(ls[i]);
        } else {
            let toks = split_top(l);
            if toks.len() == fields.len() {
                match spec_fv_list(fields, toks, Seq::empty()) {
                    Result::Err(_) => {},
                    Result::Ok(entries) => {
                        lemma_spec_fv_list_wf(fields, toks, Seq::empty());
                        let rows2 = rows.push(ValModel::Obj(entries));
                        assert(forall|k: int|
                            0 <= k < rows2.len() ==> crate::ort_value::wf(#[trigger] rows2[k]));
                        lemma_spec_data_lines_wf(ls, i + 1, fields, remaining - 1, rows2);
                    },
                }
            }
        }
    }
}

/// Every value a document parses to is well-formed.
pub proof fn lemma_spec_doc_wf(ls: Seq<Seq<char>>, i: int, acc: Seq<(Seq<char>, ValModel)>)
    requires
        crate::ort_value::keys_unique(acc),
        entries_wf(acc),
    ensures
        spec_doc(ls, i, acc) matches Result::Ok(v) ==> crate::ort_value::wf(v),
    decreases ls.len() - i, 0int,
{
    if i < 0 || i >= ls.len() {
    } else {
        lemma_count_data_bounds(ls, i + 1);
        let l = trimmed(ls[i]);
        if l.len() == 0 || l[0] == '#' {
            lemma_spec_doc_wf(ls, i + 1, acc);
        } else if colon_idx(l, 0) < l.len() {
            if header_ok(l) {
                match spec_fields(header_fields(l)) {
                    Option::None => {},
                    Option::Some(fields) => {
                        let cnt = count_data(ls, i + 1);
                        match spec_data_lines(ls, i + 1, fields, cnt, Seq::empty()) {
                            Result::Err(_) => {},
                            Result::Ok(vals) => {
                                lemma_spec_data_lines_wf(ls, i + 1, fields, cnt, Seq::empty());
                                match header_key(l) {
                                    Option::Some(k) => {
                                        crate::ort_value::lemma_upsert_unique(acc, k, vals);
                                        lemma_upsert_wf(acc, k, vals);
                                        lemma_spec_doc_wf(ls, i + cnt + 1, upsert(acc, k, vals));
                                    },
                                    Option::None => {},
                                }
                            },
                        }
                    },
                }
            }
        } else {
            lemma_spec_doc_wf(ls, i + 1, acc);
        }
    }
}

/// Parsing only builds well-formed trees: numeric nodes hold numeric
/// literals and every object's keys are distinct.
pub proof fn lemma_spec_parse_wf(t: Seq<char>)
    ensures
        spec_parse(t) matches Result::Ok(v) ==> crate::ort_value::wf(v),
{
    lemma_spec_doc_wf(lines_of(t), 0, Seq::empty());
}

} // verus!
