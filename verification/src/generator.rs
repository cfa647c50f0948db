//! The generator from a value tree to ORT text. It decides, from shape
//! alone, whether a substructure renders as a tabular section, an inline
//! literal, or a nested-field block; the decisions are deterministic so that
//! identical trees always yield identical text. Pure and total: every value
//! tree renders.
use vstd::prelude::*;
use crate::escape::{escd, escape_chars};
use crate::ort_value::{OrtValue, ValModel, models_of, entry_models_of, lemma_models_of,
    lemma_entry_models_of, keys_of, key_set_of};
use crate::text::{trim_back, push_all, str_to_chars, chars_to_string};

verus! {

broadcast use vstd::std_specs::vec::group_vec_axioms, vstd::seq::group_seq_axioms;

/// The inline literal of a value: nothing for null, the boolean or numeric
/// spelling, the escaped text, or a bracketed/parenthesized literal.
pub open spec fn lit_of(m: ValModel) -> Seq<char>
    decreases m, 0int,
{
    match m {
        ValModel::Null => Seq::empty(),
        ValModel::Bool(b) => if b {
            seq!['t', 'r', 'u', 'e']
        } else {
            seq!['f', 'a', 'l', 's', 'e']
        },
        ValModel::Number(t) => t,
        ValModel::Text(s) => escd(s),
        ValModel::Arr(es) => if es.len() == 0 {
            seq!['[', ']']
        } else {
            seq!['['] + lits_join(es) + seq![']']
        },
        ValModel::Obj(en) => if en.len() == 0 {
            seq!['(', ')']
        } else {
            seq!['('] + pairs_join(en) + seq![')']
        },
    }
}

/// The comma-joined inline literals of a run of values.
pub open spec fn lits_join(es: Seq<ValModel>) -> Seq<char>
    decreases es, 1int,
{
    if es.len() == 0 {
        Seq::empty()
    } else if es.len() == 1 {
        lit_of(es[0])
    } else {
        lit_of(es[0]) + seq![','] + lits_join(es.drop_first())
    }
}

/// The comma-joined `key:value` pairs of an inline object literal.
pub open spec fn pairs_join(en: Seq<(Seq<char>, ValModel)>) -> Seq<char>
    decreases en, 1int,
{
    if en.len() == 0 {
        Seq::empty()
    } else if en.len() == 1 {
        en[0].0 + seq![':'] + lit_of(en[0].1)
    } else {
        en[0].0 + seq![':'] + lit_of(en[0].1) + seq![','] + pairs_join(en.drop_first())
    }
}

/// Renders the inline literal of `v` onto `out`.
pub fn write_value(out: &mut Vec<char>, v: &OrtValue)
    ensures
        final(out)@ == old(out)@ + lit_of(v.model()),
    decreases v,
{
    match v {
        OrtValue::Null => {
            assert(old(out)@ + lit_of(v.model()) =~= old(out)@);
        },
        OrtValue::Bool(b) => {
            if *b {
                out.push('t');
                out.push('r');
                out.push('u');
                out.push('e');
                assert(out@ =~= old(out)@ + lit_of(v.model()));
            } else {
                out.push('f');
                out.push('a');
                out.push('l');
                out.push('s');
                out.push('e');
                assert(out@ =~= old(out)@ + lit_of(v.model()));
            }
        },
        OrtValue::Number(t) => {
            let tc = str_to_chars(t.as_str());
            push_all(out, tc.as_slice());
        },
        OrtValue::String(s) => {
            let sc = str_to_chars(s.as_str());
            let esc = escape_chars(sc.as_slice());
            push_all(out, esc.as_slice());
        },
        OrtValue::Array(arr) => {
            proof {
                lemma_models_of(arr@);
            }
            out.push('[');
            if arr.len() > 0 {
                let ghost es = models_of(arr@);
                let ghost base = out@;
                let n = arr.len();
                let mut i: usize = 0;
                proof {
                    assert(es.skip(0) =~= es);
                }
                #[verifier::loop_isolation(false)]
                while i < n
                    invariant
                        0 < n,
                        i <= n,
                        i < n ==> out@ + lits_join(es.skip(i as int)) =~= base + lits_join(es),
                        i == n ==> out@ =~= base + lits_join(es),
                    decreases n - i,
                {
                    proof {
                        assert(es.skip(i as int)[0] == es[i as int]);
                        assert(es.skip(i as int).drop_first() =~= es.skip(i + 1));
                    }
                    write_value(out, &arr[i]);
                    if i + 1 < n {
                        out.push(',');
                    }
                    i = i + 1;
                }
            }
            out.push(']');
            assert(out@ =~= old(out)@ + lit_of(v.model()));
        },
        OrtValue::Object(entries) => {
            proof {
                lemma_entry_models_of(entries@);
            }
            out.push('(');
            if entries.len() > 0 {
                let ghost en = entry_models_of(entries@);
                let ghost base = out@;
                let n = entries.len();
                let mut i: usize = 0;
                proof {
                    assert(en.skip(0) =~= en);
                }
                #[verifier::loop_isolation(false)]
                while i < n
                    invariant
                        0 < n,
                        i <= n,
                        i < n ==> out@ + pairs_join(en.skip(i as int)) =~= base + pairs_join(en),
                        i == n ==> out@ =~= base + pairs_join(en),
                    decreases n - i,
                {
                    proof {
                        assert(en.skip(i as int)[0] == en[i as int]);
                        assert(en.skip(i as int).drop_first() =~= en.skip(i + 1));
                    }
                    let kc = str_to_chars(entries[i].0.as_str());
                    push_all(out, kc.as_slice());
                    out.push(':');
                    write_value(out, &entries[i].1);
                    if i + 1 < n {
                        out.push(',');
                    }
                    i = i + 1;
                }
            }
            out.push(')');
            assert(out@ =~= old(out)@ + lit_of(v.model()));
        },
    }
}

/// The value an entry list binds `k` to: the first entry holding it.
pub open spec fn assoc_get(en: Seq<(Seq<char>, ValModel)>, k: Seq<char>) -> Option<ValModel> {
    let i = crate::ort_value::key_idx(en, k);
    if i < en.len() {
        Option::Some(en[i].1)
    } else {
        Option::None
    }
}

/// A tabular cell: like the inline literal, but a cell that is itself an
/// object renders its values alone, comma-joined in parentheses, since the
/// header already names the keys.
pub open spec fn cell_of(m: ValModel) -> Seq<char>
    decreases m, 0int,
{
    match m {
        ValModel::Obj(en) => if en.len() == 0 {
            seq!['(', ')']
        } else {
            seq!['('] + cells_join(en) + seq![')']
        },
        _ => lit_of(m),
    }
}

/// The comma-joined cells of a nested object's entries, values alone.
pub open spec fn cells_join(en: Seq<(Seq<char>, ValModel)>) -> Seq<char>
    decreases en, 1int,
{
    if en.len() == 0 {
        Seq::empty()
    } else if en.len() == 1 {
        cell_of(en[0].1)
    } else {
        cell_of(en[0].1) + seq![','] + cells_join(en.drop_first())
    }
}

/// One data row: the cells for `keys`, in header order, looked up in the
/// row's own entries; a missing key renders as the null cell.
pub open spec fn row_of(keys: Seq<Seq<char>>, en: Seq<(Seq<char>, ValModel)>) -> Seq<char>
    decreases keys.len(),
{
    if keys.len() == 0 {
        Seq::empty()
    } else {
        let cell = match assoc_get(en, keys[0]) {
            Option::Some(v) => cell_of(v),
            Option::None => Seq::empty(),
        };
        if keys.len() == 1 {
            cell
        } else {
            cell + seq![','] + row_of(keys.drop_first(), en)
        }
    }
}

/// The comma-joined header columns of the first row's entries, each column
/// expanded to `name(subcolumns)` when its value is itself an object,
/// recursively to any depth.
pub open spec fn hdr_join(en: Seq<(Seq<char>, ValModel)>) -> Seq<char>
    decreases en, 0int,
        via hdr_join_dec
{
    if en.len() == 0 {
        Seq::empty()
    } else {
        let col = match en[0].1 {
            ValModel::Obj(nen) => en[0].0 + seq!['('] + hdr_join(nen) + seq![')'],
            _ => en[0].0,
        };
        if en.len() == 1 {
            col
        } else {
            col + seq![','] + hdr_join(en.drop_first())
        }
    }
}

#[via_fn]
proof fn hdr_join_dec(en: Seq<(Seq<char>, ValModel)>) {
    if en.len() > 0 {
        assert(decreases_to!(en => en[0]));
        assert(decreases_to!(en[0] => en[0].1));
    }
}

/// The rows of a tabular section: one line per object element, in order;
/// an element that is not an object yields no row.
pub open spec fn rows_of(keys: Seq<Seq<char>>, es: Seq<ValModel>) -> Seq<Seq<char>>
    decreases es.len(),
{
    if es.len() == 0 {
        Seq::empty()
    } else {
        let head: Seq<Seq<char>> = match es[0] {
            ValModel::Obj(en) => seq![row_of(keys, en)],
            _ => Seq::empty(),
        };
        head + rows_of(keys, es.drop_first())
    }
}

/// Lines joined by single newlines, with none at the end.
pub open spec fn join_nl(ss: Seq<Seq<char>>) -> Seq<char>
    decreases ss.len(),
{
    if ss.len() == 0 {
        Seq::empty()
    } else if ss.len() == 1 {
        ss[0]
    } else {
        ss[0] + seq!['\n'] + join_nl(ss.drop_first())
    }
}

/// Whether an array is uniform: non-empty, every element an object, and
/// every element's key set, and key count, equal to the first element's.
pub open spec fn is_uniform(es: Seq<ValModel>) -> bool {
    &&& es.len() > 0
    &&& forall|i: int| 0 <= i < es.len() ==> (#[trigger] es[i]) is Obj
    &&& forall|i: int|
        0 <= i < es.len() ==> key_set_of((#[trigger] es[i])->Obj_0) == key_set_of(es[0]->Obj_0)
            && keys_of(es[i]->Obj_0).len() == keys_of(es[0]->Obj_0).len()
}

/// A named tabular or array section for `key`: a tabular block when the
/// first element is an object, the bare empty array, or an inline array
/// literal.
pub open spec fn gen_object_array(key: Seq<char>, es: Seq<ValModel>) -> Seq<char> {
    if es.len() == 0 {
        key + seq![':', '\n', '[', ']']
    } else if es[0] is Obj {
        let en0 = es[0]->Obj_0;
        let header = key + seq![':'] + hdr_join(en0) + seq![':'];
        join_nl(seq![header] + rows_of(keys_of(en0), es))
    } else {
        key + seq![':', '\n'] + lit_of(ValModel::Arr(es))
    }
}

/// The anonymous tabular section for a top-level uniform array.
pub open spec fn gen_anon_array(es: Seq<ValModel>) -> Seq<char> {
    if es.len() == 0 {
        seq![':', '[', ']']
    } else if es[0] is Obj {
        let en0 = es[0]->Obj_0;
        let header = seq![':'] + hdr_join(en0) + seq![':'];
        join_nl(seq![header] + rows_of(keys_of(en0), es))
    } else {
        seq![':'] + lit_of(ValModel::Arr(es))
    }
}

/// The section a single-entry object renders to.
pub open spec fn single_section(key: Seq<char>, v: ValModel) -> Seq<char> {
    match v {
        ValModel::Arr(es) => if es.len() == 0 {
            key + seq![':', '\n', '[', ']']
        } else if is_uniform(es) {
            gen_object_array(key, es)
        } else {
            key + seq![':', '\n'] + lit_of(v)
        },
        _ => key + seq![':', '\n'] + lit_of(v),
    }
}

/// One block of a multi-section document.
pub open spec fn block_of(key: Seq<char>, v: ValModel) -> Seq<char> {
    match v {
        ValModel::Arr(es) => if is_uniform(es) {
            trim_back(gen_object_array(key, es))
        } else {
            trim_back(key + seq![':', '\n'] + lit_of(v))
        },
        _ => key + seq![':', '\n'] + lit_of(v),
    }
}

/// Blocks separated by blank lines, with a newline after the last.
pub open spec fn blocks_join(en: Seq<(Seq<char>, ValModel)>) -> Seq<char>
    decreases en.len(),
{
    if en.len() == 0 {
        Seq::empty()
    } else if en.len() == 1 {
        block_of(en[0].0, en[0].1) + seq!['\n']
    } else {
        block_of(en[0].0, en[0].1) + seq!['\n', '\n'] + blocks_join(en.drop_first())
    }
}

/// Lexicographic order on character sequences, by code point.
pub open spec fn lex_lt(a: Seq<char>, b: Seq<char>) -> bool
    decreases a.len(),
{
    if a.len() == 0 {
        b.len() > 0
    } else if b.len() == 0 {
        false
    } else if a[0] != b[0] {
        (a[0] as int) < (b[0] as int)
    } else {
        lex_lt(a.drop_first(), b.drop_first())
    }
}

/// `e` inserted before the first entry whose key it precedes; equal keys
/// keep the earlier entry first.
pub open spec fn insert_sorted(
    e: (Seq<char>, ValModel),
    sorted: Seq<(Seq<char>, ValModel)>,
) -> Seq<(Seq<char>, ValModel)>
    decreases sorted.len(),
{
    if sorted.len() == 0 {
        seq![e]
    } else if lex_lt(e.0, sorted[0].0) {
        seq![e] + sorted
    } else {
        seq![sorted[0]] + insert_sorted(e, sorted.drop_first())
    }
}

/// The entries in sorted key order: a stable insertion sort.
pub open spec fn sort_entries(en: Seq<(Seq<char>, ValModel)>) -> Seq<(Seq<char>, ValModel)>
    decreases en.len(),
{
    if en.len() == 0 {
        Seq::empty()
    } else {
        insert_sorted(en.last(), sort_entries(en.drop_last()))
    }
}

/// The whole document a value renders to: a single-entry object as one
/// section, any other object as blocks in sorted key order, a uniform
/// top-level array as an anonymous tabular section, any other array as an
/// anonymous inline literal, and a scalar as its inline literal.
pub open spec fn gen_ort(m: ValModel) -> Seq<char> {
    match m {
        ValModel::Obj(en) => if en.len() == 1 {
            single_section(en[0].0, en[0].1)
        } else {
            blocks_join(sort_entries(en))
        },
        ValModel::Arr(es) => if is_uniform(es) {
            gen_anon_array(es)
        } else {
            seq![':'] + lit_of(m)
        },
        _ => lit_of(m),
    }
}

/// Looks up the first entry holding `key`.
fn entries_get<'a>(entries: &'a Vec<(String, OrtValue)>, key: &str) -> (r: Option<&'a OrtValue>)
    ensures
        match r {
            Some(v) => assoc_get(entry_models_of(entries@), key@) == Some(v.model()),
            None => assoc_get(entry_models_of(entries@), key@) is None,
        },
{
    let ghost m = entry_models_of(entries@);
    proof {
        lemma_entry_models_of(entries@);
        crate::ort_value::lemma_key_idx(m, key@);
    }
    let n = entries.len();
    let mut i: usize = 0;
    #[verifier::loop_isolation(false)]
    while i < n
        invariant
            i <= n,
            forall|j: int| 0 <= j < i ==> (#[trigger] m[j]).0 != key@,
        decreases n - i,
    {
        if crate::ort_value::str_eq(entries[i].0.as_str(), key) {
            proof {
                assert(crate::ort_value::key_idx(m, key@) == i);
            }
            return Some(&entries[i].1);
        }
        i = i + 1;
    }
    proof {
        assert(crate::ort_value::key_idx(m, key@) == m.len());
    }
    None
}

/// Renders one tabular cell of `v` onto `out`.
fn write_cell(out: &mut Vec<char>, v: &OrtValue)
    ensures
        final(out)@ == old(out)@ + cell_of(v.model()),
    decreases v,
{
    match v {
        OrtValue::Object(entries) => {
            proof {
                lemma_entry_models_of(entries@);
            }
            out.push('(');
            if entries.len() > 0 {
                let ghost en = entry_models_of(entries@);
                let ghost base = out@;
                let n = entries.len();
                let mut i: usize = 0;
                proof {
                    assert(en.skip(0) =~= en);
                }
                #[verifier::loop_isolation(false)]
                while i < n
                    invariant
                        0 < n,
                        i <= n,
                        i < n ==> out@ + cells_join(en.skip(i as int)) =~= base + cells_join(en),
                        i == n ==> out@ =~= base + cells_join(en),
                    decreases n - i,
                {
                    proof {
                        assert(en.skip(i as int)[0] == en[i as int]);
                        assert(en.skip(i as int).drop_first() =~= en.skip(i + 1));
                    }
                    write_cell(out, &entries[i].1);
                    if i + 1 < n {
                        out.push(',');
                    }
                    i = i + 1;
                }
            }
            out.push(')');
            assert(out@ =~= old(out)@ + cell_of(v.model()));
        },
        _ => {
            write_value(out, v);
            assert(out@ =~= old(out)@ + cell_of(v.model()));
        },
    }
}

/// The keys of an entry list, in entry order.
fn keys_vec(entries: &Vec<(String, OrtValue)>) -> (r: Vec<String>)
    ensures
        r@.len() == entries@.len(),
        forall|k: int|
            0 <= k < r@.len() ==> (#[trigger] r@[k])@ == keys_of(entry_models_of(entries@))[k],
{
    proof {
        lemma_entry_models_of(entries@);
    }
    let n = entries.len();
    let mut r: Vec<String> = Vec::new();
    let mut i: usize = 0;
    #[verifier::loop_isolation(false)]
    while i < n
        invariant
            i <= n,
            r@.len() == i,
            forall|k: int|
                0 <= k < i ==> (#[trigger] r@[k])@ == keys_of(entry_models_of(entries@))[k],
        decreases n - i,
    {
        r.push(entries[i].0.clone());
        i = i + 1;
    }
    r
}

/// Renders the header columns of the first row's entries onto `out`,
/// expanding a column into `name(subcolumns)` when its value is an object.
fn write_header(out: &mut Vec<char>, first: &Vec<(String, OrtValue)>)
    ensures
        final(out)@ == old(out)@ + hdr_join(entry_models_of(first@)),
    decreases first,
{
    let ghost en = entry_models_of(first@);
    proof {
        lemma_entry_models_of(first@);
    }
    let n = first.len();
    if n == 0 {
        assert(old(out)@ + hdr_join(en) =~= old(out)@);
        return;
    }
    let ghost base = out@;
    let mut i: usize = 0;
    proof {
        assert(en.skip(0) =~= en);
    }
    #[verifier::loop_isolation(false)]
    while i < n
        invariant
            0 < n,
            i <= n,
            i < n ==> out@ + hdr_join(en.skip(i as int)) =~= base + hdr_join(en),
            i == n ==> out@ =~= base + hdr_join(en),
        decreases n - i,
    {
        proof {
            assert(en.skip(i as int)[0] == en[i as int]);
            assert(en.skip(i as int).drop_first() =~= en.skip(i + 1));
        }
        let kc = str_to_chars(first[i].0.as_str());
        push_all(out, kc.as_slice());
        match &first[i].1 {
            OrtValue::Object(nested) => {
                proof {
                    assert(decreases_to!(first@ => first@[i as int]));
                    assert(decreases_to!(first@[i as int] => first@[i as int].1));
                }
                out.push('(');
                write_header(out, nested);
                out.push(')');
            },
            _ => {},
        }
        if i + 1 < n {
            out.push(',');
        }
        i = i + 1;
    }
}

/// Renders one data row for `keys` from the row's entries onto `out`.
fn write_row(out: &mut Vec<char>, keys: &Vec<String>, entries: &Vec<(String, OrtValue)>)
    ensures
        final(out)@ == old(out)@ + row_of(
            crate::parser::strs_of(keys@),
            entry_models_of(entries@),
        ),
{
    let ghost gkeys = crate::parser::strs_of(keys@);
    let ghost en = entry_models_of(entries@);
    let n = keys.len();
    if n == 0 {
        assert(old(out)@ + row_of(gkeys, en) =~= old(out)@);
        return;
    }
    let ghost base = out@;
    let mut i: usize = 0;
    proof {
        assert(gkeys.skip(0) =~= gkeys);
    }
    #[verifier::loop_isolation(false)]
    while i < n
        invariant
            0 < n,
            i <= n,
            i < n ==> out@ + row_of(gkeys.skip(i as int), en) =~= base + row_of(gkeys, en),
            i == n ==> out@ =~= base + row_of(gkeys, en),
        decreases n - i,
    {
        proof {
            assert(gkeys.skip(i as int)[0] == gkeys[i as int]);
            assert(gkeys.skip(i as int).drop_first() =~= gkeys.skip(i + 1));
            assert(gkeys[i as int] == keys@[i as int]@);
        }
        match entries_get(entries, keys[i].as_str()) {
            Some(v) => {
                write_cell(out, v);
            },
            None => {},
        }
        if i + 1 < n {
            out.push(',');
        }
        i = i + 1;
    }
}

/// Whether `key` occurs among the entry keys.
fn contains_key(entries: &Vec<(String, OrtValue)>, key: &str) -> (r: bool)
    ensures
        r == keys_of(entry_models_of(entries@)).contains(key@),
{
    let ghost m = entry_models_of(entries@);
    proof {
        lemma_entry_models_of(entries@);
    }
    let n = entries.len();
    let mut i: usize = 0;
    #[verifier::loop_isolation(false)]
    while i < n
        invariant
            i <= n,
            forall|j: int| 0 <= j < i ==> (#[trigger] m[j]).0 != key@,
        decreases n - i,
    {
        if crate::ort_value::str_eq(entries[i].0.as_str(), key) {
            proof {
                assert(keys_of(m)[i as int] == key@);
            }
            return true;
        }
        i = i + 1;
    }
    proof {
        assert forall|j: int| 0 <= j < keys_of(m).len() implies keys_of(m)[j] != key@ by {
            assert(keys_of(m)[j] == m[j].0);
        }
    }
    false
}

/// Whether two entry lists have the same key set and the same key count.
fn keyset_eq(a: &Vec<(String, OrtValue)>, b: &Vec<(String, OrtValue)>) -> (r: bool)
    ensures
        r == (key_set_of(entry_models_of(a@)) == key_set_of(entry_models_of(b@)) && keys_of(
            entry_models_of(a@),
        ).len() == keys_of(entry_models_of(b@)).len()),
{
    let ghost ma = entry_models_of(a@);
    let ghost mb = entry_models_of(b@);
    proof {
        lemma_entry_models_of(a@);
        lemma_entry_models_of(b@);
    }
    if a.len() != b.len() {
        return false;
    }
    let n = a.len();
    let mut i: usize = 0;
    #[verifier::loop_isolation(false)]
    while i < n
        invariant
            i <= n,
            forall|j: int| 0 <= j < i ==> keys_of(mb).contains((#[trigger] ma[j]).0),
        decreases n - i,
    {
        if !contains_key(b, a[i].0.as_str()) {
            proof {
                assert(keys_of(ma).contains(ma[i as int].0)) by {
                    assert(keys_of(ma)[i as int] == ma[i as int].0);
                }
                assert(key_set_of(ma).contains(ma[i as int].0));
                assert(!key_set_of(mb).contains(ma[i as int].0));
            }
            return false;
        }
        i = i + 1;
    }
    let mut j: usize = 0;
    #[verifier::loop_isolation(false)]
    while j < n
        invariant
            j <= n,
            forall|k: int| 0 <= k < n ==> keys_of(mb).contains((#[trigger] ma[k]).0),
            forall|k: int| 0 <= k < j ==> keys_of(ma).contains((#[trigger] mb[k]).0),
        decreases n - j,
    {
        if !contains_key(a, b[j].0.as_str()) {
            proof {
                assert(keys_of(mb).contains(mb[j as int].0)) by {
                    assert(keys_of(mb)[j as int] == mb[j as int].0);
                }
                assert(key_set_of(mb).contains(mb[j as int].0));
                assert(!key_set_of(ma).contains(mb[j as int].0));
            }
            return false;
        }
        j = j + 1;
    }
    proof {
        assert(key_set_of(ma) =~= key_set_of(mb)) by {
            assert forall|k: Seq<char>| key_set_of(ma).contains(k) implies key_set_of(
                mb,
            ).contains(k) by {
                let wi = choose|wi: int| 0 <= wi < keys_of(ma).len() && keys_of(ma)[wi] == k;
                assert(ma[wi].0 == k);
            }
            assert forall|k: Seq<char>| key_set_of(mb).contains(k) implies key_set_of(
                ma,
            ).contains(k) by {
                let wi = choose|wi: int| 0 <= wi < keys_of(mb).len() && keys_of(mb)[wi] == k;
                assert(mb[wi].0 == k);
            }
        }
    }
    true
}

/// Whether the array is uniform: non-empty, all objects, all key sets equal
/// to the first element's.
pub fn is_uniform_object_array(arr: &Vec<OrtValue>) -> (r: bool)
    ensures
        r == is_uniform(models_of(arr@)),
{
    let ghost es = models_of(arr@);
    proof {
        lemma_models_of(arr@);
    }
    let n = arr.len();
    if n == 0 {
        return false;
    }
    let first = match &arr[0] {
        OrtValue::Object(entries) => entries,
        _ => {
            return false;
        },
    };
    let mut i: usize = 0;
    #[verifier::loop_isolation(false)]
    while i < n
        invariant
            i <= n,
            forall|j: int|
                0 <= j < i ==> (#[trigger] es[j]) is Obj && key_set_of(es[j]->Obj_0) == key_set_of(
                    es[0]->Obj_0,
                ) && keys_of(es[j]->Obj_0).len() == keys_of(es[0]->Obj_0).len(),
        decreases n - i,
    {
        match &arr[i] {
            OrtValue::Object(entries) => {
                if !keyset_eq(entries, first) {
                    return false;
                }
            },
            _ => {
                return false;
            },
        }
        i = i + 1;
    }
    true
}

/// `v` with trailing whitespace removed.
fn trim_end_chars(v: Vec<char>) -> (r: Vec<char>)
    ensures
        r@ == trim_back(v@),
{
    let mut r = v;
    let ghost orig = r@;
    #[verifier::loop_isolation(false)]
    while r.len() > 0 && crate::text::is_space_char(r[r.len() - 1])
        invariant
            trim_back(orig) == trim_back(r@),
        decreases r.len(),
    {
        let ghost pre = r@;
        let _ = r.pop();
        proof {
            assert(r@ =~= pre.drop_last());
        }
    }
    r
}

/// A newline before each object row, in order: the text that follows a
/// tabular section's header line.
pub open spec fn rows_tail(keys: Seq<Seq<char>>, es: Seq<ValModel>) -> Seq<char>
    decreases es.len(),
{
    if es.len() == 0 {
        Seq::empty()
    } else {
        let head: Seq<char> = match es[0] {
            ValModel::Obj(en) => seq!['\n'] + row_of(keys, en),
            _ => Seq::empty(),
        };
        head + rows_tail(keys, es.drop_first())
    }
}

/// A newline before each line, in order.
pub open spec fn nl_tail(rows: Seq<Seq<char>>) -> Seq<char>
    decreases rows.len(),
{
    if rows.len() == 0 {
        Seq::empty()
    } else {
        seq!['\n'] + rows[0] + nl_tail(rows.drop_first())
    }
}

/// Joining lines reads as the first line followed by the newline-prefixed
/// rest.
pub proof fn lemma_join_nl_tail(rows: Seq<Seq<char>>)
    requires
        rows.len() > 0,
    ensures
        join_nl(rows) == rows[0] + nl_tail(rows.drop_first()),
    decreases rows.len(),
{
    if rows.len() == 1 {
        assert(rows.drop_first() =~= Seq::<Seq<char>>::empty());
        assert(join_nl(rows) =~= rows[0] + nl_tail(rows.drop_first()));
    } else {
        lemma_join_nl_tail(rows.drop_first());
        assert(join_nl(rows) =~= rows[0] + nl_tail(rows.drop_first()));
    }
}

/// The newline-prefixed rows of a section are the newline-joined tail of
/// its row list.
pub proof fn lemma_nl_tail_rows(keys: Seq<Seq<char>>, es: Seq<ValModel>)
    ensures
        nl_tail(rows_of(keys, es)) == rows_tail(keys, es),
    decreases es.len(),
{
    if es.len() > 0 {
        lemma_nl_tail_rows(keys, es.drop_first());
        match es[0] {
            ValModel::Obj(en) => {
                assert((seq![row_of(keys, en)] + rows_of(keys, es.drop_first())).drop_first()
                    =~= rows_of(keys, es.drop_first()));
                assert(nl_tail(rows_of(keys, es)) =~= rows_tail(keys, es));
            },
            _ => {
                assert(Seq::<Seq<char>>::empty() + rows_of(keys, es.drop_first()) =~= rows_of(
                    keys,
                    es.drop_first(),
                ));
                assert(nl_tail(rows_of(keys, es)) =~= rows_tail(keys, es));
            },
        }
    }
}

/// A tabular section with its header line reads as the header followed by
/// the newline-prefixed rows.
pub proof fn lemma_table_shape(header: Seq<char>, keys: Seq<Seq<char>>, es: Seq<ValModel>)
    ensures
        join_nl(seq![header] + rows_of(keys, es)) == header + rows_tail(keys, es),
{
    let rows = rows_of(keys, es);
    lemma_join_nl_tail(seq![header] + rows);
    assert((seq![header] + rows)[0] == header);
    assert((seq![header] + rows).drop_first() =~= rows);
    lemma_nl_tail_rows(keys, es);
}

/// Appending an element appends its newline-prefixed row, or nothing.
proof fn lemma_rows_tail_push(keys: Seq<Seq<char>>, es: Seq<ValModel>, e: ValModel)
    ensures
        rows_tail(keys, es.push(e)) == rows_tail(keys, es) + (match e {
            ValModel::Obj(en) => seq!['\n'] + row_of(keys, en),
            _ => Seq::<char>::empty(),
        }),
    decreases es.len(),
{
    let tail: Seq<char> = match e {
        ValModel::Obj(en) => seq!['\n'] + row_of(keys, en),
        _ => Seq::empty(),
    };
    if es.len() == 0 {
        assert(es.push(e)[0] == e);
        assert(es.push(e).drop_first() =~= Seq::<ValModel>::empty());
        assert(rows_tail(keys, Seq::<ValModel>::empty()) == Seq::<char>::empty());
        assert(rows_tail(keys, es) == Seq::<char>::empty());
        assert(rows_tail(keys, es.push(e)) == tail + rows_tail(keys, es.push(e).drop_first()));
        assert(rows_tail(keys, es.push(e)) =~= rows_tail(keys, es) + tail);
    } else {
        assert(es.push(e).drop_first() =~= es.drop_first().push(e));
        lemma_rows_tail_push(keys, es.drop_first(), e);
        assert(es.push(e)[0] == es[0]);
        let h: Seq<char> = match es[0] {
            ValModel::Obj(en) => seq!['\n'] + row_of(keys, en),
            _ => Seq::empty(),
        };
        assert(rows_tail(keys, es) == h + rows_tail(keys, es.drop_first()));
        assert(rows_tail(keys, es.push(e)) == h + rows_tail(keys, es.drop_first().push(e)));
        assert(rows_tail(keys, es.drop_first().push(e)) == rows_tail(keys, es.drop_first())
            + tail);
        assert(rows_tail(keys, es.push(e)) =~= rows_tail(keys, es) + tail);
    }
}

/// Renders the header columns, the closing colon, and the data rows of a
/// tabular section onto `out`; the caller writes the key prefix.
fn write_table(out: &mut Vec<char>, arr: &Vec<OrtValue>)
    requires
        arr@.len() > 0,
        models_of(arr@)[0] is Obj,
    ensures
        ({
            let es = models_of(arr@);
            let en0 = es[0]->Obj_0;
            final(out)@ == old(out)@ + hdr_join(en0) + seq![':'] + rows_tail(keys_of(en0), es)
        }),
{
    let ghost es = models_of(arr@);
    proof {
        lemma_models_of(arr@);
    }
    let first = match &arr[0] {
        OrtValue::Object(entries) => entries,
        _ => {
            proof {
                assert(false);
            }
            return;
        },
    };
    let ghost en0 = es[0]->Obj_0;
    proof {
        assert(entry_models_of(first@) == en0);
    }
    write_header(out, first);
    out.push(':');
    let keys = keys_vec(first);
    proof {
        lemma_entry_models_of(first@);
        assert(crate::parser::strs_of(keys@) =~= keys_of(en0));
    }
    let ghost base = out@;
    let n = arr.len();
    let mut i: usize = 0;
    proof {
        assert(es.take(0) =~= Seq::<ValModel>::empty());
        assert(base + rows_tail(keys_of(en0), es.take(0)) =~= base);
    }
    #[verifier::loop_isolation(false)]
    while i < n
        invariant
            i <= n,
            out@ == base + rows_tail(keys_of(en0), es.take(i as int)),
        decreases n - i,
    {
        proof {
            lemma_rows_tail_push(keys_of(en0), es.take(i as int), es[i as int]);
            assert(es.take(i as int).push(es[i as int]) =~= es.take(i + 1));
        }
        match &arr[i] {
            OrtValue::Object(entries) => {
                out.push('\n');
                write_row(out, &keys, entries);
                proof {
                    assert(out@ =~= base + rows_tail(keys_of(en0), es.take(i + 1)));
                }
            },
            _ => {
                proof {
                    assert(out@ =~= base + rows_tail(keys_of(en0), es.take(i + 1)));
                }
            },
        }
        i = i + 1;
    }
    proof {
        assert(es.take(n as int) =~= es);
    }
}

/// Whether `a` precedes `b` in lexicographic order by code point.
fn lex_lt_strs(a: &str, b: &str) -> (r: bool)
    ensures
        r == lex_lt(a@, b@),
{
    let ac = str_to_chars(a);
    let bc = str_to_chars(b);
    let an = ac.len();
    let bn = bc.len();
    let mut i: usize = 0;
    proof {
        assert(a@.skip(0) =~= a@);
        assert(b@.skip(0) =~= b@);
    }
    #[verifier::loop_isolation(false)]
    while i < an && i < bn
        invariant
            i <= an,
            i <= bn,
            lex_lt(a@, b@) == lex_lt(a@.skip(i as int), b@.skip(i as int)),
        decreases an - i,
    {
        proof {
            assert(a@.skip(i as int)[0] == a@[i as int]);
            assert(b@.skip(i as int)[0] == b@[i as int]);
            assert(a@.skip(i as int).drop_first() =~= a@.skip(i + 1));
            assert(b@.skip(i as int).drop_first() =~= b@.skip(i + 1));
        }
        let ca = ac[i];
        let cb = bc[i];
        if ca != cb {
            return ca < cb;
        }
        i = i + 1;
    }
    proof {
        if i >= an {
            assert(a@.skip(i as int).len() == 0);
        } else {
            assert(b@.skip(i as int).len() == 0);
            assert(a@.skip(i as int).len() > 0);
        }
    }
    i >= an && i < bn
}

/// The entries selected by an index list, in that order.
pub open spec fn perm_sel(en: Seq<(Seq<char>, ValModel)>, idxs: Seq<usize>) -> Seq<
    (Seq<char>, ValModel),
> {
    Seq::new(idxs.len(), |k: int| en[idxs[k] as int])
}

/// Inserting before the first greater key splits the sorted run there.
proof fn lemma_insert_sorted_at(
    e: (Seq<char>, ValModel),
    sorted: Seq<(Seq<char>, ValModel)>,
    p: int,
)
    requires
        0 <= p <= sorted.len(),
        forall|j: int| 0 <= j < p ==> !lex_lt(e.0, (#[trigger] sorted[j]).0),
        p < sorted.len() ==> lex_lt(e.0, sorted[p].0),
    ensures
        insert_sorted(e, sorted) == sorted.take(p) + seq![e] + sorted.skip(p),
    decreases sorted.len(),
{
    if sorted.len() == 0 {
        assert(insert_sorted(e, sorted) =~= sorted.take(p) + seq![e] + sorted.skip(p));
    } else if p == 0 {
        assert(lex_lt(e.0, sorted[0].0));
        assert(sorted.take(0) =~= Seq::<(Seq<char>, ValModel)>::empty());
        assert(sorted.skip(0) =~= sorted);
        assert(insert_sorted(e, sorted) =~= sorted.take(p) + seq![e] + sorted.skip(p));
    } else {
        assert(!lex_lt(e.0, sorted[0].0));
        lemma_insert_sorted_at(e, sorted.drop_first(), p - 1);
        assert(sorted.drop_first().take(p - 1) =~= sorted.take(p).drop_first());
        assert(sorted.drop_first().skip(p - 1) =~= sorted.skip(p));
        assert(insert_sorted(e, sorted) =~= sorted.take(p) + seq![e] + sorted.skip(p));
    }
}

/// The order the sections of a multi-entry object are written in: indices
/// into the entry list, sorted by key.
fn sorted_order(entries: &Vec<(String, OrtValue)>) -> (r: Vec<usize>)
    ensures
        perm_sel(entry_models_of(entries@), r@) == sort_entries(entry_models_of(entries@)),
        r@.len() == entries@.len(),
        forall|k: int| 0 <= k < r@.len() ==> (#[trigger] r@[k]) < entries@.len(),
{
    let ghost m = entry_models_of(entries@);
    proof {
        lemma_entry_models_of(entries@);
    }
    let n = entries.len();
    let mut idxs: Vec<usize> = Vec::new();
    let mut i: usize = 0;
    proof {
        assert(m.take(0) =~= Seq::<(Seq<char>, ValModel)>::empty());
        assert(perm_sel(m, idxs@) =~= sort_entries(m.take(0)));
    }
    #[verifier::loop_isolation(false)]
    while i < n
        invariant
            i <= n,
            idxs@.len() == i,
            forall|k: int| 0 <= k < i ==> (#[trigger] idxs@[k]) < n,
            perm_sel(m, idxs@) == sort_entries(m.take(i as int)),
        decreases n - i,
    {
        let ghost sorted = perm_sel(m, idxs@);
        // Find the first position whose key the new key precedes.
        let mut p: usize = 0;
        #[verifier::loop_isolation(false)]
        while p < i
            invariant
                p <= i,
                forall|j: int| 0 <= j < p ==> !lex_lt(m[i as int].0, (#[trigger] sorted[j]).0),
            decreases i - p,
        {
            proof {
                assert(sorted[p as int] == m[idxs@[p as int] as int]);
                assert(entries@[idxs@[p as int] as int].0@ == m[idxs@[p as int] as int].0);
            }
            if lex_lt_strs(entries[i].0.as_str(), entries[idxs[p]].0.as_str()) {
                break;
            }
            p = p + 1;
        }
        proof {
            if p < i {
                assert(sorted[p as int] == m[idxs@[p as int] as int]);
            }
            lemma_insert_sorted_at(m[i as int], sorted, p as int);
        }
        let ghost pre = idxs@;
        idxs.insert(p, i);
        proof {
            assert(idxs@ =~= pre.insert(p as int, i));
            assert(perm_sel(m, idxs@) =~= sorted.take(p as int) + seq![m[i as int]]
                + sorted.skip(p as int)) by {
                assert forall|k: int| 0 <= k < idxs@.len() implies perm_sel(m, idxs@)[k] == (
                sorted.take(p as int) + seq![m[i as int]] + sorted.skip(p as int))[k] by {
                    if k < p {
                        assert(idxs@[k] == pre[k]);
                    } else if k == p {
                        assert(idxs@[k] == i);
                    } else {
                        assert(idxs@[k] == pre[k - 1]);
                    }
                }
            }
            assert(m.take(i as int).push(m[i as int]) =~= m.take(i + 1));
            assert(m.take(i + 1).last() == m[i as int]);
            assert(m.take(i + 1).drop_last() =~= m.take(i as int));
            assert(sort_entries(m.take(i + 1)) == insert_sorted(
                m[i as int],
                sort_entries(m.take(i as int)),
            ));
        }
        i = i + 1;
    }
    proof {
        assert(m.take(n as int) =~= m);
    }
    idxs
}

/// Renders one block of a multi-section document onto `out`.
fn write_block(out: &mut Vec<char>, key: &String, v: &OrtValue)
    ensures
        final(out)@ == old(out)@ + block_of(key@, v.model()),
{
    match v {
        OrtValue::Array(arr) => {
            let mut block: Vec<char> = Vec::new();
            let kc = str_to_chars(key.as_str());
            if is_uniform_object_array(arr) {
                push_all(&mut block, kc.as_slice());
                block.push(':');
                write_table(&mut block, arr);
                proof {
                    let es = models_of(arr@);
                    let en0 = es[0]->Obj_0;
                    lemma_table_shape(
                        key@ + seq![':'] + hdr_join(en0) + seq![':'],
                        keys_of(en0),
                        es,
                    );
                    assert(block@ =~= gen_object_array(key@, es));
                }
            } else {
                push_all(&mut block, kc.as_slice());
                block.push(':');
                block.push('\n');
                write_value(&mut block, v);
                assert(block@ =~= key@ + seq![':', '\n'] + lit_of(v.model()));
            }
            let trimmed_block = trim_end_chars(block);
            push_all(out, trimmed_block.as_slice());
        },
        _ => {
            let kc = str_to_chars(key.as_str());
            push_all(out, kc.as_slice());
            out.push(':');
            out.push('\n');
            write_value(out, v);
            assert(out@ =~= old(out)@ + block_of(key@, v.model()));
        },
    }
}

/// Renders a value tree as ORT text: a single-entry object as one section,
/// a wider or empty object as blank-line-separated sections in sorted key
/// order, a uniform top-level array as an anonymous tabular section, any
/// other array as an anonymous inline literal, and a scalar as its literal.
pub fn generate_ort(value: &OrtValue) -> (r: String)
    ensures
        r@ == gen_ort(value.model()),
{
    let mut out: Vec<char> = Vec::new();
    match value {
        OrtValue::Object(entries) => {
            proof {
                lemma_entry_models_of(entries@);
            }
            let ghost en = entry_models_of(entries@);
            if entries.len() == 1 {
                let key = &entries[0].0;
                let v = &entries[0].1;
                let kc = str_to_chars(key.as_str());
                match v {
                    OrtValue::Array(arr) => {
                        proof {
                            lemma_models_of(arr@);
                        }
                        if arr.len() == 0 {
                            push_all(&mut out, kc.as_slice());
                            out.push(':');
                            out.push('\n');
                            out.push('[');
                            out.push(']');
                            assert(out@ =~= gen_ort(value.model()));
                        } else if is_uniform_object_array(arr) {
                            push_all(&mut out, kc.as_slice());
                            out.push(':');
                            write_table(&mut out, arr);
                            proof {
                                let es = models_of(arr@);
                                let en0 = es[0]->Obj_0;
                                lemma_table_shape(
                                    key@ + seq![':'] + hdr_join(en0) + seq![':'],
                                    keys_of(en0),
                                    es,
                                );
                                assert(out@ =~= gen_ort(value.model()));
                            }
                        } else {
                            push_all(&mut out, kc.as_slice());
                            out.push(':');
                            out.push('\n');
                            write_value(&mut out, v);
                            assert(out@ =~= gen_ort(value.model()));
                        }
                    },
                    _ => {
                        push_all(&mut out, kc.as_slice());
                        out.push(':');
                        out.push('\n');
                        write_value(&mut out, v);
                        assert(out@ =~= gen_ort(value.model()));
                    },
                }
            } else {
                let order = sorted_order(entries);
                let ghost sorted = sort_entries(en);
                let n = order.len();
                let mut k: usize = 0;
                proof {
                    assert(sorted.skip(0) =~= sorted);
                }
                #[verifier::loop_isolation(false)]
                while k < n
                    invariant
                        k <= n,
                        k < n ==> out@ + blocks_join(sorted.skip(k as int)) =~= blocks_join(
                            sorted,
                        ),
                        k == n ==> out@ =~= blocks_join(sorted),
                    decreases n - k,
                {
                    proof {
                        assert(sorted.skip(k as int)[0] == sorted[k as int]);
                        assert(sorted.skip(k as int).drop_first() =~= sorted.skip(k + 1));
                        assert(sorted[k as int] == perm_sel(en, order@)[k as int]);
                        assert(sorted[k as int] == en[order@[k as int] as int]);
                        assert(en[order@[k as int] as int] == (
                            entries@[order@[k as int] as int].0@,
                            entries@[order@[k as int] as int].1.model(),
                        ));
                    }
                    let idx = order[k];
                    write_block(&mut out, &entries[idx].0, &entries[idx].1);
                    if k + 1 < n {
                        out.push('\n');
                        out.push('\n');
                    } else {
                        out.push('\n');
                    }
                    k = k + 1;
                }
                proof {
                    if n == 0 {
                        assert(out@ =~= blocks_join(sorted));
                    }
                    assert(out@ =~= gen_ort(value.model()));
                }
            }
        },
        OrtValue::Array(arr) => {
            proof {
                lemma_models_of(arr@);
            }
            if is_uniform_object_array(arr) {
                out.push(':');
                write_table(&mut out, arr);
                proof {
                    let es = models_of(arr@);
                    let en0 = es[0]->Obj_0;
                    lemma_table_shape(seq![':'] + hdr_join(en0) + seq![':'], keys_of(en0), es);
                    assert(out@ =~= gen_ort(value.model()));
                }
            } else {
                out.push(':');
                write_value(&mut out, value);
                assert(out@ =~= gen_ort(value.model()));
            }
        },
        _ => {
            write_value(&mut out, value);
            assert(out@ =~= gen_ort(value.model()));
        },
    }
    chars_to_string(&out)
}

} // verus!
