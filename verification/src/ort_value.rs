//! The ORT value tree: a closed tagged union over null, booleans, numbers,
//! strings, ordered arrays and keyed objects.
//!
//! Numbers carry their decimal literal text; the format stores every number
//! as one numeric kind and never distinguishes integer from fractional
//! spellings, so the literal itself is the value. Objects are backed by an
//! insertion-ordered pair list rather than a hash table: key order decides
//! header and column order when the generator renders tabular sections, so
//! it must be stable across runs.
use vstd::prelude::*;
use crate::num_lit::is_number_lit;

verus! {

broadcast use vstd::std_specs::vec::group_vec_axioms, vstd::seq::group_seq_axioms;

/// The mathematical shapes of a run of values, in order.
pub open spec fn models_of(vs: Seq<OrtValue>) -> Seq<ValModel>
    decreases vs,
{
    if vs.len() == 0 {
        Seq::empty()
    } else {
        seq![vs[0].model()] + models_of(vs.drop_first())
    }
}

/// The mathematical shapes of an entry run: each key with its value's shape.
pub open spec fn entry_models_of(es: Seq<(String, OrtValue)>) -> Seq<(Seq<char>, ValModel)>
    decreases es,
{
    if es.len() == 0 {
        Seq::empty()
    } else {
        seq![(es[0].0@, es[0].1.model())] + entry_models_of(es.drop_first())
    }
}

/// Appending a value appends its shape.
pub proof fn lemma_models_push(vs: Seq<OrtValue>, v: OrtValue)
    ensures
        models_of(vs.push(v)) == models_of(vs).push(v.model()),
    decreases vs,
{
    if vs.len() == 0 {
        assert(vs.push(v).len() == 1);
        assert(vs.push(v)[0] == v);
        assert(vs.push(v).drop_first() =~= Seq::<OrtValue>::empty());
        assert(models_of(vs.push(v)) == seq![v.model()] + models_of(vs.push(v).drop_first()));
        assert(models_of(Seq::<OrtValue>::empty()) == Seq::<ValModel>::empty());
        assert(models_of(vs.push(v)) =~= models_of(vs).push(v.model()));
    } else {
        assert(vs.push(v).drop_first() =~= vs.drop_first().push(v));
        lemma_models_push(vs.drop_first(), v);
        assert(vs.push(v)[0] == vs[0]);
        assert(models_of(vs.push(v)) == seq![vs[0].model()] + models_of(vs.drop_first().push(v)));
        assert(models_of(vs) == seq![vs[0].model()] + models_of(vs.drop_first()));
        assert(models_of(vs.push(v)) =~= models_of(vs).push(v.model()));
    }
}

/// Pointwise reading of [`models_of`].
pub proof fn lemma_models_of(vs: Seq<OrtValue>)
    ensures
        models_of(vs).len() == vs.len(),
        forall|i: int| 0 <= i < vs.len() ==> models_of(vs)[i] == (#[trigger] vs[i]).model(),
    decreases vs,
{
    if vs.len() > 0 {
        lemma_models_of(vs.drop_first());
        assert forall|i: int| 0 <= i < vs.len() implies models_of(vs)[i] == (#[trigger] vs[i]).model() by {
            if i > 0 {
                assert(vs.drop_first()[i - 1] == vs[i]);
                assert(models_of(vs)[i] == models_of(vs.drop_first())[i - 1]);
            }
        }
    }
}

/// Pointwise reading of [`entry_models_of`].
pub proof fn lemma_entry_models_of(es: Seq<(String, OrtValue)>)
    ensures
        entry_models_of(es).len() == es.len(),
        forall|i: int|
            0 <= i < es.len() ==> entry_models_of(es)[i] == ((#[trigger] es[i]).0@, es[i].1.model()),
    decreases es,
{
    if es.len() > 0 {
        lemma_entry_models_of(es.drop_first());
        assert forall|i: int|
            0 <= i < es.len() implies entry_models_of(es)[i] == ((#[trigger] es[i]).0@,
            es[i].1.model()) by {
            if i > 0 {
                assert(es.drop_first()[i - 1] == es[i]);
                assert(entry_models_of(es)[i] == entry_models_of(es.drop_first())[i - 1]);
            }
        }
    }
}

/// A node of an ORT value tree.
#[derive(Debug, PartialEq)]
pub enum OrtValue {
    Null,
    Bool(bool),
    /// A number, held as its decimal literal text.
    Number(String),
    String(String),
    Array(Vec<OrtValue>),
    /// A keyed mapping; entries keep insertion order and keys are unique.
    Object(Vec<(String, OrtValue)>),
}

/// The mathematical shape of a value tree: the same tree with every string
/// replaced by its character sequence. Contracts and lemmas speak over this.
pub enum ValModel {
    Null,
    Bool(bool),
    Number(Seq<char>),
    Text(Seq<char>),
    Arr(Seq<ValModel>),
    Obj(Seq<(Seq<char>, ValModel)>),
}

impl OrtValue {
    /// The mathematical shape of this value.
    pub open spec fn model(self) -> ValModel
        decreases self,
    {
        match self {
            OrtValue::Null => ValModel::Null,
            OrtValue::Bool(b) => ValModel::Bool(b),
            OrtValue::Number(t) => ValModel::Number(t@),
            OrtValue::String(s) => ValModel::Text(s@),
            OrtValue::Array(arr) => ValModel::Arr(models_of(arr@)),
            OrtValue::Object(entries) => ValModel::Obj(entry_models_of(entries@)),
        }
    }

    /// True on `Null` alone.
    pub fn is_null(&self) -> (r: bool)
        ensures
            r == (self.model() is Null),
    {
        matches!(self, OrtValue::Null)
    }

    /// True on `Bool` alone.
    pub fn is_bool(&self) -> (r: bool)
        ensures
            r == (self.model() is Bool),
    {
        matches!(self, OrtValue::Bool(_))
    }

    /// True on `Number` alone.
    pub fn is_number(&self) -> (r: bool)
        ensures
            r == (self.model() is Number),
    {
        matches!(self, OrtValue::Number(_))
    }

    /// True on `String` alone.
    pub fn is_string(&self) -> (r: bool)
        ensures
            r == (self.model() is Text),
    {
        matches!(self, OrtValue::String(_))
    }

    /// True on `Array` alone.
    pub fn is_array(&self) -> (r: bool)
        ensures
            r == (self.model() is Arr),
    {
        matches!(self, OrtValue::Array(_))
    }

    /// True on `Object` alone.
    pub fn is_object(&self) -> (r: bool)
        ensures
            r == (self.model() is Obj),
    {
        matches!(self, OrtValue::Object(_))
    }

    /// The boolean payload, absent when the tag differs.
    pub fn as_bool(&self) -> (r: Option<bool>)
        ensures
            match r {
                Some(b) => self.model() == ValModel::Bool(b),
                None => !(self.model() is Bool),
            },
    {
        match self {
            OrtValue::Bool(b) => Some(*b),
            _ => None,
        }
    }

    /// The string payload, absent when the tag differs.
    pub fn as_str(&self) -> (r: Option<&str>)
        ensures
            match r {
                Some(s) => self.model() == ValModel::Text(s@),
                None => !(self.model() is Text),
            },
    {
        match self {
            OrtValue::String(s) => Some(s.as_str()),
            _ => None,
        }
    }

    /// The numeric literal text, absent when the tag differs.
    pub fn as_number_str(&self) -> (r: Option<&str>)
        ensures
            match r {
                Some(s) => self.model() == ValModel::Number(s@),
                None => !(self.model() is Number),
            },
    {
        match self {
            OrtValue::Number(t) => Some(t.as_str()),
            _ => None,
        }
    }

    /// The element vector, absent when the tag differs.
    pub fn as_array(&self) -> (r: Option<&Vec<OrtValue>>)
        ensures
            match r {
                Some(arr) => {
                    &&& self.model() is Arr
                    &&& self.model()->Arr_0 == models_of(arr@)
                },
                None => !(self.model() is Arr),
            },
    {
        match self {
            OrtValue::Array(arr) => Some(arr),
            _ => None,
        }
    }

    /// The entry list, absent when the tag differs.
    pub fn as_object(&self) -> (r: Option<&Vec<(String, OrtValue)>>)
        ensures
            match r {
                Some(entries) => {
                    &&& self.model() is Obj
                    &&& self.model()->Obj_0 == entry_models_of(entries@)
                },
                None => !(self.model() is Obj),
            },
    {
        match self {
            OrtValue::Object(entries) => Some(entries),
            _ => None,
        }
    }

    /// Keyed lookup into an object; absent on other tags and unknown keys.
    pub fn get(&self, key: &str) -> (r: Option<&OrtValue>)
        ensures
            match r {
                Some(v) => {
                    &&& self.model() is Obj
                    &&& exists|i: int|
                        #![auto]
                        0 <= i < self.model()->Obj_0.len() && self.model()->Obj_0[i].0 == key@
                            && self.model()->Obj_0[i].1 == v.model()
                },
                None => self.model() is Obj ==> forall|i: int|
                    0 <= i < self.model()->Obj_0.len()
                        ==> (#[trigger] self.model()->Obj_0[i]).0 != key@,
            },
    {
        match self {
            OrtValue::Object(entries) => {
                let ghost m = self.model()->Obj_0;
                proof {
                    lemma_entry_models_of(entries@);
                }
                let n = entries.len();
                let mut i: usize = 0;
                while i < n
                    invariant
                        self.model() is Obj,
                        m == self.model()->Obj_0,
                        n == entries@.len(),
                        i <= n,
                        m == entry_models_of(entries@),
                        m.len() == n,
                        forall|k: int|
                            0 <= k < n ==> m[k] == ((#[trigger] entries@[k]).0@,
                            entries@[k].1.model()),
                        forall|j: int| 0 <= j < i ==> (#[trigger] m[j]).0 != key@,
                    decreases n - i,
                {
                    if str_eq(entries[i].0.as_str(), key) {
                        let r = &entries[i].1;
                        proof {
                            let wi = i as int;
                            assert(0 <= wi < m.len() && m[wi].0 == key@ && m[wi].1 == r.model());
                        }
                        return Some(r);
                    }
                    i = i + 1;
                }
                None
            },
            _ => None,
        }
    }
}

/// The first index whose key is `k`, or the length when no entry has it.
pub open spec fn key_idx(entries: Seq<(Seq<char>, ValModel)>, k: Seq<char>) -> int
    decreases entries.len(),
{
    if entries.len() == 0 {
        0
    } else if entries[0].0 == k {
        0
    } else {
        1 + key_idx(entries.drop_first(), k)
    }
}

/// What [`key_idx`] returns: the first position holding `k`, if any.
pub proof fn lemma_key_idx(entries: Seq<(Seq<char>, ValModel)>, k: Seq<char>)
    ensures
        0 <= key_idx(entries, k) <= entries.len(),
        key_idx(entries, k) < entries.len() ==> entries[key_idx(entries, k)].0 == k,
        forall|j: int| 0 <= j < key_idx(entries, k) ==> (#[trigger] entries[j]).0 != k,
    decreases entries.len(),
{
    if entries.len() > 0 && entries[0].0 != k {
        lemma_key_idx(entries.drop_first(), k);
        assert forall|j: int| 0 <= j < key_idx(entries, k) implies (#[trigger] entries[j]).0 != k by {
            if j > 0 {
                assert(entries.drop_first()[j - 1] == entries[j]);
            }
        }
    }
}

/// Keyed insertion: replaces the first entry holding `k` in place, or
/// appends a new entry when none does.
pub open spec fn upsert(
    entries: Seq<(Seq<char>, ValModel)>,
    k: Seq<char>,
    v: ValModel,
) -> Seq<(Seq<char>, ValModel)> {
    let i = key_idx(entries, k);
    if i < entries.len() {
        entries.update(i, (k, v))
    } else {
        entries.push((k, v))
    }
}

/// Keyed insertion preserves key uniqueness.
pub proof fn lemma_upsert_unique(entries: Seq<(Seq<char>, ValModel)>, k: Seq<char>, v: ValModel)
    requires
        keys_unique(entries),
    ensures
        keys_unique(upsert(entries, k, v)),
{
    lemma_key_idx(entries, k);
    let i = key_idx(entries, k);
    let r = upsert(entries, k, v);
    if i < entries.len() {
        assert forall|a: int, b: int| 0 <= a < b < r.len() implies (#[trigger] r[a]).0 != (
        #[trigger] r[b]).0 by {
            assert(entries[a].0 == r[a].0 || a == i);
            assert(entries[b].0 == r[b].0 || b == i);
        }
    } else {
        assert forall|a: int, b: int| 0 <= a < b < r.len() implies (#[trigger] r[a]).0 != (
        #[trigger] r[b]).0 by {
            if b == entries.len() {
                assert(r[a] == entries[a]);
            }
        }
    }
}

/// Inserts `(key, val)` into an entry list with keyed-insertion semantics:
/// an existing entry with the same key is replaced in place, otherwise the
/// pair is appended.
pub fn obj_insert(entries: &mut Vec<(String, OrtValue)>, key: String, val: OrtValue)
    ensures
        entry_models_of(final(entries)@) == upsert(
            entry_models_of(old(entries)@),
            key@,
            val.model(),
        ),
{
    let ghost m = entry_models_of(entries@);
    proof {
        lemma_entry_models_of(entries@);
        lemma_key_idx(m, key@);
    }
    let n = entries.len();
    let mut i: usize = 0;
    while i < n
        invariant
            n == entries@.len(),
            i <= n,
            entries@ == old(entries)@,
            m == entry_models_of(entries@),
            m.len() == n,
            forall|k: int|
                0 <= k < n ==> m[k] == ((#[trigger] entries@[k]).0@, entries@[k].1.model()),
            forall|j: int| 0 <= j < i ==> (#[trigger] m[j]).0 != key@,
            0 <= key_idx(m, key@) <= m.len(),
            key_idx(m, key@) < m.len() ==> m[key_idx(m, key@)].0 == key@,
            forall|j: int| 0 <= j < key_idx(m, key@) ==> (#[trigger] m[j]).0 != key@,
        decreases n - i,
    {
        if str_eq(entries[i].0.as_str(), key.as_str()) {
            proof {
                assert(key_idx(m, key@) == i);
            }
            let ghost orig = entries@;
            let ghost gk = key@;
            let ghost gv = val.model();
            let _ = entries.remove(i);
            entries.insert(i, (key, val));
            proof {
                vstd::seq_lib::lemma_update_is_remove_insert(orig, i as int, entries@[i as int]);
                assert(entries@ =~= orig.update(i as int, entries@[i as int]));
                assert(entries@[i as int].0@ == gk && entries@[i as int].1.model() == gv);
                lemma_entry_models_of(entries@);
                let nm = entry_models_of(entries@);
                let um = m.update(i as int, (gk, gv));
                assert(nm.len() == um.len());
                assert forall|k: int| 0 <= k < nm.len() implies nm[k] == um[k] by {
                    assert(nm[k] == ((entries@[k]).0@, entries@[k].1.model()));
                    if k != i {
                        assert(entries@[k] == orig[k]);
                        assert(m[k] == ((orig[k]).0@, orig[k].1.model()));
                    }
                }
                assert(nm =~= um);
            }
            return;
        }
        i = i + 1;
    }
    proof {
        assert(key_idx(m, key@) == m.len());
    }
    let ghost orig = entries@;
    let ghost gk = key@;
    let ghost gv = val.model();
    entries.push((key, val));
    proof {
        lemma_entry_models_of(entries@);
        let nm = entry_models_of(entries@);
        let um = m.push((gk, gv));
        assert(nm.len() == um.len());
        assert forall|k: int| 0 <= k < nm.len() implies nm[k] == um[k] by {
            assert(nm[k] == ((entries@[k]).0@, entries@[k].1.model()));
            if k < orig.len() {
                assert(entries@[k] == orig[k]);
                assert(m[k] == ((orig[k]).0@, orig[k].1.model()));
            } else {
                assert(entries@[k].0@ == gk && entries@[k].1.model() == gv);
            }
        }
        assert(nm =~= um);
    }
}

/// Whether two strings hold the same characters.
pub fn str_eq(a: &str, b: &str) -> (r: bool)
    ensures
        r == (a@ == b@),
{
    let av = a.to_owned();
    let bv = b.to_owned();
    av.eq(&bv)
}

/// The key sequence of an object's entry list, in entry order.
pub open spec fn keys_of(entries: Seq<(Seq<char>, ValModel)>) -> Seq<Seq<char>> {
    entries.map_values(|e: (Seq<char>, ValModel)| e.0)
}

/// The key set of an object's entry list, ignoring order.
pub open spec fn key_set_of(entries: Seq<(Seq<char>, ValModel)>) -> Set<Seq<char>> {
    keys_of(entries).to_set()
}

/// Whether an entry list has pairwise distinct keys.
pub open spec fn keys_unique(entries: Seq<(Seq<char>, ValModel)>) -> bool {
    forall|i: int, j: int|
        0 <= i < j < entries.len() ==> (#[trigger] entries[i]).0 != (#[trigger] entries[j]).0
}

/// Well-formedness of a value tree: numeric literals match the numeric
/// grammar and every object's keys are distinct. The parser only builds
/// well-formed trees; the generator accepts any tree but round-trip
/// statements assume this invariant.
pub open spec fn wf(m: ValModel) -> bool
    decreases m,
{
    match m {
        ValModel::Null => true,
        ValModel::Bool(_) => true,
        ValModel::Number(t) => is_number_lit(t),
        ValModel::Text(_) => true,
        ValModel::Arr(es) => forall|i: int| 0 <= i < es.len() ==> wf(#[trigger] es[i]),
        ValModel::Obj(entries) => {
            &&& keys_unique(entries)
            &&& forall|i: int| 0 <= i < entries.len() ==> wf((#[trigger] entries[i]).1)
        },
    }
}

} // verus!
