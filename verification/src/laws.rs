//! Laws that relate the parser and the generator across functions. The
//! escaping involution stands beside the escape functions themselves, in
//! [`crate::escape::lemma_unescape_escape`].
use vstd::prelude::*;
use crate::escape::{escd, unescd};
use crate::generator::{lit_of, lits_join, is_uniform};
use crate::num_lit::{is_number_lit, is_digit, is_special_ci, is_mant_exp, is_mantissa,
    is_exp_part, e_idx, dot_idx, eq_ci};
use crate::ort_value::{ValModel, key_set_of, keys_of};
use crate::parser::{spec_value, classify_scalar, spec_parse, spec_doc, spec_fields, sfr,
    spec_data_lines, count_data, colon_idx, nl_idx, lines_of, lines_rec, strip_cr, header_ok,
    header_key, header_fields, strip_lead, strip_trail, is_header_of, ErrModel};
use crate::ort_value::upsert;
use crate::generator::gen_ort;
use crate::text::{is_space, trimmed, trim_front, trim_back};

verus! {

broadcast use vstd::seq::group_seq_axioms;

/// A sequence without whitespace at its edges trims to itself.
proof fn lemma_trim_id(s: Seq<char>)
    requires
        s.len() > 0 ==> !is_space(s[0]) && !is_space(s[s.len() - 1]),
    ensures
        trimmed(s) == s,
{
    assert(trim_front(s) == s);
    assert(trim_back(s) == s);
}

/// A sequence without backslashes unescapes to itself.
proof fn lemma_unesc_id(s: Seq<char>)
    requires
        forall|i: int| 0 <= i < s.len() ==> s[i] != '\\',
    ensures
        unescd(s) == s,
    decreases s.len(),
{
    if s.len() > 0 {
        lemma_unesc_id(s.drop_first());
        assert(unescd(s) =~= s);
    }
}

proof fn lemma_e_idx_char(s: Seq<char>, i: int)
    requires
        0 <= i <= s.len(),
    ensures
        i <= e_idx(s, i) <= s.len(),
        e_idx(s, i) < s.len() ==> (s[e_idx(s, i)] == 'e' || s[e_idx(s, i)] == 'E'),
        forall|j: int| i <= j < e_idx(s, i) ==> s[j] != 'e' && s[j] != 'E',
    decreases s.len() - i,
{
    if i < s.len() && s[i] != 'e' && s[i] != 'E' {
        lemma_e_idx_char(s, i + 1);
    }
}

proof fn lemma_dot_idx_char(s: Seq<char>, i: int, hi: int)
    requires
        0 <= i <= hi <= s.len(),
    ensures
        i <= dot_idx(s, i, hi) <= hi,
        dot_idx(s, i, hi) < hi ==> s[dot_idx(s, i, hi)] == '.',
        forall|j: int| i <= j < dot_idx(s, i, hi) ==> s[j] != '.',
    decreases hi - i,
{
    if i < hi && s[i] != '.' {
        lemma_dot_idx_char(s, i + 1, hi);
    }
}

/// Every character a numeric literal can hold: signs, digits, one dot, an
/// exponent letter, or the letters of the special spellings. None is a
/// backslash, whitespace, or an opening bracket or parenthesis.
proof fn lemma_number_chars(t: Seq<char>)
    requires
        is_number_lit(t),
    ensures
        t.len() > 0,
        !is_space(t[0]),
        !is_space(t[t.len() - 1]),
        t[0] != '[',
        t[0] != '(',
        forall|i: int| 0 <= i < t.len() ==> t[i] != '\\',
        forall|i: int| 0 <= i < t.len() ==> t[i] != ':' && t[i] != '#' && t[i] != '\n',
        forall|i: int|
            0 <= i < t.len() ==> t[i] != ',' && t[i] != '(' && t[i] != ')' && t[i] != '['
                && t[i] != ']',
{
    let o: int = if t.len() > 0 && (t[0] == '+' || t[0] == '-') { 1 } else { 0 };
    if is_special_ci(t, o) {
        assert forall|i: int| 0 <= i < t.len() implies t[i] != '\\' && t[i] != ':' && t[i] != '#'
            && t[i] != '\n' && t[i] != ',' && t[i] != '(' && t[i] != ')' && t[i] != '[' && t[i]
            != ']' by {
            if i >= o {
                assert(eq_ci(t[i], 'i') || eq_ci(t[i], 'n') || eq_ci(t[i], 'f') || eq_ci(
                    t[i],
                    'a',
                ) || eq_ci(t[i], 't') || eq_ci(t[i], 'y'));
            }
        }
        assert(!is_space(t[0]) && !is_space(t[t.len() - 1]));
        assert(t[0] != '[' && t[0] != '(');
    } else {
        assert(is_mant_exp(t, o));
        let ep = e_idx(t, o);
        lemma_e_idx_char(t, o);
        let dp = dot_idx(t, o, ep);
        lemma_dot_idx_char(t, o, ep);
        assert(is_mantissa(t, o, ep));
        // Every position is a sign, a digit, the dot, the exponent letter,
        // or a digit or sign of the exponent.
        assert forall|i: int| 0 <= i < t.len() implies t[i] != '\\' && !is_space(t[i]) && t[i]
            != '[' && t[i] != '(' && t[i] != ']' && t[i] != ')' && t[i] != ':' && t[i] != '#' && t[i]
            != '\n' && t[i] != ',' by {
            if i < o {
                assert(t[i] == '+' || t[i] == '-');
            } else if i < ep {
                if dp == ep {
                    assert(is_digit(t[i]));
                } else if i < dp {
                    assert(is_digit(t[i]));
                } else if i == dp {
                    assert(t[i] == '.');
                } else {
                    assert(is_digit(t[i]));
                }
            } else if i == ep {
                assert(t[i] == 'e' || t[i] == 'E');
            } else {
                assert(ep < t.len());
                assert(is_exp_part(t, ep + 1));
                let o2: int = if ep + 1 < t.len() && (t[ep + 1] == '+' || t[ep + 1] == '-') {
                    ep + 2
                } else {
                    ep + 1
                };
                if i < o2 {
                    assert(t[i] == '+' || t[i] == '-');
                } else {
                    assert(is_digit(t[i]));
                }
            }
        }
        // The literal is not empty: the mantissa holds a digit or a dot.
        if dp == ep {
            assert(o < ep);
        } else {
            assert(o <= dp < ep <= t.len());
        }
        assert(t.len() > 0);
    }
}

/// Round trip on scalars: the inline literal of a well-formed scalar value
/// parses back to the same value. A string scalar must carry no collision
/// with the syntax: its text keeps no whitespace at its edges and does not
/// itself read as a number, a boolean spelling, or an empty token.
pub proof fn lemma_scalar_round_trip(v: ValModel)
    requires
        crate::ort_value::wf(v),
        !(v is Arr),
        !(v is Obj),
        v is Text ==> {
            let s = v->Text_0;
            &&& classify_scalar(s) is Text
            &&& s.len() > 0
            &&& !is_space(s[0])
            &&& !is_space(s[s.len() - 1])
        },
    ensures
        spec_value(lit_of(v)) == v,
{
    match v {
        ValModel::Null => {
            assert(trimmed(lit_of(v)) =~= Seq::<char>::empty());
            assert(trim_front(Seq::<char>::empty()) == Seq::<char>::empty());
            assert(trim_back(Seq::<char>::empty()) == Seq::<char>::empty());
        },
        ValModel::Bool(b) => {
            let t = lit_of(v);
            lemma_trim_id(t);
            lemma_unesc_id(t);
            if b {
                assert(!is_number_lit(t)) by {
                    lemma_e_idx_char(t, 0);
                    assert(e_idx(t, 0) == 3) by {
                        assert(t[0] == 't' && t[1] == 'r' && t[2] == 'u' && t[3] == 'e');
                    }
                    lemma_dot_idx_char(t, 0, 3);
                    assert(dot_idx(t, 0, 3) == 3);
                    assert(!is_digit(t[0]));
                }
                assert(classify_scalar(t) == v);
            } else {
                assert(!is_number_lit(t)) by {
                    lemma_e_idx_char(t, 0);
                    assert(e_idx(t, 0) == 4) by {
                        assert(t[0] == 'f' && t[1] == 'a' && t[2] == 'l' && t[3] == 's' && t[4]
                            == 'e');
                    }
                    lemma_dot_idx_char(t, 0, 4);
                    assert(dot_idx(t, 0, 4) == 4);
                    assert(!is_digit(t[0]));
                }
                assert(classify_scalar(t) == v);
            }
            assert(spec_value(t) == v);
        },
        ValModel::Number(t) => {
            lemma_number_chars(t);
            lemma_trim_id(t);
            lemma_unesc_id(t);
            assert(spec_value(t) == v);
        },
        ValModel::Text(s) => {
            let t = lit_of(v);
            assert(t == escd(s));
            crate::escape::lemma_unescape_escape(s);
            lemma_escd_edges(s);
            lemma_trim_id(t);
            assert(t.len() >= 2 || t.len() > 0) by {
                lemma_escd_len(s);
            }
            assert(t[0] != '[' && t[0] != '(') by {
                lemma_escd_first(s);
            }
            assert(spec_value(t) == classify_scalar(unescd(t)));
            assert(unescd(t) == s);
            assert(classify_scalar(s) == v);
        },
        _ => {},
    }
}

/// Escaping keeps a non-empty text non-empty.
proof fn lemma_escd_len(s: Seq<char>)
    requires
        s.len() > 0,
    ensures
        escd(s).len() > 0,
{
    if crate::escape::is_reserved(s[0]) {
    } else {
    }
}

/// The first character of an escaped text: a backslash for a reserved first
/// character, the character itself otherwise. Neither opens a bracket.
proof fn lemma_escd_first(s: Seq<char>)
    requires
        s.len() > 0,
    ensures
        escd(s).len() > 0,
        escd(s)[0] == (if crate::escape::is_reserved(s[0]) {
            '\\'
        } else {
            s[0]
        }),
{
}

/// Escaping a text with no whitespace at its edges yields a text with no
/// whitespace at its edges.
proof fn lemma_escd_edges(s: Seq<char>)
    requires
        s.len() > 0,
        !is_space(s[0]),
        !is_space(s[s.len() - 1]),
    ensures
        escd(s).len() > 0,
        !is_space(escd(s)[0]),
        !is_space(escd(s)[escd(s).len() - 1]),
    decreases s.len(),
{
    let e = escd(s);
    lemma_escd_first(s);
    assert(!is_space(e[0]));
    if s.len() == 1 {
        assert(!is_space(e[e.len() - 1])) by {
            assert(s.drop_first() =~= Seq::<char>::empty());
            assert(escd(Seq::<char>::empty()) == Seq::<char>::empty());
            if crate::escape::is_reserved(s[0]) {
                assert(e =~= seq!['\\', crate::escape::esc_code(s[0])]);
                assert(!is_space(crate::escape::esc_code(s[0])));
            } else {
                assert(e =~= seq![s[0]]);
            }
        }
    } else {
        let rest = s.drop_first();
        assert(rest[rest.len() - 1] == s[s.len() - 1]);
        assert(rest.len() > 0);
        if is_space(rest[0]) {
            // The middle may hold whitespace; only the last character
            // matters, so recurse on the tail that ends the text.
            lemma_escd_last(rest);
        } else {
            lemma_escd_last(rest);
        }
        assert(e =~= (if crate::escape::is_reserved(s[0]) {
            seq!['\\', crate::escape::esc_code(s[0])]
        } else {
            seq![s[0]]
        }) + escd(rest));
        assert(escd(rest).len() > 0) by {
            lemma_escd_len(rest);
        }
        assert(e[e.len() - 1] == escd(rest)[escd(rest).len() - 1]);
    }
}

/// The last character of an escaped text is never whitespace unless the
/// text's own last character is unescaped whitespace.
proof fn lemma_escd_last(s: Seq<char>)
    requires
        s.len() > 0,
        !is_space(s[s.len() - 1]),
    ensures
        escd(s).len() > 0,
        !is_space(escd(s)[escd(s).len() - 1]),
    decreases s.len(),
{
    let e = escd(s);
    if s.len() == 1 {
        assert(s.drop_first() =~= Seq::<char>::empty());
        assert(escd(Seq::<char>::empty()) == Seq::<char>::empty());
        if crate::escape::is_reserved(s[0]) {
            assert(e =~= seq!['\\', crate::escape::esc_code(s[0])]);
            assert(!is_space(crate::escape::esc_code(s[0])));
        } else {
            assert(e =~= seq![s[0]]);
        }
    } else {
        let rest = s.drop_first();
        assert(rest[rest.len() - 1] == s[s.len() - 1]);
        lemma_escd_last(rest);
        assert(e[e.len() - 1] == escd(rest)[escd(rest).len() - 1]);
    }
}

/// Uniform-array detection reads only each element's key set and key count:
/// reordering the keys inside any elements changes nothing.
pub proof fn lemma_uniform_key_order_blind(es: Seq<ValModel>, es2: Seq<ValModel>)
    requires
        es.len() == es2.len(),
        forall|i: int| 0 <= i < es.len() ==> ((#[trigger] es[i]) is Obj <==> es2[i] is Obj),
        forall|i: int|
            0 <= i < es.len() && es[i] is Obj ==> key_set_of((#[trigger] es2[i])->Obj_0)
                == key_set_of(es[i]->Obj_0) && keys_of(es2[i]->Obj_0).len() == keys_of(
                es[i]->Obj_0,
            ).len(),
    ensures
        is_uniform(es2) == is_uniform(es),
{
}

/// Detection compares key sets symmetrically: in a uniform array every two
/// elements have equal key sets, in either direction.
pub proof fn lemma_uniform_symmetric(es: Seq<ValModel>, i: int, j: int)
    requires
        is_uniform(es),
        0 <= i < es.len(),
        0 <= j < es.len(),
    ensures
        key_set_of(es[i]->Obj_0) == key_set_of(es[j]->Obj_0),
        key_set_of(es[j]->Obj_0) == key_set_of(es[i]->Obj_0),
{
}

/// Changing one element's key set breaks uniformity, in any array of at
/// least two elements.
pub proof fn lemma_uniform_key_set_sensitive(es: Seq<ValModel>, es2: Seq<ValModel>, i: int)
    requires
        is_uniform(es),
        es.len() >= 2,
        es2.len() == es.len(),
        0 <= i < es.len(),
        forall|j: int| 0 <= j < es.len() && j != i ==> es2[j] == (#[trigger] es[j]),
        es2[i] is Obj,
        key_set_of(es2[i]->Obj_0) != key_set_of(es[i]->Obj_0),
    ensures
        !is_uniform(es2),
{
    if is_uniform(es2) {
        if i == 0 {
            assert(key_set_of(es2[1]->Obj_0) == key_set_of(es2[0]->Obj_0));
            assert(es2[1] == es[1]);
            assert(key_set_of(es[1]->Obj_0) == key_set_of(es[0]->Obj_0));
            assert(false);
        } else {
            assert(key_set_of(es2[i]->Obj_0) == key_set_of(es2[0]->Obj_0));
            assert(es2[0] == es[0]);
            assert(key_set_of(es[i]->Obj_0) == key_set_of(es[0]->Obj_0));
            assert(false);
        }
    }
}

proof fn lemma_colon_idx_at(s: Seq<char>, i: int, j: int)
    requires
        0 <= i <= j <= s.len(),
        forall|x: int| i <= x < j ==> s[x] != ':',
        j < s.len() ==> s[j] == ':',
    ensures
        colon_idx(s, i) == if j < s.len() {
            j
        } else {
            s.len() as int
        },
    decreases j - i,
{
    if i < j {
        lemma_colon_idx_at(s, i + 1, j);
    }
}

proof fn lemma_nl_idx_at(s: Seq<char>, i: int, j: int)
    requires
        0 <= i <= j <= s.len(),
        forall|x: int| i <= x < j ==> s[x] != '\n',
        j < s.len() ==> s[j] == '\n',
    ensures
        nl_idx(s, i) == if j < s.len() {
            j
        } else {
            s.len() as int
        },
    decreases j - i,
{
    if i < j {
        lemma_nl_idx_at(s, i + 1, j);
    }
}

/// Escaping never emits a raw newline: the newline itself is reserved and
/// every escape writes a backslash and a letter or symbol.
proof fn lemma_escd_no_newline(s: Seq<char>)
    ensures
        forall|i: int| 0 <= i < escd(s).len() ==> escd(s)[i] != '\n',
    decreases s.len(),
{
    if s.len() > 0 {
        lemma_escd_no_newline(s.drop_first());
        let head: Seq<char> = if crate::escape::is_reserved(s[0]) {
            seq!['\\', crate::escape::esc_code(s[0])]
        } else {
            seq![s[0]]
        };
        assert(escd(s) == head + escd(s.drop_first()));
        assert forall|i: int| 0 <= i < escd(s).len() implies escd(s)[i] != '\n' by {
            if i < head.len() {
                assert(escd(s)[i] == head[i]);
                assert(crate::escape::esc_code(s[0]) != '\n');
            } else {
                assert(escd(s)[i] == escd(s.drop_first())[i - head.len()]);
            }
        }
    }
}

/// The last character of an escaped text: the escape letter of a reserved
/// last character, the character itself otherwise.
proof fn lemma_escd_last_char(s: Seq<char>)
    requires
        s.len() > 0,
    ensures
        escd(s).len() > 0,
        escd(s)[escd(s).len() - 1] == (if crate::escape::is_reserved(s[s.len() - 1]) {
            crate::escape::esc_code(s[s.len() - 1])
        } else {
            s[s.len() - 1]
        }),
    decreases s.len(),
{
    let head: Seq<char> = if crate::escape::is_reserved(s[0]) {
        seq!['\\', crate::escape::esc_code(s[0])]
    } else {
        seq![s[0]]
    };
    if s.len() == 1 {
        assert(s.drop_first() =~= Seq::<char>::empty());
        assert(escd(Seq::<char>::empty()) == Seq::<char>::empty());
        assert(escd(s) =~= head);
    } else {
        let rest = s.drop_first();
        lemma_escd_last_char(rest);
        assert(rest[rest.len() - 1] == s[s.len() - 1]);
        assert(escd(s) == head + escd(rest));
        assert(escd(s)[escd(s).len() - 1] == escd(rest)[escd(rest).len() - 1]);
    }
}

/// Round trip on scalars through a whole document: a single-entry object
/// holding a non-null scalar renders as one section whose parse is the same
/// object. The key must be colon- and newline-free, non-blank at its edges
/// and no comment opener; a string scalar must carry no collision with the
/// syntax, as in [`lemma_scalar_round_trip`], and must not spell a comment
/// opener, a header colon at either end, or an empty token.
pub proof fn lemma_scalar_document_round_trip(k: Seq<char>, v: ValModel)
    requires
        crate::ort_value::wf(v),
        !(v is Arr),
        !(v is Obj),
        !(v is Null),
        k.len() > 0,
        !is_space(k[0]),
        !is_space(k[k.len() - 1]),
        k[0] != '#',
        forall|i: int| 0 <= i < k.len() ==> k[i] != ':' && k[i] != '\n',
        v is Text ==> {
            let s = v->Text_0;
            &&& classify_scalar(s) is Text
            &&& s.len() > 0
            &&& !is_space(s[0])
            &&& !is_space(s[s.len() - 1])
            &&& s[0] != '#'
            &&& s[0] != ':'
            &&& s[s.len() - 1] != ':'
        },
    ensures
        spec_parse(gen_ort(ValModel::Obj(seq![(k, v)]))) == Result::<ValModel, ErrModel>::Ok(
            ValModel::Obj(seq![(k, v)]),
        ),
{
    let en = seq![(k, v)];
    let lit = lit_of(v);
    let text = gen_ort(ValModel::Obj(en));
    assert(text == k + seq![':', '\n'] + lit);

    // The rendered literal is one non-blank line that reads as no header.
    assert(lit.len() > 0 && !is_space(lit[0]) && !is_space(lit[lit.len() - 1]) && lit[0] != '#'
        && lit[0] != ':' && lit[lit.len() - 1] != ':' && lit[lit.len() - 1] != '\r' && forall|
        i: int,
    | 0 <= i < lit.len() ==> lit[i] != '\n') by {
        match v {
            ValModel::Bool(b) => {
                if b {
                } else {
                }
            },
            ValModel::Number(t) => {
                lemma_number_chars(t);
            },
            ValModel::Text(s) => {
                lemma_escd_edges(s);
                lemma_escd_first(s);
                lemma_escd_last_char(s);
                lemma_escd_no_newline(s);
            },
            _ => {},
        }
    }

    // The text splits into the header line and the literal line.
    let a = k + seq![':'];
    assert(text =~= a + seq!['\n'] + lit);
    let ls = lines_of(text);
    assert(ls =~= seq![a, lit]) by {
        lemma_nl_idx_at(text, 0, a.len() as int);
        assert(text[a.len() as int] == '\n');
        assert(nl_idx(text, 0) == a.len());
        assert(text.subrange(0, a.len() as int) =~= a);
        assert(strip_cr(a) == a);
        lemma_nl_idx_at(text, a.len() + 1int, text.len() as int);
        assert(lines_rec(text, a.len() + 1int) =~= seq![strip_cr(
            text.subrange(a.len() + 1int, text.len() as int),
        )]);
        assert(text.subrange(a.len() + 1int, text.len() as int) =~= lit);
        assert(strip_cr(lit) == lit);
        assert(lines_rec(text, 0) =~= seq![strip_cr(text.subrange(0, a.len() as int))]
            + lines_rec(text, a.len() + 1int));
    }

    // The header line parses to the key and an empty field spec.
    let l0 = trimmed(a);
    assert(l0 == a) by {
        lemma_trim_id(a);
    }
    lemma_colon_idx_at(a, 0, k.len() as int);
    assert(colon_idx(a, 0) == k.len() < a.len());
    assert(a[0] == k[0]);
    assert(header_ok(a));
    assert(header_key(a) == Option::Some(k)) by {
        assert(a.take(k.len() as int) =~= k);
        lemma_trim_id(k);
    }
    assert(header_fields(a) =~= Seq::<char>::empty()) by {
        assert(a.skip(k.len() + 1int) =~= Seq::<char>::empty());
        assert(strip_trail(Seq::<char>::empty(), ':') == Seq::<char>::empty());
        assert(trim_front(Seq::<char>::empty()) == Seq::<char>::empty());
        assert(trim_back(Seq::<char>::empty()) == Seq::<char>::empty());
    }
    assert(spec_fields(header_fields(a)) == Option::Some(Seq::<crate::parser::FieldModel>::empty()))
        by {
        assert(trimmed(Seq::<char>::empty()).len() == 0) by {
            assert(trim_front(Seq::<char>::empty()) == Seq::<char>::empty());
            assert(trim_back(Seq::<char>::empty()) == Seq::<char>::empty());
        }
        assert(sfr(header_fields(a), 0, Seq::empty(), Seq::empty()) == Option::Some(
            Seq::<crate::parser::FieldModel>::empty(),
        ));
    }

    // One data line follows.
    let l1 = trimmed(lit);
    assert(l1 == lit) by {
        lemma_trim_id(lit);
    }
    assert(!is_header_of(lit));
    assert(count_data(ls, 2) == 0);
    assert(count_data(ls, 1) == 1);

    // The data line decodes to the scalar itself.
    lemma_scalar_round_trip(v);
    assert(spec_data_lines(ls, 1, Seq::empty(), 1, Seq::empty())
        == Result::<ValModel, ErrModel>::Ok(v)) by {
        assert(ls[1] == lit);
    }

    // The section lands under the key and the document ends.
    assert(upsert(Seq::empty(), k, v) =~= en) by {
        crate::ort_value::lemma_key_idx(Seq::empty(), k);
    }
    assert(spec_doc(ls, 2, en) == Result::<ValModel, ErrModel>::Ok(ValModel::Obj(en)));
    assert(spec_doc(ls, 0, Seq::empty()) == Result::<ValModel, ErrModel>::Ok(ValModel::Obj(en)))
        by {
        assert(ls[0] == a);
    }
}

/// The parenthesis weight of one character.
pub open spec fn pdelta(c: char) -> int {
    if c == '(' {
        1
    } else if c == ')' {
        -1
    } else {
        0
    }
}

/// The parenthesis depth after scanning `t` from depth `d`.
pub open spec fn pfinal(t: Seq<char>, d: int) -> int
    decreases t.len(),
{
    if t.len() == 0 {
        d
    } else {
        pfinal(t.drop_first(), d + pdelta(t[0]))
    }
}

/// Whether scanning `t` from depth `d` keeps the depth at one or more.
pub open spec fn stays_pos(t: Seq<char>, d: int) -> bool
    decreases t.len(),
{
    if t.len() == 0 {
        true
    } else {
        d + pdelta(t[0]) >= 1 && stays_pos(t.drop_first(), d + pdelta(t[0]))
    }
}

proof fn lemma_pfinal_concat(a: Seq<char>, b: Seq<char>, d: int)
    ensures
        pfinal(a + b, d) == pfinal(b, pfinal(a, d)),
    decreases a.len(),
{
    if a.len() == 0 {
        assert(a + b =~= b);
    } else {
        assert((a + b).drop_first() =~= a.drop_first() + b);
        assert((a + b)[0] == a[0]);
        lemma_pfinal_concat(a.drop_first(), b, d + pdelta(a[0]));
    }
}

proof fn lemma_stays_pos_concat(a: Seq<char>, b: Seq<char>, d: int)
    requires
        stays_pos(a, d),
        stays_pos(b, pfinal(a, d)),
    ensures
        stays_pos(a + b, d),
    decreases a.len(),
{
    if a.len() == 0 {
        assert(a + b =~= b);
    } else {
        assert((a + b).drop_first() =~= a.drop_first() + b);
        assert((a + b)[0] == a[0]);
        lemma_stays_pos_concat(a.drop_first(), b, d + pdelta(a[0]));
    }
}

proof fn lemma_plain_pfinal(t: Seq<char>, d: int)
    requires
        forall|i: int| 0 <= i < t.len() ==> t[i] != '(' && t[i] != ')',
    ensures
        pfinal(t, d) == d,
        d >= 1 ==> stays_pos(t, d),
    decreases t.len(),
{
    if t.len() > 0 {
        lemma_plain_pfinal(t.drop_first(), d);
    }
}

/// The close search walks through a region that keeps the depth positive
/// and continues from the region's final depth.
proof fn lemma_close_idx_skip(s: Seq<char>, i: int, j: int, d: int)
    requires
        0 <= i <= j <= s.len(),
        stays_pos(s.subrange(i, j), d),
    ensures
        crate::parser::close_idx(s, i, d) == crate::parser::close_idx(
            s,
            j,
            pfinal(s.subrange(i, j), d),
        ),
    decreases j - i,
{
    if i < j {
        let t = s.subrange(i, j);
        assert(t[0] == s[i]);
        assert(t.drop_first() =~= s.subrange(i + 1, j));
        assert(d + pdelta(s[i]) >= 1);
        lemma_close_idx_skip(s, i + 1, j, d + pdelta(s[i]));
    } else {
        assert(s.subrange(i, j) =~= Seq::<char>::empty());
    }
}

/// Keys a header can carry round trip: non-blank at the edges and free of
/// the field-spec delimiters; this holds at every nesting depth.
pub open spec fn good_entries(en: Seq<(Seq<char>, ValModel)>) -> bool
    decreases en, 1int,
        via good_entries_dec
{
    forall|i: int|
        0 <= i < en.len() ==> {
            &&& (#[trigger] en[i]).0.len() > 0
            &&& trimmed(en[i].0) == en[i].0
            &&& (forall|c: int|
                0 <= c < en[i].0.len() ==> en[i].0[c] != '(' && en[i].0[c] != ')' && en[i].0[c]
                    != ',')
            &&& (en[i].1 is Obj ==> good_entries(en[i].1->Obj_0))
        }
}

#[via_fn]
proof fn good_entries_dec(en: Seq<(Seq<char>, ValModel)>) {
    assert forall|i: int| 0 <= i < en.len() implies decreases_to!(en => (#[trigger] en[i]).1) by {
        assert(decreases_to!(en => en[i]));
        assert(decreases_to!(en[i] => en[i].1));
    }
}

/// The field tree a first row's entries induce: each key a leaf, or a
/// nested field when its value is itself an object.
pub open spec fn fields_of_entries(en: Seq<(Seq<char>, ValModel)>) -> Seq<
    crate::parser::FieldModel,
>
    decreases en, 1int,
{
    if en.len() == 0 {
        Seq::empty()
    } else {
        let f = match en[0].1 {
            ValModel::Obj(nen) => crate::parser::FieldModel::Nested(en[0].0, fields_of_entries(nen)),
            _ => crate::parser::FieldModel::Simple(en[0].0),
        };
        seq![f] + fields_of_entries(en.drop_first())
    }
}

proof fn lemma_pfinal_single(c: char, d: int)
    ensures
        pfinal(seq![c], d) == d + pdelta(c),
        stays_pos(seq![c], d) == (d + pdelta(c) >= 1),
{
    let t: Seq<char> = seq![c];
    assert(t.drop_first() =~= Seq::<char>::empty());
    assert(pfinal(Seq::<char>::empty(), d + pdelta(c)) == d + pdelta(c));
    assert(stays_pos(Seq::<char>::empty(), d + pdelta(c)));
}

/// A generated header is parenthesis-balanced and keeps the scan depth
/// positive inside any enclosing group.
proof fn lemma_hdr_balance(en: Seq<(Seq<char>, ValModel)>, d: int)
    requires
        good_entries(en),
        d >= 1,
    ensures
        pfinal(crate::generator::hdr_join(en), d) == d,
        stays_pos(crate::generator::hdr_join(en), d),
    decreases en, 1int,
{
    let h = crate::generator::hdr_join(en);
    if en.len() == 0 {
        assert(h == Seq::<char>::empty());
    } else {
        let key = en[0].0;
        assert(forall|c: int| 0 <= c < key.len() ==> key[c] != '(' && key[c] != ')');
        lemma_plain_pfinal(key, d);
        let col: Seq<char> = match en[0].1 {
            ValModel::Obj(nen) => key + seq!['('] + crate::generator::hdr_join(nen) + seq![')'],
            _ => key,
        };
        assert(pfinal(col, d) == d && stays_pos(col, d)) by {
            match en[0].1 {
                ValModel::Obj(nen) => {
                    lemma_hdr_balance(nen, d + 1);
                    let hn = crate::generator::hdr_join(nen);
                    let open: Seq<char> = seq!['('];
                    let close: Seq<char> = seq![')'];
                    lemma_pfinal_single('(', d);
                    lemma_pfinal_single(')', d + 1);
                    assert(pfinal(open, d) == d + 1 && stays_pos(open, d));
                    assert(pfinal(close, d + 1) == d && stays_pos(close, d + 1));
                    lemma_pfinal_concat(key, open, d);
                    lemma_stays_pos_concat(key, open, d);
                    lemma_pfinal_concat(key + open, hn, d);
                    lemma_stays_pos_concat(key + open, hn, d);
                    lemma_pfinal_concat(key + open + hn, close, d);
                    lemma_stays_pos_concat(key + open + hn, close, d);
                    assert(col =~= key + open + hn + close);
                },
                _ => {},
            }
        }
        if en.len() == 1 {
            assert(h == col);
        } else {
            let comma: Seq<char> = seq![','];
            assert(good_entries(en.drop_first())) by {
                assert(forall|i: int|
                    0 <= i < en.drop_first().len() ==> en.drop_first()[i] == en[i + 1]);
            }
            lemma_hdr_balance(en.drop_first(), d);
            let rest = crate::generator::hdr_join(en.drop_first());
            lemma_pfinal_single(',', d);
            assert(pfinal(comma, d) == d && stays_pos(comma, d));
            lemma_pfinal_concat(col, comma, d);
            lemma_stays_pos_concat(col, comma, d);
            lemma_pfinal_concat(col + comma, rest, d);
            lemma_stays_pos_concat(col + comma, rest, d);
            assert(h =~= col + comma + rest);
        }
    }
}

/// The field scan accumulates a run of plain characters into the name.
proof fn lemma_sfr_plain(
    s: Seq<char>,
    i: int,
    j: int,
    cur: Seq<char>,
    acc: Seq<crate::parser::FieldModel>,
)
    requires
        0 <= i <= j <= s.len(),
        forall|x: int| i <= x < j ==> s[x] != '(' && s[x] != ')' && s[x] != ',',
    ensures
        sfr(s, i, cur, acc) == sfr(s, j, cur + s.subrange(i, j), acc),
    decreases j - i,
{
    if i < j {
        lemma_sfr_plain(s, i + 1, j, cur.push(s[i]), acc);
        assert(cur.push(s[i]) + s.subrange(i + 1, j) =~= cur + s.subrange(i, j));
    } else {
        assert(cur + s.subrange(i, j) =~= cur);
    }
}

/// The field scan reads a generated header back into exactly the field tree
/// its entries induce, whatever fields were already read.
proof fn lemma_sfr_hdr(
    s: Seq<char>,
    i: int,
    en: Seq<(Seq<char>, ValModel)>,
    acc: Seq<crate::parser::FieldModel>,
)
    requires
        0 <= i <= s.len(),
        s.subrange(i, s.len() as int) == crate::generator::hdr_join(en),
        good_entries(en),
    ensures
        sfr(s, i, Seq::empty(), acc) == Option::Some(acc + fields_of_entries(en)),
    decreases en,
{
    let h = crate::generator::hdr_join(en);
    if en.len() == 0 {
        assert(h == Seq::<char>::empty());
        assert(i == s.len());
        assert(trimmed(Seq::<char>::empty()).len() == 0) by {
            assert(trim_front(Seq::<char>::empty()) == Seq::<char>::empty());
            assert(trim_back(Seq::<char>::empty()) == Seq::<char>::empty());
        }
        assert(fields_of_entries(en) =~= Seq::<crate::parser::FieldModel>::empty());
        assert(acc + fields_of_entries(en) =~= acc);
    } else {
        let key = en[0].0;
        let kl = key.len() as int;
        let rest = en.drop_first();
        assert(good_entries(rest)) by {
            assert(forall|x: int| 0 <= x < rest.len() ==> rest[x] == en[x + 1]);
        }
        let col: Seq<char> = match en[0].1 {
            ValModel::Obj(nen) => key + seq!['('] + crate::generator::hdr_join(nen) + seq![')'],
            _ => key,
        };
        let tail: Seq<char> = if en.len() == 1 {
            Seq::empty()
        } else {
            seq![','] + crate::generator::hdr_join(rest)
        };
        assert(h == col + tail || (en.len() == 1 && h == col));
        assert(h =~= col + tail) by {
            if en.len() == 1 {
                assert(col + tail =~= col);
            }
        }
        // The key's characters sit first.
        assert(forall|x: int| 0 <= x < kl ==> s[i + x] == key[x]) by {
            assert(forall|x: int|
                0 <= x < kl ==> s.subrange(i, s.len() as int)[x] == s[i + x]);
            assert(forall|x: int| 0 <= x < kl ==> h[x] == col[x] && col[x] == key[x]);
        }
        assert forall|x: int| i <= x < i + kl implies s[x] != '(' && s[x] != ')' && s[x]
            != ',' by {
            assert(s[i + (x - i)] == key[x - i]);
        }
        lemma_sfr_plain(s, i, i + kl, Seq::empty(), acc);
        assert(Seq::<char>::empty() + s.subrange(i, i + kl) =~= s.subrange(i, i + kl));
        assert(s.subrange(i, i + kl) =~= key);
        assert(sfr(s, i, Seq::empty(), acc) == sfr(s, i + kl, key, acc));
        match en[0].1 {
            ValModel::Obj(nen) => {
                let hn = crate::generator::hdr_join(nen);
                let hl = hn.len() as int;
                assert(col =~= key + (seq!['('] + hn + seq![')']));
                assert(forall|x: int| 0 <= x < h.len() ==> s[i + x] == h[x]) by {
                    assert(forall|x: int|
                        0 <= x < h.len() ==> s.subrange(i, s.len() as int)[x] == s[i + x]);
                }
                assert(col[kl] == '(') by {
                    assert(col =~= key + (seq!['('] + hn + seq![')']));
                }
                assert(h[kl] == col[kl]);
                assert(s[i + kl] == h[kl]);
                assert(s[i + kl] == '(');
                // The scan takes the name, finds the matching close, and
                // reads the sub-spec from the inside.
                assert(trimmed(key) == key);
                let jstart = i + kl + 1;
                let jclose = jstart + hl;
                assert(jclose < s.len());
                assert(s.subrange(jstart, jclose) =~= hn) by {
                    assert(forall|x: int| 0 <= x < hl ==> h[kl + 1 + x] == hn[x]);
                }
                lemma_hdr_balance(nen, 1);
                lemma_close_idx_skip(s, jstart, jclose, 1);
                assert(s[jclose] == ')') by {
                    assert(h[kl + 1 + hl] == ')');
                }
                assert(crate::parser::close_idx(s, jclose, 1) == jclose);
                let j = crate::parser::close_idx(s, jstart, 1);
                assert(j == jclose);
                let inner = s.subrange(jstart, j);
                assert(inner =~= hn);
                assert(decreases_to!(en => en[0]));
                assert(decreases_to!(en[0] => en[0].1));
                assert(inner.subrange(0, inner.len() as int) =~= hn);
                assert(inner.subrange(0, inner.len() as int) == crate::generator::hdr_join(nen));
                lemma_sfr_hdr(inner, 0, nen, Seq::empty());
                assert(sfr(inner, 0, Seq::empty(), Seq::empty()) == Option::Some(
                    Seq::<crate::parser::FieldModel>::empty() + fields_of_entries(nen),
                ));
                assert(Seq::<crate::parser::FieldModel>::empty() + fields_of_entries(nen)
                    =~= fields_of_entries(nen));
                let nf = crate::parser::FieldModel::Nested(key, fields_of_entries(nen));
                let acc2 = acc.push(nf);
                let next = if j + 1 <= s.len() {
                    j + 1
                } else {
                    s.len() as int
                };
                assert(next == j + 1);
                assert(sfr(s, i + kl, key, acc) == sfr(s, next, Seq::empty(), acc2));
                if en.len() == 1 {
                    assert(h.len() == col.len());
                    assert(next == s.len());
                    assert(sfr(s, next, Seq::empty(), acc2) == Option::Some(acc2)) by {
                        assert(trimmed(Seq::<char>::empty()).len() == 0) by {
                            assert(trim_front(Seq::<char>::empty()) == Seq::<char>::empty());
                            assert(trim_back(Seq::<char>::empty()) == Seq::<char>::empty());
                        }
                    }
                    assert(fields_of_entries(rest) =~= Seq::<crate::parser::FieldModel>::empty());
                    assert(acc + fields_of_entries(en) =~= acc2) by {
                        assert(fields_of_entries(en) =~= seq![nf]);
                    }
                } else {
                    assert(s[next] == ',') by {
                        assert(h[col.len() as int] == ',');
                        assert(next - i == col.len());
                    }
                    assert(trimmed(Seq::<char>::empty()).len() == 0) by {
                        assert(trim_front(Seq::<char>::empty()) == Seq::<char>::empty());
                        assert(trim_back(Seq::<char>::empty()) == Seq::<char>::empty());
                    }
                    assert(sfr(s, next, Seq::empty(), acc2) == sfr(s, next + 1, Seq::empty(), acc2));
                    assert(s.subrange(next + 1, s.len() as int) =~= crate::generator::hdr_join(
                        rest,
                    )) by {
                        assert(forall|x: int|
                            0 <= x < crate::generator::hdr_join(rest).len()
                                ==> h[col.len() + 1 + x] == crate::generator::hdr_join(rest)[x]);
                    }
                    lemma_sfr_hdr(s, next + 1, rest, acc2);
                    assert(acc + fields_of_entries(en) =~= acc2 + fields_of_entries(rest)) by {
                        assert(fields_of_entries(en) =~= seq![nf] + fields_of_entries(rest));
                    }
                }
            },
            _ => {
                let sf = crate::parser::FieldModel::Simple(key);
                if en.len() == 1 {
                    assert(h.len() == kl);
                    assert(i + kl == s.len());
                    assert(trimmed(key) == key);
                    assert(sfr(s, i + kl, key, acc) == Option::Some(acc.push(sf)));
                    assert(fields_of_entries(rest) =~= Seq::<crate::parser::FieldModel>::empty());
                    assert(acc + fields_of_entries(en) =~= acc.push(sf)) by {
                        assert(fields_of_entries(en) =~= seq![sf]);
                    }
                } else {
                    assert(forall|x: int| 0 <= x < h.len() ==> s[i + x] == h[x]) by {
                        assert(forall|x: int|
                            0 <= x < h.len() ==> s.subrange(i, s.len() as int)[x] == s[i + x]);
                    }
                    assert(s[i + kl] == ',') by {
                        assert(h[kl] == ',');
                    }
                    assert(trimmed(key) == key);
                    let acc2 = acc.push(sf);
                    assert(sfr(s, i + kl, key, acc) == sfr(s, i + kl + 1, Seq::empty(), acc2));
                    assert(s.subrange(i + kl + 1, s.len() as int) =~= crate::generator::hdr_join(
                        rest,
                    )) by {
                        assert(forall|x: int|
                            0 <= x < crate::generator::hdr_join(rest).len() ==> h[kl + 1 + x]
                                == crate::generator::hdr_join(rest)[x]);
                    }
                    lemma_sfr_hdr(s, i + kl + 1, rest, acc2);
                    assert(acc + fields_of_entries(en) =~= acc2 + fields_of_entries(rest)) by {
                        assert(fields_of_entries(en) =~= seq![sf] + fields_of_entries(rest));
                    }
                }
            },
        }
    }
}

/// Header nesting round-trips to arbitrary depth: the header the generator
/// writes for a first row's entries parses back to exactly the field tree
/// those entries induce, nested sub-schemas included.
pub proof fn lemma_header_round_trip(en: Seq<(Seq<char>, ValModel)>)
    requires
        good_entries(en),
    ensures
        spec_fields(crate::generator::hdr_join(en)) == Option::Some(fields_of_entries(en)),
{
    let h = crate::generator::hdr_join(en);
    assert(h.subrange(0, h.len() as int) =~= h);
    assert(h.subrange(0, h.len() as int) == h);
    lemma_sfr_hdr(h, 0, en, Seq::empty());
    assert(Seq::<crate::parser::FieldModel>::empty() + fields_of_entries(en) =~= fields_of_entries(
        en,
    ));
}

/// One step of the token scanner's state: the escape flag and the
/// parenthesis and bracket depths.
pub open spec fn sstep(st: (bool, int, int), c: char) -> (bool, int, int) {
    if st.0 {
        (false, st.1, st.2)
    } else if c == '\\' {
        (true, st.1, st.2)
    } else if c == '(' {
        (false, st.1 + 1, st.2)
    } else if c == ')' {
        (false, st.1 - 1, st.2)
    } else if c == '[' {
        (false, st.1, st.2 + 1)
    } else if c == ']' {
        (false, st.1, st.2 - 1)
    } else {
        (false, st.1, st.2)
    }
}

/// The scanner state after consuming `t` from state `st`.
pub open spec fn srun(t: Seq<char>, st: (bool, int, int)) -> (bool, int, int)
    decreases t.len(),
{
    if t.len() == 0 {
        st
    } else {
        srun(t.drop_first(), sstep(st, t[0]))
    }
}

/// Whether consuming `t` from state `st` never meets a splitting comma.
pub open spec fn no_split(t: Seq<char>, st: (bool, int, int)) -> bool
    decreases t.len(),
{
    if t.len() == 0 {
        true
    } else {
        !(!st.0 && t[0] == ',' && st.1 == 0 && st.2 == 0) && no_split(t.drop_first(), sstep(st, t[0]))
    }
}

proof fn lemma_srun_concat(a: Seq<char>, b: Seq<char>, st: (bool, int, int))
    ensures
        srun(a + b, st) == srun(b, srun(a, st)),
        no_split(a, st) && no_split(b, srun(a, st)) ==> no_split(a + b, st),
    decreases a.len(),
{
    if a.len() == 0 {
        assert(a + b =~= b);
    } else {
        assert((a + b).drop_first() =~= a.drop_first() + b);
        assert((a + b)[0] == a[0]);
        lemma_srun_concat(a.drop_first(), b, sstep(st, a[0]));
    }
}

/// The splitter walks through a token that never splits, appending its
/// characters to the one under construction.
proof fn lemma_split_rec_skip(
    s: Seq<char>,
    i: int,
    j: int,
    st: (bool, int, int),
    cur: Seq<char>,
    acc: Seq<Seq<char>>,
)
    requires
        0 <= i <= j <= s.len(),
        no_split(s.subrange(i, j), st),
    ensures
        crate::split::split_rec(s, i, st.0, st.1, st.2, cur, acc) == crate::split::split_rec(
            s,
            j,
            srun(s.subrange(i, j), st).0,
            srun(s.subrange(i, j), st).1,
            srun(s.subrange(i, j), st).2,
            cur + s.subrange(i, j),
            acc,
        ),
    decreases j - i,
{
    let t = s.subrange(i, j);
    if i < j {
        assert(t[0] == s[i]);
        assert(t.drop_first() =~= s.subrange(i + 1, j));
        lemma_split_rec_skip(s, i + 1, j, sstep(st, s[i]), cur.push(s[i]), acc);
        assert(cur.push(s[i]) + s.subrange(i + 1, j) =~= cur + t);
    } else {
        assert(t =~= Seq::<char>::empty());
        assert(cur + t =~= cur);
    }
}

/// Tokens joined by commas, the join of a data row or an inline literal.
pub open spec fn join_comma(ts: Seq<Seq<char>>) -> Seq<char>
    decreases ts.len(),
{
    if ts.len() == 0 {
        Seq::empty()
    } else if ts.len() == 1 {
        ts[0]
    } else {
        ts[0] + seq![','] + join_comma(ts.drop_first())
    }
}

/// Whether a token is scanner-neutral: consuming it from a rest state
/// splits nothing and returns to the rest state.
pub open spec fn neutral(t: Seq<char>) -> bool {
    no_split(t, (false, 0, 0)) && srun(t, (false, 0, 0)) == (false, 0int, 0int)
}

/// The top-level split undoes the comma join of neutral tokens.
proof fn lemma_split_rec_join(s: Seq<char>, i: int, ts: Seq<Seq<char>>, acc: Seq<Seq<char>>)
    requires
        0 <= i <= s.len(),
        s.subrange(i, s.len() as int) == join_comma(ts),
        ts.len() > 0,
        forall|k: int| 0 <= k < ts.len() ==> neutral(#[trigger] ts[k]),
    ensures
        crate::split::split_rec(s, i, false, 0, 0, Seq::empty(), acc) == acc + ts,
    decreases ts.len(),
{
    let t = ts[0];
    let j = i + t.len();
    assert(s.len() - i == join_comma(ts).len());
    assert(j <= s.len()) by {
        if ts.len() == 1 {
            assert(join_comma(ts) == t);
        } else {
            assert(join_comma(ts) == t + seq![','] + join_comma(ts.drop_first()));
        }
    }
    assert(forall|x: int| 0 <= x < s.len() - i ==> s.subrange(i, s.len() as int)[x] == s[i + x]);
    assert(s.subrange(i, j) =~= t) by {
        if ts.len() == 1 {
            assert(join_comma(ts) == t);
            assert(forall|x: int| 0 <= x < t.len() ==> s[i + x] == t[x]);
        } else {
            assert(join_comma(ts) == t + seq![','] + join_comma(ts.drop_first()));
            assert(forall|x: int| 0 <= x < t.len() ==> join_comma(ts)[x] == t[x]);
            assert(forall|x: int| 0 <= x < t.len() ==> s[i + x] == t[x]);
        }
    }
    lemma_split_rec_skip(s, i, j, (false, 0, 0), Seq::empty(), acc);
    assert(Seq::<char>::empty() + s.subrange(i, j) =~= t);
    if ts.len() == 1 {
        assert(j == s.len());
        assert(crate::split::split_rec(s, j, false, 0, 0, t, acc) == acc.push(t));
        assert(acc.push(t) =~= acc + ts) by {
            assert(ts =~= seq![t]);
        }
    } else {
        assert(s[j] == ',') by {
            assert(join_comma(ts)[t.len() as int] == ',');
        }
        assert(crate::split::split_rec(s, j, false, 0, 0, t, acc) == crate::split::split_rec(
            s,
            j + 1,
            false,
            0,
            0,
            Seq::empty(),
            acc.push(t),
        ));
        assert(s.subrange(j + 1, s.len() as int) =~= join_comma(ts.drop_first())) by {
            assert(forall|x: int|
                0 <= x < join_comma(ts.drop_first()).len() ==> join_comma(ts)[t.len() + 1 + x]
                    == join_comma(ts.drop_first())[x]);
        }
        assert(forall|k: int|
            0 <= k < ts.drop_first().len() ==> ts.drop_first()[k] == ts[k + 1]);
        lemma_split_rec_join(s, j + 1, ts.drop_first(), acc.push(t));
        assert(acc.push(t) + ts.drop_first() =~= acc + ts);
    }
}

/// Splitting undoes the comma join of neutral tokens.
pub proof fn lemma_split_join(ts: Seq<Seq<char>>)
    requires
        ts.len() > 0,
        forall|k: int| 0 <= k < ts.len() ==> neutral(#[trigger] ts[k]),
    ensures
        crate::split::split_top(join_comma(ts)) == ts,
{
    let s = join_comma(ts);
    assert(s.subrange(0, s.len() as int) =~= s);
    assert(s.subrange(0, s.len() as int) == s);
    lemma_split_rec_join(s, 0, ts, Seq::empty());
    assert(Seq::<Seq<char>>::empty() + ts =~= ts);
}

/// Whether a character passes the token scanner unchanged.
pub open spec fn plain_char(c: char) -> bool {
    c != '\\' && c != '(' && c != ')' && c != '[' && c != ']' && c != ','
}

proof fn lemma_srun_single(c: char, st: (bool, int, int))
    ensures
        srun(seq![c], st) == sstep(st, c),
        no_split(seq![c], st) == !(!st.0 && c == ',' && st.1 == 0 && st.2 == 0),
{
    let t: Seq<char> = seq![c];
    assert(t.drop_first() =~= Seq::<char>::empty());
    assert(srun(Seq::<char>::empty(), sstep(st, c)) == sstep(st, c));
    assert(no_split(Seq::<char>::empty(), sstep(st, c)));
}

proof fn lemma_plain_clean(t: Seq<char>, st: (bool, int, int))
    requires
        !st.0,
        forall|i: int| 0 <= i < t.len() ==> plain_char(#[trigger] t[i]),
    ensures
        srun(t, st) == st,
        no_split(t, st),
    decreases t.len(),
{
    if t.len() > 0 {
        lemma_plain_clean(t.drop_first(), sstep(st, t[0]));
    }
}

/// Escaped text is scanner-neutral at any unescaped state: delimiters and
/// commas only ever appear behind a backslash.
proof fn lemma_escd_clean(s: Seq<char>, st: (bool, int, int))
    requires
        !st.0,
    ensures
        srun(escd(s), st) == st,
        no_split(escd(s), st),
    decreases s.len(),
{
    if s.len() > 0 {
        let rest = s.drop_first();
        if crate::escape::is_reserved(s[0]) {
            let head: Seq<char> = seq!['\\', crate::escape::esc_code(s[0])];
            assert(escd(s) == head + escd(rest));
            assert(head.drop_first() =~= seq![crate::escape::esc_code(s[0])]);
            assert(srun(head, st) == st && no_split(head, st)) by {
                lemma_srun_single(crate::escape::esc_code(s[0]), (true, st.1, st.2));
            }
            lemma_escd_clean(rest, st);
            lemma_srun_concat(head, escd(rest), st);
        } else {
            let head: Seq<char> = seq![s[0]];
            assert(escd(s) == head + escd(rest));
            assert(plain_char(s[0]));
            assert(srun(head, st) == st && no_split(head, st)) by {
                lemma_srun_single(s[0], st);
            }
            lemma_escd_clean(rest, st);
            lemma_srun_concat(head, escd(rest), st);
        }
    }
}

/// Whether every object key in a value tree is free of the scanner's
/// special characters, at every depth.
pub open spec fn clean_keys(v: ValModel) -> bool
    decreases v, 1int,
        via clean_keys_dec
{
    match v {
        ValModel::Arr(es) => forall|i: int| 0 <= i < es.len() ==> clean_keys(#[trigger] es[i]),
        ValModel::Obj(en) => forall|i: int|
            0 <= i < en.len() ==> (forall|c: int|
                0 <= c < (#[trigger] en[i]).0.len() ==> plain_char(#[trigger] en[i].0[c]))
                && clean_keys(en[i].1),
        _ => true,
    }
}

#[via_fn]
proof fn clean_keys_dec(v: ValModel) {
    match v {
        ValModel::Arr(es) => {
            assert forall|i: int| 0 <= i < es.len() implies decreases_to!(v => (
            #[trigger] es[i])) by {
                assert(decreases_to!(v => es));
                assert(decreases_to!(es => es[i]));
            }
        },
        ValModel::Obj(en) => {
            assert forall|i: int| 0 <= i < en.len() implies decreases_to!(v => (
            #[trigger] en[i]).1) by {
                assert(decreases_to!(v => en));
                assert(decreases_to!(en => en[i]));
                assert(decreases_to!(en[i] => en[i].1));
            }
        },
        _ => {},
    }
}

/// A rendered inline literal is scanner-neutral: its commas sit inside its
/// own brackets and everything reserved is escaped.
proof fn lemma_lit_clean(v: ValModel, st: (bool, int, int))
    requires
        !st.0,
        st.1 >= 0,
        st.2 >= 0,
        crate::ort_value::wf(v),
        clean_keys(v),
    ensures
        srun(lit_of(v), st) == st,
        no_split(lit_of(v), st),
    decreases v, 0int,
{
    match v {
        ValModel::Null => {},
        ValModel::Bool(b) => {
            lemma_plain_clean(lit_of(v), st);
        },
        ValModel::Number(t) => {
            lemma_number_chars(t);
            lemma_plain_clean(t, st);
        },
        ValModel::Text(t) => {
            lemma_escd_clean(t, st);
        },
        ValModel::Arr(es) => {
            let open: Seq<char> = seq!['['];
            let close: Seq<char> = seq![']'];
            let st1 = (false, st.1, st.2 + 1);
            lemma_srun_single('[', st);
            lemma_srun_single(']', st1);
            if es.len() == 0 {
                assert(lit_of(v) == seq!['[', ']']);
                assert(seq!['[', ']'] =~= open + close);
                lemma_srun_concat(open, close, st);
            } else {
                assert(lit_of(v) == open + lits_join(es) + close);
                lemma_lits_join_clean(es, st1);
                lemma_srun_concat(open, lits_join(es), st);
                lemma_srun_concat(open + lits_join(es), close, st);
            }
        },
        ValModel::Obj(en) => {
            let open: Seq<char> = seq!['('];
            let close: Seq<char> = seq![')'];
            let st1 = (false, st.1 + 1, st.2);
            lemma_srun_single('(', st);
            lemma_srun_single(')', st1);
            if en.len() == 0 {
                assert(lit_of(v) == seq!['(', ')']);
                assert(seq!['(', ')'] =~= open + close);
                lemma_srun_concat(open, close, st);
            } else {
                assert(lit_of(v) == open + crate::generator::pairs_join(en) + close);
                lemma_pairs_join_clean(en, st1);
                lemma_srun_concat(open, crate::generator::pairs_join(en), st);
                lemma_srun_concat(open + crate::generator::pairs_join(en), close, st);
            }
        },
    }
}

proof fn lemma_lits_join_clean(es: Seq<ValModel>, st: (bool, int, int))
    requires
        !st.0,
        st.1 >= 0,
        st.2 >= 0,
        st.1 >= 1 || st.2 >= 1,
        forall|i: int| 0 <= i < es.len() ==> crate::ort_value::wf(#[trigger] es[i]),
        forall|i: int| 0 <= i < es.len() ==> clean_keys(#[trigger] es[i]),
        es.len() > 0,
    ensures
        srun(lits_join(es), st) == st,
        no_split(lits_join(es), st),
    decreases es, 1int,
{
    lemma_lit_clean(es[0], st);
    if es.len() == 1 {
        assert(lits_join(es) == lit_of(es[0]));
    } else {
        let comma: Seq<char> = seq![','];
        assert(lits_join(es) == lit_of(es[0]) + comma + lits_join(es.drop_first()));
        lemma_srun_single(',', st);
        assert(forall|i: int| 0 <= i < es.drop_first().len() ==> es.drop_first()[i] == es[i + 1]);
        lemma_lits_join_clean(es.drop_first(), st);
        lemma_srun_concat(lit_of(es[0]), comma, st);
        lemma_srun_concat(lit_of(es[0]) + comma, lits_join(es.drop_first()), st);
    }
}

proof fn lemma_pairs_join_clean(en: Seq<(Seq<char>, ValModel)>, st: (bool, int, int))
    requires
        !st.0,
        st.1 >= 0,
        st.2 >= 0,
        st.1 >= 1 || st.2 >= 1,
        forall|i: int| 0 <= i < en.len() ==> crate::ort_value::wf((#[trigger] en[i]).1),
        forall|i: int| 0 <= i < en.len() ==> clean_keys((#[trigger] en[i]).1),
        forall|i: int|
            0 <= i < en.len() ==> forall|c: int|
                0 <= c < (#[trigger] en[i]).0.len() ==> plain_char(#[trigger] en[i].0[c]),
        en.len() > 0,
    ensures
        srun(crate::generator::pairs_join(en), st) == st,
        no_split(crate::generator::pairs_join(en), st),
    decreases en, 1int,
{
    let key = en[0].0;
    let colon: Seq<char> = seq![':'];
    lemma_plain_clean(key, st);
    lemma_srun_single(':', st);
    lemma_lit_clean(en[0].1, st);
    let pair = key + colon + lit_of(en[0].1);
    assert(srun(pair, st) == st && no_split(pair, st)) by {
        lemma_srun_concat(key, colon, st);
        lemma_srun_concat(key + colon, lit_of(en[0].1), st);
    }
    if en.len() == 1 {
        assert(crate::generator::pairs_join(en) == pair);
    } else {
        let comma: Seq<char> = seq![','];
        assert(crate::generator::pairs_join(en) == pair + comma + crate::generator::pairs_join(
            en.drop_first(),
        ));
        lemma_srun_single(',', st);
        assert(forall|i: int| 0 <= i < en.drop_first().len() ==> en.drop_first()[i] == en[i + 1]);
        lemma_pairs_join_clean(en.drop_first(), st);
        lemma_srun_concat(pair, comma, st);
        lemma_srun_concat(pair + comma, crate::generator::pairs_join(en.drop_first()), st);
    }
}

/// A rendered tabular cell is scanner-neutral.
proof fn lemma_cell_clean(v: ValModel, st: (bool, int, int))
    requires
        !st.0,
        st.1 >= 0,
        st.2 >= 0,
        crate::ort_value::wf(v),
        clean_keys(v),
    ensures
        srun(crate::generator::cell_of(v), st) == st,
        no_split(crate::generator::cell_of(v), st),
    decreases v, 0int,
{
    match v {
        ValModel::Obj(en) => {
            let open: Seq<char> = seq!['('];
            let close: Seq<char> = seq![')'];
            let st1 = (false, st.1 + 1, st.2);
            lemma_srun_single('(', st);
            lemma_srun_single(')', st1);
            if en.len() == 0 {
                assert(crate::generator::cell_of(v) == seq!['(', ')']);
                assert(seq!['(', ')'] =~= open + close);
                lemma_srun_concat(open, close, st);
            } else {
                assert(crate::generator::cell_of(v) == open + crate::generator::cells_join(en)
                    + close);
                lemma_cells_join_clean(en, st1);
                lemma_srun_concat(open, crate::generator::cells_join(en), st);
                lemma_srun_concat(open + crate::generator::cells_join(en), close, st);
            }
        },
        _ => {
            lemma_lit_clean(v, st);
        },
    }
}

proof fn lemma_cells_join_clean(en: Seq<(Seq<char>, ValModel)>, st: (bool, int, int))
    requires
        !st.0,
        st.1 >= 0,
        st.2 >= 0,
        st.1 >= 1 || st.2 >= 1,
        forall|i: int| 0 <= i < en.len() ==> crate::ort_value::wf((#[trigger] en[i]).1),
        forall|i: int| 0 <= i < en.len() ==> clean_keys((#[trigger] en[i]).1),
        en.len() > 0,
    ensures
        srun(crate::generator::cells_join(en), st) == st,
        no_split(crate::generator::cells_join(en), st),
    decreases en, 1int,
{
    lemma_cell_clean(en[0].1, st);
    if en.len() == 1 {
        assert(crate::generator::cells_join(en) == crate::generator::cell_of(en[0].1));
    } else {
        let comma: Seq<char> = seq![','];
        assert(crate::generator::cells_join(en) == crate::generator::cell_of(en[0].1) + comma
            + crate::generator::cells_join(en.drop_first()));
        lemma_srun_single(',', st);
        assert(forall|i: int| 0 <= i < en.drop_first().len() ==> en.drop_first()[i] == en[i + 1]);
        lemma_cells_join_clean(en.drop_first(), st);
        lemma_srun_concat(crate::generator::cell_of(en[0].1), comma, st);
        lemma_srun_concat(crate::generator::cell_of(en[0].1) + comma, crate::generator::cells_join(
            en.drop_first(),
        ), st);
    }
}

/// The cell texts of one data row, one per column key.
pub open spec fn row_cells(keys: Seq<Seq<char>>, en: Seq<(Seq<char>, ValModel)>) -> Seq<Seq<char>> {
    Seq::new(keys.len(), |i: int| match crate::generator::assoc_get(en, keys[i]) {
        Option::Some(v) => crate::generator::cell_of(v),
        Option::None => Seq::<char>::empty(),
    })
}

proof fn lemma_row_of_is_join(keys: Seq<Seq<char>>, en: Seq<(Seq<char>, ValModel)>)
    ensures
        crate::generator::row_of(keys, en) == join_comma(row_cells(keys, en)),
    decreases keys.len(),
{
    if keys.len() > 0 {
        lemma_row_of_is_join(keys.drop_first(), en);
        assert(row_cells(keys.drop_first(), en) =~= row_cells(keys, en).drop_first());
        if keys.len() == 1 {
            assert(crate::generator::row_of(keys, en) == join_comma(row_cells(keys, en)));
        } else {
            assert(crate::generator::row_of(keys, en) == join_comma(row_cells(keys, en)));
        }
    } else {
        assert(row_cells(keys, en) =~= Seq::<Seq<char>>::empty());
    }
}

/// Round trip of a data row's tokenization: a rendered row splits back into
/// exactly its cells, one per column, whatever nesting the cells hold.
pub proof fn lemma_row_splits_back(keys: Seq<Seq<char>>, en: Seq<(Seq<char>, ValModel)>)
    requires
        keys.len() > 0,
        forall|i: int| 0 <= i < en.len() ==> crate::ort_value::wf((#[trigger] en[i]).1),
        forall|i: int| 0 <= i < en.len() ==> clean_keys((#[trigger] en[i]).1),
    ensures
        crate::split::split_top(crate::generator::row_of(keys, en)) == row_cells(keys, en),
{
    lemma_row_of_is_join(keys, en);
    let cells = row_cells(keys, en);
    assert forall|k: int| 0 <= k < cells.len() implies neutral(#[trigger] cells[k]) by {
        match crate::generator::assoc_get(en, keys[k]) {
            Option::Some(v) => {
                crate::ort_value::lemma_key_idx(en, keys[k]);
                lemma_cell_clean(v, (false, 0, 0));
            },
            Option::None => {
                assert(srun(Seq::<char>::empty(), (false, 0int, 0int)) == (false, 0int, 0int));
            },
        }
    }
    lemma_split_join(cells);
}

/// A key that survives a header or pair round trip: non-blank at the edges
/// and free of the scanner's special characters and of colons.
pub open spec fn key_ok(k: Seq<char>) -> bool {
    &&& k.len() > 0
    &&& trimmed(k) == k
    &&& forall|c: int| 0 <= c < k.len() ==> plain_char(#[trigger] k[c]) && k[c] != ':'
}

/// A value whose inline literal carries no collision with the syntax and so
/// parses back to the value itself: string leaves read as strings and keep
/// their edges, keys are plain, a trailing null array element and a lone
/// null object entry are ruled out since their renderings vanish.
pub open spec fn rt_ok(v: ValModel) -> bool
    decreases v, 1int,
        via rt_ok_dec
{
    match v {
        ValModel::Text(s) => {
            &&& classify_scalar(s) is Text
            &&& s.len() > 0
            &&& !is_space(s[0])
            &&& !is_space(s[s.len() - 1])
        },
        ValModel::Arr(es) => {
            &&& (forall|i: int| 0 <= i < es.len() ==> rt_ok(#[trigger] es[i]))
            &&& (es.len() > 0 ==> !(es[es.len() - 1] is Null))
        },
        ValModel::Obj(en) => {
            &&& (forall|i: int| 0 <= i < en.len() ==> key_ok((#[trigger] en[i]).0) && rt_ok(
                en[i].1,
            ))
            &&& !(en.len() == 1 && en[0].1 is Null)
        },
        _ => true,
    }
}

#[via_fn]
proof fn rt_ok_dec(v: ValModel) {
    match v {
        ValModel::Arr(es) => {
            assert forall|i: int| 0 <= i < es.len() implies decreases_to!(v => (
            #[trigger] es[i])) by {
                assert(decreases_to!(v => es));
                assert(decreases_to!(es => es[i]));
            }
        },
        ValModel::Obj(en) => {
            assert forall|i: int| 0 <= i < en.len() implies decreases_to!(v => (
            #[trigger] en[i]).1) by {
                assert(decreases_to!(v => en));
                assert(decreases_to!(en => en[i]));
                assert(decreases_to!(en[i] => en[i].1));
            }
        },
        _ => {},
    }
}

/// The edges of a non-null rendered literal: non-blank, so trimming leaves
/// the literal unchanged.
proof fn lemma_lit_edges(v: ValModel)
    requires
        crate::ort_value::wf(v),
        rt_ok(v),
        !(v is Null),
    ensures
        lit_of(v).len() > 0,
        !is_space(lit_of(v)[0]),
        !is_space(lit_of(v)[lit_of(v).len() - 1]),
{
    match v {
        ValModel::Bool(b) => {
            if b {
            } else {
            }
        },
        ValModel::Number(t) => {
            lemma_number_chars(t);
        },
        ValModel::Text(s) => {
            lemma_escd_edges(s);
        },
        ValModel::Arr(es) => {
            let t = lit_of(v);
            if es.len() == 0 {
                assert(t == seq!['[', ']']);
            } else {
                assert(t == seq!['['] + lits_join(es) + seq![']']);
                assert(t[0] == '[');
                assert(t[t.len() - 1] == ']');
            }
        },
        ValModel::Obj(en) => {
            let t = lit_of(v);
            if en.len() == 0 {
                assert(t == seq!['(', ')']);
            } else {
                assert(t == seq!['('] + crate::generator::pairs_join(en) + seq![')']);
                assert(t[0] == '(');
                assert(t[t.len() - 1] == ')');
            }
        },
        _ => {},
    }
}

/// The inline literals of a run of values, in order.
pub open spec fn lit_texts(es: Seq<ValModel>) -> Seq<Seq<char>> {
    Seq::new(es.len(), |i: int| lit_of(es[i]))
}

/// The rendered pairs of an inline object literal, in order.
pub open spec fn pair_texts(en: Seq<(Seq<char>, ValModel)>) -> Seq<Seq<char>> {
    Seq::new(en.len(), |i: int| en[i].0 + seq![':'] + lit_of(en[i].1))
}

/// The rendered cells of a nested tuple, in order.
pub open spec fn cell_texts(en: Seq<(Seq<char>, ValModel)>) -> Seq<Seq<char>> {
    Seq::new(en.len(), |i: int| crate::generator::cell_of(en[i].1))
}

proof fn lemma_lits_join_is_join(es: Seq<ValModel>)
    ensures
        lits_join(es) == join_comma(lit_texts(es)),
    decreases es.len(),
{
    if es.len() > 0 {
        lemma_lits_join_is_join(es.drop_first());
        assert(lit_texts(es.drop_first()) =~= lit_texts(es).drop_first());
    } else {
        assert(lit_texts(es) =~= Seq::<Seq<char>>::empty());
    }
}

proof fn lemma_pairs_join_is_join(en: Seq<(Seq<char>, ValModel)>)
    ensures
        crate::generator::pairs_join(en) == join_comma(pair_texts(en)),
    decreases en.len(),
{
    if en.len() > 0 {
        lemma_pairs_join_is_join(en.drop_first());
        assert(pair_texts(en.drop_first()) =~= pair_texts(en).drop_first());
    } else {
        assert(pair_texts(en) =~= Seq::<Seq<char>>::empty());
    }
}

proof fn lemma_cells_join_is_join(en: Seq<(Seq<char>, ValModel)>)
    ensures
        crate::generator::cells_join(en) == join_comma(cell_texts(en)),
    decreases en.len(),
{
    if en.len() > 0 {
        lemma_cells_join_is_join(en.drop_first());
        assert(cell_texts(en.drop_first()) =~= cell_texts(en).drop_first());
    } else {
        assert(cell_texts(en) =~= Seq::<Seq<char>>::empty());
    }
}

/// Keyed insertion of a fresh key appends.
proof fn lemma_upsert_fresh(acc: Seq<(Seq<char>, ValModel)>, k: Seq<char>, v: ValModel)
    requires
        forall|j: int| 0 <= j < acc.len() ==> (#[trigger] acc[j]).0 != k,
    ensures
        upsert(acc, k, v) == acc.push((k, v)),
{
    crate::ort_value::lemma_key_idx(acc, k);
    let i = crate::ort_value::key_idx(acc, k);
    if i < acc.len() {
        assert(false);
    }
}

proof fn lemma_trim_front_keeps_last(x: Seq<char>)
    requires
        x.len() > 0,
        !is_space(x[x.len() - 1]),
    ensures
        trim_front(x).len() > 0,
        trim_front(x)[trim_front(x).len() - 1] == x[x.len() - 1],
    decreases x.len(),
{
    if is_space(x[0]) {
        assert(x.len() > 1);
        assert(x.drop_first()[x.drop_first().len() - 1] == x[x.len() - 1]);
        lemma_trim_front_keeps_last(x.drop_first());
    }
}

proof fn lemma_trimmed_keeps_nonspace_tail(x: Seq<char>)
    requires
        x.len() > 0,
        !is_space(x[x.len() - 1]),
    ensures
        trimmed(x).len() > 0,
{
    lemma_trim_front_keeps_last(x);
    let f = trim_front(x);
    assert(trim_back(f) == f);
}

proof fn lemma_join_last(ts: Seq<Seq<char>>)
    requires
        ts.len() > 0,
        ts[ts.len() - 1].len() > 0,
    ensures
        join_comma(ts).len() > 0,
        join_comma(ts)[join_comma(ts).len() - 1] == ts[ts.len() - 1][ts[ts.len() - 1].len() - 1],
    decreases ts.len(),
{
    if ts.len() == 1 {
    } else {
        assert(ts.drop_first()[ts.drop_first().len() - 1] == ts[ts.len() - 1]);
        lemma_join_last(ts.drop_first());
        assert(join_comma(ts) == ts[0] + seq![','] + join_comma(ts.drop_first()));
        assert(join_comma(ts)[join_comma(ts).len() - 1] == join_comma(ts.drop_first())[join_comma(
            ts.drop_first(),
        ).len() - 1]);
    }
}

/// Reading the rendered pairs of an inline object literal back, left to
/// right, rebuilds exactly its entries after whatever was already read.
proof fn lemma_pairs_rebuild(
    en: Seq<(Seq<char>, ValModel)>,
    bound: int,
    acc: Seq<(Seq<char>, ValModel)>,
)
    requires
        bound >= 0,
        forall|i: int| 0 <= i < en.len() ==> (#[trigger] pair_texts(en)[i]).len() <= bound,
        forall|i: int|
            0 <= i < en.len() ==> key_ok((#[trigger] en[i]).0) && crate::ort_value::wf(en[i].1)
                && clean_keys(en[i].1) && rt_ok(en[i].1),
        crate::ort_value::keys_unique(en),
        forall|j: int, i: int|
            0 <= j < acc.len() && 0 <= i < en.len() ==> (#[trigger] acc[j]).0 != (
            #[trigger] en[i]).0,
    ensures
        crate::parser::spec_pairs(pair_texts(en), bound, acc) == acc + en,
    decreases en, 1int,
{
    if en.len() == 0 {
        assert(pair_texts(en) =~= Seq::<Seq<char>>::empty());
        assert(acc + en =~= acc);
    } else {
        let key = en[0].0;
        let lv = lit_of(en[0].1);
        let pair = pair_texts(en)[0];
        assert(pair == key + seq![':'] + lv);
        assert(forall|c: int| 0 <= c < key.len() ==> key[c] != ':');
        lemma_colon_idx_at(pair, 0, key.len() as int);
        assert(pair[key.len() as int] == ':');
        let p = crate::parser::colon_idx(pair, 0);
        assert(p == key.len() < pair.len());
        assert(pair.take(p) =~= key);
        assert(trimmed(key) == key);
        assert(pair.skip(p + 1) =~= lv);
        assert(pair.len() <= bound) by {
            assert(pair_texts(en)[0].len() <= bound);
        }
        assert(decreases_to!(en => en[0]));
        assert(decreases_to!(en[0] => en[0].1));
        lemma_literal_round_trip(en[0].1);
        assert(spec_value(pair.skip(p + 1)) == en[0].1);
        lemma_upsert_fresh(acc, key, en[0].1);
        let acc2 = acc.push((key, en[0].1));
        let rest = en.drop_first();
        assert(forall|i: int| 0 <= i < rest.len() ==> rest[i] == en[i + 1]);
        assert(pair_texts(rest) =~= pair_texts(en).drop_first());
        assert(forall|i: int|
            0 <= i < rest.len() ==> (#[trigger] pair_texts(rest)[i]).len() <= bound) by {
            assert(forall|i: int|
                0 <= i < rest.len() ==> pair_texts(rest)[i] == pair_texts(en)[i + 1]);
        }
        assert(forall|j: int, i: int|
            0 <= j < acc2.len() && 0 <= i < rest.len() ==> (#[trigger] acc2[j]).0 != (
            #[trigger] rest[i]).0) by {
            assert(forall|i: int| 0 <= i < rest.len() ==> rest[i] == en[i + 1]);
            assert(forall|j: int| 0 <= j < acc.len() ==> acc2[j] == acc[j]);
            assert(acc2[acc.len() as int].0 == en[0].0);
        }
        lemma_pairs_rebuild(rest, bound, acc2);
        assert(crate::parser::spec_pairs(pair_texts(en), bound, acc) == acc2 + rest);
        assert(acc2 + rest =~= acc + en);
    }
}

/// Round trip of inline literals: the rendered literal of any well-formed
/// value parses back to the value itself, to any nesting depth. String
/// leaves must carry no collision with the syntax, object keys must be
/// plain, and a trailing null array element or a lone null entry is ruled
/// out since their renderings vanish; see [`rt_ok`].
pub proof fn lemma_literal_round_trip(v: ValModel)
    requires
        crate::ort_value::wf(v),
        clean_keys(v),
        rt_ok(v),
    ensures
        spec_value(lit_of(v)) == v,
    decreases v, 0int,
{
    match v {
        ValModel::Arr(es) => {
            let t = lit_of(v);
            if es.len() == 0 {
                assert(t == seq!['[', ']']);
                lemma_trim_id(t);
                assert(t.subrange(1, t.len() - 1) =~= Seq::<char>::empty());
                assert(trimmed(Seq::<char>::empty()).len() == 0) by {
                    assert(trim_front(Seq::<char>::empty()) == Seq::<char>::empty());
                    assert(trim_back(Seq::<char>::empty()) == Seq::<char>::empty());
                }
                assert(spec_value(t) == ValModel::Arr(Seq::<ValModel>::empty()));
                assert(ValModel::Arr(Seq::<ValModel>::empty()) == v) by {
                    assert(es =~= Seq::<ValModel>::empty());
                }
            } else {
                let inner = lits_join(es);
                let toks = lit_texts(es);
                assert(t == seq!['['] + inner + seq![']']);
                lemma_lit_edges(v);
                lemma_trim_id(t);
                assert(t.subrange(1, t.len() - 1) =~= inner);
                lemma_lits_join_is_join(es);
                assert forall|k: int| 0 <= k < toks.len() implies neutral(#[trigger] toks[k]) by {
                    assert(decreases_to!(es => es[k]));
                    lemma_lit_clean(es[k], (false, 0, 0));
                }
                lemma_split_join(toks);
                assert(crate::split::split_top(inner) == toks);
                // The final token does not vanish, so nothing is dropped.
                let last = es[es.len() - 1];
                assert(decreases_to!(es => es[es.len() - 1]));
                lemma_lit_edges(last);
                assert(toks[toks.len() - 1] == lit_of(last));
                lemma_trim_id(lit_of(last));
                assert(crate::split::split_units(inner) == toks);
                // The inside does not trim away.
                lemma_join_last(toks);
                assert(inner[inner.len() - 1] == lit_of(last)[lit_of(last).len() - 1]);
                lemma_trimmed_keeps_nonspace_tail(inner);
                assert(spec_value(t) == ValModel::Arr(
                    crate::parser::spec_elems(toks, inner.len() as int),
                ));
                lemma_split_top_bound_use(inner, toks);
                crate::parser::lemma_spec_elems(toks, inner.len() as int);
                assert forall|k: int|
                    0 <= k < toks.len() implies spec_value(#[trigger] toks[k]) == es[k] by {
                    assert(decreases_to!(es => es[k]));
                    lemma_literal_round_trip(es[k]);
                }
                assert(crate::parser::spec_elems(toks, inner.len() as int).len() == es.len());
                assert forall|k: int|
                    0 <= k < es.len() implies crate::parser::spec_elems(
                    toks,
                    inner.len() as int,
                )[k] == es[k] by {
                    assert(crate::parser::spec_elems(toks, inner.len() as int)[k] == spec_value(
                        toks[k],
                    ));
                }
                assert(crate::parser::spec_elems(toks, inner.len() as int) =~= es);
            }
        },
        ValModel::Obj(en) => {
            let t = lit_of(v);
            if en.len() == 0 {
                assert(t == seq!['(', ')']);
                lemma_trim_id(t);
                assert(t.subrange(1, t.len() - 1) =~= Seq::<char>::empty());
                assert(trimmed(Seq::<char>::empty()).len() == 0) by {
                    assert(trim_front(Seq::<char>::empty()) == Seq::<char>::empty());
                    assert(trim_back(Seq::<char>::empty()) == Seq::<char>::empty());
                }
                assert(spec_value(t) == ValModel::Obj(Seq::<(Seq<char>, ValModel)>::empty()));
                assert(ValModel::Obj(Seq::<(Seq<char>, ValModel)>::empty()) == v) by {
                    assert(en =~= Seq::<(Seq<char>, ValModel)>::empty());
                }
            } else {
                let inner = crate::generator::pairs_join(en);
                let toks = pair_texts(en);
                assert(t == seq!['('] + inner + seq![')']);
                lemma_lit_edges(v);
                lemma_trim_id(t);
                assert(t.subrange(1, t.len() - 1) =~= inner);
                lemma_pairs_join_is_join(en);
                assert forall|k: int| 0 <= k < toks.len() implies neutral(#[trigger] toks[k]) by {
                    assert(decreases_to!(en => en[k]));
                    assert(decreases_to!(en[k] => en[k].1));
                    let key = en[k].0;
                    let lv = lit_of(en[k].1);
                    lemma_plain_clean(key, (false, 0, 0));
                    lemma_srun_single(':', (false, 0, 0));
                    lemma_lit_clean(en[k].1, (false, 0, 0));
                    lemma_srun_concat(key, seq![':'], (false, 0, 0));
                    lemma_srun_concat(key + seq![':'], lv, (false, 0, 0));
                    assert(toks[k] == key + seq![':'] + lv);
                }
                lemma_split_join(toks);
                assert(crate::split::split_top(inner) == toks);
                // The final pair keeps its key, so nothing is dropped.
                let lastp = toks[toks.len() - 1];
                assert(decreases_to!(en => en[en.len() - 1]));
                assert(lastp == en[en.len() - 1].0 + seq![':'] + lit_of(en[en.len() - 1].1));
                assert(lastp.len() > 0 && !is_space(lastp[lastp.len() - 1])) by {
                    let lv = lit_of(en[en.len() - 1].1);
                    if lv.len() == 0 {
                        assert(lastp[lastp.len() - 1] == ':');
                    } else {
                        assert(lastp[lastp.len() - 1] == lv[lv.len() - 1]);
                        if en[en.len() - 1].1 is Null {
                        } else {
                            lemma_lit_edges(en[en.len() - 1].1);
                        }
                    }
                }
                lemma_trimmed_keeps_nonspace_tail(lastp);
                assert(crate::split::split_units(inner) == toks);
                lemma_join_last(toks);
                assert(inner[inner.len() - 1] == lastp[lastp.len() - 1]);
                lemma_trimmed_keeps_nonspace_tail(inner);
                assert(spec_value(t) == ValModel::Obj(
                    crate::parser::spec_pairs(toks, inner.len() as int, Seq::empty()),
                ));
                lemma_split_top_bound_use(inner, toks);
                lemma_pairs_rebuild(en, inner.len() as int, Seq::empty());
                assert(Seq::<(Seq<char>, ValModel)>::empty() + en =~= en);
            }
        },
        _ => {
            lemma_scalar_round_trip(v);
        },
    }
}

/// Tokens of a split are bounded by what was split.
proof fn lemma_split_top_bound_use(inner: Seq<char>, toks: Seq<Seq<char>>)
    requires
        crate::split::split_top(inner) == toks,
    ensures
        forall|k: int| 0 <= k < toks.len() ==> (#[trigger] toks[k]).len() <= inner.len(),
{
    crate::split::lemma_split_top_bound(inner);
}

/// Reading the rendered cells of a nested tuple against its fields, left to
/// right, rebuilds exactly its entries after whatever was already read.
proof fn lemma_cells_rebuild(
    en: Seq<(Seq<char>, ValModel)>,
    acc: Seq<(Seq<char>, ValModel)>,
)
    requires
        forall|i: int|
            0 <= i < en.len() ==> key_ok((#[trigger] en[i]).0) && crate::ort_value::wf(en[i].1)
                && clean_keys(en[i].1) && rt_ok(en[i].1),
        crate::ort_value::keys_unique(en),
        forall|j: int, i: int|
            0 <= j < acc.len() && 0 <= i < en.len() ==> (#[trigger] acc[j]).0 != (
            #[trigger] en[i]).0,
    ensures
        crate::parser::spec_fv_list(fields_of_entries(en), cell_texts(en), acc)
            == Result::<Seq<(Seq<char>, ValModel)>, Seq<char>>::Ok(acc + en),
    decreases en, 2int,
{
    let subs = fields_of_entries(en);
    let vals = cell_texts(en);
    if en.len() == 0 {
        assert(subs =~= Seq::<crate::parser::FieldModel>::empty());
        assert(acc + en =~= acc);
    } else {
        let key = en[0].0;
        let v = en[0].1;
        assert(decreases_to!(en => en[0]));
        assert(decreases_to!(en[0] => en[0].1));
        let f0 = subs[0];
        assert(subs == seq![match v {
            ValModel::Obj(nen) => crate::parser::FieldModel::Nested(key, fields_of_entries(nen)),
            _ => crate::parser::FieldModel::Simple(key),
        }] + fields_of_entries(en.drop_first()));
        assert(vals[0] == crate::generator::cell_of(v));
        lemma_cell_round_trip(key, v);
        assert(crate::parser::spec_field_value(f0, vals[0])
            == Result::<ValModel, Seq<char>>::Ok(v));
        assert(crate::parser::field_name(f0) == key);
        lemma_upsert_fresh(acc, key, v);
        let acc2 = acc.push((key, v));
        let rest = en.drop_first();
        assert(forall|i: int| 0 <= i < rest.len() ==> rest[i] == en[i + 1]);
        assert(fields_of_entries(rest) =~= subs.drop_first());
        assert(cell_texts(rest) =~= vals.drop_first());
        assert(forall|j: int, i: int|
            0 <= j < acc2.len() && 0 <= i < rest.len() ==> (#[trigger] acc2[j]).0 != (
            #[trigger] rest[i]).0) by {
            assert(forall|j: int| 0 <= j < acc.len() ==> acc2[j] == acc[j]);
            assert(acc2[acc.len() as int].0 == en[0].0);
        }
        lemma_cells_rebuild(rest, acc2);
        assert(crate::parser::spec_fv_list(fields_of_entries(rest), cell_texts(rest), acc2)
            == Result::<Seq<(Seq<char>, ValModel)>, Seq<char>>::Ok(acc2 + rest));
        assert(acc2 + rest =~= acc + en);
    }
}

/// Round trip of one tabular cell against its header field: the rendered
/// cell of a well-formed value decodes, against the field the value itself
/// induces under `name`, back to the value — nested sub-schemas to any
/// depth included. The collisions of [`rt_ok`] are ruled out.
pub proof fn lemma_cell_round_trip(name: Seq<char>, v: ValModel)
    requires
        crate::ort_value::wf(v),
        clean_keys(v),
        rt_ok(v),
    ensures
        crate::parser::spec_field_value(
            match v {
                ValModel::Obj(nen) => crate::parser::FieldModel::Nested(
                    name,
                    fields_of_entries(nen),
                ),
                _ => crate::parser::FieldModel::Simple(name),
            },
            crate::generator::cell_of(v),
        ) == Result::<ValModel, Seq<char>>::Ok(v),
    decreases v, 3int,
{
    match v {
        ValModel::Obj(en) => {
            let cell = crate::generator::cell_of(v);
            if en.len() == 0 {
                assert(cell == seq!['(', ')']);
                lemma_trim_id(cell);
                assert(trimmed(cell) == seq!['(', ')']);
                assert(ValModel::Obj(Seq::<(Seq<char>, ValModel)>::empty()) == v) by {
                    assert(en =~= Seq::<(Seq<char>, ValModel)>::empty());
                }
            } else {
                let inner = crate::generator::cells_join(en);
                let toks = cell_texts(en);
                assert(cell == seq!['('] + inner + seq![')']);
                assert(cell[0] == '(' && cell[cell.len() - 1] == ')');
                lemma_trim_id(cell);
                let t = trimmed(cell);
                assert(t == cell);
                assert(t != seq!['(', ')']) by {
                    // A lone null entry is ruled out, so some cell is
                    // non-empty, or there are several cells.
                    if en.len() == 1 {
                        assert(!(en[0].1 is Null));
                        assert(decreases_to!(en => en[0]));
                        assert(decreases_to!(en[0] => en[0].1));
                        lemma_cell_nonempty(en[0].1);
                        assert(inner == crate::generator::cell_of(en[0].1));
                        assert(t.len() >= 3);
                    } else {
                        lemma_cells_join_is_join(en);
                        assert(join_comma(toks).len() >= 1) by {
                            assert(join_comma(toks) == toks[0] + seq![','] + join_comma(
                                toks.drop_first(),
                            ));
                        }
                        assert(t.len() >= 3);
                    }
                }
                assert(t[0] != '[');
                assert(cell.subrange(1, cell.len() - 1) =~= inner);
                lemma_cells_join_is_join(en);
                assert forall|k: int| 0 <= k < toks.len() implies neutral(#[trigger] toks[k]) by {
                    assert(decreases_to!(en => en[k]));
                    assert(decreases_to!(en[k] => en[k].1));
                    lemma_cell_clean(en[k].1, (false, 0, 0));
                }
                lemma_split_join(toks);
                assert(crate::split::split_top(inner) == toks);
                assert(toks.len() == fields_of_entries(en).len()) by {
                    lemma_fields_len(en);
                }
                lemma_cells_rebuild(en, Seq::empty());
                assert(Seq::<(Seq<char>, ValModel)>::empty() + en =~= en);
            }
        },
        _ => {
            assert(crate::generator::cell_of(v) == lit_of(v));
            lemma_literal_round_trip(v);
        },
    }
}

/// The field tree has one field per entry.
proof fn lemma_fields_len(en: Seq<(Seq<char>, ValModel)>)
    ensures
        fields_of_entries(en).len() == en.len(),
    decreases en, 2int,
{
    if en.len() > 0 {
        lemma_fields_len(en.drop_first());
    }
}

/// A rendered cell of a non-null value holds at least one character.
proof fn lemma_cell_nonempty(v: ValModel)
    requires
        crate::ort_value::wf(v),
        rt_ok(v),
        !(v is Null),
    ensures
        crate::generator::cell_of(v).len() > 0,
{
    match v {
        ValModel::Obj(en) => {},
        _ => {
            lemma_lit_edges(v);
        },
    }
}

} // verus!
