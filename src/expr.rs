use vstd::prelude::*;
use crate::document::{decor_around, render_line, Decor, Item, Repr, TableKeyValue, Value};
use crate::error::{Expected, TomlError};
use crate::model::{keyval_model, line_view, lemma_value_kind_unique};
use crate::grammar::{
    header_parts, keyval_parts, header_key, header_line, header_line_parts, key_at, keyval_line, keyval_line_parts,
    lemma_header_key, lemma_key_at, lemma_key_span_unique, lemma_value_span_unique,
};
use crate::key::{key_span, parse_key, slice_string};
use crate::trivia::{lemma_ws_span_unique, line_trailing_span, scan_line_trailing, scan_ws, ws_span};
use crate::value::{parse_value, value_span};

verus! {

/// `kv` is the key/value pair `[i, j)` of `t` under the cooked key `k`:
/// key, spaces, `=`, spaces, value, and the rest of the line.
pub open spec fn keyval_span(t: Seq<char>, i: int, j: int, k: Seq<char>, kv: TableKeyValue) -> bool {
    exists|ke: int, w1: int, w2: int, ve: int|
        #![trigger key_span(t, i, ke, k), ws_span(t, ke, w1), value_span(t, w2, ve, kv.value->Value_0.kind)]
        {
            &&& key_span(t, i, ke, k)
            &&& ws_span(t, ke, w1)
            &&& w1 < t.len() && t[w1] == '='
            &&& ws_span(t, w1 + 1, w2)
            &&& kv.value is Value
            &&& value_span(t, w2, ve, kv.value->Value_0.kind)
            &&& line_trailing_span(t, ve, j)
            &&& kv.key.raw@ == t.subrange(i, ke)
            &&& kv.key.decor.prefix@.len() == 0
            &&& kv.key.decor.suffix@ == t.subrange(ke, w1)
            &&& kv.value->Value_0.raw@ == t.subrange(w2, ve)
            &&& kv.value->Value_0.decor.prefix@ == t.subrange(w1 + 1, w2)
            &&& kv.value->Value_0.decor.suffix@ == t.subrange(ve, j)
        }
}

/// `repr` and `trailing` are the table header `[i, j)` of `t` with the cooked
/// key `k`: `[`, spaces, key, spaces, `]`, and the rest of the line.
pub open spec fn header_span(
    t: Seq<char>,
    i: int,
    j: int,
    k: Seq<char>,
    repr: Repr,
    trailing: Seq<char>,
) -> bool {
    exists|w1: int, ke: int, w2: int|
        #![trigger ws_span(t, i + 1, w1), key_span(t, w1, ke, k), ws_span(t, ke, w2)]
        {
            &&& 0 <= i < t.len() && t[i] == '['
            &&& ws_span(t, i + 1, w1)
            &&& key_span(t, w1, ke, k)
            &&& ws_span(t, ke, w2)
            &&& w2 < t.len() && t[w2] == ']'
            &&& line_trailing_span(t, w2 + 1, j)
            &&& repr.raw@ == t.subrange(w1, ke)
            &&& repr.decor.prefix@ == t.subrange(i + 1, w1)
            &&& repr.decor.suffix@ == t.subrange(ke, w2)
            &&& trailing == t.subrange(w2 + 1, j)
        }
}

/// Parses the key/value pair that starts at `i`, through the end of its line.
pub fn parse_keyval(s: &str, t: &Vec<char>, i: usize) -> (r: Result<
    (String, TableKeyValue, usize),
    TomlError,
>)
    requires
        t@ == s@,
        i <= t@.len(),
        t@.len() < usize::MAX,
    ensures
        r matches Ok((k, kv, j)) ==> {
            &&& i < j <= t@.len()
            &&& keyval_span(t@, i as int, j as int, k@, kv)
            &&& keyval_line(t@, i as int, j as int)
            &&& key_at(t@, i as int) == k@
            &&& line_view((k, kv)) == keyval_model(t@, i as int, j as int, Seq::empty())
            &&& render_line(kv) == t@.subrange(i as int, j as int)
        },
        r is Err ==> forall|j: int| !keyval_line(t@, i as int, j),
        r matches Err(e) ==> e is Syntax && exists|p: int| i <= p <= t@.len() && e.at(t@, p),
        r matches Err(TomlError::Syntax { expected, .. }) ==> expected != Expected::Expression,
{
    let (raw, k, ke) = match parse_key(s, t, i) {
        Ok(x) => x,
        Err(p) => {
            assert forall|j: int| !keyval_line(t@, i as int, j) by {
                if keyval_line(t@, i as int, j) {
                    let parts = keyval_line_parts(t@, i as int, j);
                }
            }
            return Err(TomlError::syntax(s, t, p, Expected::Key));
        },
    };
    let w1 = scan_ws(t, ke);
    if w1 == t.len() || t[w1] != '=' {
        assert forall|j: int| !keyval_line(t@, i as int, j) by {
            if keyval_line(t@, i as int, j) {
                let parts = keyval_line_parts(t@, i as int, j);
                lemma_key_span_unique(t@, i as int, ke as int, k@, parts.0, parts.4);
                lemma_ws_span_unique(t@, ke as int, w1 as int, parts.1);
            }
        }
        return Err(TomlError::syntax(s, t, w1, Expected::KeyValSep));
    }
    let w2 = scan_ws(t, w1 + 1);
    let (kind, ve) = match parse_value(s, t, w2) {
        Ok(x) => x,
        Err(p) => {
            assert forall|j: int| !keyval_line(t@, i as int, j) by {
                if keyval_line(t@, i as int, j) {
                    let parts = keyval_line_parts(t@, i as int, j);
                    lemma_key_span_unique(t@, i as int, ke as int, k@, parts.0, parts.4);
                    lemma_ws_span_unique(t@, ke as int, w1 as int, parts.1);
                    lemma_ws_span_unique(t@, w1 + 1, w2 as int, parts.2);
                }
            }
            return Err(TomlError::syntax(s, t, p, Expected::Value));
        },
    };
    let j = match scan_line_trailing(t, ve) {
        Ok(j) => j,
        Err(p) => {
            assert forall|j: int| !keyval_line(t@, i as int, j) by {
                if keyval_line(t@, i as int, j) {
                    let parts = keyval_line_parts(t@, i as int, j);
                    lemma_key_span_unique(t@, i as int, ke as int, k@, parts.0, parts.4);
                    lemma_ws_span_unique(t@, ke as int, w1 as int, parts.1);
                    lemma_ws_span_unique(t@, w1 + 1, w2 as int, parts.2);
                    lemma_value_span_unique(t@, w2 as int, ve as int, kind, parts.3, parts.5);
                }
            }
            return Err(TomlError::syntax(s, t, p, Expected::LineEnd));
        },
    };
    let value = Value {
        raw: slice_string(s, w2, ve),
        kind,
        decor: Decor { prefix: slice_string(s, w1 + 1, w2), suffix: slice_string(s, ve, j) },
    };
    let kv = TableKeyValue {
        key: Repr { raw, decor: Decor { prefix: String::new(), suffix: slice_string(s, ke, w1) } },
        value: Item::Value(value),
    };
    assert(render_line(kv) =~= t@.subrange(i as int, j as int));
    assert(keyval_span(t@, i as int, j as int, k@, kv));
    assert(keyval_line(t@, i as int, j as int));
    proof {
        lemma_key_at(t@, i as int, ke as int, k@);
        let p = keyval_line_parts(t@, i as int, j as int);
        lemma_key_span_unique(t@, i as int, ke as int, k@, p.0, p.4);
        lemma_ws_span_unique(t@, ke as int, w1 as int, p.1);
        lemma_ws_span_unique(t@, w1 + 1, w2 as int, p.2);
        lemma_value_span_unique(t@, w2 as int, ve as int, kind, p.3, p.5);
        lemma_value_kind_unique(t@, w2 as int, ve as int, kind, p.3, p.5);
        assert(line_view((k, kv)) == keyval_model(t@, i as int, j as int, Seq::empty()));
    }
    Ok((k, kv, j))
}

/// Parses the table header that starts at `i`, through the end of its line:
/// the cooked key, the key as written, and the rest of the line after `]`.
pub fn parse_std_header(s: &str, t: &Vec<char>, i: usize) -> (r: Result<
    (String, Repr, String, usize),
    TomlError,
>)
    requires
        t@ == s@,
        i < t@.len(),
        t@[i as int] == '[',
        t@.len() < usize::MAX,
    ensures
        r matches Ok((k, repr, trailing, j)) ==> {
            &&& i < j <= t@.len()
            &&& header_span(t@, i as int, j as int, k@, repr, trailing@)
            &&& header_line(t@, i as int, j as int)
            &&& header_key(t@, i as int) == k@
            &&& {
                let p = header_parts(t@, i as int, j as int);
                &&& k@ == p.3
                &&& repr.raw@ == t@.subrange(p.0, p.1)
                &&& repr.decor.prefix@ == t@.subrange(i + 1, p.0)
                &&& repr.decor.suffix@ == t@.subrange(p.1, p.2)
                &&& trailing@ == t@.subrange(p.2 + 1, j as int)
            }
            &&& seq!['['] + decor_around(repr.decor, repr.raw@) + seq![']'] + trailing@
                == t@.subrange(i as int, j as int)
        },
        r is Err ==> forall|j: int| !header_line(t@, i as int, j),
        r matches Err(e) ==> e is Syntax && exists|p: int| i <= p <= t@.len() && e.at(t@, p),
        r matches Err(TomlError::Syntax { expected, .. }) ==> expected != Expected::Expression,
{
    let w1 = scan_ws(t, i + 1);
    let (raw, k, ke) = match parse_key(s, t, w1) {
        Ok(x) => x,
        Err(p) => {
            assert forall|j: int| !header_line(t@, i as int, j) by {
                if header_line(t@, i as int, j) {
                    let parts = header_line_parts(t@, i as int, j);
                    lemma_ws_span_unique(t@, i + 1, w1 as int, parts.0);
                }
            }
            return Err(TomlError::syntax(s, t, p, Expected::Key));
        },
    };
    let w2 = scan_ws(t, ke);
    if w2 == t.len() || t[w2] != ']' {
        assert forall|j: int| !header_line(t@, i as int, j) by {
            if header_line(t@, i as int, j) {
                let parts = header_line_parts(t@, i as int, j);
                lemma_ws_span_unique(t@, i + 1, w1 as int, parts.0);
                lemma_key_span_unique(t@, w1 as int, ke as int, k@, parts.1, parts.3);
                lemma_ws_span_unique(t@, ke as int, w2 as int, parts.2);
            }
        }
        return Err(TomlError::syntax(s, t, w2, Expected::CloseBracket));
    }
    let j = match scan_line_trailing(t, w2 + 1) {
        Ok(j) => j,
        Err(p) => {
            assert forall|j: int| !header_line(t@, i as int, j) by {
                if header_line(t@, i as int, j) {
                    let parts = header_line_parts(t@, i as int, j);
                    lemma_ws_span_unique(t@, i + 1, w1 as int, parts.0);
                    lemma_key_span_unique(t@, w1 as int, ke as int, k@, parts.1, parts.3);
                    lemma_ws_span_unique(t@, ke as int, w2 as int, parts.2);
                }
            }
            return Err(TomlError::syntax(s, t, p, Expected::LineEnd));
        },
    };
    let repr = Repr {
        raw,
        decor: Decor { prefix: slice_string(s, i + 1, w1), suffix: slice_string(s, ke, w2) },
    };
    let trailing = slice_string(s, w2 + 1, j);
    assert(seq!['['] + decor_around(repr.decor, repr.raw@) + seq![']'] + trailing@
        =~= t@.subrange(i as int, j as int));
    assert(header_span(t@, i as int, j as int, k@, repr, trailing@));
    assert(header_line(t@, i as int, j as int));
    proof {
        lemma_header_key(t@, i as int, w1 as int, ke as int, k@);
        let p = header_line_parts(t@, i as int, j as int);
        lemma_ws_span_unique(t@, i + 1, w1 as int, p.0);
        lemma_key_span_unique(t@, w1 as int, ke as int, k@, p.1, p.3);
        lemma_ws_span_unique(t@, ke as int, w2 as int, p.2);
    }
    Ok((k, repr, trailing, j))
}

} // verus!
