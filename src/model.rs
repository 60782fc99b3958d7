use vstd::prelude::*;
use crate::document::{Document, Item, TableKeyValue, Value, ValueKind};
use crate::grammar::{expression_span, header_key, key_at, header_parts, keyval_parts, lemma_expression_unique, starts_keyval};
use crate::trivia::lemma_ws_span_unique;
use crate::trivia::{is_ws, ws_span};
use crate::value::{int_val, value_span};

verus! {

/// The cooked content of a value, as mathematical values.
pub enum KindModel {
    Integer(int),
    Boolean(bool),
    Str(Seq<char>),
}

pub struct ValueModel {
    pub raw: Seq<char>,
    pub kind: KindModel,
    pub prefix: Seq<char>,
    pub suffix: Seq<char>,
}

/// One entry of a table body: cooked key, key as written, its decoration,
/// and its value (`None` for an item that is no value).
pub struct LineModel {
    pub key: Seq<char>,
    pub raw: Seq<char>,
    pub prefix: Seq<char>,
    pub suffix: Seq<char>,
    pub value: Option<ValueModel>,
}

/// One entry of the root table.
pub enum EntryModel {
    Absent(Seq<char>),
    Value(LineModel),
    Table {
        key: Seq<char>,
        raw: Seq<char>,
        prefix: Seq<char>,
        suffix: Seq<char>,
        table_prefix: Seq<char>,
        table_suffix: Seq<char>,
        lines: Seq<LineModel>,
    },
}

/// A document as mathematical values: root entries in order, and the
/// trailing decoration.
pub struct DocModel {
    pub entries: Seq<EntryModel>,
    pub trailing: Seq<char>,
}

pub open spec fn kind_view(k: ValueKind) -> KindModel {
    match k {
        ValueKind::Integer(n) => KindModel::Integer(n as int),
        ValueKind::Boolean(b) => KindModel::Boolean(b),
        ValueKind::String(s) => KindModel::Str(s@),
    }
}

pub open spec fn value_view(v: Value) -> ValueModel {
    ValueModel { raw: v.raw@, kind: kind_view(v.kind), prefix: v.decor.prefix@, suffix: v.decor.suffix@ }
}

pub open spec fn line_view(e: (String, TableKeyValue)) -> LineModel {
    LineModel {
        key: e.0@,
        raw: e.1.key.raw@,
        prefix: e.1.key.decor.prefix@,
        suffix: e.1.key.decor.suffix@,
        value: match e.1.value {
            Item::Value(v) => Some(value_view(v)),
            _ => None,
        },
    }
}

pub open spec fn entry_view(e: (String, TableKeyValue)) -> EntryModel {
    match e.1.value {
        Item::Absent => EntryModel::Absent(e.0@),
        Item::Value(_) => EntryModel::Value(line_view(e)),
        Item::Table(t) => EntryModel::Table {
            key: e.0@,
            raw: e.1.key.raw@,
            prefix: e.1.key.decor.prefix@,
            suffix: e.1.key.decor.suffix@,
            table_prefix: t.decor.prefix@,
            table_suffix: t.decor.suffix@,
            lines: t.items@.map_values(|x: (String, TableKeyValue)| line_view(x)),
        },
    }
}

/// What a document holds, as mathematical values.
pub open spec fn doc_view(d: Document) -> DocModel {
    DocModel {
        entries: d.root.items@.map_values(|x: (String, TableKeyValue)| entry_view(x)),
        trailing: d.trailing@,
    }
}

/// The entry that the key/value line `[i, j)` gives, with `prefix` as the
/// decoration before its key.
pub open spec fn keyval_model(t: Seq<char>, i: int, j: int, prefix: Seq<char>) -> LineModel {
    let p = keyval_parts(t, i, j);
    LineModel {
        key: p.4,
        raw: t.subrange(i, p.0),
        prefix,
        suffix: t.subrange(p.0, p.1),
        value: Some(
            ValueModel {
                raw: t.subrange(p.2, p.3),
                kind: kind_view(p.5),
                prefix: t.subrange(p.1 + 1, p.2),
                suffix: t.subrange(p.3, j),
            },
        ),
    }
}

/// The empty table that the header line `[i, j)` opens, with `prefix` as the
/// decoration before the header.
pub open spec fn header_model(t: Seq<char>, i: int, j: int, prefix: Seq<char>) -> EntryModel {
    let p = header_parts(t, i, j);
    EntryModel::Table {
        key: p.3,
        raw: t.subrange(p.0, p.1),
        prefix: t.subrange(i + 1, p.0),
        suffix: t.subrange(p.1, p.2),
        table_prefix: prefix,
        table_suffix: t.subrange(p.2 + 1, j),
        lines: Seq::empty(),
    }
}

pub open spec fn add_line(e: EntryModel, line: LineModel) -> EntryModel {
    match e {
        EntryModel::Table { key, raw, prefix, suffix, table_prefix, table_suffix, lines } =>
            EntryModel::Table {
            key,
            raw,
            prefix,
            suffix,
            table_prefix,
            table_suffix,
            lines: lines.push(line),
        },
        _ => e,
    }
}

/// A table is open once the last root entry is a table.
pub open spec fn table_open(m: DocModel) -> bool {
    m.entries.len() > 0 && m.entries.last() is Table
}

/// The document after the expression `[i, j)`: a key/value line becomes an
/// entry of the open table or else of the root, a header opens a new table,
/// and either takes the pending decoration; comments and line breaks join
/// the pending decoration.
pub open spec fn expr_model(t: Seq<char>, i: int, j: int, m: DocModel) -> DocModel {
    if t[i] == '[' {
        DocModel {
            entries: m.entries.push(header_model(t, i, j, m.trailing)),
            trailing: Seq::empty(),
        }
    } else if starts_keyval(t[i]) {
        let line = keyval_model(t, i, j, m.trailing);
        if table_open(m) {
            DocModel {
                entries: m.entries.update(m.entries.len() - 1, add_line(m.entries.last(), line)),
                trailing: Seq::empty(),
            }
        } else {
            DocModel { entries: m.entries.push(EntryModel::Value(line)), trailing: Seq::empty() }
        }
    } else {
        DocModel { entries: m.entries, trailing: m.trailing + t.subrange(i, j) }
    }
}

/// The document that the expressions from `i` on build from `m`.
pub open spec fn document_from(t: Seq<char>, i: int, m: DocModel) -> DocModel
    decreases t.len() - i,
{
    if i >= t.len() {
        m
    } else {
        let (j, w) = choose|j: int, w: int|
            #![trigger expression_span(t, i, j), ws_span(t, j, w)]
            i < j <= w <= t.len() && expression_span(t, i, j) && ws_span(t, j, w);
        if i < j <= w <= t.len() {
            let next = expr_model(t, i, j, m);
            document_from(t, w, DocModel { entries: next.entries, trailing: next.trailing + t.subrange(j, w) })
        } else {
            m
        }
    }
}

/// The document that the text `t` describes.
pub open spec fn document_of(t: Seq<char>) -> DocModel {
    let w = choose|w: int| #[trigger] ws_span(t, 0, w);
    document_from(t, w, DocModel { entries: Seq::empty(), trailing: t.subrange(0, w) })
}

/// Two value spans at one place hold the same content.
pub proof fn lemma_value_kind_unique(t: Seq<char>, i: int, j1: int, k1: ValueKind, j2: int, k2: ValueKind)
    requires
        value_span(t, i, j1, k1),
        value_span(t, i, j2, k2),
        j1 == j2,
    ensures
        kind_view(k1) == kind_view(k2),
{
    crate::value::lemma_value_first_char(t, i, j1, k1);
    crate::value::lemma_value_first_char(t, i, j2, k2);
    match (k1, k2) {
        (ValueKind::Boolean(b1), ValueKind::Boolean(b2)) => {
            crate::value::lemma_subrange_chars(t, i, j1);
        },
        _ => {},
    }
}

pub proof fn lemma_document_from_step(t: Seq<char>, i: int, j: int, w: int, m: DocModel)
    requires
        i < j,
        expression_span(t, i, j),
        ws_span(t, j, w),
    ensures
        document_from(t, i, m) == document_from(
            t,
            w,
            DocModel {
                entries: expr_model(t, i, j, m).entries,
                trailing: expr_model(t, i, j, m).trailing + t.subrange(j, w),
            },
        ),
{
    let (j2, w2) = choose|j2: int, w2: int|
        #![trigger expression_span(t, i, j2), ws_span(t, j2, w2)]
        i < j2 <= w2 <= t.len() && expression_span(t, i, j2) && ws_span(t, j2, w2);
    lemma_expression_unique(t, i, j, j2);
    lemma_ws_span_unique(t, j, w, w2);
}

/// Where the expressions from `i` on stop: the first position, after an
/// expression and its trailing spaces, where no expression begins.
pub open spec fn stop_from(t: Seq<char>, i: int) -> int
    decreases t.len() - i,
{
    if i >= t.len() {
        i
    } else {
        let (j, w) = choose|j: int, w: int|
            #![trigger expression_span(t, i, j), ws_span(t, j, w)]
            i < j <= w <= t.len() && expression_span(t, i, j) && ws_span(t, j, w);
        if i < j <= w <= t.len() && expression_span(t, i, j) && ws_span(t, j, w) {
            stop_from(t, w)
        } else {
            i
        }
    }
}

/// Where the text `t` stops being a document.
pub open spec fn stop_of(t: Seq<char>) -> int {
    stop_from(t, choose|w: int| #[trigger] ws_span(t, 0, w))
}

pub open spec fn entry_key(e: EntryModel) -> Seq<char> {
    match e {
        EntryModel::Absent(k) => k,
        EntryModel::Value(l) => l.key,
        EntryModel::Table { key, .. } => key,
    }
}

/// The active scope of `m` holds the key `k`.
pub open spec fn scope_holds(m: DocModel, k: Seq<char>) -> bool {
    if table_open(m) {
        exists|i: int|
            0 <= i < m.entries.last()->Table_lines.len() && (#[trigger] m.entries.last()->Table_lines[i]).key == k
    } else {
        exists|i: int| 0 <= i < m.entries.len() && entry_key(#[trigger] m.entries[i]) == k
    }
}

/// The name of the active scope: the open table's key, empty for the root.
pub open spec fn scope_name(m: DocModel) -> Seq<char> {
    if table_open(m) {
        entry_key(m.entries.last())
    } else {
        Seq::empty()
    }
}

/// The key, and the name of its table, that the expression at `i` repeats.
pub open spec fn dup_at(t: Seq<char>, i: int, m: DocModel) -> Option<(Seq<char>, Seq<char>)> {
    if t[i] == '[' {
        if exists|n: int| 0 <= n < m.entries.len() && entry_key(#[trigger] m.entries[n]) == header_key(t, i) {
            Some((header_key(t, i), Seq::empty()))
        } else {
            None
        }
    } else if starts_keyval(t[i]) && scope_holds(m, key_at(t, i)) {
        Some((key_at(t, i), scope_name(m)))
    } else {
        None
    }
}

/// The first key, with its table's name, that the expressions from `i` on
/// repeat in their scope.
pub open spec fn first_dup_from(t: Seq<char>, i: int, m: DocModel) -> Option<(Seq<char>, Seq<char>)>
    decreases t.len() - i,
{
    if i >= t.len() {
        None
    } else {
        let (j, w) = choose|j: int, w: int|
            #![trigger expression_span(t, i, j), ws_span(t, j, w)]
            i < j <= w <= t.len() && expression_span(t, i, j) && ws_span(t, j, w);
        if i < j <= w <= t.len() && expression_span(t, i, j) && ws_span(t, j, w) {
            if dup_at(t, i, m) is Some {
                dup_at(t, i, m)
            } else {
                let next = expr_model(t, i, j, m);
                first_dup_from(
                    t,
                    w,
                    DocModel { entries: next.entries, trailing: next.trailing + t.subrange(j, w) },
                )
            }
        } else {
            None
        }
    }
}

/// The first key that the text `t` repeats in its table, with the table's name.
pub open spec fn first_dup(t: Seq<char>) -> Option<(Seq<char>, Seq<char>)> {
    let w = choose|w: int| #[trigger] ws_span(t, 0, w);
    first_dup_from(t, w, DocModel { entries: Seq::empty(), trailing: t.subrange(0, w) })
}

/// Spaces and tabs from `j` end somewhere.
pub proof fn lemma_ws_end(t: Seq<char>, j: int) -> (w: int)
    requires
        0 <= j <= t.len(),
    ensures
        ws_span(t, j, w),
    decreases t.len() - j,
{
    if j < t.len() && is_ws(t[j]) {
        lemma_ws_end(t, j + 1)
    } else {
        j
    }
}

pub proof fn lemma_folds_step(t: Seq<char>, i: int, j: int, w: int, m: DocModel)
    requires
        i < j,
        expression_span(t, i, j),
        ws_span(t, j, w),
    ensures
        stop_from(t, i) == stop_from(t, w),
        first_dup_from(t, i, m) == if dup_at(t, i, m) is Some {
            dup_at(t, i, m)
        } else {
            first_dup_from(
                t,
                w,
                DocModel {
                    entries: expr_model(t, i, j, m).entries,
                    trailing: expr_model(t, i, j, m).trailing + t.subrange(j, w),
                },
            )
        },
{
    let (j2, w2) = choose|j2: int, w2: int|
        #![trigger expression_span(t, i, j2), ws_span(t, j2, w2)]
        i < j2 <= w2 <= t.len() && expression_span(t, i, j2) && ws_span(t, j2, w2);
    lemma_expression_unique(t, i, j, j2);
    lemma_ws_span_unique(t, j, w, w2);
}

pub proof fn lemma_stop_here(t: Seq<char>, i: int)
    requires
        0 <= i < t.len(),
        forall|j: int| !expression_span(t, i, j),
    ensures
        stop_from(t, i) == i,
{
}

} // verus!
