use vstd::prelude::*;
use crate::document::{has_key, TableKeyValue, ValueKind};
use crate::key::{bare_key_span, is_bare_key_char, key_span, quoted_span};
use crate::trivia::{
    comment_span, is_eol, is_ws, lemma_comment_span_unique, lemma_ws_span_unique,
    line_ending_end, line_trailing_span, newline_len, starts_expression, ws_span,
};
use crate::value::{
    int_digits_start, is_digit, lemma_int_span_unique, lemma_subrange_chars, lemma_value_first_char,
    value_span,
};

verus! {

/// `[i, j)` is a key/value line: key, spaces, `=`, spaces, value, rest of line.
pub open spec fn keyval_line(t: Seq<char>, i: int, j: int) -> bool {
    exists|ke: int, w1: int, w2: int, ve: int, k: Seq<char>, kind: ValueKind|
        #![trigger key_span(t, i, ke, k), ws_span(t, ke, w1), value_span(t, w2, ve, kind)]
        {
            &&& key_span(t, i, ke, k)
            &&& ws_span(t, ke, w1)
            &&& w1 < t.len() && t[w1] == '='
            &&& ws_span(t, w1 + 1, w2)
            &&& value_span(t, w2, ve, kind)
            &&& line_trailing_span(t, ve, j)
        }
}

/// `[i, j)` is a table header line: `[`, spaces, key, spaces, `]`, rest of line.
pub open spec fn header_line(t: Seq<char>, i: int, j: int) -> bool {
    exists|w1: int, ke: int, w2: int, k: Seq<char>|
        #![trigger ws_span(t, i + 1, w1), key_span(t, w1, ke, k), ws_span(t, ke, w2)]
        {
            &&& 0 <= i < t.len() && t[i] == '['
            &&& ws_span(t, i + 1, w1)
            &&& key_span(t, w1, ke, k)
            &&& ws_span(t, ke, w2)
            &&& w2 < t.len() && t[w2] == ']'
            &&& line_trailing_span(t, w2 + 1, j)
        }
}

/// `[i, j)` is a comment with its line ending.
pub open spec fn comment_line(t: Seq<char>, i: int, j: int) -> bool {
    exists|c: int| #[trigger] comment_span(t, i, c) && line_ending_end(t, c) == Some(j)
}

/// `[i, j)` is one expression: a comment line, a key/value line, a table
/// header line, or a bare line break.
pub open spec fn expression_span(t: Seq<char>, i: int, j: int) -> bool {
    ||| comment_line(t, i, j)
    ||| keyval_line(t, i, j)
    ||| header_line(t, i, j)
    ||| newline_len(t, i) > 0 && j == i + newline_len(t, i)
}

/// From `i` to the end, `t` is a sequence of expressions, each followed by
/// spaces and tabs.
pub open spec fn expressions_from(t: Seq<char>, i: int) -> bool
    decreases t.len() - i,
{
    if i >= t.len() {
        i == t.len()
    } else {
        exists|j: int, w: int|
            #![trigger expression_span(t, i, j), ws_span(t, j, w)]
            i < j <= w <= t.len() && expression_span(t, i, j) && ws_span(t, j, w)
                && expressions_from(t, w)
    }
}

/// `t` is a document: leading spaces, then expressions to the end.
pub open spec fn valid_document(t: Seq<char>) -> bool {
    exists|w: int| #[trigger] ws_span(t, 0, w) && expressions_from(t, w)
}

pub proof fn lemma_quoted_span_unique(t: Seq<char>, i: int, j1: int, j2: int)
    requires
        quoted_span(t, i, j1),
        quoted_span(t, i, j2),
    ensures
        j1 == j2,
{
    if j1 < j2 {
        assert(t[j1 - 1] != '"');
    } else if j2 < j1 {
        assert(t[j2 - 1] != '"');
    }
}

pub proof fn lemma_key_span_unique(t: Seq<char>, i: int, j1: int, k1: Seq<char>, j2: int, k2: Seq<char>)
    requires
        key_span(t, i, j1, k1),
        key_span(t, i, j2, k2),
    ensures
        j1 == j2,
        k1 == k2,
        t[i] == '"' || is_bare_key_char(t[i]),
{
    if t[i] == '"' {
        assert(!is_bare_key_char('"'));
        assert(!bare_key_span(t, i, j1));
        assert(!bare_key_span(t, i, j2));
        lemma_quoted_span_unique(t, i, j1, j2);
    } else {
        assert(!quoted_span(t, i, j1));
        assert(!quoted_span(t, i, j2));
        if j1 < j2 {
            assert(is_bare_key_char(t[j1]));
        } else if j2 < j1 {
            assert(is_bare_key_char(t[j2]));
        }
    }
}

pub proof fn lemma_value_span_unique(t: Seq<char>, i: int, j1: int, k1: ValueKind, j2: int, k2: ValueKind)
    requires
        value_span(t, i, j1, k1),
        value_span(t, i, j2, k2),
    ensures
        j1 == j2,
{
    lemma_value_first_char(t, i, j1, k1);
    lemma_value_first_char(t, i, j2, k2);
    match (k1, k2) {
        (ValueKind::String(_), ValueKind::String(_)) => {
            lemma_quoted_span_unique(t, i, j1, j2);
        },
        (ValueKind::Integer(_), ValueKind::Integer(_)) => {
            lemma_int_span_unique(t, i, j1, j2);
        },
        (ValueKind::Boolean(b1), ValueKind::Boolean(b2)) => {
            lemma_subrange_chars(t, i, j1);
            lemma_subrange_chars(t, i, j2);
        },
        _ => {},
    }
}

pub proof fn lemma_line_trailing_unique(t: Seq<char>, i: int, j1: int, j2: int)
    requires
        line_trailing_span(t, i, j1),
        line_trailing_span(t, i, j2),
    ensures
        j1 == j2,
{
    let (wa, ca) = choose|w: int, c: int|
        #![trigger ws_span(t, i, w), line_ending_end(t, c)]
        ws_span(t, i, w) && (c == w || comment_span(t, w, c)) && (c == w ==> w == t.len() || t[w]
            != '#') && line_ending_end(t, c) == Some(j1);
    let (wb, cb) = choose|w: int, c: int|
        #![trigger ws_span(t, i, w), line_ending_end(t, c)]
        ws_span(t, i, w) && (c == w || comment_span(t, w, c)) && (c == w ==> w == t.len() || t[w]
            != '#') && line_ending_end(t, c) == Some(j2);
    lemma_ws_span_unique(t, i, wa, wb);
    if ca != wa && cb != wb {
        lemma_comment_span_unique(t, wa, ca, cb);
    }
}

pub proof fn lemma_keyval_line_unique(t: Seq<char>, i: int, j1: int, j2: int)
    requires
        keyval_line(t, i, j1),
        keyval_line(t, i, j2),
    ensures
        j1 == j2,
{
    let (ke1, w11, w21, ve1, k1, kind1) = choose|ke: int, w1: int, w2: int, ve: int, k: Seq<char>, kind: ValueKind|
        key_span(t, i, ke, k) && ws_span(t, ke, w1) && w1 < t.len() && t[w1] == '=' && ws_span(
            t,
            w1 + 1,
            w2,
        ) && value_span(t, w2, ve, kind) && line_trailing_span(t, ve, j1);
    let (ke2, w12, w22, ve2, k2, kind2) = choose|ke: int, w1: int, w2: int, ve: int, k: Seq<char>, kind: ValueKind|
        key_span(t, i, ke, k) && ws_span(t, ke, w1) && w1 < t.len() && t[w1] == '=' && ws_span(
            t,
            w1 + 1,
            w2,
        ) && value_span(t, w2, ve, kind) && line_trailing_span(t, ve, j2);
    lemma_key_span_unique(t, i, ke1, k1, ke2, k2);
    lemma_ws_span_unique(t, ke1, w11, w12);
    lemma_ws_span_unique(t, w11 + 1, w21, w22);
    lemma_value_span_unique(t, w21, ve1, kind1, ve2, kind2);
    lemma_line_trailing_unique(t, ve1, j1, j2);
}

pub proof fn lemma_header_line_unique(t: Seq<char>, i: int, j1: int, j2: int)
    requires
        header_line(t, i, j1),
        header_line(t, i, j2),
    ensures
        j1 == j2,
{
    let (w11, ke1, w21, k1) = choose|w1: int, ke: int, w2: int, k: Seq<char>|
        0 <= i < t.len() && t[i] == '[' && ws_span(t, i + 1, w1) && key_span(t, w1, ke, k)
            && ws_span(t, ke, w2) && w2 < t.len() && t[w2] == ']' && line_trailing_span(
            t,
            w2 + 1,
            j1,
        );
    let (w12, ke2, w22, k2) = choose|w1: int, ke: int, w2: int, k: Seq<char>|
        0 <= i < t.len() && t[i] == '[' && ws_span(t, i + 1, w1) && key_span(t, w1, ke, k)
            && ws_span(t, ke, w2) && w2 < t.len() && t[w2] == ']' && line_trailing_span(
            t,
            w2 + 1,
            j2,
        );
    lemma_ws_span_unique(t, i + 1, w11, w12);
    lemma_key_span_unique(t, w11, ke1, k1, ke2, k2);
    lemma_ws_span_unique(t, ke1, w21, w22);
    lemma_line_trailing_unique(t, w21 + 1, j1, j2);
}

/// The first character of an expression tells which kind it is.
pub proof fn lemma_expression_kind(t: Seq<char>, i: int, j: int)
    requires
        expression_span(t, i, j),
    ensures
        0 <= i < t.len(),
        starts_expression(t, i),
        t[i] == '#' ==> comment_line(t, i, j),
        t[i] == '[' ==> header_line(t, i, j),
        t[i] == '"' || is_bare_key_char(t[i]) ==> keyval_line(t, i, j),
        t[i] != '#' && t[i] != '[' && t[i] != '"' && !is_bare_key_char(t[i]) ==> newline_len(
            t,
            i,
        ) > 0 && j == i + newline_len(t, i),
{
    if comment_line(t, i, j) {
        let c = choose|c: int| comment_span(t, i, c) && line_ending_end(t, c) == Some(j);
    } else if keyval_line(t, i, j) {
        let (ke, w1, w2, ve, k, kind) = choose|ke: int, w1: int, w2: int, ve: int, k: Seq<char>, kind: ValueKind|
            key_span(t, i, ke, k) && ws_span(t, ke, w1) && w1 < t.len() && t[w1] == '=' && ws_span(
                t,
                w1 + 1,
                w2,
            ) && value_span(t, w2, ve, kind) && line_trailing_span(t, ve, j);
        lemma_key_span_unique(t, i, ke, k, ke, k);
    } else if header_line(t, i, j) {
    } else {
    }
}

/// Expressions are deterministic: at most one ends where another does.
pub proof fn lemma_expression_unique(t: Seq<char>, i: int, j1: int, j2: int)
    requires
        expression_span(t, i, j1),
        expression_span(t, i, j2),
    ensures
        j1 == j2,
{
    lemma_expression_kind(t, i, j1);
    lemma_expression_kind(t, i, j2);
    if t[i] == '#' {
        let c1 = choose|c: int| comment_span(t, i, c) && line_ending_end(t, c) == Some(j1);
        let c2 = choose|c: int| comment_span(t, i, c) && line_ending_end(t, c) == Some(j2);
        lemma_comment_span_unique(t, i, c1, c2);
    } else if t[i] == '[' {
        lemma_header_line_unique(t, i, j1, j2);
    } else if t[i] == '"' || is_bare_key_char(t[i]) {
        lemma_keyval_line_unique(t, i, j1, j2);
    }
}

/// The parts of a key/value line: key end, `=`, value start, value end,
/// cooked key and value.
pub proof fn keyval_line_parts(t: Seq<char>, i: int, j: int) -> (r: (int, int, int, int, Seq<char>, ValueKind))
    requires
        keyval_line(t, i, j),
    ensures
        key_span(t, i, r.0, r.4),
        ws_span(t, r.0, r.1),
        r.1 < t.len() && t[r.1] == '=',
        ws_span(t, r.1 + 1, r.2),
        value_span(t, r.2, r.3, r.5),
        line_trailing_span(t, r.3, j),
        r == keyval_parts(t, i, j),
{
    keyval_parts(t, i, j)
}

/// The parts of the key/value line `[i, j)`.
pub open spec fn keyval_parts(t: Seq<char>, i: int, j: int) -> (int, int, int, int, Seq<char>, ValueKind) {
    choose|ke: int, w1: int, w2: int, ve: int, k: Seq<char>, kind: ValueKind|
        #![trigger key_span(t, i, ke, k), ws_span(t, ke, w1), value_span(t, w2, ve, kind)]
        key_span(t, i, ke, k) && ws_span(t, ke, w1) && w1 < t.len() && t[w1] == '=' && ws_span(
            t,
            w1 + 1,
            w2,
        ) && value_span(t, w2, ve, kind) && line_trailing_span(t, ve, j)
}

/// The parts of a table header line: key start, key end, `]`, cooked key.
pub proof fn header_line_parts(t: Seq<char>, i: int, j: int) -> (r: (int, int, int, Seq<char>))
    requires
        header_line(t, i, j),
    ensures
        0 <= i < t.len() && t[i] == '[',
        ws_span(t, i + 1, r.0),
        key_span(t, r.0, r.1, r.3),
        ws_span(t, r.1, r.2),
        r.2 < t.len() && t[r.2] == ']',
        line_trailing_span(t, r.2 + 1, j),
        r == header_parts(t, i, j),
{
    header_parts(t, i, j)
}

/// The parts of the table header line `[i, j)`.
pub open spec fn header_parts(t: Seq<char>, i: int, j: int) -> (int, int, int, Seq<char>) {
    choose|w1: int, ke: int, w2: int, k: Seq<char>|
        #![trigger ws_span(t, i + 1, w1), key_span(t, w1, ke, k), ws_span(t, ke, w2)]
        0 <= i < t.len() && t[i] == '[' && ws_span(t, i + 1, w1) && key_span(t, w1, ke, k)
            && ws_span(t, ke, w2) && w2 < t.len() && t[w2] == ']' && line_trailing_span(
            t,
            w2 + 1,
            j,
        )
}

/// Where no expression starts, the rest of the input is no expression sequence.
pub proof fn lemma_no_expression(t: Seq<char>, i: int)
    requires
        0 <= i < t.len(),
        forall|j: int| !expression_span(t, i, j),
    ensures
        !expressions_from(t, i),
{
}

/// One expression and the spaces after it: the rest from `i` is an
/// expression sequence exactly when the rest from `w` is.
pub proof fn lemma_expressions_step(t: Seq<char>, i: int, j: int, w: int)
    requires
        i < j,
        expression_span(t, i, j),
        ws_span(t, j, w),
    ensures
        expressions_from(t, i) == expressions_from(t, w),
{
    lemma_expression_kind(t, i, j);
    if expressions_from(t, i) {
        let (j2, w2) = choose|j2: int, w2: int|
            #![trigger expression_span(t, i, j2), ws_span(t, j2, w2)]
            i < j2 <= w2 <= t.len() && expression_span(t, i, j2) && ws_span(t, j2, w2)
                && expressions_from(t, w2);
        lemma_expression_unique(t, i, j, j2);
        lemma_ws_span_unique(t, j, w, w2);
    }
}

/// No line feed in `[a, b)`.
pub open spec fn no_lf(t: Seq<char>, a: int, b: int) -> bool {
    forall|k: int| a <= k < b ==> #[trigger] t[k] != '\n'
}

pub proof fn lemma_value_no_lf(t: Seq<char>, i: int, j: int, kind: ValueKind)
    requires
        value_span(t, i, j, kind),
    ensures
        i < j,
        no_lf(t, i, j),
{
    lemma_value_first_char(t, i, j, kind);
    match kind {
        ValueKind::Boolean(b) => {
            lemma_subrange_chars(t, i, j);
            assert forall|k: int| i <= k < j implies #[trigger] t[k] != '\n' by {
                assert(t[k] == t.subrange(i, j)[k - i]);
            }
        },
        ValueKind::Integer(_) => {
            assert(is_digit(t[int_digits_start(t, i)]));
        },
        _ => {},
    }
}

pub proof fn lemma_line_trailing_no_lf(t: Seq<char>, i: int, j: int)
    requires
        line_trailing_span(t, i, j),
    ensures
        i <= j,
        no_lf(t, i, j - 1),
{
    let (w, c) = choose|w: int, c: int|
        #![trigger ws_span(t, i, w), line_ending_end(t, c)]
        ws_span(t, i, w) && (c == w || comment_span(t, w, c)) && (c == w ==> w == t.len() || t[w]
            != '#') && line_ending_end(t, c) == Some(j);
    assert forall|k: int| i <= k < j - 1 implies #[trigger] t[k] != '\n' by {
        if k < w {
            assert(is_ws(t[k]));
        } else if k < c {
            if k > w {
                assert(!is_eol(t[k]));
            }
        }
    }
}

/// An expression holds a line feed at most as its last character.
pub proof fn lemma_expression_no_lf(t: Seq<char>, i: int, j: int)
    requires
        expression_span(t, i, j),
    ensures
        i < j,
        no_lf(t, i, j - 1),
{
    lemma_expression_kind(t, i, j);
    if t[i] == '#' {
        let c = choose|c: int| #[trigger] comment_span(t, i, c) && line_ending_end(t, c) == Some(j);
        assert forall|k: int| i <= k < j - 1 implies #[trigger] t[k] != '\n' by {
            if i < k < c {
                assert(!is_eol(t[k]));
            }
        }
    } else if t[i] == '[' {
        let (w1, ke, w2, k) = header_line_parts(t, i, j);
        lemma_line_trailing_no_lf(t, w2 + 1, j);
        assert forall|m: int| i <= m < j - 1 implies #[trigger] t[m] != '\n' by {
            if i < m < w1 {
                assert(is_ws(t[m]));
            } else if w1 <= m < ke {
                lemma_key_no_lf(t, w1, ke, k);
            } else if ke <= m < w2 {
                assert(is_ws(t[m]));
            }
        }
    } else if t[i] == '"' || is_bare_key_char(t[i]) {
        let (ke, w1, w2, ve, k, kind) = keyval_line_parts(t, i, j);
        lemma_key_no_lf(t, i, ke, k);
        lemma_value_no_lf(t, w2, ve, kind);
        lemma_line_trailing_no_lf(t, ve, j);
        assert forall|m: int| i <= m < j - 1 implies #[trigger] t[m] != '\n' by {
            if ke <= m < w1 {
                assert(is_ws(t[m]));
            } else if w1 < m < w2 {
                assert(is_ws(t[m]));
            }
        }
    }
}

pub proof fn lemma_key_no_lf(t: Seq<char>, i: int, j: int, k: Seq<char>)
    requires
        key_span(t, i, j, k),
    ensures
        i < j,
        no_lf(t, i, j),
{
    assert forall|m: int| i <= m < j implies #[trigger] t[m] != '\n' by {
        if quoted_span(t, i, j) {
            if i < m < j - 1 {
                assert(!is_eol(t[m]));
            }
        } else {
            assert(is_bare_key_char(t[m]));
        }
    }
}

/// After a line feed at `t.len() - 2`, the last character of `t` starts no
/// expression and is no space: no expression sequence from `i` reaches the end.
proof fn lemma_stuck_after_line(t: Seq<char>, i: int)
    requires
        t.len() >= 1,
        0 <= i <= t.len() - 1,
        t.len() >= 2 ==> t[t.len() - 2] == '\n',
        !is_ws(t.last()),
        !starts_expression(t, t.len() - 1),
    ensures
        !expressions_from(t, i),
    decreases t.len() - i,
{
    let n = t.len() - 1;
    if i == n {
        assert forall|j: int| !expression_span(t, n, j) by {
            if expression_span(t, n, j) {
                lemma_expression_kind(t, n, j);
            }
        }
        lemma_no_expression(t, n);
    } else if expressions_from(t, i) {
        let (j, w) = choose|j: int, w: int|
            #![trigger expression_span(t, i, j), ws_span(t, j, w)]
            i < j <= w <= t.len() && expression_span(t, i, j) && ws_span(t, j, w)
                && expressions_from(t, w);
        lemma_expression_no_lf(t, i, j);
        if j > n {
            assert(t[n - 1] != '\n');
        }
        if w > n {
            if j <= n - 1 {
                assert(is_ws(t[n - 1]));
            }
            assert(is_ws(t[n]));
        }
        lemma_stuck_after_line(t, w);
    }
}

/// A document followed by a stray character is rejected: where the text ends
/// with a line feed (or is empty), appending a character that is no space or
/// tab and begins no comment, key, table header or line break leaves no
/// valid document.
pub proof fn lemma_stray_char_rejected(text: Seq<char>, c: char)
    requires
        text.len() == 0 || text.last() == '\n',
        !is_ws(c),
        c != '#' && c != '[' && c != '"' && c != '\n' && !is_bare_key_char(c),
    ensures
        !valid_document(text.push(c)),
{
    let t = text.push(c);
    assert(t.last() == c);
    assert(newline_len(t, t.len() - 1) == 0);
    if valid_document(t) {
        let w = choose|w: int| #[trigger] ws_span(t, 0, w) && expressions_from(t, w);
        if w > text.len() {
            assert(is_ws(t[text.len() as int]));
        }
        if text.len() >= 1 && w > text.len() - 1 {
            assert(t[text.len() - 1] == '\n');
            assert(is_ws(t[text.len() - 1]));
        }
        lemma_stuck_after_line(t, w);
    }
}

/// The cooked key of the key that starts at `i`.
pub open spec fn key_at(t: Seq<char>, i: int) -> Seq<char> {
    (choose|ke: int, k: Seq<char>| #[trigger] key_span(t, i, ke, k)).1
}

/// The cooked key of the table header that starts at `i`.
pub open spec fn header_key(t: Seq<char>, i: int) -> Seq<char> {
    key_at(t, choose|w: int| #[trigger] ws_span(t, i + 1, w))
}

pub open spec fn starts_keyval(c: char) -> bool {
    c == '"' || is_bare_key_char(c)
}

/// The cooked keys of a sequence of entries.
pub open spec fn key_set(items: Seq<(String, TableKeyValue)>) -> Set<Seq<char>> {
    Set::new(|k: Seq<char>| has_key(items, k))
}

/// Whether the active scope, the root or the open table, holds `k`.
pub open spec fn scope_has(root: Set<Seq<char>>, table: Option<Set<Seq<char>>>, k: Seq<char>) -> bool {
    match table {
        None => root.contains(k),
        Some(keys) => keys.contains(k),
    }
}

/// The expression at `i` adds no key that its scope holds already.
pub open spec fn step_ok(t: Seq<char>, i: int, root: Set<Seq<char>>, table: Option<Set<Seq<char>>>) -> bool {
    if t[i] == '[' {
        !root.contains(header_key(t, i))
    } else if starts_keyval(t[i]) {
        !scope_has(root, table, key_at(t, i))
    } else {
        true
    }
}

/// The root's keys after the expression at `i`.
pub open spec fn step_root(t: Seq<char>, i: int, root: Set<Seq<char>>, table: Option<Set<Seq<char>>>) -> Set<Seq<char>> {
    if t[i] == '[' {
        root.insert(header_key(t, i))
    } else if starts_keyval(t[i]) && table is None {
        root.insert(key_at(t, i))
    } else {
        root
    }
}

/// The open table's keys after the expression at `i`; `None` while the
/// root is the active scope.
pub open spec fn step_table(t: Seq<char>, i: int, root: Set<Seq<char>>, table: Option<Set<Seq<char>>>) -> Option<Set<Seq<char>>> {
    if t[i] == '[' {
        Some(Set::empty())
    } else if starts_keyval(t[i]) && table is Some {
        Some(table->0.insert(key_at(t, i)))
    } else {
        table
    }
}

/// From `i` to the end, `t` is a sequence of expressions, each followed by
/// spaces and tabs, none of which repeats a key of its scope, given the
/// keys that the root and the open table hold at `i`.
pub open spec fn accepts_from(t: Seq<char>, i: int, root: Set<Seq<char>>, table: Option<Set<Seq<char>>>) -> bool
    decreases t.len() - i,
{
    if i >= t.len() {
        i == t.len()
    } else {
        exists|j: int, w: int|
            #![trigger expression_span(t, i, j), ws_span(t, j, w)]
            i < j <= w <= t.len() && expression_span(t, i, j) && ws_span(t, j, w) && step_ok(
                t,
                i,
                root,
                table,
            ) && accepts_from(t, w, step_root(t, i, root, table), step_table(t, i, root, table))
    }
}

/// `t` is a document that parses: leading spaces, then expressions to the
/// end, with no key twice in one table.
pub open spec fn accepted_document(t: Seq<char>) -> bool {
    exists|w: int| #[trigger] ws_span(t, 0, w) && accepts_from(t, w, Set::empty(), None)
}

pub proof fn lemma_key_at(t: Seq<char>, i: int, j: int, k: Seq<char>)
    requires
        key_span(t, i, j, k),
    ensures
        key_at(t, i) == k,
{
    let (j2, k2) = choose|ke: int, k: Seq<char>| #[trigger] key_span(t, i, ke, k);
    lemma_key_span_unique(t, i, j, k, j2, k2);
}

pub proof fn lemma_header_key(t: Seq<char>, i: int, w: int, j: int, k: Seq<char>)
    requires
        ws_span(t, i + 1, w),
        key_span(t, w, j, k),
    ensures
        header_key(t, i) == k,
{
    let w2 = choose|w2: int| #[trigger] ws_span(t, i + 1, w2);
    lemma_ws_span_unique(t, i + 1, w, w2);
    lemma_key_at(t, w, j, k);
}

pub proof fn lemma_accepts_none(t: Seq<char>, i: int, root: Set<Seq<char>>, table: Option<Set<Seq<char>>>)
    requires
        0 <= i < t.len(),
        forall|j: int| !expression_span(t, i, j),
    ensures
        !accepts_from(t, i, root, table),
{
}

pub proof fn lemma_accepts_step(
    t: Seq<char>,
    i: int,
    j: int,
    w: int,
    root: Set<Seq<char>>,
    table: Option<Set<Seq<char>>>,
)
    requires
        i < j,
        expression_span(t, i, j),
        ws_span(t, j, w),
    ensures
        accepts_from(t, i, root, table) == (step_ok(t, i, root, table) && accepts_from(
            t,
            w,
            step_root(t, i, root, table),
            step_table(t, i, root, table),
        )),
{
    lemma_expression_kind(t, i, j);
    lemma_expression_no_lf(t, i, j);
    assert(j <= w);
    if accepts_from(t, i, root, table) {
        let (j2, w2) = choose|j2: int, w2: int|
            #![trigger expression_span(t, i, j2), ws_span(t, j2, w2)]
            i < j2 <= w2 <= t.len() && expression_span(t, i, j2) && ws_span(t, j2, w2) && step_ok(
                t,
                i,
                root,
                table,
            ) && accepts_from(t, w2, step_root(t, i, root, table), step_table(t, i, root, table));
        lemma_expression_unique(t, i, j, j2);
        lemma_ws_span_unique(t, j, w, w2);
    }
}

/// Where the expression at `i` repeats a key of its scope, nothing from `i`
/// is accepted.
pub proof fn lemma_accepts_step_ok_contra(
    t: Seq<char>,
    i: int,
    root: Set<Seq<char>>,
    table: Option<Set<Seq<char>>>,
)
    requires
        0 <= i < t.len(),
        !step_ok(t, i, root, table),
    ensures
        !accepts_from(t, i, root, table),
{
}

pub proof fn lemma_key_set_push(a: Seq<(String, TableKeyValue)>, b: Seq<(String, TableKeyValue)>)
    requires
        b.len() == a.len() + 1,
        b.drop_last() == a,
    ensures
        key_set(b) == key_set(a).insert(b.last().0@),
{
    assert forall|k: Seq<char>| key_set(b).contains(k) == key_set(a).insert(b.last().0@).contains(k) by {
        if has_key(b, k) {
            let i = choose|i: int| 0 <= i < b.len() && #[trigger] b[i].0@ == k;
            if i < a.len() {
                assert(a[i] == b[i]);
            }
        }
        if has_key(a, k) {
            let i = choose|i: int| 0 <= i < a.len() && #[trigger] a[i].0@ == k;
            assert(a[i] == b[i]);
        }
        if k == b.last().0@ {
            assert(b[b.len() - 1].0@ == k);
        }
    }
    assert(key_set(b) =~= key_set(a).insert(b.last().0@));
}

pub proof fn lemma_key_set_same(a: Seq<(String, TableKeyValue)>, b: Seq<(String, TableKeyValue)>)
    requires
        a.len() == b.len(),
        forall|i: int| 0 <= i < a.len() ==> #[trigger] a[i].0@ == b[i].0@,
    ensures
        key_set(a) == key_set(b),
{
    assert forall|k: Seq<char>| key_set(a).contains(k) == key_set(b).contains(k) by {
        if has_key(a, k) {
            let i = choose|i: int| 0 <= i < a.len() && #[trigger] a[i].0@ == k;
            assert(b[i].0@ == k);
        }
        if has_key(b, k) {
            let i = choose|i: int| 0 <= i < b.len() && #[trigger] b[i].0@ == k;
            assert(a[i].0@ == k);
        }
    }
    assert(key_set(a) =~= key_set(b));
}

} // verus!
