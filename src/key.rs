use vstd::prelude::*;
use vstd::string::StrSliceExecFns;
use vstd::string::StringExecFns;
use crate::trivia::is_eol;

verus! {

pub open spec fn is_bare_key_char(c: char) -> bool {
    ('A' <= c && c <= 'Z') || ('a' <= c && c <= 'z') || ('0' <= c && c <= '9') || c == '_' || c
        == '-'
}

/// `[i, j)` is a bare key: the longest run of letters, digits, `_` and `-` at `i`.
pub open spec fn bare_key_span(t: Seq<char>, i: int, j: int) -> bool {
    &&& 0 <= i < j <= t.len()
    &&& forall|k: int| i <= k < j ==> is_bare_key_char(#[trigger] t[k])
    &&& (j == t.len() || !is_bare_key_char(t[j]))
}

/// `[i, j)` is a quoted string on one line: `"`, characters other than `"`, `"`.
pub open spec fn quoted_span(t: Seq<char>, i: int, j: int) -> bool {
    &&& 0 <= i && i + 2 <= j <= t.len()
    &&& t[i] == '"'
    &&& t[j - 1] == '"'
    &&& forall|k: int| i < k < j - 1 ==> #[trigger] t[k] != '"' && !is_eol(t[k])
}

/// `[i, j)` is a key whose cooked form is `cooked`.
pub open spec fn key_span(t: Seq<char>, i: int, j: int, cooked: Seq<char>) -> bool {
    ||| bare_key_span(t, i, j) && cooked == t.subrange(i, j)
    ||| quoted_span(t, i, j) && cooked == t.subrange(i + 1, j - 1)
}

/// A copy of the characters `[a, b)` of `s`.
pub fn slice_string(s: &str, a: usize, b: usize) -> (r: String)
    requires
        a <= b <= s@.len(),
    ensures
        r@ == s@.subrange(a as int, b as int),
{
    String::from_str(s.substring_char(a, b))
}

/// Scans a quoted string from `i`: the index just past its closing quote, or
/// the position of the line break or end of input that cut it off.
pub fn scan_quoted(t: &Vec<char>, i: usize) -> (r: Result<usize, usize>)
    requires
        i < t@.len(),
        t@[i as int] == '"',
    ensures
        r matches Ok(j) ==> quoted_span(t@, i as int, j as int),
        r matches Err(p) ==> i < p <= t@.len() && forall|j: int| !quoted_span(t@, i as int, j),
{
    let len: usize = t.len();
    let mut q: usize = i + 1;
    while q < len && t[q] != '"' && t[q] != '\n' && t[q] != '\r'
        invariant
            len == t@.len(),
            i < q <= len,
            forall|k: int| i < k < q ==> #[trigger] t@[k] != '"' && !is_eol(t@[k]),
        decreases len - q,
    {
        q = q + 1;
    }
    if q < len && t[q] == '"' {
        Ok(q + 1)
    } else {
        assert forall|j: int| !quoted_span(t@, i as int, j) by {
            if quoted_span(t@, i as int, j) {
                if j - 1 < q {
                    assert(t@[j - 1] != '"');
                } else if j - 1 > q {
                    assert(t@[q as int] != '"' && !is_eol(t@[q as int]));
                }
            }
        }
        Err(q)
    }
}

/// Parses a key at `i`: its source text, its cooked form and where it ends;
/// on failure, the position where a key or its closing quote was expected.
pub fn parse_key(s: &str, t: &Vec<char>, i: usize) -> (r: Result<(String, String, usize), usize>)
    requires
        t@ == s@,
        i <= t@.len(),
    ensures
        r matches Ok((raw, cooked, j)) ==> key_span(t@, i as int, j as int, cooked@) && raw@
            == t@.subrange(i as int, j as int),
        r matches Err(p) ==> i <= p <= t@.len() && forall|j: int, c: Seq<char>|
            !key_span(t@, i as int, j, c),
{
    let len: usize = t.len();
    if i < len && t[i] == '"' {
        match scan_quoted(t, i) {
            Ok(j) => {
                let raw = slice_string(s, i, j);
                let cooked = slice_string(s, i + 1, j - 1);
                Ok((raw, cooked, j))
            },
            Err(p) => {
                assert forall|j: int, c: Seq<char>| !key_span(t@, i as int, j, c) by {
                    assert(!is_bare_key_char('"'));
                }
                Err(p)
            },
        }
    } else {
        let mut j: usize = i;
        while j < len && is_bare_key_char_exec(t[j])
            invariant
                len == t@.len(),
                i <= j <= len,
                forall|k: int| i <= k < j ==> is_bare_key_char(#[trigger] t@[k]),
            decreases len - j,
        {
            j = j + 1;
        }
        if j == i {
            Err(i)
        } else {
            let raw = slice_string(s, i, j);
            let cooked = slice_string(s, i, j);
            Ok((raw, cooked, j))
        }
    }
}

pub fn is_bare_key_char_exec(c: char) -> (r: bool)
    ensures
        r == is_bare_key_char(c),
{
    ('A' <= c && c <= 'Z') || ('a' <= c && c <= 'z') || ('0' <= c && c <= '9') || c == '_' || c
        == '-'
}

} // verus!
