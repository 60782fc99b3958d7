use vstd::prelude::*;

verus! {

pub open spec fn is_ws(c: char) -> bool {
    c == ' ' || c == '\t'
}

pub open spec fn is_eol(c: char) -> bool {
    c == '\n' || c == '\r'
}

/// `[i, j)` is the longest run of spaces and tabs that starts at `i`.
pub open spec fn ws_span(t: Seq<char>, i: int, j: int) -> bool {
    &&& 0 <= i <= j <= t.len()
    &&& forall|k: int| i <= k < j ==> is_ws(#[trigger] t[k])
    &&& (j == t.len() || !is_ws(t[j]))
}

/// `[i, j)` is a comment: `#` and everything up to the end of its line.
pub open spec fn comment_span(t: Seq<char>, i: int, j: int) -> bool {
    &&& 0 <= i < j <= t.len()
    &&& t[i] == '#'
    &&& forall|k: int| i < k < j ==> !is_eol(#[trigger] t[k])
    &&& (j == t.len() || is_eol(t[j]))
}

/// Length of the line break at `i`: `\n` or `\r\n`; 0 where there is none.
pub open spec fn newline_len(t: Seq<char>, i: int) -> int {
    if 0 <= i < t.len() && t[i] == '\n' {
        1
    } else if 0 <= i && i + 1 < t.len() && t[i] == '\r' && t[i + 1] == '\n' {
        2
    } else {
        0
    }
}

/// Where a line ends at `i`: after its line break, or at the end of input.
pub open spec fn line_ending_end(t: Seq<char>, i: int) -> Option<int> {
    if i == t.len() {
        Some(i)
    } else if newline_len(t, i) > 0 {
        Some(i + newline_len(t, i))
    } else {
        None
    }
}

/// The character at `i` can begin an expression: a comment, a key, a table
/// header or a line break.
pub open spec fn starts_expression(t: Seq<char>, i: int) -> bool {
    let c = t[i];
    c == '#' || c == '[' || c == '"' || ('A' <= c && c <= 'Z') || ('a' <= c && c <= 'z') || ('0'
        <= c && c <= '9') || c == '_' || c == '-' || newline_len(t, i) > 0
}

/// Skips spaces and tabs from `i`.
pub fn scan_ws(t: &Vec<char>, i: usize) -> (j: usize)
    requires
        i <= t@.len(),
    ensures
        ws_span(t@, i as int, j as int),
{
    let mut j: usize = i;
    while j < t.len() && (t[j] == ' ' || t[j] == '\t')
        invariant
            i <= j <= t@.len(),
            forall|k: int| i <= k < j ==> is_ws(#[trigger] t@[k]),
        decreases t@.len() - j,
    {
        j = j + 1;
    }
    j
}

/// Skips a comment that starts at `i`.
pub fn scan_comment(t: &Vec<char>, i: usize) -> (j: usize)
    requires
        i < t@.len(),
        t@[i as int] == '#',
    ensures
        comment_span(t@, i as int, j as int),
{
    let len: usize = t.len();
    let mut j: usize = i + 1;
    while j < t.len() && t[j] != '\n' && t[j] != '\r'
        invariant
            i < j <= t@.len(),
            forall|k: int| i < k < j ==> !is_eol(#[trigger] t@[k]),
        decreases t@.len() - j,
    {
        j = j + 1;
    }
    j
}

/// The length of the line break at `i`, 0 where there is none.
pub fn scan_newline(t: &Vec<char>, i: usize) -> (n: usize)
    requires
        i <= t@.len(),
    ensures
        n == newline_len(t@, i as int),
{
    if i < t.len() && t[i] == '\n' {
        1
    } else if i < t.len() && t.len() - i >= 2 && t[i] == '\r' && t[i + 1] == '\n' {
        2
    } else {
        0
    }
}

/// `[i, j)` is what ends a line after a value or header: spaces and tabs, an
/// optional comment, and a line break or the end of input.
pub open spec fn line_trailing_span(t: Seq<char>, i: int, j: int) -> bool {
    exists|w: int, c: int|
        #![trigger ws_span(t, i, w), line_ending_end(t, c)]
        ws_span(t, i, w) && (c == w || comment_span(t, w, c)) && (c == w ==> w == t.len()
            || t[w] != '#') && line_ending_end(t, c) == Some(j)
}

/// Scans the rest of a line; on failure returns where a line end was expected.
pub fn scan_line_trailing(t: &Vec<char>, i: usize) -> (r: Result<usize, usize>)
    requires
        i <= t@.len(),
    ensures
        r matches Ok(j) ==> line_trailing_span(t@, i as int, j as int),
        r matches Err(p) ==> {
            &&& i <= p <= t@.len()
            &&& !(exists|j: int| line_trailing_span(t@, i as int, j))
        },
{
    let w: usize = scan_ws(t, i);
    let c: usize = if w < t.len() && t[w] == '#' {
        scan_comment(t, w)
    } else {
        w
    };
    assert(c == w ==> w == t@.len() || t@[w as int] != '#');
    if c == t.len() {
        assert(line_ending_end(t@, c as int) == Some(c as int));
        return Ok(c);
    }
    let n: usize = scan_newline(t, c);
    if n > 0 {
        assert(line_ending_end(t@, c as int) == Some((c + n) as int));
        Ok(c + n)
    } else {
        assert forall|j: int| !line_trailing_span(t@, i as int, j) by {
            if line_trailing_span(t@, i as int, j) {
                let (w2, c2) = choose|w2: int, c2: int|
                    ws_span(t@, i as int, w2) && (c2 == w2 || comment_span(t@, w2, c2)) && (c2
                        == w2 ==> w2 == t@.len() || t@[w2] != '#') && line_ending_end(t@, c2)
                        == Some(j);
                lemma_ws_span_unique(t@, i as int, w as int, w2);
                if c2 != w2 {
                    lemma_comment_span_unique(t@, w as int, c as int, c2);
                }
            }
        }
        Err(c)
    }
}

pub proof fn lemma_ws_span_unique(t: Seq<char>, i: int, j1: int, j2: int)
    requires
        ws_span(t, i, j1),
        ws_span(t, i, j2),
    ensures
        j1 == j2,
{
    if j1 < j2 {
        assert(is_ws(t[j1]));
    } else if j2 < j1 {
        assert(is_ws(t[j2]));
    }
}

pub proof fn lemma_comment_span_unique(t: Seq<char>, i: int, j1: int, j2: int)
    requires
        comment_span(t, i, j1),
        comment_span(t, i, j2),
    ensures
        j1 == j2,
{
    if j1 < j2 {
        assert(!is_eol(t[j1]));
    } else if j2 < j1 {
        assert(!is_eol(t[j2]));
    }
}

} // verus!
