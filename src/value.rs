use vstd::prelude::*;
use crate::document::ValueKind;
use crate::key::{quoted_span, scan_quoted, slice_string};

verus! {

pub open spec fn is_digit(c: char) -> bool {
    '0' <= c && c <= '9'
}

pub open spec fn digit_val(c: char) -> int {
    c as int - '0' as int
}

/// The number that a run of decimal digits denotes.
pub open spec fn digits_val(d: Seq<char>) -> int
    decreases d.len(),
{
    if d.len() == 0 {
        0
    } else {
        10 * digits_val(d.drop_last()) + digit_val(d.last())
    }
}

/// Where the digits of an integer at `i` begin: after an optional sign.
pub open spec fn int_digits_start(t: Seq<char>, i: int) -> int {
    if t[i] == '+' || t[i] == '-' {
        i + 1
    } else {
        i
    }
}

/// `[i, j)` is a decimal integer: an optional sign and the longest run of digits.
pub open spec fn int_span(t: Seq<char>, i: int, j: int) -> bool {
    let d = int_digits_start(t, i);
    &&& 0 <= i < t.len()
    &&& d < j <= t.len()
    &&& forall|k: int| d <= k < j ==> is_digit(#[trigger] t[k])
    &&& (j == t.len() || !is_digit(t[j]))
}

/// The number that the integer `[i, j)` denotes.
pub open spec fn int_val(t: Seq<char>, i: int, j: int) -> int {
    let m = digits_val(t.subrange(int_digits_start(t, i), j));
    if t[i] == '-' {
        -m
    } else {
        m
    }
}

pub open spec fn fits_i64(n: int) -> bool {
    i64::MIN <= n <= i64::MAX
}

/// `[i, j)` is a value whose cooked content is `kind`.
pub open spec fn value_span(t: Seq<char>, i: int, j: int, kind: ValueKind) -> bool {
    match kind {
        ValueKind::String(c) => quoted_span(t, i, j) && c@ == t.subrange(i + 1, j - 1),
        ValueKind::Boolean(b) => 0 <= i <= j <= t.len() && if b {
            t.subrange(i, j) == seq!['t', 'r', 'u', 'e']
        } else {
            t.subrange(i, j) == seq!['f', 'a', 'l', 's', 'e']
        },
        ValueKind::Integer(n) => int_span(t, i, j) && n as int == int_val(t, i, j),
    }
}

pub proof fn lemma_digits_val_nonneg(d: Seq<char>)
    requires
        forall|k: int| 0 <= k < d.len() ==> is_digit(#[trigger] d[k]),
    ensures
        digits_val(d) >= 0,
    decreases d.len(),
{
    if d.len() > 0 {
        lemma_digits_val_nonneg(d.drop_last());
    }
}

/// Appending digits never makes the number smaller.
pub proof fn lemma_digits_val_grows(d: Seq<char>, n: int)
    requires
        0 <= n <= d.len(),
        forall|k: int| 0 <= k < d.len() ==> is_digit(#[trigger] d[k]),
    ensures
        digits_val(d) >= digits_val(d.subrange(0, n)),
    decreases d.len() - n,
{
    if n < d.len() {
        lemma_digits_val_grows(d, n + 1);
        assert(d.subrange(0, n + 1).drop_last() == d.subrange(0, n));
        lemma_digits_val_nonneg(d.subrange(0, n));
    } else {
        assert(d.subrange(0, n) == d);
    }
}

pub proof fn lemma_subrange_chars(t: Seq<char>, i: int, j: int)
    requires
        0 <= i <= j <= t.len(),
    ensures
        t.subrange(i, j).len() == j - i,
        forall|k: int| 0 <= k < j - i ==> #[trigger] t.subrange(i, j)[k] == t[i + k],
{
}

/// The first character of a value tells its kind.
pub proof fn lemma_value_first_char(t: Seq<char>, i: int, j: int, kind: ValueKind)
    requires
        value_span(t, i, j, kind),
    ensures
        0 <= i < t.len(),
        kind is String ==> t[i] == '"',
        kind == ValueKind::Boolean(true) ==> t[i] == 't',
        kind == ValueKind::Boolean(false) ==> t[i] == 'f',
        kind is Integer ==> t[i] == '+' || t[i] == '-' || is_digit(t[i]),
{
    match kind {
        ValueKind::Boolean(b) => {
            lemma_subrange_chars(t, i, j);
            if b {
                assert(t.subrange(i, j)[0] == 't');
            } else {
                assert(t.subrange(i, j)[0] == 'f');
            }
        },
        ValueKind::Integer(n) => {
            let d = int_digits_start(t, i);
            assert(is_digit(t[d]));
        },
        _ => {},
    }
}

pub proof fn lemma_int_span_unique(t: Seq<char>, i: int, j1: int, j2: int)
    requires
        int_span(t, i, j1),
        int_span(t, i, j2),
    ensures
        j1 == j2,
{
    if j1 < j2 {
        assert(is_digit(t[j1]));
    } else if j2 < j1 {
        assert(is_digit(t[j2]));
    }
}

/// Parses a decimal integer at `i`; on failure, the position where a digit
/// was expected, or `i` where the number does not fit in 64 bits.
pub fn parse_integer(t: &Vec<char>, i: usize) -> (r: Result<(i64, usize), usize>)
    requires
        i < t@.len(),
    ensures
        r matches Ok((n, j)) ==> int_span(t@, i as int, j as int) && n as int == int_val(
            t@,
            i as int,
            j as int,
        ),
        r matches Err(p) ==> i <= p <= t@.len() && forall|j: int|
            #[trigger] int_span(t@, i as int, j) ==> !fits_i64(int_val(t@, i as int, j)),
{
    let len: usize = t.len();
    let neg: bool = t[i] == '-';
    let d: usize = if t[i] == '+' || t[i] == '-' {
        i + 1
    } else {
        i
    };
    let mut j: usize = d;
    let mut mag: u64 = 0;
    while j < len && '0' <= t[j] && t[j] <= '9'
        invariant
            len == t@.len(),
            d == int_digits_start(t@, i as int),
            d <= j <= len,
            forall|k: int| d <= k < j ==> is_digit(#[trigger] t@[k]),
            mag as int == digits_val(t@.subrange(d as int, j as int)),
            mag <= 9223372036854775808u64,
        decreases len - j,
    {
        let dv: u64 = (t[j] as u32 - '0' as u32) as u64;
        assert(t@.subrange(d as int, j + 1).drop_last() == t@.subrange(d as int, j as int));
        if mag > 922337203685477580u64 || (mag == 922337203685477580u64 && dv > 8) {
            assert forall|e: int| #[trigger] int_span(t@, i as int, e) implies !fits_i64(
                int_val(t@, i as int, e),
            ) by {
                {
                    let ds = t@.subrange(d as int, e);
                    assert forall|k: int| 0 <= k < ds.len() implies is_digit(#[trigger] ds[k]) by {
                        assert(ds[k] == t@[d + k]);
                    }
                    if e <= j {
                        assert(is_digit(t@[j as int]));
                        assert(e == j || is_digit(t@[e]));
                    }
                    lemma_digits_val_grows(ds, (j + 1 - d) as int);
                    assert(ds.subrange(0, (j + 1 - d) as int) == t@.subrange(d as int, j + 1));
                }
            }
            return Err(i);
        }
        mag = mag * 10 + dv;
        j = j + 1;
    }
    if j == d {
        assert forall|e: int| #[trigger] int_span(t@, i as int, e) implies !fits_i64(
            int_val(t@, i as int, e),
        ) by {
            {
                assert(is_digit(t@[d as int]));
            }
        }
        return Err(d);
    }
    if !neg && mag > 9223372036854775807u64 {
        assert forall|e: int| #[trigger] int_span(t@, i as int, e) implies !fits_i64(
            int_val(t@, i as int, e),
        ) by {
            {
                lemma_int_span_unique(t@, i as int, e, j as int);
            }
        }
        return Err(i);
    }
    let n: i64 = if neg {
        if mag == 9223372036854775808u64 {
            -9223372036854775807i64 - 1
        } else {
            -(mag as i64)
        }
    } else {
        mag as i64
    };
    Ok((n, j))
}

/// Parses a value at `i`: a quoted string, `true`, `false` or a decimal
/// integer. Returns the cooked content and where the value ends; on failure,
/// the position where the value went wrong.
pub fn parse_value(s: &str, t: &Vec<char>, i: usize) -> (r: Result<(ValueKind, usize), usize>)
    requires
        t@ == s@,
        i <= t@.len(),
    ensures
        r matches Ok((kind, j)) ==> value_span(t@, i as int, j as int, kind),
        r matches Err(p) ==> i <= p <= t@.len() && forall|j: int, kind: ValueKind|
            !value_span(t@, i as int, j, kind),
{
    let len: usize = t.len();
    if i == len {
        assert forall|j: int, kind: ValueKind| !value_span(t@, i as int, j, kind) by {
            if value_span(t@, i as int, j, kind) {
                assert(t@.subrange(i as int, j).len() == 0);
            }
        }
        return Err(i);
    }
    let c: char = t[i];
    if c == '"' {
        match scan_quoted(t, i) {
            Ok(j) => {
                let cooked = slice_string(s, i + 1, j - 1);
                Ok((ValueKind::String(cooked), j))
            },
            Err(p) => {
                assert forall|j: int, kind: ValueKind| !value_span(t@, i as int, j, kind) by {
                    if value_span(t@, i as int, j, kind) {
                        lemma_value_first_char(t@, i as int, j, kind);
                    }
                }
                Err(p)
            },
        }
    } else if c == 't' {
        if len - i >= 4 && t[i + 1] == 'r' && t[i + 2] == 'u' && t[i + 3] == 'e' {
            assert(t@.subrange(i as int, i + 4) =~= seq!['t', 'r', 'u', 'e']);
            Ok((ValueKind::Boolean(true), i + 4))
        } else {
            assert forall|j: int, kind: ValueKind| !value_span(t@, i as int, j, kind) by {
                if value_span(t@, i as int, j, kind) {
                    lemma_subrange_chars(t@, i as int, j);
                }
            }
            Err(i)
        }
    } else if c == 'f' {
        if len - i >= 5 && t[i + 1] == 'a' && t[i + 2] == 'l' && t[i + 3] == 's' && t[i + 4]
            == 'e' {
            assert(t@.subrange(i as int, i + 5) =~= seq!['f', 'a', 'l', 's', 'e']);
            Ok((ValueKind::Boolean(false), i + 5))
        } else {
            assert forall|j: int, kind: ValueKind| !value_span(t@, i as int, j, kind) by {
                if value_span(t@, i as int, j, kind) {
                    lemma_subrange_chars(t@, i as int, j);
                }
            }
            Err(i)
        }
    } else if c == '+' || c == '-' || ('0' <= c && c <= '9') {
        match parse_integer(t, i) {
            Ok((n, j)) => Ok((ValueKind::Integer(n), j)),
            Err(p) => {
                assert forall|j: int, kind: ValueKind| !value_span(t@, i as int, j, kind) by {
                    if value_span(t@, i as int, j, kind) {
                        lemma_value_first_char(t@, i as int, j, kind);
                    }
                }
                Err(p)
            },
        }
    } else {
        assert forall|j: int, kind: ValueKind| !value_span(t@, i as int, j, kind) by {
            if value_span(t@, i as int, j, kind) {
                lemma_value_first_char(t@, i as int, j, kind);
            }
        }
        Err(i)
    }
}

} // verus!
