use vstd::prelude::*;
use vstd::string::StrSliceExecFns;
use vstd::utf8::encode_utf8;

verus! {

/// What the parser expected where it stopped.
#[derive(Debug, Clone, Copy, PartialEq, Eq)]
pub enum Expected {
    /// A comment, a key/value pair, a table header or a line break.
    Expression,
    Key,
    /// The `=` between a key and its value.
    KeyValSep,
    Value,
    /// A line break or the end of input after a value or header.
    LineEnd,
    /// The `]` that closes a table header.
    CloseBracket,
}

/// The error raised when an entry would repeat a key of its table.
#[derive(Debug, Clone, PartialEq, Eq)]
pub enum CustomError {
    DuplicateKey { key: String, table: String },
}

/// A failed parse. A position is given as a character offset into the input,
/// as a byte offset into its UTF-8 encoding, and as a line and a column
/// counted from 1.
#[derive(Debug, Clone, PartialEq, Eq)]
pub enum TomlError {
    /// No grammar rule matched at the position.
    Syntax { offset: usize, byte: usize, line: usize, column: usize, expected: Expected },
    /// The document ended before the input did.
    Unparsed { offset: usize, byte: usize, line: usize, column: usize },
    /// A key that its table already holds; `table` is the table's key, empty
    /// for the root.
    DuplicateKey { key: String, table: String },
}

/// Line and column of the character offset `off`, both counted from 1.
pub open spec fn line_col(t: Seq<char>, off: int) -> (int, int)
    decreases off,
{
    if off <= 0 {
        (1, 1)
    } else {
        let (l, c) = line_col(t, off - 1);
        if t[off - 1] == '\n' {
            (l + 1, 1)
        } else {
            (l, c + 1)
        }
    }
}

pub proof fn lemma_line_col_bounds(t: Seq<char>, off: int)
    requires
        0 <= off,
    ensures
        1 <= line_col(t, off).0 <= off + 1,
        1 <= line_col(t, off).1 <= off + 1,
    decreases off,
{
    if off > 0 {
        lemma_line_col_bounds(t, off - 1);
    }
}

/// The line and column of the character offset `off` of `t`.
pub fn position(t: &Vec<char>, off: usize) -> (r: (usize, usize))
    requires
        off <= t@.len(),
        off < usize::MAX,
    ensures
        r.0 as int == line_col(t@, off as int).0,
        r.1 as int == line_col(t@, off as int).1,
{
    let mut line: usize = 1;
    let mut column: usize = 1;
    let mut k: usize = 0;
    while k < off
        invariant
            k <= off <= t@.len(),
            off < usize::MAX,
            line as int == line_col(t@, k as int).0,
            column as int == line_col(t@, k as int).1,
        decreases off - k,
    {
        proof {
            lemma_line_col_bounds(t@, k as int);
        }
        if t[k] == '\n' {
            line = line + 1;
            column = 1;
        } else {
            column = column + 1;
        }
        k = k + 1;
    }
    (line, column)
}

/// The number of bytes that the first `off` characters take in UTF-8.
pub open spec fn byte_len(t: Seq<char>, off: int) -> usize {
    encode_utf8(t.subrange(0, off)).len() as usize
}

/// The byte offset of the character offset `off` of `s`.
pub fn byte_offset(s: &str, off: usize) -> (r: usize)
    requires
        off <= s@.len(),
    ensures
        r == byte_len(s@, off as int),
{
    s.substring_char(0, off).len()
}

impl TomlError {
    /// The offset, line and column of a positioned error.
    pub open spec fn at(self, t: Seq<char>, off: int) -> bool {
        match self {
            TomlError::Syntax { offset, byte, line, column, .. } => offset == off && byte
                == byte_len(t, off) && (line as int, column as int) == line_col(t, off),
            TomlError::Unparsed { offset, byte, line, column } => offset == off && byte
                == byte_len(t, off) && (line as int, column as int) == line_col(t, off),
            _ => false,
        }
    }

    /// A syntax error at `off`, expecting `expected`.
    pub fn syntax(s: &str, t: &Vec<char>, off: usize, expected: Expected) -> (r: TomlError)
        requires
            t@ == s@,
            off <= t@.len(),
            off < usize::MAX,
        ensures
            r.at(t@, off as int),
            r matches TomlError::Syntax { expected: e, .. } && e == expected,
    {
        let (line, column) = position(t, off);
        let byte = byte_offset(s, off);
        TomlError::Syntax { offset: off, byte, line, column, expected }
    }

    /// The error for input left over at `off` after the last expression.
    pub fn from_unparsed(s: &str, t: &Vec<char>, off: usize) -> (r: TomlError)
        requires
            t@ == s@,
            off <= t@.len(),
            off < usize::MAX,
        ensures
            r.at(t@, off as int),
            r is Unparsed,
    {
        let (line, column) = position(t, off);
        let byte = byte_offset(s, off);
        TomlError::Unparsed { offset: off, byte, line, column }
    }
}

impl CustomError {
    /// The same error as a parse error.
    pub fn into_toml_error(self) -> (r: TomlError)
        ensures
            match (self, r) {
                (
                    CustomError::DuplicateKey { key, table },
                    TomlError::DuplicateKey { key: k, table: tb },
                ) => k == key && tb == table,
                _ => false,
            },
    {
        match self {
            CustomError::DuplicateKey { key, table } => TomlError::DuplicateKey { key, table },
        }
    }
}

} // verus!
