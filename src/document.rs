use vstd::prelude::*;
use vstd::string::StringExecFns;

verus! {

/// Non-semantic text around an element: what precedes it and what follows it.
#[derive(Debug, Clone, PartialEq, Eq)]
pub struct Decor {
    pub prefix: String,
    pub suffix: String,
}

/// A key as written in the source, with its decoration.
#[derive(Debug, Clone, PartialEq, Eq)]
pub struct Repr {
    pub raw: String,
    pub decor: Decor,
}

/// The cooked content of a value.
#[derive(Debug, Clone, PartialEq, Eq)]
pub enum ValueKind {
    Integer(i64),
    Boolean(bool),
    String(String),
}

/// A value with its source text and decoration.
#[derive(Debug, Clone, PartialEq, Eq)]
pub struct Value {
    pub raw: String,
    pub kind: ValueKind,
    pub decor: Decor,
}

/// What a table entry holds.
#[derive(Debug, PartialEq, Eq)]
pub enum Item {
    Absent,
    Value(Value),
    Table(Table),
}

/// One entry of a table: the key as written and the item it maps to.
#[derive(Debug, PartialEq, Eq)]
pub struct TableKeyValue {
    pub key: Repr,
    pub value: Item,
}

/// An ordered mapping from cooked keys to entries, in insertion order.
/// The decoration of a table surrounds its header line.
#[derive(Debug, PartialEq, Eq)]
pub struct Table {
    pub items: Vec<(String, TableKeyValue)>,
    pub decor: Decor,
}

/// The root table and the decoration that follows the last entry.
#[derive(Debug, PartialEq, Eq)]
pub struct Document {
    pub root: Table,
    pub trailing: String,
}

pub open spec fn decor_around(d: Decor, inner: Seq<char>) -> Seq<char> {
    d.prefix@ + inner + d.suffix@
}

/// The text of one entry's own line: a `key = value` line, or a `[key]` header.
pub open spec fn render_line(kv: TableKeyValue) -> Seq<char> {
    match kv.value {
        Item::Absent => Seq::empty(),
        Item::Value(v) => decor_around(kv.key.decor, kv.key.raw@) + seq!['='] + decor_around(
            v.decor,
            v.raw@,
        ),
        Item::Table(t) => decor_around(
            t.decor,
            seq!['['] + decor_around(kv.key.decor, kv.key.raw@) + seq![']'],
        ),
    }
}

/// The lines of a sequence of entries, in order.
pub open spec fn render_lines(items: Seq<(String, TableKeyValue)>) -> Seq<char>
    decreases items.len(),
{
    if items.len() == 0 {
        Seq::empty()
    } else {
        render_lines(items.drop_last()) + render_line(items.last().1)
    }
}

/// An entry of the root table: its line and, for a table, the lines of its body.
pub open spec fn render_entry(kv: TableKeyValue) -> Seq<char> {
    match kv.value {
        Item::Table(t) => render_line(kv) + render_lines(t.items@),
        _ => render_line(kv),
    }
}

pub open spec fn render_entries(items: Seq<(String, TableKeyValue)>) -> Seq<char>
    decreases items.len(),
{
    if items.len() == 0 {
        Seq::empty()
    } else {
        render_entries(items.drop_last()) + render_entry(items.last().1)
    }
}

/// The text that a document stands for.
pub open spec fn render_document(d: Document) -> Seq<char> {
    render_entries(d.root.items@) + d.trailing@
}

/// No two entries of the sequence share a cooked key.
pub open spec fn keys_unique(items: Seq<(String, TableKeyValue)>) -> bool {
    forall|i: int, j: int|
        0 <= i < items.len() && 0 <= j < items.len() && i != j ==> #[trigger] items[i].0@
            != #[trigger] items[j].0@
}

pub open spec fn has_key(items: Seq<(String, TableKeyValue)>, k: Seq<char>) -> bool {
    exists|i: int| 0 <= i < items.len() && #[trigger] items[i].0@ == k
}

impl Table {
    pub open spec fn wf(&self) -> bool {
        keys_unique(self.items@)
    }

    /// An empty table with empty decoration.
    pub fn new() -> (r: Table)
        ensures
            r.items@.len() == 0,
            r.decor.prefix@.len() == 0,
            r.decor.suffix@.len() == 0,
    {
        Table { items: Vec::new(), decor: Decor { prefix: String::new(), suffix: String::new() } }
    }

    pub fn len(&self) -> (r: usize)
        ensures
            r == self.items@.len(),
    {
        self.items.len()
    }

    pub fn is_empty(&self) -> (r: bool)
        ensures
            r == (self.items@.len() == 0),
    {
        self.items.len() == 0
    }

    /// Whether an entry with this cooked key is present.
    pub fn contains_key(&self, key: &String) -> (r: bool)
        ensures
            r == has_key(self.items@, key@),
    {
        let mut i: usize = 0;
        while i < self.items.len()
            invariant
                i <= self.items@.len(),
                forall|j: int| 0 <= j < i ==> #[trigger] self.items@[j].0@ != key@,
            decreases self.items@.len() - i,
        {
            if self.items[i].0 == *key {
                return true;
            }
            i = i + 1;
        }
        false
    }

    /// The entry under this cooked key, if any.
    pub fn get(&self, key: &String) -> (r: Option<&TableKeyValue>)
        requires
            self.wf(),
        ensures
            r.is_none() == !has_key(self.items@, key@),
            r.is_some() ==> exists|i: int|
                0 <= i < self.items@.len() && self.items@[i].0@ == key@ && self.items@[i].1
                    == *r.unwrap(),
    {
        let mut i: usize = 0;
        while i < self.items.len()
            invariant
                i <= self.items@.len(),
                forall|j: int| 0 <= j < i ==> #[trigger] self.items@[j].0@ != key@,
            decreases self.items@.len() - i,
        {
            if self.items[i].0 == *key {
                return Some(&self.items[i].1);
            }
            i = i + 1;
        }
        None
    }
}

impl Document {
    pub open spec fn wf(&self) -> bool {
        &&& self.root.wf()
        &&& forall|i: int|
            0 <= i < self.root.items@.len() ==> match (#[trigger] self.root.items@[i]).1.value {
                Item::Table(t) => t.wf(),
                _ => true,
            }
    }

    /// An empty document: no entries, no trailing decoration.
    pub fn new() -> (r: Document)
        ensures
            r.wf(),
            r.root.items@.len() == 0,
            r.trailing@.len() == 0,
            render_document(r) == Seq::<char>::empty(),
    {
        Document { root: Table::new(), trailing: String::new() }
    }

    /// The root table.
    pub fn as_table(&self) -> (r: &Table)
        ensures
            *r == self.root,
    {
        &self.root
    }
}

/// Appends the text of one entry's own line.
fn push_line(out: &mut String, kv: &TableKeyValue)
    ensures
        final(out)@ == old(out)@ + render_line(*kv),
{
    match &kv.value {
        Item::Absent => {},
        Item::Value(v) => {
            out.append(kv.key.decor.prefix.as_str());
            out.append(kv.key.raw.as_str());
            out.append(kv.key.decor.suffix.as_str());
            out.append("=");
            out.append(v.decor.prefix.as_str());
            out.append(v.raw.as_str());
            out.append(v.decor.suffix.as_str());
            proof {
                reveal_strlit("=");
            }
            assert(final(out)@ =~= old(out)@ + render_line(*kv));
        },
        Item::Table(t) => {
            out.append(t.decor.prefix.as_str());
            out.append("[");
            out.append(kv.key.decor.prefix.as_str());
            out.append(kv.key.raw.as_str());
            out.append(kv.key.decor.suffix.as_str());
            out.append("]");
            out.append(t.decor.suffix.as_str());
            proof {
                reveal_strlit("[");
                reveal_strlit("]");
            }
            assert(final(out)@ =~= old(out)@ + render_line(*kv));
        },
    }
}

/// Appends the lines of a sequence of entries.
fn push_lines(out: &mut String, items: &Vec<(String, TableKeyValue)>)
    ensures
        final(out)@ == old(out)@ + render_lines(items@),
{
    let mut k: usize = 0;
    while k < items.len()
        invariant
            k <= items@.len(),
            out@ == old(out)@ + render_lines(items@.subrange(0, k as int)),
        decreases items@.len() - k,
    {
        push_line(out, &items[k].1);
        assert(items@.subrange(0, k + 1).drop_last() =~= items@.subrange(0, k as int));
        assert(out@ =~= old(out)@ + render_lines(items@.subrange(0, k + 1)));
        k = k + 1;
    }
    assert(items@.subrange(0, k as int) =~= items@);
}

impl Document {
    /// The text of the document: each entry in order, then the trailing
    /// decoration. For a parsed document this is the parsed input.
    pub fn to_text(&self) -> (r: String)
        ensures
            r@ == render_document(*self),
    {
        let mut out = String::new();
        let items = &self.root.items;
        let mut k: usize = 0;
        while k < items.len()
            invariant
                k <= items@.len(),
                *items == self.root.items,
                out@ == render_entries(items@.subrange(0, k as int)),
            decreases items@.len() - k,
        {
            let kv = &items[k].1;
            push_line(&mut out, kv);
            if let Item::Table(t) = &kv.value {
                push_lines(&mut out, &t.items);
            }
            assert(items@.subrange(0, k + 1).drop_last() =~= items@.subrange(0, k as int));
            assert(out@ =~= render_entries(items@.subrange(0, k + 1)));
            k = k + 1;
        }
        assert(items@.subrange(0, k as int) =~= items@);
        out.append(self.trailing.as_str());
        out
    }
}

} // verus!
