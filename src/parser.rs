use vstd::prelude::*;
use vstd::string::{StrSliceExecFns, StringExecFns};
use crate::document::{
    decor_around, has_key, render_document, render_entries, render_entry, render_line,
    render_lines, Decor, Document, Item, Repr, Table, TableKeyValue,
};
use crate::error::{CustomError, Expected, TomlError};
use crate::expr::{parse_keyval, parse_std_header};
use crate::grammar::{
    accepted_document, accepts_from, comment_line, header_line, keyval_line, expression_span, expressions_from, key_set,
    lemma_accepts_none, lemma_accepts_step, lemma_accepts_step_ok_contra, lemma_expression_kind,
    lemma_expressions_step, lemma_key_set_push, lemma_key_set_same, lemma_no_expression, step_ok,
    step_root, step_table, valid_document,
};
use crate::key::{is_bare_key_char_exec, slice_string};
use crate::model::{
    add_line, doc_view, document_from, document_of, entry_view, expr_model, header_model,
    keyval_model, lemma_document_from_step, line_view, table_open, dup_at, entry_key, scope_holds,
    scope_name, first_dup, first_dup_from, stop_of, stop_from, lemma_folds_step, lemma_stop_here,
    lemma_ws_end,
};
use crate::trivia::{
    comment_span, is_ws, lemma_comment_span_unique, lemma_ws_span_unique, line_ending_end,
    scan_comment, scan_newline, scan_ws, starts_expression, ws_span,
};

verus! {

/// The state of one parse: the tree built so far, whose `trailing` field
/// holds the decoration not yet given to an entry, and the active table path.
pub struct TomlParser {
    pub document: Document,
    pub current_table_path: Vec<String>,
}

/// The entries of the table that `path` addresses in `root`: the root itself
/// for the empty path, else the table that the last root entry holds.
pub open spec fn current_items(root: Table, path: Seq<String>) -> Seq<(String, TableKeyValue)> {
    if path.len() == 0 {
        root.items@
    } else {
        match root.items@.last().1.value {
            Item::Table(t) => t.items@,
            _ => Seq::empty(),
        }
    }
}

/// The name of the table that `path` addresses: its key, empty for the root.
pub open spec fn path_name(path: Seq<String>) -> Seq<char> {
    if path.len() == 0 {
        Seq::empty()
    } else {
        path[0]@
    }
}

/// The characters of `s`, in order.
pub fn to_chars(s: &str) -> (t: Vec<char>)
    ensures
        t@ == s@,
{
    let n = s.unicode_len();
    let mut t: Vec<char> = Vec::new();
    let mut k: usize = 0;
    while k < n
        invariant
            n == s@.len(),
            k <= n,
            t@ == s@.subrange(0, k as int),
        decreases n - k,
    {
        t.push(s.get_char(k));
        assert(t@ =~= s@.subrange(0, k + 1));
        k = k + 1;
    }
    assert(t@ =~= s@);
    t
}

/// The model's active scope holds exactly the keys of the parser's active table.
pub proof fn lemma_scope_holds(p: TomlParser, k: Seq<char>)
    requires
        p.wf(),
    ensures
        scope_holds(doc_view(p.document), k) == has_key(p.items(), k),
        scope_name(doc_view(p.document)) == path_name(p.current_table_path@),
        (exists|n: int|
            0 <= n < doc_view(p.document).entries.len() && entry_key(
                #[trigger] doc_view(p.document).entries[n],
            ) == k) == has_key(p.document.root.items@, k),
{
    let items = p.document.root.items@;
    let m = doc_view(p.document);
    assert forall|n: int| 0 <= n < items.len() implies entry_key(#[trigger] m.entries[n]) == items[n].0@ by {
        assert(m.entries[n] == entry_view(items[n]));
    }
    if has_key(items, k) {
        let n = choose|n: int| 0 <= n < items.len() && #[trigger] items[n].0@ == k;
        assert(entry_key(m.entries[n]) == k);
    }
    if p.current_table_path@.len() == 1 {
        assert(m.entries.last() == entry_view(items.last()));
        if let Item::Table(t) = items.last().1.value {
            let lines = m.entries.last()->Table_lines;
            assert forall|n: int| 0 <= n < t.items@.len() implies (#[trigger] lines[n]).key == t.items@[n].0@ by {
                assert(lines[n] == line_view(t.items@[n]));
            }
            if has_key(t.items@, k) {
                let n = choose|n: int| 0 <= n < t.items@.len() && #[trigger] t.items@[n].0@ == k;
                assert(lines[n].key == k);
            }
        }
    } else {
        if items.len() > 0 {
            assert(m.entries.last() == entry_view(items[items.len() - 1]));
        }
    }
}

pub proof fn lemma_render_entries_push(items: Seq<(String, TableKeyValue)>, e: (String, TableKeyValue))
    ensures
        render_entries(items.push(e)) == render_entries(items) + render_entry(e.1),
{
    assert(items.push(e).drop_last() =~= items);
}

pub proof fn lemma_render_lines_push(items: Seq<(String, TableKeyValue)>, e: (String, TableKeyValue))
    ensures
        render_lines(items.push(e)) == render_lines(items) + render_line(e.1),
{
    assert(items.push(e).drop_last() =~= items);
}

impl TomlParser {
    /// The document is well formed, the path is empty or names one table,
    /// and that table is the last entry of the root, so that what is added
    /// to it comes last in the rendering.
    pub open spec fn wf(&self) -> bool {
        let items = self.document.root.items@;
        let path = self.current_table_path@;
        &&& self.document.wf()
        &&& path.len() <= 1
        &&& path.len() == 0 ==> forall|i: int| 0 <= i < items.len() ==> !(#[trigger] items[i].1.value is Table)
        &&& path.len() == 1 ==> {
            &&& items.len() > 0
            &&& items.last().0@ == path[0]@
            &&& items.last().1.value is Table
        }
    }

    pub open spec fn items(&self) -> Seq<(String, TableKeyValue)> {
        current_items(self.document.root, self.current_table_path@)
    }

    /// The keys of the root table.
    pub open spec fn root_keys(&self) -> Set<Seq<char>> {
        key_set(self.document.root.items@)
    }

    /// The keys of the open table; `None` while the root is the active table.
    pub open spec fn table_keys(&self) -> Option<Set<Seq<char>>> {
        if self.current_table_path@.len() == 0 {
            None
        } else {
            Some(key_set(self.items()))
        }
    }

    /// A parser with an empty document and the root as active table.
    pub fn new() -> (r: TomlParser)
        ensures
            r.wf(),
            r.document.root.items@.len() == 0,
            r.document.trailing@.len() == 0,
            r.current_table_path@.len() == 0,
    {
        TomlParser { document: Document::new(), current_table_path: Vec::new() }
    }

    /// Adds whitespace to the pending decoration.
    pub fn on_ws(&mut self, w: &str)
        ensures
            final(self).document.trailing@ == old(self).document.trailing@ + w@,
            final(self).document.root == old(self).document.root,
            final(self).current_table_path == old(self).current_table_path,
    {
        self.document.trailing.append(w);
    }

    /// Adds a comment and its line ending to the pending decoration.
    pub fn on_comment(&mut self, c: &str, e: &str)
        ensures
            final(self).document.trailing@ == old(self).document.trailing@ + c@ + e@,
            final(self).document.root == old(self).document.root,
            final(self).current_table_path == old(self).current_table_path,
    {
        self.document.trailing.append(c);
        self.document.trailing.append(e);
    }

    /// Hands out the pending decoration and leaves it empty.
    fn take_trailing(&mut self) -> (r: String)
        ensures
            r@ == old(self).document.trailing@,
            final(self).document.trailing@.len() == 0,
            final(self).document.root == old(self).document.root,
            final(self).current_table_path == old(self).current_table_path,
    {
        let mut r = String::new();
        core::mem::swap(&mut r, &mut self.document.trailing);
        r
    }

    /// Resolves the active path: `None` for the root, else the index of the
    /// root entry that holds the active table.
    pub fn descend_path(&self) -> (r: Option<usize>)
        requires
            self.wf(),
        ensures
            self.current_table_path@.len() == 0 ==> r is None,
            self.current_table_path@.len() == 1 ==> (r matches Some(i) && i as int
                == self.document.root.items@.len() - 1),
    {
        if self.current_table_path.len() == 0 {
            return None;
        }
        let name = &self.current_table_path[0];
        let items = &self.document.root.items;
        let mut i: usize = 0;
        while i < items.len()
            invariant
                self.wf(),
                self.current_table_path@.len() == 1,
                *name == self.current_table_path@[0],
                *items == self.document.root.items,
                i <= items@.len(),
                items@.len() > 0,
                items@.last().0@ == name@,
                forall|j: int| 0 <= j < i ==> #[trigger] items@[j].0@ != name@,
            decreases items@.len() - i,
        {
            if items[i].0 == *name {
                proof {
                    let last = items@.len() - 1;
                    if i != last {
                        assert(items@[i as int].0@ != items@[last].0@);
                    }
                }
                return Some(i);
            }
            i = i + 1;
        }
        assert(items@[items@.len() - 1].0@ == name@);
        None
    }

    /// The name of the active table, empty for the root.
    fn table_name(&self) -> (r: String)
        ensures
            r@ == path_name(self.current_table_path@),
    {
        if self.current_table_path.len() == 0 {
            String::new()
        } else {
            self.current_table_path[0].clone()
        }
    }

    /// Gives the pending decoration to a new key/value entry, then inserts it
    /// under `key` in the active table, unless that table has the key already.
    /// The entry holds a value: tables enter the tree through their headers.
    pub fn on_keyval(&mut self, key: String, kv: TableKeyValue) -> (r: Result<(), CustomError>)
        requires
            old(self).wf(),
            kv.value is Value,
        ensures
            r is Err <==> has_key(old(self).items(), key@),
            r matches Err(CustomError::DuplicateKey { key: k, table }) ==> k@ == key@ && table@
                == path_name(old(self).current_table_path@),
            r is Ok ==> {
                let e = final(self).items().last();
                &&& final(self).wf()
                &&& final(self).current_table_path == old(self).current_table_path
                &&& final(self).document.trailing@.len() == 0
                &&& final(self).items().drop_last() == old(self).items()
                &&& final(self).items().len() == old(self).items().len() + 1
                &&& e.0@ == key@
                &&& e.1.key.raw == kv.key.raw
                &&& e.1.key.decor.prefix@ == old(self).document.trailing@ + kv.key.decor.prefix@
                &&& e.1.key.decor.suffix == kv.key.decor.suffix
                &&& e.1.value == kv.value
                &&& render_entries(final(self).document.root.items@) == render_entries(
                    old(self).document.root.items@,
                ) + render_line(e.1)
                &&& render_line(e.1) == old(self).document.trailing@ + render_line(kv)
                &&& old(self).current_table_path@.len() == 1 ==> final(self).root_keys() == old(
                    self,
                ).root_keys()
                &&& old(self).current_table_path@.len() == 0 ==> final(self).document.root.items@
                    == old(self).document.root.items@.push(e)
                &&& old(self).current_table_path@.len() == 1 ==> {
                    let before = old(self).document.root.items@;
                    let after = final(self).document.root.items@;
                    &&& after.len() == before.len()
                    &&& after.drop_last() == before.drop_last()
                    &&& after.last().0 == before.last().0
                    &&& after.last().1.key == before.last().1.key
                    &&& after.last().1.value matches Item::Table(nt) && before.last().1.value matches Item::Table(ot)
                        && nt.decor == ot.decor && nt.items@ == ot.items@.push(e)
                }
            },
            r is Err ==> {
                &&& final(self).document.root == old(self).document.root
                &&& final(self).current_table_path == old(self).current_table_path
                &&& final(self).document.trailing@.len() == 0
            },
    {
        let ghost old_line = render_line(kv);
        let prefix = self.take_trailing();
        let TableKeyValue { key: repr, value } = kv;
        let Repr { raw, decor } = repr;
        let Decor { prefix: own_prefix, suffix } = decor;
        let full_prefix = prefix.concat(own_prefix.as_str());
        let entry = TableKeyValue {
            key: Repr { raw, decor: Decor { prefix: full_prefix, suffix } },
            value,
        };
        assert(self.document.root == old(self).document.root);
        assert(self.wf());
        assert(render_line(entry) =~= old(self).document.trailing@ + old_line);
        match self.descend_path() {
            None => {
                if self.document.root.contains_key(&key) {
                    return Err(CustomError::DuplicateKey { key, table: self.table_name() });
                }
                proof {
                    lemma_render_entries_push(self.document.root.items@, (key, entry));
                }
                self.document.root.items.push((key, entry));
                assert(self.document.root.items@.drop_last() =~= old(self).document.root.items@);
                Ok(())
            },
            Some(idx) => {
                assert(self.current_table_path@.len() == 1);
                assert(idx == self.document.root.items@.len() - 1);
                assert(self.document.root.items@[idx as int] == self.document.root.items@.last());
                let dup = match &self.document.root.items[idx].1.value {
                    Item::Table(t) => t.contains_key(&key),
                    _ => false,
                };
                assert(dup == has_key(old(self).items(), key@));
                if dup {
                    return Err(CustomError::DuplicateKey { key, table: self.table_name() });
                }
                let ghost before = self.document.root.items@;
                let (hk, hkv) = self.document.root.items.pop().unwrap();
                let TableKeyValue { key: hrepr, value: hvalue } = hkv;
                match hvalue {
                    Item::Table(t) => {
                        let mut t = t;
                        let ghost titems = t.items@;
                        proof {
                            lemma_render_lines_push(titems, (key, entry));
                        }
                        t.items.push((key, entry));
                        assert(t.items@.drop_last() =~= titems);
                        let header = TableKeyValue { key: hrepr, value: Item::Table(t) };
                        proof {
                            lemma_render_entries_push(before.drop_last(), (hk, header));
                            assert(before.drop_last().push(before.last()).drop_last() =~= before.drop_last());
                            assert(before =~= before.drop_last().push(before.last()));
                        }
                        self.document.root.items.push((hk, header));
                        assert(self.document.root.items@ =~= before.drop_last().push(
                            self.document.root.items@.last(),
                        ));
                        proof {
                            assert forall|i: int| 0 <= i < before.len() implies #[trigger] before[i].0@
                                == self.document.root.items@[i].0@ by {
                                if i < before.len() - 1 {
                                    assert(self.document.root.items@[i] == before[i]);
                                }
                            }
                            lemma_key_set_same(before, self.document.root.items@);
                        }
                        assert forall|i: int, j: int|
                            0 <= i < self.document.root.items@.len() && 0 <= j
                                < self.document.root.items@.len() && i != j implies #[trigger] self.document.root.items@[i].0@
                            != #[trigger] self.document.root.items@[j].0@ by {
                            assert(self.document.root.items@[i].0@ == before[i].0@);
                            assert(self.document.root.items@[j].0@ == before[j].0@);
                        }
                        Ok(())
                    },
                    _ => {
                        assert(false);
                        Err(CustomError::DuplicateKey { key, table: String::new() })
                    },
                }
            },
        }
    }

    /// Gives the pending decoration to a new table header `[key]`, then adds
    /// an empty table under `key` to the root and makes it the active table,
    /// unless the root has the key already.
    pub fn on_std_header(&mut self, key: String, repr: Repr, trailing: String) -> (r: Result<
        (),
        CustomError,
    >)
        requires
            old(self).wf(),
        ensures
            r is Err <==> has_key(old(self).document.root.items@, key@),
            r matches Err(CustomError::DuplicateKey { key: k, table }) ==> k@ == key@ && table@.len()
                == 0,
            r is Ok ==> {
                let items = final(self).document.root.items@;
                let e = items.last();
                &&& final(self).wf()
                &&& final(self).current_table_path@.len() == 1
                &&& final(self).current_table_path@[0]@ == key@
                &&& final(self).document.trailing@.len() == 0
                &&& items.drop_last() == old(self).document.root.items@
                &&& e.0@ == key@
                &&& e.1.key == repr
                &&& e.1.value matches Item::Table(t) && t.items@.len() == 0 && t.decor.prefix@
                    == old(self).document.trailing@ && t.decor.suffix == trailing
                &&& render_entries(items) == render_entries(old(self).document.root.items@)
                    + render_line(e.1)
                &&& render_line(e.1) == old(self).document.trailing@ + (seq!['['] + decor_around(
                    repr.decor,
                    repr.raw@,
                ) + seq![']']) + trailing@
            },
    {
        if self.document.root.contains_key(&key) {
            return Err(CustomError::DuplicateKey { key, table: String::new() });
        }
        let prefix = self.take_trailing();
        let table = Table { items: Vec::new(), decor: Decor { prefix, suffix: trailing } };
        let entry = TableKeyValue { key: repr, value: Item::Table(table) };
        let ghost before = self.document.root.items@;
        let ghost new_entry = entry;
        let path_key = key.clone();
        proof {
            lemma_render_entries_push(before, (key, entry));
            assert(render_lines(Seq::<(String, TableKeyValue)>::empty()) == Seq::<char>::empty());
        }
        self.document.root.items.push((key, entry));
        assert(self.document.root.items@.drop_last() =~= before);
        let mut path: Vec<String> = Vec::new();
        path.push(path_key);
        self.current_table_path = path;
        assert(render_entry(new_entry) =~= render_line(new_entry));
        assert(render_line(new_entry) =~= old(self).document.trailing@ + (seq!['['] + decor_around(
            repr.decor,
            repr.raw@,
        ) + seq![']']) + trailing@);
        assert forall|i: int, j: int|
            0 <= i < self.document.root.items@.len() && 0 <= j < self.document.root.items@.len()
                && i != j implies #[trigger] self.document.root.items@[i].0@
            != #[trigger] self.document.root.items@[j].0@ by {
            if i < before.len() && j < before.len() {
                assert(self.document.root.items@[i] == before[i]);
                assert(self.document.root.items@[j] == before[j]);
            } else if i < before.len() {
                assert(self.document.root.items@[i] == before[i]);
            } else {
                assert(self.document.root.items@[j] == before[j]);
            }
        }
        assert forall|i: int| 0 <= i < self.document.root.items@.len() implies match (
        #[trigger] self.document.root.items@[i]).1.value {
            Item::Table(t) => t.wf(),
            _ => true,
        } by {
            if i < before.len() {
                assert(self.document.root.items@[i] == before[i]);
            }
        }
        Ok(())
    }

    /// Parses the expression at `pos` and hands it to its handler: a comment
    /// line, a key/value line, a table header line or a line break. Returns
    /// where the expression ends, or `None` where no expression begins.
    #[verifier::rlimit(60)]
    pub fn on_expression(&mut self, s: &str, t: &Vec<char>, pos: usize) -> (r: Result<
        Option<usize>,
        TomlError,
    >)
        requires
            t@ == s@,
            t@.len() < usize::MAX,
            pos < t@.len(),
            old(self).wf(),
        ensures
            r matches Ok(None) ==> {
                &&& *final(self) == *old(self)
                &&& !starts_expression(t@, pos as int)
                &&& forall|j: int| !expression_span(t@, pos as int, j)
            },
            r matches Ok(Some(next)) ==> {
                &&& pos < next <= t@.len()
                &&& expression_span(t@, pos as int, next as int)
                &&& final(self).wf()
                &&& render_entries(final(self).document.root.items@) + final(self).document.trailing@
                    == render_entries(old(self).document.root.items@) + old(self).document.trailing@
                    + t@.subrange(pos as int, next as int)
                &&& step_ok(t@, pos as int, old(self).root_keys(), old(self).table_keys())
                &&& final(self).root_keys() == step_root(
                    t@,
                    pos as int,
                    old(self).root_keys(),
                    old(self).table_keys(),
                )
                &&& final(self).table_keys() == step_table(
                    t@,
                    pos as int,
                    old(self).root_keys(),
                    old(self).table_keys(),
                )
                &&& doc_view(final(self).document) == expr_model(
                    t@,
                    pos as int,
                    next as int,
                    doc_view(old(self).document),
                )
            },
            r matches Err(e) ==> !accepts_from(
                t@,
                pos as int,
                old(self).root_keys(),
                old(self).table_keys(),
            ),
            r matches Err(e) ==> e is DuplicateKey || forall|j: int|
                !expression_span(t@, pos as int, j),
            r matches Err(e) ==> e is DuplicateKey || exists|p: int|
                pos <= p <= t@.len() && e.at(t@, p),
            r matches Err(e) ==> !(e is Unparsed),
            r matches Ok(Some(next)) ==> dup_at(t@, pos as int, doc_view(old(self).document)) is None,
            r matches Err(TomlError::DuplicateKey { key, table }) ==> {
                &&& dup_at(t@, pos as int, doc_view(old(self).document)) == Some((key@, table@))
                &&& exists|j: int| pos < j <= t@.len() && expression_span(t@, pos as int, j)
            },
            r matches Err(TomlError::Syntax { expected, .. }) ==> expected != Expected::Expression,
    {
        let len: usize = t.len();
        let ghost start = pos as int;
        let ghost root_keys = self.root_keys();
        let ghost table_keys = self.table_keys();
        let c: char = t[pos];
        if c == '#' {
            let ce = scan_comment(t, pos);
            let n = scan_newline(t, ce);
            if ce < len && n == 0 {
                proof {
                    assert forall|j: int| !expression_span(t@, start, j) by {
                        if expression_span(t@, start, j) {
                            lemma_expression_kind(t@, start, j);
                            let c2 = choose|c2: int|
                                #[trigger] comment_span(t@, start, c2) && line_ending_end(t@, c2) == Some(j);
                            lemma_comment_span_unique(t@, start, ce as int, c2);
                        }
                    }
                    lemma_accepts_none(t@, start, root_keys, table_keys);
                }
                return Err(TomlError::syntax(s, t, ce, Expected::LineEnd));
            }
            self.on_comment(slice_string(s, pos, ce).as_str(), slice_string(s, ce, ce + n).as_str());
            let next = ce + n;
            assert(comment_line(t@, start, next as int));
            assert(t@.subrange(pos as int, next as int) =~= t@.subrange(pos as int, ce as int)
                + t@.subrange(ce as int, next as int));
            proof {
                assert(doc_view(self.document).entries =~= doc_view(old(self).document).entries);
                assert(self.document.trailing@ =~= old(self).document.trailing@ + t@.subrange(
                    pos as int,
                    next as int,
                ));
            }
            Ok(Some(next))
        } else if c == '"' || is_bare_key_char_exec(c) {
            let (k, kv, j) = match parse_keyval(s, t, pos) {
                Ok(x) => x,
                Err(e) => {
                    proof {
                        assert forall|j: int| !expression_span(t@, start, j) by {
                            if expression_span(t@, start, j) {
                                lemma_expression_kind(t@, start, j);
                            }
                        }
                        lemma_accepts_none(t@, start, root_keys, table_keys);
                    }
                    return Err(e);
                },
            };
            let ghost line = render_line(kv);
            let ghost key = k@;
            let ghost old_items = self.items();
            let ghost old_doc = self.document;
            proof {
                lemma_scope_holds(*self, key);
                assert(keyval_line(t@, start, j as int));
                assert(expression_span(t@, start, j as int));
            }
            match self.on_keyval(k, kv) {
                Ok(()) => {},
                Err(e) => {
                    proof {
                        lemma_accepts_step_ok_contra(t@, start, root_keys, table_keys);
                    }
                    return Err(e.into_toml_error());
                },
            }
            proof {
                lemma_key_set_push(old_items, self.items());
                let e = self.items().last();
                let m = doc_view(old_doc);
                let before = old_doc.root.items@;
                let after = self.document.root.items@;
                assert(old_doc.trailing@ + Seq::<char>::empty() =~= old_doc.trailing@);
                assert(line_view(e) == keyval_model(t@, start, j as int, m.trailing));
                if self.current_table_path@.len() == 0 {
                    if table_open(m) {
                        assert(m.entries.last() == entry_view(before[before.len() - 1]));
                    }
                    assert(entry_view(e) == crate::model::EntryModel::Value(line_view(e)));
                    assert(doc_view(self.document).entries =~= m.entries.push(entry_view(e)));
                } else {
                    assert(table_open(m));
                    let ol = before.last();
                    let nl = after.last();
                    if let (Item::Table(nt), Item::Table(ot)) = (nl.1.value, ol.1.value) {
                        assert(nt.items@.map_values(|x: (String, TableKeyValue)| line_view(x))
                            =~= ot.items@.map_values(|x: (String, TableKeyValue)| line_view(x)).push(
                            line_view(e),
                        ));
                    }
                    assert(entry_view(nl) == add_line(entry_view(ol), line_view(e)));
                    assert forall|i: int| 0 <= i < before.len() - 1 implies after[i] == before[i] by {
                        assert(after[i] == after.drop_last()[i]);
                        assert(before[i] == before.drop_last()[i]);
                    }
                    assert(doc_view(self.document).entries =~= m.entries.update(
                        m.entries.len() - 1,
                        add_line(m.entries.last(), line_view(e)),
                    ));
                }
                assert(self.document.trailing@ =~= Seq::<char>::empty());
            }
            Ok(Some(j))
        } else if c == '[' {
            let (k, repr, trailing, j) = match parse_std_header(s, t, pos) {
                Ok(x) => x,
                Err(e) => {
                    proof {
                        assert forall|j: int| !expression_span(t@, start, j) by {
                            if expression_span(t@, start, j) {
                                lemma_expression_kind(t@, start, j);
                            }
                        }
                        lemma_accepts_none(t@, start, root_keys, table_keys);
                    }
                    return Err(e);
                },
            };
            let ghost old_root = self.document.root.items@;
            let ghost old_doc = self.document;
            proof {
                lemma_scope_holds(*self, k@);
                assert(header_line(t@, start, j as int));
                assert(expression_span(t@, start, j as int));
            }
            match self.on_std_header(k, repr, trailing) {
                Ok(()) => {},
                Err(e) => {
                    proof {
                        lemma_accepts_step_ok_contra(t@, start, root_keys, table_keys);
                    }
                    return Err(e.into_toml_error());
                },
            }
            proof {
                lemma_key_set_push(old_root, self.document.root.items@);
                assert(key_set(self.items()) =~= Set::<Seq<char>>::empty());
                let m = doc_view(old_doc);
                let e = self.document.root.items@.last();
                if let Item::Table(nt) = e.1.value {
                    assert(nt.items@.map_values(|x: (String, TableKeyValue)| line_view(x)) =~= Seq::<
                        crate::model::LineModel,
                    >::empty());
                }
                assert(entry_view(e) == header_model(t@, start, j as int, m.trailing));
                assert(doc_view(self.document).entries =~= m.entries.push(entry_view(e)));
                assert(self.document.trailing@ =~= Seq::<char>::empty());
            }
            Ok(Some(j))
        } else {
            let n = scan_newline(t, pos);
            if n == 0 {
                proof {
                    assert forall|j: int| !expression_span(t@, start, j) by {
                        if expression_span(t@, start, j) {
                            lemma_expression_kind(t@, start, j);
                        }
                    }
                }
                return Ok(None);
            }
            self.on_ws(slice_string(s, pos, pos + n).as_str());
            proof {
                assert(doc_view(self.document).entries =~= doc_view(old(self).document).entries);
            }
            Ok(Some(pos + n))
        }
    }

    /// Parses a whole document. It succeeds on exactly the inputs that the
    /// grammar accepts and in which no table repeats a key; on success,
    /// rendering the document gives back the input exactly. A failure
    /// carries the position where parsing stopped, or the repeated key.
    /// Positions are counted up to one past the input, hence its bound.
    #[verifier::rlimit(100)]
    pub fn parse(s: &str) -> (r: Result<Document, TomlError>)
        requires
            s@.len() < usize::MAX,
        ensures
            r is Ok <==> accepted_document(s@),
            r matches Ok(d) ==> doc_view(d) == document_of(s@),
            r matches Ok(d) ==> d.wf() && render_document(d) == s@,
            r is Ok ==> valid_document(s@),
            valid_document(s@) ==> r is Ok || r matches Err(TomlError::DuplicateKey { .. }),
            r matches Err(e) ==> e is DuplicateKey || exists|p: int|
                stop_of(s@) <= p <= s@.len() && e.at(s@, p),
            r matches Err(TomlError::DuplicateKey { key, table }) ==> first_dup(s@) == Some(
                (key@, table@),
            ),
            r matches Err(TomlError::Unparsed { offset, .. }) ==> offset == stop_of(s@),
            r matches Err(TomlError::Syntax { offset, expected: Expected::Expression, .. }) ==> offset
                == stop_of(s@),
            r matches Err(TomlError::Unparsed { offset, .. }) ==> offset < s@.len() && !is_ws(
                s@[offset as int],
            ) && !starts_expression(s@, offset as int),
            r matches Err(TomlError::Syntax { offset, expected: Expected::Expression, .. }) ==> offset
                < s@.len() && !is_ws(s@[offset as int]) && !starts_expression(s@, offset as int),
    {
        let t = to_chars(s);
        let len: usize = t.len();
        let mut parser = TomlParser::new();
        let mut pos: usize = scan_ws(&t, 0);
        parser.on_ws(slice_string(s, 0, pos).as_str());
        assert(render_entries(parser.document.root.items@) =~= Seq::<char>::empty());
        assert(t@.subrange(0, pos as int) =~= Seq::<char>::empty() + t@.subrange(0, pos as int));
        proof {
            assert(parser.root_keys() =~= Set::<Seq<char>>::empty());
            if valid_document(t@) {
                let w = choose|w: int| #[trigger] ws_span(t@, 0, w) && expressions_from(t@, w);
                lemma_ws_span_unique(t@, 0, w, pos as int);
            }
            let w0 = choose|w: int| #[trigger] ws_span(t@, 0, w);
            lemma_ws_span_unique(t@, 0, w0, pos as int);
            assert(doc_view(parser.document).entries =~= Seq::<crate::model::EntryModel>::empty());
            assert(parser.document.trailing@ =~= t@.subrange(0, pos as int));
            if accepted_document(t@) {
                let w = choose|w: int|
                    #[trigger] ws_span(t@, 0, w) && accepts_from(t@, w, Set::empty(), None);
                lemma_ws_span_unique(t@, 0, w, pos as int);
            }
        }
        let mut matched: bool = false;
        while pos < len
            invariant
                t@ == s@,
                len == t@.len(),
                len < usize::MAX,
                pos <= len,
                parser.wf(),
                render_entries(parser.document.root.items@) + parser.document.trailing@
                    == t@.subrange(0, pos as int),
                pos == len || !is_ws(t@[pos as int]),
                expressions_from(t@, pos as int) ==> valid_document(t@),
                valid_document(t@) ==> expressions_from(t@, pos as int),
                accepted_document(t@) == accepts_from(
                    t@,
                    pos as int,
                    parser.root_keys(),
                    parser.table_keys(),
                ),
                document_of(t@) == document_from(t@, pos as int, doc_view(parser.document)),
                stop_of(t@) == stop_from(t@, pos as int),
                first_dup(t@) == first_dup_from(t@, pos as int, doc_view(parser.document)),
            ensures
                t@ == s@,
                len == t@.len(),
                len < usize::MAX,
                pos <= len,
                parser.wf(),
                render_entries(parser.document.root.items@) + parser.document.trailing@
                    == t@.subrange(0, pos as int),
                pos == len || !is_ws(t@[pos as int]),
                pos < len ==> !starts_expression(t@, pos as int),
                pos < len ==> forall|j: int| !expression_span(t@, pos as int, j),
                expressions_from(t@, pos as int) ==> valid_document(t@),
                valid_document(t@) ==> expressions_from(t@, pos as int),
                accepted_document(t@) == accepts_from(
                    t@,
                    pos as int,
                    parser.root_keys(),
                    parser.table_keys(),
                ),
                document_of(t@) == document_from(t@, pos as int, doc_view(parser.document)),
                stop_of(t@) == stop_from(t@, pos as int),
                first_dup(t@) == first_dup_from(t@, pos as int, doc_view(parser.document)),
            decreases len - pos,
        {
            let ghost start = pos as int;
            let ghost root_keys = parser.root_keys();
            let ghost table_keys = parser.table_keys();
            let ghost m0 = doc_view(parser.document);
            let next = match parser.on_expression(s, &t, pos) {
                Ok(Some(next)) => next,
                Ok(None) => {
                    break;
                },
                Err(e) => {
                    proof {
                        if !(e is DuplicateKey) {
                            lemma_no_expression(t@, start);
                            lemma_stop_here(t@, start);
                        } else {
                            let j = choose|j: int| start < j <= t@.len() && expression_span(t@, start, j);
                            let w = lemma_ws_end(t@, j);
                            lemma_folds_step(t@, start, j, w, m0);
                        }
                    }
                    return Err(e);
                },
            };
            let w = scan_ws(&t, next);
            proof {
                lemma_expressions_step(t@, start, next as int, w as int);
                lemma_accepts_step(t@, start, next as int, w as int, root_keys, table_keys);
                lemma_document_from_step(t@, start, next as int, w as int, m0);
                lemma_folds_step(t@, start, next as int, w as int, m0);
            }
            let ghost mid = doc_view(parser.document);
            parser.on_ws(slice_string(s, next, w).as_str());
            assert(doc_view(parser.document).entries =~= mid.entries);
            assert(t@.subrange(0, w as int) =~= t@.subrange(0, start) + t@.subrange(start, next as int)
                + t@.subrange(next as int, w as int));
            pos = w;
            matched = true;
        }
        if pos < len {
            proof {
                lemma_no_expression(t@, pos as int);
                lemma_accepts_none(t@, pos as int, parser.root_keys(), parser.table_keys());
                lemma_stop_here(t@, pos as int);
            }
            if matched {
                return Err(TomlError::from_unparsed(s, &t, pos));
            } else {
                return Err(TomlError::syntax(s, &t, pos, Expected::Expression));
            }
        }
        assert(t@.subrange(0, len as int) =~= t@);
        Ok(parser.document)
    }
}

} // verus!
