//! The library's own tree of a TOML document.
//!
//! `toml_edit` parses and renders; the merge decides. What the merge reads of
//! a parsed document is held here as plain values: names, the text around each
//! key and header, and what each value renders to. The values themselves ride
//! along untouched, so what comes out is what went in.

use vstd::prelude::*;

use toml_edit::{ArrayOfTables, Key, Table, Value};

use crate::path::DottedPath;
use crate::report::TomlType;
use crate::text::{has_char, trim, trimmed, views};
use crate::toml::{
    ItemRef, ValueRef, value_bare, all_held, item_value_of, table_item_of, key_text_of, key_written, key_leaf_prefix, key_leaf_suffix, value_kind, value_rendering, table_keys, array_get, array_len, array_new, array_of_tables_get, array_of_tables_item,
    array_of_tables_len, array_of_tables_new, array_of_tables_push, array_push, array_value,
    inline_entry, inline_insert, inline_is_dotted, inline_names, inline_new, inline_set_dotted,
    inline_value, item_ref, key_clear_dotted, key_clear_leaf, key_copy, key_dotted_prefix,
    key_dotted_suffix, key_name, key_prefix, key_set_prefix, key_set_suffix, key_suffix,
    key_text, table_entry, table_insert, table_is_dotted, table_is_implicit, table_item,
    table_names, table_new, table_prefix, table_set_dotted, table_set_implicit,
    table_set_position, table_set_prefix, table_set_suffix, table_suffix, value_clear_decor,
    value_copy, value_is_dotted_table, value_item, value_ref, value_text, value_type,
};

verus! {

/// A key as written: its name, and the text around it.
#[derive(Debug)]
pub struct KeyNode {
    /// The key's name, unescaped.
    pub name: String,
    /// The key as it is written, quotes and all.
    pub repr: String,
    /// The text between the previous item and the key; `None` where the
    /// renderer's default applies.
    pub prefix: Option<String>,
    /// The text between the key and its `=`.
    pub suffix: Option<String>,
    /// The text before the dot, for a segment of a dotted key.
    pub dotted_prefix: Option<String>,
    /// The text after the segment, for a segment of a dotted key.
    pub dotted_suffix: Option<String>,
    /// The key itself, carried through to be rendered again.
    pub raw: Key,
}

/// A value: what the merge compares, and the value itself.
#[derive(Debug)]
pub struct ValueNode {
    pub kind: TomlType,
    /// The value as written with every scrap of formatting white space taken
    /// out of it, which is what the merge compares and echoes.
    pub text: String,
    /// Whether the value is written over several lines.
    pub multiline: bool,
    /// Whether the value is an inline table written as dotted keys.
    pub dotted_table: bool,
    pub raw: Value,
}

/// A table: its header's text and its entries, in order.
#[derive(Debug)]
pub struct TableNode {
    /// Whether the table is written as dotted keys rather than a header.
    pub dotted: bool,
    /// Whether the table is only there to hold the tables under it.
    pub implicit: bool,
    /// The text above the header; `None` where the renderer's default applies.
    pub prefix: Option<String>,
    /// The text after the header on its line.
    pub suffix: Option<String>,
    pub entries: Vec<Entry>,
}

/// One key and what it holds.
#[derive(Debug)]
pub struct Entry {
    pub key: KeyNode,
    pub item: Node,
}

/// What a key holds.
#[derive(Debug)]
pub enum Node {
    Value(ValueNode),
    Table(TableNode),
    Array(Vec<TableNode>),
}

/// The names of a table's entries, in order.
pub open spec fn names(t: TableNode) -> Seq<Seq<char>> {
    t.entries@.map_values(|e: Entry| e.key.name@)
}

/// Whether a table has an entry of a given name.
pub open spec fn has_name(t: TableNode, name: Seq<char>) -> bool {
    names(t).contains(name)
}

/// The type a node has, as the merge compares types.
pub open spec fn node_type(n: Node) -> TomlType {
    match n {
        Node::Value(v) => v.kind,
        Node::Table(_) => TomlType::Table,
        Node::Array(_) => TomlType::ArrayOfTables,
    }
}

/// An optional string with its text.
pub open spec fn opt_text(o: Option<String>) -> Option<Seq<char>> {
    match o {
        Some(s) => Some(s@),
        None => None,
    }
}

/// Entries `b` that begin with every entry of `a`, in order.
pub open spec fn extends(a: Seq<Entry>, b: Seq<Entry>) -> bool {
    a.len() <= b.len() && b.subrange(0, a.len() as int) == a
}

/// A table whose entries begin with another's keeps every name the other
/// has.
pub proof fn lemma_extends_names(a: TableNode, b: TableNode)
    requires
        extends(a.entries@, b.entries@),
    ensures
        forall|n: Seq<char>| has_name(a, n) ==> has_name(b, n),
{
    assert forall|n: Seq<char>| has_name(a, n) implies has_name(b, n) by {
        let k = names(a).index_of(n);
        assert(b.entries@.subrange(0, a.entries@.len() as int)[k] == a.entries@[k]);
        assert(names(b)[k] == n);
    }
}

/// Extension is transitive.
pub proof fn lemma_extends_trans(a: Seq<Entry>, b: Seq<Entry>, c: Seq<Entry>)
    requires
        extends(a, b),
        extends(b, c),
    ensures
        extends(a, c),
{
    assert(c.subrange(0, a.len() as int) =~= c.subrange(0, b.len() as int).subrange(0, a.len() as int));
}

/// The entry a table ends with has its name.
pub proof fn lemma_last_name(t: TableNode)
    requires
        t.entries@.len() > 0,
    ensures
        has_name(t, t.entries@.last().key.name@),
{
    assert(names(t)[t.entries@.len() - 1] == t.entries@.last().key.name@);
}

/// Where the first entry of a given name sits from position `k` on, or -1.
pub open spec fn first_from(es: Seq<Entry>, n: Seq<char>, k: int) -> int
    decreases es.len() - k,
{
    if k < 0 || k >= es.len() {
        -1
    } else if es[k].key.name@ == n {
        k
    } else {
        first_from(es, n, k + 1)
    }
}

/// Entries of other names can be skipped when looking for the first entry of
/// a name.
pub proof fn lemma_first_from_skip(es: Seq<Entry>, n: Seq<char>, a: int, b: int)
    requires
        0 <= a <= b <= es.len(),
        forall|j: int| a <= j < b ==> (#[trigger] es[j]).key.name@ != n,
    ensures
        first_from(es, n, a) == first_from(es, n, b),
    decreases b - a,
{
    if a < b {
        lemma_first_from_skip(es, n, a + 1, b);
    }
}

/// The first entry of a name is where it is found, and has that name.
pub proof fn lemma_first_from_found(es: Seq<Entry>, n: Seq<char>, k: int)
    requires
        0 <= k,
    ensures
        first_from(es, n, k) == -1 || (k <= first_from(es, n, k) < es.len() && es[first_from(
            es,
            n,
            k,
        )].key.name@ == n && forall|j: int| k <= j < first_from(es, n, k) ==> (#[trigger] es[j]).key.name@ != n),
    decreases es.len() - k,
{
    if k < es.len() && es[k].key.name@ != n {
        lemma_first_from_found(es, n, k + 1);
    }
}

/// When no entry of a name is found from `k` on, no entry from there has it.
pub proof fn lemma_first_from_none(es: Seq<Entry>, n: Seq<char>, k: int)
    requires
        0 <= k,
        first_from(es, n, k) == -1,
    ensures
        forall|j: int| k <= j < es.len() ==> (#[trigger] es[j]).key.name@ != n,
    decreases es.len() - k,
{
    if k < es.len() {
        lemma_first_from_none(es, n, k + 1);
    }
}

/// Whether a path of names leads to something in a table. An array of
/// tables is looked into through its first entry.
pub open spec fn path_in(t: TableNode, segs: Seq<Seq<char>>) -> bool
    decreases segs.len(),
{
    if segs.len() == 0 {
        false
    } else {
        let i = first_from(t.entries@, segs[0], 0);
        if i < 0 {
            false
        } else if segs.len() == 1 {
            true
        } else {
            match t.entries@[i].item {
                Node::Table(sub) => path_in(sub, segs.drop_first()),
                Node::Array(ts) => ts@.len() > 0 && path_in(ts@[0], segs.drop_first()),
                _ => false,
            }
        }
    }
}

/// Two lists of tables, entry for entry holding the same names.
pub open spec fn same_entries(a: Seq<TableNode>, b: Seq<TableNode>) -> bool {
    a.len() == b.len() && forall|i: int| 0 <= i < a.len() ==> names(#[trigger] a[i]) == names(b[i])
}

/// A copy of an optional string.
pub fn copy_text(o: &Option<String>) -> (r: Option<String>)
    ensures
        opt_text(r) == opt_text(*o),
{
    match o {
        Some(s) => Some(s.clone()),
        None => None,
    }
}

impl KeyNode {
    /// A key of the same name and the same text around it.
    pub fn duplicate(&self) -> (r: Self)
        ensures
            r.name@ == self.name@,
            r.repr@ == self.repr@,
            opt_text(r.prefix) == opt_text(self.prefix),
            opt_text(r.suffix) == opt_text(self.suffix),
            opt_text(r.dotted_prefix) == opt_text(self.dotted_prefix),
            opt_text(r.dotted_suffix) == opt_text(self.dotted_suffix),
            key_text_of(r.raw) == key_text_of(self.raw),
    {
        KeyNode {
            name: self.name.clone(),
            repr: self.repr.clone(),
            prefix: copy_text(&self.prefix),
            suffix: copy_text(&self.suffix),
            dotted_prefix: copy_text(&self.dotted_prefix),
            dotted_suffix: copy_text(&self.dotted_suffix),
            raw: key_copy(&self.raw),
        }
    }
}

impl ValueNode {
    /// A copy of the value.
    pub fn duplicate(&self) -> (r: Self)
        ensures
            r.kind == self.kind,
            r.text@ == self.text@,
            r.multiline == self.multiline,
            r.dotted_table == self.dotted_table,
            value_rendering(r.raw) == value_rendering(self.raw),
            value_kind(r.raw) == value_kind(self.raw),
    {
        ValueNode {
            kind: self.kind,
            text: self.text.clone(),
            multiline: self.multiline,
            dotted_table: self.dotted_table,
            raw: value_copy(&self.raw),
        }
    }
}

/// Two tables with the same shape: the same flags, and entries of the same
/// names and types, all the way down.
pub open spec fn same_shape(a: TableNode, b: TableNode) -> bool {
    &&& a.dotted == b.dotted
    &&& a.implicit == b.implicit
    &&& opt_text(a.prefix) == opt_text(b.prefix)
    &&& names(a) == names(b)
    &&& a.entries@.len() == b.entries@.len()
    &&& forall|i: int|
        0 <= i < a.entries@.len() ==> node_type(#[trigger] a.entries@[i].item) == node_type(
            b.entries@[i].item,
        )
}

impl TableNode {
    /// A table with nothing in it.
    pub fn empty() -> (t: Self)
        ensures
            t.entries@.len() == 0,
            !t.dotted,
            !t.implicit,
            t.prefix is None,
            t.suffix is None,
    {
        TableNode { dotted: false, implicit: false, prefix: None, suffix: None, entries: Vec::new() }
    }

    /// A copy of the table.
    pub fn duplicate(&self) -> (r: Self)
        ensures
            same_shape(r, *self),
            forall|j: int| 0 <= j < self.entries@.len() ==> value_carried(self.entries@[j], #[trigger] r.entries@[j]),
            forall|j: int|
                0 <= j < self.entries@.len() ==> key_text_of((#[trigger] r.entries@[j]).key.raw) == key_text_of(
                    self.entries@[j].key.raw,
                ) && opt_text(r.entries@[j].key.prefix) == opt_text(self.entries@[j].key.prefix),
        decreases self,
    {
        let mut entries: Vec<Entry> = Vec::new();
        let mut i: usize = 0;
        while i < self.entries.len()
            invariant
                i <= self.entries@.len(),
                entries@.len() == i,
                forall|j: int|
                    0 <= j < i ==> (#[trigger] entries@[j]).key.name@ == self.entries@[j].key.name@
                        && node_type(entries@[j].item) == node_type(self.entries@[j].item)
                        && value_carried(self.entries@[j], entries@[j])
                        && key_text_of(entries@[j].key.raw) == key_text_of(self.entries@[j].key.raw)
                        && opt_text(entries@[j].key.prefix) == opt_text(self.entries@[j].key.prefix),
            decreases self.entries.len() - i,
        {
            assert(decreases_to!(self => self.entries@[i as int]));
            let e = self.entries[i].duplicate();
            entries.push(e);
            i = i + 1;
        }
        let r = TableNode {
            dotted: self.dotted,
            implicit: self.implicit,
            prefix: copy_text(&self.prefix),
            suffix: copy_text(&self.suffix),
            entries,
        };
        assert(names(r) =~= names(*self));
        r
    }

    /// Where the first entry of a given name sits, if the table has one.
    pub fn find(&self, name: &str) -> (r: Option<usize>)
        ensures
            r matches Some(i) ==> i < self.entries@.len() && self.entries@[i as int].key.name@
                == name@,
            r is None ==> !has_name(*self, name@),
            r matches Some(i) ==> first_from(self.entries@, name@, 0) == i,
            r is None ==> first_from(self.entries@, name@, 0) == -1,
    {
        let mut i: usize = 0;
        let n = name.to_owned();
        while i < self.entries.len()
            invariant
                i <= self.entries@.len(),
                n@ == name@,
                forall|j: int| 0 <= j < i ==> (#[trigger] self.entries@[j]).key.name@ != name@,
            decreases self.entries.len() - i,
        {
            if crate::text::text_eq(&self.entries[i].key.name, &n) {
                proof {
                    lemma_first_from_skip(self.entries@, name@, 0, i as int);
                }
                return Some(i);
            }
            i = i + 1;
        }
        proof {
            lemma_first_from_skip(self.entries@, name@, 0, i as int);
        }
        proof {
            if names(*self).contains(name@) {
                let k = names(*self).index_of(name@);
                assert(self.entries@[k].key.name@ == name@);
            }
        }
        None
    }

    /// Whether the table has an entry of a given name.
    pub fn contains(&self, name: &str) -> (r: bool)
        ensures
            r == has_name(*self, name@),
    {
        match self.find(name) {
            Some(i) => {
                assert(names(*self)[i as int] == name@);
                true
            },
            None => false,
        }
    }

    /// Appends an entry.
    pub fn push(&mut self, entry: Entry)
        ensures
            final(self).entries@ == old(self).entries@.push(entry),
            final(self).dotted == old(self).dotted,
            final(self).implicit == old(self).implicit,
            final(self).prefix == old(self).prefix,
            final(self).suffix == old(self).suffix,
            names(*final(self)) == names(*old(self)).push(entry.key.name@),
            extends(old(self).entries@, final(self).entries@),
            has_name(*final(self), entry.key.name@),
    {
        self.entries.push(entry);
        assert(self.entries@.subrange(0, old(self).entries@.len() as int) =~= old(self).entries@);
        assert(names(*self)[old(self).entries@.len() as int] == entry.key.name@);
        assert(names(*self) =~= names(*old(self)).push(entry.key.name@));
    }
}

/// A copy of a node.
pub fn copy_node(item: &Node) -> (r: Node)
    ensures
        node_type(r) == node_type(*item),
        r matches Node::Value(v) ==> item matches Node::Value(w) && v.text@ == w.text@ && v.kind
            == w.kind,
        item matches Node::Value(w) ==> r matches Node::Value(v) && v.text@ == w.text@ && v.kind
            == w.kind,
        item matches Node::Table(t) ==> r matches Node::Table(o) && names(o) == names(*t),
        item matches Node::Array(ts) ==> r matches Node::Array(os) && same_entries(os@, ts@),
    decreases item,
{
    match item {
        Node::Value(v) => Node::Value(v.duplicate()),
        Node::Table(t) => {
            assert(decreases_to!(item => t));
            Node::Table(t.duplicate())
        },
        Node::Array(ts) => {
            let mut out: Vec<TableNode> = Vec::new();
            let mut i: usize = 0;
            while i < ts.len()
                invariant
                    i <= ts@.len(),
                    *item == Node::Array(*ts),
                    same_entries(out@, ts@.subrange(0, i as int)),
                decreases ts.len() - i,
            {
                assert(decreases_to!(item => item->Array_0));
                assert(decreases_to!(*ts => ts@));
                assert(decreases_to!(ts@ => ts@[i as int]));
                out.push(ts[i].duplicate());
                i = i + 1;
            }
            assert(ts@.subrange(0, i as int) =~= ts@);
            Node::Array(out)
        },
    }
}

/// The type of a node.
pub fn type_of(item: &Node) -> (r: TomlType)
    ensures
        r == node_type(*item),
{
    match item {
        Node::Value(v) => v.kind,
        Node::Table(_) => TomlType::Table,
        Node::Array(_) => TomlType::ArrayOfTables,
    }
}

impl Entry {
    /// A copy of the entry.
    pub fn duplicate(&self) -> (r: Self)
        ensures
            r.key.name@ == self.key.name@,
            node_type(r.item) == node_type(self.item),
            value_carried(*self, r),
            key_text_of(r.key.raw) == key_text_of(self.key.raw),
            opt_text(r.key.prefix) == opt_text(self.key.prefix),
        decreases self,
    {
        assert(decreases_to!(self => self.item));
        Entry { key: self.key.duplicate(), item: copy_node(&self.item) }
    }
}

/// Whether a path names something in a table. An array of tables is looked
/// into through its first entry.
pub fn reaches(root: &TableNode, path: &DottedPath) -> (r: bool)
    ensures
        r == path_in(*root, path@),
{
    let n = path.len();
    let segments = path.segments();
    let ghost segs = path@;
    let mut table: &TableNode = root;
    let mut k: usize = 0;
    assert(segs.skip(0) =~= segs);
    while k < segments.len()
        invariant
            k < segments@.len(),
            views(segments@) == segs,
            segs == path@,
            path_in(*root, segs) == path_in(*table, segs.skip(k as int)),
        decreases segments.len() - k,
    {
        assert(segs.skip(k as int)[0] == segments@[k as int]@);
        let at = match table.find(segments[k].as_str()) {
            Some(at) => at,
            None => return false,
        };
        if k + 1 == segments.len() {
            assert(segs.skip(k as int).len() == 1);
            return true;
        }
        assert(segs.skip(k as int).drop_first() =~= segs.skip(k + 1));
        table = match &table.entries[at].item {
            Node::Table(sub) => sub,
            Node::Array(ts) => {
                if ts.len() == 0 {
                    return false;
                }
                &ts[0]
            },
            _ => return false,
        };
        k = k + 1;
    }
    false
}

// -- reading a parsed document -------------------------------------------

/// A key, read.
pub(crate) fn key_node(key: &Key) -> (r: KeyNode)
    ensures
        r.name@ == key_text_of(*key),
        r.repr@ == key_written(*key),
        r.prefix is Some <==> key_leaf_prefix(*key) is Some,
        r.prefix matches Some(t) ==> key_leaf_prefix(*key) == Some(t@),
        r.suffix is Some <==> key_leaf_suffix(*key) is Some,
        r.suffix matches Some(t) ==> key_leaf_suffix(*key) == Some(t@),
        key_text_of(r.raw) == r.name@,
        key_written(r.raw) == r.repr@,
{
    KeyNode {
        name: key_name(key),
        repr: key_text(key),
        prefix: key_prefix(key),
        suffix: key_suffix(key),
        dotted_prefix: key_dotted_prefix(key),
        dotted_suffix: key_dotted_suffix(key),
        raw: key_copy(key),
    }
}

/// A value with every scrap of formatting white space taken out of it,
/// through its arrays and inline tables. `depth` bounds how deep it reads.
fn stripped(value: &Value, depth: usize) -> (r: Value)
    ensures
        (depth == 0 || (value_kind(*value) != TomlType::Array && value_kind(*value) != TomlType::InlineTable))
            ==> value_rendering(r) == value_bare(*value),
    decreases depth,
{
    match value_ref(value) {
        ValueRef::Array(array) => {
            if depth == 0 {
                let mut v = value_copy(value);
                value_clear_decor(&mut v);
                return v;
            }
            let mut out = array_new();
            let n = array_len(array);
            let mut i: usize = 0;
            while i < n
                invariant
                    depth > 0,
                decreases n - i,
            {
                match array_get(array, i) {
                    Some(element) => array_push(&mut out, stripped(element, depth - 1)),
                    None => {},
                }
                i = i + 1;
            }
            array_value(out)
        },
        ValueRef::Table(table) => {
            if depth == 0 {
                let mut v = value_copy(value);
                value_clear_decor(&mut v);
                return v;
            }
            let mut out = inline_new();
            inline_set_dotted(&mut out, inline_is_dotted(table));
            let names = inline_names(table);
            let mut i: usize = 0;
            while i < names.len()
                invariant
                    depth > 0,
                decreases names.len() - i,
            {
                match inline_entry(table, names[i].as_str()) {
                    Some((key, item)) => match crate::toml::item_value(item) {
                        Some(element) => {
                            let mut k = key_copy(key);
                            key_clear_leaf(&mut k);
                            key_clear_dotted(&mut k);
                            inline_insert(&mut out, &k, stripped(element, depth - 1));
                        },
                        None => {},
                    },
                    None => {},
                }
                i = i + 1;
            }
            inline_value(out)
        },
        ValueRef::Other => {
            let mut v = value_copy(value);
            value_clear_decor(&mut v);
            v
        },
    }
}

/// A value, read. `depth` bounds how deep its arrays and inline tables are
/// read.
pub(crate) fn value_node(value: &Value, depth: usize) -> (r: ValueNode)
    ensures
        r.kind == value_kind(*value),
        value_kind(r.raw) == r.kind,
        value_rendering(r.raw) == value_rendering(*value),
        r.multiline == value_rendering(*value).contains('\n'),
        value_bare(r.raw) == value_bare(*value),
        (depth == 0 || (r.kind != TomlType::Array && r.kind != TomlType::InlineTable)) ==> r.text@ == trim(
            value_bare(*value),
        ),
{
    let bare = stripped(value, depth);
    let written = value_text(value);
    let text = trimmed(value_text(&bare).as_str());
    ValueNode {
        kind: value_type(value),
        text,
        multiline: has_char(written.as_str(), '\n'),
        dotted_table: value_is_dotted_table(value),
        raw: value_copy(value),
    }
}

/// Whether an entry holds the value another holds, as written and of the
/// same type, where that one holds a value.
pub open spec fn value_carried(a: Entry, b: Entry) -> bool {
    a.item matches Node::Value(v) ==> (b.item matches Node::Value(w) && w.text@ == v.text@ && w.kind == v.kind)
}

/// Entries holding the same names in the same places have their first
/// entry of a name in the same place.
pub proof fn lemma_first_from_same_names(a: Seq<Entry>, b: Seq<Entry>, n: Seq<char>, k: int)
    requires
        a.len() == b.len(),
        forall|j: int| 0 <= j < a.len() ==> (#[trigger] a[j]).key.name@ == b[j].key.name@,
    ensures
        first_from(a, n, k) == first_from(b, n, k),
    decreases a.len() - k,
{
    if 0 <= k < a.len() {
        lemma_first_from_same_names(a, b, n, k + 1);
    }
}

/// Whether an entry holds what `toml_edit` read: its key's name and written
/// form are those of the key it keeps, and a value's type is that of the
/// value it keeps.
pub open spec fn read_from_raw(e: Entry) -> bool {
    &&& key_text_of(e.key.raw) == e.key.name@
    &&& key_written(e.key.raw) == e.key.repr@
    &&& e.item matches Node::Value(v) ==> value_kind(v.raw) == v.kind && ((v.kind != TomlType::Array
        && v.kind != TomlType::InlineTable) ==> v.text@ == trim(value_bare(v.raw)))
}

/// A table, read. `depth` bounds how deep the tables under it are read; a
/// bound past the document's length reads all of it, and at the bound only
/// the values of the table itself are read.
pub(crate) fn table_node(table: &Table, depth: usize) -> (r: TableNode)
    ensures
        depth == 0 ==> forall|k: int| 0 <= k < r.entries@.len() ==> (#[trigger] r.entries@[k]).item is Value,
        depth > 0 ==> names(r) == table_keys(*table),
        forall|k: int| 0 <= k < r.entries@.len() ==> read_from_raw(#[trigger] r.entries@[k]),
    decreases depth,
{
    let names = table_names(table);
    let mut entries: Vec<Entry> = Vec::new();
    let mut i: usize = 0;
    while i < names.len()
        invariant
            depth == 0 ==> forall|k: int| 0 <= k < entries@.len() ==> (#[trigger] entries@[k]).item is Value,
            i <= names@.len(),
            views(names@) == table_keys(*table),
            depth > 0 ==> entries@.map_values(|e: Entry| e.key.name@) == table_keys(*table).subrange(0, i as int),
            forall|k: int| 0 <= k < entries@.len() ==> read_from_raw(#[trigger] entries@[k]),
        decreases names.len() - i,
    {
        let ghost before = entries@;
        proof {
            assert(views(names@)[i as int] == names@[i as int]@);
            assert(table_keys(*table)[i as int] == names@[i as int]@);
        }
        match table_entry(table, names[i].as_str()) {
            Some((key, item)) => match item_ref(item) {
                ItemRef::Nothing => {},
                ItemRef::Value(value) => {
                    entries.push(Entry { key: key_node(key), item: Node::Value(value_node(value, depth)) });
                },
                ItemRef::Table(sub) => {
                    if depth > 0 {
                        entries.push(Entry { key: key_node(key), item: Node::Table(table_node(sub, depth - 1)) });
                    }
                },
                ItemRef::Array(array) => {
                    if depth > 0 {
                        let n = array_of_tables_len(array);
                        let mut tables: Vec<TableNode> = Vec::new();
                        let mut j: usize = 0;
                        while j < n
                            invariant
                                depth > 0,
                            decreases n - j,
                        {
                            match array_of_tables_get(array, j) {
                                Some(t) => tables.push(table_node(t, depth - 1)),
                                None => {},
                            }
                            j = j + 1;
                        }
                        entries.push(Entry { key: key_node(key), item: Node::Array(tables) });
                    }
                },
            },
            None => {},
        }
        proof {
            if depth > 0 {
                assert(entries@.map_values(|e: Entry| e.key.name@) =~= table_keys(*table).subrange(0, i + 1));
            }
        }
        i = i + 1;
    }
    proof {
        if depth > 0 {
            assert(table_keys(*table).subrange(0, i as int) =~= table_keys(*table));
        }
    }
    TableNode {
        dotted: table_is_dotted(table),
        implicit: table_is_implicit(table),
        prefix: table_prefix(table),
        suffix: table_suffix(table),
        entries,
    }
}

// -- rendering -----------------------------------------------------------

/// Whether an entry's key names what the key it keeps names.
pub open spec fn raw_named(e: Entry) -> bool {
    key_text_of(e.key.raw) == e.key.name@
}

/// Whether every entry's key names what the key it keeps names.
pub open spec fn all_raw_named(es: Seq<Entry>) -> bool {
    forall|j: int| 0 <= j < es.len() ==> raw_named(#[trigger] es[j])
}

/// Whether the entries `b` has past `a`'s length keep keys naming what
/// they name.
pub open spec fn gained_raw(a: Seq<Entry>, b: Seq<Entry>) -> bool {
    forall|x: int| a.len() <= x < b.len() ==> raw_named(#[trigger] b[x])
}

/// The names entries' keys hold as `toml_edit` reads them.
pub open spec fn raw_names(es: Seq<Entry>) -> Seq<Seq<char>> {
    es.map_values(|e: Entry| key_text_of(e.key.raw))
}

/// Names in the order they first come, each once.
pub open spec fn first_names(s: Seq<Seq<char>>) -> Seq<Seq<char>>
    decreases s.len(),
{
    if s.len() == 0 {
        seq![]
    } else {
        let before = first_names(s.drop_last());
        if before.contains(s.last()) {
            before
        } else {
            before.push(s.last())
        }
    }
}

/// Whether a rendered table holds, under the name of the `k`th entry of a
/// list, that entry's value, where it is a value no later entry's name
/// replaces.
pub open spec fn holds_value_of(t: Table, es: Seq<Entry>, k: int) -> bool {
    ((forall|j: int| k < j < es.len() ==> key_text_of(#[trigger] es[j].key.raw) != key_text_of(es[k].key.raw))
        && es[k].item is Value) ==> (item_value_of(table_item_of(t, key_text_of(es[k].key.raw))) matches Some(
        w,
    ) && value_rendering(w) == value_rendering(es[k].item->Value_0.raw))
}

/// The key to render: the key as it was found, with the text around it as
/// the tree now has it.
pub(crate) fn key_out(key: &KeyNode) -> (r: Key)
    ensures
        key_text_of(r) == key_text_of(key.raw),
{
    let mut k = key_copy(&key.raw);
    key_clear_leaf(&mut k);
    match &key.prefix {
        Some(p) => key_set_prefix(&mut k, p.as_str()),
        None => {},
    }
    match &key.suffix {
        Some(s) => key_set_suffix(&mut k, s.as_str()),
        None => {},
    }
    k
}

/// The next position to give a table, counting up from `next`.
fn bump(next: &mut isize)
    ensures
        *old(next) < isize::MAX ==> *final(next) == *old(next) + 1,
        *old(next) == isize::MAX ==> *final(next) == *old(next),
{
    if *next < isize::MAX {
        *next = *next + 1;
    }
}

/// How many tables with headers of their own entries hold, at any depth:
/// every table that is not dotted, and every table of an array.
pub open spec fn headers_in(es: Seq<Entry>) -> nat
    decreases es,
{
    if es.len() == 0 {
        0
    } else {
        let here: nat = match es[0].item {
            Node::Value(_) => 0,
            Node::Table(sub) => {
                proof {
                    assert(decreases_to!(es => es[0]));
                    assert(decreases_to!(es[0] => es[0].item));
                    assert(decreases_to!(es[0].item => sub));
                    assert(decreases_to!(sub => sub.entries));
                    assert(decreases_to!(sub.entries => sub.entries@));
                }
                (if sub.dotted {
                    0nat
                } else {
                    1nat
                }) + headers_in(sub.entries@)
            },
            Node::Array(ts) => {
                proof {
                    assert(decreases_to!(es => es[0]));
                    assert(decreases_to!(es[0] => es[0].item));
                    assert(decreases_to!(es[0].item => ts));
                    assert(decreases_to!(ts => ts@));
                }
                headers_of_tables(ts@)
            },
        };
        here + headers_in(es.subrange(1, es.len() as int))
    }
}

/// How many headers a list of array entries writes: one each, and those
/// of the tables under them.
pub open spec fn headers_of_tables(ts: Seq<TableNode>) -> nat
    decreases ts,
{
    if ts.len() == 0 {
        0
    } else {
        proof {
            assert(decreases_to!(ts => ts[0]));
            assert(decreases_to!(ts[0] => ts[0].entries));
            assert(decreases_to!(ts[0].entries => ts[0].entries@));
        }
        1 + headers_in(ts[0].entries@) + headers_of_tables(ts.subrange(1, ts.len() as int))
    }
}

/// A count added to a position, up to the largest one there is.
pub open spec fn counted_on(next: int, n: nat) -> int {
    if next + n > isize::MAX {
        isize::MAX as int
    } else {
        next + n
    }
}

/// A table to render. Every table under it with a header of its own is
/// numbered as the walk reaches it, so the rendered document follows the
/// tree's order.
pub(crate) fn table_out(node: &TableNode, next: &mut isize) -> (r: Table)
    ensures
        *final(next) == counted_on(*old(next) as int, headers_in(node.entries@)),
        all_held(r),
        table_keys(r) == first_names(raw_names(node.entries@)),
        forall|k: int| 0 <= k < node.entries@.len() ==> #[trigger] holds_value_of(r, node.entries@, k),
    decreases node,
{
    let mut t = table_new();
    table_set_dotted(&mut t, node.dotted);
    table_set_implicit(&mut t, node.implicit);
    match &node.prefix {
        Some(p) => table_set_prefix(&mut t, p.as_str()),
        None => {},
    }
    match &node.suffix {
        Some(s) => table_set_suffix(&mut t, s.as_str()),
        None => {},
    }
    let mut i: usize = 0;
    let ghost es = node.entries@;
    assert(es.subrange(0, es.len() as int) =~= es);
    assert(raw_names(es.subrange(0, 0)) =~= Seq::<Seq<char>>::empty());
    while i < node.entries.len()
        invariant
            i <= es.len(),
            es == node.entries@,
            all_held(t),
            table_keys(t) == first_names(raw_names(es.subrange(0, i as int))),
            forall|k: int| 0 <= k < i ==> #[trigger] holds_value_of(t, es.subrange(0, i as int), k),
            counted_on(*old(next) as int, headers_in(es)) == counted_on(
                *next as int,
                headers_in(es.subrange(i as int, es.len() as int)),
            ),
        decreases node.entries.len() - i,
    {
        let ghost now = es.subrange(i as int, es.len() as int);
        let ghost next0 = *next as int;
        assert(now[0] == es[i as int]);
        assert(now.subrange(1, now.len() as int) =~= es.subrange(i + 1, es.len() as int));
        let entry = &node.entries[i];
        assert(decreases_to!(node => node.entries@[i as int]));
        let key = key_out(&entry.key);
        let ghost t0 = t;
        match &entry.item {
            Node::Value(v) => table_insert(&mut t, &key, value_item(value_copy(&v.raw))),
            Node::Table(sub) => {
                assert(decreases_to!(node => sub));
                let position = if sub.dotted {
                    None
                } else {
                    bump(next);
                    Some(*next)
                };
                let mut st = table_out(sub, next);
                match position {
                    Some(p) => table_set_position(&mut st, p),
                    None => {},
                }
                table_insert(&mut t, &key, table_item(st));
            },
            Node::Array(tables) => {
                let mut array: ArrayOfTables = array_of_tables_new();
                let mut j: usize = 0;
                assert(tables@.subrange(0, tables@.len() as int) =~= tables@);
                while j < tables.len()
                    invariant
                        i < node.entries@.len(),
                        all_held(t),
                        table_keys(t) == first_names(raw_names(es.subrange(0, i as int))),
                        forall|k: int| 0 <= k < i ==> #[trigger] holds_value_of(t, es.subrange(0, i as int), k),
                        es == node.entries@,
                        node.entries@[i as int].item == Node::Array(*tables),
                        j <= tables@.len(),
                        counted_on(next0, headers_of_tables(tables@)) == counted_on(
                            *next as int,
                            headers_of_tables(tables@.subrange(j as int, tables@.len() as int)),
                        ),
                    decreases tables.len() - j,
                {
                    let ghost tnow = tables@.subrange(j as int, tables@.len() as int);
                    assert(tnow[0] == tables@[j as int]);
                    assert(tnow.subrange(1, tnow.len() as int) =~= tables@.subrange(j + 1, tables@.len() as int));
                    assert(decreases_to!(node => node.entries));
                    assert(decreases_to!(node.entries => node.entries@));
                    assert(decreases_to!(node.entries@ => node.entries@[i as int]));
                    assert(decreases_to!(node.entries@[i as int] => node.entries@[i as int].item));
                    assert(decreases_to!(node.entries@[i as int].item => node.entries@[i as int].item->Array_0));
                    assert(decreases_to!(*tables => tables@));
                    assert(decreases_to!(tables@ => tables@[j as int]));
                    assert(decreases_to!(node => tables@[j as int]));
                    bump(next);
                    let p = *next;
                    let mut st = table_out(&tables[j], next);
                    table_set_position(&mut st, p);
                    array_of_tables_push(&mut array, st);
                    j = j + 1;
                }
                assert(tables@.subrange(j as int, tables@.len() as int) =~= Seq::<TableNode>::empty());
                table_insert(&mut t, &key, array_of_tables_item(array));
            },
        }
        proof {
            let before = es.subrange(0, i as int);
            let after = es.subrange(0, i + 1);
            assert(after.drop_last() =~= before);
            assert(raw_names(after) =~= raw_names(before).push(key_text_of(es[i as int].key.raw)));
            assert(raw_names(after).drop_last() =~= raw_names(before));
            assert forall|k: int| 0 <= k < i + 1 implies #[trigger] holds_value_of(t, after, k) by {
                if k < i {
                    assert(after[k] == before[k]);
                    if forall|j: int| k < j < after.len() ==> key_text_of(#[trigger] after[j].key.raw) != key_text_of(after[k].key.raw) {
                        assert(key_text_of(after[i as int].key.raw) != key_text_of(after[k].key.raw));
                        assert forall|j: int| k < j < before.len() implies key_text_of(#[trigger] before[j].key.raw) != key_text_of(before[k].key.raw) by {
                            assert(before[j] == after[j]);
                        }
                        assert(holds_value_of(t0, before, k));
                    }
                }
            }
        }
        i = i + 1;
    }
    assert(es.subrange(i as int, es.len() as int) =~= Seq::<Entry>::empty());
    assert(es.subrange(0, i as int) =~= es);
    t
}

} // verus!
