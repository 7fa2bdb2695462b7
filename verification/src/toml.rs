//! The calls into `toml_edit`, each behind a small trusted wrapper.
//!
//! `toml_edit` parses and renders TOML. The merge reads what it parsed into a
//! tree of the library's own (see `model`) and hands the tree back to be
//! rendered. Everything the merge decides is decided on that tree; what is
//! here only moves values in and out, one call at a time.

use vstd::prelude::*;

use toml_edit::{
    Array, ArrayOfTables, Document, DocumentMut, InlineTable, Item, Key, Table, TomlError, Value,
};

use std::str::FromStr;

use crate::report::TomlType;
use crate::text::views;

verus! {

#[verifier::external_type_specification]
#[verifier::external_body]
pub struct ExTomlError(TomlError);

#[verifier::external_type_specification]
#[verifier::external_body]
pub struct ExKey(Key);

#[verifier::external_type_specification]
#[verifier::external_body]
pub struct ExItem(Item);

#[verifier::external_type_specification]
#[verifier::external_body]
pub struct ExValue(Value);

#[verifier::external_type_specification]
#[verifier::external_body]
pub struct ExTable(Table);

#[verifier::external_type_specification]
#[verifier::external_body]
pub struct ExArrayOfTables(ArrayOfTables);

#[verifier::external_type_specification]
#[verifier::external_body]
pub struct ExArray(Array);

#[verifier::external_type_specification]
#[verifier::external_body]
pub struct ExInlineTable(InlineTable);

#[verifier::external_type_specification]
#[verifier::external_body]
pub struct ExDocumentMut(DocumentMut);

#[verifier::external_type_specification]
#[verifier::external_body]
#[verifier::reject_recursive_types(S)]
pub struct ExDocument<S>(Document<S>);

/// The names `toml_edit` reads out of text as a dotted key path, or `None`
/// when the text is not one.
pub uninterp spec fn key_path_names(text: Seq<char>) -> Option<Seq<Seq<char>>>;

/// How `toml_edit` writes a key of the given name: bare when it can be, quoted
/// otherwise.
pub uninterp spec fn key_repr(name: Seq<char>) -> Seq<char>;

/// `Key::parse`, keeping each key's unescaped name (`Key::get`).
#[verifier::external_body]
pub(crate) fn parse_key_path(text: &str) -> (r: Result<Vec<String>, TomlError>)
    ensures
        r is Ok <==> key_path_names(text@) is Some,
        r matches Ok(names) ==> key_path_names(text@) == Some(views(names@)),
{
    Key::parse(text).map(|keys| keys.iter().map(|key| key.get().to_owned()).collect())
}

/// `Key::new(name).display_repr()`: the text `toml_edit` writes for a key it
/// holds no source text of.
#[verifier::external_body]
pub(crate) fn key_repr_of(name: &str) -> (r: String)
    ensures
        r@ == key_repr(name@),
{
    Key::new(name).display_repr().into_owned()
}

/// `TomlError`'s message (its `Display`). What it says is `toml_edit`'s to
/// word, so nothing is promised of it.
#[verifier::external_body]
pub(crate) fn error_text(error: &TomlError) -> (r: String) {
    error.to_string()
}

/// `TomlError::clone`.
#[verifier::external_body]
pub(crate) fn error_copy(error: &TomlError) -> (r: TomlError) {
    error.clone()
}

// -- parsing -------------------------------------------------------------

/// Whether `toml_edit` reads a text as a TOML document. What it accepts is
/// the TOML grammar, which is `toml_edit`'s to decide.
pub uninterp spec fn is_toml(src: Seq<char>) -> bool;

/// The names of the root table `toml_edit` reads from a TOML text, in order:
/// what a text declares at its top level.
pub uninterp spec fn text_keys(src: Seq<char>) -> Seq<Seq<char>>;

/// What a parsed document holds at its root: the names of its root table's
/// entries, in order.
pub uninterp spec fn spanned_keys(document: Document<String>) -> Seq<Seq<char>>;

/// What an editable document holds at its root: the names of its root
/// table's entries, in order.
pub uninterp spec fn document_keys(document: DocumentMut) -> Seq<Seq<char>>;

/// What a table holds: the names of its entries that hold an item, in the
/// order `Table::iter` gives them.
pub uninterp spec fn table_keys(table: Table) -> Seq<Seq<char>>;

/// Whether every name a table has an entry for holds an item: no entry of
/// it is `Item::None`.
pub uninterp spec fn all_held(table: Table) -> bool;

/// The item a table holds under a name.
pub uninterp spec fn table_item_of(table: Table, name: Seq<char>) -> Item;

/// The value an item holds, when it is a value (`Item::as_value`).
pub uninterp spec fn item_value_of(item: Item) -> Option<Value>;

/// A document's root table (`DocumentMut::as_table`).
pub uninterp spec fn document_table(document: DocumentMut) -> Table;

/// The name a key holds, unescaped (`Key::get`).
pub uninterp spec fn key_text_of(key: Key) -> Seq<char>;

/// Whether an item is `Item::None`, the placeholder of an entry that holds
/// nothing.
pub uninterp spec fn item_is_none(item: Item) -> bool;

/// The text `toml_edit` writes for an editable document (its `Display`).
pub uninterp spec fn rendering(document: DocumentMut) -> Seq<char>;

/// `Document::parse`, which keeps where each key was found. It succeeds
/// exactly on the texts [`is_toml`] names, and the document it gives holds
/// at its root the names [`text_keys`] reads from the text.
#[verifier::external_body]
pub(crate) fn parse_spanned(src: &str) -> (r: Result<Document<String>, TomlError>)
    ensures
        r is Ok <==> is_toml(src@),
        r matches Ok(d) ==> spanned_keys(d) == text_keys(src@),
{
    Document::parse(src.to_owned())
}

/// `Document::as_table`: the root table, which holds the document's names.
#[verifier::external_body]
pub(crate) fn spanned_root(document: &Document<String>) -> (r: &Table)
    ensures
        table_keys(*r) == spanned_keys(*document),
{
    document.as_table()
}

/// What `toml_edit` keeps after the last item of a text it reads: the
/// comments and blank lines nothing follows.
pub uninterp spec fn text_trailing(src: Seq<char>) -> Option<Seq<char>>;

/// What a document holds after its last item, as text
/// (`DocumentMut::trailing`).
pub uninterp spec fn trailing_text(document: DocumentMut) -> Option<Seq<char>>;

/// `DocumentMut::from_str`, which is `Document::parse` followed by
/// `into_mut`: it succeeds exactly on the texts [`is_toml`] names, and the
/// document holds at its root the names [`text_keys`] reads from the text,
/// with [`text_trailing`] after its last item.
#[verifier::external_body]
pub(crate) fn parse_editable(src: &str) -> (r: Result<DocumentMut, TomlError>)
    ensures
        r is Ok <==> is_toml(src@),
        r matches Ok(d) ==> document_keys(d) == text_keys(src@) && trailing_text(d) == text_trailing(src@),
{
    DocumentMut::from_str(src)
}

/// `Document::into_mut`, which drops the spans and keeps every entry.
#[verifier::external_body]
pub(crate) fn into_editable(document: Document<String>) -> (r: DocumentMut)
    ensures
        document_keys(r) == spanned_keys(document),
{
    document.into_mut()
}

/// `DocumentMut::as_table`: the root table, which holds the document's
/// names.
#[verifier::external_body]
pub(crate) fn document_root(document: &DocumentMut) -> (r: &Table)
    ensures
        table_keys(*r) == document_keys(*document),
        *r == document_table(*document),
{
    document.as_table()
}

/// `DocumentMut::trailing`, as text.
#[verifier::external_body]
pub(crate) fn document_trailing(document: &DocumentMut) -> (r: Option<String>)
    ensures
        r is Some <==> trailing_text(*document) is Some,
        r matches Some(t) ==> trailing_text(*document) == Some(t@),
{
    document.trailing().as_str().map(str::to_owned)
}

// -- reading a table -----------------------------------------------------

/// The names of a table's entries, in order (`Table::iter`, which passes
/// over the entries that hold nothing).
#[verifier::external_body]
pub(crate) fn table_names(table: &Table) -> (r: Vec<String>)
    ensures
        views(r@) == table_keys(*table),
{
    table.iter().map(|(name, _)| name.to_owned()).collect()
}

/// `Table::get_key_value`: for a name the table holds, its key, whose name
/// is the one asked for, and an item that holds something; nothing for any
/// other name.
#[verifier::external_body]
pub(crate) fn table_entry<'a>(table: &'a Table, name: &str) -> (r: Option<(&'a Key, &'a Item)>)
    ensures
        r is Some <==> table_keys(*table).contains(name@),
        r matches Some(p) ==> key_text_of(*p.0) == name@ && !item_is_none(*p.1),
{
    table.get_key_value(name)
}

/// `Table::is_dotted`.
#[verifier::external_body]
pub(crate) fn table_is_dotted(table: &Table) -> (r: bool) {
    table.is_dotted()
}

/// `Table::is_implicit`.
#[verifier::external_body]
pub(crate) fn table_is_implicit(table: &Table) -> (r: bool) {
    table.is_implicit()
}

/// The text before a table's header (`Table::decor`, its prefix).
#[verifier::external_body]
pub(crate) fn table_prefix(table: &Table) -> (r: Option<String>) {
    table.decor().prefix().and_then(|raw| raw.as_str()).map(str::to_owned)
}

/// The text after a table's header (`Table::decor`, its suffix).
#[verifier::external_body]
pub(crate) fn table_suffix(table: &Table) -> (r: Option<String>) {
    table.decor().suffix().and_then(|raw| raw.as_str()).map(str::to_owned)
}

/// An item, by what it holds.
pub enum ItemRef<'a> {
    Nothing,
    Value(&'a Value),
    Table(&'a Table),
    Array(&'a ArrayOfTables),
}

/// Tells the variants of an `Item` apart.
#[verifier::external_body]
pub(crate) fn item_ref(item: &Item) -> (r: ItemRef<'_>)
    ensures
        r is Nothing <==> item_is_none(*item),
        r matches ItemRef::Value(v) ==> item_value_of(*item) == Some(*v),
        !(r is Value) ==> item_value_of(*item) is None,
{
    match item {
        Item::None => ItemRef::Nothing,
        Item::Value(value) => ItemRef::Value(value),
        Item::Table(table) => ItemRef::Table(table),
        Item::ArrayOfTables(array) => ItemRef::Array(array),
    }
}

/// `ArrayOfTables::len`.
#[verifier::external_body]
pub(crate) fn array_of_tables_len(array: &ArrayOfTables) -> (r: usize) {
    array.len()
}

/// `ArrayOfTables::get`.
#[verifier::external_body]
pub(crate) fn array_of_tables_get(array: &ArrayOfTables, index: usize) -> (r: Option<&Table>) {
    array.get(index)
}

// -- reading a key -------------------------------------------------------

/// `Key::get`: the key's name, unescaped.
#[verifier::external_body]
pub(crate) fn key_name(key: &Key) -> (r: String)
    ensures
        r@ == key_text_of(*key),
{
    key.get().to_owned()
}

/// How a key is written where it was read: its own quoting kept
/// (`Key::display_repr`).
pub uninterp spec fn key_written(key: Key) -> Seq<char>;

/// The text a key holds before it, when it holds it as text.
pub uninterp spec fn key_leaf_prefix(key: Key) -> Option<Seq<char>>;

/// The text a key holds between it and its `=`, when it holds it as text.
pub uninterp spec fn key_leaf_suffix(key: Key) -> Option<Seq<char>>;

/// `Key::display_repr`: the key as it is written.
#[verifier::external_body]
pub(crate) fn key_text(key: &Key) -> (r: String)
    ensures
        r@ == key_written(*key),
{
    key.display_repr().into_owned()
}

/// The text before a key (`Key::leaf_decor`, its prefix).
#[verifier::external_body]
pub(crate) fn key_prefix(key: &Key) -> (r: Option<String>)
    ensures
        r is Some <==> key_leaf_prefix(*key) is Some,
        r matches Some(t) ==> key_leaf_prefix(*key) == Some(t@),
{
    key.leaf_decor().prefix().and_then(|raw| raw.as_str()).map(str::to_owned)
}

/// The text between a key and its `=` (`Key::leaf_decor`, its suffix).
#[verifier::external_body]
pub(crate) fn key_suffix(key: &Key) -> (r: Option<String>)
    ensures
        r is Some <==> key_leaf_suffix(*key) is Some,
        r matches Some(t) ==> key_leaf_suffix(*key) == Some(t@),
{
    key.leaf_decor().suffix().and_then(|raw| raw.as_str()).map(str::to_owned)
}

/// The text before a dotted key's dot (`Key::dotted_decor`, its prefix).
#[verifier::external_body]
pub(crate) fn key_dotted_prefix(key: &Key) -> (r: Option<String>) {
    key.dotted_decor().prefix().and_then(|raw| raw.as_str()).map(str::to_owned)
}

/// The text after a dotted key's segment (`Key::dotted_decor`, its suffix).
#[verifier::external_body]
pub(crate) fn key_dotted_suffix(key: &Key) -> (r: Option<String>) {
    key.dotted_decor().suffix().and_then(|raw| raw.as_str()).map(str::to_owned)
}

/// Where a key lies in the text it was parsed from (`Key::span`), as its
/// first byte and the byte past its last.
#[verifier::external_body]
pub(crate) fn key_span(key: &Key) -> (r: Option<(usize, usize)>) {
    key.span().map(|span| (span.start, span.end))
}

/// `Key::clone`, which copies the key's name, how it is written and the
/// text around it.
#[verifier::external_body]
pub(crate) fn key_copy(key: &Key) -> (r: Key)
    ensures
        key_text_of(r) == key_text_of(*key),
        key_written(r) == key_written(*key),
        key_leaf_prefix(r) == key_leaf_prefix(*key),
        key_leaf_suffix(r) == key_leaf_suffix(*key),
{
    key.clone()
}

/// `Key::new`.
#[verifier::external_body]
pub(crate) fn key_new(name: &str) -> (r: Key)
    ensures
        key_text_of(r) == name@,
{
    Key::new(name)
}

/// Clears the text around a key (`Key::leaf_decor_mut`, `Decor::clear`).
#[verifier::external_body]
pub(crate) fn key_clear_leaf(key: &mut Key)
    ensures
        key_text_of(*final(key)) == key_text_of(*old(key)),
{
    key.leaf_decor_mut().clear()
}

/// Clears the text around a dotted key's dot (`Key::dotted_decor_mut`,
/// `Decor::clear`).
#[verifier::external_body]
pub(crate) fn key_clear_dotted(key: &mut Key)
    ensures
        key_text_of(*final(key)) == key_text_of(*old(key)),
{
    key.dotted_decor_mut().clear()
}

/// `Decor::set_prefix` on a key.
#[verifier::external_body]
pub(crate) fn key_set_prefix(key: &mut Key, text: &str)
    ensures
        key_text_of(*final(key)) == key_text_of(*old(key)),
{
    key.leaf_decor_mut().set_prefix(text)
}

/// `Decor::set_suffix` on a key.
#[verifier::external_body]
pub(crate) fn key_set_suffix(key: &mut Key, text: &str)
    ensures
        key_text_of(*final(key)) == key_text_of(*old(key)),
{
    key.leaf_decor_mut().set_suffix(text)
}

// -- reading a value -----------------------------------------------------

/// Which of `Value`'s variants a value is, as a type.
pub uninterp spec fn value_kind(value: Value) -> TomlType;

/// The text `toml_edit` writes for a value (`Value`'s `Display`).
pub uninterp spec fn value_rendering(value: Value) -> Seq<char>;

/// The text `toml_edit` writes for a value once the text around it (its
/// decor) is cleared.
pub uninterp spec fn value_bare(value: Value) -> Seq<char>;

/// The type of a value, one variant for each of `Value`'s.
#[verifier::external_body]
pub(crate) fn value_type(value: &Value) -> (r: TomlType)
    ensures
        r == value_kind(*value),
{
    match value {
        Value::String(_) => TomlType::String,
        Value::Integer(_) => TomlType::Integer,
        Value::Float(_) => TomlType::Float,
        Value::Boolean(_) => TomlType::Boolean,
        Value::Datetime(_) => TomlType::Datetime,
        Value::Array(_) => TomlType::Array,
        Value::InlineTable(_) => TomlType::InlineTable,
    }
}

/// A value as `toml_edit` writes it (`Value`'s `Display`).
#[verifier::external_body]
pub(crate) fn value_text(value: &Value) -> (r: String)
    ensures
        r@ == value_rendering(*value),
{
    value.to_string()
}

/// Whether a value is an inline table written as dotted keys
/// (`InlineTable::is_dotted`).
#[verifier::external_body]
pub(crate) fn value_is_dotted_table(value: &Value) -> (r: bool) {
    value.as_inline_table().is_some_and(|table| table.is_dotted())
}

/// `Value::clone`, which copies the value and the text around it.
#[verifier::external_body]
pub(crate) fn value_copy(value: &Value) -> (r: Value)
    ensures
        value_kind(r) == value_kind(*value),
        value_rendering(r) == value_rendering(*value),
        value_bare(r) == value_bare(*value),
{
    value.clone()
}

/// Clears the text around a value (`Value::decor_mut`, `Decor::clear`).
#[verifier::external_body]
pub(crate) fn value_clear_decor(value: &mut Value)
    ensures
        value_rendering(*final(value)) == value_bare(*old(value)),
        value_bare(*final(value)) == value_bare(*old(value)),
        value_kind(*final(value)) == value_kind(*old(value)),
{
    value.decor_mut().clear()
}

/// A value, by what it holds.
pub enum ValueRef<'a> {
    Array(&'a Array),
    Table(&'a InlineTable),
    Other,
}

/// Tells arrays and inline tables apart from the other values.
#[verifier::external_body]
pub(crate) fn value_ref(value: &Value) -> (r: ValueRef<'_>)
    ensures
        r is Array <==> value_kind(*value) == TomlType::Array,
        r is Table <==> value_kind(*value) == TomlType::InlineTable,
{
    match value {
        Value::Array(array) => ValueRef::Array(array),
        Value::InlineTable(table) => ValueRef::Table(table),
        _ => ValueRef::Other,
    }
}

/// `Array::len`.
#[verifier::external_body]
pub(crate) fn array_len(array: &Array) -> (r: usize) {
    array.len()
}

/// `Array::get`.
#[verifier::external_body]
pub(crate) fn array_get(array: &Array, index: usize) -> (r: Option<&Value>) {
    array.get(index)
}

/// `Array::new`.
#[verifier::external_body]
pub(crate) fn array_new() -> (r: Array) {
    Array::new()
}

/// `Array::push_formatted`.
#[verifier::external_body]
pub(crate) fn array_push(array: &mut Array, value: Value) {
    array.push_formatted(value)
}

/// `Value::Array`.
#[verifier::external_body]
pub(crate) fn array_value(array: Array) -> (r: Value) {
    Value::Array(array)
}

/// The names of an inline table's entries, in order (`InlineTable::iter`).
#[verifier::external_body]
pub(crate) fn inline_names(table: &InlineTable) -> (r: Vec<String>) {
    table.iter().map(|(name, _)| name.to_owned()).collect()
}

/// `InlineTable::get_key_value`.
#[verifier::external_body]
pub(crate) fn inline_entry<'a>(table: &'a InlineTable, name: &str) -> (r: Option<(&'a Key, &'a Item)>) {
    table.get_key_value(name)
}

/// `InlineTable::is_dotted`.
#[verifier::external_body]
pub(crate) fn inline_is_dotted(table: &InlineTable) -> (r: bool) {
    table.is_dotted()
}

/// `InlineTable::new`.
#[verifier::external_body]
pub(crate) fn inline_new() -> (r: InlineTable) {
    InlineTable::new()
}

/// `InlineTable::set_dotted`.
#[verifier::external_body]
pub(crate) fn inline_set_dotted(table: &mut InlineTable, yes: bool) {
    table.set_dotted(yes)
}

/// `InlineTable::insert_formatted`.
#[verifier::external_body]
pub(crate) fn inline_insert(table: &mut InlineTable, key: &Key, value: Value) {
    table.insert_formatted(key, value);
}

/// `Value::InlineTable`.
#[verifier::external_body]
pub(crate) fn inline_value(table: InlineTable) -> (r: Value) {
    Value::InlineTable(table)
}

/// `Item::as_value`.
#[verifier::external_body]
pub(crate) fn item_value(item: &Item) -> (r: Option<&Value>)
    ensures
        r is None <==> item_value_of(*item) is None,
        r matches Some(v) ==> item_value_of(*item) == Some(*v),
{
    item.as_value()
}

// -- building ------------------------------------------------------------

/// `Table::new`: a table with no entries.
#[verifier::external_body]
pub(crate) fn table_new() -> (r: Table)
    ensures
        table_keys(r) == Seq::<Seq<char>>::empty(),
        all_held(r),
{
    Table::new()
}

/// `Table::set_dotted`.
#[verifier::external_body]
pub(crate) fn table_set_dotted(table: &mut Table, yes: bool)
    ensures
        table_keys(*final(table)) == table_keys(*old(table)),
        all_held(*final(table)) == all_held(*old(table)),
        forall|n: Seq<char>| table_item_of(*final(table), n) == table_item_of(*old(table), n),
{
    table.set_dotted(yes)
}

/// `Table::set_implicit`.
#[verifier::external_body]
pub(crate) fn table_set_implicit(table: &mut Table, yes: bool)
    ensures
        table_keys(*final(table)) == table_keys(*old(table)),
        all_held(*final(table)) == all_held(*old(table)),
        forall|n: Seq<char>| table_item_of(*final(table), n) == table_item_of(*old(table), n),
{
    table.set_implicit(yes)
}

/// `Decor::set_prefix` on a table.
#[verifier::external_body]
pub(crate) fn table_set_prefix(table: &mut Table, text: &str)
    ensures
        table_keys(*final(table)) == table_keys(*old(table)),
        all_held(*final(table)) == all_held(*old(table)),
        forall|n: Seq<char>| table_item_of(*final(table), n) == table_item_of(*old(table), n),
{
    table.decor_mut().set_prefix(text)
}

/// `Decor::set_suffix` on a table.
#[verifier::external_body]
pub(crate) fn table_set_suffix(table: &mut Table, text: &str)
    ensures
        table_keys(*final(table)) == table_keys(*old(table)),
        all_held(*final(table)) == all_held(*old(table)),
        forall|n: Seq<char>| table_item_of(*final(table), n) == table_item_of(*old(table), n),
{
    table.decor_mut().set_suffix(text)
}

/// `Table::set_position`.
#[verifier::external_body]
pub(crate) fn table_set_position(table: &mut Table, position: isize)
    ensures
        table_keys(*final(table)) == table_keys(*old(table)),
        all_held(*final(table)) == all_held(*old(table)),
        forall|n: Seq<char>| table_item_of(*final(table), n) == table_item_of(*old(table), n),
{
    table.set_position(Some(position))
}

/// `Table::insert_formatted`: the item goes under the key's name, in the
/// place that name already has or after every other; nothing else changes.
#[verifier::external_body]
pub(crate) fn table_insert(table: &mut Table, key: &Key, item: Item)
    ensures
        table_item_of(*final(table), key_text_of(*key)) == item,
        forall|n: Seq<char>| n != key_text_of(*key) ==> table_item_of(*final(table), n) == table_item_of(*old(table), n),
        all_held(*old(table)) && !item_is_none(item) ==> all_held(*final(table)) && table_keys(*final(table)) == if table_keys(
            *old(table),
        ).contains(key_text_of(*key)) {
            table_keys(*old(table))
        } else {
            table_keys(*old(table)).push(key_text_of(*key))
        },
{
    table.insert_formatted(key, item);
}

/// `Item::Value`.
#[verifier::external_body]
pub(crate) fn value_item(value: Value) -> (r: Item)
    ensures
        !item_is_none(r),
        item_value_of(r) == Some(value),
{
    Item::Value(value)
}

/// `Item::Table`.
#[verifier::external_body]
pub(crate) fn table_item(table: Table) -> (r: Item)
    ensures
        !item_is_none(r),
        item_value_of(r) is None,
{
    Item::Table(table)
}

/// `Item::ArrayOfTables`.
#[verifier::external_body]
pub(crate) fn array_of_tables_item(array: ArrayOfTables) -> (r: Item)
    ensures
        !item_is_none(r),
        item_value_of(r) is None,
{
    Item::ArrayOfTables(array)
}

/// `ArrayOfTables::new`.
#[verifier::external_body]
pub(crate) fn array_of_tables_new() -> (r: ArrayOfTables) {
    ArrayOfTables::new()
}

/// `ArrayOfTables::push`.
#[verifier::external_body]
pub(crate) fn array_of_tables_push(array: &mut ArrayOfTables, table: Table) {
    array.push(table)
}

/// `DocumentMut::new`.
#[verifier::external_body]
pub(crate) fn document_new() -> (r: DocumentMut) {
    DocumentMut::new()
}

/// Puts a table at the root of a document (`DocumentMut::as_table_mut`).
#[verifier::external_body]
pub(crate) fn document_set_root(document: &mut DocumentMut, root: Table)
    ensures
        document_keys(*final(document)) == table_keys(root),
        document_table(*final(document)) == root,
{
    *document.as_table_mut() = root
}

/// `DocumentMut::set_trailing`.
#[verifier::external_body]
pub(crate) fn document_set_trailing(document: &mut DocumentMut, text: &str)
    ensures
        document_keys(*final(document)) == document_keys(*old(document)),
        document_table(*final(document)) == document_table(*old(document)),
        trailing_text(*final(document)) == Some(text@),
{
    document.set_trailing(text)
}

/// A document as `toml_edit` writes it (`DocumentMut`'s `Display`).
#[verifier::external_body]
pub(crate) fn document_text(document: &DocumentMut) -> (r: String)
    ensures
        r@ == rendering(*document),
{
    document.to_string()
}

} // verus!
