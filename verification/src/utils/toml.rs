//! A plain model of a parsed TOML document, as `toml_edit` presents it to the
//! logic: tables (header and inline), arrays, arrays of tables, strings,
//! booleans and other scalars, each with the text it displays as. Parsing
//! and editing are done by `toml_edit`; reading the model is verified here.
use crate::utils::text::{decimal, trim, views};
use vstd::prelude::*;

verus! {

/// One node of a TOML document: a value or a table.
#[derive(Debug)]
pub enum TomlNode {
    /// A string value, its content and its display (quoted, with decor).
    Str { value: String, display: String },
    /// A boolean value and its display.
    Bool { flag: bool, display: String },
    /// Any other scalar (integer, float, date-time), by its display.
    Scalar { display: String },
    /// An array value.
    Array { items: Vec<TomlNode>, display: String },
    /// An inline table value: keys and values in document order.
    InlineTable { entries: Vec<(String, TomlNode)>, display: String },
    /// A header table: keys and items in document order.
    Table { entries: Vec<(String, TomlNode)>, display: String },
    /// An array of tables; each element is a `Table`.
    ArrayOfTables { tables: Vec<TomlNode>, display: String },
}

/// Why a TOML text could not be parsed: the parser's message.
#[derive(Debug)]
pub struct TomlError {
    pub message: String,
}

impl TomlError {
    /// The parser's message.
    pub fn to_string(&self) -> (r: String)
        ensures
            r@ == self.message@,
    {
        self.message.clone()
    }
}

// ---------------------------------------------------------------------------
// The outside parser and editor
// ---------------------------------------------------------------------------

/// A parse that gave `d`.
pub open spec fn parsed(d: TomlNode) -> Result<TomlNode, Seq<char>> {
    Ok(d)
}

/// A parse refused with `message`.
pub open spec fn refused(message: Seq<char>) -> Result<TomlNode, Seq<char>> {
    Err(message)
}

/// What `toml_edit` makes of a text: the document's root table as a
/// [`TomlNode`], or the parser's error message.
pub uninterp spec fn toml_parse(text: Seq<char>) -> Result<TomlNode, Seq<char>>;

/// What `toml_edit` makes of `text` once the item at the non-empty key path
/// `path` is replaced by the string `value` (keys missing on the way are
/// added, as `Item::get_mut` adds them): the document's new text, or `None`
/// when `text` does not parse or `path` runs through something that is not a
/// table.
pub uninterp spec fn toml_with_string(
    text: Seq<char>,
    path: Seq<Seq<char>>,
    value: Seq<char>,
) -> Option<Seq<char>>;

/// `toml_edit::Table`, a table of a document, opaque here.
#[verifier::external_type_specification]
#[verifier::external_body]
pub struct ExTomlTable(toml_edit::Table);

/// `toml_edit::Item`, an item of a table, opaque here.
#[verifier::external_type_specification]
#[verifier::external_body]
pub struct ExTomlItem(toml_edit::Item);

/// `toml_edit::Value`, a value, opaque here.
#[verifier::external_type_specification]
#[verifier::external_body]
pub struct ExTomlValue(toml_edit::Value);

/// Converts a `toml_edit::Value` into a node, one variant for one variant;
/// the display is the value's `Display`, decor included.
#[verifier::external_body]
fn node_of_value(v: &toml_edit::Value) -> TomlNode {
    let display = v.to_string();
    match v {
        toml_edit::Value::String(s) => TomlNode::Str { value: s.value().clone(), display },
        toml_edit::Value::Boolean(b) => TomlNode::Bool { flag: *b.value(), display },
        toml_edit::Value::Array(a) => TomlNode::Array { items: a.iter().map(node_of_value).collect(), display },
        toml_edit::Value::InlineTable(t) => TomlNode::InlineTable {
            entries: t.iter().map(|(k, v)| (k.to_string(), node_of_value(v))).collect(),
            display,
        },
        _ => TomlNode::Scalar { display },
    }
}

/// Converts a `toml_edit::Table` into a `Table` node: its entries as
/// `Table::iter` yields them (empty items skipped), in document order.
#[verifier::external_body]
fn node_of_table(t: &toml_edit::Table) -> TomlNode {
    TomlNode::Table {
        entries: t.iter().map(|(k, i)| (k.to_string(), node_of_item(i))).collect(),
        display: t.to_string(),
    }
}

/// Converts a `toml_edit::Item` into a node, one variant for one variant.
/// `Table::iter` never yields `Item::None`; it would read as an empty table.
#[verifier::external_body]
fn node_of_item(i: &toml_edit::Item) -> TomlNode {
    match i {
        toml_edit::Item::Value(v) => node_of_value(v),
        toml_edit::Item::Table(t) => node_of_table(t),
        toml_edit::Item::ArrayOfTables(a) => TomlNode::ArrayOfTables {
            tables: a.iter().map(node_of_table).collect(),
            display: a.to_string(),
        },
        toml_edit::Item::None => TomlNode::Table { entries: Vec::new(), display: String::new() },
    }
}

/// Parses `text` with `toml_edit` (`str::parse::<DocumentMut>`), and
/// converts the root table into a node. The result is what `toml_parse`
/// names; the root is always a `Table` node.
#[verifier::external_body]
fn parse_toml_text(text: &str) -> (r: Result<TomlNode, String>)
    ensures
        r matches Ok(d) ==> d is Table,
        r matches Ok(d) ==> toml_parse(text@) == parsed(d),
        r matches Err(e) ==> toml_parse(text@) == refused(e@),
{
    match text.parse::<toml_edit::DocumentMut>() {
        Ok(doc) => Ok(node_of_table(doc.as_table())),
        Err(e) => Err(e.to_string()),
    }
}

/// Parses `text` as a `toml_edit::DocumentMut`, walks `path` with
/// `Item::get_mut` (which adds missing keys to tables), puts
/// `toml_edit::value(value)` there and displays the document again. The
/// path is not empty: the root of a document has to stay a table (its
/// `Display` panics otherwise).
#[verifier::external_body]
fn set_string_text(text: &str, path: &Vec<String>, value: &str) -> (r: Option<String>)
    requires
        path@.len() > 0,
    ensures
        r matches Some(t) ==> toml_with_string(text@, views(path@), value@) == Some(t@),
        r is None ==> toml_with_string(text@, views(path@), value@) is None,
{
    let mut doc = text.parse::<toml_edit::DocumentMut>().ok()?;
    let item = path.iter().try_fold(doc.as_item_mut(), |item, key| item.get_mut(key.as_str()))?;
    *item = toml_edit::value(value);
    Some(doc.to_string())
}

/// Parses a TOML document.
pub fn parse_document(text: &str) -> (r: Result<TomlNode, TomlError>)
    ensures
        r matches Ok(d) ==> toml_parse(text@) == parsed(d) && d is Table,
        r matches Err(e) ==> toml_parse(text@) == refused(e.message@),
{
    match parse_toml_text(text) {
        Ok(d) => Ok(d),
        Err(message) => Err(TomlError { message }),
    }
}

/// The text of the document `text` once the string at the (non-empty) key
/// path `path` is `value`.
pub fn with_string_at(text: &str, path: &Vec<String>, value: &str) -> (r: Option<String>)
    requires
        path@.len() > 0,
    ensures
        r matches Some(t) ==> toml_with_string(text@, views(path@), value@) == Some(t@),
        r is None ==> toml_with_string(text@, views(path@), value@) is None,
{
    set_string_text(text, path, value)
}

// ---------------------------------------------------------------------------
// Reading the model
// ---------------------------------------------------------------------------

/// The item stored under `key` among `entries`: the first such entry.
pub open spec fn lookup(entries: Seq<(String, TomlNode)>, key: Seq<char>) -> Option<TomlNode>
    decreases entries.len(),
{
    if entries.len() == 0 {
        None
    } else if entries[0].0@ == key {
        Some(entries[0].1)
    } else {
        lookup(entries.drop_first(), key)
    }
}

impl TomlNode {
    /// The entries of a header or inline table.
    pub open spec fn table_like(self) -> Option<Seq<(String, TomlNode)>> {
        match self {
            TomlNode::Table { entries, .. } => Some(entries@),
            TomlNode::InlineTable { entries, .. } => Some(entries@),
            _ => None,
        }
    }

    /// `Item::get` with a key: the item under `key` in a header or inline
    /// table, nothing for anything else.
    pub open spec fn get_spec(self, key: Seq<char>) -> Option<TomlNode> {
        match self.table_like() {
            Some(entries) => lookup(entries, key),
            None => None,
        }
    }

    /// `Item::as_str`: the content of a string.
    pub open spec fn str_spec(self) -> Option<Seq<char>> {
        match self {
            TomlNode::Str { value, .. } => Some(value@),
            _ => None,
        }
    }

    /// `Item::as_bool`.
    pub open spec fn bool_spec(self) -> Option<bool> {
        match self {
            TomlNode::Bool { flag, .. } => Some(flag),
            _ => None,
        }
    }

    /// The item under `key`, as `Item::get` finds it.
    pub fn get(&self, key: &str) -> (r: Option<&TomlNode>)
        ensures
            r is Some == self.get_spec(key@) is Some,
            r matches Some(n) ==> self.get_spec(key@) == Some(*n),
    {
        match self {
            TomlNode::Table { entries, .. } => find_entry(entries, key),
            TomlNode::InlineTable { entries, .. } => find_entry(entries, key),
            _ => None,
        }
    }

    /// The content of a string item.
    pub fn as_str(&self) -> (r: Option<&String>)
        ensures
            r is Some == self.str_spec() is Some,
            r matches Some(s) ==> self.str_spec() == Some(s@),
    {
        match self {
            TomlNode::Str { value, .. } => Some(value),
            _ => None,
        }
    }

    /// The value of a boolean item.
    pub fn as_bool(&self) -> (r: Option<bool>)
        ensures
            r == self.bool_spec(),
    {
        match self {
            TomlNode::Bool { flag, .. } => Some(*flag),
            _ => None,
        }
    }

    /// The entries of a header table (`Item::as_table`).
    pub fn as_table(&self) -> (r: Option<&Vec<(String, TomlNode)>>)
        ensures
            r is Some == self is Table,
            r matches Some(e) ==> self matches TomlNode::Table { entries, .. } && *e == entries,
    {
        match self {
            TomlNode::Table { entries, .. } => Some(entries),
            _ => None,
        }
    }

    /// The entries of a header or inline table (`Item::as_table_like`).
    pub fn as_table_like(&self) -> (r: Option<&Vec<(String, TomlNode)>>)
        ensures
            r is Some == self.table_like() is Some,
            r matches Some(e) ==> self.table_like() == Some(e@),
    {
        match self {
            TomlNode::Table { entries, .. } => Some(entries),
            TomlNode::InlineTable { entries, .. } => Some(entries),
            _ => None,
        }
    }

    /// The elements of an array value (`Item::as_array`).
    pub fn as_array(&self) -> (r: Option<&Vec<TomlNode>>)
        ensures
            r is Some == self is Array,
            r matches Some(a) ==> self matches TomlNode::Array { items, .. } && *a == items,
    {
        match self {
            TomlNode::Array { items, .. } => Some(items),
            _ => None,
        }
    }

    /// The tables of an array of tables.
    pub fn as_array_of_tables(&self) -> (r: Option<&Vec<TomlNode>>)
        ensures
            r is Some == self is ArrayOfTables,
            r matches Some(a) ==> self matches TomlNode::ArrayOfTables { tables, .. } && *a == tables,
    {
        match self {
            TomlNode::ArrayOfTables { tables, .. } => Some(tables),
            _ => None,
        }
    }

    /// The display of the item (its `Display`, decor included).
    pub fn display(&self) -> (r: &String)
        ensures
            r == self.display_spec(),
    {
        match self {
            TomlNode::Str { display, .. } => display,
            TomlNode::Bool { display, .. } => display,
            TomlNode::Scalar { display } => display,
            TomlNode::Array { display, .. } => display,
            TomlNode::InlineTable { display, .. } => display,
            TomlNode::Table { display, .. } => display,
            TomlNode::ArrayOfTables { display, .. } => display,
        }
    }

    /// The display of the item.
    pub open spec fn display_spec(self) -> String {
        match self {
            TomlNode::Str { display, .. } => display,
            TomlNode::Bool { display, .. } => display,
            TomlNode::Scalar { display } => display,
            TomlNode::Array { display, .. } => display,
            TomlNode::InlineTable { display, .. } => display,
            TomlNode::Table { display, .. } => display,
            TomlNode::ArrayOfTables { display, .. } => display,
        }
    }
}

/// The first entry under `key`.
fn find_entry<'a>(entries: &'a Vec<(String, TomlNode)>, key: &str) -> (r: Option<&'a TomlNode>)
    ensures
        r is Some == lookup(entries@, key@) is Some,
        r matches Some(n) ==> lookup(entries@, key@) == Some(*n),
{
    let mut i: usize = 0;
    assert(entries@.skip(0) == entries@);
    while i < entries.len()
        invariant
            i <= entries@.len(),
            lookup(entries@, key@) == lookup(entries@.skip(i as int), key@),
        decreases entries@.len() - i,
    {
        proof {
            assert(entries@.skip(i as int).drop_first() == entries@.skip(i + 1));
        }
        if crate::utils::text::str_eq(entries[i].0.as_str(), key) {
            return Some(&entries[i].1);
        }
        i = i + 1;
    }
    None
}

// ---------------------------------------------------------------------------
// Leaves
// ---------------------------------------------------------------------------

/// A leaf: its dotted path and its text.
pub type Leaf = (Seq<char>, Seq<char>);

/// `prefix.key`, or `key` alone at the root.
pub open spec fn join_key(prefix: Seq<char>, key: Seq<char>) -> Seq<char> {
    if prefix.len() == 0 {
        key
    } else {
        prefix + seq!['.'] + key
    }
}

/// `path[i]`.
pub open spec fn index_key(path: Seq<char>, i: nat) -> Seq<char> {
    path + seq!['['] + decimal(i) + seq![']']
}

/// The leaves of each entry of a table, entry `key` at `path.key`.
pub open spec fn entry_leaves(entries: Vec<(String, TomlNode)>, path: Seq<char>) -> Seq<Seq<Leaf>>
    decreases entries, 0nat,
{
    Seq::new(
        entries.len() as nat,
        |i: int|
            if 0 <= i < entries.len() {
                leaves(entries@[i].1, join_key(path, entries@[i].0@))
            } else {
                Seq::empty()
            },
    )
}

/// The leaves of each element of an array, element `i` at `path[i]`.
pub open spec fn element_leaves(items: Vec<TomlNode>, path: Seq<char>) -> Seq<Seq<Leaf>>
    decreases items, 0nat,
{
    Seq::new(
        items.len() as nat,
        |i: int|
            if 0 <= i < items.len() {
                leaves(items@[i], index_key(path, i as nat))
            } else {
                Seq::empty()
            },
    )
}

/// The leaves under `node` at `path`, in document order: a table or inline
/// table gives the leaves of each entry at `path.key`; an array or array of
/// tables those of each element at `path[i]`; a string its content; any other
/// scalar its display without surrounding white space.
pub open spec fn leaves(node: TomlNode, path: Seq<char>) -> Seq<Leaf>
    decreases node, 1nat,
{
    match node {
        TomlNode::Table { entries, .. } => entry_leaves(entries, path).flatten(),
        TomlNode::InlineTable { entries, .. } => entry_leaves(entries, path).flatten(),
        TomlNode::Array { items, .. } => element_leaves(items, path).flatten(),
        TomlNode::ArrayOfTables { tables, .. } => element_leaves(tables, path).flatten(),
        TomlNode::Str { value, .. } => seq![(path, value@)],
        TomlNode::Bool { display, .. } => seq![(path, trim(display@))],
        TomlNode::Scalar { display } => seq![(path, trim(display@))],
    }
}

} // verus!
