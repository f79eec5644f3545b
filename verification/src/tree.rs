//! A TOML document as a tree of plain values.

use crate::text::same_text;
use vstd::prelude::*;

verus! {

/// A value as the `toml` crate holds it.
#[verifier::external_type_specification]
#[verifier::external_body]
pub struct ExTomlValue(toml::Value);

/// A TOML value. A table lists its entries in the order in which the parser
/// keeps them.
#[derive(Debug)]
pub enum Node {
    Text(String),
    Integer(i64),
    Float(String),
    Boolean(bool),
    Datetime(String),
    Array(Vec<Node>),
    Table(Vec<(String, Node)>),
}

/// What a `Node` holds.
pub enum Tree {
    Text(Seq<char>),
    Integer(i64),
    Float(Seq<char>),
    Boolean(bool),
    Datetime(Seq<char>),
    Array(Seq<Tree>),
    Table(Seq<(Seq<char>, Tree)>),
}

/// What `node` holds.
pub open spec fn tree_of(node: Node) -> Tree
    decreases node,
{
    match node {
        Node::Text(text) => Tree::Text(text@),
        Node::Integer(n) => Tree::Integer(n),
        Node::Float(text) => Tree::Float(text@),
        Node::Boolean(b) => Tree::Boolean(b),
        Node::Datetime(text) => Tree::Datetime(text@),
        Node::Array(items) => Tree::Array(
            Seq::new(
                items.len() as nat,
                |i: int|
                    if 0 <= i < items.len() {
                        tree_of(items[i])
                    } else {
                        Tree::Boolean(false)
                    },
            ),
        ),
        Node::Table(entries) => Tree::Table(
            Seq::new(
                entries.len() as nat,
                |i: int|
                    if 0 <= i < entries.len() {
                        (entries[i].0@, tree_of(entries[i].1))
                    } else {
                        (Seq::empty(), Tree::Boolean(false))
                    },
            ),
        ),
    }
}

impl DeepView for Node {
    type V = Tree;

    open spec fn deep_view(&self) -> Tree {
        tree_of(*self)
    }
}

/// What the items of an array hold.
pub open spec fn items_view(items: Seq<Node>) -> Seq<Tree> {
    Seq::new(items.len(), |i: int| tree_of(items[i]))
}

/// What the entries of a table hold.
pub open spec fn entries_view(entries: Seq<(String, Node)>) -> Seq<(Seq<char>, Tree)> {
    Seq::new(entries.len(), |i: int| (entries[i].0@, tree_of(entries[i].1)))
}

/// An array holds what its items hold.
pub proof fn lemma_array_view(items: Vec<Node>)
    ensures
        Node::Array(items).deep_view() == Tree::Array(items_view(items@)),
{
    assert(tree_of(Node::Array(items))->Array_0 =~= items_view(items@));
}

/// A table holds what its entries hold.
pub proof fn lemma_table_view(entries: Vec<(String, Node)>)
    ensures
        Node::Table(entries).deep_view() == Tree::Table(entries_view(entries@)),
{
    assert(tree_of(Node::Table(entries))->Table_0 =~= entries_view(entries@));
}

/// The document that TOML text describes, as `toml::Value` holds it after
/// parsing, or the parser's message when the text is not TOML.
pub uninterp spec fn toml_document(text: Seq<char>) -> Result<Tree, Seq<char>>;

/// Copies a `toml::Value` into a `Node`, variant by variant. A float and a
/// date are kept as the text that they display as.
#[verifier::external_body]
fn node_of(value: &toml::Value) -> Node {
    match value {
        toml::Value::String(text) => Node::Text(text.clone()),
        toml::Value::Integer(n) => Node::Integer(*n),
        toml::Value::Float(x) => Node::Float(x.to_string()),
        toml::Value::Boolean(b) => Node::Boolean(*b),
        toml::Value::Datetime(date) => Node::Datetime(date.to_string()),
        toml::Value::Array(items) => Node::Array(items.iter().map(node_of).collect()),
        toml::Value::Table(entries) => Node::Table(
            entries.iter().map(|(key, item)| (key.clone(), node_of(item))).collect(),
        ),
    }
}

/// Parses TOML text with `toml::Value::from_str`. The result is the document
/// that the parser builds from this text, or the message of its error.
#[verifier::external_body]
pub(crate) fn parse_document(text: &str) -> (r: Result<Node, String>)
    ensures
        match r {
            Ok(document) => toml_document(text@) == Ok::<Tree, Seq<char>>(document.deep_view()),
            Err(message) => toml_document(text@) == Err::<Tree, Seq<char>>(message@),
        },
{
    match text.parse::<toml::Value>() {
        Ok(value) => Ok(node_of(&value)),
        Err(error) => Err(error.to_string()),
    }
}

/// The value of the first entry under `key`.
pub open spec fn entry(entries: Seq<(Seq<char>, Tree)>, key: Seq<char>) -> Option<Tree>
    decreases entries.len(),
{
    if entries.len() == 0 {
        None
    } else if entries[0].0 == key {
        Some(entries[0].1)
    } else {
        entry(entries.drop_first(), key)
    }
}

/// The value of the first entry under `key`.
pub fn find_entry<'a>(entries: &'a Vec<(String, Node)>, key: &str) -> (r: Option<&'a Node>)
    ensures
        r.deep_view() == entry(entries_view(entries@), key@),
{
    let mut i: usize = 0;
    assert(entries_view(entries@).skip(0) == entries_view(entries@));
    while i < entries.len()
        invariant
            i <= entries.len(),
            entry(entries_view(entries@), key@) == entry(
                entries_view(entries@).skip(i as int),
                key@,
            ),
        decreases entries.len() - i,
    {
        let ghost rest = entries_view(entries@).skip(i as int);
        assert(rest[0] == (entries[i as int].0@, entries[i as int].1.deep_view()));
        assert(rest.drop_first() == entries_view(entries@).skip(i + 1));
        if same_text(entries[i].0.as_str(), key) {
            return Some(&entries[i].1);
        }
        i += 1;
    }
    None
}

} // verus!
