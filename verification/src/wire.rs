//! JSON text, read and written by `serde_json`.

use vstd::prelude::*;
use vstd::utf8::encode_utf8;
use crate::json::{
    float_free, keys_ascend, lemma_item_smaller, lemma_member_smaller, members_of, nested_within,
    trees, well_formed, Json, JsonObject, Tree,
};
use crate::number::{numeral, numeral_text, JsonNumber};
use crate::render::{ascii_json_text, json_quoted, python_text};
use crate::text::joined;

verus! {

/// A value of the `serde_json` crate. Nothing inside it is visible to the proofs.
#[verifier::external_type_specification]
#[verifier::external_body]
pub struct ExternalValue(serde_json::Value);

/// An error of the `serde_json` crate.
#[verifier::external_type_specification]
#[verifier::external_body]
pub struct ExternalError(serde_json::Error);

/// What a `serde_json::Value` holds.
pub uninterp spec fn value_tree(value: serde_json::Value) -> Tree;

/// What `serde_json::from_str` reads from a text; `None` where it reports an error.
pub uninterp spec fn parsed_text(text: Seq<char>) -> Option<Tree>;

/// What `serde_json::from_slice` reads from bytes; `None` where it reports an error.
pub uninterp spec fn parsed_bytes(bytes: Seq<u8>) -> Option<Tree>;

/// A value as JSON text without optional white space: members by ascending key.
pub open spec fn compact_text(value: Tree) -> Seq<char>
    decreases value,
{
    match value {
        Tree::Null => "null"@,
        Tree::Bool(held) => if held {
            "true"@
        } else {
            "false"@
        },
        Tree::Number(number) => numeral_text(number),
        Tree::Text(text) => json_quoted(text),
        Tree::Array(items) => "["@ + joined(compact_items(items), ","@) + "]"@,
        Tree::Object(members) => "{"@ + joined(compact_members(members), ","@) + "}"@,
    }
}

/// The items of an array as JSON texts.
pub open spec fn compact_items(items: Seq<Tree>) -> Seq<Seq<char>>
    decreases items,
{
    Seq::new(
        items.len(),
        |i: int|
            if 0 <= i < items.len() {
                compact_text(items[i])
            } else {
                Seq::empty()
            },
    )
}

/// The members of an object as JSON texts.
pub open spec fn compact_members(members: Seq<(Seq<char>, Tree)>) -> Seq<Seq<char>>
    decreases members,
{
    Seq::new(
        members.len(),
        |i: int|
            if 0 <= i < members.len() {
                json_quoted(members[i].0) + ":"@ + compact_text(members[i].1)
            } else {
                Seq::empty()
            },
    )
}

/// How many arrays and objects may stand inside one another in a text that `serde_json` reads.
pub open spec fn nesting_limit() -> nat {
    127
}

/// The value reads back from the text that is written for it: it is not nested too deep to be
/// read, and it holds no float. Reading a float may change its last digit.
pub open spec fn reads_back(value: Tree) -> bool {
    float_free(value) && nested_within(value, nesting_limit())
}

/// One level of a `serde_json::Value`.
enum Node {
    Null,
    Bool(bool),
    Number(serde_json::Number),
    Text(String),
    Array(Vec<serde_json::Value>),
    Object(Vec<(String, serde_json::Value)>),
}

/// What the items of an array hold.
spec fn item_trees(items: Seq<serde_json::Value>) -> Seq<Tree> {
    items.map_values(|item: serde_json::Value| value_tree(item))
}

/// What the members of an object hold.
spec fn member_trees(members: Seq<(String, serde_json::Value)>) -> Seq<(Seq<char>, Tree)> {
    members.map_values(|entry: (String, serde_json::Value)| (entry.0@, value_tree(entry.1)))
}

/// What one level holds, with what is below it.
spec fn node_tree(node: Node) -> Tree {
    match node {
        Node::Null => Tree::Null,
        Node::Bool(value) => Tree::Bool(value),
        Node::Number(number) => Tree::Number(numeral(number)),
        Node::Text(text) => Tree::Text(text@),
        Node::Array(items) => Tree::Array(item_trees(items@)),
        Node::Object(members) => Tree::Object(member_trees(members@)),
    }
}

/// Takes a `serde_json::Value` apart by its variants. `serde_json::Map` gives its members out by
/// ascending key, each key once.
#[verifier::external_body]
fn open_value(value: serde_json::Value) -> (node: Node)
    ensures
        node_tree(node) == value_tree(value),
        node matches Node::Object(members) ==> keys_ascend(member_trees(members@)),
{
    match value {
        serde_json::Value::Null => Node::Null,
        serde_json::Value::Bool(value) => Node::Bool(value),
        serde_json::Value::Number(number) => Node::Number(number),
        serde_json::Value::String(text) => Node::Text(text),
        serde_json::Value::Array(items) => Node::Array(items),
        serde_json::Value::Object(members) => Node::Object(members.into_iter().collect()),
    }
}

/// Makes the `serde_json::Value` of one level. `serde_json::Map`, collected from members whose
/// keys differ, holds each of them under its key.
#[verifier::external_body]
fn close_value(node: Node) -> (value: serde_json::Value)
    requires
        node matches Node::Object(members) ==> keys_ascend(member_trees(members@)),
    ensures
        value_tree(value) == node_tree(node),
{
    match node {
        Node::Null => serde_json::Value::Null,
        Node::Bool(value) => serde_json::Value::Bool(value),
        Node::Number(number) => serde_json::Value::Number(number),
        Node::Text(text) => serde_json::Value::String(text),
        Node::Array(items) => serde_json::Value::Array(items),
        Node::Object(members) => serde_json::Value::Object(members.into_iter().collect()),
    }
}

/// `serde_json::from_str`, into a `serde_json::Value`. What it reads from a text is a function
/// of the text, and nested no deeper than its limit on recursion. A text that spells a value in
/// ASCII, with a space behind each comma and colon, reads as that value, if the value holds no
/// float and is not nested beyond the limit. Which other texts it takes is not spelled out here.
#[verifier::external_body]
fn value_from_str(text: &str) -> (value: Result<serde_json::Value, serde_json::Error>)
    ensures
        match value {
            Ok(held) => parsed_text(text@) == Some(value_tree(held)) && nested_within(
                value_tree(held),
                nesting_limit(),
            ),
            Err(_) => parsed_text(text@) is None,
        },
        forall|tree: Tree|
            well_formed(tree) && reads_back(tree) && text@ == #[trigger] python_text(tree)
                ==> value is Ok && value_tree(value->Ok_0) == tree,
{
    serde_json::from_str(text)
}

/// `serde_json::from_slice`, into a `serde_json::Value`. What it reads from bytes is a function
/// of the bytes, and nested no deeper than its limit on recursion; which bytes it takes is not
/// spelled out here.
#[verifier::external_body]
fn value_from_slice(bytes: &[u8]) -> (value: Result<serde_json::Value, serde_json::Error>)
    ensures
        match value {
            Ok(held) => parsed_bytes(bytes@) == Some(value_tree(held)) && nested_within(
                value_tree(held),
                nesting_limit(),
            ),
            Err(_) => parsed_bytes(bytes@) is None,
        },
{
    serde_json::from_slice(bytes)
}

/// `serde_json::to_string`, on a `serde_json::Value`: JSON text without optional white space. It
/// does not fail. No control character stands in the text, neither in a string, where they are
/// escaped, nor in a float's text. `serde_json::from_str` reads the value back from
/// the text, if the value holds no float and is not nested beyond the limit on recursion.
#[verifier::external_body]
fn value_to_string(value: &serde_json::Value) -> (text: Result<String, serde_json::Error>)
    ensures
        text is Ok,
        text->Ok_0@ == compact_text(value_tree(*value)),
        forall|i: int| 0 <= i < text->Ok_0@.len() ==> #[trigger] text->Ok_0@[i] as nat >= 0x20,
        reads_back(value_tree(*value)) ==> parsed_text(text->Ok_0@) == Some(value_tree(*value)),
{
    serde_json::to_string(value)
}

/// `serde_json::to_vec`, on a `serde_json::Value`: the UTF-8 bytes of what
/// `serde_json::to_string` writes, none of them a control character. It does not fail.
/// `serde_json::from_slice` reads the value back from the bytes, if the value holds no float and
/// is not nested beyond the limit on recursion.
#[verifier::external_body]
fn value_to_vec(value: &serde_json::Value) -> (bytes: Result<Vec<u8>, serde_json::Error>)
    ensures
        bytes is Ok,
        bytes->Ok_0@ == encode_utf8(compact_text(value_tree(*value))),
        forall|i: int| 0 <= i < bytes->Ok_0@.len() ==> #[trigger] bytes->Ok_0@[i] >= 0x20,
        reads_back(value_tree(*value)) ==> parsed_bytes(bytes->Ok_0@) == Some(value_tree(*value)),
{
    serde_json::to_vec(value)
}

/// A rendering the way Python does it reads back: whatever is read from the text is the value,
/// if it holds no float and is not nested too deep to be read.
pub proof fn law_python_rendering_reads_back(text: &str, value: Tree, read: Option<Json>)
    requires
        text@ == python_text(value),
        well_formed(value),
        reads_back(value),
        call_ensures(Json::parse, (text,), read),
    ensures
        read is Some,
        read->Some_0@ == value,
{
}

/// A JSON string in ASCII reads back as the text that it quotes, for every text.
pub proof fn law_ascii_string_reads_back(text: &str, value: Seq<char>, read: Option<Json>)
    requires
        text@ == ascii_json_text(value),
        call_ensures(Json::parse, (text,), read),
    ensures
        read is Some,
        read->Some_0@ == Tree::Text(value),
{
    assert(python_text(Tree::Text(value)) == text@);
}

impl Json {
    /// Takes a value over from `serde_json`.
    pub fn from_value(value: serde_json::Value) -> (json: Json)
        ensures
            json@ == value_tree(value),
        decreases value_tree(value),
    {
        match open_value(value) {
            Node::Null => Json::Null,
            Node::Bool(held) => Json::Bool(held),
            Node::Number(number) => Json::Number(JsonNumber::from_number(number)),
            Node::Text(text) => Json::Text(text),
            Node::Array(items) => {
                let mut values: Vec<Json> = Vec::new();
                let ghost expected = item_trees(items@);
                for item in walk: items
                    invariant
                        expected == item_trees(walk.seq()),
                        value_tree(value) == Tree::Array(expected),
                        trees(values@) == expected.take(walk.index()),
                {
                    proof {
                        lemma_item_smaller(expected, walk.index());
                    }
                    let ghost before = values@;
                    values.push(Json::from_value(item));
                    assert(trees(values@) =~= trees(before).push(values@.last()@));
                    assert(expected.take(walk.index() + 1) =~= expected.take(walk.index()).push(
                        expected[walk.index()],
                    ));
                }
                assert(expected.take(expected.len() as int) =~= expected);
                Json::Array(values)
            },
            Node::Object(members) => {
                let mut entries: Vec<(String, Json)> = Vec::new();
                let ghost expected = member_trees(members@);
                for entry in walk: members
                    invariant
                        expected == member_trees(walk.seq()),
                        value_tree(value) == Tree::Object(expected),
                        members_of(entries@) == expected.take(walk.index()),
                {
                    proof {
                        lemma_member_smaller(expected, walk.index());
                    }
                    let ghost before = entries@;
                    entries.push((entry.0, Json::from_value(entry.1)));
                    assert(members_of(entries@) =~= members_of(before).push(
                        expected[walk.index()],
                    ));
                    assert(expected.take(walk.index() + 1) =~= expected.take(walk.index()).push(
                        expected[walk.index()],
                    ));
                }
                assert(expected.take(expected.len() as int) =~= expected);
                Json::Object(JsonObject::from_ascending(entries))
            },
        }
    }

    /// Hands the value to `serde_json`.
    pub fn to_value(&self) -> (value: serde_json::Value)
        ensures
            value_tree(value) == self@,
        decreases self@,
    {
        match self {
            Json::Null => close_value(Node::Null),
            Json::Bool(held) => close_value(Node::Bool(*held)),
            Json::Number(number) => close_value(Node::Number(number.to_number())),
            Json::Text(text) => close_value(Node::Text(text.clone())),
            Json::Array(values) => {
                let mut items: Vec<serde_json::Value> = Vec::new();
                for i in 0..values.len()
                    invariant
                        self@ == Tree::Array(trees(values@)),
                        item_trees(items@) == trees(values@).take(i as int),
                {
                    proof {
                        lemma_item_smaller(trees(values@), i as int);
                    }
                    let ghost before = items@;
                    items.push(values[i].to_value());
                    assert(item_trees(items@) =~= item_trees(before).push(
                        trees(values@)[i as int],
                    ));
                    assert(trees(values@).take(i + 1) =~= trees(values@).take(i as int).push(
                        trees(values@)[i as int],
                    ));
                }
                assert(trees(values@).take(values@.len() as int) =~= trees(values@));
                close_value(Node::Array(items))
            },
            Json::Object(object) => {
                let mut members: Vec<(String, serde_json::Value)> = Vec::new();
                let count = object.len();
                for i in 0..count
                    invariant
                        self@ == Tree::Object(object@),
                        count == object@.len(),
                        member_trees(members@) == object@.take(i as int),
                {
                    proof {
                        lemma_member_smaller(object@, i as int);
                    }
                    let ghost before = members@;
                    members.push((object.key_at(i).clone(), object.value_at(i).to_value()));
                    assert(member_trees(members@) =~= member_trees(before).push(
                        object@[i as int],
                    ));
                    assert(object@.take(i + 1) =~= object@.take(i as int).push(
                        object@[i as int],
                    ));
                }
                assert(object@.take(count as int) =~= object@);
                close_value(Node::Object(members))
            },
        }
    }

    /// A copy of the value.
    pub fn copy(&self) -> (value: Json)
        ensures
            value@ == self@,
    {
        Json::from_value(self.to_value())
    }

    /// Reads a value from JSON text. A rendering the way Python does it reads as the value that
    /// was rendered.
    pub fn parse(text: &str) -> (value: Option<Json>)
        ensures
            match value {
                Some(held) => parsed_text(text@) == Some(held@) && nested_within(
                    held@,
                    nesting_limit(),
                ),
                None => parsed_text(text@) is None,
            },
            forall|tree: Tree|
                well_formed(tree) && reads_back(tree) && text@ == #[trigger] python_text(tree)
                    ==> value is Some && value->Some_0@ == tree,
    {
        match value_from_str(text) {
            Ok(value) => Some(Json::from_value(value)),
            Err(_) => None,
        }
    }

    /// Reads a value from the bytes of JSON text.
    pub fn parse_bytes(bytes: &[u8]) -> (value: Option<Json>)
        ensures
            match value {
                Some(held) => parsed_bytes(bytes@) == Some(held@) && nested_within(
                    held@,
                    nesting_limit(),
                ),
                None => parsed_bytes(bytes@) is None,
            },
    {
        match value_from_slice(bytes) {
            Ok(value) => Some(Json::from_value(value)),
            Err(_) => None,
        }
    }

    /// Writes the value as compact JSON text, from which it reads back.
    pub fn to_text(&self) -> (text: String)
        ensures
            text@ == compact_text(self@),
            forall|i: int| 0 <= i < text@.len() ==> #[trigger] text@[i] as nat >= 0x20,
            reads_back(self@) ==> parsed_text(text@) == Some(self@),
    {
        match value_to_string(&self.to_value()) {
            Ok(text) => text,
            Err(_) => String::new(),
        }
    }

    /// Writes the value as the bytes of compact JSON text, from which it reads back.
    pub fn to_bytes(&self) -> (bytes: Vec<u8>)
        ensures
            bytes@ == encode_utf8(compact_text(self@)),
            forall|i: int| 0 <= i < bytes@.len() ==> #[trigger] bytes@[i] >= 0x20,
            reads_back(self@) ==> parsed_bytes(bytes@) == Some(self@),
    {
        match value_to_vec(&self.to_value()) {
            Ok(bytes) => bytes,
            Err(_) => Vec::new(),
        }
    }
}

} // verus!
