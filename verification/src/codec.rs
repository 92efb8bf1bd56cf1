//! JSON text: what the parser reads and what the printer writes.
use crate::json::{
    alike, copy_number, law_alike_without_reals, members, nests_within, number_tree, real_free, trees, Json, JsonObject, JsonTree,
};
use vstd::prelude::*;

verus! {

/// The tree type of the JSON parser and printer, taken apart and put together
/// one level at a time.
#[verifier::external_type_specification]
#[verifier::external_body]
pub struct ExValue(serde_json::Value);

/// Why a text was refused by the parser, or a value by the printer.
#[verifier::external_type_specification]
#[verifier::external_body]
pub struct ExError(serde_json::Error);

/// What a parsed value holds.
pub uninterp spec fn value_tree(value: serde_json::Value) -> JsonTree;

/// What the parser makes of a text, `None` where it refuses it.
pub uninterp spec fn parsed_json(text: Seq<char>) -> Option<JsonTree>;

/// What the printer writes for a value.
pub uninterp spec fn printed_json(tree: JsonTree) -> Seq<char>;

/// One level of a parsed value: what it is, with its children as they are.
enum Level {
    Null,
    Bool(bool),
    Number(serde_json::Number),
    Text(String),
    Array(Vec<serde_json::Value>),
    Object(Vec<(String, serde_json::Value)>),
}

/// The members of an object, given as a list in which the later of two members
/// with the same key counts.
spec fn value_members(entries: Seq<(String, serde_json::Value)>) -> Map<Seq<char>, JsonTree>
    decreases entries.len(),
{
    if entries.len() == 0 {
        Map::empty()
    } else {
        value_members(entries.drop_last()).insert(
            entries.last().0@,
            value_tree(entries.last().1),
        )
    }
}

/// Whether no two members of the list have the same key.
spec fn distinct_keys(entries: Seq<(String, serde_json::Value)>) -> bool {
    forall|i: int, j: int|
        0 <= i < j < entries.len() ==> (#[trigger] entries[i]).0@ != (#[trigger] entries[j]).0@
}

/// An object has finitely many members.
proof fn lemma_value_members_finite(entries: Seq<(String, serde_json::Value)>)
    ensures
        value_members(entries).dom().finite(),
    decreases entries.len(),
{
    if entries.len() > 0 {
        lemma_value_members_finite(entries.drop_last());
    }
}

/// Where keys are distinct, every member of the list is a member of the object.
proof fn lemma_value_members(entries: Seq<(String, serde_json::Value)>, i: int)
    requires
        distinct_keys(entries),
        0 <= i < entries.len(),
    ensures
        value_members(entries).contains_key(entries[i].0@),
        value_members(entries)[entries[i].0@] == value_tree(entries[i].1),
    decreases entries.len(),
{
    if i < entries.len() - 1 {
        lemma_value_members(entries.drop_last(), i);
        assert(entries.drop_last()[i] == entries[i]);
        assert(entries.last() == entries[entries.len() - 1]);
    }
}

impl Level {
    spec fn tree(self) -> JsonTree {
        match self {
            Level::Null => JsonTree::Null,
            Level::Bool(b) => JsonTree::Bool(b),
            Level::Number(n) => number_tree(n),
            Level::Text(s) => JsonTree::Text(s@),
            Level::Array(items) => JsonTree::Array(
                items@.map_values(|v: serde_json::Value| value_tree(v)),
            ),
            Level::Object(entries) => JsonTree::Object(value_members(entries@)),
        }
    }
}

/// Takes a `serde_json::Value` apart by its variant, an object's map into the
/// list of its members, in which no key occurs twice.
#[verifier::external_body]
fn open_value(value: serde_json::Value) -> (level: Level)
    ensures
        level.tree() == value_tree(value),
        level matches Level::Object(entries) ==> distinct_keys(entries@),
{
    match value {
        serde_json::Value::Null => Level::Null,
        serde_json::Value::Bool(b) => Level::Bool(b),
        serde_json::Value::Number(n) => Level::Number(n),
        serde_json::Value::String(s) => Level::Text(s),
        serde_json::Value::Array(items) => Level::Array(items),
        serde_json::Value::Object(map) => Level::Object(map.into_iter().collect()),
    }
}

/// Puts a `serde_json::Value` together, the list of an object's members into a
/// `serde_json::Map`, which keeps the later of two members with the same key.
#[verifier::external_body]
fn close_value(level: Level) -> (value: serde_json::Value)
    ensures
        value_tree(value) == level.tree(),
{
    match level {
        Level::Null => serde_json::Value::Null,
        Level::Bool(b) => serde_json::Value::Bool(b),
        Level::Number(n) => serde_json::Value::Number(n),
        Level::Text(s) => serde_json::Value::String(s),
        Level::Array(items) => serde_json::Value::Array(items),
        Level::Object(entries) => serde_json::Value::Object(entries.into_iter().collect()),
    }
}

/// Calls `serde_json::from_str`, whose result is a function of the text.
#[verifier::external_body]
fn parse_value(text: &str) -> (r: Result<serde_json::Value, serde_json::Error>)
    ensures
        match r {
            Ok(value) => parsed_json(text@) == Some(value_tree(value)),
            Err(_) => parsed_json(text@) is None,
        },
{
    serde_json::from_str(text)
}

/// Calls `serde_json::to_string`, which does not fail on a `serde_json::Value`
/// and whose result is a function of what the value holds: it writes the
/// members of an object in the order of their keys.
///
/// Where the parser reads the text again, it reads the value that was written,
/// but for the digits of a number that is not an integer; it refuses what nests
/// too deep. Whether it takes every such number back is left unsaid.
#[verifier::external_body]
fn print_value(value: &serde_json::Value) -> (r: Result<String, serde_json::Error>)
    ensures
        r is Ok,
        r->Ok_0@ == printed_json(value_tree(*value)),
        reads_back(r->Ok_0@, value_tree(*value)),
{
    serde_json::to_string(value)
}

/// The parser reads arrays and objects nested this deep and no deeper.
pub const MAX_NESTING: u8 = 127;

/// What reading `text` gives where `tree` was printed as `text`: nothing but
/// `tree` with other real numbers, and something at least where `tree` has no
/// real number and does not nest too deep.
pub open spec fn reads_back(text: Seq<char>, tree: JsonTree) -> bool {
    &&& parsed_json(text) matches Some(read) ==> alike(tree, read)
    &&& nests_within(tree, MAX_NESTING as nat) && real_free(tree) ==> parsed_json(text) is Some
}

/// Reads a parsed value into the library's own type.
fn from_value(value: serde_json::Value) -> (json: Json)
    ensures
        json@ == value_tree(value),
    decreases value_tree(value),
{
    let ghost tree = value_tree(value);
    match open_value(value) {
        Level::Null => Json::Null,
        Level::Bool(b) => Json::Bool(b),
        Level::Number(n) => Json::Number(n),
        Level::Text(s) => Json::Text(s),
        Level::Array(items) => {
            let ghost children = items@.map_values(|v: serde_json::Value| value_tree(v));
            assert(tree == JsonTree::Array(children));
            let mut out: Vec<Json> = Vec::new();
            for item in it: items
                invariant
                    tree == value_tree(value),
                    tree == JsonTree::Array(children),
                    children == it.seq().map_values(|v: serde_json::Value| value_tree(v)),
                    trees(out@) == children.take(it.index()),
            {
                let ghost before = out@;
                assert(children[it.index()] == value_tree(item));
                assert(decreases_to!(tree => tree->Array_0));
                assert(decreases_to!(children => children[it.index()]));
                out.push(from_value(item));
                assert(out@.drop_last() =~= before);
                assert(children.take(it.index() + 1) =~= children.take(it.index()).push(
                    children[it.index()],
                ));
            }
            assert(children.take(children.len() as int) =~= children);
            Json::Array(out)
        },
        Level::Object(entries) => {
            let ghost list = entries@;
            assert(tree == JsonTree::Object(value_members(list)));
            let mut out: Vec<(String, Json)> = Vec::new();
            for entry in it: entries
                invariant
                    tree == value_tree(value),
                    tree == JsonTree::Object(value_members(list)),
                    it.seq() == list,
                    distinct_keys(list),
                    members(out@) == value_members(list.take(it.index())),
            {
                let ghost before = out@;
                let (key, child) = entry;
                proof {
                    let map = value_members(list);
                    lemma_value_members(list, it.index());
                    lemma_value_members_finite(list);
                    assert(decreases_to!(tree => tree->Object_0));
                    assert(decreases_to!(map => map[key@]));
                }
                assert(list.take(it.index() + 1).drop_last() =~= list.take(it.index()));
                out.push((key, from_value(child)));
                assert(out@.drop_last() =~= before);
            }
            assert(list.take(list.len() as int) =~= list);
            Json::Object(JsonObject { entries: out })
        },
    }
}

/// Writes a value of the library's own type as the printer takes it.
fn into_value(json: &Json) -> (value: serde_json::Value)
    ensures
        value_tree(value) == json@,
    decreases json,
{
    match json {
        Json::Null => close_value(Level::Null),
        Json::Bool(b) => close_value(Level::Bool(*b)),
        Json::Number(n) => close_value(Level::Number(copy_number(n))),
        Json::Text(s) => close_value(Level::Text(s.clone())),
        Json::Array(items) => {
            let mut out: Vec<serde_json::Value> = Vec::new();
            let mut i: usize = 0;
            while i < items.len()
                invariant
                    json == Json::Array(*items),
                    i <= items.len(),
                    out@.map_values(|v: serde_json::Value| value_tree(v)) == trees(
                        items@.take(i as int),
                    ),
                decreases items.len() - i,
            {
                let ghost before = out@;
                assert(items@.take(i + 1).drop_last() =~= items@.take(i as int));
                assert(decreases_to!(json => json->Array_0@));
                let child = into_value(&items[i]);
                out.push(child);
                assert(out@.map_values(|v: serde_json::Value| value_tree(v))
                    =~= before.map_values(|v: serde_json::Value| value_tree(v)).push(
                    value_tree(child),
                ));
                i += 1;
            }
            assert(items@.take(items@.len() as int) =~= items@);
            close_value(Level::Array(out))
        },
        Json::Object(object) => {
            let entries = &object.entries;
            let mut out: Vec<(String, serde_json::Value)> = Vec::new();
            let mut i: usize = 0;
            while i < entries.len()
                invariant
                    json == Json::Object(*object),
                    entries == object.entries,
                    i <= entries.len(),
                    value_members(out@) == members(entries@.take(i as int)),
                decreases entries.len() - i,
            {
                let ghost before = out@;
                assert(entries@.take(i + 1).drop_last() =~= entries@.take(i as int));
                assert(decreases_to!(json => json->Object_0.entries@));
                let child = into_value(&entries[i].1);
                out.push((entries[i].0.clone(), child));
                assert(out@.drop_last() =~= before);
                i += 1;
            }
            assert(entries@.take(entries@.len() as int) =~= entries@);
            close_value(Level::Object(out))
        },
    }
}

/// Reads a JSON text. `None` where the text is not JSON or nests too deep.
pub fn parse_json(text: &str) -> (r: Option<Json>)
    ensures
        match r {
            Some(json) => parsed_json(text@) == Some(json@),
            None => parsed_json(text@) is None,
        },
{
    match parse_value(text) {
        Ok(value) => Some(from_value(value)),
        Err(_) => None,
    }
}

/// Writes a value as JSON text.
pub fn print_json(json: &Json) -> (text: String)
    ensures
        text@ == printed_json(json@),
        reads_back(text@, json@),
{
    let value = into_value(json);
    print_value(&value).unwrap()
}

/// Whether a tree reads back exactly: it has no real numbers and does not nest too
/// deep.
pub open spec fn is_plain(tree: JsonTree) -> bool {
    real_free(tree) && nests_within(tree, MAX_NESTING as nat)
}

/// What was printed of a plain tree reads as the tree.
pub proof fn law_plain_tree_reads_back(text: Seq<char>, tree: JsonTree)
    requires
        reads_back(text, tree),
        is_plain(tree),
    ensures
        parsed_json(text) == Some(tree),
{
    law_alike_without_reals(tree, parsed_json(text)->Some_0);
}

} // verus!
