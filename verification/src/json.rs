//! JSON values: the runtime type, the mathematical tree it stands for, and the
//! reads and writes that the guild cache performs on them.
use crate::text::str_eq;
use vstd::prelude::*;

verus! {

/// A JSON number, carried from the parser to the printer without being looked into.
#[verifier::external_type_specification]
#[verifier::external_body]
pub struct ExNumber(serde_json::Number);

/// The integer that a number is; `None` for a number that is kept as a
/// floating-point value.
pub uninterp spec fn integer_of(number: serde_json::Number) -> Option<int>;

/// What a JSON value is, with objects as maps from keys to values.
#[verifier::ext_equal]
pub enum JsonTree {
    Null,
    Bool(bool),
    Integer(int),
    /// A number that is kept as a floating-point value.
    Real(serde_json::Number),
    Text(Seq<char>),
    Array(Seq<JsonTree>),
    Object(Map<Seq<char>, JsonTree>),
}

impl JsonTree {
    /// The member `key` of an object; null where there is none.
    pub open spec fn at(self, key: Seq<char>) -> JsonTree {
        match self {
            JsonTree::Object(map) => if map.contains_key(key) {
                map[key]
            } else {
                JsonTree::Null
            },
            _ => JsonTree::Null,
        }
    }

    /// The characters of a string.
    pub open spec fn as_text(self) -> Option<Seq<char>> {
        match self {
            JsonTree::Text(s) => Some(s),
            _ => None,
        }
    }

    /// The items of an array.
    pub open spec fn as_array(self) -> Option<Seq<JsonTree>> {
        match self {
            JsonTree::Array(items) => Some(items),
            _ => None,
        }
    }

    /// Whether this is the boolean `true`.
    pub open spec fn is_true(self) -> bool {
        self == JsonTree::Bool(true)
    }

    /// An object with the member `key` set; anything else as it is.
    pub open spec fn with(self, key: Seq<char>, value: JsonTree) -> JsonTree {
        match self {
            JsonTree::Object(map) => JsonTree::Object(map.insert(key, value)),
            _ => self,
        }
    }

    /// An object without the member `key`; anything else as it is.
    pub open spec fn without(self, key: Seq<char>) -> JsonTree {
        match self {
            JsonTree::Object(map) => JsonTree::Object(map.remove(key)),
            _ => self,
        }
    }
}

/// What a number is.
pub open spec fn number_tree(number: serde_json::Number) -> JsonTree {
    match integer_of(number) {
        Some(n) => JsonTree::Integer(n),
        None => JsonTree::Real(number),
    }
}

/// Whether two trees are the same but for the real numbers in them.
pub open spec fn alike(a: JsonTree, b: JsonTree) -> bool
    decreases a,
{
    match (a, b) {
        (JsonTree::Real(_), JsonTree::Real(_)) => true,
        (JsonTree::Array(x), JsonTree::Array(y)) => {
            &&& x.len() == y.len()
            &&& forall|i: int| 0 <= i < x.len() ==> alike(#[trigger] x[i], y[i])
        },
        (JsonTree::Object(x), JsonTree::Object(y)) => {
            &&& x.dom() == y.dom()
            &&& forall|k: Seq<char>| x.contains_key(k) ==> alike(#[trigger] x[k], y[k])
        },
        _ => a == b,
    }
}

/// Whether all numbers in a tree are integers.
pub open spec fn real_free(tree: JsonTree) -> bool
    decreases tree,
{
    match tree {
        JsonTree::Real(_) => false,
        JsonTree::Array(items) => forall|i: int|
            0 <= i < items.len() ==> real_free(#[trigger] items[i]),
        JsonTree::Object(map) => forall|k: Seq<char>|
            map.contains_key(k) ==> real_free(#[trigger] map[k]),
        _ => true,
    }
}

/// Whether arrays and objects nest at most `depth` deep in a tree.
pub open spec fn nests_within(tree: JsonTree, depth: nat) -> bool
    decreases tree,
{
    match tree {
        JsonTree::Array(items) => depth > 0 && forall|i: int|
            0 <= i < items.len() ==> nests_within(#[trigger] items[i], (depth - 1) as nat),
        JsonTree::Object(map) => depth > 0 && forall|k: Seq<char>|
            map.contains_key(k) ==> nests_within(#[trigger] map[k], (depth - 1) as nat),
        _ => true,
    }
}

/// A JSON value.
pub enum Json {
    Null,
    Bool(bool),
    Number(serde_json::Number),
    Text(String),
    Array(Vec<Json>),
    Object(JsonObject),
}

/// A JSON object: its members in the order of insertion. Of two members with
/// the same key the later one counts.
pub struct JsonObject {
    pub entries: Vec<(String, Json)>,
}

/// The trees of a sequence of values.
pub open spec fn trees(items: Seq<Json>) -> Seq<JsonTree>
    decreases items,
{
    if items.len() == 0 {
        Seq::empty()
    } else {
        trees(items.drop_last()).push(items.last().tree())
    }
}

/// The members of an object as a map.
pub open spec fn members(entries: Seq<(String, Json)>) -> Map<Seq<char>, JsonTree>
    decreases entries,
{
    if entries.len() == 0 {
        Map::empty()
    } else {
        members(entries.drop_last()).insert(entries.last().0@, entries.last().1.tree())
    }
}

impl Json {
    pub open spec fn tree(self) -> JsonTree
        decreases self,
    {
        match self {
            Json::Null => JsonTree::Null,
            Json::Bool(b) => JsonTree::Bool(b),
            Json::Number(n) => number_tree(n),
            Json::Text(s) => JsonTree::Text(s@),
            Json::Array(items) => JsonTree::Array(trees(items@)),
            Json::Object(object) => JsonTree::Object(members(object.entries@)),
        }
    }
}

impl View for Json {
    type V = JsonTree;

    open spec fn view(&self) -> JsonTree {
        self.tree()
    }
}

impl View for JsonObject {
    type V = Map<Seq<char>, JsonTree>;

    open spec fn view(&self) -> Map<Seq<char>, JsonTree> {
        members(self.entries@)
    }
}

/// Calls `serde_json::Number::clone`, which copies the number.
#[verifier::external_body]
pub(crate) fn copy_number(n: &serde_json::Number) -> (r: serde_json::Number)
    ensures
        r == *n,
{
    n.clone()
}

/// Calls `serde_json::Number::from`, which makes an integer of the number.
#[verifier::external_body]
fn integer_number(n: u64) -> (r: serde_json::Number)
    ensures
        integer_of(r) == Some(n as int),
{
    serde_json::Number::from(n)
}

/// Taking a member out before it is set makes no difference.
pub proof fn lemma_without_with(tree: JsonTree, key: Seq<char>, value: JsonTree)
    ensures
        tree.without(key).with(key, value) == tree.with(key, value),
{
    if let JsonTree::Object(map) = tree {
        assert(map.remove(key).insert(key, value) =~= map.insert(key, value));
    }
}

/// Setting a member that is there to what it is changes nothing.
pub proof fn lemma_with_same(tree: JsonTree, key: Seq<char>)
    requires
        tree.at(key) !is Null,
    ensures
        tree.with(key, tree.at(key)) == tree,
{
    if let JsonTree::Object(map) = tree {
        assert(map.insert(key, map[key]) =~= map);
    }
}

/// The trees of a list are the trees of its items.
pub proof fn lemma_trees(items: Seq<Json>)
    ensures
        trees(items).len() == items.len(),
        forall|i: int| 0 <= i < items.len() ==> trees(items)[i] == (#[trigger] items[i])@,
    decreases items.len(),
{
    if items.len() > 0 {
        lemma_trees(items.drop_last());
        assert forall|i: int| 0 <= i < items.len() implies trees(items)[i] == (
        #[trigger] items[i])@ by {
            if i < items.len() - 1 {
                assert(items.drop_last()[i] == items[i]);
            }
        }
    }
}

/// The trees of a list with one more item.
pub proof fn lemma_trees_push(items: Seq<Json>, item: Json)
    ensures
        trees(items.push(item)) == trees(items).push(item@),
{
    assert(items.push(item).drop_last() =~= items);
}

/// The trees of a list with one item replaced.
pub proof fn lemma_trees_update(items: Seq<Json>, i: int, item: Json)
    requires
        0 <= i < items.len(),
    ensures
        trees(items.update(i, item)) == trees(items).update(i, item@),
{
    lemma_trees(items);
    lemma_trees(items.update(i, item));
    assert forall|j: int| 0 <= j < items.len() implies trees(items.update(i, item))[j] == trees(
        items,
    ).update(i, item@)[j] by {
        assert(items.update(i, item)[j] == if j == i {
            item
        } else {
            items[j]
        });
    }
    assert(trees(items.update(i, item)) =~= trees(items).update(i, item@));
}

/// A member pushed at the end of the list is the one that counts.
proof fn lemma_members_push(entries: Seq<(String, Json)>, entry: (String, Json))
    ensures
        members(entries.push(entry)) == members(entries).insert(entry.0@, entry.1@),
{
    assert(entries.push(entry).drop_last() =~= entries);
}

impl JsonObject {
    /// The object without members.
    pub fn new() -> (r: JsonObject)
        ensures
            r@ == Map::<Seq<char>, JsonTree>::empty(),
    {
        JsonObject { entries: Vec::new() }
    }

    /// The member `key`.
    pub fn get(&self, key: &str) -> (r: Option<&Json>)
        ensures
            match r {
                Some(value) => self@.contains_key(key@) && self@[key@] == value@,
                None => !self@.contains_key(key@),
            },
    {
        let mut i: usize = self.entries.len();
        assert(self.entries@.take(i as int) =~= self.entries@);
        while i > 0
            invariant
                i <= self.entries@.len(),
                members(self.entries@.take(i as int)).contains_key(key@) == self@.contains_key(
                    key@,
                ),
                self@.contains_key(key@) ==> members(self.entries@.take(i as int))[key@]
                    == self@[key@],
            decreases i,
        {
            assert(self.entries@.take(i as int).drop_last() =~= self.entries@.take(i - 1));
            i -= 1;
            if str_eq(self.entries[i].0.as_str(), key) {
                return Some(&self.entries[i].1);
            }
        }
        None
    }

    /// Takes the member `key` out.
    pub fn remove(&mut self, key: &str) -> (r: Option<Json>)
        ensures
            final(self)@ == old(self)@.remove(key@),
            match r {
                Some(value) => old(self)@.contains_key(key@) && old(self)@[key@] == value@,
                None => !old(self)@.contains_key(key@),
            },
    {
        let mut entries: Vec<(String, Json)> = Vec::new();
        std::mem::swap(&mut entries, &mut self.entries);
        let ghost list = entries@;
        let mut kept: Vec<(String, Json)> = Vec::new();
        let mut found: Option<Json> = None;
        for entry in it: entries
            invariant
                it.seq() == list,
                members(kept@) == members(list.take(it.index())).remove(key@),
                match found {
                    Some(value) => members(list.take(it.index())).contains_key(key@) && members(
                        list.take(it.index()),
                    )[key@] == value@,
                    None => !members(list.take(it.index())).contains_key(key@),
                },
        {
            assert(list.take(it.index() + 1).drop_last() =~= list.take(it.index()));
            if str_eq(entry.0.as_str(), key) {
                found = Some(entry.1);
            } else {
                proof {
                    lemma_members_push(kept@, entry);
                }
                kept.push(entry);
            }
            assert(members(kept@) =~= members(list.take(it.index() + 1)).remove(key@));
        }
        assert(list.take(list.len() as int) =~= list);
        self.entries = kept;
        found
    }

    /// Sets the member `key`.
    pub fn insert(&mut self, key: String, value: Json)
        ensures
            final(self)@ == old(self)@.insert(key@, value@),
    {
        let _ = self.remove(key.as_str());
        proof {
            lemma_members_push(self.entries@, (key, value));
        }
        self.entries.push((key, value));
        assert(self@ =~= old(self)@.insert(key@, value@));
    }
}

impl Clone for Json {
    fn clone(&self) -> (r: Json)
        ensures
            r@ == self@,
        decreases self,
    {
        match self {
            Json::Null => Json::Null,
            Json::Bool(b) => Json::Bool(*b),
            Json::Number(n) => Json::Number(copy_number(n)),
            Json::Text(s) => Json::Text(s.clone()),
            Json::Array(items) => {
                let mut out: Vec<Json> = Vec::new();
                let mut i: usize = 0;
                while i < items.len()
                    invariant
                        self == Json::Array(*items),
                        i <= items.len(),
                        trees(out@) == trees(items@.take(i as int)),
                    decreases items.len() - i,
                {
                    let ghost before = out@;
                    assert(items@.take(i + 1).drop_last() =~= items@.take(i as int));
                    assert(decreases_to!(self => self->Array_0@));
                    out.push(items[i].clone());
                    assert(out@.drop_last() =~= before);
                    i += 1;
                }
                assert(items@.take(items@.len() as int) =~= items@);
                Json::Array(out)
            },
            Json::Object(object) => {
                let mut out: Vec<(String, Json)> = Vec::new();
                let mut i: usize = 0;
                while i < object.entries.len()
                    invariant
                        self == Json::Object(*object),
                        i <= object.entries.len(),
                        members(out@) == members(object.entries@.take(i as int)),
                    decreases object.entries.len() - i,
                {
                    let ghost before = out@;
                    assert(object.entries@.take(i + 1).drop_last() =~= object.entries@.take(
                        i as int,
                    ));
                    assert(decreases_to!(self => self->Object_0.entries@));
                    let value = object.entries[i].1.clone();
                    proof {
                        lemma_members_push(before, (object.entries@[i as int].0, value));
                    }
                    out.push((object.entries[i].0.clone(), value));
                    i += 1;
                }
                assert(object.entries@.take(object.entries@.len() as int) =~= object.entries@);
                Json::Object(JsonObject { entries: out })
            },
        }
    }
}

impl Clone for JsonObject {
    fn clone(&self) -> (r: JsonObject)
        ensures
            r@ == self@,
    {
        let mut out: Vec<(String, Json)> = Vec::new();
        let mut i: usize = 0;
        while i < self.entries.len()
            invariant
                i <= self.entries.len(),
                members(out@) == members(self.entries@.take(i as int)),
            decreases self.entries.len() - i,
        {
            assert(self.entries@.take(i + 1).drop_last() =~= self.entries@.take(i as int));
            let value = self.entries[i].1.clone();
            proof {
                lemma_members_push(out@, (self.entries@[i as int].0, value));
            }
            out.push((self.entries[i].0.clone(), value));
            i += 1;
        }
        assert(self.entries@.take(self.entries@.len() as int) =~= self.entries@);
        JsonObject { entries: out }
    }
}

impl Json {
    /// The number `n`.
    pub fn integer(n: u64) -> (r: Json)
        ensures
            r@ == JsonTree::Integer(n as int),
    {
        Json::Number(integer_number(n))
    }

    /// The member `key` of an object.
    pub fn get(&self, key: &str) -> (r: Option<&Json>)
        ensures
            match r {
                Some(value) => self@ matches JsonTree::Object(map) && map.contains_key(key@)
                    && value@ == map[key@],
                None => self@ matches JsonTree::Object(map) ==> !map.contains_key(key@),
            },
    {
        match self {
            Json::Object(object) => object.get(key),
            _ => None,
        }
    }

    /// The characters of the member `key`, where that is a string.
    pub fn text_at(&self, key: &str) -> (r: Option<&str>)
        ensures
            match r {
                Some(s) => self@.at(key@).as_text() == Some(s@),
                None => self@.at(key@).as_text() is None,
            },
    {
        match self.get(key) {
            Some(Json::Text(s)) => Some(s.as_str()),
            _ => None,
        }
    }

    /// The items of the member `key`, where that is an array.
    pub fn array_at(&self, key: &str) -> (r: Option<&Vec<Json>>)
        ensures
            match r {
                Some(items) => self@.at(key@).as_array() == Some(trees(items@)),
                None => self@.at(key@).as_array() is None,
            },
    {
        match self.get(key) {
            Some(Json::Array(items)) => Some(items),
            _ => None,
        }
    }

    /// Whether the member `key` is `true`.
    pub fn true_at(&self, key: &str) -> (r: bool)
        ensures
            r == self@.at(key@).is_true(),
    {
        match self.get(key) {
            Some(Json::Bool(b)) => *b,
            _ => false,
        }
    }

    /// Whether the member `key` is an object.
    pub fn object_at(&self, key: &str) -> (r: bool)
        ensures
            r == (self@.at(key@) is Object),
    {
        match self.get(key) {
            Some(Json::Object(_)) => true,
            _ => false,
        }
    }

    /// Whether the member `key` is missing or null.
    pub fn null_at(&self, key: &str) -> (r: bool)
        ensures
            r == (self@.at(key@) is Null),
    {
        match self.get(key) {
            Some(Json::Null) => true,
            Some(_) => false,
            None => true,
        }
    }

    /// A copy of the member `key`, null where there is none.
    pub fn copy_at(&self, key: &str) -> (r: Json)
        ensures
            r@ == self@.at(key@),
    {
        match self.get(key) {
            Some(value) => value.clone(),
            None => Json::Null,
        }
    }

    /// The member `key`, null where there is none.
    pub fn into_member(self, key: &str) -> (r: Json)
        ensures
            r@ == self@.at(key@),
    {
        match self {
            Json::Object(mut object) => match object.remove(key) {
                Some(value) => value,
                None => Json::Null,
            },
            _ => Json::Null,
        }
    }

    /// Sets the member `key` of an object.
    pub fn set(&mut self, key: &str, value: Json)
        requires
            old(self)@ is Object,
        ensures
            final(self)@ == old(self)@.with(key@, value@),
    {
        match self {
            Json::Object(object) => object.insert(key.to_owned(), value),
            _ => {},
        }
    }

    /// Takes the member `key` out of an object; leaves anything else as it is.
    pub fn unset(&mut self, key: &str)
        ensures
            final(self)@ == old(self)@.without(key@),
    {
        match self {
            Json::Object(object) => {
                let _ = object.remove(key);
            },
            _ => {},
        }
    }

    /// Takes the member `key` out where it is an array.
    pub fn take_array(&mut self, key: &str) -> (r: Option<Vec<Json>>)
        ensures
            match r {
                Some(items) => old(self)@.at(key@).as_array() == Some(trees(items@))
                    && final(self)@ == old(self)@.without(key@),
                None => old(self)@.at(key@).as_array() is None && final(self)@ == old(self)@,
            },
    {
        if self.array_at(key).is_none() {
            return None;
        }
        match self {
            Json::Object(object) => match object.remove(key) {
                Some(Json::Array(items)) => Some(items),
                _ => None,
            },
            _ => None,
        }
    }
}

/// Trees that are alike are the same where one has no real numbers.
pub proof fn law_alike_without_reals(a: JsonTree, b: JsonTree)
    requires
        alike(a, b),
        real_free(a),
    ensures
        a == b,
    decreases a,
{
    match (a, b) {
        (JsonTree::Array(x), JsonTree::Array(y)) => {
            assert forall|i: int| 0 <= i < x.len() implies x[i] == y[i] by {
                assert(alike(x[i], y[i]));
                assert(real_free(x[i]));
                assert(decreases_to!(a => a->Array_0));
                law_alike_without_reals(x[i], y[i]);
            }
            assert(x =~= y);
        },
        (JsonTree::Object(x), JsonTree::Object(y)) => {
            assert forall|k: Seq<char>| x.contains_key(k) implies x[k] == y[k] by {
                assert(alike(x[k], y[k]));
                assert(real_free(x[k]));
                law_alike_without_reals(x[k], y[k]);
            }
            assert(x =~= y);
        },
        _ => {},
    }
}

/// What reading and changing a member of a tree means: an object has the members of
/// its map, and anything else has none and stays as it is.
pub proof fn law_members_of_a_tree(tree: JsonTree, key: Seq<char>, value: JsonTree)
    ensures
        match tree {
            JsonTree::Object(map) => {
                &&& map.contains_key(key) ==> tree.at(key) == map[key]
                &&& !map.contains_key(key) ==> tree.at(key) == JsonTree::Null
                &&& tree.with(key, value) == JsonTree::Object(map.insert(key, value))
                &&& tree.without(key) == JsonTree::Object(map.remove(key))
            },
            _ => {
                &&& tree.at(key) == JsonTree::Null
                &&& tree.with(key, value) == tree
                &&& tree.without(key) == tree
            },
        },
        match tree {
            JsonTree::Text(text) => tree.as_text() == Some(text),
            _ => tree.as_text() is None,
        },
        match tree {
            JsonTree::Array(items) => tree.as_array() == Some(items),
            _ => tree.as_array() is None,
        },
        tree.is_true() <==> tree == JsonTree::Bool(true),
{
}

/// A value stands for the tree with the same contents.
pub proof fn law_tree_of_a_value(json: Json)
    ensures
        match json {
            Json::Null => json@ == JsonTree::Null,
            Json::Bool(b) => json@ == JsonTree::Bool(b),
            Json::Number(n) => match integer_of(n) {
                Some(i) => json@ == JsonTree::Integer(i),
                None => json@ == JsonTree::Real(n),
            },
            Json::Text(text) => json@ == JsonTree::Text(text@),
            Json::Array(items) => json@ matches JsonTree::Array(trees) && trees.len()
                == items@.len() && forall|i: int|
                0 <= i < items@.len() ==> trees[i] == (#[trigger] items@[i])@,
            Json::Object(object) => json@ == JsonTree::Object(object@),
        },
{
    if let Json::Array(items) = json {
        lemma_trees(items@);
    }
}

/// An object has the keys of its entries, and of two entries with the same key the
/// later one counts.
pub proof fn law_later_entry_counts(object: JsonObject, key: Seq<char>, i: int)
    requires
        0 <= i < object.entries@.len() ==> object.entries@[i].0@ == key && forall|j: int|
            i < j < object.entries@.len() ==> (#[trigger] object.entries@[j]).0@ != key,
    ensures
        0 <= i < object.entries@.len() ==> object@.contains_key(key) && object@[key]
            == object.entries@[i].1@,
        (forall|j: int| 0 <= j < object.entries@.len() ==> (#[trigger] object.entries@[j]).0@ != key)
            ==> !object@.contains_key(key),
{
    lemma_later_entry_counts(object.entries@, key, i);
}

/// Of two entries with the same key the later one counts.
proof fn lemma_later_entry_counts(entries: Seq<(String, Json)>, key: Seq<char>, i: int)
    requires
        0 <= i < entries.len() ==> entries[i].0@ == key && forall|j: int|
            i < j < entries.len() ==> (#[trigger] entries[j]).0@ != key,
    ensures
        0 <= i < entries.len() ==> members(entries).contains_key(key) && members(entries)[key]
            == entries[i].1@,
        (forall|j: int| 0 <= j < entries.len() ==> (#[trigger] entries[j]).0@ != key) ==> !members(
            entries,
        ).contains_key(key),
    decreases entries.len(),
{
    if entries.len() > 0 {
        let rest = entries.drop_last();
        let last = entries[entries.len() - 1];
        if i == entries.len() - 1 {
            lemma_later_entry_counts(rest, key, -1);
        } else {
            if 0 <= i < rest.len() {
                assert(rest[i] == entries[i]);
                assert(last.0@ != key);
                assert forall|j: int| i < j < rest.len() implies (#[trigger] rest[j]).0@ != key by {
                    assert(rest[j] == entries[j]);
                }
            }
            lemma_later_entry_counts(rest, key, i);
        }
        if forall|j: int| 0 <= j < entries.len() ==> (#[trigger] entries[j]).0@ != key {
            assert(last.0@ != key);
            assert forall|j: int| 0 <= j < rest.len() implies (#[trigger] rest[j]).0@ != key by {
                assert(rest[j] == entries[j]);
            }
        }
    }
}

} // verus!
