//! JSON documents, as far as the replies and requests of the service need them.

use vstd::prelude::*;
use vstd::string::*;

verus! {

/// What a JSON document says. The size of a number is of no interest here.
#[verifier::ext_equal]
pub ghost enum Tree {
    Null,
    Bool(bool),
    Number,
    Text(Seq<char>),
    Array(Seq<Tree>),
    Object(Seq<(Seq<char>, Tree)>),
}

/// The value of the first member named `key`.
pub open spec fn lookup(members: Seq<(Seq<char>, Tree)>, key: Seq<char>) -> Option<Tree>
    decreases members.len(),
{
    if members.len() == 0 {
        None
    } else if members[0].0 == key {
        Some(members[0].1)
    } else {
        lookup(members.drop_first(), key)
    }
}

impl Tree {
    /// The member named `key`, where this is an object that has one.
    pub open spec fn member(self, key: Seq<char>) -> Option<Tree> {
        match self {
            Tree::Object(members) => lookup(members, key),
            _ => None,
        }
    }

    /// The text, where this is one.
    pub open spec fn text(self) -> Option<Seq<char>> {
        match self {
            Tree::Text(s) => Some(s),
            _ => None,
        }
    }

    /// The items, where this is an array.
    pub open spec fn items(self) -> Option<Seq<Tree>> {
        match self {
            Tree::Array(items) => Some(items),
            _ => None,
        }
    }
}

/// A JSON document.
#[derive(Debug)]
pub enum Json {
    Null,
    Bool(bool),
    Number,
    Text(String),
    Array(Vec<Json>),
    Object(Vec<(String, Json)>),
}

impl View for Json {
    type V = Tree;

    open spec fn view(&self) -> Tree
        decreases self,
    {
        match self {
            Json::Null => Tree::Null,
            Json::Bool(b) => Tree::Bool(*b),
            Json::Number => Tree::Number,
            Json::Text(s) => Tree::Text(s@),
            Json::Array(items) => Tree::Array(
                Seq::new(
                    items@.len(),
                    |i: int|
                        if 0 <= i < items@.len() {
                            items@[i].view()
                        } else {
                            Tree::Null
                        },
                ),
            ),
            Json::Object(members) => Tree::Object(
                Seq::new(
                    members@.len(),
                    |i: int|
                        if 0 <= i < members@.len() {
                            (members@[i].0@, members@[i].1.view())
                        } else {
                            (Seq::empty(), Tree::Null)
                        },
                ),
            ),
        }
    }
}

/// The members of an object, as the tree has them.
pub open spec fn member_trees(members: Seq<(String, Json)>) -> Seq<(Seq<char>, Tree)> {
    Seq::new(members.len(), |i: int| (members[i].0@, members[i].1@))
}

/// The items of an array, as the tree has them.
pub open spec fn item_trees(items: Seq<Json>) -> Seq<Tree> {
    Seq::new(items.len(), |i: int| items[i]@)
}

proof fn lemma_array_tree(items: Vec<Json>)
    ensures
        Json::Array(items)@ == Tree::Array(item_trees(items@)),
{
    let j = Json::Array(items);
    assert(j@ is Array);
    assert(j@->Array_0 =~= item_trees(items@));
}

proof fn lemma_object_tree(members: Vec<(String, Json)>)
    ensures
        Json::Object(members)@ == Tree::Object(member_trees(members@)),
{
    let j = Json::Object(members);
    assert(j@ is Object);
    reveal_with_fuel(<Json as View>::view, 2);
    assert(j@->Object_0 =~= member_trees(members@));
}

impl Json {
    /// The member named `key`, where this is an object that has one.
    pub fn get(&self, key: &str) -> (r: Option<&Json>)
        ensures
            match r {
                Some(json) => self@.member(key@) == Some(json@),
                None => self@.member(key@) is None,
            },
    {
        match self {
            Json::Object(members) => {
                let ghost all = member_trees(members@);
                proof {
                    lemma_object_tree(*members);
                }
                let mut i: usize = 0;
                assert(all.skip(0) == all);
                while i < members.len()
                    invariant
                        i <= members@.len(),
                        all == member_trees(members@),
                        self@ == Tree::Object(all),
                        lookup(all, key@) == lookup(all.skip(i as int), key@),
                    decreases members@.len() - i,
                {
                    let (name, value) = &members[i];
                    proof {
                        assert(all.skip(i as int)[0] == (name@, value@));
                        assert(all.skip(i as int).drop_first() == all.skip(i + 1));
                    }
                    if crate::text::same(name.as_str(), key) {
                        return Some(value);
                    }
                    i = i + 1;
                }
                None
            },
            _ => None,
        }
    }

    /// The text, where this is one.
    pub fn as_str(&self) -> (r: Option<&str>)
        ensures
            match r {
                Some(s) => self@.text() == Some(s@),
                None => self@.text() is None,
            },
    {
        match self {
            Json::Text(s) => Some(s.as_str()),
            _ => None,
        }
    }

    /// The items, where this is an array.
    pub fn as_array(&self) -> (r: Option<&Vec<Json>>)
        ensures
            match r {
                Some(items) => self@.items() == Some(item_trees(items@)),
                None => self@.items() is None,
            },
    {
        match self {
            Json::Array(items) => {
                proof {
                    lemma_array_tree(*items);
                }
                Some(items)
            },
            _ => None,
        }
    }
}

/// The object with these members.
pub fn object(members: Vec<(String, Json)>) -> (r: Json)
    ensures
        r@ == Tree::Object(member_trees(members@)),
{
    proof {
        lemma_object_tree(members);
    }
    Json::Object(members)
}

/// The array with these items.
pub fn array(items: Vec<Json>) -> (r: Json)
    ensures
        r@ == Tree::Array(item_trees(items@)),
{
    proof {
        lemma_array_tree(items);
    }
    Json::Array(items)
}

/// The object with one member.
pub fn wrap(name: &str, value: Json) -> (r: Json)
    ensures
        r@ == Tree::Object(seq![(name@, value@)]),
{
    let members: Vec<(String, Json)> = vec![(name.to_owned(), value)];
    assert(member_trees(members@) == seq![(name@, value@)]);
    object(members)
}

/// The array with one item.
pub fn only(item: Json) -> (r: Json)
    ensures
        r@ == Tree::Array(seq![item@]),
{
    let items: Vec<Json> = vec![item];
    assert(item_trees(items@) == seq![item@]);
    array(items)
}

/// The document that is just a text.
pub fn text(s: &str) -> (r: Json)
    ensures
        r@ == Tree::Text(s@),
{
    Json::Text(s.to_owned())
}

/// The array of these texts.
pub fn text_array(list: &Vec<String>) -> (r: Json)
    ensures
        r@ == Tree::Array(Seq::new(list@.len(), |i: int| Tree::Text(list@[i]@))),
{
    let mut items: Vec<Json> = Vec::new();
    let mut i: usize = 0;
    while i < list.len()
        invariant
            i <= list@.len(),
            items@.len() == i,
            forall|k: int| 0 <= k < i ==> (#[trigger] items@[k])@ == Tree::Text(list@[k]@),
        decreases list@.len() - i,
    {
        items.push(text(list[i].as_str()));
        i = i + 1;
    }
    assert(item_trees(items@) == Seq::new(list@.len(), |i: int| Tree::Text(list@[i]@)));
    array(items)
}

/// A document as `serde_json` holds it.
#[verifier::external_type_specification]
#[verifier::external_body]
pub struct ExValue(serde_json::Value);

/// What a `serde_json::Value` holds.
pub uninterp spec fn value_tree(value: serde_json::Value) -> Tree;

/// What `serde_json::from_str` makes of a text: the document, or how the error displays.
pub uninterp spec fn json_parse(text: Seq<char>) -> Result<Tree, Seq<char>>;

/// A `serde_json::Value`, one level deep.
enum Node {
    Null,
    Bool(bool),
    Number,
    Text(String),
    Array(Vec<serde_json::Value>),
    Object(Vec<(String, serde_json::Value)>),
}

/// What a node holds, given what the values in it hold.
spec fn node_tree(node: Node) -> Tree {
    match node {
        Node::Null => Tree::Null,
        Node::Bool(b) => Tree::Bool(b),
        Node::Number => Tree::Number,
        Node::Text(s) => Tree::Text(s@),
        Node::Array(items) => Tree::Array(
            Seq::new(items@.len(), |i: int| value_tree(items@[i])),
        ),
        Node::Object(members) => Tree::Object(
            Seq::new(members@.len(), |i: int| (members@[i].0@, value_tree(members@[i].1))),
        ),
    }
}

/// `serde_json::from_str`, with the error as it displays. What comes back is a function of
/// the text alone.
#[verifier::external_body]
fn parse_value(text: &str) -> (r: Result<serde_json::Value, String>)
    ensures
        match r {
            Ok(value) => json_parse(text@) == Ok::<Tree, Seq<char>>(value_tree(value)),
            Err(reason) => json_parse(text@) == Err::<Tree, Seq<char>>(reason@),
        },
{
    match serde_json::from_str(text) {
        Ok(value) => Ok(value),
        Err(error) => Err(error.to_string()),
    }
}

/// The variant of a `serde_json::Value` with its fields. The members of an object come
/// in the order of its map.
#[verifier::external_body]
fn open_value(value: serde_json::Value) -> (r: Node)
    ensures
        node_tree(r) == value_tree(value),
{
    match value {
        serde_json::Value::Null => Node::Null,
        serde_json::Value::Bool(b) => Node::Bool(b),
        serde_json::Value::Number(_) => Node::Number,
        serde_json::Value::String(s) => Node::Text(s),
        serde_json::Value::Array(items) => Node::Array(items),
        serde_json::Value::Object(members) => Node::Object(members.into_iter().collect()),
    }
}

/// The whole of a `serde_json::Value`.
fn convert(value: serde_json::Value) -> (r: Json)
    ensures
        r@ == value_tree(value),
    decreases value_tree(value),
{
    match open_value(value) {
        Node::Null => Json::Null,
        Node::Bool(b) => Json::Bool(b),
        Node::Number => Json::Number,
        Node::Text(s) => Json::Text(s),
        Node::Array(items) => {
            let ghost all = items@;
            let ghost trees = Seq::new(all.len(), |i: int| value_tree(all[i]));
            let mut list: Vec<Json> = Vec::new();
            for item in it: items
                invariant
                    it.seq() == all,
                    trees == Seq::new(all.len(), |i: int| value_tree(all[i])),
                    value_tree(value) == Tree::Array(trees),
                    item_trees(list@) == trees.subrange(0, it.index() as int),
            {
                let ghost k = it.index() as int;
                proof {
                    assert(trees[k] == value_tree(item));
                    let tree = value_tree(value);
                    assert(decreases_to!(tree => tree->Array_0));
                    assert(decreases_to!(trees => trees[k]));
                    assert(trees.subrange(0, k + 1) == trees.subrange(0, k).push(trees[k]));
                }
                let ghost before = list@;
                list.push(convert(item));
                assert(item_trees(list@) == item_trees(before).push(trees[k]));
            }
            proof {
                assert(trees.subrange(0, all.len() as int) == trees);
                lemma_array_tree(list);
            }
            Json::Array(list)
        },
        Node::Object(members) => {
            let ghost all = members@;
            let ghost trees = Seq::new(all.len(), |i: int| (all[i].0@, value_tree(all[i].1)));
            let mut list: Vec<(String, Json)> = Vec::new();
            for member in it: members
                invariant
                    it.seq() == all,
                    trees == Seq::new(all.len(), |i: int| (all[i].0@, value_tree(all[i].1))),
                    value_tree(value) == Tree::Object(trees),
                    member_trees(list@) == trees.subrange(0, it.index() as int),
            {
                let ghost k = it.index() as int;
                proof {
                    assert(trees[k] == (member.0@, value_tree(member.1)));
                    let tree = value_tree(value);
                    assert(decreases_to!(tree => tree->Object_0));
                    assert(decreases_to!(trees => trees[k]));
                    assert(decreases_to!(trees[k] => trees[k].1));
                    assert(trees.subrange(0, k + 1) == trees.subrange(0, k).push(trees[k]));
                }
                let ghost before = list@;
                let (name, inner) = member;
                list.push((name, convert(inner)));
                assert(member_trees(list@) == member_trees(before).push(trees[k]));
            }
            proof {
                assert(trees.subrange(0, all.len() as int) == trees);
                lemma_object_tree(list);
            }
            Json::Object(list)
        },
    }
}

/// What parsing a text gave, as the contracts have it.
pub open spec fn parse_view(parsed: Result<Json, String>) -> Result<Tree, Seq<char>> {
    match parsed {
        Ok(json) => Ok(json@),
        Err(reason) => Err(reason@),
    }
}

/// The document that a text holds, or why it holds none.
pub fn parse_json(text: &str) -> (r: Result<Json, String>)
    ensures
        parse_view(r) == json_parse(text@),
{
    match parse_value(text) {
        Ok(value) => Ok(convert(value)),
        Err(reason) => Err(reason),
    }
}

/// A member is found exactly where an object has one of that name, and it is the first of
/// that name.
pub proof fn lemma_member(tree: Tree, key: Seq<char>)
    ensures
        match tree.member(key) {
            Some(found) => {
                &&& tree is Object
                &&& exists|i: int|
                    {
                        &&& 0 <= i < tree->Object_0.len()
                        &&& #[trigger] tree->Object_0[i] == (key, found)
                        &&& forall|j: int| 0 <= j < i ==> (#[trigger] tree->Object_0[j]).0 != key
                    }
            },
            None => tree is Object ==> forall|j: int|
                0 <= j < tree->Object_0.len() ==> (#[trigger] tree->Object_0[j]).0 != key,
        },
{
    if tree is Object {
        lemma_lookup(tree->Object_0, key);
    }
}

proof fn lemma_lookup(members: Seq<(Seq<char>, Tree)>, key: Seq<char>)
    ensures
        match lookup(members, key) {
            Some(found) => exists|i: int|
                {
                    &&& 0 <= i < members.len()
                    &&& #[trigger] members[i] == (key, found)
                    &&& forall|j: int| 0 <= j < i ==> (#[trigger] members[j]).0 != key
                },
            None => forall|j: int| 0 <= j < members.len() ==> (#[trigger] members[j]).0 != key,
        },
    decreases members.len(),
{
    if members.len() > 0 {
        if members[0].0 == key {
            assert(members[0] == (key, members[0].1));
        } else {
            let rest = members.drop_first();
            lemma_lookup(rest, key);
            match lookup(rest, key) {
                Some(found) => {
                    let i = choose|i: int|
                        {
                            &&& 0 <= i < rest.len()
                            &&& #[trigger] rest[i] == (key, found)
                            &&& forall|j: int| 0 <= j < i ==> (#[trigger] rest[j]).0 != key
                        };
                    assert(members[i + 1] == (key, found));
                    assert forall|j: int| 0 <= j < i + 1 implies (#[trigger] members[j]).0
                        != key by {
                        if j > 0 {
                            assert(rest[j - 1] == members[j]);
                        }
                    }
                },
                None => {
                    assert forall|j: int| 0 <= j < members.len() implies (#[trigger] members[j]).0
                        != key by {
                        if j > 0 {
                            assert(rest[j - 1] == members[j]);
                        }
                    }
                },
            }
        }
    }
}

} // verus!
