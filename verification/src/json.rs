//! JSON values as the service sends and takes them.
use crate::text;
use vstd::prelude::*;

verus! {

/// A JSON value.
pub enum Json {
    Null,
    Bool(bool),
    /// A whole number from zero on.
    Unsigned(u64),
    /// A whole number below zero.
    Negative(i64),
    /// Any other number, as it is written.
    Decimal(String),
    Text(String),
    Array(Vec<Json>),
    /// The members in their order; of two with one key the first counts.
    Object(Vec<Member>),
}

/// A key of an object and its value.
pub struct Member {
    pub key: String,
    pub value: Json,
}

/// A JSON value with its strings as characters.
pub enum Tree {
    Null,
    Bool(bool),
    Unsigned(u64),
    Negative(i64),
    Decimal(Seq<char>),
    Text(Seq<char>),
    Array(Seq<Tree>),
    Object(Seq<(Seq<char>, Tree)>),
}

impl Json {
    /// The value with its strings as characters.
    pub open spec fn tree(self) -> Tree
        decreases self,
    {
        match self {
            Json::Null => Tree::Null,
            Json::Bool(b) => Tree::Bool(b),
            Json::Unsigned(n) => Tree::Unsigned(n),
            Json::Negative(n) => Tree::Negative(n),
            Json::Decimal(s) => Tree::Decimal(s@),
            Json::Text(s) => Tree::Text(s@),
            Json::Array(items) => Tree::Array(
                Seq::new(
                    items@.len(),
                    |i: int|
                        if 0 <= i < items@.len() {
                            items@[i].tree()
                        } else {
                            Tree::Null
                        },
                ),
            ),
            Json::Object(members) => Tree::Object(
                Seq::new(
                    members@.len(),
                    |i: int|
                        if 0 <= i < members@.len() {
                            (members@[i].key@, members@[i].value.tree())
                        } else {
                            (Seq::empty(), Tree::Null)
                        },
                ),
            ),
        }
    }

    /// The value of the member `key`, where this is an object that has one.
    pub open spec fn field(self, key: Seq<char>) -> Option<Json> {
        match self {
            Json::Object(members) => member_value(members@, key),
            _ => None,
        }
    }

    /// The characters, where this is a string.
    pub open spec fn text(self) -> Option<Seq<char>> {
        match self {
            Json::Text(s) => Some(s@),
            _ => None,
        }
    }

    /// The characters of the member `key`, where it is a string.
    pub open spec fn field_text(self, key: Seq<char>) -> Option<Seq<char>> {
        match self.field(key) {
            Some(v) => v.text(),
            None => None,
        }
    }

    /// The whole number of the member `key`, where it is one and a machine number holds it.
    pub open spec fn field_count(self, key: Seq<char>) -> Option<usize> {
        match self.field(key) {
            Some(Json::Unsigned(n)) => if n <= usize::MAX {
                Some(n as usize)
            } else {
                None
            },
            _ => None,
        }
    }

    /// The value of the member `key`.
    pub fn get(&self, key: &str) -> (r: Option<&Json>)
        ensures
            self.field(key@) == (match r {
                Some(v) => Some(*v),
                None => None,
            }),
    {
        match self {
            Json::Object(members) => {
                let i: usize = member_index(members, key);
                if i < members.len() {
                    Some(&members[i].value)
                } else {
                    None
                }
            },
            _ => None,
        }
    }

    /// The value of the member `key`, taken out of the object.
    pub fn take(self, key: &str) -> (r: Option<Json>)
        ensures
            r == self.field(key@),
    {
        match self {
            Json::Object(members) => {
                let mut members = members;
                let i: usize = member_index(&members, key);
                if i < members.len() {
                    Some(members.swap_remove(i).value)
                } else {
                    None
                }
            },
            _ => None,
        }
    }

    /// The string, where this is one.
    pub fn as_str(&self) -> (r: Option<&str>)
        ensures
            self.text() == (match r {
                Some(s) => Some(s@),
                None => None,
            }),
    {
        match self {
            Json::Text(s) => Some(s.as_str()),
            _ => None,
        }
    }

    /// The items, where this is an array.
    pub fn as_array(&self) -> (r: Option<&Vec<Json>>)
        ensures
            r == (match *self {
                Json::Array(items) => Some(&items),
                _ => None,
            }),
    {
        match self {
            Json::Array(items) => Some(items),
            _ => None,
        }
    }

    /// The whole number, where this is one from zero on.
    pub fn as_u64(&self) -> (r: Option<u64>)
        ensures
            r == (match *self {
                Json::Unsigned(n) => Some(n),
                _ => None,
            }),
    {
        match self {
            Json::Unsigned(n) => Some(*n),
            _ => None,
        }
    }

    /// The string of the member `key`.
    pub fn get_str(&self, key: &str) -> (r: Option<&str>)
        ensures
            self.field_text(key@) == (match r {
                Some(s) => Some(s@),
                None => None,
            }),
    {
        match self.get(key) {
            Some(v) => v.as_str(),
            None => None,
        }
    }

    /// The whole number of the member `key`, where a machine number holds it.
    pub fn get_count(&self, key: &str) -> (r: Option<usize>)
        ensures
            r == self.field_count(key@),
    {
        match self.get(key) {
            Some(Json::Unsigned(n)) => if *n <= usize::MAX as u64 {
                Some(*n as usize)
            } else {
                None
            },
            _ => None,
        }
    }

    /// A string value.
    pub fn string(s: &str) -> (r: Json)
        ensures
            r.tree() == Tree::Text(s@),
    {
        Json::Text(s.to_owned())
    }

    /// An array of the items.
    pub fn array(items: Vec<Json>) -> (r: Json)
        ensures
            r == Json::Array(items),
            r.tree() == Tree::Array(trees(items@)),
    {
        let r = Json::Array(items);
        assert(r.tree()->Array_0 =~= trees(items@));
        r
    }

    /// An object of the members.
    pub fn object(members: Vec<Member>) -> (r: Json)
        ensures
            r == Json::Object(members),
            r.tree() == Tree::Object(member_trees(members@)),
    {
        let r = Json::Object(members);
        assert(r.tree()->Object_0 =~= member_trees(members@));
        r
    }
}

/// The items with their strings as characters.
pub open spec fn trees(items: Seq<Json>) -> Seq<Tree> {
    Seq::new(items.len(), |i: int| items[i].tree())
}

/// The members with their strings as characters.
pub open spec fn member_trees(members: Seq<Member>) -> Seq<(Seq<char>, Tree)> {
    Seq::new(members.len(), |i: int| (members[i].key@, members[i].value.tree()))
}

/// The value of the first member with that key.
pub open spec fn member_value(members: Seq<Member>, key: Seq<char>) -> Option<Json>
    decreases members.len(),
{
    if members.len() == 0 {
        None
    } else if members[0].key@ == key {
        Some(members[0].value)
    } else {
        member_value(members.drop_first(), key)
    }
}

/// The place of the first member with that key, or the number of members.
fn member_index(members: &Vec<Member>, key: &str) -> (i: usize)
    ensures
        i <= members@.len(),
        member_value(members@, key@) == (if i < members@.len() {
            Some(members@[i as int].value)
        } else {
            None
        }),
{
    let mut i: usize = 0;
    assert(members@.skip(0) =~= members@);
    while i < members.len()
        invariant
            i <= members@.len(),
            member_value(members@, key@) == member_value(members@.skip(i as int), key@),
        decreases members@.len() - i,
    {
        if text::same(members[i].key.as_str(), key) {
            return i;
        }
        assert(members@.skip(i as int).drop_first() =~= members@.skip(i + 1));
        i += 1;
    }
    i
}

/// A member of an object.
pub fn member(key: &str, value: Json) -> (r: Member)
    ensures
        r.key@ == key@,
        r.value == value,
{
    Member { key: key.to_owned(), value }
}

proof fn lemma_first_member(members: Seq<Member>, key: Seq<char>, i: int)
    requires
        0 <= i < members.len(),
        members[i].key@ == key,
        forall|j: int| 0 <= j < i ==> (#[trigger] members[j]).key@ != key,
    ensures
        member_value(members, key) == Some(members[i].value),
    decreases members.len(),
{
    if i > 0 {
        let rest = members.drop_first();
        assert(members[0].key@ != key);
        assert(rest[i - 1] == members[i]);
        assert forall|j: int| 0 <= j < i - 1 implies (#[trigger] rest[j]).key@ != key by {
            assert(rest[j] == members[j + 1]);
        }
        lemma_first_member(rest, key, i - 1);
    }
}

proof fn lemma_no_member(members: Seq<Member>, key: Seq<char>)
    requires
        forall|j: int| 0 <= j < members.len() ==> (#[trigger] members[j]).key@ != key,
    ensures
        member_value(members, key) is None,
    decreases members.len(),
{
    if members.len() > 0 {
        let rest = members.drop_first();
        assert(members[0].key@ != key);
        assert forall|j: int| 0 <= j < rest.len() implies (#[trigger] rest[j]).key@ != key by {
            assert(rest[j] == members[j + 1]);
        }
        lemma_no_member(rest, key);
    }
}

/// A member is found by its key, the first of those that have it, and read as what it is: a string
/// gives its characters and no number, a whole number gives itself and no characters.
pub proof fn lemma_a_member_is_found(object: Json, members: Vec<Member>, key: Seq<char>, i: int)
    requires
        object == Json::Object(members),
        0 <= i < members@.len(),
        members@[i].key@ == key,
        forall|j: int| 0 <= j < i ==> (#[trigger] members@[j]).key@ != key,
    ensures
        object.field(key) == Some(members@[i].value),
        members@[i].value matches Json::Text(s) ==> object.field_text(key) == Some(s@)
            && object.field_count(key) is None,
        members@[i].value matches Json::Unsigned(n) ==> object.field_text(key) is None
            && object.field_count(key) == (if n <= usize::MAX {
            Some(n as usize)
        } else {
            None
        }),
        !(members@[i].value is Text) ==> object.field_text(key) is None,
        !(members@[i].value is Unsigned) ==> object.field_count(key) is None,
{
    lemma_first_member(members@, key, i);
}

/// A value that is no object, or has no member of that key, gives nothing.
pub proof fn lemma_no_member_is_found(value: Json, key: Seq<char>)
    requires
        value matches Json::Object(members) ==> forall|j: int|
            0 <= j < members@.len() ==> (#[trigger] members@[j]).key@ != key,
    ensures
        value.field(key) is None,
        value.field_text(key) is None,
        value.field_count(key) is None,
{
    if value is Object {
        lemma_no_member(value->Object_0@, key);
    }
}

} // verus!
