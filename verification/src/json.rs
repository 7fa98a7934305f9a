//! What is read of small JSON documents: of an object the members, each as far
//! as anything here looks at it.
use vstd::prelude::*;

use crate::text::same;
use crate::text;

verus! {

/// A member of a JSON object. Of a number it is kept whether it is a whole
/// number from 0 on that fits in 64 bits; of an array or an object nothing.
#[derive(Debug, PartialEq, Eq)]
pub enum JsonField {
    Null,
    Bool(bool),
    Unsigned(u64),
    OtherNumber,
    Text(String),
    Array,
    Object,
}

/// A JSON document: the members of an object, or a value of another kind.
#[derive(Debug, PartialEq, Eq)]
pub enum JsonDoc {
    Object(Vec<(String, JsonField)>),
    Plain(JsonField),
}

/// What a `JsonField` says.
pub enum Field {
    Null,
    Bool(bool),
    Unsigned(u64),
    OtherNumber,
    Text(Seq<char>),
    Array,
    Object,
}

/// What a `JsonDoc` says.
pub enum Doc {
    Object(Seq<(Seq<char>, Field)>),
    Plain(Field),
}

impl View for JsonField {
    type V = Field;

    open spec fn view(&self) -> Field {
        match self {
            JsonField::Null => Field::Null,
            JsonField::Bool(b) => Field::Bool(*b),
            JsonField::Unsigned(n) => Field::Unsigned(*n),
            JsonField::OtherNumber => Field::OtherNumber,
            JsonField::Text(s) => Field::Text(s@),
            JsonField::Array => Field::Array,
            JsonField::Object => Field::Object,
        }
    }
}

/// The members that a vector holds.
pub open spec fn members(v: Seq<(String, JsonField)>) -> Seq<(Seq<char>, Field)> {
    Seq::new(v.len(), |i: int| (v[i].0@, v[i].1@))
}

impl View for JsonDoc {
    type V = Doc;

    open spec fn view(&self) -> Doc {
        match self {
            JsonDoc::Object(v) => Doc::Object(members(v@)),
            JsonDoc::Plain(f) => Doc::Plain(f@),
        }
    }
}

/// What an optional document says.
pub open spec fn opt_doc(o: Option<JsonDoc>) -> Option<Doc> {
    match o {
        Some(d) => Some(d@),
        None => None,
    }
}

/// What `serde_json` reads of a text; nothing where it is no JSON.
pub uninterp spec fn json_document(text: Seq<char>) -> Option<Doc>;

/// `serde_json::from_str` into a `serde_json::Value`: the document, by its kind and
/// of an object each member by its kind, or nothing where it reports an error. A number is
/// `Unsigned` where `serde_json::Number::as_u64` gives its value.
#[verifier::external_body]
pub(crate) fn read_json(text: &str) -> (r: Option<JsonDoc>)
    ensures
        opt_doc(r) == json_document(text@),
{
    let field = |value| match value {
        serde_json::Value::Null => JsonField::Null,
        serde_json::Value::Bool(b) => JsonField::Bool(b),
        serde_json::Value::Number(n) => n.as_u64().map_or(JsonField::OtherNumber, JsonField::Unsigned),
        serde_json::Value::String(s) => JsonField::Text(s),
        serde_json::Value::Array(_) => JsonField::Array,
        serde_json::Value::Object(_) => JsonField::Object,
    };
    Some(match serde_json::from_str(text).ok()? {
        serde_json::Value::Object(m) => JsonDoc::Object(m.into_iter().map(|(k, v)| (k, field(v))).collect()),
        other => JsonDoc::Plain(field(other)),
    })
}

/// The member of that name, among those from the `i`-th on.
pub open spec fn member_from(m: Seq<(Seq<char>, Field)>, key: Seq<char>, i: int) -> Option<Field>
    decreases m.len() - i,
    when 0 <= i <= m.len()
{
    if i == m.len() {
        None
    } else if m[i].0 == key {
        Some(m[i].1)
    } else {
        member_from(m, key, i + 1)
    }
}

/// The member of that name; none where the document is no object.
pub open spec fn member(d: Doc, key: Seq<char>) -> Option<Field> {
    match d {
        Doc::Object(m) => member_from(m, key, 0),
        _ => None,
    }
}

impl JsonDoc {
    /// The member of that name.
    pub fn get(&self, key: &str) -> (r: Option<&JsonField>)
        ensures
            (match r {
                Some(f) => Some(f@),
                None => None,
            }) == member(self@, key@),
    {
        match self {
            JsonDoc::Object(v) => {
                let mut i: usize = 0;
                while i < v.len()
                    invariant
                        i <= v@.len(),
                        self@ == Doc::Object(members(v@)),
                        member_from(members(v@), key@, 0) == member_from(
                            members(v@),
                            key@,
                            i as int,
                        ),
                    decreases v@.len() - i,
                {
                    assert(members(v@)[i as int] == (v@[i as int].0@, v@[i as int].1@));
                    if same(v[i].0.as_str(), key) {
                        return Some(&v[i].1);
                    }
                    i += 1;
                }
                None
            },
            _ => None,
        }
    }

    /// The whole number of that name.
    pub fn unsigned(&self, key: &str) -> (r: Option<u64>)
        ensures
            r == (match member(self@, key@) {
                Some(Field::Unsigned(n)) => Some(n),
                _ => None,
            }),
    {
        match self.get(key) {
            Some(JsonField::Unsigned(n)) => Some(*n),
            _ => None,
        }
    }

    /// The truth value of that name.
    pub fn boolean(&self, key: &str) -> (r: Option<bool>)
        ensures
            r == (match member(self@, key@) {
                Some(Field::Bool(b)) => Some(b),
                _ => None,
            }),
    {
        match self.get(key) {
            Some(JsonField::Bool(b)) => Some(*b),
            _ => None,
        }
    }

    /// The text of that name.
    pub fn string(&self, key: &str) -> (r: Option<&String>)
        ensures
            (match r {
                Some(s) => Some(s@),
                None => None,
            }) == (match member(self@, key@) {
                Some(Field::Text(s)) => Some(s),
                _ => None,
            }),
    {
        match self.get(key) {
            Some(JsonField::Text(s)) => Some(s),
            _ => None,
        }
    }
}

proof fn lemma_member(m: Seq<(Seq<char>, Field)>, key: Seq<char>, i: int, k: int)
    requires
        0 <= i <= k <= m.len(),
        forall|j: int| i <= j < k ==> (#[trigger] m[j]).0 != key,
        k < m.len() ==> m[k].0 == key,
    ensures
        member_from(m, key, i) == (if k < m.len() {
            Some(m[k].1)
        } else {
            None
        }),
    decreases k - i,
{
    if i < k {
        assert(m[i].0 != key);
        lemma_member(m, key, i + 1, k);
    }
}

/// A member of an object is found by its key, and none where no member has that key;
/// what is no object has no members.
pub proof fn members_are_found_by_their_keys(
    m: Seq<(Seq<char>, Field)>,
    f: Field,
    key: Seq<char>,
    k: int,
)
    requires
        0 <= k <= m.len(),
        forall|j: int| 0 <= j < k ==> (#[trigger] m[j]).0 != key,
        k < m.len() ==> m[k].0 == key,
    ensures
        k < m.len() ==> member(Doc::Object(m), key) == Some(m[k].1),
        k == m.len() ==> member(Doc::Object(m), key) is None,
        member(Doc::Plain(f), key) is None,
{
    lemma_member(m, key, 0, k);
}

} // verus!
