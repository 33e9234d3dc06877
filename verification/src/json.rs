//! JSON values as far as they are read here.
use crate::text::text_eq;
use vstd::prelude::*;

verus! {

/// A JSON value. The members of an object are in the order in which they are
/// walked.
#[derive(Debug)]
pub enum Json {
    Null,
    Bool(bool),
    Number(String),
    Text(String),
    List(Vec<Json>),
    Object(Vec<(String, Json)>),
}

/// A JSON value over plain values.
pub enum JsonModel {
    Null,
    Bool(bool),
    Number(Seq<char>),
    Text(Seq<char>),
    List(Seq<JsonModel>),
    Object(Seq<(Seq<char>, JsonModel)>),
}

/// A JSON value over plain values.
pub open spec fn json_model(j: Json) -> JsonModel
    decreases j,
{
    match j {
        Json::Null => JsonModel::Null,
        Json::Bool(b) => JsonModel::Bool(b),
        Json::Number(n) => JsonModel::Number(n@),
        Json::Text(t) => JsonModel::Text(t@),
        Json::List(v) => JsonModel::List(list_model(v@)),
        Json::Object(v) => JsonModel::Object(members_model(v@)),
    }
}

/// The values of a list over plain values.
pub open spec fn list_model(s: Seq<Json>) -> Seq<JsonModel>
    decreases s,
{
    if s.len() == 0 {
        Seq::empty()
    } else {
        list_model(s.drop_last()).push(json_model(s.last()))
    }
}

/// The members of an object over plain values.
pub open spec fn members_model(s: Seq<(String, Json)>) -> Seq<(Seq<char>, JsonModel)>
    decreases s,
{
    if s.len() == 0 {
        Seq::empty()
    } else {
        members_model(s.drop_last()).push((s.last().0@, json_model(s.last().1)))
    }
}

impl View for Json {
    type V = JsonModel;

    open spec fn view(&self) -> JsonModel {
        json_model(*self)
    }
}

pub proof fn lemma_list_model(s: Seq<Json>)
    ensures
        list_model(s).len() == s.len(),
        forall|i: int| 0 <= i < s.len() ==> #[trigger] list_model(s)[i] == json_model(s[i]),
    decreases s.len(),
{
    if s.len() > 0 {
        lemma_list_model(s.drop_last());
        assert forall|i: int| 0 <= i < s.len() implies #[trigger] list_model(s)[i] == json_model(
            s[i],
        ) by {
            if i < s.len() - 1 {
                assert(list_model(s.drop_last())[i] == json_model(s.drop_last()[i]));
            }
        }
    }
}

pub proof fn lemma_members_model(s: Seq<(String, Json)>)
    ensures
        members_model(s).len() == s.len(),
        forall|i: int|
            0 <= i < s.len() ==> #[trigger] members_model(s)[i] == (s[i].0@, json_model(s[i].1)),
    decreases s.len(),
{
    if s.len() > 0 {
        lemma_members_model(s.drop_last());
        assert forall|i: int| 0 <= i < s.len() implies #[trigger] members_model(s)[i] == (
            s[i].0@,
            json_model(s[i].1),
        ) by {
            if i < s.len() - 1 {
                assert(members_model(s.drop_last())[i] == (
                    s.drop_last()[i].0@,
                    json_model(s.drop_last()[i].1),
                ));
            }
        }
    }
}

/// The value of `serde_json`.
#[verifier::external_type_specification]
#[verifier::external_body]
pub struct ExValue(serde_json::Value);

/// The error of `serde_json`.
#[verifier::external_type_specification]
#[verifier::external_body]
pub struct ExJsonError(serde_json::Error);

/// What `serde_json::from_slice` reads out of bytes; nothing where it fails. It
/// depends on the bytes alone.
pub uninterp spec fn json_read(bytes: Seq<u8>) -> Option<JsonModel>;

/// A value of `serde_json` as one of this library's, variant for variant.
#[verifier::external_body]
fn json_of(v: serde_json::Value) -> (r: Json) {
    match v {
        serde_json::Value::Null => Json::Null,
        serde_json::Value::Bool(b) => Json::Bool(b),
        serde_json::Value::Number(n) => Json::Number(n.to_string()),
        serde_json::Value::String(s) => Json::Text(s),
        serde_json::Value::Array(a) => Json::List(a.into_iter().map(json_of).collect()),
        serde_json::Value::Object(m) => {
            Json::Object(m.into_iter().map(|(k, x)| (k, json_of(x))).collect())
        },
    }
}

/// `serde_json::from_slice`: the value that bytes hold, or the error. What it is,
/// is named and not said.
#[verifier::external_body]
pub(crate) fn read_json(bytes: &[u8]) -> (r: Result<Json, serde_json::Error>)
    ensures
        match r {
            Ok(j) => json_read(bytes@) == Some(j@),
            Err(_) => json_read(bytes@) is None,
        },
{
    serde_json::from_slice::<serde_json::Value>(bytes).map(json_of)
}

/// The first member of a list of members with a key.
pub open spec fn member(s: Seq<(Seq<char>, JsonModel)>, key: Seq<char>) -> Option<JsonModel>
    decreases s.len(),
{
    if s.len() == 0 {
        None
    } else if s[0].0 == key {
        Some(s[0].1)
    } else {
        member(s.drop_first(), key)
    }
}

/// The member of a value with a key, where the value is an object that has one.
pub open spec fn field(j: JsonModel, key: Seq<char>) -> Option<JsonModel> {
    match j {
        JsonModel::Object(s) => member(s, key),
        _ => None,
    }
}

/// The text that an optional value is.
pub open spec fn text_value(j: Option<JsonModel>) -> Option<Seq<char>> {
    match j {
        Some(JsonModel::Text(t)) => Some(t),
        _ => None,
    }
}

impl Json {
    /// The member with a key.
    pub fn get(&self, key: &str) -> (r: Option<&Json>)
        ensures
            match r {
                Some(j) => field(self@, key@) == Some(j@),
                None => field(self@, key@) is None,
            },
    {
        match self {
            Json::Object(v) => {
                let ghost s = members_model(v@);
                proof {
                    lemma_members_model(v@);
                }
                let mut i: usize = 0;
                assert(s.skip(0) =~= s);
                while i < v.len()
                    invariant
                        i <= v@.len(),
                        s.len() == v@.len(),
                        field(self@, key@) == member(s, key@),
                        forall|j: int| 0 <= j < s.len() ==> #[trigger] s[j] == (v@[j].0@, json_model(v@[j].1)),
                        member(s, key@) == member(s.skip(i as int), key@),
                    decreases v@.len() - i,
                {
                    assert(s.skip(i as int)[0] == s[i as int]);
                    if text_eq(v[i].0.as_str(), key) {
                        return Some(&v[i].1);
                    }
                    assert(s.skip(i as int).drop_first() =~= s.skip(i + 1));
                    i += 1;
                }
                None
            },
            _ => None,
        }
    }

    /// The text of the member with a key.
    pub fn text_field(&self, key: &str) -> (r: Option<&String>)
        ensures
            match r {
                Some(t) => text_value(field(self@, key@)) == Some(t@),
                None => text_value(field(self@, key@)) is None,
            },
    {
        match self.get(key) {
            Some(Json::Text(t)) => Some(t),
            _ => None,
        }
    }
}

} // verus!
