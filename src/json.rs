//! JSON documents as plain data, read from text by serde_json.
use crate::order::views;
use vstd::prelude::*;

verus! {

#[verifier::external_type_specification]
#[verifier::external_body]
pub struct ExJsonValue(serde_json::Value);

/// A JSON value. A number keeps its value where it is a non-negative integer
/// that fits in `u64`, and is `Number(None)` otherwise.
#[derive(Debug)]
pub enum Json {
    Null,
    Bool(bool),
    Number(Option<u64>),
    Str(String),
    Array(Vec<Json>),
    Object(Vec<(String, Json)>),
}

/// The members of the JSON object that the text `s` holds, or `None` where the
/// text is not one JSON object. A function of the text alone: serde_json's
/// `Map` keeps one value per key (the last) and walks its keys in sorted order.
pub uninterp spec fn json_object_of(s: Seq<char>) -> Option<Seq<(String, Json)>>;

/// The diagnostic that serde_json gives for the text `s` where it is not one
/// JSON object (its message with line and column).
pub uninterp spec fn json_error_of(s: Seq<char>) -> Seq<char>;

pub open spec fn member_keys_distinct(ms: Seq<(String, Json)>) -> bool {
    forall|i: int, j: int| 0 <= i < j < ms.len() ==> ms[i].0@ != ms[j].0@
}

/// Relies on serde_json::from_str into a serde_json::Map, which keeps one
/// value per key: it succeeds exactly when the text is one JSON object and
/// hands back its members; else it hands back serde_json::Error's Display.
#[verifier::external_body]
pub(crate) fn parse_json_object(s: &str) -> (r: Result<Vec<(String, Json)>, String>)
    ensures
        r is Ok <==> json_object_of(s@) is Some,
        r matches Ok(m) ==> json_object_of(s@) == Some(m@) && member_keys_distinct(m@),
        r matches Err(e) ==> e@ == json_error_of(s@),
{
    match serde_json::from_str::<serde_json::Map<String, serde_json::Value>>(s) {
        Ok(m) => Ok(m.into_iter().map(|(k, v)| (k, json_from_value(v))).collect()),
        Err(e) => Err(e.to_string()),
    }
}

/// Converts serde_json's tree into `Json` node for node, a number through
/// serde_json::Number::as_u64. Only `parse_json_object`'s body calls it, and
/// that function's contract covers what it hands back.
#[verifier::external_body]
fn json_from_value(v: serde_json::Value) -> Json {
    match v {
        serde_json::Value::Null => Json::Null,
        serde_json::Value::Bool(b) => Json::Bool(b),
        serde_json::Value::Number(n) => Json::Number(n.as_u64()),
        serde_json::Value::String(s) => Json::Str(s),
        serde_json::Value::Array(a) => Json::Array(a.into_iter().map(json_from_value).collect()),
        serde_json::Value::Object(m) => Json::Object(
            m.into_iter().map(|(k, x)| (k, json_from_value(x))).collect(),
        ),
    }
}

/// The value of the last member named `key`.
pub open spec fn member(ms: Seq<(String, Json)>, key: Seq<char>) -> Option<Json>
    decreases ms.len(),
{
    if ms.len() == 0 {
        None
    } else if ms.last().0@ == key {
        Some(ms.last().1)
    } else {
        member(ms.drop_last(), key)
    }
}

pub open spec fn text_of(v: Json) -> Option<Seq<char>> {
    match v {
        Json::Str(s) => Some(s@),
        _ => None,
    }
}

/// An array whose items are all strings, as their texts.
pub open spec fn text_list_of(v: Json) -> Option<Seq<Seq<char>>> {
    match v {
        Json::Array(a) => if forall|i: int| 0 <= i < a@.len() ==> (#[trigger] a@[i]) is Str {
            Some(Seq::new(a@.len(), |i: int| a@[i]->Str_0@))
        } else {
            None
        },
        _ => None,
    }
}

pub fn find_member<'a>(ms: &'a Vec<(String, Json)>, key: &String) -> (r: Option<&'a Json>)
    ensures
        r is Some <==> member(ms@, key@) is Some,
        r matches Some(v) ==> *v == member(ms@, key@)->0,
{
    let mut i: usize = ms.len();
    assert(ms@.take(i as int) =~= ms@);
    while i > 0
        invariant
            i <= ms.len(),
            member(ms@, key@) == member(ms@.take(i as int), key@),
        decreases i,
    {
        let ghost t = ms@.take(i as int);
        assert(t.drop_last() =~= ms@.take(i - 1));
        i = i - 1;
        if ms[i].0 == *key {
            return Some(&ms[i].1);
        }
    }
    None
}

pub fn get_text(v: &Json) -> (r: Option<String>)
    ensures
        r is Some <==> text_of(*v) is Some,
        r matches Some(s) ==> s@ == text_of(*v)->0,
{
    match v {
        Json::Str(s) => Some(s.clone()),
        _ => None,
    }
}

pub fn get_text_list(v: &Json) -> (r: Option<Vec<String>>)
    ensures
        r is Some <==> text_list_of(*v) is Some,
        r matches Some(l) ==> views(l@) == text_list_of(*v)->0,
{
    match v {
        Json::Array(a) => {
            let mut out: Vec<String> = Vec::new();
            let mut i: usize = 0;
            while i < a.len()
                invariant
                    *v == Json::Array(*a),
                    i <= a.len(),
                    out.len() == i,
                    forall|j: int| 0 <= j < i ==> (#[trigger] a@[j]) is Str && out@[j]@ == a@[j]->Str_0@,
                decreases a.len() - i,
            {
                match &a[i] {
                    Json::Str(s) => out.push(s.clone()),
                    _ => {
                        assert(!(a@[i as int] is Str));
                        return None;
                    },
                }
                i = i + 1;
            }
            assert(views(out@) =~= Seq::new(a@.len(), |i: int| a@[i]->Str_0@));
            Some(out)
        },
        _ => None,
    }
}

} // verus!
