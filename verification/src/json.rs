//! A JSON value as the library reads it.
use vstd::prelude::*;

verus! {

/// A JSON value: numbers are kept as the unsigned integer they denote, if
/// any.
pub enum Json {
    Null,
    Bool(bool),
    Number(Option<u64>),
    Str(String),
    Array(Vec<Json>),
    Object(Vec<(String, Json)>),
}

/// The mathematical value of a [`Json`].
pub enum JsonView {
    Null,
    Bool(bool),
    Number(Option<u64>),
    Str(Seq<char>),
    Array(Seq<JsonView>),
    Object(Seq<(Seq<char>, JsonView)>),
}

/// The value of a JSON tree.
pub open spec fn json_view(j: Json) -> JsonView
    decreases j,
{
    match j {
        Json::Null => JsonView::Null,
        Json::Bool(b) => JsonView::Bool(b),
        Json::Number(n) => JsonView::Number(n),
        Json::Str(s) => JsonView::Str(s@),
        Json::Array(v) => JsonView::Array(
            Seq::new(
                v@.len(),
                |i: int|
                    {
                        if 0 <= i < v@.len() {
                            json_view(v@[i])
                        } else {
                            JsonView::Null
                        }
                    },
            ),
        ),
        Json::Object(m) => JsonView::Object(
            Seq::new(
                m@.len(),
                |i: int|
                    {
                        if 0 <= i < m@.len() {
                            (m@[i].0@, json_view(m@[i].1))
                        } else {
                            (seq![], JsonView::Null)
                        }
                    },
            ),
        ),
    }
}


/// The value stored under `key` in the key-value pairs `m`, first match.
pub open spec fn lookup(m: Seq<(Seq<char>, JsonView)>, key: Seq<char>) -> Option<JsonView>
    decreases m.len(),
{
    if m.len() == 0 {
        None
    } else if m[0].0 == key {
        Some(m[0].1)
    } else {
        lookup(m.drop_first(), key)
    }
}

/// The member `key` of an object (what `value[key]` reads; `None` where
/// that is `null` for want of the member or of an object).
pub open spec fn json_field(j: JsonView, key: Seq<char>) -> Option<JsonView> {
    match j {
        JsonView::Object(m) => lookup(m, key),
        _ => None,
    }
}

/// The element `i` of an array (what `value[i]` reads; `None` where that is
/// `null`).
pub open spec fn json_index(j: JsonView, i: int) -> Option<JsonView> {
    match j {
        JsonView::Array(a) => if 0 <= i < a.len() {
            Some(a[i])
        } else {
            None
        },
        _ => None,
    }
}

/// The member `key` of an object, when it is a string.
pub open spec fn json_str_field(j: JsonView, key: Seq<char>) -> Option<Seq<char>> {
    match json_field(j, key) {
        Some(JsonView::Str(s)) => Some(s),
        _ => None,
    }
}

/// The member `key` of an object, when it is a number that fits in `u64`.
pub open spec fn json_u64_field(j: JsonView, key: Seq<char>) -> Option<u64> {
    match json_field(j, key) {
        Some(JsonView::Number(n)) => n,
        _ => None,
    }
}

/// Name for the JSON value that `serde_json` reads in `text`, `None` where
/// `text` is not JSON.
pub uninterp spec fn parsed_json(text: Seq<char>) -> Option<JsonView>;

/// `serde_json::Value`, a parsed JSON document; opaque here.
#[verifier::external_type_specification]
#[verifier::external_body]
pub struct ExValue(serde_json::Value);

/// Converts a parsed `serde_json::Value` into a [`Json`], variant by
/// variant; numbers keep their `Number::as_u64`. Only `parse_json` calls it.
#[verifier::external_body]
fn json_from_value(v: serde_json::Value) -> Json {
    match v {
        serde_json::Value::Null => Json::Null,
        serde_json::Value::Bool(b) => Json::Bool(b),
        serde_json::Value::Number(n) => Json::Number(n.as_u64()),
        serde_json::Value::String(s) => Json::Str(s),
        serde_json::Value::Array(a) => Json::Array(a.into_iter().map(json_from_value).collect()),
        serde_json::Value::Object(m) => Json::Object(
            m.into_iter().map(|(k, x)| (k, json_from_value(x))).collect(),
        ),
    }
}

/// Trusted: `serde_json::from_str::<serde_json::Value>`, converted to a
/// [`Json`]. The contract names the result; it is a function of `text`.
#[verifier::external_body]
pub(crate) fn parse_json(text: &str) -> (r: Option<Json>)
    ensures
        match r {
            Some(j) => parsed_json(text@) == Some(json_view(j)),
            None => parsed_json(text@) is None,
        },
{
    match serde_json::from_str::<serde_json::Value>(text) {
        Ok(v) => Some(json_from_value(v)),
        Err(_) => None,
    }
}

/// The value of an optional reference into a JSON tree.
pub open spec fn opt_view(r: Option<&Json>) -> Option<JsonView> {
    match r {
        Some(x) => Some(json_view(*x)),
        None => None,
    }
}

/// The member `key` of `j` if `j` is an object that has one.
pub fn field<'a>(j: &'a Json, key: &str) -> (r: Option<&'a Json>)
    ensures
        opt_view(r) == json_field(json_view(*j), key@),
{
    match j {
        Json::Object(m) => {
            let ghost mv = match json_view(*j) {
                JsonView::Object(x) => x,
                _ => seq![],
            };
            let k = String::from_str(key);
            let mut i: usize = 0;
            proof {
                assert(mv.skip(0) =~= mv);
            }
            while i < m.len()
                invariant
                    i <= m@.len(),
                    k@ == key@,
                    json_view(*j) == JsonView::Object(mv),
                    mv.len() == m@.len(),
                    forall|t: int| 0 <= t < m@.len() ==> #[trigger] mv[t] == (m@[t].0@, json_view(m@[t].1)),
                    lookup(mv, key@) == lookup(mv.skip(i as int), key@),
                decreases m@.len() - i,
            {
                proof {
                    assert(mv.skip(i as int).drop_first() =~= mv.skip(i as int + 1));
                    assert(mv.skip(i as int)[0] == mv[i as int]);
                }
                if m[i].0 == k {
                    proof {
                        assert(mv[i as int].0 == key@);
                        assert(lookup(mv.skip(i as int), key@) == Some(mv[i as int].1));
                    }
                    return Some(&m[i].1);
                }
                i = i + 1;
            }
            None
        },
        _ => None,
    }
}

/// The element `i` of `j` if `j` is an array that long.
pub fn index(j: &Json, i: usize) -> (r: Option<&Json>)
    ensures
        opt_view(r) == json_index(json_view(*j), i as int),
{
    match j {
        Json::Array(a) => {
            if i < a.len() {
                Some(&a[i])
            } else {
                None
            }
        },
        _ => None,
    }
}

/// The member `key` of `j`, when it is a string.
pub fn str_field(j: &Json, key: &str) -> (r: Option<String>)
    ensures
        match r {
            Some(s) => json_str_field(json_view(*j), key@) == Some(s@),
            None => json_str_field(json_view(*j), key@) is None,
        },
{
    match field(j, key) {
        Some(Json::Str(s)) => Some(s.clone()),
        _ => None,
    }
}

/// The member `key` of `j`, when it is a number that fits in `u64`.
pub fn u64_field(j: &Json, key: &str) -> (r: Option<u64>)
    ensures
        r == json_u64_field(json_view(*j), key@),
{
    match field(j, key) {
        Some(Json::Number(n)) => *n,
        _ => None,
    }
}
} // verus!
