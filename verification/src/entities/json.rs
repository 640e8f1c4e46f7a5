use vstd::prelude::*;

verus! {

/// A parsed JSON document, holding what the loaders read of it.
///
/// `Object` keeps its members in the order in which the parser's map walks
/// them. The loaders read each member's own value, so they depend neither on
/// that order nor on the keys being distinct.
/// `Number` holds the number's value when it is a non-negative integer that
/// fits in a `u64`, and `None` for any other number.
pub enum JsonValue {
    Null,
    Bool(bool),
    Number(Option<u64>),
    Str(String),
    Array(Vec<JsonValue>),
    Object(Vec<(String, JsonValue)>),
}

/// The value of the first member of `members` whose key is `key`.
pub open spec fn lookup(members: Seq<(String, JsonValue)>, key: Seq<char>) -> Option<JsonValue>
    decreases members.len(),
{
    if members.len() == 0 {
        None
    } else if members[0].0@ == key {
        Some(members[0].1)
    } else {
        lookup(members.drop_first(), key)
    }
}

/// `value[key]` when `value` is an object that has the member; `None` for any
/// other value.
pub open spec fn spec_get(value: JsonValue, key: Seq<char>) -> Option<JsonValue> {
    match value {
        JsonValue::Object(members) => lookup(members@, key),
        _ => None,
    }
}

/// `spec_get` lifted over an absent value.
pub open spec fn get_in(value: Option<JsonValue>, key: Seq<char>) -> Option<JsonValue> {
    match value {
        Some(v) => spec_get(v, key),
        None => None,
    }
}

pub open spec fn spec_as_str(value: Option<JsonValue>) -> Option<Seq<char>> {
    match value {
        Some(JsonValue::Str(s)) => Some(s@),
        _ => None,
    }
}

pub open spec fn spec_as_bool(value: Option<JsonValue>) -> Option<bool> {
    match value {
        Some(JsonValue::Bool(b)) => Some(b),
        _ => None,
    }
}

pub open spec fn spec_as_u64(value: Option<JsonValue>) -> Option<u64> {
    match value {
        Some(JsonValue::Number(n)) => n,
        _ => None,
    }
}

pub open spec fn spec_as_array(value: Option<JsonValue>) -> Option<Seq<JsonValue>> {
    match value {
        Some(JsonValue::Array(elems)) => Some(elems@),
        _ => None,
    }
}

pub open spec fn spec_as_object(value: Option<JsonValue>) -> Option<Seq<(String, JsonValue)>> {
    match value {
        Some(JsonValue::Object(members)) => Some(members@),
        _ => None,
    }
}

/// Whether `value` is the JSON string `s`.
pub open spec fn is_string(value: JsonValue, s: Seq<char>) -> bool {
    value matches JsonValue::Str(t) && t@ == s
}

/// Whether `elems` holds the JSON string `s`.
pub open spec fn contains_string(elems: Seq<JsonValue>, s: Seq<char>) -> bool {
    exists|i: int| 0 <= i < elems.len() && #[trigger] is_string(elems[i], s)
}

impl JsonValue {
    /// The member `key` of an object; `None` for a missing member or a value
    /// that is not an object.
    pub fn get(&self, key: &str) -> (r: Option<&JsonValue>)
        ensures
            match r {
                Some(v) => spec_get(*self, key@) == Some(*v),
                None => spec_get(*self, key@) is None,
            },
    {
        match self {
            JsonValue::Object(members) => get_member(members, key),
            _ => None,
        }
    }

    pub fn as_str(&self) -> (r: Option<&String>)
        ensures
            match r {
                Some(s) => spec_as_str(Some(*self)) == Some(s@),
                None => spec_as_str(Some(*self)) is None,
            },
    {
        match self {
            JsonValue::Str(s) => Some(s),
            _ => None,
        }
    }

    pub fn as_bool(&self) -> (r: Option<bool>)
        ensures
            r == spec_as_bool(Some(*self)),
    {
        match self {
            JsonValue::Bool(b) => Some(*b),
            _ => None,
        }
    }

    pub fn as_u64(&self) -> (r: Option<u64>)
        ensures
            r == spec_as_u64(Some(*self)),
    {
        match self {
            JsonValue::Number(n) => *n,
            _ => None,
        }
    }

    pub fn as_array(&self) -> (r: Option<&Vec<JsonValue>>)
        ensures
            match r {
                Some(a) => spec_as_array(Some(*self)) == Some(a@),
                None => spec_as_array(Some(*self)) is None,
            },
    {
        match self {
            JsonValue::Array(elems) => Some(elems),
            _ => None,
        }
    }

    pub fn as_object(&self) -> (r: Option<&Vec<(String, JsonValue)>>)
        ensures
            match r {
                Some(m) => spec_as_object(Some(*self)) == Some(m@),
                None => spec_as_object(Some(*self)) is None,
            },
    {
        match self {
            JsonValue::Object(members) => Some(members),
            _ => None,
        }
    }
}

/// The value of the member `key` of an object's `members` (the first one
/// with that key).
pub fn get_member<'a>(members: &'a Vec<(String, JsonValue)>, key: &str) -> (r: Option<&'a JsonValue>)
    ensures
        match r {
            Some(v) => lookup(members@, key@) == Some(*v),
            None => lookup(members@, key@) is None,
        },
{
    let wanted = key.to_owned();
    let mut i: usize = 0;
    assert(members@.skip(0) =~= members@);
    while i < members.len()
        invariant
            i <= members@.len(),
            wanted@ == key@,
            lookup(members@, key@) == lookup(members@.skip(i as int), key@),
        decreases members@.len() - i,
    {
        assert(members@.skip(i as int).drop_first() =~= members@.skip(i + 1));
        assert(members@.skip(i as int)[0] == members@[i as int]);
        if members[i].0 == wanted {
            assert(lookup(members@.skip(i as int), key@) == Some(members@[i as int].1));
            return Some(&members[i].1);
        }
        i = i + 1;
    }
    assert(members@.skip(i as int).len() == 0);
    None
}

/// Whether the array `elems` holds the string `s` (`Vec::contains` with
/// `Value::String(s)`).
pub fn array_contains_string(elems: &Vec<JsonValue>, s: &str) -> (r: bool)
    ensures
        r == contains_string(elems@, s@),
{
    let wanted = s.to_owned();
    let mut i: usize = 0;
    while i < elems.len()
        invariant
            i <= elems@.len(),
            wanted@ == s@,
            forall|j: int| 0 <= j < i ==> !#[trigger] is_string(elems@[j], s@),
        decreases elems@.len() - i,
    {
        match &elems[i] {
            JsonValue::Str(t) => {
                if *t == wanted {
                    assert(is_string(elems@[i as int], s@));
                    return true;
                }
            },
            _ => {},
        }
        i = i + 1;
    }
    false
}


/// `serde_json`'s document type, carried from the parser to the conversion
/// into `JsonValue`.
#[verifier::external_type_specification]
#[verifier::external_body]
pub struct SerdeJsonValue(serde_json::Value);

/// The `JsonValue` holding what `value` holds, variant for variant
/// (`serde_json::Number::as_u64` for numbers).
///
/// Trusted: a conversion with no contract of its own; only `parse_json` uses
/// it.
#[verifier::external_body]
fn from_serde(value: &serde_json::Value) -> JsonValue {
    match value {
        serde_json::Value::Null => JsonValue::Null,
        serde_json::Value::Bool(b) => JsonValue::Bool(*b),
        serde_json::Value::Number(n) => JsonValue::Number(n.as_u64()),
        serde_json::Value::String(s) => JsonValue::Str(s.clone()),
        serde_json::Value::Array(elems) => JsonValue::Array(elems.iter().map(from_serde).collect()),
        serde_json::Value::Object(members) => JsonValue::Object(
            members.iter().map(|(key, member)| (key.clone(), from_serde(member))).collect(),
        ),
    }
}

/// The document that `serde_json` parses out of `bytes`, or `None` when they
/// are not a JSON document.
pub uninterp spec fn spec_parse_json(bytes: Seq<u8>) -> Option<JsonValue>;

/// Parses a JSON document with `serde_json::from_slice` into a
/// `serde_json::Value`, and converts it.
///
/// Trusted: the contract names the result (`spec_parse_json` of the bytes);
/// `from_slice` is deterministic and does not panic, and returns an error for
/// bytes that are not a JSON document, which becomes `None`. What document it
/// builds is not stated.
#[verifier::external_body]
pub fn parse_json(bytes: &[u8]) -> (r: Option<JsonValue>)
    ensures
        r == spec_parse_json(bytes@),
{
    serde_json::from_slice::<serde_json::Value>(bytes).ok().map(|value| from_serde(&value))
}

} // verus!
