use vstd::prelude::*;

verus! {

/// A JSON number as serde_json holds it: its value as `i64` and as `u64` when
/// it is an integer in range, the bit pattern of its `f64` value, and its text.
pub struct JsonNumber {
    pub as_i64: Option<i64>,
    pub as_u64: Option<u64>,
    pub f64_bits: Option<u64>,
    pub text: String,
}

/// One JSON value; object members keep serde_json's (sorted, unique) key order.
pub enum JsonValue {
    Null,
    Bool(bool),
    Number(JsonNumber),
    Str(String),
    Array(Vec<JsonNode>),
    Object(Vec<(String, JsonNode)>),
}

/// A JSON value together with serde_json's compact serialization of it.
pub struct JsonNode {
    pub text: String,
    pub value: JsonValue,
}

#[verifier::external_type_specification]
#[verifier::external_body]
pub struct ExJsonValue(serde_json::Value);

#[verifier::external_type_specification]
#[verifier::external_body]
pub struct ExJsonNumber(serde_json::Number);

/// What `serde_json::from_str::<Value>` makes of a text: the parsed document,
/// or the error's message.
pub uninterp spec fn json_parse(text: Seq<char>) -> Result<JsonNode, Seq<char>>;

/// What std's float `str::parse` makes of a text: `None` when the text is not
/// a float literal, `Some(None)` for an infinite or NaN value, otherwise the
/// IEEE-754 bit pattern of the (finite) value.
pub uninterp spec fn float_parse_bits(text: Seq<char>) -> Option<Option<u64>>;

/// Converts a `serde_json::Number`: its `as_i64`, `as_u64`, the bit pattern of
/// its `as_f64`, and its `to_string()`.
#[verifier::external_body]
fn number_of(n: &serde_json::Number) -> JsonNumber {
    JsonNumber {
        as_i64: n.as_i64(),
        as_u64: n.as_u64(),
        f64_bits: n.as_f64().map(|x| x.to_bits()),
        text: n.to_string(),
    }
}

/// Converts a `serde_json::Value` into a [`JsonNode`], one variant for one
/// variant (numbers through `number_of`), each node keeping its `to_string()`.
#[verifier::external_body]
fn node_of(v: &serde_json::Value) -> JsonNode {
    let value = match v {
        serde_json::Value::Null => JsonValue::Null,
        serde_json::Value::Bool(b) => JsonValue::Bool(*b),
        serde_json::Value::Number(n) => JsonValue::Number(number_of(n)),
        serde_json::Value::String(s) => JsonValue::Str(s.clone()),
        serde_json::Value::Array(a) => JsonValue::Array(a.iter().map(node_of).collect()),
        serde_json::Value::Object(m) => JsonValue::Object(
            m.iter().map(|(k, x)| (k.clone(), node_of(x))).collect(),
        ),
    };
    JsonNode { text: v.to_string(), value }
}

/// `serde_json::from_str::<serde_json::Value>`: the parsed document, converted
/// by `node_of`, or the error's `to_string()`. The result is named, not stated.
#[verifier::external_body]
pub(crate) fn parse_json(text: &str) -> (r: Result<JsonNode, String>)
    ensures
        match r {
            Ok(n) => json_parse(text@) == Ok::<JsonNode, Seq<char>>(n),
            Err(e) => json_parse(text@) == Err::<JsonNode, Seq<char>>(e@),
        },
{
    match serde_json::from_str::<serde_json::Value>(text) {
        Ok(v) => Ok(node_of(&v)),
        Err(e) => Err(e.to_string()),
    }
}

/// std's float `str::parse` (the float type is fixed by
/// `serde_json::Number::from_f64`, which is `None` exactly for infinite and
/// NaN values), giving the bit pattern of a finite result. The result is
/// named, not stated.
#[verifier::external_body]
pub(crate) fn parse_float_bits(text: &str) -> (r: Option<Option<u64>>)
    ensures
        r == float_parse_bits(text@),
{
    match text.parse().ok().map(serde_json::Number::from_f64) {
        None => None,
        Some(None) => Some(None),
        Some(Some(n)) => Some(n.as_f64().map(|x| x.to_bits())),
    }
}

} // verus!
