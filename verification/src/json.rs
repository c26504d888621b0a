//! A JSON value as the library reads it, and the fields that the chat
//! commands take out of a service's reply.
use vstd::prelude::*;
use crate::text::chars_of;

verus! {

/// A JSON value. Numbers are kept as their text: nothing here computes with them.
#[derive(Debug)]
pub enum JsonValue {
    Null,
    Bool(bool),
    Number(String),
    Str(String),
    Array(Vec<JsonValue>),
    Object(Vec<(String, JsonValue)>),
}

/// The value of the first member named `key` among `members`.
pub open spec fn find_member(members: Seq<(String, JsonValue)>, key: Seq<char>) -> Option<JsonValue>
    decreases members.len(),
{
    if members.len() == 0 {
        None
    } else if members[0].0@ == key {
        Some(members[0].1)
    } else {
        find_member(members.drop_first(), key)
    }
}

/// `v[key]`: the member `key` of an object; nothing (JSON `null` in
/// `serde_json`) for a missing member or a value that is not an object.
pub open spec fn member(v: Option<JsonValue>, key: Seq<char>) -> Option<JsonValue> {
    match v {
        Some(JsonValue::Object(members)) => find_member(members@, key),
        _ => None,
    }
}

/// `v[i]`: element `i` of an array; nothing when it is out of range or
/// the value is not an array.
pub open spec fn element(v: Option<JsonValue>, i: int) -> Option<JsonValue> {
    match v {
        Some(JsonValue::Array(items)) => if 0 <= i < items@.len() {
            Some(items@[i])
        } else {
            None
        },
        _ => None,
    }
}

/// `v.as_str()`: the text of a JSON string.
pub open spec fn as_text(v: Option<JsonValue>) -> Option<Seq<char>> {
    match v {
        Some(JsonValue::Str(s)) => Some(s@),
        _ => None,
    }
}

/// The answer of a chat-completion service: `choices[0].message.content`.
pub open spec fn chat_reply_content(v: JsonValue) -> Option<Seq<char>> {
    as_text(member(member(element(member(Some(v), "choices"@), 0), "message"@), "content"@))
}

/// The text field of an object: its `output` string, else its `text` string.
pub open spec fn output_or_text(v: Option<JsonValue>) -> Option<Seq<char>> {
    match as_text(member(v, "output"@)) {
        Some(s) => Some(s),
        None => as_text(member(v, "text"@)),
    }
}

/// The answer of a workflow agent: the `output` or `text` string of the
/// reply, or else of the first element when the reply is an array.
pub open spec fn agent_reply_text(v: JsonValue) -> Option<Seq<char>> {
    match output_or_text(Some(v)) {
        Some(s) => Some(s),
        None => match v {
            JsonValue::Array(items) => if items@.len() > 0 {
                output_or_text(Some(items@[0]))
            } else {
                None
            },
            _ => None,
        },
    }
}

/// The value that an optional reference points to.
pub open spec fn deref_value(v: Option<&JsonValue>) -> Option<JsonValue> {
    match v {
        Some(x) => Some(*x),
        None => None,
    }
}

fn text_eq(a: &String, b: &str) -> (r: bool)
    ensures
        r == (a@ == b@),
{
    let x = chars_of(a.as_str());
    let y = chars_of(b);
    if x.len() != y.len() {
        return false;
    }
    let mut i: usize = 0;
    while i < x.len()
        invariant
            x@ == a@,
            y@ == b@,
            x.len() == y.len(),
            i <= x.len(),
            forall|k: int| 0 <= k < i ==> x@[k] == y@[k],
        decreases x.len() - i,
    {
        if x[i] != y[i] {
            assert(x@[i as int] != y@[i as int]);
            return false;
        }
        i = i + 1;
    }
    assert(x@ =~= y@);
    true
}

/// `v[key]`.
pub fn get_member<'a>(v: Option<&'a JsonValue>, key: &str) -> (r: Option<&'a JsonValue>)
    ensures
        deref_value(r) == member(deref_value(v), key@),
{
    match v {
        Some(JsonValue::Object(members)) => {
            let mut i: usize = 0;
            assert(members@.skip(0) =~= members@);
            while i < members.len()
                invariant
                    member(deref_value(v), key@) == find_member(members@, key@),
                    i <= members.len(),
                    find_member(members@, key@) == find_member(members@.skip(i as int), key@),
                decreases members.len() - i,
            {
                assert(members@.skip(i as int).drop_first() =~= members@.skip(i + 1));
                if text_eq(&members[i].0, key) {
                    assert(members@.skip(i as int)[0] == members@[i as int]);
                    return Some(&members[i].1);
                }
                i = i + 1;
            }
            None
        },
        _ => None,
    }
}

/// `v[i]`.
pub fn get_element<'a>(v: Option<&'a JsonValue>, i: usize) -> (r: Option<&'a JsonValue>)
    ensures
        deref_value(r) == element(deref_value(v), i as int),
{
    match v {
        Some(JsonValue::Array(items)) => {
            if i < items.len() {
                Some(&items[i])
            } else {
                None
            }
        },
        _ => None,
    }
}

/// `v.as_str()`.
pub fn get_text(v: Option<&JsonValue>) -> (r: Option<String>)
    ensures
        r.deep_view() == as_text(deref_value(v)),
{
    match v {
        Some(JsonValue::Str(s)) => Some(s.clone()),
        _ => None,
    }
}

/// The answer text of a chat-completion reply, if it has one.
pub fn extract_chat_content(v: &JsonValue) -> (r: Option<String>)
    ensures
        r.deep_view() == chat_reply_content(*v),
{
    let choices = get_member(Some(v), "choices");
    let first = get_element(choices, 0);
    let message = get_member(first, "message");
    let content = get_member(message, "content");
    get_text(content)
}

fn output_or_text_exec(v: Option<&JsonValue>) -> (r: Option<String>)
    ensures
        r.deep_view() == output_or_text(deref_value(v)),
{
    match get_text(get_member(v, "output")) {
        Some(s) => Some(s),
        None => get_text(get_member(v, "text")),
    }
}

/// The answer text of a workflow agent's reply, if it has one.
pub fn extract_agent_output(v: &JsonValue) -> (r: Option<String>)
    ensures
        r.deep_view() == agent_reply_text(*v),
{
    match output_or_text_exec(Some(v)) {
        Some(s) => Some(s),
        None => match v {
            JsonValue::Array(items) => {
                if items.len() > 0 {
                    output_or_text_exec(Some(&items[0]))
                } else {
                    None
                }
            },
            _ => None,
        },
    }
}

/// `serde_json`'s value type, carried only inside the decoding below.
#[verifier::external_type_specification]
#[verifier::external_body]
pub struct ExSerdeJsonValue(serde_json::Value);

/// The value that `serde_json::from_str::<serde_json::Value>` decodes from
/// `text`, in the library's form, or `None` when `text` is not JSON.
pub uninterp spec fn decoded_json(text: Seq<char>) -> Option<JsonValue>;

/// Copies a decoded `serde_json` value into the library's form, variant by
/// variant (numbers by their text). Nothing is claimed of it here; what the
/// decoding gives is named by `decode_json`.
#[verifier::external_body]
fn json_from_serde(v: &serde_json::Value) -> JsonValue {
    match v {
        serde_json::Value::Null => JsonValue::Null,
        serde_json::Value::Bool(b) => JsonValue::Bool(*b),
        serde_json::Value::Number(n) => JsonValue::Number(n.to_string()),
        serde_json::Value::String(t) => JsonValue::Str(t.clone()),
        serde_json::Value::Array(items) => JsonValue::Array(items.iter().map(json_from_serde).collect()),
        serde_json::Value::Object(m) => JsonValue::Object(m.iter().map(|(k, x)| (k.clone(), json_from_serde(x))).collect()),
    }
}

/// Calls `serde_json::from_str::<serde_json::Value>` on `text`. The
/// contract only names the result `decoded_json(text@)`, a function of the
/// text alone (the JSON grammar is not restated here); a parse error gives
/// `None`.
#[verifier::external_body]
pub(crate) fn decode_json(text: &str) -> (r: Option<JsonValue>)
    ensures
        r == decoded_json(text@),
{
    match serde_json::from_str::<serde_json::Value>(text) {
        Ok(v) => Some(json_from_serde(&v)),
        Err(_) => None,
    }
}

/// The text re-printed by `serde_json::to_string_pretty` after
/// `serde_json::from_str`, or `text` itself where either fails.
pub uninterp spec fn pretty_json_text(text: Seq<char>) -> Seq<char>;

/// Pretty-prints the JSON text `text` with `serde_json` (decoding it with
/// `serde_json::from_str`, printing with `serde_json::to_string_pretty`),
/// falling back to `text` where that fails. The contract only names the
/// result `pretty_json_text(text@)`, a function of the text alone.
#[verifier::external_body]
pub(crate) fn pretty_json(text: &str) -> (r: String)
    ensures
        r@ == pretty_json_text(text@),
{
    match serde_json::from_str::<serde_json::Value>(text) {
        Ok(v) => serde_json::to_string_pretty(&v).unwrap_or_else(|_| text.to_string()),
        Err(_) => text.to_string(),
    }
}

/// The `output` string of an object's members, else their `text` string.
pub open spec fn members_output_or_text(ms: Seq<(String, JsonValue)>) -> Option<Seq<char>> {
    match find_member(ms, "output"@) {
        Some(JsonValue::Str(s)) => Some(s@),
        _ => match find_member(ms, "text"@) {
            Some(JsonValue::Str(s)) => Some(s@),
            _ => None,
        },
    }
}

/// A workflow's reply that is a list of items whose first item is an
/// object is answered with that item's `output` string, or else its `text`
/// string; a reply that is an object is answered with its own `output`,
/// else `text`, string.
pub proof fn law_agent_reply_reads_first_item(items: Vec<JsonValue>, ms: Vec<(String, JsonValue)>)
    ensures
        items@.len() > 0 && items@[0] == JsonValue::Object(ms) ==> agent_reply_text(
            JsonValue::Array(items),
        ) == members_output_or_text(ms@),
        agent_reply_text(JsonValue::Object(ms)) == members_output_or_text(ms@),
        items@.len() == 0 ==> agent_reply_text(JsonValue::Array(items)) == Option::<Seq<char>>::None,
{
}

} // verus!
