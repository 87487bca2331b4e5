//! JSON documents as plain values, and the parse of a JSON text into one.
use vstd::prelude::*;

verus! {

/// A JSON value. A number is held as its text; object members are in the order
/// the parser keeps them, each key once.
#[derive(Debug)]
pub enum JsonValue {
    Null,
    Bool(bool),
    Number(String),
    Str(String),
    Array(Vec<JsonValue>),
    Object(Vec<(String, JsonValue)>),
}

#[verifier::external_type_specification]
#[verifier::external_body]
pub struct ExParsedJson(serde_json::Value);

/// What `serde_json::from_str` makes of a text: the document, or the text of the
/// error it reports.
pub uninterp spec fn json_from_str(text: Seq<char>) -> Result<JsonValue, Seq<char>>;

/// Converts a `serde_json::Value` into a `JsonValue`, variant by variant.
#[verifier::external_body]
fn json_of_value(v: serde_json::Value) -> JsonValue {
    match v {
        serde_json::Value::Null => JsonValue::Null,
        serde_json::Value::Bool(b) => JsonValue::Bool(b),
        serde_json::Value::Number(n) => JsonValue::Number(n.to_string()),
        serde_json::Value::String(s) => JsonValue::Str(s),
        serde_json::Value::Array(a) => JsonValue::Array(a.into_iter().map(json_of_value).collect()),
        serde_json::Value::Object(m) => JsonValue::Object(m.into_iter().map(|(k, x)| (k, json_of_value(x))).collect()),
    }
}

/// Parses `text` with `serde_json::from_str` into a `serde_json::Value`, converted
/// into a `JsonValue`; an error comes back as its text. The outcome is
/// `json_from_str(text)`.
#[verifier::external_body]
pub(crate) fn parse_json(text: &str) -> (r: Result<JsonValue, String>)
    ensures
        match (r, json_from_str(text@)) {
            (Ok(v), Ok(w)) => v == w,
            (Err(e), Err(m)) => e@ == m,
            _ => false,
        },
{
    match serde_json::from_str::<serde_json::Value>(text) {
        Ok(v) => Ok(json_of_value(v)),
        Err(e) => Err(e.to_string()),
    }
}

/// The position of the member `key` among `fields`.
pub open spec fn field_index(fields: Seq<(String, JsonValue)>, key: Seq<char>) -> int
    decreases fields.len(),
{
    if fields.len() == 0 {
        -1
    } else if fields.last().0@ == key {
        fields.len() - 1
    } else {
        field_index(fields.drop_last(), key)
    }
}

/// The member `key` of `fields`.
pub open spec fn field(fields: Seq<(String, JsonValue)>, key: Seq<char>) -> Option<JsonValue> {
    let i = field_index(fields, key);
    if 0 <= i < fields.len() {
        Some(fields[i].1)
    } else {
        None
    }
}

pub proof fn lemma_field_index(fields: Seq<(String, JsonValue)>, key: Seq<char>)
    ensures
        -1 <= field_index(fields, key) < fields.len(),
        0 <= field_index(fields, key) ==> fields[field_index(fields, key)].0@ == key,
        field_index(fields, key) == -1 ==> forall|j: int| 0 <= j < fields.len() ==> fields[j].0@ != key,
    decreases fields.len(),
{
    if fields.len() > 0 && fields.last().0@ != key {
        lemma_field_index(fields.drop_last(), key);
        assert forall|j: int| 0 <= j < fields.len() && field_index(fields, key) == -1 implies fields[j].0@ != key by {
            if j < fields.len() - 1 {
                assert(fields.drop_last()[j] == fields[j]);
            }
        }
    }
}

/// The position of the member `key` among `fields` (the last with that key).
pub fn find_field(fields: &Vec<(String, JsonValue)>, key: &str) -> (r: Option<usize>)
    ensures
        match r {
            Some(i) => i == field_index(fields@, key@) && i < fields@.len(),
            None => field_index(fields@, key@) == -1,
        },
{
    let mut i = fields.len();
    proof {
        assert(fields@.take(i as int) =~= fields@);
    }
    while i > 0
        invariant
            i <= fields@.len(),
            field_index(fields@, key@) == field_index(fields@.take(i as int), key@),
        decreases i,
    {
        proof {
            assert(fields@.take(i as int).drop_last() =~= fields@.take(i - 1));
        }
        if crate::text::text_equal(fields[i - 1].0.as_str(), key) {
            return Some(i - 1);
        }
        i = i - 1;
    }
    None
}

/// The invoice id that a webhook document names: the string member `id` of its
/// object member `data`, or the empty string when there is none.
pub open spec fn invoice_id_of(v: JsonValue) -> Seq<char> {
    match v {
        JsonValue::Object(fs) => match field(fs@, "data"@) {
            Some(JsonValue::Object(ds)) => match field(ds@, "id"@) {
                Some(JsonValue::Str(s)) => s@,
                _ => Seq::empty(),
            },
            _ => Seq::empty(),
        },
        _ => Seq::empty(),
    }
}

/// The invoice id that the parsed webhook document `v` names, or the empty
/// string when it names none.
pub fn invoice_id_from(v: &JsonValue) -> (r: String)
    ensures
        r@ == invoice_id_of(*v),
{
    let fs = match v {
        JsonValue::Object(fs) => fs,
        _ => {
            return String::new();
        },
    };
    let ds = match find_field(fs, "data") {
        Some(i) => match &fs[i].1 {
            JsonValue::Object(ds) => ds,
            _ => {
                return String::new();
            },
        },
        None => {
            return String::new();
        },
    };
    match find_field(ds, "id") {
        Some(j) => match &ds[j].1 {
            JsonValue::Str(s) => s.clone(),
            _ => String::new(),
        },
        None => String::new(),
    }
}

/// Reads the invoice id out of a webhook body: a body that is no JSON is
/// refused with the parser's message; otherwise the id is that of
/// `invoice_id_of`, empty when the document names none.
pub fn webhook_invoice_id(body: &str) -> (r: Result<String, String>)
    ensures
        match json_from_str(body@) {
            Err(m) => r matches Err(e) && e@ == m,
            Ok(v) => r matches Ok(s) && s@ == invoice_id_of(v),
        },
{
    match parse_json(body) {
        Ok(v) => Ok(invoice_id_from(&v)),
        Err(e) => Err(e),
    }
}

} // verus!
